//! Per-block change records and the mathematical model of the shared cache.
//!
//! The modification log is a sequence of [`BlockChanges`], ordered by
//! non-increasing block number, newest at the front.  The spec functions here
//! model the log and the LRU contents, the reconciliation sweep run on
//! enacted and retracted blocks, the publication of a view's pending items,
//! and the ancestry walk that gates cache lookups.

use vstd::prelude::*;

use crate::record::AccountRecord;
use crate::record::overwritten;

verus! {

/// The set of addresses touched by one committed block.
#[derive(Debug)]
pub struct BlockChanges {
    /// Block number.
    pub number: u64,
    /// Block hash.
    pub hash: u64,
    /// Parent block hash.
    pub parent: u64,
    /// Addresses modified by the block.
    pub accounts: Vec<u64>,
    /// Whether the block is part of the canonical chain.
    pub is_canon: bool,
}

/// The mathematical view of a [`BlockChanges`] record.
pub ghost struct BlockChangesV {
    pub number: u64,
    pub hash: u64,
    pub parent: u64,
    pub accounts: Set<u64>,
    pub is_canon: bool,
}

/// A pending cache change queued by a view, applied on `sync_cache`.
#[derive(Clone, Copy, Debug)]
pub struct CacheQueueItem {
    /// Account address.
    pub address: u64,
    /// Account data, or `None` if the account is known to be absent.
    pub account: Option<AccountRecord>,
    /// Whether the account was modified before being queued.
    pub modified: bool,
}

pub open spec fn bc_view(m: BlockChanges) -> BlockChangesV {
    BlockChangesV {
        number: m.number,
        hash: m.hash,
        parent: m.parent,
        accounts: m.accounts@.to_set(),
        is_canon: m.is_canon,
    }
}

pub open spec fn log_view(ms: Seq<BlockChanges>) -> Seq<BlockChangesV> {
    Seq::new(ms.len(), |i: int| bc_view(ms[i]))
}

/// The log is ordered by non-increasing block number, newest first.
pub open spec fn log_sorted(s: Seq<BlockChangesV>) -> bool {
    forall|i: int, j: int| 0 <= i <= j < s.len() ==> #[trigger] s[i].number >= #[trigger] s[j].number
}

/// Index of the first record with the given block hash, or -1.
pub open spec fn find_idx(s: Seq<BlockChangesV>, h: u64) -> int
    decreases s.len(),
{
    if s.len() == 0 {
        -1
    } else if s[0].hash == h {
        0
    } else {
        let r = find_idx(s.drop_first(), h);
        if r < 0 {
            -1
        } else {
            r + 1
        }
    }
}

pub proof fn lemma_find_idx(s: Seq<BlockChangesV>, h: u64)
    ensures
        find_idx(s, h) < 0 ==> forall|i: int| 0 <= i < s.len() ==> (#[trigger] s[i]).hash != h,
        find_idx(s, h) >= 0 ==> find_idx(s, h) < s.len() && s[find_idx(s, h)].hash == h && forall|
            i: int,
        | 0 <= i < find_idx(s, h) ==> (#[trigger] s[i]).hash != h,
    decreases s.len(),
{
    if s.len() == 0 {
    } else if s[0].hash == h {
    } else {
        lemma_find_idx(s.drop_first(), h);
        assert forall|i: int| 1 <= i < s.len() implies s.drop_first()[i - 1] == s[i] by {}
    }
}

/// The record with its canonical flag set to `canon`.
pub open spec fn mark(m: BlockChangesV, canon: bool) -> BlockChangesV {
    BlockChangesV { is_canon: canon, ..m }
}

/// One reconciliation pass over a list of block hashes: each hash found in
/// the log has its record's canonical flag set to `canon` and that record's
/// addresses dropped from the LRU; a hash equal to `skip` is ignored; a hash
/// not found at all raises the wipe flag (third component).
pub open spec fn sweep(
    log: Seq<BlockChangesV>,
    lru: Map<u64, Option<AccountRecord>>,
    hashes: Seq<u64>,
    canon: bool,
    skip: Option<u64>,
) -> (Seq<BlockChangesV>, Map<u64, Option<AccountRecord>>, bool)
    decreases hashes.len(),
{
    if hashes.len() == 0 {
        (log, lru, false)
    } else {
        let h = hashes[0];
        if skip == Some(h) {
            sweep(log, lru, hashes.drop_first(), canon, skip)
        } else {
            let i = find_idx(log, h);
            if i >= 0 {
                let rest = sweep(
                    log.update(i, mark(log[i], canon)),
                    lru.remove_keys(log[i].accounts),
                    hashes.drop_first(),
                    canon,
                    skip,
                );
                rest
            } else {
                let rest = sweep(log, lru, hashes.drop_first(), canon, skip);
                (rest.0, rest.1, true)
            }
        }
    }
}

/// Position at which a record with the given number is inserted: the first
/// index holding a strictly smaller number, or the end of the log.
pub open spec fn insert_pos(s: Seq<BlockChangesV>, n: u64) -> int
    decreases s.len(),
{
    if s.len() == 0 {
        0
    } else if s[0].number < n {
        0
    } else {
        1 + insert_pos(s.drop_first(), n)
    }
}

pub proof fn lemma_insert_pos(s: Seq<BlockChangesV>, n: u64)
    ensures
        0 <= insert_pos(s, n) <= s.len(),
        forall|i: int| 0 <= i < insert_pos(s, n) ==> (#[trigger] s[i]).number >= n,
        insert_pos(s, n) < s.len() ==> s[insert_pos(s, n)].number < n,
    decreases s.len(),
{
    if s.len() == 0 {
    } else if s[0].number < n {
    } else {
        lemma_insert_pos(s.drop_first(), n);
        assert forall|i: int| 1 <= i < s.len() implies s.drop_first()[i - 1] == s[i] by {}
    }
}

/// Inserting at the insert position keeps the log ordered.
pub proof fn lemma_insert_sorted(s: Seq<BlockChangesV>, v: BlockChangesV)
    requires
        log_sorted(s),
    ensures
        log_sorted(s.insert(insert_pos(s, v.number), v)),
{
    lemma_insert_pos(s, v.number);
    let p = insert_pos(s, v.number);
    let t = s.insert(p, v);
    assert forall|i: int, j: int| 0 <= i <= j < t.len() implies t[i].number >= t[j].number by {
        if i < p && j < p {
        } else if i < p && j == p {
        } else if i == p && j > p {
            assert(t[j] == s[j - 1]);
            if j - 1 >= p {
                assert(s[p].number < v.number || p >= s.len());
            }
        } else {
        }
    }
}

/// The addresses of the pending items whose `modified` flag is set.
pub open spec fn modified_set(p: Seq<CacheQueueItem>) -> Set<u64> {
    Set::new(
        |a: u64|
            exists|i: int| 0 <= i < p.len() && (#[trigger] p[i]).modified && p[i].address == a,
    )
}

/// Publication of one pending item onto the LRU contents: a modified record
/// overwrites an existing one in place, an unmodified record never displaces
/// an existing entry (which may already carry storage), and anything else is
/// inserted as given.
pub open spec fn apply_one(
    lru: Map<u64, Option<AccountRecord>>,
    it: CacheQueueItem,
) -> Map<u64, Option<AccountRecord>> {
    if lru.dom().contains(it.address) && lru[it.address] is Some && it.account is Some {
        if it.modified {
            lru.insert(
                it.address,
                Some(overwritten(lru[it.address].unwrap(), it.account.unwrap())),
            )
        } else {
            lru
        }
    } else {
        lru.insert(it.address, it.account)
    }
}

/// Publication of a whole pending buffer, in queue order.
pub open spec fn apply_pending(
    lru: Map<u64, Option<AccountRecord>>,
    p: Seq<CacheQueueItem>,
) -> Map<u64, Option<AccountRecord>>
    decreases p.len(),
{
    if p.len() == 0 {
        lru
    } else {
        apply_pending(apply_one(lru, p[0]), p.drop_first())
    }
}

/// The ancestry walk over the log: a lookup is allowed once the walk reaches
/// a canonical record on the view's parent chain, and refused as soon as a
/// record touching the address is passed, or the chain leaves the log.
pub open spec fn allowed_walk(addr: u64, parent: u64, log: Seq<BlockChangesV>) -> bool
    decreases log.len(),
{
    if log.len() == 0 {
        false
    } else {
        let m = log[0];
        if m.hash == parent && m.is_canon {
            true
        } else if m.accounts.contains(addr) {
            false
        } else {
            allowed_walk(
                addr,
                if m.hash == parent {
                    m.parent
                } else {
                    parent
                },
                log.drop_first(),
            )
        }
    }
}

/// Whether a view anchored at `parent_hash` may read `addr` from the shared
/// cache, given the modification log: never without an anchor, always when
/// the log is empty, and otherwise by the ancestry walk.
pub open spec fn allowed_spec(addr: u64, parent_hash: Option<u64>, log: Seq<BlockChangesV>) -> bool {
    match parent_hash {
        None => false,
        Some(p) => log.len() == 0 || allowed_walk(addr, p, log),
    }
}

/// Appending one element adds exactly it to the set of elements.
pub proof fn lemma_push_to_set(s: Seq<u64>, a: u64)
    ensures
        s.push(a).to_set() == s.to_set().insert(a),
{
    assert forall|x: u64| s.push(a).to_set().contains(x) implies s.to_set().insert(a).contains(
        x,
    ) by {
        let i = choose|i: int| 0 <= i < s.push(a).len() && s.push(a)[i] == x;
        if i < s.len() {
            assert(s[i] == x);
            assert(s.contains(x));
        }
    }
    assert forall|x: u64| s.to_set().insert(a).contains(x) implies s.push(a).to_set().contains(
        x,
    ) by {
        if x == a {
            assert(s.push(a)[s.len() as int] == x);
        } else {
            let i = choose|i: int| 0 <= i < s.len() && s[i] == x;
            assert(s.push(a)[i] == x);
        }
        assert(s.push(a).contains(x));
    }
    assert(s.push(a).to_set() =~= s.to_set().insert(a));
}

/// Extending the scanned prefix by one item grows the modified set by that
/// item's address exactly when its flag is set.
pub proof fn lemma_modified_set_step(p: Seq<CacheQueueItem>, i: int)
    requires
        0 <= i < p.len(),
    ensures
        modified_set(p.take(i + 1)) == if p[i].modified {
            modified_set(p.take(i)).insert(p[i].address)
        } else {
            modified_set(p.take(i))
        },
{
    let a = p.take(i + 1);
    let b = p.take(i);
    assert(forall|j: int| 0 <= j < a.len() ==> a[j] == p[j]);
    assert(forall|j: int| 0 <= j < b.len() ==> b[j] == p[j]);
    if p[i].modified {
        assert forall|x: u64| modified_set(a).contains(x) implies modified_set(b).insert(
            p[i].address,
        ).contains(x) by {
            let j = choose|j: int| 0 <= j < a.len() && (#[trigger] a[j]).modified && a[j].address
                == x;
            if j < i {
                assert(b[j].modified && b[j].address == x);
            }
        }
        assert forall|x: u64| modified_set(b).insert(p[i].address).contains(x) implies modified_set(
            a,
        ).contains(x) by {
            if x == p[i].address && p[i].modified {
                assert(a[i].modified && a[i].address == x);
            } else {
                let j = choose|j: int| 0 <= j < b.len() && (#[trigger] b[j]).modified && b[j].address
                    == x;
                assert(a[j].modified && a[j].address == x);
            }
        }
        assert(modified_set(a) =~= modified_set(b).insert(p[i].address));
    } else {
        assert forall|x: u64| modified_set(a).contains(x) implies modified_set(b).contains(x) by {
            let j = choose|j: int| 0 <= j < a.len() && (#[trigger] a[j]).modified && a[j].address
                == x;
            assert(j != i);
            assert(b[j].modified && b[j].address == x);
        }
        assert forall|x: u64| modified_set(b).contains(x) implies modified_set(a).contains(x) by {
            let j = choose|j: int| 0 <= j < b.len() && (#[trigger] b[j]).modified && b[j].address
                == x;
            assert(a[j].modified && a[j].address == x);
        }
        assert(modified_set(a) =~= modified_set(b));
    }
}

/// Whether the vector holds the address.
pub(crate) fn contains_addr(v: &Vec<u64>, addr: u64) -> (r: bool)
    ensures
        r == v@.to_set().contains(addr),
{
    let mut i: usize = 0;
    while i < v.len()
        invariant
            0 <= i <= v@.len(),
            forall|j: int| 0 <= j < i ==> v@[j] != addr,
        decreases v@.len() - i,
    {
        if v[i] == addr {
            assert(v@.contains(addr));
            return true;
        }
        i += 1;
    }
    assert(!v@.contains(addr));
    false
}

/// Index of the first log record with the given hash.
pub(crate) fn find_block(ms: &Vec<BlockChanges>, h: u64) -> (r: Option<usize>)
    ensures
        r is Some ==> r.unwrap() == find_idx(log_view(ms@), h) && r.unwrap() < ms@.len(),
        r is None ==> find_idx(log_view(ms@), h) < 0,
{
    let mut i: usize = 0;
    while i < ms.len()
        invariant
            0 <= i <= ms@.len(),
            forall|j: int| 0 <= j < i ==> (#[trigger] log_view(ms@)[j]).hash != h,
        decreases ms@.len() - i,
    {
        proof {
            assert(log_view(ms@)[i as int] == bc_view(ms@[i as int]));
        }
        if ms[i].hash == h {
            proof {
                lemma_find_idx(log_view(ms@), h);
                let f = find_idx(log_view(ms@), h);
                if f < 0 {
                    assert(log_view(ms@)[i as int].hash != h);
                } else if f < i {
                    assert(log_view(ms@)[f].hash != h);
                } else if f > i {
                    assert(log_view(ms@)[i as int].hash != h);
                }
            }
            return Some(i);
        }
        i += 1;
    }
    proof {
        lemma_find_idx(log_view(ms@), h);
        let f = find_idx(log_view(ms@), h);
        if f >= 0 {
            assert(log_view(ms@)[f].hash != h);
        }
    }
    None
}

/// Index at which a record with the given number is inserted.
pub(crate) fn find_insert_pos(ms: &Vec<BlockChanges>, n: u64) -> (r: usize)
    ensures
        r == insert_pos(log_view(ms@), n),
        r <= ms@.len(),
{
    let mut i: usize = 0;
    while i < ms.len()
        invariant
            0 <= i <= ms@.len(),
            forall|j: int| 0 <= j < i ==> (#[trigger] log_view(ms@)[j]).number >= n,
        decreases ms@.len() - i,
    {
        if ms[i].number < n {
            proof {
                lemma_insert_pos_at(log_view(ms@), n, i as int);
            }
            return i;
        }
        i += 1;
    }
    proof {
        lemma_insert_pos_end(log_view(ms@), n);
    }
    i
}

/// If every record before `i` has number at least `n` and record `i` is
/// strictly smaller, then `i` is the insert position.
pub proof fn lemma_insert_pos_at(s: Seq<BlockChangesV>, n: u64, i: int)
    requires
        0 <= i < s.len(),
        forall|j: int| 0 <= j < i ==> (#[trigger] s[j]).number >= n,
        s[i].number < n,
    ensures
        insert_pos(s, n) == i,
    decreases i,
{
    if i == 0 {
    } else {
        assert forall|j: int| 1 <= j < s.len() implies s.drop_first()[j - 1] == s[j] by {}
        lemma_insert_pos_at(s.drop_first(), n, i - 1);
    }
}

/// If no record has a number strictly below `n`, records are appended.
pub proof fn lemma_insert_pos_end(s: Seq<BlockChangesV>, n: u64)
    requires
        forall|j: int| 0 <= j < s.len() ==> (#[trigger] s[j]).number >= n,
    ensures
        insert_pos(s, n) == s.len(),
    decreases s.len(),
{
    if s.len() == 0 {
    } else {
        assert forall|j: int| 1 <= j < s.len() implies s.drop_first()[j - 1] == s[j] by {}
        lemma_insert_pos_end(s.drop_first(), n);
    }
}

} // verus!
