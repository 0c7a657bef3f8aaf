//! The state database handle and the shared account cache.
//!
//! A `StateDB` is a short-lived per-block view: it carries its own backing
//! store handle, an optional anchor (the parent hash), the block being
//! committed, and a buffer of pending cache changes.  The shared parts — the
//! bounded LRU of account records with its modification log, and the account
//! Bloom — are passed to each operation by the caller, who owns them for the
//! duration of the call (in a concurrent setting, by holding their lock).

use vstd::prelude::*;

use crate::changes::BlockChanges;
use crate::changes::BlockChangesV;
use crate::changes::CacheQueueItem;
use crate::changes::allowed_spec;
use crate::changes::allowed_walk;
use crate::changes::apply_one;
use crate::changes::apply_pending;
use crate::changes::bc_view;
use crate::changes::contains_addr;
use crate::changes::find_block;
use crate::changes::find_insert_pos;
use crate::changes::insert_pos;
use crate::changes::lemma_find_idx;
use crate::changes::lemma_insert_pos;
use crate::changes::lemma_insert_sorted;
use crate::changes::log_sorted;
use crate::changes::log_view;
use crate::changes::mark;
use crate::changes::modified_set;
use crate::changes::sweep;
use crate::lru::lru_cap;
use crate::lru::lru_clear;
use crate::lru::lru_empty;
use crate::lru::lru_get;
use crate::lru::lru_insert;
use crate::lru::lru_len;
use crate::lru::lru_map;
use crate::lru::lru_new;
use crate::lru::lru_remove;
use crate::record::AccountRecord;
use crate::record::basic_of;
use crate::store::BackingStore;
use crate::store::WriteBatch;
use crate::store::apply_puts;
use crate::bloom::AccountBloom;
use crate::bloom::BloomJournal;
use crate::bloom::bloom_has;
use crate::codec::hashcount_key;
use crate::codec::hashcount_key_spec;
use crate::codec::le_bytes_of;
use crate::codec::le_val_of;
use crate::codec::u64_from_le;
use crate::codec::u64_to_le;
use crate::ACCOUNT_BLOOM_SPACE;
use crate::ACCOUNT_BLOOM_WORDS;
use crate::DEFAULT_ACCOUNT_PRESET;
use crate::STATE_CACHE_BLOCKS;
use crate::STATE_CACHE_ITEMS;
use lru_cache::LruCache;

verus! {

/// The shared canonical state cache: the bounded LRU of account records and
/// the modification log, one structure under one lock.
pub struct SharedAccountCache {
    accounts: LruCache<u64, Option<AccountRecord>>,
    modifications: Vec<BlockChanges>,
}

impl SharedAccountCache {
    /// The entries currently cached, by address.
    pub closed spec fn lru(self) -> Map<u64, Option<AccountRecord>> {
        lru_map(self.accounts)
    }

    /// The modification log, newest block first.
    pub closed spec fn log(self) -> Seq<BlockChangesV> {
        log_view(self.modifications@)
    }

    /// The LRU capacity.
    pub closed spec fn cap(self) -> nat {
        lru_cap(self.accounts)
    }

    /// The cache invariant: the LRU is bounded by its configured capacity and
    /// the log holds at most `STATE_CACHE_BLOCKS` records in non-increasing
    /// block-number order.
    pub open spec fn wf(self) -> bool {
        &&& self.cap() == STATE_CACHE_ITEMS
        &&& self.lru().dom().finite()
        &&& self.lru().len() <= self.cap()
        &&& self.log().len() <= STATE_CACHE_BLOCKS
        &&& log_sorted(self.log())
    }

    /// A fresh, empty cache.
    pub fn new() -> (r: SharedAccountCache)
        ensures
            r.wf(),
            r.lru() == lru_empty(),
            r.log() == Seq::<BlockChangesV>::empty(),
    {
        let r = SharedAccountCache { accounts: lru_new(STATE_CACHE_ITEMS), modifications: Vec::new() };
        proof {
            assert(r.log() =~= Seq::<BlockChangesV>::empty());
        }
        r
    }

    /// Number of entries currently cached.
    pub fn cache_len(&self) -> (r: usize)
        ensures
            r == self.lru().len(),
    {
        lru_len(&self.accounts)
    }

    /// Number of records in the modification log.
    pub fn log_len(&self) -> (r: usize)
        ensures
            r == self.log().len(),
    {
        self.modifications.len()
    }
}

/// One reconciliation pass: both phases of `sync_cache` composed, then the
/// wipe that follows a log miss.  Yields the log and LRU contents before the
/// just-committed block is published, and whether a wipe happened.
pub open spec fn sweep_phase(
    log: Seq<BlockChangesV>,
    lru: Map<u64, Option<AccountRecord>>,
    enacted: Seq<u64>,
    retracted: Seq<u64>,
    commit_hash: Option<u64>,
) -> (Seq<BlockChangesV>, Map<u64, Option<AccountRecord>>, bool) {
    let e = if commit_hash is Some {
        sweep(log, lru, enacted, true, commit_hash)
    } else {
        (log, lru, false)
    };
    let r = sweep(e.0, e.1, retracted, false, None);
    (r.0, r.1, e.2 || r.2)
}

/// The log after the just-committed block's record is inserted: the oldest
/// record is dropped if the log is full, and the new record goes to the first
/// position whose number is strictly smaller.
pub open spec fn publish_log(lg: Seq<BlockChangesV>, v: BlockChangesV) -> Seq<BlockChangesV> {
    let lg2 = if lg.len() == STATE_CACHE_BLOCKS as int {
        lg.drop_last()
    } else {
        lg
    };
    lg2.insert(insert_pos(lg2, v.number), v)
}

/// State database view over the shared cache, Bloom and backing store.
pub struct StateDB {
    db: BackingStore,
    pending_cache: Vec<CacheQueueItem>,
    parent_hash: Option<u64>,
    commit_hash: Option<u64>,
    commit_number: Option<u64>,
}

impl StateDB {
    /// The view's backing store handle.
    pub closed spec fn store(self) -> BackingStore {
        self.db
    }

    /// The queued pending cache changes, in insertion order.
    pub closed spec fn pending(self) -> Seq<CacheQueueItem> {
        self.pending_cache@
    }

    /// The anchor: hash of the block this view sits on top of, or `None` if
    /// cache lookups are disabled for this view.
    pub closed spec fn parent(self) -> Option<u64> {
        self.parent_hash
    }

    /// Hash of the committed block, once `commit` has run.
    pub closed spec fn committed_hash(self) -> Option<u64> {
        self.commit_hash
    }

    /// Number of the committed block, once `commit` has run.
    pub closed spec fn committed_number(self) -> Option<u64> {
        self.commit_number
    }

    /// A fresh view over the given store, with cache lookups disabled.
    pub fn new(db: BackingStore) -> (r: StateDB)
        ensures
            r.store() == db,
            r.pending() == Seq::<CacheQueueItem>::empty(),
            r.parent() is None,
            r.committed_hash() is None,
            r.committed_number() is None,
    {
        StateDB {
            db,
            pending_cache: Vec::new(),
            parent_hash: None,
            commit_hash: None,
            commit_number: None,
        }
    }

    /// Clone the view without an anchor: cache lookups always miss.
    pub fn boxed_clone(&self) -> (r: StateDB)
        ensures
            r.store().wf() == self.store().wf(),
            r.store().contents() == self.store().contents(),
            r.store().pruned_flag() == self.store().pruned_flag(),
            r.pending() == Seq::<CacheQueueItem>::empty(),
            r.parent() is None,
            r.committed_hash() is None,
            r.committed_number() is None,
    {
        StateDB {
            db: self.db.duplicate(),
            pending_cache: Vec::new(),
            parent_hash: None,
            commit_hash: None,
            commit_number: None,
        }
    }

    /// Clone the view anchored at a known parent block, for canonical use.
    pub fn boxed_clone_canon(&self, parent: u64) -> (r: StateDB)
        ensures
            r.store().wf() == self.store().wf(),
            r.store().contents() == self.store().contents(),
            r.store().pruned_flag() == self.store().pruned_flag(),
            r.pending() == Seq::<CacheQueueItem>::empty(),
            r.parent() == Some(parent),
            r.committed_hash() is None,
            r.committed_number() is None,
    {
        StateDB {
            db: self.db.duplicate(),
            pending_cache: Vec::new(),
            parent_hash: Some(parent),
            commit_hash: None,
            commit_number: None,
        }
    }

    /// Whether pruning is enabled on the backing store.
    pub fn is_pruned(&self) -> (r: bool)
        ensures
            r == self.store().pruned_flag(),
    {
        self.db.is_pruned()
    }

    /// Size measure of the backing store.
    pub fn mem_used(&self) -> (r: usize)
        requires
            self.store().wf(),
        ensures
            r == self.store().contents().len(),
    {
        self.db.mem_used()
    }

    /// The underlying journaled store.
    pub fn journal_db(&self) -> (r: &BackingStore)
        ensures
            *r == self.store(),
    {
        &self.db
    }

    /// The raw store interface, for trie-level access.
    pub fn as_hashdb(&self) -> (r: &BackingStore)
        ensures
            *r == self.store(),
    {
        &self.db
    }

    /// The raw mutable store interface, for trie-level access.
    pub fn as_hashdb_mut(&mut self) -> (r: &mut BackingStore)
        ensures
            *r == old(self).store(),
            final(self).store() == *final(r),
            final(self).pending() == old(self).pending(),
            final(self).parent() == old(self).parent(),
            final(self).committed_hash() == old(self).committed_hash(),
            final(self).committed_number() == old(self).committed_number(),
    {
        &mut self.db
    }

    /// Queue a pending cache change, applied on `sync_cache`.
    pub fn add_to_account_cache(&mut self, addr: u64, data: Option<AccountRecord>, modified: bool)
        ensures
            final(self).pending() == old(self).pending().push(
                CacheQueueItem { address: addr, account: data, modified },
            ),
            final(self).store() == old(self).store(),
            final(self).parent() == old(self).parent(),
            final(self).committed_hash() == old(self).committed_hash(),
            final(self).committed_number() == old(self).committed_number(),
    {
        self.pending_cache.push(CacheQueueItem { address: addr, account: data, modified });
    }

    /// Whether the account may be served from the shared cache: the anchor's
    /// ancestry must reach a canonical log record before any record touching
    /// the address, as [`allowed_spec`] states.
    pub fn is_allowed(addr: u64, parent_hash: &Option<u64>, modifications: &Vec<BlockChanges>) -> (r:
        bool)
        ensures
            r == allowed_spec(addr, *parent_hash, log_view(modifications@)),
    {
        let p: u64 = match parent_hash {
            None => {
                return false;
            },
            Some(p) => *p,
        };
        if modifications.len() == 0 {
            return true;
        }
        let ghost lg = log_view(modifications@);
        proof {
            assert(lg.skip(0) =~= lg);
        }
        let mut cur: u64 = p;
        let mut i: usize = 0;
        while i < modifications.len()
            invariant
                0 <= i <= modifications@.len(),
                lg == log_view(modifications@),
                lg.len() == modifications@.len() > 0,
                *parent_hash == Some(p),
                allowed_walk(addr, p, lg) == allowed_walk(addr, cur, lg.skip(i as int)),
            decreases modifications@.len() - i,
        {
            proof {
                assert(lg[i as int] == bc_view(modifications@[i as int]));
                assert(lg.skip(i as int)[0] == lg[i as int]);
                assert(lg.skip(i as int).drop_first() =~= lg.skip(i + 1));
            }
            let hit = modifications[i].hash == cur;
            if hit && modifications[i].is_canon {
                return true;
            }
            if contains_addr(&modifications[i].accounts, addr) {
                return false;
            }
            if hit {
                cur = modifications[i].parent;
            }
            i += 1;
        }
        proof {
            assert(lg.skip(modifications@.len() as int).len() == 0);
        }
        false
    }

    /// A basic copy of the cached account, without storage.  `None` means the
    /// cache cannot serve this view; `Some(None)` that the account is known
    /// to be absent.
    pub fn get_cached_account(&self, cache: &mut SharedAccountCache, addr: u64) -> (r: Option<
        Option<AccountRecord>,
    >)
        ensures
            final(cache).lru() == old(cache).lru(),
            final(cache).log() == old(cache).log(),
            final(cache).cap() == old(cache).cap(),
            r == if allowed_spec(addr, self.parent(), old(cache).log()) && old(
                cache,
            ).lru().dom().contains(addr) {
                Some(
                    match old(cache).lru()[addr] {
                        Some(a) => Some(basic_of(a)),
                        None => None,
                    },
                )
            } else {
                None::<Option<AccountRecord>>
            },
    {
        if !Self::is_allowed(addr, &self.parent_hash, &cache.modifications) {
            return None;
        }
        match lru_get(&mut cache.accounts, addr) {
            None => None,
            Some(entry) => Some(
                match entry {
                    Some(a) => Some(a.clone_basic()),
                    None => None,
                },
            ),
        }
    }

    /// The cached entry itself, for callers that need the full record.
    /// Gated exactly as `get_cached_account`.
    pub fn get_cached(&self, cache: &mut SharedAccountCache, addr: u64) -> (r: Option<
        Option<AccountRecord>,
    >)
        ensures
            final(cache).lru() == old(cache).lru(),
            final(cache).log() == old(cache).log(),
            final(cache).cap() == old(cache).cap(),
            r == if allowed_spec(addr, self.parent(), old(cache).log()) && old(
                cache,
            ).lru().dom().contains(addr) {
                Some(old(cache).lru()[addr])
            } else {
                None::<Option<AccountRecord>>
            },
    {
        if !Self::is_allowed(addr, &self.parent_hash, &cache.modifications) {
            return None;
        }
        lru_get(&mut cache.accounts, addr)
    }

    /// Store a populated record back onto the cached entry, for readers that
    /// accumulate storage into the shared copy.  Only an already-cached,
    /// present entry is replaced, and only when the view may see it.
    pub fn update_cached(&self, cache: &mut SharedAccountCache, addr: u64, data: AccountRecord) -> (r:
        bool)
        requires
            old(cache).wf(),
        ensures
            final(cache).wf(),
            final(cache).log() == old(cache).log(),
            final(cache).cap() == old(cache).cap(),
            r == (allowed_spec(addr, self.parent(), old(cache).log()) && old(
                cache,
            ).lru().dom().contains(addr) && old(cache).lru()[addr] is Some),
            r ==> final(cache).lru() == old(cache).lru().insert(addr, Some(data)),
            !r ==> final(cache).lru() == old(cache).lru(),
    {
        if !Self::is_allowed(addr, &self.parent_hash, &cache.modifications) {
            return false;
        }
        match lru_get(&mut cache.accounts, addr) {
            Some(Some(_)) => {
                let _ = lru_insert(&mut cache.accounts, addr, Some(data));
                true
            },
            Some(None) => false,
            None => false,
        }
    }
}

/// Drop every listed address from the LRU.
fn remove_addrs(acc: &mut LruCache<u64, Option<AccountRecord>>, addrs: &Vec<u64>)
    ensures
        lru_map(*final(acc)) == lru_map(*old(acc)).remove_keys(addrs@.to_set()),
        lru_cap(*final(acc)) == lru_cap(*old(acc)),
{
    proof {
        assert(lru_map(*acc) =~= lru_map(*acc).remove_keys(addrs@.take(0).to_set()));
    }
    let mut i: usize = 0;
    while i < addrs.len()
        invariant
            0 <= i <= addrs@.len(),
            lru_cap(*acc) == lru_cap(*old(acc)),
            lru_map(*acc) == lru_map(*old(acc)).remove_keys(addrs@.take(i as int).to_set()),
        decreases addrs@.len() - i,
    {
        let a = addrs[i];
        let _ = lru_remove(acc, a);
        i += 1;
        proof {
            assert(addrs@.take(i as int) =~= addrs@.take(i - 1).push(a));
            crate::changes::lemma_push_to_set(addrs@.take(i - 1), a);
            assert(lru_map(*acc) =~= lru_map(*old(acc)).remove_keys(addrs@.take(i as int).to_set()));
        }
    }
    proof {
        assert(addrs@.take(addrs@.len() as int) =~= addrs@);
    }
}

/// One pass of the reconciliation sweep over a list of block hashes.
fn sweep_pass(cache: &mut SharedAccountCache, hashes: &Vec<u64>, canon: bool, skip: Option<u64>) -> (clear:
    bool)
    requires
        old(cache).wf(),
    ensures
        final(cache).wf(),
        final(cache).cap() == old(cache).cap(),
        ({
            let r = sweep(old(cache).log(), old(cache).lru(), hashes@, canon, skip);
            final(cache).log() == r.0 && final(cache).lru() == r.1 && clear == r.2
        }),
{
    proof {
        assert(hashes@.skip(0) =~= hashes@);
    }
    let mut clear: bool = false;
    let mut i: usize = 0;
    while i < hashes.len()
        invariant
            0 <= i <= hashes@.len(),
            cache.wf(),
            cache.cap() == old(cache).cap(),
            ({
                let full = sweep(old(cache).log(), old(cache).lru(), hashes@, canon, skip);
                let rem = sweep(cache.log(), cache.lru(), hashes@.skip(i as int), canon, skip);
                full.0 == rem.0 && full.1 == rem.1 && full.2 == (clear || rem.2)
            }),
        decreases hashes@.len() - i,
    {
        let h = hashes[i];
        proof {
            assert(hashes@.skip(i as int)[0] == h);
            assert(hashes@.skip(i as int).drop_first() =~= hashes@.skip(i + 1));
        }
        let skip_this = match skip {
            Some(p) => p == h,
            None => false,
        };
        if !skip_this {
            let found = find_block(&cache.modifications, h);
            match found {
                Some(idx) => {
                    let ghost lgpre = cache.log();
                    let ghost mppre = cache.lru();
                    let ghost ms0 = cache.modifications@;
                    proof {
                        lemma_find_idx(lgpre, h);
                        assert(lgpre[idx as int] == bc_view(ms0[idx as int]));
                    }
                    let mut m = cache.modifications.remove(idx);
                    remove_addrs(&mut cache.accounts, &m.accounts);
                    m.is_canon = canon;
                    cache.modifications.insert(idx, m);
                    proof {
                        assert(cache.modifications@ =~= ms0.update(idx as int, cache.modifications@[idx as int]));
                        assert(cache.lru() == mppre.remove_keys(lgpre[idx as int].accounts));
                        assert forall|j: int| 0 <= j < cache.log().len() implies cache.log()[j]
                            == lgpre.update(idx as int, mark(lgpre[idx as int], canon))[j] by {
                            assert(cache.log()[j] == bc_view(cache.modifications@[j]));
                            assert(lgpre[j] == bc_view(ms0[j]));
                            if j != idx {
                                assert(cache.modifications@[j] == ms0[j]);
                            }
                        }
                        assert(cache.log() =~= lgpre.update(idx as int, mark(lgpre[idx as int], canon)));
                        assert(cache.wf()) by {
                            assert(mppre.dom().finite());
                            assert(cache.lru().dom() =~= mppre.dom().difference(lgpre[idx as int].accounts));
                            vstd::set_lib::lemma_len_subset(cache.lru().dom(), mppre.dom());
                            assert(log_sorted(cache.log())) by {
                                assert forall|a: int, b: int|
                                    0 <= a <= b < cache.log().len() implies cache.log()[a].number
                                    >= cache.log()[b].number by {
                                    assert(cache.log()[a].number == lgpre[a].number);
                                    assert(cache.log()[b].number == lgpre[b].number);
                                }
                            }
                        }
                    }
                },
                None => {
                    clear = true;
                },
            }
        }
        i += 1;
    }
    proof {
        assert(hashes@.skip(hashes@.len() as int).len() == 0);
    }
    clear
}

impl StateDB {
    /// Apply the pending changes and reconcile the shared cache with the
    /// canonical chain after a commit: records of enacted and retracted
    /// blocks are re-flagged and their addresses invalidated, a hash missing
    /// from the log wipes the whole cache, and the just-committed block is
    /// then published — its pending entries to the LRU only when it is the
    /// new best block, its change record to the log always.
    pub fn sync_cache(
        &mut self,
        cache: &mut SharedAccountCache,
        enacted: &Vec<u64>,
        retracted: &Vec<u64>,
        is_best: bool,
    )
        requires
            old(cache).wf(),
        ensures
            final(cache).wf(),
            final(cache).cap() == old(cache).cap(),
            final(self).store() == old(self).store(),
            final(self).parent() == old(self).parent(),
            final(self).committed_hash() == old(self).committed_hash(),
            final(self).committed_number() == old(self).committed_number(),
            final(self).pending() == if old(self).committed_number() is Some && old(
                self,
            ).committed_hash() is Some && old(self).parent() is Some {
                Seq::<CacheQueueItem>::empty()
            } else {
                old(self).pending()
            },
            ({
                let sw = sweep_phase(
                    old(cache).log(),
                    old(cache).lru(),
                    enacted@,
                    retracted@,
                    old(self).committed_hash(),
                );
                let lg = if sw.2 {
                    Seq::<BlockChangesV>::empty()
                } else {
                    sw.0
                };
                let mp = if sw.2 {
                    Map::<u64, Option<AccountRecord>>::empty()
                } else {
                    sw.1
                };
                if old(self).committed_number() is Some && old(self).committed_hash() is Some
                    && old(self).parent() is Some {
                    let v = BlockChangesV {
                        number: old(self).committed_number().unwrap(),
                        hash: old(self).committed_hash().unwrap(),
                        parent: old(self).parent().unwrap(),
                        accounts: modified_set(old(self).pending()),
                        is_canon: is_best,
                    };
                    &&& final(cache).log() == publish_log(lg, v)
                    &&& (is_best && mp.len() + old(self).pending().len() <= old(cache).cap()
                        ==> final(cache).lru() == apply_pending(mp, old(self).pending()))
                    &&& (!is_best ==> final(cache).lru() == mp)
                } else {
                    &&& final(cache).log() == lg
                    &&& final(cache).lru() == mp
                }
            }),
    {
        let ghost sw = sweep_phase(
            old(cache).log(),
            old(cache).lru(),
            enacted@,
            retracted@,
            old(self).committed_hash(),
        );
        let mut clear: bool = false;
        if self.commit_hash.is_some() {
            clear = sweep_pass(cache, enacted, true, self.commit_hash);
        }
        let clear2 = sweep_pass(cache, retracted, false, None);
        clear = clear || clear2;
        proof {
            assert(clear == sw.2 && cache.log() == sw.0 && cache.lru() == sw.1);
        }
        if clear {
            lru_clear(&mut cache.accounts);
            cache.modifications.clear();
            proof {
                assert(cache.log() =~= Seq::<BlockChangesV>::empty());
            }
        }
        let ghost lg = cache.log();
        let ghost mp = cache.lru();
        if self.commit_number.is_some() && self.commit_hash.is_some() && self.parent_hash.is_some() {
            let number = self.commit_number.unwrap();
            let hash = self.commit_hash.unwrap();
            let parent = self.parent_hash.unwrap();
            if cache.modifications.len() == STATE_CACHE_BLOCKS {
                let ghost msfull = cache.modifications@;
                let _ = cache.modifications.pop();
                proof {
                    assert(cache.modifications@ =~= msfull.drop_last());
                    assert forall|j: int| 0 <= j < cache.log().len() implies cache.log()[j]
                        == log_view(msfull).drop_last()[j] by {
                        assert(cache.log()[j] == bc_view(cache.modifications@[j]));
                        assert(log_view(msfull)[j] == bc_view(msfull[j]));
                    }
                    assert(cache.log() =~= log_view(msfull).drop_last());
                }
            }
            let ghost lgpub = cache.log();
            let ghost mp0 = cache.lru();
            let ghost pend = self.pending_cache@;
            let ghost cap0 = cache.cap();
            let ghost fits = mp0.len() + pend.len() <= cap0;
            let mut accounts: Vec<u64> = Vec::new();
            proof {
                assert(pend.skip(0) =~= pend);
                assert(accounts@.to_set() =~= modified_set(pend.take(0)));
            }
            let mut i: usize = 0;
            while i < self.pending_cache.len()
                invariant
                    0 <= i <= pend.len(),
                    self.pending_cache@ == pend,
                    cache.log() == lgpub,
                    cache.cap() == cap0,
                    cap0 == STATE_CACHE_ITEMS,
                    cache.lru().dom().finite(),
                    cache.lru().len() <= cap0,
                    accounts@.to_set() == modified_set(pend.take(i as int)),
                    fits == (mp0.len() + pend.len() <= cap0),
                    is_best && fits ==> apply_pending(mp0, pend) == apply_pending(
                        cache.lru(),
                        pend.skip(i as int),
                    ) && cache.lru().len() <= mp0.len() + i,
                    !is_best ==> cache.lru() == mp0,
                decreases pend.len() - i,
            {
                let it = self.pending_cache[i];
                proof {
                    assert(pend[i as int] == it);
                    assert(pend.skip(i as int)[0] == it);
                    assert(pend.skip(i as int).drop_first() =~= pend.skip(i + 1));
                }
                let ghost acc_pre = accounts@;
                if it.modified {
                    accounts.push(it.address);
                }
                proof {
                    crate::changes::lemma_modified_set_step(pend, i as int);
                    if it.modified {
                        crate::changes::lemma_push_to_set(acc_pre, it.address);
                    }
                }
                if is_best {
                    let ghost cur = cache.lru();
                    let fetched = lru_get(&mut cache.accounts, it.address);
                    match fetched {
                        Some(existing_entry) => {
                            match existing_entry {
                                Some(mut existing) => {
                                    match it.account {
                                        Some(newrec) => {
                                            if it.modified {
                                                existing.overwrite_with(newrec);
                                                let _ = lru_insert(
                                                    &mut cache.accounts,
                                                    it.address,
                                                    Some(existing),
                                                );
                                            }
                                        },
                                        None => {
                                            let _ = lru_insert(
                                                &mut cache.accounts,
                                                it.address,
                                                it.account,
                                            );
                                        },
                                    }
                                },
                                None => {
                                    let _ = lru_insert(&mut cache.accounts, it.address, it.account);
                                },
                            }
                        },
                        None => {
                            let _ = lru_insert(&mut cache.accounts, it.address, it.account);
                        },
                    }
                    proof {
                        broadcast use vstd::set::axiom_set_insert_len;

                        if cur.dom().contains(it.address) || cur.len() < cap0 {
                            assert(cache.lru() == apply_one(cur, it));
                            assert(cache.lru().dom() =~= cur.dom().insert(it.address)
                                || cache.lru().dom() =~= cur.dom());
                            assert(cache.lru().len() <= cur.len() + 1);
                        } else {
                            let e = choose|e: u64|
                                e != it.address && cur.dom().contains(e) && cache.lru()
                                    == cur.insert(it.address, it.account).remove(e);
                            assert(cache.lru().len() <= cur.len() + 1);
                        }
                        if fits {
                            assert(cur.len() < cap0);
                            assert(cache.lru() == apply_one(cur, it));
                        }
                    }
                }
                i += 1;
            }
            proof {
                assert(pend.take(pend.len() as int) =~= pend);
                assert(pend.skip(pend.len() as int).len() == 0);
            }
            self.pending_cache.clear();
            let pos = find_insert_pos(&cache.modifications, number);
            let ghost mspub = cache.modifications@;
            let bc = BlockChanges { number, hash, parent, accounts, is_canon: is_best };
            cache.modifications.insert(pos, bc);
            proof {
                assert(cache.modifications@ == mspub.insert(pos as int, bc));
                assert forall|j: int| 0 <= j < cache.log().len() implies cache.log()[j]
                    == lgpub.insert(pos as int, bc_view(bc))[j] by {
                    assert(cache.log()[j] == bc_view(cache.modifications@[j]));
                    if j < pos {
                        assert(cache.modifications@[j] == mspub[j]);
                        assert(lgpub[j] == bc_view(mspub[j]));
                    } else if j == pos {
                        assert(cache.modifications@[j] == bc);
                    } else {
                        assert(cache.modifications@[j] == mspub[j - 1]);
                        assert(lgpub[j - 1] == bc_view(mspub[j - 1]));
                    }
                }
                assert(cache.log() =~= lgpub.insert(pos as int, bc_view(bc)));
                lemma_insert_sorted(lgpub, bc_view(bc));
                lemma_insert_pos(lgpub, number);
                assert(self.pending_cache@ =~= Seq::<CacheQueueItem>::empty());
            }
        }
    }
}

/// Errors surfaced while bootstrapping the Bloom from the backing store.
#[derive(Clone, Copy, Debug, PartialEq, Eq, Structural)]
pub enum BloomError {
    /// The persisted hash-function count is not a single non-zero byte.
    CorruptHashCount,
}

/// The Bloom word stored under index `i` of the dedicated column, taking an
/// absent key as zero.
pub open spec fn word_at(m: Map<Seq<u8>, Seq<u8>>, i: int) -> u64 {
    if m.dom().contains(le_bytes_of(i as u64)) {
        le_val_of(m[le_bytes_of(i as u64)])
    } else {
        0
    }
}

/// The puts a Bloom journal turns into: each dirty word keyed by its 8-byte
/// little-endian index.
pub open spec fn journal_puts(es: Seq<(u64, u64)>) -> Seq<(Seq<u8>, Seq<u8>)> {
    Seq::new(es.len(), |t: int| (le_bytes_of(es[t].0), le_bytes_of(es[t].1)))
}

/// What a commit appends to the batch for a Bloom with the given words, base
/// and hash-function count: first the count under its well-known key, then
/// the journal `entries` as word puts — index-sorted, carrying current word
/// values, and covering every word that changed since the last drain.
pub open spec fn bloom_commit_added(
    added: Seq<(Seq<u8>, Seq<u8>)>,
    entries: Seq<(u64, u64)>,
    words: Seq<u64>,
    base: Seq<u64>,
    k: u32,
) -> bool {
    &&& added == seq![(hashcount_key_spec(), seq![k as u8])] + journal_puts(entries)
    &&& forall|t: int|
        0 <= t < entries.len() ==> 0 <= ((#[trigger] entries[t]).0 as int) < ACCOUNT_BLOOM_WORDS
            && entries[t].1 == words[entries[t].0 as int]
    &&& forall|t1: int, t2: int|
        0 <= t1 < t2 < entries.len() ==> (#[trigger] entries[t1]).0 < (#[trigger] entries[t2]).0
    &&& forall|w: int|
        0 <= w < ACCOUNT_BLOOM_WORDS && words[w] != base[w] ==> exists|t: int|
            0 <= t < entries.len() && (#[trigger] entries[t]).0 == w
}

impl StateDB {
    /// Probe the shared account Bloom for the address.
    pub fn check_account_bloom(&self, bloom: &AccountBloom, address: u64) -> (r: bool)
        requires
            bloom.wf(),
        ensures
            r == bloom_has(bloom.words_view(), bloom.hash_count_spec(), address),
    {
        bloom.check(address)
    }

    /// Record the address in the shared account Bloom.
    pub fn note_account_bloom(&self, bloom: &mut AccountBloom, address: u64)
        requires
            old(bloom).wf(),
        ensures
            final(bloom).wf(),
            final(bloom).hash_count_spec() == old(bloom).hash_count_spec(),
            final(bloom).base_view() == old(bloom).base_view(),
            final(bloom).words_view().len() == old(bloom).words_view().len(),
            forall|b: int|
                0 <= b < (ACCOUNT_BLOOM_SPACE as int) && crate::bloom::bit_is_set(
                    old(bloom).words_view(),
                    b,
                ) ==> crate::bloom::bit_is_set(final(bloom).words_view(), b),
            bloom_has(final(bloom).words_view(), final(bloom).hash_count_spec(), address),
    {
        bloom.note(address)
    }

    /// Write a Bloom journal into the batch: the hash-function count under its
    /// well-known key, then each dirty word under its index key.
    pub fn commit_bloom(batch: &mut WriteBatch, journal: BloomJournal)
        requires
            journal.hash_functions <= 255,
        ensures
            final(batch).puts() == old(batch).puts().push(
                (hashcount_key_spec(), seq![journal.hash_functions as u8]),
            ) + journal_puts(journal.entries@),
    {
        let mut count: Vec<u8> = Vec::new();
        count.push(journal.hash_functions as u8);
        proof {
            assert(count@ =~= seq![journal.hash_functions as u8]);
        }
        let ghost base = old(batch).puts().push(
            (hashcount_key_spec(), seq![journal.hash_functions as u8]),
        );
        batch.put(hashcount_key(), count);
        proof {
            assert(batch.puts() =~~= base + journal_puts(journal.entries@.take(0)));
        }
        let mut t: usize = 0;
        while t < journal.entries.len()
            invariant
                0 <= t <= journal.entries@.len(),
                batch.puts() == base + journal_puts(journal.entries@.take(t as int)),
            decreases journal.entries@.len() - t,
        {
            let idx = journal.entries[t].0;
            let val = journal.entries[t].1;
            batch.put(u64_to_le(idx), u64_to_le(val));
            t += 1;
            proof {
                assert(journal.entries@.take(t as int) =~= journal.entries@.take(t - 1).push(
                    journal.entries@[t - 1],
                ));
                assert(journal_puts(journal.entries@.take(t as int)) =~~= journal_puts(
                    journal.entries@.take(t - 1),
                ).push((le_bytes_of(idx), le_bytes_of(val))));
                assert(batch.puts() =~~= base + journal_puts(journal.entries@.take(t as int)));
            }
        }
        proof {
            assert(journal.entries@.take(journal.entries@.len() as int) =~= journal.entries@);
        }
    }

    /// Commit: drain the Bloom journal into the batch, then run the store's
    /// journaled era commit and remember the committed block.
    #[verifier::rlimit(60)]
    pub fn commit(
        &mut self,
        bloom: &mut AccountBloom,
        batch: &mut WriteBatch,
        now: u64,
        id: u64,
        end: Option<(u64, u64)>,
    ) -> (r: u32)
        requires
            old(bloom).wf(),
            old(self).store().wf(),
            old(batch).puts().len() + ACCOUNT_BLOOM_WORDS + 1 <= 0xffff_ffff,
        ensures
            final(self).committed_hash() == Some(id),
            final(self).committed_number() == Some(now),
            final(self).parent() == old(self).parent(),
            final(self).pending() == old(self).pending(),
            final(self).store().wf(),
            final(self).store().pruned_flag() == old(self).store().pruned_flag(),
            final(self).store().contents() == apply_puts(
                old(self).store().contents(),
                final(batch).puts(),
            ),
            r == final(batch).puts().len(),
            final(bloom).wf(),
            final(bloom).words_view() == old(bloom).words_view(),
            final(bloom).hash_count_spec() == old(bloom).hash_count_spec(),
            final(bloom).base_view() == final(bloom).words_view(),
            final(batch).puts().len() > old(batch).puts().len(),
            exists|es: Seq<(u64, u64)>|
                #[trigger] bloom_commit_added(
                    final(batch).puts().skip(old(batch).puts().len() as int),
                    es,
                    old(bloom).words_view(),
                    old(bloom).base_view(),
                    old(bloom).hash_count_spec(),
                ),
        {
        let journal = bloom.drain_journal();
        let ghost entries = journal.entries@;
        Self::commit_bloom(batch, journal);
        let records = self.db.commit(batch, now, id, end);
        self.commit_hash = Some(id);
        self.commit_number = Some(now);
        proof {
            let added = batch.puts().skip(old(batch).puts().len() as int);
            assert(added =~~= seq![
                (hashcount_key_spec(), seq![old(bloom).hash_count_spec() as u8]),
            ] + journal_puts(entries));
            assert(bloom_commit_added(
                added,
                entries,
                old(bloom).words_view(),
                old(bloom).base_view(),
                old(bloom).hash_count_spec(),
            ));
        }
        records
    }

    /// Load the account Bloom from the backing store: a fresh filter when the
    /// hash-function count was never persisted, otherwise the stored words
    /// reassembled; a count entry that is not one non-zero byte is corrupt.
    pub fn load_bloom(db: &BackingStore) -> (r: Result<AccountBloom, BloomError>)
        requires
            db.wf(),
            forall|i: int|
                0 <= i < ACCOUNT_BLOOM_WORDS && db.contents().dom().contains(
                    #[trigger] le_bytes_of(i as u64),
                ) ==> db.contents()[le_bytes_of(i as u64)].len() == 8,
        ensures
            ({
                let m = db.contents();
                if !m.dom().contains(hashcount_key_spec()) {
                    r is Ok && r.unwrap().wf() && r.unwrap().hash_count_spec()
                        == crate::bloom::bloom_k(
                        ACCOUNT_BLOOM_SPACE as int,
                        DEFAULT_ACCOUNT_PRESET as int,
                    ) && r.unwrap().base_view() == r.unwrap().words_view() && forall|w: int|
                        0 <= w < ACCOUNT_BLOOM_WORDS ==> r.unwrap().words_view()[w] == 0
                } else if m[hashcount_key_spec()].len() == 1 && m[hashcount_key_spec()][0] != 0 {
                    r is Ok && r.unwrap().wf() && r.unwrap().hash_count_spec()
                        == m[hashcount_key_spec()][0] && r.unwrap().base_view()
                        == r.unwrap().words_view() && r.unwrap().words_view().len()
                        == ACCOUNT_BLOOM_WORDS && forall|w: int|
                        0 <= w < ACCOUNT_BLOOM_WORDS ==> r.unwrap().words_view()[w] == word_at(m, w)
                } else {
                    r == Err::<AccountBloom, BloomError>(BloomError::CorruptHashCount)
                }
            }),
    {
        let hk = hashcount_key();
        let stored = db.get(&hk);
        match stored {
            None => Ok(AccountBloom::new(ACCOUNT_BLOOM_SPACE, DEFAULT_ACCOUNT_PRESET)),
            Some(bytes) => {
                if bytes.len() != 1 {
                    return Err(BloomError::CorruptHashCount);
                }
                let hc = bytes[0];
                if hc == 0 {
                    return Err(BloomError::CorruptHashCount);
                }
                let mut parts: Vec<u64> = Vec::new();
                let mut i: usize = 0;
                while i < ACCOUNT_BLOOM_WORDS
                    invariant
                        db.wf(),
                        forall|t: int|
                            0 <= t < ACCOUNT_BLOOM_WORDS && db.contents().dom().contains(
                                #[trigger] le_bytes_of(t as u64),
                            ) ==> db.contents()[le_bytes_of(t as u64)].len() == 8,
                        0 <= i <= ACCOUNT_BLOOM_WORDS,
                        parts@.len() == i,
                        forall|w: int| 0 <= w < i ==> parts@[w] == word_at(db.contents(), w),
                    decreases ACCOUNT_BLOOM_WORDS - i,
                {
                    let key = u64_to_le(i as u64);
                    let value = db.get(&key);
                    let w: u64 = match value {
                        None => 0,
                        Some(v) => u64_from_le(&v),
                    };
                    parts.push(w);
                    i += 1;
                }
                Ok(AccountBloom::from_parts(&parts, hc as u32))
            },
        }
    }
}

} // verus!
