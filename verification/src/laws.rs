//! The laws the cache obeys, stated over the spec functions of the public
//! contracts and proved once and for all.

use vstd::prelude::*;

use crate::bloom::bit_is_set;
use crate::bloom::bloom_has;
use crate::changes::BlockChangesV;
use crate::changes::allowed_spec;
use crate::changes::apply_one;
use crate::changes::apply_pending;
use crate::changes::find_idx;
use crate::changes::lemma_find_idx;
use crate::changes::CacheQueueItem;
use crate::changes::sweep;
use crate::codec::hashcount_key_spec;
use crate::codec::le_bytes_of;
use crate::codec::le_val_of;
use crate::codec::lemma_le_round_trip;
use crate::record::AccountRecord;
use crate::state_db::SharedAccountCache;
use crate::state_db::publish_log;
use crate::state_db::sweep_phase;
use crate::state_db::word_at;
use crate::store::apply_puts;
use crate::ACCOUNT_BLOOM_SPACE;
use crate::ACCOUNT_BLOOM_WORDS;
use crate::STATE_CACHE_BLOCKS;
use crate::STATE_CACHE_ITEMS;

verus! {

/// LRU bound: the shared cache never holds more entries than its capacity,
/// `STATE_CACHE_ITEMS`.  Every cache operation preserves `wf`, so this holds
/// after any sequence of queued changes and syncs.
pub proof fn lemma_lru_bound(c: SharedAccountCache)
    requires
        c.wf(),
    ensures
        c.lru().len() <= STATE_CACHE_ITEMS,
{
}

/// Log bound and order: the modification log never exceeds
/// `STATE_CACHE_BLOCKS` records and block numbers never increase towards the
/// rear.  Sibling blocks may share a number, so the order is non-strict
/// across branches.
pub proof fn lemma_log_bound_and_order(c: SharedAccountCache)
    requires
        c.wf(),
    ensures
        c.log().len() <= STATE_CACHE_BLOCKS,
        forall|i: int, j: int|
            0 <= i <= j < c.log().len() ==> #[trigger] c.log()[i].number >= #[trigger] c.log()[j].number,
{
}

/// Bloom monotonicity: once every probe bit of an address is set, any later
/// state whose bits are a superset still answers `true` — noting an address
/// can never produce a false negative afterwards.
pub proof fn lemma_bloom_no_false_negative(w1: Seq<u64>, w2: Seq<u64>, k: u32, addr: u64)
    requires
        bloom_has(w1, k, addr),
        forall|b: int|
            0 <= b < (ACCOUNT_BLOOM_SPACE as int) && bit_is_set(w1, b) ==> bit_is_set(w2, b),
    ensures
        bloom_has(w2, k, addr),
{
    assert forall|i: int| 0 <= i < k implies bit_is_set(
        w2,
        crate::bloom::bloom_bit_of(addr, i),
    ) by {
        assert(bit_is_set(w1, crate::bloom::bloom_bit_of(addr, i)));
    }
}

/// Fork isolation at the cache gate: when the walk's first record is not a
/// canonical match for the anchor — in particular, when it belongs to a
/// sibling block committed as best — any address that record touched is
/// refused.  After two siblings commit, the best sibling's record stands in
/// front of the other's, so a view anchored at the losing sibling cannot
/// read what the winner modified.
pub proof fn lemma_fork_isolation(log: Seq<BlockChangesV>, anchor: u64, addr: u64)
    requires
        log.len() > 0,
        log[0].hash != anchor || !log[0].is_canon,
        log[0].accounts.contains(addr),
    ensures
        !allowed_spec(addr, Some(anchor), log),
{
}

/// Canonical propagation, at the anchor: a view anchored at the block just
/// published as best is allowed at once, since the walk meets the front
/// record as a canonical match.
pub proof fn lemma_canonical_anchor_allowed(log: Seq<BlockChangesV>, anchor: u64, addr: u64)
    requires
        log.len() > 0,
        log[0].hash == anchor,
        log[0].is_canon,
    ensures
        allowed_spec(addr, Some(anchor), log),
{
}

/// Canonical propagation, at the LRU: publishing a pending buffer leaves an
/// entry for every address it queues; published addresses are present unless
/// evicted, which the exact-publication case of `sync_cache` rules out.
pub proof fn lemma_apply_pending_covers(
    m: Map<u64, Option<AccountRecord>>,
    p: Seq<CacheQueueItem>,
    a: u64,
)
    requires
        exists|i: int| 0 <= i < p.len() && (#[trigger] p[i]).address == a,
    ensures
        apply_pending(m, p).dom().contains(a),
    decreases p.len(),
{
    let i = choose|i: int| 0 <= i < p.len() && (#[trigger] p[i]).address == a;
    let m1 = apply_one(m, p[0]);
    if i == 0 {
        lemma_apply_pending_keeps(m1, p.drop_first(), a);
    } else {
        assert(p.drop_first()[i - 1].address == a);
        lemma_apply_pending_covers(m1, p.drop_first(), a);
    }
}

/// Publication never removes an entry.
pub proof fn lemma_apply_pending_keeps(
    m: Map<u64, Option<AccountRecord>>,
    p: Seq<CacheQueueItem>,
    a: u64,
)
    requires
        m.dom().contains(a),
    ensures
        apply_pending(m, p).dom().contains(a),
    decreases p.len(),
{
    if p.len() == 0 {
    } else {
        lemma_apply_pending_keeps(apply_one(m, p[0]), p.drop_first(), a);
    }
}

/// Non-canonical views leave no trace: with no enacted or retracted blocks
/// the reconciliation pass is the identity and never wipes, so by the
/// `sync_cache` contract a commit with `is_best == false` leaves the LRU
/// contents exactly as they were (only the log gains the block's record).
pub proof fn lemma_non_canonical_leaves_no_trace(
    log: Seq<BlockChangesV>,
    lru: Map<u64, Option<AccountRecord>>,
    commit_hash: Option<u64>,
)
    ensures
        sweep_phase(log, lru, Seq::<u64>::empty(), Seq::<u64>::empty(), commit_hash).0 == log,
        sweep_phase(log, lru, Seq::<u64>::empty(), Seq::<u64>::empty(), commit_hash).1 == lru,
        !sweep_phase(log, lru, Seq::<u64>::empty(), Seq::<u64>::empty(), commit_hash).2,
{
}

/// `find_idx` looks only at hashes.
proof fn lemma_find_idx_same_hashes(s1: Seq<BlockChangesV>, s2: Seq<BlockChangesV>, h: u64)
    requires
        s1.len() == s2.len(),
        forall|j: int| 0 <= j < s1.len() ==> (#[trigger] s1[j]).hash == (#[trigger] s2[j]).hash,
    ensures
        find_idx(s1, h) == find_idx(s2, h),
    decreases s1.len(),
{
    if s1.len() == 0 {
    } else {
        assert(s1[0].hash == s2[0].hash);
        assert forall|j: int| 0 <= j < s1.drop_first().len() implies (#[trigger] s1.drop_first()[j]).hash
            == (#[trigger] s2.drop_first()[j]).hash by {
            assert(s1.drop_first()[j] == s1[j + 1]);
            assert(s2.drop_first()[j] == s2[j + 1]);
        }
        lemma_find_idx_same_hashes(s1.drop_first(), s2.drop_first(), h);
    }
}

/// A sweep keeps every hash in place.
proof fn lemma_sweep_keeps_hashes(
    log: Seq<BlockChangesV>,
    lru: Map<u64, Option<AccountRecord>>,
    hashes: Seq<u64>,
    canon: bool,
    skip: Option<u64>,
)
    ensures
        sweep(log, lru, hashes, canon, skip).0.len() == log.len(),
        forall|j: int|
            0 <= j < log.len() ==> (#[trigger] sweep(log, lru, hashes, canon, skip).0[j]).hash
                == log[j].hash,
    decreases hashes.len(),
{
    if hashes.len() == 0 {
    } else {
        let h = hashes[0];
        if skip == Some(h) {
            lemma_sweep_keeps_hashes(log, lru, hashes.drop_first(), canon, skip);
        } else {
            let i = find_idx(log, h);
            lemma_find_idx(log, h);
            if i >= 0 {
                lemma_sweep_keeps_hashes(
                    log.update(i, crate::changes::mark(log[i], canon)),
                    lru.remove_keys(log[i].accounts),
                    hashes.drop_first(),
                    canon,
                    skip,
                );
            } else {
                lemma_sweep_keeps_hashes(log, lru, hashes.drop_first(), canon, skip);
            }
        }
    }
}

/// A hash that is processed but absent from the log raises the wipe flag.
proof fn lemma_sweep_miss(
    log: Seq<BlockChangesV>,
    lru: Map<u64, Option<AccountRecord>>,
    hashes: Seq<u64>,
    canon: bool,
    skip: Option<u64>,
    i: int,
)
    requires
        0 <= i < hashes.len(),
        skip != Some(hashes[i]),
        find_idx(log, hashes[i]) < 0,
    ensures
        sweep(log, lru, hashes, canon, skip).2,
    decreases hashes.len(),
{
    let h = hashes[0];
    if i == 0 {
        assert(skip != Some(h));
    } else {
        assert(hashes.drop_first()[i - 1] == hashes[i]);
        if skip == Some(h) {
            lemma_sweep_miss(log, lru, hashes.drop_first(), canon, skip, i - 1);
        } else {
            let f = find_idx(log, h);
            lemma_find_idx(log, h);
            if f >= 0 {
                let log1 = log.update(f, crate::changes::mark(log[f], canon));
                let lru1 = lru.remove_keys(log[f].accounts);
                lemma_find_idx_same_hashes(log, log1, hashes[i]);
                lemma_sweep_miss(log1, lru1, hashes.drop_first(), canon, skip, i - 1);
            } else {
                lemma_sweep_miss(log, lru, hashes.drop_first(), canon, skip, i - 1);
            }
        }
    }
}

/// Reorg wipe on a log miss: a retracted hash absent from the log, or an
/// enacted hash other than the committed one absent from the log, forces the
/// wipe — by the `sync_cache` contract the LRU and log are then emptied
/// before the committed block (if any) is published.
pub proof fn lemma_log_miss_wipes(
    log: Seq<BlockChangesV>,
    lru: Map<u64, Option<AccountRecord>>,
    enacted: Seq<u64>,
    retracted: Seq<u64>,
    commit_hash: Option<u64>,
)
    requires
        (exists|i: int| 0 <= i < retracted.len() && find_idx(log, #[trigger] retracted[i]) < 0) || (
        commit_hash is Some && exists|i: int|
            0 <= i < enacted.len() && #[trigger] enacted[i] != commit_hash.unwrap() && find_idx(
                log,
                enacted[i],
            ) < 0),
    ensures
        sweep_phase(log, lru, enacted, retracted, commit_hash).2,
{
    let e = if commit_hash is Some {
        sweep(log, lru, enacted, true, commit_hash)
    } else {
        (log, lru, false)
    };
    if commit_hash is Some && exists|i: int|
        0 <= i < enacted.len() && #[trigger] enacted[i] != commit_hash.unwrap() && find_idx(
            log,
            enacted[i],
        ) < 0 {
        let i = choose|i: int|
            0 <= i < enacted.len() && #[trigger] enacted[i] != commit_hash.unwrap() && find_idx(
                log,
                enacted[i],
            ) < 0;
        lemma_sweep_miss(log, lru, enacted, true, commit_hash, i);
    } else {
        let i = choose|i: int| 0 <= i < retracted.len() && find_idx(log, #[trigger] retracted[i]) < 0;
        lemma_sweep_keeps_hashes(log, lru, enacted, true, commit_hash);
        lemma_find_idx_same_hashes(log, e.0, retracted[i]);
        lemma_sweep_miss(e.0, e.1, retracted, false, None, i);
    }
}

/// Map-level effect of applying a list of word puts: a put key wins with its
/// word value, everything else is untouched.
proof fn lemma_apply_word_puts(
    m: Map<Seq<u8>, Seq<u8>>,
    ps: Seq<(Seq<u8>, Seq<u8>)>,
    words: Seq<u64>,
)
    requires
        words.len() == ACCOUNT_BLOOM_WORDS,
        forall|t: int|
            0 <= t < ps.len() ==> exists|w: int|
                0 <= w < ACCOUNT_BLOOM_WORDS && #[trigger] ps[t] == (
                    le_bytes_of(w as u64),
                    le_bytes_of(words[w]),
                ),
        forall|t1: int, t2: int|
            0 <= t1 < t2 < ps.len() ==> (#[trigger] ps[t1]).0 != (#[trigger] ps[t2]).0,
    ensures
        forall|w: int, t: int|
            0 <= w < ACCOUNT_BLOOM_WORDS && 0 <= t < ps.len() && (#[trigger] ps[t]).0 == #[trigger] le_bytes_of(w as u64)
                ==> apply_puts(m, ps).dom().contains(le_bytes_of(w as u64))
                && apply_puts(m, ps)[le_bytes_of(w as u64)] == le_bytes_of(words[w]),
        forall|w: int|
            0 <= w < ACCOUNT_BLOOM_WORDS && (forall|t: int|
                0 <= t < ps.len() ==> (#[trigger] ps[t]).0 != le_bytes_of(w as u64)) ==> (
            apply_puts(m, ps).dom().contains(#[trigger] le_bytes_of(w as u64)) == m.dom().contains(
                le_bytes_of(w as u64),
            ) && (m.dom().contains(le_bytes_of(w as u64)) ==> apply_puts(m, ps)[le_bytes_of(
                w as u64,
            )] == m[le_bytes_of(w as u64)])),
        forall|key: Seq<u8>|
            key.len() != 8 ==> (apply_puts(m, ps).dom().contains(key) == m.dom().contains(key) && (
            m.dom().contains(key) ==> apply_puts(m, ps)[key] == m[key])),
    decreases ps.len(),
{
    if ps.len() == 0 {
    } else {
        let head = ps[0];
        let w0 = choose|w: int|
            0 <= w < ACCOUNT_BLOOM_WORDS && ps[0] == (le_bytes_of(w as u64), le_bytes_of(words[w]));
        let m1 = m.insert(head.0, head.1);
        let rest = ps.drop_first();
        assert forall|t: int| 0 <= t < rest.len() implies exists|w: int|
            0 <= w < ACCOUNT_BLOOM_WORDS && #[trigger] rest[t] == (
                le_bytes_of(w as u64),
                le_bytes_of(words[w]),
            ) by {
            assert(rest[t] == ps[t + 1]);
            let w = choose|w: int|
                0 <= w < ACCOUNT_BLOOM_WORDS && ps[t + 1] == (
                    le_bytes_of(w as u64),
                    le_bytes_of(words[w]),
                );
            assert(rest[t] == (le_bytes_of(w as u64), le_bytes_of(words[w])));
        }
        assert forall|t1: int, t2: int| 0 <= t1 < t2 < rest.len() implies (#[trigger] rest[t1]).0
            != (#[trigger] rest[t2]).0 by {
            assert(rest[t1] == ps[t1 + 1] && rest[t2] == ps[t2 + 1]);
        }
        lemma_apply_word_puts(m1, rest, words);
        assert(apply_puts(m, ps) == apply_puts(m1, rest));
        assert(le_bytes_of(w0 as u64).len() == 8);
        assert forall|w: int, t: int|
            0 <= w < ACCOUNT_BLOOM_WORDS && 0 <= t < ps.len() && (#[trigger] ps[t]).0 == #[trigger] le_bytes_of(w as u64)
                implies apply_puts(m, ps).dom().contains(
            le_bytes_of(w as u64),
        ) && apply_puts(m, ps)[le_bytes_of(w as u64)] == le_bytes_of(words[w]) by {
            if t == 0 {
                lemma_le_round_trip(w0 as u64);
                lemma_le_round_trip(w as u64);
                assert(le_bytes_of(w0 as u64) == le_bytes_of(w as u64));
                assert(w0 == w);
                assert forall|t2: int| 0 <= t2 < rest.len() implies (#[trigger] rest[t2]).0
                    != le_bytes_of(w as u64) by {
                    assert(rest[t2] == ps[t2 + 1]);
                    assert(ps[t2 + 1].0 != ps[0].0);
                }
                assert(m1.dom().contains(le_bytes_of(w as u64)));
                assert(m1[le_bytes_of(w as u64)] == le_bytes_of(words[w]));
            } else {
                assert(rest[t - 1] == ps[t]);
                assert(rest[t - 1].0 == le_bytes_of(w as u64));
            }
        }
        assert forall|w: int|
            0 <= w < ACCOUNT_BLOOM_WORDS && (forall|t: int|
                0 <= t < ps.len() ==> (#[trigger] ps[t]).0 != le_bytes_of(w as u64)) implies (
        apply_puts(m, ps).dom().contains(#[trigger] le_bytes_of(w as u64)) == m.dom().contains(
            le_bytes_of(w as u64),
        ) && (m.dom().contains(le_bytes_of(w as u64)) ==> apply_puts(m, ps)[le_bytes_of(w as u64)]
            == m[le_bytes_of(w as u64)])) by {
            assert(ps[0].0 != le_bytes_of(w as u64));
            assert(m1.dom().contains(le_bytes_of(w as u64)) == m.dom().contains(
                le_bytes_of(w as u64),
            ));
            assert forall|t: int| 0 <= t < rest.len() implies (#[trigger] rest[t]).0 != le_bytes_of(
                w as u64,
            ) by {
                assert(rest[t] == ps[t + 1]);
            }
        }
    }
}

/// Bloom persistence round trip: committing a drained journal over a store
/// whose word column matches the filter's base state yields a store from
/// which every word — and the hash-function count — reads back exactly, so a
/// reload reconstructs the same filter and no noted address is lost.  The
/// hypotheses are precisely what `commit` guarantees of the puts it appends.
pub proof fn lemma_bloom_persist_round_trip(
    m0: Map<Seq<u8>, Seq<u8>>,
    added: Seq<(Seq<u8>, Seq<u8>)>,
    entries: Seq<(u64, u64)>,
    words: Seq<u64>,
    base: Seq<u64>,
    k: u32,
)
    requires
        words.len() == ACCOUNT_BLOOM_WORDS,
        base.len() == ACCOUNT_BLOOM_WORDS,
        1 <= k <= 255,
        crate::state_db::bloom_commit_added(added, entries, words, base, k),
        forall|w: int| 0 <= w < ACCOUNT_BLOOM_WORDS ==> #[trigger] word_at(m0, w) == base[w],
    ensures
        apply_puts(m0, added).dom().contains(hashcount_key_spec()),
        apply_puts(m0, added)[hashcount_key_spec()] == seq![k as u8],
        forall|w: int|
            0 <= w < ACCOUNT_BLOOM_WORDS ==> #[trigger] word_at(apply_puts(m0, added), w)
                == words[w],
        forall|w: int|
            0 <= w < ACCOUNT_BLOOM_WORDS && apply_puts(m0, added).dom().contains(
                #[trigger] le_bytes_of(w as u64),
            ) && !m0.dom().contains(le_bytes_of(w as u64)) ==> apply_puts(m0, added)[le_bytes_of(
                w as u64,
            )].len() == 8,
{
    let jp = crate::state_db::journal_puts(entries);
    let m1 = m0.insert(hashcount_key_spec(), seq![k as u8]);
    let rest = added.drop_first();
    assert(added[0] == (hashcount_key_spec(), seq![k as u8]));
    assert(rest =~~= jp);
    assert(apply_puts(m0, added) == apply_puts(m1, rest));
    assert forall|t: int| 0 <= t < rest.len() implies exists|w: int|
        0 <= w < ACCOUNT_BLOOM_WORDS && #[trigger] rest[t] == (
            le_bytes_of(w as u64),
            le_bytes_of(words[w]),
        ) by {
        assert(jp[t] == (le_bytes_of(entries[t].0), le_bytes_of(entries[t].1)));
        let w = entries[t].0 as int;
        assert(rest[t] == (le_bytes_of(w as u64), le_bytes_of(words[w])));
    }
    assert forall|t1: int, t2: int| 0 <= t1 < t2 < rest.len() implies (#[trigger] rest[t1]).0 != (
    #[trigger] rest[t2]).0 by {
        assert(jp[t1] == (le_bytes_of(entries[t1].0), le_bytes_of(entries[t1].1)));
        assert(jp[t2] == (le_bytes_of(entries[t2].0), le_bytes_of(entries[t2].1)));
        assert(entries[t1].0 < entries[t2].0);
        lemma_le_round_trip(entries[t1].0);
        lemma_le_round_trip(entries[t2].0);
    }
    lemma_apply_word_puts(m1, rest, words);
    assert(hashcount_key_spec().len() == 18);
    let mfin = apply_puts(m1, rest);
    assert(mfin.dom().contains(hashcount_key_spec()) && mfin[hashcount_key_spec()] == seq![
        k as u8,
    ]);
    assert forall|w: int| 0 <= w < ACCOUNT_BLOOM_WORDS implies #[trigger] word_at(mfin, w)
        == words[w] by {
        assert(le_bytes_of(w as u64).len() == 8);
        assert(word_at(m1, w) == word_at(m0, w)) by {
            assert(le_bytes_of(w as u64) != hashcount_key_spec());
        }
        if exists|t: int| 0 <= t < rest.len() && (#[trigger] rest[t]).0 == le_bytes_of(w as u64) {
            let t = choose|t: int|
                0 <= t < rest.len() && (#[trigger] rest[t]).0 == le_bytes_of(w as u64);
            assert(jp[t] == (le_bytes_of(entries[t].0), le_bytes_of(entries[t].1)));
            lemma_le_round_trip(w as u64);
            lemma_le_round_trip(entries[t].0);
            assert(entries[t].0 == w);
            assert(rest[t] == (le_bytes_of(w as u64), le_bytes_of(words[w])));
            assert(mfin[le_bytes_of(w as u64)] == le_bytes_of(words[w]));
            lemma_le_round_trip(words[w]);
            assert(word_at(mfin, w) == le_val_of(le_bytes_of(words[w])));
        } else {
            assert(word_at(mfin, w) == word_at(m1, w));
            if words[w] != base[w] {
                let t = choose|t: int| 0 <= t < entries.len() && (#[trigger] entries[t]).0 == w;
                assert(jp[t] == (le_bytes_of(entries[t].0), le_bytes_of(entries[t].1)));
                assert(rest[t].0 == le_bytes_of(w as u64));
            }
        }
    }
    assert forall|w: int|
        0 <= w < ACCOUNT_BLOOM_WORDS && mfin.dom().contains(#[trigger] le_bytes_of(w as u64))
            && !m0.dom().contains(le_bytes_of(w as u64)) implies mfin[le_bytes_of(w as u64)].len()
        == 8 by {
        assert(le_bytes_of(w as u64).len() == 8);
        assert(le_bytes_of(w as u64) != hashcount_key_spec());
        if exists|t: int| 0 <= t < rest.len() && (#[trigger] rest[t]).0 == le_bytes_of(w as u64) {
            let t = choose|t: int|
                0 <= t < rest.len() && (#[trigger] rest[t]).0 == le_bytes_of(w as u64);
            assert(jp[t] == (le_bytes_of(entries[t].0), le_bytes_of(entries[t].1)));
            assert(mfin[le_bytes_of(w as u64)] == le_bytes_of(entries[t].1));
            assert(le_bytes_of(entries[t].1).len() == 8);
        } else {
            assert(m1.dom().contains(le_bytes_of(w as u64)) == m0.dom().contains(
                le_bytes_of(w as u64),
            ));
        }
    }
}

/// Canonical propagation, one commit end to end: when a block with a number
/// above everything in the log is published as best, its record lands at the
/// front of the log as canonical, so a view anchored at it may read the
/// cache, and publication leaves an LRU entry for every address it queued.
pub proof fn lemma_canonical_propagation_one_commit(
    lg: Seq<BlockChangesV>,
    mp: Map<u64, Option<AccountRecord>>,
    pend: Seq<CacheQueueItem>,
    v: BlockChangesV,
    addr: u64,
)
    requires
        forall|i: int| 0 <= i < lg.len() ==> (#[trigger] lg[i]).number < v.number,
        v.is_canon,
        exists|i: int| 0 <= i < pend.len() && (#[trigger] pend[i]).address == addr,
    ensures
        publish_log(lg, v)[0] == v,
        allowed_spec(addr, Some(v.hash), publish_log(lg, v)),
        apply_pending(mp, pend).dom().contains(addr),
{
    let lg2 = if lg.len() == STATE_CACHE_BLOCKS as int {
        lg.drop_last()
    } else {
        lg
    };
    if lg2.len() > 0 {
        assert(lg2[0] == lg[0]);
        assert(lg2[0].number < v.number);
    }
    assert(crate::changes::insert_pos(lg2, v.number) == 0);
    let out = lg2.insert(0, v);
    assert(out[0] == v);
    lemma_canonical_anchor_allowed(out, v.hash, addr);
    lemma_apply_pending_covers(mp, pend, addr);
}

} // verus!
