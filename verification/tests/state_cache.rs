use state_cache::bloom::AccountBloom;
use state_cache::record::AccountRecord;
use state_cache::state_db::BloomError;
use state_cache::state_db::SharedAccountCache;
use state_cache::state_db::StateDB;
use state_cache::store::BackingStore;
use state_cache::store::WriteBatch;
use state_cache::ACCOUNT_BLOOM_SPACE;
use state_cache::DEFAULT_ACCOUNT_PRESET;
use state_cache::STATE_CACHE_BLOCKS;
use state_cache::STATE_CACHE_ITEMS;

#[test]
fn state_db_smoke() {
    let root_parent: u64 = 0xabc1;
    let address: u64 = 0x5eed;
    let h0: u64 = 10;
    let h1a: u64 = 11;
    let h1b: u64 = 12;
    let h2a: u64 = 13;
    let h2b: u64 = 14;
    let h3a: u64 = 15;
    let h3b: u64 = 16;

    let state_db = StateDB::new(BackingStore::new(true));
    let mut cache = SharedAccountCache::new();
    let mut bloom = AccountBloom::new(ACCOUNT_BLOOM_SPACE, DEFAULT_ACCOUNT_PRESET);
    let mut batch = WriteBatch::new();

    // blocks  [ 3a(c) 2a(c) 2b 1b 1a(c) 0 ]
    // balance [ 5     5     4  3  2     2 ]
    let mut s = state_db.boxed_clone_canon(root_parent);
    s.add_to_account_cache(address, Some(AccountRecord::new_basic(2, 0)), false);
    s.commit(&mut bloom, &mut batch, 0, h0, None);
    s.sync_cache(&mut cache, &vec![], &vec![], true);

    let mut s = state_db.boxed_clone_canon(h0);
    s.commit(&mut bloom, &mut batch, 1, h1a, None);
    s.sync_cache(&mut cache, &vec![], &vec![], true);

    let mut s = state_db.boxed_clone_canon(h0);
    s.add_to_account_cache(address, Some(AccountRecord::new_basic(3, 0)), true);
    s.commit(&mut bloom, &mut batch, 1, h1b, None);
    s.sync_cache(&mut cache, &vec![], &vec![], false);

    let mut s = state_db.boxed_clone_canon(h1b);
    s.add_to_account_cache(address, Some(AccountRecord::new_basic(4, 0)), true);
    s.commit(&mut bloom, &mut batch, 2, h2b, None);
    s.sync_cache(&mut cache, &vec![], &vec![], false);

    let mut s = state_db.boxed_clone_canon(h1a);
    s.add_to_account_cache(address, Some(AccountRecord::new_basic(5, 0)), true);
    s.commit(&mut bloom, &mut batch, 2, h2a, None);
    s.sync_cache(&mut cache, &vec![], &vec![], true);

    let mut s = state_db.boxed_clone_canon(h2a);
    s.commit(&mut bloom, &mut batch, 3, h3a, None);
    s.sync_cache(&mut cache, &vec![], &vec![], true);

    let s = state_db.boxed_clone_canon(h3a);
    assert_eq!(
        s.get_cached_account(&mut cache, address).unwrap().unwrap().balance(),
        5
    );

    let s = state_db.boxed_clone_canon(h1a);
    assert!(s.get_cached_account(&mut cache, address).is_none());

    let s = state_db.boxed_clone_canon(h2b);
    assert!(s.get_cached_account(&mut cache, address).is_none());

    let s = state_db.boxed_clone_canon(h1b);
    assert!(s.get_cached_account(&mut cache, address).is_none());

    // reorg to 3b
    // blocks  [ 3b(c) 3a 2a 2b(c) 1b 1a 0 ]
    let mut s = state_db.boxed_clone_canon(h2b);
    s.commit(&mut bloom, &mut batch, 3, h3b, None);
    s.sync_cache(
        &mut cache,
        &vec![h1b, h2b, h3b],
        &vec![h1a, h2a, h3a],
        true,
    );
    let s = state_db.boxed_clone_canon(h3a);
    assert!(s.get_cached_account(&mut cache, address).is_none());
}

#[test]
fn plain_clone_never_reads_cache() {
    let state_db = StateDB::new(BackingStore::new(false));
    let mut cache = SharedAccountCache::new();
    let mut bloom = AccountBloom::new(ACCOUNT_BLOOM_SPACE, DEFAULT_ACCOUNT_PRESET);
    let mut batch = WriteBatch::new();

    let mut s = state_db.boxed_clone_canon(1);
    s.add_to_account_cache(7, Some(AccountRecord::new_basic(9, 0)), true);
    s.commit(&mut bloom, &mut batch, 0, 2, None);
    s.sync_cache(&mut cache, &vec![], &vec![], true);

    // an anchored view at the committed block sees the entry ...
    let s = state_db.boxed_clone_canon(2);
    assert_eq!(s.get_cached_account(&mut cache, 7).unwrap().unwrap().balance(), 9);
    // ... a plain clone does not
    let s = state_db.boxed_clone();
    assert!(s.get_cached_account(&mut cache, 7).is_none());
}

#[test]
fn known_absent_account_is_cached() {
    let state_db = StateDB::new(BackingStore::new(false));
    let mut cache = SharedAccountCache::new();
    let mut bloom = AccountBloom::new(ACCOUNT_BLOOM_SPACE, DEFAULT_ACCOUNT_PRESET);
    let mut batch = WriteBatch::new();

    let mut s = state_db.boxed_clone_canon(1);
    s.add_to_account_cache(7, None, true);
    s.commit(&mut bloom, &mut batch, 0, 2, None);
    s.sync_cache(&mut cache, &vec![], &vec![], true);

    let s = state_db.boxed_clone_canon(2);
    // Some(None): the cache knows the account does not exist
    assert_eq!(s.get_cached_account(&mut cache, 7), Some(None));
}

#[test]
fn log_bound_and_order_after_many_commits() {
    let state_db = StateDB::new(BackingStore::new(false));
    let mut cache = SharedAccountCache::new();
    let mut bloom = AccountBloom::new(ACCOUNT_BLOOM_SPACE, DEFAULT_ACCOUNT_PRESET);
    let mut batch = WriteBatch::new();

    let mut parent: u64 = 1000;
    for n in 0..20u64 {
        let hash = 2000 + n;
        let mut s = state_db.boxed_clone_canon(parent);
        s.add_to_account_cache(n, Some(AccountRecord::new_basic(n, 0)), true);
        s.commit(&mut bloom, &mut batch, n, hash, None);
        s.sync_cache(&mut cache, &vec![], &vec![], true);
        parent = hash;
    }
    assert_eq!(cache.log_len(), STATE_CACHE_BLOCKS);
    assert!(cache.cache_len() <= STATE_CACHE_ITEMS);
    // entries published on the best chain within the log window are visible
    let s = state_db.boxed_clone_canon(parent);
    assert_eq!(s.get_cached_account(&mut cache, 19).unwrap().unwrap().balance(), 19);
}

#[test]
fn non_canonical_commit_leaves_no_trace() {
    let state_db = StateDB::new(BackingStore::new(false));
    let mut cache = SharedAccountCache::new();
    let mut bloom = AccountBloom::new(ACCOUNT_BLOOM_SPACE, DEFAULT_ACCOUNT_PRESET);
    let mut batch = WriteBatch::new();

    let mut s = state_db.boxed_clone_canon(1);
    s.add_to_account_cache(7, Some(AccountRecord::new_basic(1, 0)), true);
    s.commit(&mut bloom, &mut batch, 0, 2, None);
    s.sync_cache(&mut cache, &vec![], &vec![], true);
    let len_before = cache.cache_len();
    let log_before = cache.log_len();

    let mut s = state_db.boxed_clone_canon(1);
    s.add_to_account_cache(8, Some(AccountRecord::new_basic(2, 0)), true);
    s.add_to_account_cache(7, Some(AccountRecord::new_basic(3, 0)), true);
    s.commit(&mut bloom, &mut batch, 0, 3, None);
    s.sync_cache(&mut cache, &vec![], &vec![], false);

    // the LRU contents are untouched; the log still gained a record
    assert_eq!(cache.cache_len(), len_before);
    assert_eq!(cache.log_len(), log_before + 1);
    let s = state_db.boxed_clone_canon(2);
    assert_eq!(s.get_cached_account(&mut cache, 7).unwrap().unwrap().balance(), 1);
}

#[test]
fn reorg_wipe_on_log_miss() {
    let state_db = StateDB::new(BackingStore::new(false));
    let mut cache = SharedAccountCache::new();
    let mut bloom = AccountBloom::new(ACCOUNT_BLOOM_SPACE, DEFAULT_ACCOUNT_PRESET);
    let mut batch = WriteBatch::new();

    let mut s = state_db.boxed_clone_canon(1);
    s.add_to_account_cache(7, Some(AccountRecord::new_basic(1, 0)), true);
    s.commit(&mut bloom, &mut batch, 0, 2, None);
    s.sync_cache(&mut cache, &vec![], &vec![], true);
    assert!(cache.cache_len() > 0);

    // a retracted hash the log has never seen wipes LRU and log; this view
    // never committed, so nothing is republished afterwards
    let mut s = state_db.boxed_clone_canon(2);
    s.sync_cache(&mut cache, &vec![], &vec![999], true);
    assert_eq!(cache.cache_len(), 0);
    assert_eq!(cache.log_len(), 0);
}

#[test]
fn bloom_note_then_check() {
    let mut bloom = AccountBloom::new(ACCOUNT_BLOOM_SPACE, DEFAULT_ACCOUNT_PRESET);
    assert_eq!(bloom.hash_count(), 1);
    let state_db = StateDB::new(BackingStore::new(false));
    let addrs: [u64; 5] = [0, 1, 0xdead_beef, u64::MAX, 0x1234_5678_9abc_def0];
    for a in addrs {
        state_db.note_account_bloom(&mut bloom, a);
    }
    for a in addrs {
        assert!(state_db.check_account_bloom(&bloom, a));
    }
}

#[test]
fn bloom_round_trip_through_store() {
    let mut state_db = StateDB::new(BackingStore::new(false));
    let mut bloom = AccountBloom::new(ACCOUNT_BLOOM_SPACE, DEFAULT_ACCOUNT_PRESET);
    let addrs: [u64; 4] = [3, 0x77aa, 0xdead_beef_dead_beef, 42];
    for a in addrs {
        state_db.note_account_bloom(&mut bloom, a);
    }
    let mut batch = WriteBatch::new();
    let records = state_db.commit(&mut bloom, &mut batch, 0, 1, None);
    assert!(records >= 1);

    let reloaded = StateDB::load_bloom(state_db.journal_db()).unwrap();
    assert_eq!(reloaded.hash_count(), bloom.hash_count());
    for a in addrs {
        assert!(reloaded.check(a));
    }
    // an address never noted is (with this data) reported absent
    assert!(!reloaded.check(0x0bad_cafe));
}

#[test]
fn load_bloom_fresh_store_is_empty_filter() {
    let store = BackingStore::new(false);
    let bloom = StateDB::load_bloom(&store).unwrap();
    assert_eq!(bloom.hash_count(), 1);
    assert!(!bloom.check(12345));
}

#[test]
fn load_bloom_rejects_corrupt_hash_count() {
    let mut store = BackingStore::new(false);
    let mut batch = WriteBatch::new();
    // a two-byte hash-function count entry is corrupt
    batch.put(state_cache::codec::hashcount_key(), vec![1, 2]);
    store.commit(&batch, 0, 0, None);
    match StateDB::load_bloom(&store) {
        Err(e) => assert_eq!(e, BloomError::CorruptHashCount),
        Ok(_) => panic!("corrupt hash-count entry was accepted"),
    }
}

#[test]
fn update_cached_populates_shared_entry() {
    let state_db = StateDB::new(BackingStore::new(false));
    let mut cache = SharedAccountCache::new();
    let mut bloom = AccountBloom::new(ACCOUNT_BLOOM_SPACE, DEFAULT_ACCOUNT_PRESET);
    let mut batch = WriteBatch::new();

    let mut s = state_db.boxed_clone_canon(1);
    s.add_to_account_cache(7, Some(AccountRecord::new_basic(9, 3)), true);
    s.commit(&mut bloom, &mut batch, 0, 2, None);
    s.sync_cache(&mut cache, &vec![], &vec![], true);

    let s = state_db.boxed_clone_canon(2);
    let mut full = s.get_cached(&mut cache, 7).unwrap().unwrap();
    assert_eq!(full.nonce(), 3);
    full.note_storage();
    assert!(s.update_cached(&mut cache, 7, full));

    // the full entry now carries storage; a basic copy never does
    let again = s.get_cached(&mut cache, 7).unwrap().unwrap();
    assert_eq!(again, full);
    let basic = s.get_cached_account(&mut cache, 7).unwrap().unwrap();
    assert_eq!(basic, AccountRecord::new_basic(9, 3));
}

#[test]
fn store_handles_survive_cloning() {
    let state_db = StateDB::new(BackingStore::new(true));
    assert!(state_db.is_pruned());
    assert_eq!(state_db.mem_used(), 0);
    let clone = state_db.boxed_clone();
    assert!(clone.is_pruned());
    assert!(clone.journal_db().is_pruned());
    assert!(clone.as_hashdb().is_pruned());
}
