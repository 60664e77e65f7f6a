use velocity::cache::UltraFastCache;
use velocity::memtable::Memtable;
use velocity::order::{compare_keys, KeyOrder};
use velocity::queue::{AdaptiveBatchManager, AsyncWriteQueue, BatchOutcome};
use velocity::wal::{WalSyncMode, WriteAheadLog};
use velocity::BloomFilter;

fn fnv(mut h: u64, bytes: &[u8]) -> u64 {
    for b in bytes {
        h = (h ^ *b as u64).wrapping_mul(0x0000_0100_0000_01b3);
    }
    h
}

fn expected_probe(key: &[u8], seed: u64) -> u64 {
    let h = fnv(fnv(0xcbf2_9ce4_8422_2325, &seed.to_le_bytes()), key);
    let a = h ^ (h >> 33);
    let b = a.wrapping_mul(0xff51_afd7_ed55_8ccd);
    b ^ (b >> 33)
}

#[test]
fn keys_order_bytewise() {
    assert_eq!(compare_keys(b"", b""), KeyOrder::Same);
    assert_eq!(compare_keys(b"", b"a"), KeyOrder::Before);
    assert_eq!(compare_keys(b"a", b""), KeyOrder::After);
    assert_eq!(compare_keys(b"abc", b"abc"), KeyOrder::Same);
    assert_eq!(compare_keys(b"ab", b"abc"), KeyOrder::Before);
    assert_eq!(compare_keys(b"abd", b"abc"), KeyOrder::After);
    assert_eq!(compare_keys(b"b", b"abc"), KeyOrder::After);
    assert_eq!(compare_keys(&[0x7f], &[0x80]), KeyOrder::Before);
    assert_eq!(compare_keys(&[0xff], &[0x00, 0xff]), KeyOrder::After);
}

#[test]
fn bloom_probe_hash_is_seeded_with_the_probe_number() {
    assert_eq!(BloomFilter::hash(b"user:1", 0), 0x3b3b_de51_c852_720f);
    assert_eq!(BloomFilter::hash(b"user:1", 1), 0xa6df_9073_33a7_e62a);
    for seed in [0usize, 1, 9] {
        assert_eq!(BloomFilter::hash(b"user:1", seed), expected_probe(b"user:1", seed as u64));
    }
    assert_ne!(BloomFilter::hash(b"user:1", 0), BloomFilter::hash(b"user:1", 1));
}

#[test]
fn bloom_add_sets_exactly_the_probed_bits() {
    let mut filter = BloomFilter::with_geometry(1000, 7);
    assert_eq!(filter.bit_count(), 1000);
    assert_eq!(filter.hash_functions(), 7);
    assert_eq!(filter.bits().len(), 16);
    assert!(filter.bits().iter().all(|w| *w == 0));
    filter.add(b"alpha");
    let mut expected = vec![0u64; 16];
    for i in 0..7u64 {
        let pos = (expected_probe(b"alpha", i) % 1000) as usize;
        expected[pos / 64] |= 1u64 << (pos % 64);
    }
    assert_eq!(filter.bits(), &expected);
}

#[test]
fn bloom_never_forgets_an_added_key() {
    let mut filter = BloomFilter::with_geometry(5000, 10);
    let keys: Vec<Vec<u8>> = (0..300).map(|i| format!("key-{}", i).into_bytes()).collect();
    for (n, k) in keys.iter().enumerate() {
        filter.add(k);
        for earlier in &keys[..=n] {
            assert!(filter.might_contain(earlier));
        }
    }
}

#[test]
fn bloom_false_positives_stay_near_the_target() {
    // 1000 keys at 14.378 bits a key and 10 probes aim at one false positive
    // in a thousand.
    let mut filter = BloomFilter::with_geometry(14378, 10);
    for i in 0..1000 {
        filter.add(format!("present-{}", i).as_bytes());
    }
    let hits = (0..10000).filter(|i| filter.might_contain(format!("absent-{}", i).as_bytes())).count();
    assert!(hits <= 20, "{} false positives in 10000 probes", hits);
}

#[test]
fn bloom_without_bits_or_probes() {
    let mut one_bit = BloomFilter::with_geometry(0, 3);
    assert_eq!(one_bit.bit_count(), 1);
    assert!(!one_bit.might_contain(b"a"));
    one_bit.add(b"a");
    assert!(one_bit.might_contain(b"a"));
    assert!(one_bit.might_contain(b"anything"));
    let no_probes = BloomFilter::with_geometry(64, 0);
    assert!(no_probes.might_contain(b"a"));
}

#[test]
fn bloom_survives_its_parts() {
    let mut filter = BloomFilter::with_geometry(130, 4);
    filter.add(b"a");
    filter.add(b"b");
    let rebuilt =
        BloomFilter::from_parts(filter.bits().clone(), filter.bit_count(), filter.hash_functions())
            .unwrap();
    assert_eq!(rebuilt.bits(), filter.bits());
    assert!(rebuilt.might_contain(b"a"));
    assert!(rebuilt.might_contain(b"b"));
    assert!(BloomFilter::from_parts(vec![0; 2], 130, 4).is_none());
    assert!(BloomFilter::from_parts(vec![0; 3], 130, 4).is_some());
    assert!(BloomFilter::from_parts(vec![], 0, 4).is_none());
}

#[test]
fn memtable_keeps_keys_in_order() {
    let mut m = Memtable::new();
    assert!(m.is_empty());
    for k in ["m", "c", "x", "a", "c"] {
        m.insert(k.as_bytes().to_vec(), format!("v-{}", k).into_bytes());
    }
    assert_eq!(m.len(), 4);
    let keys: Vec<Vec<u8>> = (0..m.len()).map(|i| m.entry_at(i).key.clone()).collect();
    assert_eq!(keys, vec![b"a".to_vec(), b"c".to_vec(), b"m".to_vec(), b"x".to_vec()]);
    assert_eq!(m.get(b"c"), Some(&b"v-c".to_vec()));
    assert_eq!(m.get(b"b"), None);
    m.insert(b"c".to_vec(), Vec::new());
    assert_eq!(m.get(b"c"), Some(&Vec::new()));
    assert_eq!(m.len(), 4);
    m.remove(b"c");
    m.remove(b"never");
    assert_eq!(m.len(), 3);
    assert_eq!(m.get(b"c"), None);
    let place = m.locate(b"b");
    assert!(!place.found);
    assert_eq!(place.index, 1);
    let place = m.locate(b"m");
    assert!(place.found);
    assert_eq!(place.index, 1);
    // Three entries of one key byte and three value bytes each.
    assert_eq!(m.size_bytes(), 3 * (1 + 3 + 32));
    m.clear();
    assert!(m.is_empty());
    assert_eq!(m.size_bytes(), 0);
}

#[test]
fn cache_hits_and_misses() {
    let mut cache = UltraFastCache::new(2);
    assert_eq!(cache.len(), 0);
    assert_eq!(cache.get(b"a"), None);
    cache.put(b"a".to_vec(), b"1".to_vec());
    assert_eq!(cache.get(b"a"), Some(b"1".to_vec()));
    cache.put(b"a".to_vec(), b"2".to_vec());
    assert_eq!(cache.get(b"a"), Some(b"2".to_vec()));
    assert_eq!(cache.len(), 1);
    cache.clear();
    assert_eq!(cache.len(), 0);
    assert_eq!(cache.get(b"a"), None);
}

#[test]
fn cache_evicts_the_least_frequently_used() {
    let mut cache = UltraFastCache::new(3);
    cache.put(b"a".to_vec(), b"1".to_vec());
    cache.put(b"b".to_vec(), b"2".to_vec());
    cache.put(b"c".to_vec(), b"3".to_vec());
    cache.get(b"a");
    cache.get(b"a");
    cache.get(b"c");
    cache.put(b"d".to_vec(), b"4".to_vec());
    assert_eq!(cache.len(), 3);
    assert_eq!(cache.get(b"b"), None);
    assert_eq!(cache.get(b"a"), Some(b"1".to_vec()));
    assert_eq!(cache.get(b"c"), Some(b"3".to_vec()));
    assert_eq!(cache.get(b"d"), Some(b"4".to_vec()));
    // "d" has two uses now, "c" three, "a" four: "d" goes next.
    cache.put(b"e".to_vec(), b"5".to_vec());
    assert_eq!(cache.get(b"d"), None);
    assert_eq!(cache.get(b"e"), Some(b"5".to_vec()));
}

#[test]
fn cache_evict_lfu_takes_the_first_of_equal_counts() {
    let mut cache = UltraFastCache::new(3);
    cache.put(b"a".to_vec(), b"1".to_vec());
    cache.put(b"b".to_vec(), b"2".to_vec());
    assert_eq!(cache.evict_lfu(), 0);
    assert_eq!(cache.len(), 1);
    assert_eq!(cache.get(b"a"), None);
    assert_eq!(cache.get(b"b"), Some(b"2".to_vec()));
}

#[test]
fn cache_without_slots_stays_empty() {
    let mut cache = UltraFastCache::new(0);
    cache.put(b"a".to_vec(), b"1".to_vec());
    assert_eq!(cache.len(), 0);
    assert_eq!(cache.get(b"a"), None);
}

#[test]
fn cache_timestamps_count_up() {
    let mut cache = UltraFastCache::new(1);
    assert_eq!(cache.get_timestamp(), 0);
    assert_eq!(cache.get_timestamp(), 1);
    cache.put(b"a".to_vec(), b"1".to_vec());
    assert_eq!(cache.get_timestamp(), 3);
}

#[test]
fn batcher_flushes_at_the_even_counts() {
    let manager = AdaptiveBatchManager::new();
    for (count, due) in [
        (0, false),
        (1, false),
        (2, true),
        (3, false),
        (4, true),
        (6, true),
        (7, false),
        (64, true),
        (127, false),
        (128, true),
        (129, false),
        (256, true),
        (usize::MAX, false),
    ] {
        assert_eq!(manager.should_flush(count), due, "{}", count);
    }
}

#[test]
fn batcher_counts_and_resets() {
    let mut manager = AdaptiveBatchManager::new();
    assert_eq!(manager.get_count(), 0);
    assert_eq!(manager.increment(), 1);
    assert_eq!(manager.increment(), 2);
    assert_eq!(manager.get_count(), 2);
    manager.reset();
    assert_eq!(manager.get_count(), 0);
}

#[test]
fn queue_hands_out_batches_in_order() {
    let mut queue = AsyncWriteQueue::new();
    for i in 0..300u32 {
        queue.send(i.to_le_bytes().to_vec(), vec![1]).unwrap();
    }
    assert_eq!(queue.len(), 300);
    assert_eq!(queue.pending_count(), 300);
    let first = queue.next_batch();
    assert_eq!(first.len(), 128);
    assert_eq!(first[0].key, 0u32.to_le_bytes().to_vec());
    assert_eq!(first[127].key, 127u32.to_le_bytes().to_vec());
    let second = queue.next_batch();
    assert_eq!(second.len(), 128);
    assert_eq!(second[0].key, 128u32.to_le_bytes().to_vec());
    let third = queue.next_batch();
    assert_eq!(third.len(), 44);
    assert_eq!(third[43].key, 299u32.to_le_bytes().to_vec());
    assert!(queue.next_batch().is_empty());
}

#[test]
fn closed_queue_hands_the_write_back() {
    let mut queue = AsyncWriteQueue::new();
    queue.send(b"a".to_vec(), b"1".to_vec()).unwrap();
    queue.close();
    let refused = queue.send(b"b".to_vec(), b"2".to_vec()).unwrap_err();
    assert_eq!(refused.key, b"b".to_vec());
    assert_eq!(refused.value, b"2".to_vec());
    assert_eq!(queue.len(), 1);
    assert_eq!(queue.pending_count(), 2);
}

#[test]
fn worker_turn_logs_a_batch_and_lets_the_batcher_decide() {
    let mut queue = AsyncWriteQueue::new();
    let mut wal = WriteAheadLog::new(Vec::new(), WalSyncMode::Batch);
    assert_eq!(
        queue.drain_batch(&mut wal, false, false, 1, 0),
        BatchOutcome { taken: 0, flushed: false }
    );
    queue.send(b"a".to_vec(), b"1".to_vec()).unwrap();
    // One write counted, one taken: the running count is two, and a flush is due.
    assert_eq!(
        queue.drain_batch(&mut wal, false, false, 1, 0),
        BatchOutcome { taken: 1, flushed: true }
    );
    assert_eq!(wal.flushed(), wal.buffer_size());
    assert_eq!(queue.pending_count(), 0);
    queue.send(b"b".to_vec(), b"2".to_vec()).unwrap();
    queue.send(b"c".to_vec(), b"3".to_vec()).unwrap();
    // Two counted, two taken: four.
    let before = wal.flushed();
    assert_eq!(
        queue.drain_batch(&mut wal, false, false, 2, 0),
        BatchOutcome { taken: 2, flushed: true }
    );
    assert!(wal.flushed() > before);
    queue.send(b"d".to_vec(), b"4".to_vec()).unwrap();
    queue.send(b"e".to_vec(), b"5".to_vec()).unwrap();
    queue.send(b"f".to_vec(), b"6".to_vec()).unwrap();
    // Three counted, two left after one is taken apart: take all three, six.
    assert_eq!(
        queue.drain_batch(&mut wal, false, false, 3, 0),
        BatchOutcome { taken: 3, flushed: true }
    );
    assert_eq!(wal.recover().len(), 6);
}

#[test]
fn worker_turn_without_a_due_flush_leaves_the_log_buffered() {
    let mut queue = AsyncWriteQueue::new();
    let mut wal = WriteAheadLog::new(Vec::new(), WalSyncMode::Batch);
    queue.send(b"a".to_vec(), b"1".to_vec()).unwrap();
    queue.send(b"b".to_vec(), b"2".to_vec()).unwrap();
    let batch = queue.next_batch();
    assert_eq!(batch.len(), 2);
    AsyncWriteQueue::process_batch(&batch, &mut wal, false, false, false, 5, 0);
    assert_eq!(wal.recover().len(), 2);
    assert_eq!(wal.flushed(), 0);
    AsyncWriteQueue::process_batch(&batch, &mut wal, false, true, false, 5, 0);
    assert_eq!(wal.flushed(), wal.buffer_size());
    let size = wal.buffer_size();
    AsyncWriteQueue::process_batch(&batch, &mut wal, true, true, true, 5, 0);
    assert_eq!(wal.buffer_size(), size);
}
