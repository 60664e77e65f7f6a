use velocity::hash::{absorb, absorb_number, finish, mul_wrap, FNV_OFFSET};
use velocity::wal::{
    calculate_checksum, recover_records, scan_integrity, WalSyncMode, WriteAheadLog,
};

fn fnv(mut h: u64, bytes: &[u8]) -> u64 {
    for b in bytes {
        h = (h ^ *b as u64).wrapping_mul(0x0000_0100_0000_01b3);
    }
    h
}

fn mixed(h: u64) -> u64 {
    let a = h ^ (h >> 33);
    let b = a.wrapping_mul(0xff51_afd7_ed55_8ccd);
    b ^ (b >> 33)
}

fn expected_checksum(key: &[u8], value: &[u8]) -> u64 {
    let h = fnv(0xcbf2_9ce4_8422_2325, &(key.len() as u64).to_le_bytes());
    let h = fnv(h, key);
    let h = fnv(h, &(value.len() as u64).to_le_bytes());
    mixed(fnv(h, value))
}

#[test]
fn hash_is_fnv_1a_with_a_mixing_step() {
    assert_eq!(FNV_OFFSET, 0xcbf2_9ce4_8422_2325);
    assert_eq!(absorb(FNV_OFFSET, b""), FNV_OFFSET);
    assert_eq!(absorb(FNV_OFFSET, b"a"), 0xaf63_dc4c_8601_ec8c);
    assert_eq!(absorb(FNV_OFFSET, b"foobar"), 0x8594_4171_f739_67e8);
    assert_eq!(absorb(absorb(FNV_OFFSET, b"foo"), b"bar"), 0x8594_4171_f739_67e8);
    assert_eq!(absorb_number(FNV_OFFSET, 0x0807_0605_0403_0201), absorb(FNV_OFFSET, &[1, 2, 3, 4, 5, 6, 7, 8]));
    assert_eq!(finish(0), 0);
    assert_eq!(finish(1), 0xff51_afd7_92fd_5b26);
    assert_eq!(finish(FNV_OFFSET), 0xecba_3df2_c338_3c52);
    assert_eq!(mul_wrap(u64::MAX, u64::MAX), 1);
    assert_eq!(mul_wrap(1 << 63, 2), 0);
    assert_eq!(mul_wrap(3, 5), 15);
}

fn record(timestamp: u64, key: &[u8], value: &[u8]) -> Vec<u8> {
    let mut out = Vec::new();
    out.extend_from_slice(&timestamp.to_le_bytes());
    out.extend_from_slice(&(key.len() as u32).to_le_bytes());
    out.extend_from_slice(key);
    out.extend_from_slice(&(value.len() as u32).to_le_bytes());
    out.extend_from_slice(value);
    out.extend_from_slice(&expected_checksum(key, value).to_le_bytes());
    out
}

#[test]
fn checksum_is_the_seeded_hash_of_key_and_value() {
    assert_eq!(calculate_checksum(b"ab", b"xyz"), 0xd4b6_30ba_61cd_ebfe);
    assert_eq!(calculate_checksum(b"", b""), 0x8efd_810d_cb71_afa3);
    assert_eq!(calculate_checksum(b"key", b"value"), expected_checksum(b"key", b"value"));
    assert_ne!(calculate_checksum(b"ab", b"c"), calculate_checksum(b"a", b"bc"));
}

#[test]
fn record_layout_is_little_endian_without_padding() {
    let mut wal = WriteAheadLog::new(Vec::new(), WalSyncMode::EveryWrite);
    assert_eq!(wal.log_operation(b"ab", b"xyz", 0x0102030405060708, 0), Ok(true));
    let mut expected = vec![8, 7, 6, 5, 4, 3, 2, 1, 2, 0, 0, 0, b'a', b'b', 3, 0, 0, 0, b'x', b'y', b'z'];
    expected.extend_from_slice(&[254, 235, 205, 97, 186, 48, 182, 212]);
    assert_eq!(wal.bytes(), &expected);
    assert_eq!(wal.buffer_size(), 2 + 3 + 24);
    assert_eq!(wal.flushed(), 29);
}

#[test]
fn log_round_trip_keeps_order_and_tombstones() {
    let mut wal = WriteAheadLog::new(Vec::new(), WalSyncMode::Batch);
    let ops: Vec<(Vec<u8>, Vec<u8>)> = vec![
        (b"a".to_vec(), b"1".to_vec()),
        (b"b".to_vec(), Vec::new()),
        (b"a".to_vec(), b"2".to_vec()),
        (Vec::new(), b"empty key".to_vec()),
    ];
    for (i, (k, v)) in ops.iter().enumerate() {
        wal.log_operation(k, v, 100 + i as u64, 0).unwrap();
    }
    assert_eq!(wal.recover(), ops);
    let reopened = WriteAheadLog::new(wal.bytes().clone(), WalSyncMode::Batch);
    assert_eq!(reopened.recover(), ops);
    assert_eq!(reopened.buffer_size(), wal.buffer_size());
    assert_eq!(reopened.flushed(), wal.buffer_size());
}

#[test]
fn recovery_yields_a_prefix_at_every_cut() {
    let ops: Vec<(Vec<u8>, Vec<u8>)> = (0..5)
        .map(|i| (format!("key{}", i).into_bytes(), format!("value{}", i).into_bytes()))
        .collect();
    let mut bytes = Vec::new();
    let mut ends = Vec::new();
    for (k, v) in &ops {
        bytes.extend_from_slice(&record(7, k, v));
        ends.push(bytes.len());
    }
    for cut in 0..=bytes.len() {
        let (recovered, sound) = recover_records(&bytes[..cut]);
        let whole = ends.iter().filter(|&&e| e <= cut).count();
        assert_eq!(recovered, ops[..whole].to_vec());
        assert_eq!(sound, if whole == 0 { 0 } else { ends[whole - 1] });
    }
}

#[test]
fn recovery_stops_at_the_first_checksum_mismatch() {
    let mut bytes = record(1, b"a", b"1");
    let second = bytes.len();
    bytes.extend_from_slice(&record(2, b"b", b"2"));
    bytes.extend_from_slice(&record(3, b"c", b"3"));
    bytes[second + 13] ^= 0xff; // the value byte of the second record
    let (recovered, sound) = recover_records(&bytes);
    assert_eq!(recovered, vec![(b"a".to_vec(), b"1".to_vec())]);
    assert_eq!(sound, second);
}

#[test]
fn integrity_scan_goes_on_behind_corrupt_records() {
    let mut bytes = Vec::new();
    let mut starts = Vec::new();
    for i in 0..8 {
        starts.push(bytes.len());
        bytes.extend_from_slice(&record(i, format!("k{}", i).as_bytes(), b"v"));
    }
    // Damage the value of every record but the first.
    for &s in &starts[1..] {
        bytes[s + 8 + 4 + 2 + 4] ^= 1;
    }
    bytes.extend_from_slice(&[0u8; 9]); // a timestamp and one more byte
    let report = scan_integrity(&bytes);
    assert_eq!(report.total_records, 8);
    assert_eq!(report.corrupted_records, 7);
    assert_eq!(report.truncated_records, 1);
    let expected: Vec<Vec<u8>> = (1..6).map(|i| format!("k{}", i).into_bytes()).collect();
    assert_eq!(report.corrupted_keys, expected);
}

#[test]
fn integrity_scan_of_clean_and_empty_logs() {
    let report = scan_integrity(&[]);
    assert_eq!((report.total_records, report.corrupted_records, report.truncated_records), (0, 0, 0));
    let bytes = record(1, b"a", b"1");
    let report = WriteAheadLog::verify_integrity(&bytes);
    assert_eq!((report.total_records, report.corrupted_records, report.truncated_records), (1, 0, 0));
}

#[test]
fn integrity_scan_counts_a_tail_of_any_length() {
    let whole = record(1, b"a", b"1");
    let next = record(2, b"b", b"2");
    for extra in 1..next.len() {
        let mut bytes = whole.clone();
        bytes.extend_from_slice(&next[..extra]);
        let report = scan_integrity(&bytes);
        assert_eq!(
            (report.total_records, report.corrupted_records, report.truncated_records),
            (1, 0, 1),
            "{} bytes of a second record",
            extra
        );
        assert_eq!(recover_records(&bytes).0, vec![(b"a".to_vec(), b"1".to_vec())]);
    }
    let report = scan_integrity(&[7]);
    assert_eq!((report.total_records, report.corrupted_records, report.truncated_records), (0, 0, 1));
}

#[test]
fn opening_a_log_discards_its_torn_tail() {
    let mut bytes = record(1, b"a", b"1");
    let whole = bytes.len();
    bytes.extend_from_slice(&record(2, b"b", b"2")[..20]);
    let mut wal = WriteAheadLog::new(bytes, WalSyncMode::EveryWrite);
    assert_eq!(wal.buffer_size(), whole);
    wal.log_operation(b"c", b"3", 3, 0).unwrap();
    assert_eq!(
        wal.recover(),
        vec![(b"a".to_vec(), b"1".to_vec()), (b"c".to_vec(), b"3".to_vec())]
    );
}

#[test]
fn every_write_mode_flushes_each_record() {
    let mut wal = WriteAheadLog::new(Vec::new(), WalSyncMode::EveryWrite);
    for i in 0..3u64 {
        assert_eq!(wal.log_operation(b"k", b"v", i, 0), Ok(true));
        assert_eq!(wal.flushed(), wal.buffer_size());
    }
}

#[test]
fn batch_mode_flushes_every_thousand_records() {
    let mut wal = WriteAheadLog::new(Vec::new(), WalSyncMode::Batch);
    for i in 0..999u64 {
        assert_eq!(wal.log_operation(b"k", b"v", i, 1_000_000), Ok(false));
    }
    assert_eq!(wal.flushed(), 0);
    assert_eq!(wal.log_operation(b"k", b"v", 999, 0), Ok(true));
    assert_eq!(wal.flushed(), 1000 * 26);
    assert_eq!(wal.log_operation(b"k", b"v", 1000, 0), Ok(false));
    assert_eq!(wal.flushed(), 1000 * 26);
}

#[test]
fn interval_mode_flushes_on_time_or_on_two_thousand_records() {
    let mut wal = WriteAheadLog::new(Vec::new(), WalSyncMode::Interval(50));
    assert_eq!(wal.log_operation(b"k", b"v", 0, 49), Ok(false));
    assert_eq!(wal.log_operation(b"k", b"v", 0, 50), Ok(true));
    for _ in 0..1999 {
        assert_eq!(wal.log_operation(b"k", b"v", 0, 0), Ok(false));
    }
    assert_eq!(wal.log_operation(b"k", b"v", 0, 0), Ok(true));
    assert_eq!(wal.flushed(), wal.buffer_size());
}

#[test]
fn clear_empties_the_log() {
    let mut wal = WriteAheadLog::new(Vec::new(), WalSyncMode::EveryWrite);
    wal.log_operation(b"k", b"v", 0, 0).unwrap();
    wal.clear();
    assert_eq!(wal.buffer_size(), 0);
    assert_eq!(wal.flushed(), 0);
    assert!(wal.recover().is_empty());
    assert_eq!(wal.sync_mode(), WalSyncMode::EveryWrite);
}

#[test]
fn forced_flush_reaches_the_end_of_the_log() {
    let mut wal = WriteAheadLog::new(Vec::new(), WalSyncMode::Batch);
    wal.log_operation(b"k", b"v", 0, 0).unwrap();
    assert_eq!(wal.flushed(), 0);
    wal.flush();
    assert_eq!(wal.flushed(), 26);
}

#[test]
fn default_sync_mode_is_batch() {
    assert_eq!(WalSyncMode::default(), WalSyncMode::Batch);
}
