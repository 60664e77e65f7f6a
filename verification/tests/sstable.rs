use velocity::memtable::Memtable;
use velocity::naming::{parse_sstable_file_name, sstable_file_name};
use velocity::sstable::SSTable;
use velocity::VeloError;

fn table_of(pairs: &[(&str, &str)]) -> Memtable {
    let mut m = Memtable::new();
    for (k, v) in pairs {
        m.insert(k.as_bytes().to_vec(), v.as_bytes().to_vec());
    }
    m
}

fn numbered(n: usize) -> Memtable {
    let mut m = Memtable::new();
    for i in 0..n {
        m.insert(format!("key_{:04}", 2 * i).into_bytes(), format!("val_{}", i).into_bytes());
    }
    m
}

#[test]
fn image_is_a_flat_sequence_of_entries() {
    let source = table_of(&[("b", "yz"), ("a", "x"), ("c", "")]);
    let table = SSTable::create(9, &source, 64, 3).unwrap();
    let expected: Vec<u8> = vec![
        1, 0, b'a', 1, 0, 0, 0, b'x', //
        1, 0, b'b', 2, 0, 0, 0, b'y', b'z', //
        1, 0, b'c', 0, 0, 0, 0,
    ];
    assert_eq!(table.data(), &expected);
    assert_eq!(SSTable::encode(&source).unwrap(), expected);
    assert_eq!(table.id(), 9);
    assert_eq!(table.size(), 24);
    assert_eq!(table.entry_count(), 3);
    assert_eq!(table.min_key(), &Some(b"a".to_vec()));
    assert_eq!(table.max_key(), &Some(b"c".to_vec()));
    assert_eq!(table.bloom().bit_count(), 64);
    assert_eq!(table.bloom().hash_functions(), 3);
}

#[test]
fn point_lookup_agrees_with_the_source() {
    let source = numbered(200);
    let table = SSTable::create(1, &source, 200 * 15, 10).unwrap();
    for i in 0..200 {
        let key = format!("key_{:04}", 2 * i);
        assert_eq!(table.get(key.as_bytes()), Some(format!("val_{}", i).into_bytes()));
        let absent = format!("key_{:04}", 2 * i + 1);
        assert_eq!(table.get(absent.as_bytes()), None);
    }
    assert_eq!(table.get(b""), None);
    assert_eq!(table.get(b"key_"), None);
    assert_eq!(table.get(b"zzz"), None);
}

#[test]
fn point_lookup_with_a_filter_that_knows_everything() {
    // One bit: every probe hits it, so nothing is rejected by the filter.
    let source = numbered(40);
    let table = SSTable::create(1, &source, 1, 1).unwrap();
    assert_eq!(table.bloom().bit_count(), 1);
    for i in 0..40 {
        assert_eq!(
            table.get(format!("key_{:04}", 2 * i).as_bytes()),
            Some(format!("val_{}", i).into_bytes())
        );
        assert_eq!(table.get(format!("key_{:04}", 2 * i + 1).as_bytes()), None);
    }
    assert_eq!(table.get(b"a"), None);
    assert_eq!(table.get(b"z"), None);
}

#[test]
fn tombstone_reads_as_not_found_but_is_found() {
    let source = table_of(&[("dead", ""), ("live", "v")]);
    let table = SSTable::create(1, &source, 64, 2).unwrap();
    assert_eq!(table.get(b"dead"), None);
    assert_eq!(table.find(b"dead"), Some(Vec::new()));
    assert_eq!(table.find(b"live"), Some(b"v".to_vec()));
    assert_eq!(table.find(b"none"), None);
    assert_eq!(table.all_entries(), vec![(b"live".to_vec(), b"v".to_vec())]);
    assert_eq!(
        table.records(),
        vec![(b"dead".to_vec(), Vec::new()), (b"live".to_vec(), b"v".to_vec())]
    );
}

#[test]
fn sparse_index_holds_every_sixteenth_entry() {
    let source = numbered(40);
    let table = SSTable::create(1, &source, 1024, 4).unwrap();
    let index = table.index();
    assert_eq!(index.len(), 3);
    // Every entry takes 2 + 8 + 4 + value bytes; values are "val_0".."val_39".
    let entry_len = |i: usize| 2 + 8 + 4 + format!("val_{}", i).len() as u64;
    let offset = |n: usize| (0..n).map(entry_len).sum::<u64>();
    assert_eq!(index[0].key, b"key_0000".to_vec());
    assert_eq!(index[0].offset, 0);
    assert_eq!(index[1].key, b"key_0032".to_vec());
    assert_eq!(index[1].offset, offset(16));
    assert_eq!(index[2].key, b"key_0064".to_vec());
    assert_eq!(index[2].offset, offset(32));
    assert_eq!(table.size(), offset(40));
}

#[test]
fn load_rebuilds_what_create_built() {
    let source = numbered(50);
    let made = SSTable::create(4, &source, 1000, 5).unwrap();
    let loaded = SSTable::load(4, made.data(), 1000, 5).unwrap();
    assert_eq!(loaded.data(), made.data());
    assert_eq!(loaded.entry_count(), 50);
    assert_eq!(loaded.size(), made.size());
    assert_eq!(loaded.min_key(), made.min_key());
    assert_eq!(loaded.max_key(), made.max_key());
    assert_eq!(loaded.bloom().bits(), made.bloom().bits());
    assert_eq!(loaded.index().len(), made.index().len());
    for i in 0..50 {
        assert_eq!(
            loaded.get(format!("key_{:04}", 2 * i).as_bytes()),
            Some(format!("val_{}", i).into_bytes())
        );
    }
}

#[test]
fn load_drops_what_follows_a_torn_entry() {
    let source = table_of(&[("a", "1"), ("b", "2"), ("c", "3")]);
    let image = SSTable::encode(&source).unwrap();
    for cut in 0..image.len() {
        let loaded = SSTable::load(1, &image[..cut], 64, 2).unwrap();
        let whole = cut / 8;
        assert_eq!(loaded.entry_count(), whole);
        assert_eq!(loaded.data().len(), whole * 8);
        assert_eq!(loaded.get(b"a"), if whole >= 1 { Some(b"1".to_vec()) } else { None });
        assert_eq!(loaded.get(b"c"), None);
    }
}

#[test]
fn load_of_an_empty_file() {
    let loaded = SSTable::load(1, &[], 64, 2).unwrap();
    assert_eq!(loaded.entry_count(), 0);
    assert_eq!(loaded.min_key(), &None);
    assert_eq!(loaded.max_key(), &None);
    assert_eq!(loaded.get(b"a"), None);
    assert!(loaded.index().is_empty());
}

#[test]
fn load_refuses_keys_out_of_order() {
    let unsorted = vec![1, 0, b'b', 0, 0, 0, 0, 1, 0, b'a', 0, 0, 0, 0];
    assert!(matches!(SSTable::load(1, &unsorted, 64, 2), Err(VeloError::CorruptedData(_))));
    let repeated = vec![1, 0, b'a', 0, 0, 0, 0, 1, 0, b'a', 0, 0, 0, 0];
    assert!(matches!(SSTable::load(1, &repeated, 64, 2), Err(VeloError::CorruptedData(_))));
}

#[test]
fn create_refuses_a_key_too_long_for_an_entry() {
    let mut source = Memtable::new();
    source.insert(vec![b'k'; 65536], b"v".to_vec());
    assert!(matches!(SSTable::create(1, &source, 64, 2), Err(VeloError::InvalidOperation(_))));
    let mut source = Memtable::new();
    source.insert(vec![b'k'; 65535], b"v".to_vec());
    let table = SSTable::create(1, &source, 64, 2).unwrap();
    assert_eq!(table.get(&vec![b'k'; 65535]), Some(b"v".to_vec()));
}

#[test]
fn add_keys_to_teaches_a_filter_every_key() {
    let source = table_of(&[("a", "1"), ("b", ""), ("c", "3")]);
    let table = SSTable::create(1, &source, 64, 2).unwrap();
    let mut filter = velocity::BloomFilter::with_geometry(4096, 5);
    assert!(!filter.might_contain(b"a"));
    table.add_keys_to(&mut filter);
    assert!(filter.might_contain(b"a"));
    assert!(filter.might_contain(b"b"));
    assert!(filter.might_contain(b"c"));
}

#[test]
fn file_names_are_zero_padded_to_six_digits() {
    assert_eq!(sstable_file_name(0), b"sstable_000000.vdb".to_vec());
    assert_eq!(sstable_file_name(1), b"sstable_000001.vdb".to_vec());
    assert_eq!(sstable_file_name(42), b"sstable_000042.vdb".to_vec());
    assert_eq!(sstable_file_name(999999), b"sstable_999999.vdb".to_vec());
    assert_eq!(sstable_file_name(1234567), b"sstable_1234567.vdb".to_vec());
    assert_eq!(sstable_file_name(u64::MAX), b"sstable_18446744073709551615.vdb".to_vec());
}

#[test]
fn file_names_parse_back_to_their_ids() {
    for id in [0u64, 1, 9, 10, 99999, 100000, 999999, 1000000, 1234567, u64::MAX] {
        assert_eq!(parse_sstable_file_name(&sstable_file_name(id)), Some(id));
    }
}

#[test]
fn other_names_are_not_sorted_runs() {
    for name in [
        "",
        "velocity.wal",
        "sstable_1.vdb",
        "sstable_00001.vdb",
        "sstable_0000001.vdb",
        "sstable_00000a.vdb",
        "sstable_+00001.vdb",
        "sstable_000001.vdb ",
        "sstable_000001.VDB",
        "Sstable_000001.vdb",
        "sstable_000001",
        "sstable_18446744073709551616.vdb",
        "sstable_99999999999999999999999.vdb",
    ] {
        assert_eq!(parse_sstable_file_name(name.as_bytes()), None, "{}", name);
    }
}

#[test]
fn the_log_has_its_name() {
    assert_eq!(velocity::naming::wal_file_name(), b"velocity.wal".to_vec());
}
