//! Sorted string tables: immutable sorted runs with a sparse index, a bloom
//! filter and key bounds.
//!
//! The image of a table is a flat sequence of entries, each laid out as
//! `key_len_u16 · key · value_len_u32 · value`, little-endian.

use vstd::prelude::*;
use vstd::bytes::{
    spec_u16_to_le_bytes, spec_u32_to_le_bytes, lemma_auto_spec_u16_to_from_le_bytes,
    lemma_auto_spec_u32_to_from_le_bytes,
};
use vstd::slice::slice_subrange;
use crate::bloom::BloomFilter;
use crate::codec::{append, copy_bytes, copy_range, get_u16, get_u32, put_u16, put_u32, u16_at, u32_at};
use crate::entries::{
    has_key, lemma_absent_when_bracketed, lemma_replay_domain, lemma_replay_sorted_at,
    pairs_view, read_map, replay, strictly_sorted, Record,
};
use crate::error::{VeloError, VeloResult};
use crate::memtable::Memtable;
use crate::order::{
    compare_keys, key_le, key_lt, lemma_key_lt_asymmetric, lemma_key_lt_le,
    lemma_key_lt_transitive, KeyOrder,
};

verus! {

/// The sparse index holds the first of every so many entries.
pub const INDEX_STRIDE: usize = 16;

/// The most entries a point lookup reads.
pub const SCAN_BUDGET: usize = 32;

/// The longest key that an entry can hold.
pub const MAX_KEY_LEN: usize = 65535;

/// A record whose key and value have lengths that an entry can hold.
pub open spec fn encodable_record(r: Record) -> bool {
    r.0.len() <= MAX_KEY_LEN && r.1.len() <= u32::MAX
}

/// Every record of the run can be written as an entry.
pub open spec fn encodable(run: Seq<Record>) -> bool {
    forall|i: int| 0 <= i < run.len() ==> encodable_record(#[trigger] run[i])
}

/// The bytes of one entry.
pub open spec fn encode_entry(key: Seq<u8>, value: Seq<u8>) -> Seq<u8> {
    spec_u16_to_le_bytes(key.len() as u16) + key + spec_u32_to_le_bytes(value.len() as u32)
        + value
}

/// The image of a run: its entries one after another.
pub open spec fn encode_run(run: Seq<Record>) -> Seq<u8>
    decreases run.len(),
{
    if run.len() == 0 {
        Seq::empty()
    } else {
        encode_run(run.drop_last()) + encode_entry(run.last().0, run.last().1)
    }
}

/// The offset in the image at which entry `i` of the run starts.
pub open spec fn offset_of(run: Seq<Record>, i: int) -> int {
    encode_run(run.take(i)).len() as int
}

/// An entry at the front of a stretch of image; `len` is its length in bytes.
pub struct EntryFrame {
    pub key: Seq<u8>,
    pub value: Seq<u8>,
    pub len: int,
}

/// Parses the front of `data` as one entry, if all its fields are there.
pub open spec fn entry_frame(data: Seq<u8>) -> Option<EntryFrame> {
    if data.len() < 2 {
        None
    } else {
        let klen = u16_at(data, 0) as int;
        if data.len() < 6 + klen {
            None
        } else {
            let vlen = u32_at(data, 2 + klen) as int;
            if data.len() < 6 + klen + vlen {
                None
            } else {
                Some(
                    EntryFrame {
                        key: data.subrange(2, 2 + klen),
                        value: data.subrange(6 + klen, 6 + klen + vlen),
                        len: 6 + klen + vlen,
                    },
                )
            }
        }
    }
}

/// The entries read from the front of an image, up to the first whose fields
/// are cut short.
pub open spec fn parse_run(data: Seq<u8>) -> Seq<Record>
    decreases data.len(),
{
    match entry_frame(data) {
        Some(e) => seq![(e.key, e.value)] + parse_run(data.skip(e.len)),
        None => Seq::empty(),
    }
}

/// The length of the part of an image that its entries are read from.
pub open spec fn parsed_len(data: Seq<u8>) -> int
    decreases data.len(),
{
    match entry_frame(data) {
        Some(e) => e.len + parsed_len(data.skip(e.len)),
        None => 0,
    }
}

/// The entries of a run that hold a value, in order.
pub open spec fn live(run: Seq<Record>) -> Seq<Record>
    decreases run.len(),
{
    if run.len() == 0 {
        Seq::empty()
    } else if run.last().1.len() == 0 {
        live(run.drop_last())
    } else {
        live(run.drop_last()).push(run.last())
    }
}

/// The value that the run stores for `key`, which is empty for a tombstone.
pub open spec fn stored_in(run: Seq<Record>, key: Seq<u8>) -> Option<Seq<u8>> {
    if replay(run).contains_key(key) {
        Some(replay(run)[key])
    } else {
        None
    }
}

/// What a point lookup owes for `key`: the value stored with it, unless the
/// key is missing or deleted.
pub open spec fn lookup_run(run: Seq<Record>, key: Seq<u8>) -> Option<Seq<u8>> {
    read_map(replay(run), key)
}

/// The image of two runs joined is their images joined.
pub proof fn lemma_encode_concat(a: Seq<Record>, b: Seq<Record>)
    ensures
        encode_run(a + b) == encode_run(a) + encode_run(b),
    decreases b.len(),
{
    if b.len() == 0 {
        assert(a + b =~= a);
        assert(encode_run(a) + encode_run(b) =~= encode_run(a));
    } else {
        lemma_encode_concat(a, b.drop_last());
        assert((a + b).drop_last() =~= a + b.drop_last());
        assert((a + b).last() == b.last());
        assert(encode_run(a + b) =~= encode_run(a) + encode_run(b));
    }
}

/// The image of a run of one record is its entry.
pub proof fn lemma_encode_single(r: Record)
    ensures
        encode_run(seq![r]) == encode_entry(r.0, r.1),
{
    assert(seq![r].drop_last() =~= Seq::<Record>::empty());
    assert(seq![r].last() == r);
    assert(encode_run(Seq::<Record>::empty()) =~= Seq::<u8>::empty());
    assert(encode_run(seq![r]) =~= encode_entry(r.0, r.1));
}

/// An entry's bytes, followed by anything, parse as that entry.
pub proof fn lemma_entry_frame_of_entry(key: Seq<u8>, value: Seq<u8>, rest: Seq<u8>)
    requires
        encodable_record((key, value)),
    ensures
        entry_frame(encode_entry(key, value) + rest) == Some(
            EntryFrame { key, value, len: (6 + key.len() + value.len()) as int },
        ),
        encode_entry(key, value).len() == 6 + key.len() + value.len(),
{
    lemma_auto_spec_u16_to_from_le_bytes();
    lemma_auto_spec_u32_to_from_le_bytes();
    let klen = key.len() as int;
    let vlen = value.len() as int;
    let d = encode_entry(key, value) + rest;
    assert(d.subrange(0, 2) =~= spec_u16_to_le_bytes(key.len() as u16));
    assert(d.subrange(2, 2 + klen) =~= key);
    assert(d.subrange(2 + klen, 6 + klen) =~= spec_u32_to_le_bytes(value.len() as u32));
    assert(d.subrange(6 + klen, 6 + klen + vlen) =~= value);
}

/// The bytes that an entry was parsed from are the bytes of that entry.
pub proof fn lemma_entry_of_entry_frame(data: Seq<u8>)
    requires
        entry_frame(data) is Some,
    ensures
        ({
            let e = entry_frame(data)->Some_0;
            &&& 6 <= e.len <= data.len()
            &&& encodable_record((e.key, e.value))
            &&& data.take(e.len) == encode_entry(e.key, e.value)
        }),
{
    lemma_auto_spec_u16_to_from_le_bytes();
    lemma_auto_spec_u32_to_from_le_bytes();
    let e = entry_frame(data)->Some_0;
    let klen = u16_at(data, 0) as int;
    let vlen = u32_at(data, 2 + klen) as int;
    assert(data.subrange(0, 2).len() == 2);
    assert(data.subrange(2 + klen, 6 + klen).len() == 4);
    assert(data.take(e.len) =~= data.subrange(0, 2) + e.key + data.subrange(2 + klen, 6 + klen)
        + e.value);
}

/// Reading an image that was written from a run gives the run back.
pub proof fn lemma_parse_of_encoded(run: Seq<Record>)
    requires
        encodable(run),
    ensures
        parse_run(encode_run(run)) == run,
        parsed_len(encode_run(run)) == encode_run(run).len(),
    decreases run.len(),
{
    if run.len() == 0 {
        assert(parse_run(encode_run(run)) =~= run);
    } else {
        let first = run[0];
        let rest = run.drop_first();
        assert(run =~= seq![first] + rest);
        lemma_encode_concat(seq![first], rest);
        lemma_encode_single(first);
        lemma_entry_frame_of_entry(first.0, first.1, encode_run(rest));
        let d = encode_run(run);
        let len = (6 + first.0.len() + first.1.len()) as int;
        assert(d.skip(len) =~= encode_run(rest));
        assert(encodable(rest)) by {
            assert forall|i: int| 0 <= i < rest.len() implies encodable_record(
                #[trigger] rest[i],
            ) by {
                assert(rest[i] == run[i + 1]);
            }
        }
        lemma_parse_of_encoded(rest);
        assert(parse_run(d) =~= run);
    }
}

/// Writing out what was read from an image gives back the part of the image
/// that was read.
pub proof fn lemma_encode_of_parsed(data: Seq<u8>)
    ensures
        0 <= parsed_len(data) <= data.len(),
        encodable(parse_run(data)),
        encode_run(parse_run(data)) == data.take(parsed_len(data)),
    decreases data.len(),
{
    match entry_frame(data) {
        Some(e) => {
            lemma_entry_of_entry_frame(data);
            let rest = data.skip(e.len);
            lemma_encode_of_parsed(rest);
            let first = (e.key, e.value);
            lemma_encode_concat(seq![first], parse_run(rest));
            lemma_encode_single(first);
            assert(data.take(parsed_len(data)) =~= data.take(e.len) + rest.take(
                parsed_len(rest),
            ));
            let run = parse_run(data);
            assert forall|i: int| 0 <= i < run.len() implies encodable_record(
                #[trigger] run[i],
            ) by {
                if i > 0 {
                    assert(run[i] == parse_run(rest)[i - 1]);
                }
            }
        },
        None => {
            assert(data.take(0) =~= Seq::<u8>::empty());
        },
    }
}

/// In the image of a run, entry `i` stands at its offset and parses as
/// itself; the offset behind the last entry is the end of the image.
pub proof fn lemma_entry_at(run: Seq<Record>, i: int)
    requires
        encodable(run),
        0 <= i <= run.len(),
    ensures
        0 <= offset_of(run, i) <= encode_run(run).len(),
        i == run.len() ==> offset_of(run, i) == encode_run(run).len(),
        i < run.len() ==> {
            &&& entry_frame(encode_run(run).skip(offset_of(run, i))) == Some(
                EntryFrame {
                    key: run[i].0,
                    value: run[i].1,
                    len: (6 + run[i].0.len() + run[i].1.len()) as int,
                },
            )
            &&& offset_of(run, i + 1) == offset_of(run, i) + 6 + run[i].0.len() + run[i].1.len()
        },
{
    let d = encode_run(run);
    assert(run =~= run.take(i) + run.skip(i));
    lemma_encode_concat(run.take(i), run.skip(i));
    if i == run.len() {
        assert(run.take(i) =~= run);
    } else {
        let r = run[i];
        assert(run.skip(i) =~= seq![r] + run.skip(i + 1));
        lemma_encode_concat(seq![r], run.skip(i + 1));
        lemma_encode_single(r);
        lemma_entry_frame_of_entry(r.0, r.1, encode_run(run.skip(i + 1)));
        assert(d.skip(offset_of(run, i)) =~= encode_entry(r.0, r.1) + encode_run(
            run.skip(i + 1),
        ));
        assert(run.take(i + 1).drop_last() =~= run.take(i));
        assert(run.take(i + 1).last() == r);
    }
}

/// Where the fields of a parsed entry lie in the image.
#[derive(Debug, Clone, Copy)]
pub struct EntryAt {
    pub key_start: usize,
    pub key_end: usize,
    pub value_start: usize,
    pub value_end: usize,
}

/// Parses the entry that starts at `pos`, if all its fields are there.
pub fn read_entry(data: &[u8], pos: usize) -> (at: Option<EntryAt>)
    requires
        pos <= data.len(),
    ensures
        match at {
            None => entry_frame(data@.skip(pos as int)) is None,
            Some(e) => {
                &&& pos + 2 == e.key_start <= e.key_end
                &&& e.key_end + 4 == e.value_start <= e.value_end <= data.len()
                &&& entry_frame(data@.skip(pos as int)) == Some(
                    EntryFrame {
                        key: data@.subrange(e.key_start as int, e.key_end as int),
                        value: data@.subrange(e.value_start as int, e.value_end as int),
                        len: e.value_end - pos,
                    },
                )
            },
        },
{
    let ghost tail = data@.skip(pos as int);
    let avail = data.len() - pos;
    if avail < 2 {
        return None;
    }
    let klen = get_u16(data, pos) as usize;
    assert(tail.subrange(0, 2) =~= data@.subrange(pos as int, pos + 2));
    let rest = avail - 2;
    if rest < klen || rest - klen < 4 {
        return None;
    }
    let key_start = pos + 2;
    let key_end = key_start + klen;
    let vlen = get_u32(data, key_end) as usize;
    assert(tail.subrange(2 + klen, 6 + klen) =~= data@.subrange(key_end as int, key_end + 4));
    let rest = rest - klen - 4;
    if rest < vlen {
        return None;
    }
    let value_start = key_end + 4;
    let value_end = value_start + vlen;
    assert(tail.subrange(2, 2 + klen) =~= data@.subrange(key_start as int, key_end as int));
    assert(tail.subrange(6 + klen, 6 + klen + vlen) =~= data@.subrange(
        value_start as int,
        value_end as int,
    ));
    Some(EntryAt { key_start, key_end, value_start, value_end })
}

/// One entry of the sparse index: a key and the offset of its entry.
#[derive(Debug)]
pub struct IndexEntry {
    pub key: Vec<u8>,
    pub offset: u64,
}

/// The bytes held by an optional key.
pub open spec fn opt_view(key: Option<Vec<u8>>) -> Option<Seq<u8>> {
    match key {
        Some(k) => Some(k@),
        None => None,
    }
}

/// An immutable sorted run with what serves to look a key up in it.
#[derive(Debug)]
pub struct SSTable {
    id: u64,
    data: Vec<u8>,
    index: Vec<IndexEntry>,
    bloom: BloomFilter,
    min_key: Option<Vec<u8>>,
    max_key: Option<Vec<u8>>,
    size: u64,
    entry_count: usize,
}

impl SSTable {
    pub closed spec fn spec_id(&self) -> u64 {
        self.id
    }

    /// The bytes of the table's file.
    pub closed spec fn image(&self) -> Seq<u8> {
        self.data@
    }

    /// The entries of the table in key order, tombstones included.
    pub open spec fn entries(&self) -> Seq<Record> {
        parse_run(self.image())
    }

    pub closed spec fn spec_bloom(&self) -> BloomFilter {
        self.bloom
    }

    pub closed spec fn spec_index(&self) -> Seq<IndexEntry> {
        self.index@
    }

    pub closed spec fn spec_min_key(&self) -> Option<Seq<u8>> {
        opt_view(self.min_key)
    }

    pub closed spec fn spec_max_key(&self) -> Option<Seq<u8>> {
        opt_view(self.max_key)
    }

    pub closed spec fn spec_size(&self) -> u64 {
        self.size
    }

    pub closed spec fn spec_entry_count(&self) -> usize {
        self.entry_count
    }

    /// The image is a strictly sorted run of whole entries, and the index,
    /// the filter, the bounds and the counts say of it what they should.
    pub open spec fn wf(&self) -> bool {
        let run = self.entries();
        &&& parsed_len(self.image()) == self.image().len()
        &&& strictly_sorted(run)
        &&& self.spec_entry_count() == run.len()
        &&& self.spec_size() == self.image().len()
        &&& self.spec_bloom().wf()
        &&& forall|i: int|
            0 <= i < run.len() ==> self.spec_bloom().might_contain_spec(#[trigger] run[i].0)
        &&& forall|pos: int|
            self.spec_bloom().bit(pos) == probed_by(self.spec_bloom(), run, run.len() as int, pos)
        &&& indexes(self.spec_index(), run, run.len() as int)
        &&& self.spec_min_key() == if run.len() == 0 {
            None
        } else {
            Some(run[0].0)
        }
        &&& self.spec_max_key() == if run.len() == 0 {
            None
        } else {
            Some(run.last().0)
        }
    }

    pub fn id(&self) -> (id: u64)
        ensures
            id == self.spec_id(),
    {
        self.id
    }

    /// The bytes of the table's file.
    pub fn data(&self) -> (image: &Vec<u8>)
        ensures
            image@ == self.image(),
    {
        &self.data
    }

    pub fn index(&self) -> (index: &Vec<IndexEntry>)
        ensures
            index@ == self.spec_index(),
    {
        &self.index
    }

    pub fn bloom(&self) -> (bloom: &BloomFilter)
        ensures
            *bloom == self.spec_bloom(),
    {
        &self.bloom
    }

    pub fn min_key(&self) -> (key: &Option<Vec<u8>>)
        ensures
            opt_view(*key) == self.spec_min_key(),
    {
        &self.min_key
    }

    pub fn max_key(&self) -> (key: &Option<Vec<u8>>)
        ensures
            opt_view(*key) == self.spec_max_key(),
    {
        &self.max_key
    }

    /// The size of the table's file in bytes.
    pub fn size(&self) -> (size: u64)
        ensures
            size == self.spec_size(),
    {
        self.size
    }

    /// The number of entries, tombstones included.
    pub fn entry_count(&self) -> (n: usize)
        ensures
            n == self.spec_entry_count(),
    {
        self.entry_count
    }

    /// Builds a table from the bytes of its file. Entries are read from the
    /// front; where one is cut short the rest of the file is dropped. A file
    /// whose keys are not strictly increasing is refused as corrupt.
    pub fn load(id: u64, bytes: &[u8], bloom_bits: usize, bloom_probes: usize) -> (result:
        VeloResult<SSTable>)
        ensures
            match result {
                Ok(table) => {
                    &&& strictly_sorted(parse_run(bytes@))
                    &&& table.wf()
                    &&& table.spec_id() == id
                    &&& table.entries() == parse_run(bytes@)
                    &&& table.image() == bytes@.take(parsed_len(bytes@))
                    &&& table.spec_bloom().width() == if bloom_bits == 0 {
                        1
                    } else {
                        bloom_bits as int
                    }
                    &&& table.spec_bloom().probes() == bloom_probes
                },
                Err(e) => !strictly_sorted(parse_run(bytes@)) && e is CorruptedData,
            },
    {
        Self::index_image(id, copy_bytes(bytes), bloom_bits, bloom_probes)
    }

    /// Builds a table on an image that the caller gives away.
    fn index_image(id: u64, bytes: Vec<u8>, bloom_bits: usize, bloom_probes: usize) -> (result:
        VeloResult<SSTable>)
        ensures
            match result {
                Ok(table) => {
                    &&& strictly_sorted(parse_run(bytes@))
                    &&& table.wf()
                    &&& table.spec_id() == id
                    &&& table.entries() == parse_run(bytes@)
                    &&& table.image() == bytes@.take(parsed_len(bytes@))
                    &&& table.spec_bloom().width() == if bloom_bits == 0 {
                        1
                    } else {
                        bloom_bits as int
                    }
                    &&& table.spec_bloom().probes() == bloom_probes
                },
                Err(e) => !strictly_sorted(parse_run(bytes@)) && e is CorruptedData,
            },
    {
        let ghost run = parse_run(bytes@);
        let mut data = bytes;
        let mut index: Vec<IndexEntry> = Vec::new();
        let mut bloom = BloomFilter::with_geometry(bloom_bits, bloom_probes);
        let mut first: Option<(usize, usize)> = None;
        let mut last: Option<(usize, usize)> = None;
        let mut count: usize = 0;
        let mut pos: usize = 0;
        proof {
            lemma_encode_of_parsed(data@);
            assert(data@.skip(0) =~= data@);
            assert(run.take(0) =~= Seq::<Record>::empty());
            assert(run.take(0) + run =~= run);
        }
        loop
            invariant
                data@ == bytes@,
                run == parse_run(bytes@),
                encodable(run),
                pos <= data.len(),
                count <= run.len(),
                count * 6 <= pos,
                run == run.take(count as int) + parse_run(data@.skip(pos as int)),
                parsed_len(data@) == pos + parsed_len(data@.skip(pos as int)),
                pos == offset_of(run, count as int),
                strictly_sorted(run.take(count as int)),
                bloom.wf(),
                bloom.width() == if bloom_bits == 0 {
                    1
                } else {
                    bloom_bits as int
                },
                bloom.probes() == bloom_probes,
                forall|i: int| 0 <= i < count ==> bloom.might_contain_spec(#[trigger] run[i].0),
                forall|pos: int| bloom.bit(pos) == probed_by(bloom, run, count as int, pos),
                indexes(index@, run, count as int),
                count == 0 ==> first is None && last is None,
                count > 0 ==> first is Some && last is Some,
                first is Some ==> {
                    let (a, b) = first->Some_0;
                    a <= b <= pos && data@.subrange(a as int, b as int) == run[0].0
                },
                last is Some ==> {
                    let (a, b) = last->Some_0;
                    a <= b <= pos && data@.subrange(a as int, b as int) == run[count - 1].0
                },
            ensures
                count == run.len(),
                pos == parsed_len(data@),
            decreases data.len() - pos,
        {
            let ghost tail = data@.skip(pos as int);
            match read_entry(data.as_slice(), pos) {
                None => {
                    proof {
                        assert(run.take(count as int) + Seq::<Record>::empty() =~= run.take(
                            count as int,
                        ));
                    }
                    break;
                },
                Some(e) => {
                    let key = slice_subrange(data.as_slice(), e.key_start, e.key_end);
                    proof {
                        assert(tail.skip(e.value_end - pos) =~= data@.skip(e.value_end as int));
                        assert(run[count as int] == (
                            key@,
                            data@.subrange(e.value_start as int, e.value_end as int),
                        ));
                        lemma_entry_at(run, count as int);
                    }
                    match last {
                        Some((a, b)) => {
                            let prev = slice_subrange(data.as_slice(), a, b);
                            match compare_keys(prev, key) {
                                KeyOrder::Before => {},
                                _ => {
                                    proof {
                                        assert(!key_lt(run[count - 1].0, run[count as int].0));
                                    }
                                    return Err(
                                        VeloError::CorruptedData(
                                            "sorted run out of key order".to_string(),
                                        ),
                                    );
                                },
                            }
                        },
                        None => {},
                    }
                    proof {
                        let grown = run.take(count + 1);
                        assert forall|i: int, j: int| 0 <= i < j < grown.len() implies key_lt(
                            grown[i].0,
                            grown[j].0,
                        ) by {
                            if j == count {
                                if i < count - 1 {
                                    assert(key_lt(
                                        run.take(count as int)[i].0,
                                        run.take(count as int)[count - 1].0,
                                    ));
                                    lemma_key_lt_transitive(
                                        run[i].0,
                                        run[count - 1].0,
                                        run[count as int].0,
                                    );
                                }
                            } else {
                                assert(key_lt(
                                    run.take(count as int)[i].0,
                                    run.take(count as int)[j].0,
                                ));
                            }
                        }
                    }
                    let ghost sparse = bloom;
                    bloom.add(key);
                    proof {
                        assert forall|pos: int| bloom.bit(pos) == probed_by(
                            bloom,
                            run,
                            count + 1,
                            pos,
                        ) by {
                            sparse.lemma_same_probes(&bloom, key@, pos);
                            if probed_by(sparse, run, count as int, pos) {
                                let i = choose|i: int|
                                    0 <= i < count && sparse.probed(#[trigger] run[i].0, pos);
                                sparse.lemma_same_probes(&bloom, run[i].0, pos);
                            }
                            if probed_by(bloom, run, count + 1, pos) {
                                let i = choose|i: int|
                                    0 <= i < count + 1 && bloom.probed(#[trigger] run[i].0, pos);
                                sparse.lemma_same_probes(&bloom, run[i].0, pos);
                            }
                        }
                    }
                    if count % INDEX_STRIDE == 0 {
                        index.push(IndexEntry { key: copy_bytes(key), offset: pos as u64 });
                    }
                    if first.is_none() {
                        first = Some((e.key_start, e.key_end));
                    }
                    last = Some((e.key_start, e.key_end));
                    proof {
                        assert(run.take(count + 1) + parse_run(data@.skip(e.value_end as int))
                            =~= run.take(count as int) + parse_run(tail));
                    }
                    count = count + 1;
                    pos = e.value_end;
                },
            }
        }
        let min_key = match first {
            Some((a, b)) => Some(copy_range(data.as_slice(), a, b)),
            None => None,
        };
        let max_key = match last {
            Some((a, b)) => Some(copy_range(data.as_slice(), a, b)),
            None => None,
        };
        proof {
            assert(run.take(count as int) =~= run);
            lemma_parse_of_encoded(run);
        }
        data.truncate(pos);
        let size = data.len() as u64;
        Ok(SSTable { id, data, index, bloom, min_key, max_key, size, entry_count: count })
    }
}

impl SSTable {
    /// Writes the entries of a memtable, in key order, as the image of a run.
    /// Fails if a key or a value is too long for an entry.
    pub fn encode(data: &Memtable) -> (result: VeloResult<Vec<u8>>)
        ensures
            match result {
                Ok(image) => encodable(data.run()) && image@ == encode_run(data.run()),
                Err(e) => !encodable(data.run()) && e is InvalidOperation,
            },
    {
        let ghost run = data.run();
        let mut image: Vec<u8> = Vec::new();
        let mut i: usize = 0;
        assert(run.take(0) =~= Seq::<Record>::empty());
        while i < data.len()
            invariant
                i <= run.len(),
                run == data.run(),
                encodable(run.take(i as int)),
                image@ == encode_run(run.take(i as int)),
            decreases run.len() - i,
        {
            let entry = data.entry_at(i);
            if entry.key.len() > MAX_KEY_LEN || entry.value.len() > u32::MAX as usize {
                proof {
                    assert(!encodable_record(run[i as int]));
                }
                return Err(
                    VeloError::InvalidOperation("entry too large for a sorted run".to_string()),
                );
            }
            let ghost before = image@;
            put_u16(&mut image, entry.key.len() as u16);
            append(&mut image, entry.key.as_slice());
            put_u32(&mut image, entry.value.len() as u32);
            append(&mut image, entry.value.as_slice());
            proof {
                assert(run.take(i + 1).drop_last() =~= run.take(i as int));
                assert(run.take(i + 1).last() == run[i as int]);
                assert(image@ =~= before + encode_entry(entry.key@, entry.value@));
                assert forall|j: int| 0 <= j < i + 1 implies encodable_record(
                    #[trigger] run.take(i + 1)[j],
                ) by {
                    if j < i {
                        assert(run.take(i + 1)[j] == run.take(i as int)[j]);
                    }
                }
            }
            i += 1;
        }
        assert(run.take(i as int) =~= run);
        Ok(image)
    }

    /// Creates the table with the given id from a memtable: its entries in
    /// key order, with a filter of the given geometry. Fails if a key or a
    /// value is too long for an entry.
    pub fn create(id: u64, data: &Memtable, bloom_bits: usize, bloom_probes: usize) -> (result:
        VeloResult<SSTable>)
        requires
            data.wf(),
        ensures
            match result {
                Ok(table) => {
                    &&& encodable(data.run())
                    &&& table.wf()
                    &&& table.spec_id() == id
                    &&& table.entries() == data.run()
                    &&& table.image() == encode_run(data.run())
                    &&& table.spec_bloom().width() == if bloom_bits == 0 {
                        1
                    } else {
                        bloom_bits as int
                    }
                    &&& table.spec_bloom().probes() == bloom_probes
                },
                Err(e) => !encodable(data.run()) && e is InvalidOperation,
            },
    {
        match Self::encode(data) {
            Err(e) => Err(e),
            Ok(image) => {
                proof {
                    lemma_parse_of_encoded(data.run());
                    assert(image@.take(image@.len() as int) =~= image@);
                }
                match Self::index_image(id, image, bloom_bits, bloom_probes) {
                    Ok(table) => Ok(table),
                    Err(_) => {
                        proof {
                            assert(false);
                        }
                        Err(VeloError::CorruptedData("sorted run out of key order".to_string()))
                    },
                }
            },
        }
    }

    /// The place in the image from which a lookup of `key` reads: the start
    /// of the last indexed entry whose key is not after `key`, or the front.
    fn seek(&self, key: &[u8]) -> (start: (usize, Ghost<int>))
        requires
            self.wf(),
        ensures
            0 <= start.1@ <= self.entries().len(),
            start.0 == offset_of(self.entries(), start.1@),
            start.0 <= self.image().len(),
            forall|i: int| 0 <= i < start.1@ ==> key_lt(self.entries()[i].0, key@),
            forall|i: int|
                start.1@ + 16 <= i < self.entries().len() ==> key_lt(key@, self.entries()[i].0),
    {
        let ghost run = self.entries();
        proof {
            lemma_encode_of_parsed(self.data@);
            assert(self.data@.take(self.data@.len() as int) =~= self.data@);
        }
        let mut lo: usize = 0;
        let mut hi: usize = self.index.len();
        while lo < hi
            invariant
                lo <= hi <= self.index.len(),
                self.wf(),
                run == self.entries(),
                encodable(run),
                self.data@ == encode_run(run),
                forall|j: int| 0 <= j < lo ==> key_le(stride_key(run, j), key@),
                forall|j: int| hi <= j < self.index.len() ==> key_lt(key@, stride_key(run, j)),
            decreases hi - lo,
        {
            let mid = lo + (hi - lo) / 2;
            assert(self.index@[mid as int].key@ == run[16 * mid].0);
            match compare_keys(self.index[mid].key.as_slice(), key) {
                KeyOrder::After => {
                    proof {
                        assert forall|j: int| mid <= j < self.index.len() implies key_lt(
                            key@,
                            stride_key(run, j),
                        ) by {
                            if j > mid {
                                lemma_key_lt_transitive(key@, run[16 * mid].0, stride_key(run, j));
                            }
                        }
                    }
                    hi = mid;
                },
                _ => {
                    proof {
                        assert forall|j: int| 0 <= j < mid + 1 implies key_le(
                            stride_key(run, j),
                            key@,
                        ) by {
                            if j < mid {
                                lemma_key_lt_le(stride_key(run, j), run[16 * mid].0, key@);
                            }
                        }
                    }
                    lo = mid + 1;
                },
            }
        }
        if lo == 0 {
            proof {
                lemma_entry_at(run, 0);
                assert(run.take(0) =~= Seq::<Record>::empty());
                assert(encode_run(Seq::<Record>::empty()) =~= Seq::<u8>::empty());
                assert forall|i: int| 16 <= i < run.len() implies key_lt(key@, run[i].0) by {
                    assert(key_lt(key@, stride_key(run, 0)));
                    lemma_key_lt_transitive(key@, run[0].0, run[i].0);
                }
            }
            (0, Ghost(0))
        } else {
            let j = lo - 1;
            let ghost from = 16 * j;
            proof {
                assert(self.index@[j as int].offset == offset_of(run, from));
                lemma_entry_at(run, from);
                assert(key_le(stride_key(run, j as int), key@));
                assert forall|i: int| 0 <= i < from implies key_lt(run[i].0, key@) by {
                    lemma_key_lt_le(run[i].0, run[from].0, key@);
                }
                assert forall|i: int| from + 16 <= i < run.len() implies key_lt(
                    key@,
                    run[i].0,
                ) by {
                    assert(key_lt(key@, stride_key(run, j + 1)));
                    if i > from + 16 {
                        lemma_key_lt_transitive(key@, run[from + 16].0, run[i].0);
                    }
                }
            }
            let size = self.data.len();
            let offset = self.index[j].offset;
            assert(offset <= size);
            (offset as usize, Ghost(from))
        }
    }

    /// Looks `key` up: the value stored with it, or `None` if the table does
    /// not hold the key or holds a tombstone for it.
    pub fn get(&self, key: &[u8]) -> (value: Option<Vec<u8>>)
        requires
            self.wf(),
        ensures
            opt_view(value) == lookup_run(self.entries(), key@),
    {
        match self.find(key) {
            Some(v) => {
                if v.len() == 0 {
                    None
                } else {
                    Some(v)
                }
            },
            None => None,
        }
    }

    /// Finds the entry of `key`: the value stored with it, which is empty for
    /// a tombstone, or `None` if the table does not hold the key.
    ///
    /// The filter and the key bounds reject first; then at most
    /// `SCAN_BUDGET` entries are read from the place that the index gives.
    pub fn find(&self, key: &[u8]) -> (value: Option<Vec<u8>>)
        requires
            self.wf(),
        ensures
            opt_view(value) == stored_in(self.entries(), key@),
    {
        let ghost run = self.entries();
        proof {
            lemma_replay_domain(run, key@);
            lemma_encode_of_parsed(self.data@);
            assert(self.data@.take(self.data@.len() as int) =~= self.data@);
        }
        if !self.bloom.might_contain(key) {
            proof {
                if has_key(run, key@) {
                    let i = choose|i: int| 0 <= i < run.len() && run[i].0 == key@;
                    assert(self.spec_bloom().might_contain_spec(run[i].0));
                }
            }
            return None;
        }
        match (&self.min_key, &self.max_key) {
            (Some(min), Some(max)) => {
                match compare_keys(key, min.as_slice()) {
                    KeyOrder::Before => {
                        proof {
                            assert forall|i: int| 0 <= i < run.len() implies key_lt(
                                key@,
                                #[trigger] run[i].0,
                            ) by {
                                if i > 0 {
                                    lemma_key_lt_transitive(key@, run[0].0, run[i].0);
                                }
                            }
                            lemma_absent_when_bracketed(run, key@, 0);
                        }
                        return None;
                    },
                    _ => {},
                }
                match compare_keys(key, max.as_slice()) {
                    KeyOrder::After => {
                        proof {
                            assert forall|i: int| 0 <= i < run.len() implies key_lt(
                                #[trigger] run[i].0,
                                key@,
                            ) by {
                                if i < run.len() - 1 {
                                    lemma_key_lt_transitive(run[i].0, run.last().0, key@);
                                }
                            }
                            lemma_absent_when_bracketed(run, key@, run.len() as int);
                        }
                        return None;
                    },
                    _ => {},
                }
            },
            _ => {},
        }
        let (start, Ghost(from)) = self.seek(key);
        let mut pos: usize = start;
        let ghost mut cur: int = from;
        let mut read: usize = 0;
        proof {
            assert(forall|i: int| from + 16 <= i < run.len() ==> key_lt(key@, run[i].0));
        }
        while read < SCAN_BUDGET
            invariant
                run == self.entries(),
                strictly_sorted(run),
                self.data@ == encode_run(run),
                encodable(run),
                0 <= from,
                forall|i: int| from + 16 <= i < run.len() ==> key_lt(key@, run[i].0),
                read <= SCAN_BUDGET,
                cur == from + read,
                0 <= cur <= run.len(),
                pos == offset_of(run, cur),
                pos <= self.data@.len(),
                forall|i: int| 0 <= i < cur ==> key_lt(run[i].0, key@),
            decreases SCAN_BUDGET - read,
        {
            proof {
                lemma_entry_at(run, cur);
            }
            match read_entry(self.data.as_slice(), pos) {
                None => {
                    proof {
                        assert(cur == run.len());
                        lemma_absent_when_bracketed(run, key@, cur);
                    }
                    return None;
                },
                Some(e) => {
                    proof {
                        if cur == run.len() {
                            assert(self.data@.skip(pos as int).len() == 0);
                        }
                    }
                    let found = slice_subrange(self.data.as_slice(), e.key_start, e.key_end);
                    match compare_keys(found, key) {
                        KeyOrder::Same => {
                            proof {
                                lemma_replay_sorted_at(run, cur);
                            }
                            return Some(
                                copy_range(self.data.as_slice(), e.value_start, e.value_end),
                            );
                        },
                        KeyOrder::After => {
                            proof {
                                lemma_absent_when_bracketed(run, key@, cur);
                            }
                            return None;
                        },
                        KeyOrder::Before => {
                            pos = e.value_end;
                            proof {
                                cur = cur + 1;
                            }
                            read = read + 1;
                        },
                    }
                },
            }
        }
        proof {
            assert(key_lt(run[from + 16].0, key@));
            assert(key_lt(key@, run[from + 16].0));
            lemma_key_lt_asymmetric(key@, run[from + 16].0);
        }
        None
    }

    /// Adds every key of the table, those of tombstones too, to `filter`.
    pub fn add_keys_to(&self, filter: &mut BloomFilter)
        requires
            self.wf(),
            old(filter).wf(),
        ensures
            final(filter).wf(),
            final(filter).width() == old(filter).width(),
            final(filter).probes() == old(filter).probes(),
            forall|i: int|
                0 <= i < self.entries().len() ==> final(filter).might_contain_spec(
                    #[trigger] self.entries()[i].0,
                ),
            forall|other: Seq<u8>|
                old(filter).might_contain_spec(other) ==> final(filter).might_contain_spec(other),
    {
        let ghost run = self.entries();
        let ghost mut done: int = 0;
        let mut pos: usize = 0;
        proof {
            assert(self.data@.skip(0) =~= self.data@);
            assert(run.take(0) + run =~= run);
        }
        loop
            invariant
                pos <= self.data.len(),
                run == self.entries(),
                0 <= done <= run.len(),
                run == run.take(done) + parse_run(self.data@.skip(pos as int)),
                filter.wf(),
                filter.width() == old(filter).width(),
                filter.probes() == old(filter).probes(),
                forall|i: int| 0 <= i < done ==> filter.might_contain_spec(#[trigger] run[i].0),
                forall|other: Seq<u8>|
                    old(filter).might_contain_spec(other) ==> filter.might_contain_spec(other),
            ensures
                done == run.len(),
            decreases self.data.len() - pos,
        {
            let ghost tail = self.data@.skip(pos as int);
            match read_entry(self.data.as_slice(), pos) {
                None => {
                    proof {
                        assert(run.take(done) + Seq::<Record>::empty() =~= run.take(done));
                    }
                    break;
                },
                Some(e) => {
                    let key = slice_subrange(self.data.as_slice(), e.key_start, e.key_end);
                    proof {
                        assert(tail.skip(e.value_end - pos) =~= self.data@.skip(e.value_end as int));
                        assert(run[done].0 == key@);
                        assert(run.take(done + 1) + parse_run(self.data@.skip(e.value_end as int))
                            =~= run.take(done) + parse_run(tail));
                    }
                    filter.add(key);
                    proof {
                        done = done + 1;
                    }
                    pos = e.value_end;
                },
            }
        }
    }

    /// Every entry of the table in key order, tombstones included.
    pub fn records(&self) -> (out: Vec<(Vec<u8>, Vec<u8>)>)
        requires
            self.wf(),
        ensures
            pairs_view(out@) == self.entries(),
    {
        let ghost run = self.entries();
        let mut out: Vec<(Vec<u8>, Vec<u8>)> = Vec::new();
        let mut pos: usize = 0;
        proof {
            assert(self.data@.skip(0) =~= self.data@);
            assert(pairs_view(out@) + run =~= run);
        }
        loop
            invariant
                pos <= self.data.len(),
                run == self.entries(),
                run == pairs_view(out@) + parse_run(self.data@.skip(pos as int)),
            ensures
                run == pairs_view(out@),
            decreases self.data.len() - pos,
        {
            let ghost tail = self.data@.skip(pos as int);
            let ghost before = pairs_view(out@);
            match read_entry(self.data.as_slice(), pos) {
                None => {
                    assert(before + Seq::<Record>::empty() =~= before);
                    break;
                },
                Some(e) => {
                    let k = copy_range(self.data.as_slice(), e.key_start, e.key_end);
                    let v = copy_range(self.data.as_slice(), e.value_start, e.value_end);
                    out.push((k, v));
                    proof {
                        assert(tail.skip(e.value_end - pos) =~= self.data@.skip(
                            e.value_end as int,
                        ));
                        assert(pairs_view(out@) =~= before.push((k@, v@)));
                        assert(before.push((k@, v@)) + parse_run(
                            self.data@.skip(e.value_end as int),
                        ) =~= before + (seq![(k@, v@)] + parse_run(
                            self.data@.skip(e.value_end as int),
                        )));
                    }
                    pos = e.value_end;
                },
            }
        }
        out
    }

    /// The entries that hold a value, in key order.
    pub fn all_entries(&self) -> (out: Vec<(Vec<u8>, Vec<u8>)>)
        requires
            self.wf(),
        ensures
            pairs_view(out@) == live(self.entries()),
    {
        let ghost run = self.entries();
        let all = self.records();
        let mut out: Vec<(Vec<u8>, Vec<u8>)> = Vec::new();
        let mut i: usize = 0;
        proof {
            assert(run.take(0) =~= Seq::<Record>::empty());
            assert(pairs_view(out@) =~= live(run.take(0)));
        }
        while i < all.len()
            invariant
                i <= all.len(),
                pairs_view(all@) == run,
                pairs_view(out@) == live(run.take(i as int)),
            decreases all.len() - i,
        {
            let ghost before = pairs_view(out@);
            proof {
                assert(run.take(i + 1).drop_last() =~= run.take(i as int));
                assert(run.take(i + 1).last() == run[i as int]);
                assert(run[i as int] == (all@[i as int].0@, all@[i as int].1@));
            }
            if all[i].1.len() > 0 {
                let k = copy_bytes(all[i].0.as_slice());
                let v = copy_bytes(all[i].1.as_slice());
                out.push((k, v));
                proof {
                    assert(pairs_view(out@) =~= before.push(run[i as int]));
                }
            }
            i += 1;
        }
        proof {
            assert(run.take(i as int) =~= run);
        }
        out
    }
}

/// Some of the first `n` keys of the run probes bit `pos` of the filter.
pub open spec fn probed_by(filter: BloomFilter, run: Seq<Record>, n: int, pos: int) -> bool {
    0 <= pos < filter.width() && exists|i: int| 0 <= i < n && filter.probed(#[trigger] run[i].0, pos)
}

/// The key of the entry that place `j` of the sparse index stands for.
pub open spec fn stride_key(run: Seq<Record>, j: int) -> Seq<u8> {
    run[16 * j].0
}

/// The sparse index over the first `n` entries of `run`: entry `j` of the
/// index holds the key and the offset of entry `16 * j` of the run.
pub open spec fn indexes(index: Seq<IndexEntry>, run: Seq<Record>, n: int) -> bool {
    &&& index.len() == (n + 15) / 16
    &&& forall|j: int|
        0 <= j < index.len() ==> (#[trigger] index[j]).key@ == run[16 * j].0 && index[j].offset
            == offset_of(run, 16 * j)
}

} // verus!
