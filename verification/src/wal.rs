//! The write-ahead log: its record format, its sync policy, recovery of the
//! durable prefix and the integrity scan.
//!
//! A record is laid out as
//! `timestamp_u64 · key_len_u32 · key · value_len_u32 · value · checksum_u64`,
//! little-endian and without padding.

use vstd::prelude::*;
use vstd::bytes::{
    spec_u32_to_le_bytes, spec_u64_to_le_bytes, lemma_auto_spec_u32_to_from_le_bytes,
    lemma_auto_spec_u64_to_from_le_bytes,
};
use crate::codec::{append, copy_range, get_u32, get_u64, put_u32, put_u64, u32_at, u64_at};
use crate::entries::{pairs_view, Record};
use crate::error::{VeloError, VeloResult};
use crate::hash::{absorb, absorb_number, finish, fnv_fold, fnv_number, mix, FNV_OFFSET};
use vstd::slice::slice_subrange;

verus! {

/// The number of records after which a batched log is flushed.
pub const DEFAULT_SYNC_THRESHOLD: usize = 1000;

/// The most keys an integrity report names.
pub const MAX_SAMPLE_KEYS: usize = 5;

/// When buffered log data is pushed to the operating system.
#[derive(Debug, Clone, Copy, PartialEq, Eq, Structural)]
pub enum WalSyncMode {
    /// After each record.
    EveryWrite,
    /// After every `DEFAULT_SYNC_THRESHOLD` records.
    Batch,
    /// When so many milliseconds have passed since the last flush, or twice
    /// the batch threshold of records has accumulated.
    Interval(u64),
}

impl Default for WalSyncMode {
    fn default() -> (mode: Self)
        ensures
            mode == WalSyncMode::Batch,
    {
        WalSyncMode::Batch
    }
}

/// The checksum of a record: the hash of the key and the value, each
/// preceded by its length.
pub open spec fn checksum(key: Seq<u8>, value: Seq<u8>) -> u64 {
    mix(
        fnv_fold(
            fnv_number(fnv_fold(fnv_number(FNV_OFFSET, key.len() as u64), key), value.len() as u64),
            value,
        ),
    )
}

/// The bytes of one record.
pub open spec fn encode_record(timestamp: u64, key: Seq<u8>, value: Seq<u8>) -> Seq<u8> {
    spec_u64_to_le_bytes(timestamp) + spec_u32_to_le_bytes(key.len() as u32) + key
        + spec_u32_to_le_bytes(value.len() as u32) + value + spec_u64_to_le_bytes(
        checksum(key, value),
    )
}

/// What stands at the front of a stretch of log.
pub enum Frame {
    /// No byte is left: the log ends here.
    End,
    /// Bytes are left, but not all the fields of a record.
    Torn,
    /// A record with all its fields; `len` is its length in bytes.
    Whole { key: Seq<u8>, value: Seq<u8>, stored: u64, len: int },
}

/// Parses the front of `data` as one record.
pub open spec fn frame(data: Seq<u8>) -> Frame {
    if data.len() == 0 {
        Frame::End
    } else if data.len() < 12 {
        Frame::Torn
    } else {
        let klen = u32_at(data, 8) as int;
        if data.len() < 16 + klen {
            Frame::Torn
        } else {
            let vlen = u32_at(data, 12 + klen) as int;
            if data.len() < 24 + klen + vlen {
                Frame::Torn
            } else {
                Frame::Whole {
                    key: data.subrange(12, 12 + klen),
                    value: data.subrange(16 + klen, 16 + klen + vlen),
                    stored: u64_at(data, 16 + klen + vlen),
                    len: 24 + klen + vlen,
                }
            }
        }
    }
}

/// The records that recovery yields: those read from the front of the log up
/// to the first that is cut short or whose checksum does not match.
pub open spec fn recover_spec(data: Seq<u8>) -> Seq<Record>
    decreases data.len(),
{
    match frame(data) {
        Frame::Whole { key, value, stored, len } => {
            if stored == checksum(key, value) {
                seq![(key, value)] + recover_spec(data.skip(len))
            } else {
                Seq::empty()
            }
        },
        _ => Seq::empty(),
    }
}

/// The length of the part of the log that recovery reads records from.
pub open spec fn sound_len(data: Seq<u8>) -> int
    decreases data.len(),
{
    match frame(data) {
        Frame::Whole { key, value, stored, len } => {
            if stored == checksum(key, value) {
                len + sound_len(data.skip(len))
            } else {
                0
            }
        },
        _ => 0,
    }
}

/// An integrity report as the contracts see it. `keys` holds the key of every
/// record whose checksum does not match, in log order.
pub struct Audit {
    pub total: nat,
    pub corrupted: nat,
    pub truncated: nat,
    pub keys: Seq<Seq<u8>>,
}

/// The integrity scan: every whole record counts, one with a wrong checksum
/// counts as corrupted and the scan goes on behind it; bytes at the tail
/// that are no whole record count as one truncated record and end the scan.
pub open spec fn audit(data: Seq<u8>) -> Audit
    decreases data.len(),
{
    match frame(data) {
        Frame::End => Audit { total: 0, corrupted: 0, truncated: 0, keys: Seq::empty() },
        Frame::Torn => Audit { total: 0, corrupted: 0, truncated: 1, keys: Seq::empty() },
        Frame::Whole { key, value, stored, len } => {
            let rest = audit(data.skip(len));
            if stored == checksum(key, value) {
                Audit { total: rest.total + 1, ..rest }
            } else {
                Audit {
                    total: rest.total + 1,
                    corrupted: rest.corrupted + 1,
                    truncated: rest.truncated,
                    keys: seq![key] + rest.keys,
                }
            }
        },
    }
}

/// The first `MAX_SAMPLE_KEYS` of `keys`, or all of them if they are fewer.
pub open spec fn sample(keys: Seq<Seq<u8>>) -> Seq<Seq<u8>> {
    if keys.len() <= MAX_SAMPLE_KEYS {
        keys
    } else {
        keys.take(MAX_SAMPLE_KEYS as int)
    }
}

/// The byte strings held by a vector of byte vectors.
pub open spec fn keys_view(keys: Seq<Vec<u8>>) -> Seq<Seq<u8>> {
    keys.map_values(|k: Vec<u8>| k@)
}

/// What an integrity scan of a log found.
#[derive(Debug, Clone, PartialEq, Eq)]
pub struct WalIntegrityReport {
    /// Records with all their fields, whether their checksum matches or not.
    pub total_records: usize,
    /// Whole records whose checksum does not match.
    pub corrupted_records: usize,
    /// Records cut short: one if the log ends in bytes that are no whole
    /// record, else none.
    pub truncated_records: usize,
    /// The keys of the first corrupted records, `MAX_SAMPLE_KEYS` at most.
    pub corrupted_keys: Vec<Vec<u8>>,
}

impl WalIntegrityReport {
    /// The report says of `data` what the integrity scan finds there.
    pub open spec fn describes(&self, data: Seq<u8>) -> bool {
        &&& self.total_records == audit(data).total
        &&& self.corrupted_records == audit(data).corrupted
        &&& self.truncated_records == audit(data).truncated
        &&& keys_view(self.corrupted_keys@) == sample(audit(data).keys)
    }
}

impl Default for WalIntegrityReport {
    fn default() -> (report: Self)
        ensures
            report.total_records == 0,
            report.corrupted_records == 0,
            report.truncated_records == 0,
            report.corrupted_keys@.len() == 0,
    {
        WalIntegrityReport {
            total_records: 0,
            corrupted_records: 0,
            truncated_records: 0,
            corrupted_keys: Vec::new(),
        }
    }
}

/// Where the fields of a parsed record lie in the log.
#[derive(Debug, Clone, Copy)]
pub enum FrameAt {
    End,
    Torn,
    Whole { key_start: usize, key_end: usize, value_start: usize, value_end: usize, stored: u64, next: usize },
}

/// Parses the record that starts at `pos`.
pub fn read_frame(data: &[u8], pos: usize) -> (at: FrameAt)
    requires
        pos <= data.len(),
    ensures
        match at {
            FrameAt::End => frame(data@.skip(pos as int)) is End,
            FrameAt::Torn => frame(data@.skip(pos as int)) is Torn,
            FrameAt::Whole { key_start, key_end, value_start, value_end, stored, next } => {
                &&& pos + 12 == key_start <= key_end
                &&& key_end + 4 == value_start <= value_end
                &&& value_end + 8 == next <= data.len()
                &&& frame(data@.skip(pos as int)) == Frame::Whole {
                    key: data@.subrange(key_start as int, key_end as int),
                    value: data@.subrange(value_start as int, value_end as int),
                    stored,
                    len: next - pos,
                }
            },
        },
{
    let ghost tail = data@.skip(pos as int);
    let avail = data.len() - pos;
    if avail == 0 {
        return FrameAt::End;
    }
    if avail < 12 {
        return FrameAt::Torn;
    }
    let klen = get_u32(data, pos + 8) as usize;
    assert(tail.subrange(8, 12) =~= data@.subrange(pos + 8, pos + 12));
    let rest = avail - 12;
    if rest < klen || rest - klen < 4 {
        return FrameAt::Torn;
    }
    let key_start = pos + 12;
    let key_end = key_start + klen;
    let vlen = get_u32(data, key_end) as usize;
    assert(tail.subrange(12 + klen, 16 + klen) =~= data@.subrange(key_end as int, key_end + 4));
    let rest = rest - klen - 4;
    if rest < vlen || rest - vlen < 8 {
        return FrameAt::Torn;
    }
    let value_start = key_end + 4;
    let value_end = value_start + vlen;
    let stored = get_u64(data, value_end);
    assert(tail.subrange(16 + klen + vlen, 24 + klen + vlen) =~= data@.subrange(
        value_end as int,
        value_end + 8,
    ));
    assert(tail.subrange(12, 12 + klen) =~= data@.subrange(key_start as int, key_end as int));
    assert(tail.subrange(16 + klen, 16 + klen + vlen) =~= data@.subrange(
        value_start as int,
        value_end as int,
    ));
    FrameAt::Whole { key_start, key_end, value_start, value_end, stored, next: value_end + 8 }
}

/// Computes the checksum of a record.
pub fn calculate_checksum(key: &[u8], value: &[u8]) -> (sum: u64)
    ensures
        sum == checksum(key@, value@),
{
    let h = absorb_number(FNV_OFFSET, key.len() as u64);
    let h = absorb(h, key);
    let h = absorb_number(h, value.len() as u64);
    let h = absorb(h, value);
    finish(h)
}

/// Reads the durable prefix of a log: the records from its front up to the
/// first that is cut short or fails its checksum.
pub fn recover_records(data: &[u8]) -> (out: (Vec<(Vec<u8>, Vec<u8>)>, usize))
    ensures
        pairs_view(out.0@) == recover_spec(data@),
        out.1 == sound_len(data@),
        out.1 <= data.len(),
{
    let mut operations: Vec<(Vec<u8>, Vec<u8>)> = Vec::new();
    let mut pos: usize = 0;
    proof {
        assert(data@.skip(0) =~= data@);
        assert(pairs_view(operations@) + recover_spec(data@) =~= recover_spec(data@));
    }
    loop
        invariant
            pos <= data.len(),
            recover_spec(data@) == pairs_view(operations@) + recover_spec(data@.skip(pos as int)),
            sound_len(data@) == pos + sound_len(data@.skip(pos as int)),
        ensures
            recover_spec(data@.skip(pos as int)).len() == 0,
            sound_len(data@.skip(pos as int)) == 0,
        decreases data.len() - pos,
    {
        let ghost tail = data@.skip(pos as int);
        match read_frame(data, pos) {
            FrameAt::Whole { key_start, key_end, value_start, value_end, stored, next } => {
                let key = slice_subrange(data, key_start, key_end);
                let value = slice_subrange(data, value_start, value_end);
                if stored != calculate_checksum(key, value) {
                    break;
                }
                let ghost before = pairs_view(operations@);
                let k = copy_range(data, key_start, key_end);
                let v = copy_range(data, value_start, value_end);
                operations.push((k, v));
                proof {
                    assert(tail.skip(next - pos) =~= data@.skip(next as int));
                    assert(pairs_view(operations@) =~= before + seq![(key@, value@)]);
                    assert(before + (seq![(key@, value@)] + recover_spec(data@.skip(next as int)))
                        =~= pairs_view(operations@) + recover_spec(data@.skip(next as int)));
                }
                pos = next;
            },
            _ => {
                break;
            },
        }
    }
    proof {
        assert(pairs_view(operations@) + recover_spec(data@.skip(pos as int)) =~= pairs_view(
            operations@,
        ));
    }
    (operations, pos)
}

/// Scans a log for damage. Unlike recovery the scan goes on behind a record
/// whose checksum does not match; it stops where the log ends or a record is
/// cut short.
pub fn scan_integrity(data: &[u8]) -> (report: WalIntegrityReport)
    ensures
        report.describes(data@),
{
    let mut report = WalIntegrityReport::default();
    let mut pos: usize = 0;
    let ghost mut keys: Seq<Seq<u8>> = Seq::empty();
    proof {
        assert(data@.skip(0) =~= data@);
        assert(keys + audit(data@).keys =~= audit(data@).keys);
        assert(keys_view(report.corrupted_keys@) =~= sample(keys));
    }
    loop
        invariant_except_break
            pos <= data.len(),
            report.total_records * 24 <= pos,
            report.corrupted_records <= report.total_records,
            report.truncated_records == 0,
            keys.len() == report.corrupted_records,
            keys_view(report.corrupted_keys@) == sample(keys),
            audit(data@).total == report.total_records + audit(data@.skip(pos as int)).total,
            audit(data@).corrupted == report.corrupted_records + audit(
                data@.skip(pos as int),
            ).corrupted,
            audit(data@).truncated == audit(data@.skip(pos as int)).truncated,
            audit(data@).keys == keys + audit(data@.skip(pos as int)).keys,
        ensures
            report.total_records == audit(data@).total,
            report.corrupted_records == audit(data@).corrupted,
            report.truncated_records == audit(data@).truncated,
            keys == audit(data@).keys,
            keys_view(report.corrupted_keys@) == sample(keys),
        decreases data.len() - pos,
    {
        let ghost tail = data@.skip(pos as int);
        match read_frame(data, pos) {
            FrameAt::End => {
                proof {
                    assert(keys + Seq::<Seq<u8>>::empty() =~= keys);
                }
                break;
            },
            FrameAt::Torn => {
                report.truncated_records = 1;
                proof {
                    assert(keys + Seq::<Seq<u8>>::empty() =~= keys);
                }
                break;
            },
            FrameAt::Whole { key_start, key_end, value_start, value_end, stored, next } => {
                let key = slice_subrange(data, key_start, key_end);
                let value = slice_subrange(data, value_start, value_end);
                proof {
                    assert(tail.skip(next - pos) =~= data@.skip(next as int));
                }
                report.total_records = report.total_records + 1;
                if stored != calculate_checksum(key, value) {
                    report.corrupted_records = report.corrupted_records + 1;
                    let ghost shown = keys_view(report.corrupted_keys@);
                    if report.corrupted_keys.len() < MAX_SAMPLE_KEYS {
                        let k = copy_range(data, key_start, key_end);
                        report.corrupted_keys.push(k);
                        proof {
                            assert(keys_view(report.corrupted_keys@) =~= shown.push(key@));
                        }
                    }
                    proof {
                        let rest = audit(data@.skip(next as int)).keys;
                        assert(keys + (seq![key@] + rest) =~= keys.push(key@) + rest);
                        assert(sample(keys.push(key@)) =~= keys_view(report.corrupted_keys@));
                        keys = keys.push(key@);
                    }
                }
                pos = next;
            },
        }
    }
    report
}

/// A key or value whose length the record format can hold.
pub open spec fn fits_u32(bytes: Seq<u8>) -> bool {
    bytes.len() <= u32::MAX
}

/// Whether the policy asks for a flush once `entries` records have been
/// written since the last one, `elapsed_ms` milliseconds ago.
pub open spec fn sync_due(mode: WalSyncMode, entries: int, threshold: int, elapsed_ms: u64) -> bool {
    match mode {
        WalSyncMode::EveryWrite => true,
        WalSyncMode::Batch => entries >= threshold,
        WalSyncMode::Interval(ms) => elapsed_ms >= ms || entries >= 2 * threshold,
    }
}

/// A record's bytes, followed by anything, parse as that record.
pub proof fn lemma_frame_of_record(timestamp: u64, key: Seq<u8>, value: Seq<u8>, rest: Seq<u8>)
    requires
        fits_u32(key),
        fits_u32(value),
    ensures
        encode_record(timestamp, key, value).len() == 24 + key.len() + value.len(),
        frame(encode_record(timestamp, key, value) + rest) == (Frame::Whole {
            key,
            value,
            stored: checksum(key, value),
            len: (24 + key.len() + value.len()) as int,
        }),
{
    lemma_auto_spec_u32_to_from_le_bytes();
    lemma_auto_spec_u64_to_from_le_bytes();
    let klen = key.len() as int;
    let vlen = value.len() as int;
    let d = encode_record(timestamp, key, value) + rest;
    assert(d.subrange(8, 12) =~= spec_u32_to_le_bytes(key.len() as u32));
    assert(d.subrange(12, 12 + klen) =~= key);
    assert(d.subrange(12 + klen, 16 + klen) =~= spec_u32_to_le_bytes(value.len() as u32));
    assert(d.subrange(16 + klen, 16 + klen + vlen) =~= value);
    assert(d.subrange(16 + klen + vlen, 24 + klen + vlen) =~= spec_u64_to_le_bytes(
        checksum(key, value),
    ));
}

/// A record that has lost bytes at its end does not parse as a record.
pub proof fn lemma_frame_of_cut_record(timestamp: u64, key: Seq<u8>, value: Seq<u8>, cut: int)
    requires
        fits_u32(key),
        fits_u32(value),
        0 <= cut < 24 + key.len() + value.len(),
    ensures
        !(frame(encode_record(timestamp, key, value).take(cut)) is Whole),
{
    lemma_auto_spec_u32_to_from_le_bytes();
    lemma_auto_spec_u64_to_from_le_bytes();
    let klen = key.len() as int;
    let vlen = value.len() as int;
    let rec = encode_record(timestamp, key, value);
    let p = rec.take(cut);
    if cut >= 12 {
        assert(p.subrange(8, 12) =~= spec_u32_to_le_bytes(key.len() as u32));
        if cut >= 16 + klen {
            assert(p.subrange(12 + klen, 16 + klen) =~= spec_u32_to_le_bytes(value.len() as u32));
        }
    }
}

/// What a whole record at the front parses to does not depend on what follows it.
pub proof fn lemma_frame_extend(data: Seq<u8>, more: Seq<u8>)
    requires
        frame(data) is Whole,
    ensures
        frame(data + more) == frame(data),
{
    let klen = u32_at(data, 8) as int;
    let vlen = u32_at(data, 12 + klen) as int;
    let d = data + more;
    assert(d.subrange(8, 12) =~= data.subrange(8, 12));
    assert(d.subrange(12 + klen, 16 + klen) =~= data.subrange(12 + klen, 16 + klen));
    assert(d.subrange(12, 12 + klen) =~= data.subrange(12, 12 + klen));
    assert(d.subrange(16 + klen, 16 + klen + vlen) =~= data.subrange(16 + klen, 16 + klen + vlen));
    assert(d.subrange(16 + klen + vlen, 24 + klen + vlen) =~= data.subrange(
        16 + klen + vlen,
        24 + klen + vlen,
    ));
}

/// Appending a record to a log that recovery reads to its end adds that
/// record to what recovery yields.
pub proof fn lemma_recover_append(data: Seq<u8>, timestamp: u64, key: Seq<u8>, value: Seq<u8>)
    requires
        sound_len(data) == data.len(),
        fits_u32(key),
        fits_u32(value),
    ensures
        recover_spec(data + encode_record(timestamp, key, value)) == recover_spec(data).push(
            (key, value),
        ),
        sound_len(data + encode_record(timestamp, key, value)) == data.len() + 24 + key.len()
            + value.len(),
    decreases data.len(),
{
    let rec = encode_record(timestamp, key, value);
    if data.len() == 0 {
        lemma_frame_of_record(timestamp, key, value, Seq::empty());
        assert(rec + Seq::<u8>::empty() =~= rec);
        assert(data + rec =~= rec);
        assert(rec.skip(rec.len() as int) =~= Seq::<u8>::empty());
        assert(frame(Seq::<u8>::empty()) is End);
        assert(recover_spec(Seq::<u8>::empty()) =~= Seq::<Record>::empty());
        assert(sound_len(Seq::<u8>::empty()) == 0);
        assert(data =~= Seq::<u8>::empty());
        assert(recover_spec(rec) =~= recover_spec(data).push((key, value)));
    } else {
        match frame(data) {
            Frame::Whole { key: k0, value: v0, stored, len } => {
                lemma_frame_extend(data, rec);
                assert((data + rec).skip(len) =~= data.skip(len) + rec);
                lemma_recover_append(data.skip(len), timestamp, key, value);
                assert(recover_spec(data + rec) =~= recover_spec(data).push((key, value)));
            },
            _ => {},
        }
    }
}

/// A torn record at the end of a log that is otherwise read to its end adds
/// nothing to what recovery yields.
pub proof fn lemma_recover_torn_tail(
    data: Seq<u8>,
    timestamp: u64,
    key: Seq<u8>,
    value: Seq<u8>,
    cut: int,
)
    requires
        sound_len(data) == data.len(),
        fits_u32(key),
        fits_u32(value),
        0 <= cut < 24 + key.len() + value.len(),
    ensures
        recover_spec(data + encode_record(timestamp, key, value).take(cut)) == recover_spec(data),
        sound_len(data + encode_record(timestamp, key, value).take(cut)) == data.len(),
    decreases data.len(),
{
    let part = encode_record(timestamp, key, value).take(cut);
    if data.len() == 0 {
        lemma_frame_of_cut_record(timestamp, key, value, cut);
        assert(data + part =~= part);
    } else {
        match frame(data) {
            Frame::Whole { key: k0, value: v0, stored, len } => {
                lemma_frame_extend(data, part);
                assert((data + part).skip(len) =~= data.skip(len) + part);
                lemma_recover_torn_tail(data.skip(len), timestamp, key, value, cut);
            },
            _ => {},
        }
    }
}

/// Cutting a log down to what recovery reads records from loses no record.
pub proof fn lemma_sound_prefix(data: Seq<u8>)
    ensures
        0 <= sound_len(data) <= data.len(),
        recover_spec(data.take(sound_len(data))) == recover_spec(data),
        sound_len(data.take(sound_len(data))) == sound_len(data),
    decreases data.len(),
{
    match frame(data) {
        Frame::Whole { key, value, stored, len } => {
            if stored == checksum(key, value) {
                let rest = data.skip(len);
                lemma_sound_prefix(rest);
                let n = sound_len(data);
                let kept = data.take(n);
                assert(data =~= data.take(len) + rest);
                assert(kept =~= data.take(len) + rest.take(n - len));
                lemma_frame_split(data, len);
                lemma_frame_extend(data.take(len), rest);
                lemma_frame_extend(data.take(len), rest.take(n - len));
                assert(kept.skip(len) =~= rest.take(n - len));
            } else {
                assert(data.take(0) =~= Seq::<u8>::empty());
            }
        },
        _ => {
            assert(data.take(0) =~= Seq::<u8>::empty());
        },
    }
}

/// A whole record parses the same when everything behind it is dropped.
pub proof fn lemma_frame_split(data: Seq<u8>, len: int)
    requires
        frame(data) is Whole,
        frame(data)->len == len,
    ensures
        frame(data.take(len)) == frame(data),
{
    let klen = u32_at(data, 8) as int;
    let vlen = u32_at(data, 12 + klen) as int;
    let d = data.take(len);
    assert(d.subrange(8, 12) =~= data.subrange(8, 12));
    assert(d.subrange(12 + klen, 16 + klen) =~= data.subrange(12 + klen, 16 + klen));
    assert(d.subrange(12, 12 + klen) =~= data.subrange(12, 12 + klen));
    assert(d.subrange(16 + klen, 16 + klen + vlen) =~= data.subrange(16 + klen, 16 + klen + vlen));
    assert(d.subrange(16 + klen + vlen, 24 + klen + vlen) =~= data.subrange(
        16 + klen + vlen,
        24 + klen + vlen,
    ));
}

/// What a log holds and how far it is flushed, as the contracts see it.
pub struct WalState {
    /// The bytes written since the log was last cleared.
    pub image: Seq<u8>,
    /// How many of them have been pushed to the operating system.
    pub flushed: int,
    /// How many records were written since the last policy flush.
    pub unsynced: int,
}

/// The log after one record is written under the sync policy `mode`. A
/// record too long for the format leaves the log as it is.
pub open spec fn log_step(
    s: WalState,
    mode: WalSyncMode,
    timestamp: u64,
    record: Record,
    elapsed_ms: u64,
) -> WalState {
    if fits_u32(record.0) && fits_u32(record.1) {
        let image = s.image + encode_record(timestamp, record.0, record.1);
        if sync_due(mode, s.unsynced + 1, DEFAULT_SYNC_THRESHOLD as int, elapsed_ms) {
            WalState { image, flushed: image.len() as int, unsynced: 0 }
        } else {
            WalState { image, flushed: s.flushed, unsynced: s.unsynced + 1 }
        }
    } else {
        s
    }
}

/// The log after the records are written in order, all with one timestamp.
pub open spec fn log_batch(
    s: WalState,
    mode: WalSyncMode,
    timestamp: u64,
    records: Seq<Record>,
    elapsed_ms: u64,
) -> WalState
    decreases records.len(),
{
    if records.len() == 0 {
        s
    } else {
        log_step(
            log_batch(s, mode, timestamp, records.drop_last(), elapsed_ms),
            mode,
            timestamp,
            records.last(),
            elapsed_ms,
        )
    }
}

/// A record with the timestamp it was logged at.
pub type Stamped = (u64, Seq<u8>, Seq<u8>);

/// The bytes of a log to which the records were written in order.
pub open spec fn encode_log(log: Seq<Stamped>) -> Seq<u8>
    decreases log.len(),
{
    if log.len() == 0 {
        Seq::empty()
    } else {
        encode_log(log.drop_last()) + encode_record(log.last().0, log.last().1, log.last().2)
    }
}

/// The records of a log without their timestamps.
pub open spec fn payload(log: Seq<Stamped>) -> Seq<Record> {
    log.map_values(|s: Stamped| (s.1, s.2))
}

/// Every key and value of the log has a length that the format can hold.
pub open spec fn loggable(log: Seq<Stamped>) -> bool {
    forall|i: int| 0 <= i < log.len() ==> fits_u32(#[trigger] log[i].1) && fits_u32(log[i].2)
}

/// Round trip: recovery of a log that was written in full yields exactly the
/// records that were written, in order, tombstones included.
pub proof fn lemma_log_round_trip(log: Seq<Stamped>)
    requires
        loggable(log),
    ensures
        recover_spec(encode_log(log)) == payload(log),
        sound_len(encode_log(log)) == encode_log(log).len(),
    decreases log.len(),
{
    if log.len() == 0 {
        assert(frame(Seq::<u8>::empty()) is End);
        assert(recover_spec(encode_log(log)) =~= payload(log));
    } else {
        let front = log.drop_last();
        let last = log.last();
        assert(log[log.len() - 1] == last);
        assert(loggable(front)) by {
            assert forall|i: int| 0 <= i < front.len() implies fits_u32(#[trigger] front[i].1)
                && fits_u32(front[i].2) by {
                assert(front[i] == log[i]);
            }
        }
        lemma_log_round_trip(front);
        lemma_recover_append(encode_log(front), last.0, last.1, last.2);
        lemma_frame_of_record(last.0, last.1, last.2, Seq::empty());
        assert(payload(log) =~= payload(front).push((last.1, last.2)));
    }
}

/// Crash safety: if writing a log stops at any byte, recovery of what was
/// written yields a prefix of the records, in their order and unchanged.
pub proof fn lemma_cut_log_recovers_prefix(log: Seq<Stamped>, cut: int)
    requires
        loggable(log),
        0 <= cut <= encode_log(log).len(),
    ensures
        recover_spec(encode_log(log).take(cut)).is_prefix_of(payload(log)),
    decreases log.len(),
{
    let whole = encode_log(log);
    if log.len() == 0 {
        assert(whole.take(cut) =~= Seq::<u8>::empty());
        assert(frame(Seq::<u8>::empty()) is End);
    } else {
        let front = log.drop_last();
        let last = log.last();
        let head = encode_log(front);
        let rec = encode_record(last.0, last.1, last.2);
        assert(log[log.len() - 1] == last);
        assert(loggable(front)) by {
            assert forall|i: int| 0 <= i < front.len() implies fits_u32(#[trigger] front[i].1)
                && fits_u32(front[i].2) by {
                assert(front[i] == log[i]);
            }
        }
        assert(payload(log) =~= payload(front).push((last.1, last.2)));
        lemma_frame_of_record(last.0, last.1, last.2, Seq::empty());
        lemma_log_round_trip(front);
        if cut <= head.len() {
            assert(whole.take(cut) =~= head.take(cut));
            lemma_cut_log_recovers_prefix(front, cut);
        } else if cut == whole.len() {
            assert(whole.take(cut) =~= whole);
            lemma_log_round_trip(log);
        } else {
            assert(whole.take(cut) =~= head + rec.take(cut - head.len()));
            lemma_recover_torn_tail(head, last.0, last.1, last.2, cut - head.len());
        }
    }
}

/// The write-ahead log of an engine.
///
/// The log holds the bytes written since it was last cleared, and knows how
/// many of them have been pushed to the operating system. The caller keeps
/// the file equal to the flushed part.
#[derive(Debug)]
pub struct WriteAheadLog {
    image: Vec<u8>,
    flushed: usize,
    entries_since_sync: usize,
    sync_threshold: usize,
    sync_mode: WalSyncMode,
}

impl WriteAheadLog {
    /// The bytes of the log.
    pub closed spec fn image(&self) -> Seq<u8> {
        self.image@
    }

    /// How many bytes of the log have been pushed to the operating system.
    pub closed spec fn flushed_len(&self) -> int {
        self.flushed as int
    }

    /// How many records were written since the last policy flush.
    pub closed spec fn unsynced(&self) -> int {
        self.entries_since_sync as int
    }

    pub closed spec fn mode(&self) -> WalSyncMode {
        self.sync_mode
    }

    /// The records that the log holds.
    pub open spec fn records(&self) -> Seq<Record> {
        recover_spec(self.image())
    }

    pub open spec fn state(&self) -> WalState {
        WalState { image: self.image(), flushed: self.flushed_len(), unsynced: self.unsynced() }
    }

    /// Recovery reads the log to its end, and the counters are in range.
    pub closed spec fn wf(&self) -> bool {
        &&& sound_len(self.image@) == self.image@.len()
        &&& self.flushed <= self.image@.len()
        &&& self.sync_threshold == DEFAULT_SYNC_THRESHOLD
        &&& self.entries_since_sync < 2 * DEFAULT_SYNC_THRESHOLD
    }

    /// No more of the log is flushed than it holds.
    pub proof fn lemma_flushed_range(&self)
        requires
            self.wf(),
        ensures
            0 <= self.flushed_len() <= self.image().len(),
    {
    }

    /// Opens a log on the bytes found in its file. A torn or corrupt tail is
    /// discarded: the log keeps the part that recovery reads records from.
    pub fn new(existing: Vec<u8>, sync_mode: WalSyncMode) -> (wal: Self)
        ensures
            wal.wf(),
            wal.image() == existing@.take(sound_len(existing@)),
            wal.records() == recover_spec(existing@),
            wal.flushed_len() == wal.image().len(),
            wal.unsynced() == 0,
            wal.mode() == sync_mode,
    {
        let mut image = existing;
        let (_, sound) = recover_records(image.as_slice());
        proof {
            lemma_sound_prefix(image@);
        }
        image.truncate(sound);
        WriteAheadLog {
            image,
            flushed: sound,
            entries_since_sync: 0,
            sync_threshold: DEFAULT_SYNC_THRESHOLD,
            sync_mode,
        }
    }

    /// Appends one record, stamped with `timestamp`, and applies the sync
    /// policy; `elapsed_ms` is the time since the last flush. Returns whether
    /// the policy flushed the log. A key or value too long for the record
    /// format is refused and leaves the log as it was.
    pub fn log_operation(
        &mut self,
        key: &[u8],
        value: &[u8],
        timestamp: u64,
        elapsed_ms: u64,
    ) -> (result: VeloResult<bool>)
        requires
            old(self).wf(),
        ensures
            final(self).wf(),
            final(self).mode() == old(self).mode(),
            final(self).state() == log_step(
                old(self).state(),
                old(self).mode(),
                timestamp,
                (key@, value@),
                elapsed_ms,
            ),
            match result {
                Ok(synced) => {
                    &&& fits_u32(key@) && fits_u32(value@)
                    &&& final(self).image() == old(self).image() + encode_record(
                        timestamp,
                        key@,
                        value@,
                    )
                    &&& final(self).records() == old(self).records().push((key@, value@))
                    &&& synced == sync_due(
                        old(self).mode(),
                        old(self).unsynced() + 1,
                        DEFAULT_SYNC_THRESHOLD as int,
                        elapsed_ms,
                    )
                    &&& final(self).flushed_len() == if synced {
                        final(self).image().len() as int
                    } else {
                        old(self).flushed_len()
                    }
                    &&& final(self).unsynced() == if synced {
                        0
                    } else {
                        old(self).unsynced() + 1
                    }
                },
                Err(e) => {
                    &&& !(fits_u32(key@) && fits_u32(value@))
                    &&& e is InvalidOperation
                    &&& final(self).image() == old(self).image()
                    &&& final(self).flushed_len() == old(self).flushed_len()
                    &&& final(self).unsynced() == old(self).unsynced()
                },
            },
    {
        if key.len() > u32::MAX as usize || value.len() > u32::MAX as usize {
            return Err(VeloError::InvalidOperation("record too large for the log".to_string()));
        }
        proof {
            lemma_recover_append(self.image@, timestamp, key@, value@);
        }
        let ghost before = self.image@;
        put_u64(&mut self.image, timestamp);
        put_u32(&mut self.image, key.len() as u32);
        append(&mut self.image, key);
        put_u32(&mut self.image, value.len() as u32);
        append(&mut self.image, value);
        let sum = calculate_checksum(key, value);
        put_u64(&mut self.image, sum);
        assert(self.image@ =~= before + encode_record(timestamp, key@, value@));
        self.entries_since_sync = self.entries_since_sync + 1;

        let should_sync = match self.sync_mode {
            WalSyncMode::EveryWrite => true,
            WalSyncMode::Batch => self.entries_since_sync >= self.sync_threshold,
            WalSyncMode::Interval(ms) => elapsed_ms >= ms || self.entries_since_sync
                >= self.sync_threshold * 2,
        };
        if should_sync {
            self.flushed = self.image.len();
            self.entries_since_sync = 0;
        }
        Ok(should_sync)
    }

    /// Pushes everything written so far to the operating system.
    pub fn flush(&mut self)
        requires
            old(self).wf(),
        ensures
            final(self).wf(),
            final(self).image() == old(self).image(),
            final(self).flushed_len() == final(self).image().len(),
            final(self).unsynced() == old(self).unsynced(),
            final(self).mode() == old(self).mode(),
    {
        self.flushed = self.image.len();
    }

    /// Empties the log. The engine calls this once a flush has put the
    /// memtable into a sorted run.
    pub fn clear(&mut self)
        requires
            old(self).wf(),
        ensures
            final(self).wf(),
            final(self).image().len() == 0,
            final(self).records().len() == 0,
            final(self).flushed_len() == 0,
            final(self).unsynced() == 0,
            final(self).mode() == old(self).mode(),
    {
        self.image.clear();
        self.flushed = 0;
        self.entries_since_sync = 0;
        assert(frame(self.image@) is End);
    }

    /// The records of the log, in the order in which they were written.
    pub fn recover(&self) -> (operations: Vec<(Vec<u8>, Vec<u8>)>)
        ensures
            pairs_view(operations@) == self.records(),
    {
        recover_records(self.image.as_slice()).0
    }

    /// Scans the log's file, as read by the caller, for damage.
    pub fn verify_integrity(data: &[u8]) -> (report: WalIntegrityReport)
        ensures
            report.describes(data@),
    {
        scan_integrity(data)
    }

    /// The bytes written since the log was last cleared.
    pub fn bytes(&self) -> (image: &Vec<u8>)
        ensures
            image@ == self.image(),
    {
        &self.image
    }

    /// The number of bytes written since the log was last cleared.
    pub fn buffer_size(&self) -> (len: usize)
        ensures
            len == self.image().len(),
    {
        self.image.len()
    }

    /// The number of bytes, from the front, that have been pushed to the
    /// operating system.
    pub fn flushed(&self) -> (len: usize)
        ensures
            len == self.flushed_len(),
    {
        self.flushed
    }

    pub fn sync_mode(&self) -> (mode: WalSyncMode)
        ensures
            mode == self.mode(),
    {
        self.sync_mode
    }
}

} // verus!
