//! What holds of the engine across its operations.

use vstd::prelude::*;
use crate::engine::{
    admissible, admitted, flushable, lemma_newest_found, lemma_sorted_run_of, newest, put_all,
    EngineView,
};
use crate::entries::{
    has_key, lemma_replay_domain, read_map, replay, strictly_sorted, visible, Record,
};
use crate::memtable::Memtable;
use crate::sstable::{lookup_run, SSTable};
use crate::wal::{
    encode_log, fits_u32, lemma_cut_log_recovers_prefix, lemma_log_round_trip, loggable, payload,
    recover_spec, Stamped,
};

verus! {

/// The value of the last write to `key` among the writes, where a deletion
/// counts as the write of the empty value; `None` if none is to `key`.
pub open spec fn last_write(ops: Seq<Record>, key: Seq<u8>) -> Option<Seq<u8>>
    decreases ops.len(),
{
    if ops.len() == 0 {
        None
    } else if ops.last().0 == key {
        Some(ops.last().1)
    } else {
        last_write(ops.drop_last(), key)
    }
}

/// Last write wins: after any sequence of writes and deletions, a key reads
/// as its last write says, and as not found if that was a deletion; a key
/// that was not written reads as before.
pub proof fn lemma_last_write_wins(view: EngineView, ops: Seq<Record>, key: Seq<u8>)
    ensures
        put_all(view, ops).lookup(key) == match last_write(ops, key) {
            Some(v) => visible(v),
            None => view.lookup(key),
        },
        put_all(view, ops).tables == view.tables,
    decreases ops.len(),
{
    if ops.len() > 0 {
        lemma_last_write_wins(view, ops.drop_last(), key);
    }
}

/// A flush changes nothing for a reader: every key reads after it as it did
/// before, tombstones included.
pub proof fn lemma_flush_keeps_reads(view: EngineView, key: Seq<u8>)
    requires
        flushable(view),
    ensures
        view.flush().stored(key) == view.stored(key),
        view.flush().lookup(key) == view.lookup(key),
{
    if view.memtable != Map::<Seq<u8>, Seq<u8>>::empty() {
        let run = choose|run: Seq<Record>| strictly_sorted(run) && replay(run) == view.memtable;
        lemma_sorted_run_of(run);
        assert(view.tables.push(run).drop_last() =~= view.tables);
    }
}

/// A flush on an empty memtable does nothing, and a second flush after a
/// flush does nothing.
pub proof fn lemma_flush_idempotent(view: EngineView)
    ensures
        view.memtable == Map::<Seq<u8>, Seq<u8>>::empty() ==> view.flush() == view,
        view.flush().flush() == view.flush(),
{
}

/// A key that neither the memtable nor any sorted run holds reads as not
/// found.
pub proof fn lemma_absent_key_reads_nothing(view: EngineView, key: Seq<u8>)
    requires
        !view.memtable.contains_key(key),
        forall|j: int| 0 <= j < view.tables.len() ==> !has_key(#[trigger] view.tables[j], key),
    ensures
        view.stored(key) is None,
        view.lookup(key) is None,
{
    if newest(view.tables, key) is Some {
        lemma_newest_found(view.tables, key);
        let j = choose|j: int|
            0 <= j < view.tables.len() && replay(view.tables[j]).contains_key(key);
        lemma_replay_domain(view.tables[j], key);
    }
}

/// Every record of the log is one that the engine takes.
pub open spec fn all_admissible(log: Seq<Stamped>) -> bool {
    forall|i: int| 0 <= i < log.len() ==> admissible((#[trigger] log[i]).1, log[i].2)
}

/// The engine takes every record of a sequence whose records are all
/// admissible.
pub proof fn lemma_admitted_all(records: Seq<Record>)
    requires
        forall|i: int| 0 <= i < records.len() ==> admissible((#[trigger] records[i]).0, records[i].1),
    ensures
        admitted(records) == records,
    decreases records.len(),
{
    if records.len() > 0 {
        let front = records.drop_last();
        assert forall|i: int| 0 <= i < front.len() implies admissible(
            (#[trigger] front[i]).0,
            front[i].1,
        ) by {
            assert(front[i] == records[i]);
        }
        lemma_admitted_all(front);
        assert(admissible(records[records.len() - 1].0, records[records.len() - 1].1));
        assert(front.push(records.last()) =~= records);
    } else {
        assert(admitted(records) =~= records);
    }
}

/// Reopening on a log that was written in full restores the memtable: it is
/// the map that the logged writes make, tombstones included.
pub proof fn lemma_reopen_restores_memtable(log: Seq<Stamped>)
    requires
        all_admissible(log),
    ensures
        admitted(recover_spec(encode_log(log))) == payload(log),
        replay(admitted(recover_spec(encode_log(log)))) == replay(payload(log)),
{
    assert(loggable(log)) by {
        assert forall|i: int| 0 <= i < log.len() implies fits_u32(
            #[trigger] log[i].1,
        ) && fits_u32(log[i].2) by {
            assert(admissible(log[i].1, log[i].2));
        }
    }
    lemma_log_round_trip(log);
    assert forall|i: int| 0 <= i < payload(log).len() implies admissible(
        (#[trigger] payload(log)[i]).0,
        payload(log)[i].1,
    ) by {
        assert(admissible(log[i].1, log[i].2));
    }
    lemma_admitted_all(payload(log));
}

/// Reopening after a crash: if writing the log stopped at any byte, the
/// engine takes from it a front part of the logged writes, in their order
/// and unchanged, and its memtable is the map that those writes make.
pub proof fn lemma_crash_reopens_on_a_prefix(log: Seq<Stamped>, cut: int)
    requires
        all_admissible(log),
        0 <= cut <= encode_log(log).len(),
    ensures
        admitted(recover_spec(encode_log(log).take(cut))).is_prefix_of(payload(log)),
        admitted(recover_spec(encode_log(log).take(cut))) == recover_spec(
            encode_log(log).take(cut),
        ),
{
    assert(loggable(log)) by {
        assert forall|i: int| 0 <= i < log.len() implies fits_u32(
            #[trigger] log[i].1,
        ) && fits_u32(log[i].2) by {
            assert(admissible(log[i].1, log[i].2));
        }
    }
    lemma_cut_log_recovers_prefix(log, cut);
    let recovered = recover_spec(encode_log(log).take(cut));
    assert forall|i: int| 0 <= i < recovered.len() implies admissible(
        (#[trigger] recovered[i]).0,
        recovered[i].1,
    ) by {
        assert(recovered[i] == payload(log)[i]);
        assert(admissible(log[i].1, log[i].2));
    }
    lemma_admitted_all(recovered);
}

/// A sorted run built from a memtable answers a point lookup as the
/// memtable's map does: the stored value for a key that the map holds with
/// a value, and not found for a deleted key or a key outside the map.
pub proof fn lemma_table_agrees_with_source(table: SSTable, source: Memtable, key: Seq<u8>)
    requires
        table.entries() == source.run(),
    ensures
        lookup_run(table.entries(), key) == read_map(source@, key),
        !source@.contains_key(key) ==> lookup_run(table.entries(), key) is None,
{
}

} // verus!
