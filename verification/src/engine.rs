//! The engine: a memtable in front of sorted runs, with a filter and a cache
//! before them and a log behind.
//!
//! A read goes through the tiers in order and the first that knows the key
//! answers: cache, memtable, filter, then the sorted runs from the newest to
//! the oldest. A write goes to the memtable, the filter and the cache at
//! once, and waits in the queue for the log.

use vstd::prelude::*;
use crate::bloom::BloomFilter;
use crate::cache::UltraFastCache;
use crate::codec::copy_bytes;
use crate::entries::{
    lemma_replay_domain, lemma_replay_sorted_at, lemma_sorted_run_unique, pairs_view, replay,
    strictly_sorted, visible, Record,
};
use crate::error::{VeloError, VeloResult};
use crate::memtable::{footprint, Memtable};
use crate::order::key_lt;
use crate::naming::{lemma_name_tells_id, parse_sstable_file_name, sstable_name};
use crate::queue::{
    batch_result, flush_due, running_count, AsyncWriteQueue, BatchOutcome, BATCH_LIMIT,
};
use crate::sstable::{
    encodable, encodable_record, encode_run, opt_view, parse_run, parsed_len, probed_by, SSTable,
    MAX_KEY_LEN,
};
use crate::wal::{recover_spec, sound_len, WalIntegrityReport, WalSyncMode, WriteAheadLog};

verus! {

/// The options of an engine.
#[derive(Debug, Clone, Copy)]
pub struct VelocityConfig {
    /// The number of memtable entries at which a flush is due. The engine
    /// does not flush by itself: see `Velocity::needs_flush`.
    pub max_memtable_size: usize,
    /// The number of slots of the cache.
    pub cache_size: usize,
    /// The bits that a filter spends on a key, in thousandths of a bit. A
    /// caller derives this, and `bloom_probes`, from the false-positive rate
    /// that it aims at.
    pub bloom_millibits_per_key: usize,
    /// The number of probes per key of a filter.
    pub bloom_probes: usize,
    /// The number of sorted runs at which a flush calls for compaction.
    pub compaction_threshold: usize,
    /// Reserved.
    pub enable_compression: bool,
    /// Nothing is appended to the log.
    pub memory_only_mode: bool,
    /// The log is flushed after every batch.
    pub batch_wal_writes: bool,
    /// When the log is pushed to the operating system.
    pub wal_sync_mode: WalSyncMode,
}

/// The options of an engine that is opened without any.
pub open spec fn default_config() -> VelocityConfig {
    VelocityConfig {
        max_memtable_size: 25000,
        cache_size: 25000,
        bloom_millibits_per_key: 14378,
        bloom_probes: 10,
        compaction_threshold: 16,
        enable_compression: false,
        memory_only_mode: false,
        batch_wal_writes: true,
        wal_sync_mode: WalSyncMode::Batch,
    }
}

impl Default for VelocityConfig {
    fn default() -> (config: Self)
        ensures
            config == default_config(),
            config.max_memtable_size == 25000,
            config.cache_size == 25000,
            config.bloom_millibits_per_key == 14378,
            config.bloom_probes == 10,
            config.compaction_threshold == 16,
            !config.enable_compression,
            !config.memory_only_mode,
            config.batch_wal_writes,
            config.wal_sync_mode == WalSyncMode::Batch,
    {
        VelocityConfig {
            max_memtable_size: 25000,
            cache_size: 25000,
            bloom_millibits_per_key: 14378,
            bloom_probes: 10,
            compaction_threshold: 16,
            enable_compression: false,
            memory_only_mode: false,
            batch_wal_writes: true,
            wal_sync_mode: WalSyncMode::Batch,
        }
    }
}

/// The bits of a filter for `items` keys at `millibits_per_key` thousandths
/// of a bit each, rounded up; one at least, `usize::MAX` at most.
pub open spec fn filter_bits(items: int, millibits_per_key: int) -> int {
    let bits = (items * millibits_per_key + 999) / 1000;
    if bits < 1 {
        1
    } else if bits > usize::MAX {
        usize::MAX as int
    } else {
        bits
    }
}

/// Sizes a filter.
pub fn filter_bits_for(items: usize, millibits_per_key: usize) -> (bits: usize)
    ensures
        bits == filter_bits(items as int, millibits_per_key as int),
{
    let a = items as u128;
    let b = millibits_per_key as u128;
    assert(a * b <= 0xffff_ffff_ffff_ffff * 0xffff_ffff_ffff_ffff) by (nonlinear_arith)
        requires
            a <= 0xffff_ffff_ffff_ffff,
            b <= 0xffff_ffff_ffff_ffff,
    ;
    let product = a * b;
    let bits = (product + 999) / 1000;
    if bits < 1 {
        1
    } else if bits > usize::MAX as u128 {
        usize::MAX
    } else {
        bits as usize
    }
}

/// What an engine holds, as the contracts see it.
pub struct EngineView {
    /// The memtable: each key that was written since the last flush, with
    /// its value; a deleted key has the empty value.
    pub memtable: Map<Seq<u8>, Seq<u8>>,
    /// The sorted runs, oldest first.
    pub tables: Seq<Seq<Record>>,
}

/// The value that the newest of the runs that hold `key` stores for it.
pub open spec fn newest(tables: Seq<Seq<Record>>, key: Seq<u8>) -> Option<Seq<u8>>
    decreases tables.len(),
{
    if tables.len() == 0 {
        None
    } else if replay(tables.last()).contains_key(key) {
        Some(replay(tables.last())[key])
    } else {
        newest(tables.drop_last(), key)
    }
}

/// The strictly sorted run that holds exactly the entries of `m`.
pub open spec fn sorted_run_of(m: Map<Seq<u8>, Seq<u8>>) -> Seq<Record> {
    choose|run: Seq<Record>| strictly_sorted(run) && replay(run) == m
}

/// A key and a value that the engine accepts: the key fits an entry of a
/// sorted run, the value fits a record of the log.
pub open spec fn admissible(key: Seq<u8>, value: Seq<u8>) -> bool {
    key.len() <= MAX_KEY_LEN && value.len() <= u32::MAX
}

/// The text of the error with which the write of the pair fails, if it
/// fails: an admissible pair fails on a closed queue only.
pub open spec fn put_error(key: Seq<u8>, value: Seq<u8>) -> Seq<char> {
    if admissible(key, value) {
        "queue closed"@
    } else {
        "key or value too large"@
    }
}

impl EngineView {
    /// The newest record of `key` in any tier: its value, which is empty if
    /// the newest record is a tombstone.
    pub open spec fn stored(self, key: Seq<u8>) -> Option<Seq<u8>> {
        if self.memtable.contains_key(key) {
            Some(self.memtable[key])
        } else {
            newest(self.tables, key)
        }
    }

    /// What a reader sees of `key`: the value of its newest record, unless
    /// there is none or it is a tombstone.
    pub open spec fn lookup(self, key: Seq<u8>) -> Option<Seq<u8>> {
        match self.stored(key) {
            Some(v) => visible(v),
            None => None,
        }
    }

    /// The engine after `value` is written for `key`.
    pub open spec fn put(self, key: Seq<u8>, value: Seq<u8>) -> EngineView {
        EngineView { memtable: self.memtable.insert(key, value), ..self }
    }

    /// The engine after `key` is deleted.
    pub open spec fn delete(self, key: Seq<u8>) -> EngineView {
        self.put(key, Seq::empty())
    }

    /// The engine after a flush: the memtable has become the newest run. An
    /// empty memtable leaves the engine as it is.
    pub open spec fn flush(self) -> EngineView {
        if self.memtable == Map::<Seq<u8>, Seq<u8>>::empty() {
            self
        } else {
            EngineView {
                memtable: Map::empty(),
                tables: self.tables.push(sorted_run_of(self.memtable)),
            }
        }
    }
}

/// The memtable can be written as a sorted run.
pub open spec fn flushable(view: EngineView) -> bool {
    exists|run: Seq<Record>| strictly_sorted(run) && replay(run) == view.memtable
}

/// The map holds the key of every one of the writes.
pub open spec fn held_by(m: Map<Seq<u8>, Seq<u8>>, writes: Seq<Record>) -> bool {
    forall|i: int| 0 <= i < writes.len() ==> m.contains_key((#[trigger] writes[i]).0)
}

/// Every entry of the map can be written as an entry of a sorted run.
pub open spec fn map_encodable(m: Map<Seq<u8>, Seq<u8>>) -> bool {
    forall|k: Seq<u8>| m.contains_key(k) ==> admissible(k, #[trigger] m[k])
}

/// A sorted run of a map whose entries can all be flushed can be written
/// as entries.
pub proof fn lemma_map_encodable_run(run: Seq<Record>)
    requires
        strictly_sorted(run),
        map_encodable(replay(run)),
    ensures
        encodable(run),
{
    assert forall|i: int| 0 <= i < run.len() implies encodable_record(#[trigger] run[i]) by {
        lemma_replay_sorted_at(run, i);
    }
}

/// A strictly sorted run is the sorted run of the map that it makes.
pub proof fn lemma_sorted_run_of(run: Seq<Record>)
    requires
        strictly_sorted(run),
    ensures
        sorted_run_of(replay(run)) == run,
{
    let other = sorted_run_of(replay(run));
    assert(strictly_sorted(run) && replay(run) == replay(run));
    lemma_sorted_run_unique(other, run);
}

/// Runs that do not hold `key` do not count for it.
pub proof fn lemma_newest_skips(tables: Seq<Seq<Record>>, key: Seq<u8>, n: int)
    requires
        0 <= n <= tables.len(),
        forall|j: int| n <= j < tables.len() ==> !replay(#[trigger] tables[j]).contains_key(key),
    ensures
        newest(tables, key) == newest(tables.take(n), key),
    decreases tables.len() - n,
{
    if n == tables.len() {
        assert(tables.take(n) =~= tables);
    } else {
        assert(!replay(tables[tables.len() - 1]).contains_key(key));
        let front = tables.drop_last();
        lemma_newest_skips(front, key, n);
        assert(front.take(n) =~= tables.take(n));
    }
}

/// The filter knows every key of the run.
pub open spec fn covers(filter: BloomFilter, run: Seq<Record>) -> bool {
    forall|i: int| 0 <= i < run.len() ==> filter.might_contain_spec(#[trigger] run[i].0)
}

/// A key that the runs store a value for is held by one of them.
pub proof fn lemma_newest_found(tables: Seq<Seq<Record>>, key: Seq<u8>)
    requires
        newest(tables, key) is Some,
    ensures
        exists|j: int| 0 <= j < tables.len() && replay(tables[j]).contains_key(key),
    decreases tables.len(),
{
    if replay(tables.last()).contains_key(key) {
        assert(replay(tables[tables.len() - 1]).contains_key(key));
    } else {
        lemma_newest_found(tables.drop_last(), key);
        let j = choose|j: int|
            0 <= j < tables.drop_last().len() && replay(tables.drop_last()[j]).contains_key(key);
        assert(replay(tables[j]).contains_key(key));
    }
}

/// The runs held by a vector of tables.
pub open spec fn tables_view(tables: Seq<SSTable>) -> Seq<Seq<Record>> {
    tables.map_values(|t: SSTable| t.entries())
}

/// Counters of an engine.
#[derive(Debug, Clone, Copy, PartialEq, Eq, Structural)]
pub struct VelocityStats {
    pub memtable_entries: usize,
    pub sstable_count: usize,
    pub cache_entries: usize,
    pub total_sstable_size: u64,
    pub total_records: usize,
    pub total_size_bytes: u64,
}

#[derive(Debug)]
pub struct Velocity {
    memtable: Memtable,
    sstables: Vec<SSTable>,
    cache: UltraFastCache,
    filter: BloomFilter,
    wal: WriteAheadLog,
    write_queue: AsyncWriteQueue,
    config: VelocityConfig,
    next_sstable_id: u64,
}

impl View for Velocity {
    type V = EngineView;

    closed spec fn view(&self) -> EngineView {
        EngineView { memtable: self.memtable@, tables: tables_view(self.sstables@) }
    }
}

impl Velocity {
    /// The log of the engine.
    pub closed spec fn log(&self) -> WriteAheadLog {
        self.wal
    }

    /// The queue of the engine.
    pub closed spec fn queue(&self) -> AsyncWriteQueue {
        self.write_queue
    }

    /// The cached values by key.
    pub closed spec fn cached(&self) -> Map<Seq<u8>, Seq<u8>> {
        self.cache@
    }

    /// The memtable's filter.
    pub closed spec fn spec_filter(&self) -> BloomFilter {
        self.filter
    }

    /// The sorted runs, oldest first.
    pub closed spec fn spec_sstables(&self) -> Seq<SSTable> {
        self.sstables@
    }

    /// The id that the next sorted run gets.
    pub closed spec fn next_id(&self) -> u64 {
        self.next_sstable_id
    }

    pub closed spec fn spec_config(&self) -> VelocityConfig {
        self.config
    }

    /// The ids of the runs increase strictly and stay below the next id.
    pub open spec fn ids_increase(tables: Seq<SSTable>, next: u64) -> bool {
        &&& forall|i: int, j: int|
            0 <= i < j < tables.len() ==> tables[i].spec_id() < tables[j].spec_id()
        &&& forall|i: int| 0 <= i < tables.len() ==> (#[trigger] tables[i]).spec_id() < next
    }

    /// The parts of the engine fit together: every part is sound in itself,
    /// every entry of the memtable can be flushed, the run ids increase, a
    /// cached value is the newest stored one, and the filter knows every key
    /// that any tier holds.
    pub closed spec fn wf(&self) -> bool {
        &&& self.memtable.wf()
        &&& map_encodable(self.memtable@)
        &&& forall|i: int| 0 <= i < self.sstables@.len() ==> (#[trigger] self.sstables@[i]).wf()
        &&& Self::ids_increase(self.sstables@, self.next_sstable_id)
        &&& self.cache.wf()
        &&& self.cache.limit() == self.config.cache_size
        &&& forall|k: Seq<u8>| #[trigger]
            self.cache@.contains_key(k) ==> self@.stored(k) == Some(self.cache@[k])
        &&& self.filter.wf()
        &&& forall|k: Seq<u8>|
            self.memtable@.contains_key(k) ==> #[trigger] self.filter.might_contain_spec(k)
        &&& forall|j: int|
            0 <= j < self.sstables@.len() ==> covers(
                self.filter,
                (#[trigger] self.sstables@[j]).entries(),
            )
        &&& self.wal.wf()
        &&& self.write_queue.wf()
        &&& held_by(self.memtable@, self.write_queue.waiting())
        &&& self.memtable@ == Map::<Seq<u8>, Seq<u8>>::empty() ==> self.wal.image().len() == 0
    }

    /// The memtable of an engine can be written as a sorted run.
    pub proof fn lemma_flushable(&self)
        requires
            self.wf(),
        ensures
            flushable(self@),
    {
        let run = self.memtable.run();
        assert(strictly_sorted(run) && replay(run) == self@.memtable);
    }

    /// The memtable holds the key of every write that waits for the log, so
    /// that a flush takes every waiting write into its run.
    pub proof fn lemma_waiting_writes_are_held(&self)
        requires
            self.wf(),
        ensures
            held_by(self@.memtable, self.queue().waiting()),
            self.memtable_is_empty() ==> self.queue().waiting().len() == 0,
    {
        if self.queue().waiting().len() > 0 {
            assert(self@.memtable.contains_key(self.queue().waiting()[0].0));
        }
    }

    /// The log of an engine with an empty memtable is empty: what the log
    /// holds, the memtable holds until a flush empties both.
    pub proof fn lemma_log_of_empty_memtable(&self)
        requires
            self.wf(),
            self.memtable_is_empty(),
        ensures
            self.log().image().len() == 0,
            self.log().flushed_len() == 0,
    {
        self.wal.lemma_flushed_range();
    }

    /// The filter of an engine is sound in itself, and it knows every key of
    /// the memtable.
    pub proof fn lemma_filter(&self)
        requires
            self.wf(),
        ensures
            self.spec_filter().wf(),
            forall|k: Seq<u8>|
                self@.memtable.contains_key(k) ==> #[trigger] self.spec_filter().might_contain_spec(
                    k,
                ),
    {
    }

    /// The memtable's run is the sorted run of its map, with as many entries
    /// as the map has keys.
    proof fn lemma_run(&self)
        requires
            self.wf(),
        ensures
            self.memtable.run() == sorted_run_of(self@.memtable),
            self@.memtable.dom().finite(),
            self.memtable.run().len() == self.memtable_len(),
            self.memtable.run().len() == 0 <==> self.memtable_is_empty(),
            footprint(self.memtable.run()) == self.memtable_bytes(),
    {
        let run = self.memtable.run();
        lemma_sorted_run_of(run);
        self.memtable.lemma_len();
        if run.len() == 0 {
            assert(self@.memtable =~= Map::<Seq<u8>, Seq<u8>>::empty());
        } else {
            lemma_replay_sorted_at(run, 0);
        }
    }

    /// The runs that the contracts see are those of the engine's tables, each
    /// of which is sound in itself; their ids increase strictly and stay
    /// below the id that the next run gets.
    pub proof fn lemma_tables(&self)
        requires
            self.wf(),
        ensures
            self@.tables == tables_view(self.spec_sstables()),
            forall|i: int|
                0 <= i < self.spec_sstables().len() ==> (#[trigger] self.spec_sstables()[i]).wf(),
            Self::ids_increase(self.spec_sstables(), self.next_id()),
    {
    }

    /// A cached value is the newest stored one.
    pub proof fn lemma_cache_coherent(&self, key: Seq<u8>)
        requires
            self.wf(),
            self.cached().contains_key(key),
        ensures
            self@.stored(key) == Some(self.cached()[key]),
    {
    }

    /// A key that the filter does not know is in no tier.
    pub proof fn lemma_filter_sound(&self, key: Seq<u8>)
        requires
            self.wf(),
            !self.spec_filter().might_contain_spec(key),
        ensures
            self@.stored(key) is None,
            self@.lookup(key) is None,
    {
        if newest(self@.tables, key) is Some {
            lemma_newest_found(self@.tables, key);
            let j = choose|j: int|
                0 <= j < self@.tables.len() && replay(self@.tables[j]).contains_key(key);
            let run = self.sstables@[j].entries();
            assert(covers(self.filter, run));
            lemma_replay_domain(run, key);
            let i = choose|i: int| 0 <= i < run.len() && run[i].0 == key;
            assert(self.filter.might_contain_spec(run[i].0));
        }
    }

    /// An engine on nothing: no runs, an empty memtable and an empty log.
    pub fn new(config: VelocityConfig) -> (engine: Self)
        ensures
            engine.wf(),
            engine@.memtable == Map::<Seq<u8>, Seq<u8>>::empty(),
            engine@.tables.len() == 0,
            engine.log().image().len() == 0,
            engine.log().flushed_len() == 0,
            engine.log().unsynced() == 0,
            engine.log().mode() == config.wal_sync_mode,
            engine.queue().waiting().len() == 0,
            engine.queue().count() == 0,
            !engine.queue().is_closed(),
            engine.next_id() == 1,
            engine.spec_config() == config,
            engine.cached() == Map::<Seq<u8>, Seq<u8>>::empty(),
            engine.spec_sstables().len() == 0,
            engine.spec_filter().is_blank(),
            engine.spec_filter().probes() == config.bloom_probes,
    {
        let items = if config.max_memtable_size <= usize::MAX / 10 {
            config.max_memtable_size * 10
        } else {
            usize::MAX
        };
        let bits = filter_bits_for(items, config.bloom_millibits_per_key);
        let engine = Velocity {
            memtable: Memtable::new(),
            sstables: Vec::new(),
            cache: UltraFastCache::new(config.cache_size),
            filter: BloomFilter::with_geometry(bits, config.bloom_probes),
            wal: WriteAheadLog::new(Vec::new(), config.wal_sync_mode),
            write_queue: AsyncWriteQueue::new(),
            config,
            next_sstable_id: 1,
        };
        proof {
            assert(engine@.tables =~= Seq::<Seq<Record>>::empty());
            assert(Seq::<u8>::empty().take(0) =~= Seq::<u8>::empty());
        }
        engine
    }

    /// Writes `value` for `key`. An empty value deletes the key.
    ///
    /// The write goes to the filter, the memtable and the cache, and then
    /// waits in the queue for the log. It fails if the key or the value is
    /// too long, and then changes nothing; and it fails with "queue closed"
    /// if the queue is closed, and then the write is in the memtable all the
    /// same.
    pub fn put(&mut self, key: Vec<u8>, value: Vec<u8>) -> (result: VeloResult<()>)
        requires
            old(self).wf(),
        ensures
            final(self).wf(),
            final(self)@ == if admissible(key@, value@) {
                old(self)@.put(key@, value@)
            } else {
                old(self)@
            },
            result is Ok <==> admissible(key@, value@) && !old(self).queue().is_closed(),
            result is Err ==> result->Err_0 is InvalidOperation && result->Err_0.spec_detail()@
                == put_error(key@, value@),
            final(self).queue().is_closed() == old(self).queue().is_closed(),
            final(self).queue().count() == if admissible(key@, value@) && old(self).queue().count()
                < usize::MAX {
                old(self).queue().count() + 1
            } else {
                old(self).queue().count()
            },
            final(self).queue().waiting() == if result is Ok {
                old(self).queue().waiting().push((key@, value@))
            } else {
                old(self).queue().waiting()
            },
            final(self).log() == old(self).log(),
            final(self).next_id() == old(self).next_id(),
            final(self).spec_sstables() == old(self).spec_sstables(),
            final(self).spec_config() == old(self).spec_config(),
            admissible(key@, value@) && old(self).spec_config().cache_size > 0 ==> final(
                self).cached().contains_key(key@) && final(self).cached()[key@] == value@,
            !admissible(key@, value@) ==> final(self).cached() == old(self).cached(),
            final(self).spec_filter().wf(),
            final(self).spec_filter().width() == old(self).spec_filter().width(),
            final(self).spec_filter().probes() == old(self).spec_filter().probes(),
            forall|pos: int|
                final(self).spec_filter().bit(pos) == (old(self).spec_filter().bit(pos) || (
                admissible(key@, value@) && 0 <= pos < old(self).spec_filter().width() && old(
                    self,
                ).spec_filter().probed(key@, pos))),
            admissible(key@, value@) ==> final(self).spec_filter().might_contain_spec(key@),
            forall|other: Seq<u8>|
                old(self).spec_filter().might_contain_spec(other) ==> final(
                    self).spec_filter().might_contain_spec(other),
    {
        if key.len() > MAX_KEY_LEN || value.len() > u32::MAX as usize {
            return Err(VeloError::InvalidOperation("key or value too large".to_string()));
        }
        let ghost before = self@;
        self.filter.add(key.as_slice());
        self.memtable.insert(copy_bytes(key.as_slice()), copy_bytes(value.as_slice()));
        self.cache.put(copy_bytes(key.as_slice()), copy_bytes(value.as_slice()));
        proof {
            assert(self@ == before.put(key@, value@));
            assert(self@.memtable.contains_key(key@));
            assert(!Map::<Seq<u8>, Seq<u8>>::empty().contains_key(key@));
            assert forall|k: Seq<u8>| self@.stored(k) == (if k == key@ {
                Some(value@)
            } else {
                before.stored(k)
            }) by {}
        }
        match self.write_queue.send(key, value) {
            Ok(()) => Ok(()),
            Err(_) => Err(VeloError::InvalidOperation("queue closed".to_string())),
        }
    }

    /// Writes each pair in order, as `put` does, and stops at the first write
    /// that fails.
    pub fn put_batch(&mut self, operations: Vec<(Vec<u8>, Vec<u8>)>) -> (result: VeloResult<()>)
        requires
            old(self).wf(),
        ensures
            final(self).wf(),
            final(self)@ == put_all(
                old(self)@,
                pairs_view(operations@).take(
                    reached(pairs_view(operations@), old(self).queue().is_closed()),
                ),
            ),
            result is Ok <==> all_written(
                pairs_view(operations@),
                old(self).queue().is_closed(),
            ),
            result is Err ==> {
                let failed = pairs_view(operations@)[queued(
                    pairs_view(operations@),
                    old(self).queue().is_closed(),
                )];
                &&& result->Err_0 is InvalidOperation
                &&& result->Err_0.spec_detail()@ == put_error(failed.0, failed.1)
            },
            final(self).queue().is_closed() == old(self).queue().is_closed(),
            final(self).queue().waiting() == old(self).queue().waiting() + pairs_view(
                operations@,
            ).take(queued(pairs_view(operations@), old(self).queue().is_closed())),
            final(self).queue().count() == at_most(
                (old(self).queue().count() + reached(
                    pairs_view(operations@),
                    old(self).queue().is_closed(),
                )) as nat,
                usize::MAX as nat,
            ),
            final(self).log() == old(self).log(),
            final(self).next_id() == old(self).next_id(),
            final(self).spec_sstables() == old(self).spec_sstables(),
            final(self).spec_config() == old(self).spec_config(),
            reached(pairs_view(operations@), old(self).queue().is_closed()) == 0 ==> final(
                self).cached() == old(self).cached(),
            reached(pairs_view(operations@), old(self).queue().is_closed()) > 0 && old(
                self,
            ).spec_config().cache_size > 0 ==> {
                let last = pairs_view(operations@)[reached(
                    pairs_view(operations@),
                    old(self).queue().is_closed(),
                ) - 1];
                final(self).cached().contains_key(last.0) && final(self).cached()[last.0] == last.1
            },
            final(self).spec_filter().wf(),
            final(self).spec_filter().width() == old(self).spec_filter().width(),
            final(self).spec_filter().probes() == old(self).spec_filter().probes(),
            forall|pos: int|
                final(self).spec_filter().bit(pos) == (old(self).spec_filter().bit(pos)
                    || probed_by(
                    old(self).spec_filter(),
                    pairs_view(operations@),
                    reached(pairs_view(operations@), old(self).queue().is_closed()),
                    pos,
                )),
            forall|j: int|
                0 <= j < reached(pairs_view(operations@), old(self).queue().is_closed()) ==> final(
                    self).spec_filter().might_contain_spec((#[trigger] pairs_view(operations@)[j]).0),
            forall|other: Seq<u8>|
                old(self).spec_filter().might_contain_spec(other) ==> final(
                    self).spec_filter().might_contain_spec(other),
    {
        let ghost ops = pairs_view(operations@);
        let ghost closed = self.write_queue.is_closed();
        let ghost first = self.spec_filter();
        let mut i: usize = 0;
        proof {
            assert(ops.take(0) =~= Seq::<Record>::empty());
            assert(self.queue().waiting() + ops.take(0) =~= self.queue().waiting());
            self.lemma_filter();
            self.queue().lemma_count_range();
        }
        while i < operations.len()
            invariant
                i <= operations.len(),
                ops == pairs_view(operations@),
                first == old(self).spec_filter(),
                self.wf(),
                self.queue().is_closed() == closed,
                closed == old(self).queue().is_closed(),
                self.log() == old(self).log(),
                self.next_id() == old(self).next_id(),
                self.spec_sstables() == old(self).spec_sstables(),
                self.spec_config() == old(self).spec_config(),
                self@ == put_all(old(self)@, ops.take(i as int)),
                forall|j: int| 0 <= j < i ==> succeeds(#[trigger] ops[j], closed),
                self.queue().waiting() == old(self).queue().waiting() + ops.take(i as int),
                0 <= old(self).queue().count() <= usize::MAX,
                self.queue().count() == at_most(
                    (old(self).queue().count() + i) as nat,
                    usize::MAX as nat,
                ),
                i == 0 ==> self.cached() == old(self).cached(),
                i > 0 && self.spec_config().cache_size > 0 ==> self.cached().contains_key(
                    ops[i - 1].0,
                ) && self.cached()[ops[i - 1].0] == ops[i - 1].1,
                self.spec_filter().wf(),
                self.spec_filter().width() == first.width(),
                self.spec_filter().probes() == first.probes(),
                forall|pos: int|
                    self.spec_filter().bit(pos) == (first.bit(pos) || probed_by(
                        first,
                        ops,
                        i as int,
                        pos,
                    )),
                forall|j: int|
                    0 <= j < i ==> self.spec_filter().might_contain_spec((#[trigger] ops[j]).0),
                forall|other: Seq<u8>|
                    first.might_contain_spec(other) ==> self.spec_filter().might_contain_spec(
                        other,
                    ),
            decreases operations.len() - i,
        {
            let key = copy_bytes(operations[i].0.as_slice());
            let value = copy_bytes(operations[i].1.as_slice());
            let ghost before = self.spec_filter();
            let ghost waiting = self.queue().waiting();
            proof {
                assert(ops.take(i + 1).drop_last() =~= ops.take(i as int));
                assert(ops.take(i + 1).last() == ops[i as int]);
                assert(ops[i as int] == (key@, value@));
            }
            let outcome = self.put(key, value);
            proof {
                lemma_filter_grows(
                    first,
                    before,
                    self.spec_filter(),
                    ops,
                    i as int,
                    admissible(key@, value@),
                );
                self.queue().lemma_count_range();
                if outcome is Ok {
                    assert(waiting.push((key@, value@)) =~= old(self).queue().waiting()
                        + ops.take(i + 1));
                }
                if outcome is Err {
                    lemma_reached_at(ops, closed, i as int);
                    if closed {
                        assert(i == 0) by {
                            if i > 0 {
                                assert(succeeds(ops[0], closed));
                            }
                        }
                    }
                }
            }
            match outcome {
                Ok(()) => {
                    assert(succeeds(ops[i as int], closed));
                },
                Err(e) => {
                    return Err(e);
                },
            }
            i += 1;
        }
        proof {
            lemma_reached_all(ops, closed);
            assert(ops.take(i as int) =~= ops);
        }
        Ok(())
    }

    /// Deletes `key`: writes a tombstone for it, as `put` writes a value, to
    /// the filter, the memtable, the cache and the queue.
    pub fn delete(&mut self, key: Vec<u8>) -> (result: VeloResult<()>)
        requires
            old(self).wf(),
        ensures
            final(self).wf(),
            final(self)@ == if key@.len() <= MAX_KEY_LEN {
                old(self)@.delete(key@)
            } else {
                old(self)@
            },
            result is Ok <==> key@.len() <= MAX_KEY_LEN && !old(self).queue().is_closed(),
            result is Err ==> result->Err_0 is InvalidOperation && result->Err_0.spec_detail()@
                == put_error(key@, Seq::empty()),
            final(self).queue().is_closed() == old(self).queue().is_closed(),
            final(self).queue().count() == if key@.len() <= MAX_KEY_LEN && old(self).queue().count()
                < usize::MAX {
                old(self).queue().count() + 1
            } else {
                old(self).queue().count()
            },
            final(self).queue().waiting() == if result is Ok {
                old(self).queue().waiting().push((key@, Seq::empty()))
            } else {
                old(self).queue().waiting()
            },
            final(self).log() == old(self).log(),
            final(self).next_id() == old(self).next_id(),
            final(self).spec_sstables() == old(self).spec_sstables(),
            final(self).spec_config() == old(self).spec_config(),
            key@.len() <= MAX_KEY_LEN && old(self).spec_config().cache_size > 0 ==> final(
                self).cached().contains_key(key@) && final(self).cached()[key@] == Seq::<u8>::empty(),
            key@.len() > MAX_KEY_LEN ==> final(self).cached() == old(self).cached(),
            final(self).spec_filter().wf(),
            final(self).spec_filter().width() == old(self).spec_filter().width(),
            final(self).spec_filter().probes() == old(self).spec_filter().probes(),
            forall|pos: int|
                final(self).spec_filter().bit(pos) == (old(self).spec_filter().bit(pos) || (key@.len()
                    <= MAX_KEY_LEN && 0 <= pos < old(self).spec_filter().width() && old(
                    self,
                ).spec_filter().probed(key@, pos))),
            key@.len() <= MAX_KEY_LEN ==> final(self).spec_filter().might_contain_spec(key@),
            forall|other: Seq<u8>|
                old(self).spec_filter().might_contain_spec(other) ==> final(
                    self).spec_filter().might_contain_spec(other),
    {
        self.put(key, Vec::new())
    }

    /// Reads `key`: the value of its newest record, or `None` if the key was
    /// never written or its newest record is a tombstone.
    ///
    /// The tiers are asked in order: the cache, the memtable, the filter,
    /// which ends the search if it does not know the key, and the sorted
    /// runs from the newest to the oldest. A value found below the cache is
    /// cached.
    pub fn get(&mut self, key: &[u8]) -> (result: VeloResult<Option<Vec<u8>>>)
        requires
            old(self).wf(),
        ensures
            final(self).wf(),
            final(self)@ == old(self)@,
            result is Ok,
            opt_view(result->Ok_0) == old(self)@.lookup(key@),
            result->Ok_0 is Some && old(self).spec_config().cache_size > 0 ==> final(self).cached().contains_key(key@) && final(self).cached()[key@] == result->Ok_0->Some_0@,
            result->Ok_0 is None ==> final(self).cached() == old(self).cached(),
            final(self).spec_filter() == old(self).spec_filter(),
            final(self).queue() == old(self).queue(),
            final(self).log() == old(self).log(),
            final(self).next_id() == old(self).next_id(),
            final(self).spec_sstables() == old(self).spec_sstables(),
            final(self).spec_config() == old(self).spec_config(),
    {
        match self.cache.get(key) {
            Some(value) => {
                if value.len() == 0 {
                    return Ok(None);
                }
                return Ok(Some(value));
            },
            None => {},
        }
        match self.memtable.get(key) {
            Some(value) => {
                if value.len() == 0 {
                    return Ok(None);
                }
                let found = copy_bytes(value.as_slice());
                self.cache.put(copy_bytes(key), copy_bytes(value.as_slice()));
                return Ok(Some(found));
            },
            None => {},
        }
        if !self.filter.might_contain(key) {
            proof {
                self.lemma_filter_sound(key@);
            }
            return Ok(None);
        }
        let ghost tables = self@.tables;
        let mut i: usize = self.sstables.len();
        while i > 0
            invariant
                i <= self.sstables.len(),
                self.wf(),
                self@ == old(self)@,
                tables == self@.tables,
                !self@.memtable.contains_key(key@),
                forall|j: int| i <= j < tables.len() ==> !replay(#[trigger] tables[j]).contains_key(
                    key@,
                ),
                self.cached() == old(self).cached(),
                self.spec_filter() == old(self).spec_filter(),
                self.queue() == old(self).queue(),
                self.log() == old(self).log(),
                self.next_id() == old(self).next_id(),
                self.spec_sstables() == old(self).spec_sstables(),
                self.spec_config() == old(self).spec_config(),
            decreases i,
        {
            i -= 1;
            assert(self.sstables@[i as int].wf());
            assert(tables[i as int] == self.sstables@[i as int].entries());
            match self.sstables[i].find(key) {
                Some(value) => {
                    proof {
                        lemma_newest_skips(tables, key@, i + 1);
                        assert(tables.take(i + 1).last() == tables[i as int]);
                    }
                    if value.len() == 0 {
                        return Ok(None);
                    }
                    self.cache.put(copy_bytes(key), copy_bytes(value.as_slice()));
                    return Ok(Some(value));
                },
                None => {},
            }
        }
        proof {
            lemma_newest_skips(tables, key@, 0);
            assert(tables.take(0) =~= Seq::<Seq<Record>>::empty());
        }
        Ok(None)
    }
}

/// The sum of the sizes of the tables' files.
pub open spec fn sum_sizes(tables: Seq<SSTable>) -> nat
    decreases tables.len(),
{
    if tables.len() == 0 {
        0
    } else {
        sum_sizes(tables.drop_last()) + tables.last().spec_size() as nat
    }
}

/// The sum of the entry counts of the tables.
pub open spec fn sum_counts(tables: Seq<SSTable>) -> nat
    decreases tables.len(),
{
    if tables.len() == 0 {
        0
    } else {
        sum_counts(tables.drop_last()) + tables.last().spec_entry_count() as nat
    }
}

/// `n`, or `max` if `n` is more.
pub open spec fn at_most(n: nat, max: nat) -> nat {
    if n <= max {
        n
    } else {
        max
    }
}

impl Velocity {
    /// The memtable is empty.
    pub open spec fn memtable_is_empty(&self) -> bool {
        self@.memtable == Map::<Seq<u8>, Seq<u8>>::empty()
    }

    /// A flush succeeds: there is nothing to flush, or an id is left for the
    /// new run.
    pub open spec fn can_flush(&self) -> bool {
        self.memtable_is_empty() || self.next_id() < u64::MAX
    }

    /// The memtable's map is finite, and it is empty exactly if it has no
    /// entry.
    pub proof fn lemma_memtable_is_empty(&self)
        requires
            self.wf(),
        ensures
            self@.memtable.dom().finite(),
            self.memtable_is_empty() <==> self.memtable_len() == 0,
    {
        self.lemma_run();
    }

    /// Flushes the memtable: writes it as a new sorted run, the newest, then
    /// empties the memtable and clears the log. The writes that still wait
    /// for the log are dropped with it: the run holds them. With an empty
    /// memtable this does nothing, and the log is empty as it is. Fails, and
    /// changes nothing, if no id is left for the run.
    pub fn flush(&mut self) -> (result: VeloResult<()>)
        requires
            old(self).wf(),
        ensures
            final(self).wf(),
            result is Ok <==> old(self).can_flush(),
            result is Err ==> result->Err_0 is InvalidOperation && final(self)@ == old(self)@
                && final(self).log() == old(self).log() && final(self).next_id() == old(
                self,
            ).next_id(),
            result is Ok ==> {
                &&& final(self)@ == old(self)@.flush()
                &&& final(self).memtable_is_empty()
                &&& final(self).memtable_len() == 0
                &&& final(self).memtable_bytes() == 0
                &&& final(self).log().image().len() == 0
                &&& final(self).log().flushed_len() == 0
                &&& final(self).queue().waiting().len() == 0
                &&& forall|k: Seq<u8>| final(self)@.stored(k) == old(self)@.stored(k)
            },
            result is Err || old(self).memtable_is_empty() ==> {
                &&& final(self).spec_sstables() == old(self).spec_sstables()
                &&& final(self).queue() == old(self).queue()
                &&& final(self).memtable_len() == old(self).memtable_len()
                &&& final(self).memtable_bytes() == old(self).memtable_bytes()
            },
            result is Ok && old(self).memtable_is_empty() ==> final(self).log() == old(self).log()
                && final(self).next_id() == old(self).next_id(),
            result is Ok && !old(self).memtable_is_empty() ==> {
                &&& final(self).log().image().len() == 0
                &&& final(self).log().flushed_len() == 0
                &&& final(self).next_id() == old(self).next_id() + 1
                &&& final(self).spec_sstables().drop_last() == old(self).spec_sstables()
                &&& final(self).spec_sstables().len() == old(self).spec_sstables().len() + 1
                &&& final(self).spec_sstables().last().spec_id() == old(self).next_id()
                &&& final(self).spec_sstables().last().image() == encode_run(
                    sorted_run_of(old(self)@.memtable),
                )
                &&& final(self).spec_sstables().last().spec_bloom().width() == filter_bits(
                    old(self).memtable_len() as int,
                    old(self).spec_config().bloom_millibits_per_key as int,
                )
                &&& final(self).spec_sstables().last().spec_bloom().probes() == old(
                    self,
                ).spec_config().bloom_probes
                &&& final(self).queue().count() == 0
            },
            final(self).queue().is_closed() == old(self).queue().is_closed(),
            final(self).cached() == old(self).cached(),
            final(self).spec_filter() == old(self).spec_filter(),
            final(self).spec_config() == old(self).spec_config(),
    {
        proof {
            self.lemma_run();
            self.lemma_waiting_writes_are_held();
            self.wal.lemma_flushed_range();
            assert(footprint(Seq::<Record>::empty()) == 0);
        }
        if self.memtable.is_empty() {
            return Ok(());
        }
        if self.next_sstable_id == u64::MAX {
            return Err(VeloError::InvalidOperation("no id left for a sorted run".to_string()));
        }
        let ghost before = self@;
        let ghost run = self.memtable.run();
        let ghost old_tables = self.sstables@;
        proof {
            lemma_map_encodable_run(run);
            lemma_sorted_run_of(run);
        }
        let bits = filter_bits_for(self.memtable.len(), self.config.bloom_millibits_per_key);
        let table = match SSTable::create(
            self.next_sstable_id,
            &self.memtable,
            bits,
            self.config.bloom_probes,
        ) {
            Ok(table) => table,
            Err(e) => {
                return Err(e);
            },
        };
        self.next_sstable_id = self.next_sstable_id + 1;
        self.sstables.push(table);
        self.memtable.clear();
        self.wal.clear();
        self.write_queue.discard();
        proof {
            lemma_sorted_run_of(Seq::<Record>::empty());
            assert(replay(Seq::<Record>::empty()) =~= Map::<Seq<u8>, Seq<u8>>::empty());
            assert(self@.tables =~= before.tables.push(run));
            assert(self@ == before.flush());
            assert(before.tables.push(run).drop_last() =~= before.tables);
            assert forall|k: Seq<u8>| self@.stored(k) == before.stored(k) by {}
            assert forall|i: int| 0 <= i < self.sstables@.len() implies (
            #[trigger] self.sstables@[i]).wf() && covers(self.filter, self.sstables@[i].entries()) by {
                if i < old_tables.len() {
                    assert(self.sstables@[i] == old_tables[i]);
                } else {
                    assert forall|h: int| 0 <= h < run.len() implies self.filter.might_contain_spec(
                        #[trigger] run[h].0,
                    ) by {
                        lemma_replay_sorted_at(run, h);
                    }
                }
            }
        }
        if self.sstables.len() >= self.config.compaction_threshold {
            return self.compact();
        }
        Ok(())
    }

    /// The compaction hook. It merges nothing yet.
    fn compact(&mut self) -> (result: VeloResult<()>)
        ensures
            result is Ok,
            *final(self) == *old(self),
    {
        Ok(())
    }

    /// Closes the engine: flushes the memtable and empties the cache. Fails,
    /// and changes nothing, if the flush fails. An engine that was closed
    /// closes again without effect.
    pub fn close(&mut self) -> (result: VeloResult<()>)
        requires
            old(self).wf(),
        ensures
            final(self).wf(),
            result is Ok <==> old(self).can_flush(),
            result is Err ==> result->Err_0 is InvalidOperation && final(self)@ == old(self)@
                && final(self).cached() == old(self).cached(),
            result is Ok ==> {
                &&& final(self)@ == old(self)@.flush()
                &&& final(self).memtable_is_empty()
                &&& final(self).can_flush()
                &&& final(self).memtable_len() == 0
                &&& final(self).memtable_bytes() == 0
                &&& final(self).log().image().len() == 0
                &&& final(self).log().flushed_len() == 0
                &&& final(self).queue().waiting().len() == 0
                &&& final(self).cached() == Map::<Seq<u8>, Seq<u8>>::empty()
                &&& forall|k: Seq<u8>| final(self)@.stored(k) == old(self)@.stored(k)
            },
            result is Ok && !old(self).memtable_is_empty() ==> {
                &&& final(self).log().image().len() == 0
                &&& final(self).next_id() == old(self).next_id() + 1
                &&& final(self).spec_sstables().drop_last() == old(self).spec_sstables()
                &&& final(self).spec_sstables().last().spec_id() == old(self).next_id()
                &&& final(self).spec_sstables().last().image() == encode_run(
                    sorted_run_of(old(self)@.memtable),
                )
                &&& final(self).queue().count() == 0
            },
            result is Err || old(self).memtable_is_empty() ==> {
                &&& final(self).log() == old(self).log()
                &&& final(self).next_id() == old(self).next_id()
                &&& final(self).spec_sstables() == old(self).spec_sstables()
                &&& final(self).queue() == old(self).queue()
                &&& final(self).memtable_len() == old(self).memtable_len()
                &&& final(self).memtable_bytes() == old(self).memtable_bytes()
            },
            final(self).queue().is_closed() == old(self).queue().is_closed(),
            final(self).spec_filter() == old(self).spec_filter(),
            final(self).spec_config() == old(self).spec_config(),
    {
        match self.flush() {
            Ok(()) => {},
            Err(e) => {
                return Err(e);
            },
        }
        self.cache.clear();
        Ok(())
    }

    /// Whether the memtable has reached the size at which a flush is due.
    pub fn needs_flush(&self) -> (due: bool)
        requires
            self.wf(),
        ensures
            due == (self.memtable_len() >= self.spec_config().max_memtable_size),
    {
        proof {
            self.lemma_run();
        }
        self.memtable.len() >= self.config.max_memtable_size
    }

    /// The number of entries of the memtable, tombstones included: the number
    /// of keys of its map.
    pub open spec fn memtable_len(&self) -> nat {
        self@.memtable.len()
    }

    /// One turn of the log worker: takes a batch of waiting writes and
    /// appends it to the log, as `AsyncWriteQueue::drain_batch` says.
    pub fn process_writes(&mut self, timestamp: u64, elapsed_ms: u64) -> (outcome:
        BatchOutcome)
        requires
            old(self).wf(),
        ensures
            final(self).wf(),
            final(self)@ == old(self)@,
            final(self).cached() == old(self).cached(),
            final(self).spec_filter() == old(self).spec_filter(),
            final(self).next_id() == old(self).next_id(),
            final(self).spec_sstables() == old(self).spec_sstables(),
            final(self).spec_config() == old(self).spec_config(),
            final(self).log().mode() == old(self).log().mode(),
            final(self).queue().is_closed() == old(self).queue().is_closed(),
            outcome.taken == at_most(
                old(self).queue().waiting().len(),
                BATCH_LIMIT as nat,
            ),
            final(self).queue().waiting() == old(self).queue().waiting().skip(
                outcome.taken as int,
            ),
            outcome.taken == 0 ==> !outcome.flushed && final(self).log().state() == old(
                self,
            ).log().state(),
            outcome.taken > 0 ==> {
                &&& outcome.flushed == flush_due(
                    running_count(old(self).queue().count(), outcome.taken as int),
                )
                &&& final(self).log().state() == batch_result(
                    old(self).log().state(),
                    old(self).log().mode(),
                    old(self).queue().waiting().take(outcome.taken as int),
                    old(self).spec_config().memory_only_mode,
                    old(self).spec_config().batch_wal_writes || outcome.flushed,
                    timestamp,
                    elapsed_ms,
                )
            },
    {
        self.write_queue.drain_batch(
            &mut self.wal,
            self.config.memory_only_mode,
            self.config.batch_wal_writes,
            timestamp,
            elapsed_ms,
        )
    }

    /// Marks the log worker as terminated: writes fail from now on.
    pub fn close_queue(&mut self)
        requires
            old(self).wf(),
        ensures
            final(self).wf(),
            final(self)@ == old(self)@,
            final(self).queue().is_closed(),
            final(self).queue().waiting() == old(self).queue().waiting(),
            final(self).log() == old(self).log(),
            final(self).cached() == old(self).cached(),
            final(self).spec_filter() == old(self).spec_filter(),
            final(self).next_id() == old(self).next_id(),
            final(self).spec_sstables() == old(self).spec_sstables(),
            final(self).spec_config() == old(self).spec_config(),
    {
        self.write_queue.close();
    }

    /// Pushes the whole log to the operating system, as the worker does
    /// before it exits.
    pub fn sync_log(&mut self)
        requires
            old(self).wf(),
        ensures
            final(self).wf(),
            final(self)@ == old(self)@,
            final(self).log().image() == old(self).log().image(),
            final(self).log().flushed_len() == final(self).log().image().len(),
            final(self).log().mode() == old(self).log().mode(),
            final(self).queue() == old(self).queue(),
            final(self).cached() == old(self).cached(),
            final(self).spec_filter() == old(self).spec_filter(),
            final(self).next_id() == old(self).next_id(),
            final(self).spec_sstables() == old(self).spec_sstables(),
            final(self).spec_config() == old(self).spec_config(),
    {
        self.wal.flush();
    }

    /// Scans the log's file, as read by the caller, for damage.
    pub fn wal_integrity_report(&self, wal_file: &[u8]) -> (result: VeloResult<
        WalIntegrityReport,
    >)
        ensures
            result is Ok,
            result->Ok_0.describes(wal_file@),
    {
        Ok(WriteAheadLog::verify_integrity(wal_file))
    }

    /// The counters of the engine. A sum that does not fit its type is
    /// given as the largest value of the type.
    pub fn stats(&self) -> (stats: VelocityStats)
        requires
            self.wf(),
        ensures
            stats.memtable_entries == self.memtable_len(),
            stats.sstable_count == self.spec_sstables().len(),
            stats.cache_entries == self.cached().len(),
            stats.total_sstable_size == at_most(sum_sizes(self.spec_sstables()), u64::MAX as nat),
            stats.total_records == at_most(
                self.memtable_len() + sum_counts(self.spec_sstables()),
                usize::MAX as nat,
            ),
            stats.total_size_bytes == at_most(
                sum_sizes(self.spec_sstables()) + self.memtable_bytes(),
                u64::MAX as nat,
            ),
    {
        let ghost tables = self.sstables@;
        let mut sstable_records: usize = 0;
        let mut sstable_size: u64 = 0;
        let mut i: usize = 0;
        assert(tables.take(0) =~= Seq::<SSTable>::empty());
        while i < self.sstables.len()
            invariant
                i <= self.sstables.len(),
                tables == self.sstables@,
                sstable_records == at_most(sum_counts(tables.take(i as int)), usize::MAX as nat),
                sstable_size == at_most(sum_sizes(tables.take(i as int)), u64::MAX as nat),
            decreases self.sstables.len() - i,
        {
            proof {
                assert(tables.take(i + 1).drop_last() =~= tables.take(i as int));
                assert(tables.take(i + 1).last() == tables[i as int]);
            }
            sstable_records = sstable_records.saturating_add(self.sstables[i].entry_count());
            sstable_size = sstable_size.saturating_add(self.sstables[i].size());
            i += 1;
        }
        assert(tables.take(i as int) =~= tables);
        let memtable_size = self.memtable.size_bytes();
        proof {
            self.cache.lemma_len();
            self.lemma_run();
        }
        VelocityStats {
            memtable_entries: self.memtable.len(),
            sstable_count: self.sstables.len(),
            cache_entries: self.cache.len(),
            total_sstable_size: sstable_size,
            total_records: self.memtable.len().saturating_add(sstable_records),
            total_size_bytes: sstable_size.saturating_add(memtable_size),
        }
    }

    /// The bytes that the memtable accounts for: those of its entries in key
    /// order.
    pub open spec fn memtable_bytes(&self) -> nat {
        footprint(sorted_run_of(self@.memtable))
    }

    /// The memtable.
    pub fn memtable(&self) -> (memtable: &Memtable)
        requires
            self.wf(),
        ensures
            memtable.wf(),
            memtable@ == self@.memtable,
            memtable.run() == sorted_run_of(self@.memtable),
            memtable.run().len() == self.memtable_len(),
            footprint(memtable.run()) == self.memtable_bytes(),
    {
        proof {
            self.lemma_run();
        }
        &self.memtable
    }

    /// The sorted runs, oldest first.
    pub fn sstables(&self) -> (tables: &Vec<SSTable>)
        ensures
            tables@ == self.spec_sstables(),
    {
        &self.sstables
    }

    /// The log.
    pub fn wal(&self) -> (wal: &WriteAheadLog)
        ensures
            *wal == self.log(),
    {
        &self.wal
    }

    pub fn config(&self) -> (config: &VelocityConfig)
        ensures
            *config == self.spec_config(),
    {
        &self.config
    }

    /// The number of writes that wait for the log.
    pub fn pending_writes(&self) -> (n: usize)
        ensures
            n == self.queue().waiting().len(),
    {
        self.write_queue.len()
    }
}

/// A file of the data directory, as read by the caller.
#[derive(Debug)]
pub struct StoredFile {
    /// The file's name, without the directory.
    pub name: Vec<u8>,
    /// The file's content.
    pub bytes: Vec<u8>,
}

/// File `i` has the name of the sorted run with the given id.
pub open spec fn names_run(files: Seq<StoredFile>, i: int, id: u64) -> bool {
    0 <= i < files.len() && files[i].name@ == sstable_name(id)
}

/// File `i` is the first with the name of the sorted run with the given id.
pub open spec fn first_named(files: Seq<StoredFile>, i: int, id: u64) -> bool {
    &&& names_run(files, i, id)
    &&& forall|h: int| 0 <= h < i ==> !#[trigger] names_run(files, h, id)
}

/// A file that would be loaded holds keys out of order, or has the largest
/// id there is, which leaves none for the next run.
pub open spec fn damaged(files: Seq<StoredFile>) -> bool {
    exists|i: int, id: u64| #[trigger]
        first_named(files, i, id) && (id == u64::MAX || !strictly_sorted(
            parse_run(files[i].bytes@),
        ))
}

/// The tables are those of the files: one for each id that a file name
/// gives, built from the first file of that name.
pub open spec fn loaded_from(tables: Seq<SSTable>, files: Seq<StoredFile>) -> bool {
    &&& forall|j: int| 0 <= j < tables.len() ==> built_from(#[trigger] tables[j], files)
    &&& forall|i: int, id: u64| #[trigger] names_run(files, i, id) ==> has_table(tables, id)
}

/// The table was built from the first file that has its name: it holds the
/// part of the file that entries are read from.
pub open spec fn built_from(table: SSTable, files: Seq<StoredFile>) -> bool {
    exists|i: int| #[trigger]
        first_named(files, i, table.spec_id()) && table.image() == files[i].bytes@.take(
            parsed_len(files[i].bytes@),
        )
}

/// One of the tables has the given id.
pub open spec fn has_table(tables: Seq<SSTable>, id: u64) -> bool {
    exists|j: int| 0 <= j < tables.len() && (#[trigger] tables[j]).spec_id() == id
}

/// The records that an engine takes from a log: those with an admissible
/// key and value.
pub open spec fn admitted(records: Seq<Record>) -> Seq<Record>
    decreases records.len(),
{
    if records.len() == 0 {
        Seq::empty()
    } else if admissible(records.last().0, records.last().1) {
        admitted(records.drop_last()).push(records.last())
    } else {
        admitted(records.drop_last())
    }
}

/// The part of a log's file that an engine opened on it goes on with: the
/// part that records are read from, or nothing if the engine takes none of
/// its records.
pub open spec fn kept_log(wal: Seq<u8>) -> Seq<u8> {
    if admitted(recover_spec(wal)).len() == 0 {
        Seq::empty()
    } else {
        wal.take(sound_len(wal))
    }
}

/// The records of the log that an engine opened on a file goes on with.
pub open spec fn kept_records(wal: Seq<u8>) -> Seq<Record> {
    if admitted(recover_spec(wal)).len() == 0 {
        Seq::empty()
    } else {
        recover_spec(wal)
    }
}

impl Velocity {
    /// Replays a log into the memtable and the filter, record by record and
    /// tombstones included. A record whose key is too long for a sorted run
    /// is passed over.
    fn recover_from_wal(&mut self, wal: &WriteAheadLog)
        requires
            old(self).wf(),
            old(self).cached() == Map::<Seq<u8>, Seq<u8>>::empty(),
        ensures
            final(self).wf(),
            final(self)@ == put_all(old(self)@, admitted(wal.records())),
            final(self).spec_filter().wf(),
            final(self).spec_filter().width() == old(self).spec_filter().width(),
            final(self).spec_filter().probes() == old(self).spec_filter().probes(),
            final(self).cached() == old(self).cached(),
            final(self).log() == old(self).log(),
            final(self).queue() == old(self).queue(),
            final(self).spec_sstables() == old(self).spec_sstables(),
            final(self).next_id() == old(self).next_id(),
            final(self).spec_config() == old(self).spec_config(),
    {
        let operations = wal.recover();
        let ghost records = wal.records();
        proof {
            self.lemma_filter();
        }
        let mut i: usize = 0;
        proof {
            assert(records.take(0) =~= Seq::<Record>::empty());
        }
        while i < operations.len()
            invariant
                i <= operations.len(),
                records == pairs_view(operations@),
                self.wf(),
                self@ == put_all(old(self)@, admitted(records.take(i as int))),
                self.cached() == Map::<Seq<u8>, Seq<u8>>::empty(),
                self.cached() == old(self).cached(),
                self.spec_filter().wf(),
                self.spec_filter().width() == old(self).spec_filter().width(),
                self.spec_filter().probes() == old(self).spec_filter().probes(),
                self.log() == old(self).log(),
                self.queue() == old(self).queue(),
                self.spec_sstables() == old(self).spec_sstables(),
                self.next_id() == old(self).next_id(),
                self.spec_config() == old(self).spec_config(),
            decreases operations.len() - i,
        {
            let key = &operations[i].0;
            let value = &operations[i].1;
            proof {
                assert(records.take(i + 1).drop_last() =~= records.take(i as int));
                assert(records.take(i + 1).last() == (key@, value@));
            }
            if key.len() <= MAX_KEY_LEN && value.len() <= u32::MAX as usize {
                let ghost before = self@;
                self.filter.add(key.as_slice());
                self.memtable.insert(copy_bytes(key.as_slice()), copy_bytes(value.as_slice()));
                proof {
                    assert(self@ == before.put(key@, value@));
                    assert(self@.memtable.contains_key(key@));
                    assert(!Map::<Seq<u8>, Seq<u8>>::empty().contains_key(key@));
                    let sofar = admitted(records.take(i as int));
                    assert(sofar.push((key@, value@)).drop_last() =~= sofar);
                    assert(sofar.push((key@, value@)).last() == (key@, value@));
                }
            }
            i += 1;
        }
        proof {
            assert(records.take(i as int) =~= records);
        }
    }

    /// Builds the table with the given id from the bytes of its file.
    pub fn load_sstable(id: u64, bytes: &[u8], bloom_bits: usize, bloom_probes: usize) -> (result:
        VeloResult<SSTable>)
        ensures
            match result {
                Ok(table) => {
                    &&& strictly_sorted(parse_run(bytes@))
                    &&& table.wf()
                    &&& table.spec_id() == id
                    &&& table.entries() == parse_run(bytes@)
                    &&& table.image() == bytes@.take(parsed_len(bytes@))
                    &&& table.spec_bloom().width() == if bloom_bits == 0 {
                        1
                    } else {
                        bloom_bits as int
                    }
                    &&& table.spec_bloom().probes() == bloom_probes
                },
                Err(e) => !strictly_sorted(parse_run(bytes@)) && e is CorruptedData,
            },
    {
        SSTable::load(id, bytes, bloom_bits, bloom_probes)
    }

    /// Loads the sorted runs among the files, in the order of their ids, and
    /// sets the next id to one more than the largest. The filter learns the
    /// keys of every run.
    fn load_sstables(&mut self, files: &Vec<StoredFile>) -> (result: VeloResult<()>)
        requires
            old(self).wf(),
            old(self).cached() == Map::<Seq<u8>, Seq<u8>>::empty(),
            old(self).spec_sstables().len() == 0,
        ensures
            final(self).wf(),
            result is Ok <==> !damaged(files@),
            result is Err ==> result->Err_0 is CorruptedData,
            result is Ok ==> {
                &&& loaded_from(final(self).spec_sstables(), files@)
                &&& final(self).next_id() == if final(self).spec_sstables().len() == 0 {
                    1
                } else {
                    (final(self).spec_sstables().last().spec_id() + 1) as u64
                }
            },
            final(self)@.memtable == old(self)@.memtable,
            final(self).cached() == old(self).cached(),
            final(self).log() == old(self).log(),
            final(self).queue() == old(self).queue(),
            final(self).spec_config() == old(self).spec_config(),
    {
        let mut ids: Vec<Option<u64>> = Vec::new();
        let mut k: usize = 0;
        while k < files.len()
            invariant
                k <= files.len(),
                ids@.len() == k,
                forall|i: int|
                    0 <= i < k ==> match #[trigger] ids@[i] {
                        Some(id) => names_run(files@, i, id),
                        None => forall|id: u64| !names_run(files@, i, id),
                    },
            decreases files.len() - k,
        {
            ids.push(parse_sstable_file_name(files[k].name.as_slice()));
            k += 1;
        }
        let mut last: Option<u64> = None;
        self.next_sstable_id = 1;
        loop
            invariant
                ids@.len() == files@.len(),
                forall|i: int|
                    0 <= i < ids@.len() ==> match #[trigger] ids@[i] {
                        Some(id) => names_run(files@, i, id),
                        None => forall|id: u64| !names_run(files@, i, id),
                    },
                self.wf(),
                self.cached() == Map::<Seq<u8>, Seq<u8>>::empty(),
                self.cached() == old(self).cached(),
                self.spec_sstables().len() == 0 <==> last is None,
                last is Some ==> last->Some_0 < u64::MAX && self.spec_sstables().last().spec_id()
                    == last->Some_0,
                self.next_id() == if last is Some {
                    (last->Some_0 + 1) as u64
                } else {
                    1
                },
                forall|j: int|
                    0 <= j < self.spec_sstables().len() ==> built_from(
                        #[trigger] self.spec_sstables()[j],
                        files@,
                    ),
                forall|i: int, id: u64| #[trigger]
                    names_run(files@, i, id) && last is Some && id <= last->Some_0 ==> has_table(
                        self.spec_sstables(),
                        id,
                    ),
                forall|i: int, id: u64| #[trigger]
                    first_named(files@, i, id) && last is Some && id <= last->Some_0 ==> id
                        != u64::MAX && strictly_sorted(
                        parse_run(files@[i].bytes@),
                    ),
                self@.memtable == old(self)@.memtable,
                self.log() == old(self).log(),
                self.queue() == old(self).queue(),
                self.spec_config() == old(self).spec_config(),
            ensures
                forall|i: int, id: u64| #[trigger]
                    names_run(files@, i, id) ==> last is Some && id <= last->Some_0,
            decreases
                    (if last is Some {
                        u64::MAX - last->Some_0
                    } else {
                        u64::MAX + 1
                    }),
        {
            let mut best: Option<usize> = None;
            let mut best_id: u64 = 0;
            let mut i: usize = 0;
            while i < ids.len()
                invariant
                    i <= ids.len(),
                    ids@.len() == files@.len(),
                    forall|h: int|
                        0 <= h < ids@.len() ==> match #[trigger] ids@[h] {
                            Some(id) => names_run(files@, h, id),
                            None => forall|id: u64| !names_run(files@, h, id),
                        },
                    best is Some ==> {
                        &&& best->Some_0 < i
                        &&& ids@[best->Some_0 as int] == Some(best_id)
                        &&& (last is Some ==> best_id > last->Some_0)
                        &&& forall|h: int|
                            0 <= h < best->Some_0 ==> #[trigger] ids@[h] != Some(best_id)
                    },
                    forall|h: int|
                        0 <= h < i && (#[trigger] ids@[h]) is Some && (last is Some
                            ==> ids@[h]->Some_0 > last->Some_0) ==> best is Some && best_id
                            <= ids@[h]->Some_0,
                decreases ids.len() - i,
            {
                match ids[i] {
                    Some(id) => {
                        let above = match last {
                            Some(l) => id > l,
                            None => true,
                        };
                        let better = match best {
                            Some(_) => id < best_id,
                            None => true,
                        };
                        if above && better {
                            best = Some(i);
                            best_id = id;
                        }
                    },
                    None => {},
                }
                i += 1;
            }
            let at = match best {
                None => {
                    proof {
                        assert forall|i: int, id: u64| #[trigger]
                            names_run(files@, i, id) implies last is Some && id
                            <= last->Some_0 by {
                            assert(ids@[i] is Some);
                            if ids@[i]->Some_0 != id {
                                lemma_name_tells_id(ids@[i]->Some_0, id);
                            }
                        }
                    }
                    break ;
                },
                Some(at) => at,
            };
            proof {
                assert(names_run(files@, at as int, best_id));
                assert forall|h: int| 0 <= h < at implies !#[trigger] names_run(
                    files@,
                    h,
                    best_id,
                ) by {
                    if names_run(files@, h, best_id) {
                        assert(ids@[h] is Some);
                        lemma_name_tells_id(ids@[h]->Some_0, best_id);
                    }
                }
                assert(first_named(files@, at as int, best_id));
            }
            if best_id == u64::MAX {
                return Err(VeloError::CorruptedData("sorted run id out of range".to_string()));
            }
            let bits = filter_bits_for(10000, self.config.bloom_millibits_per_key);
            let table = match Self::load_sstable(
                best_id,
                files[at].bytes.as_slice(),
                bits,
                self.config.bloom_probes,
            ) {
                Ok(table) => table,
                Err(e) => {
                    return Err(e);
                },
            };
            let ghost old_tables = self.sstables@;
            let ghost old_last = last;
            table.add_keys_to(&mut self.filter);
            self.sstables.push(table);
            self.next_sstable_id = best_id + 1;
            last = Some(best_id);
            proof {
                assert forall|j: int| 0 <= j < self.sstables@.len() implies (
                #[trigger] self.sstables@[j]).wf() && covers(
                    self.filter,
                    self.sstables@[j].entries(),
                ) by {
                    if j < old_tables.len() {
                        assert(self.sstables@[j] == old_tables[j]);
                    }
                }
                assert forall|j: int| 0 <= j < self.spec_sstables().len() implies built_from(
                    #[trigger] self.spec_sstables()[j],
                    files@,
                ) by {
                    if j < old_tables.len() {
                        assert(self.sstables@[j] == old_tables[j]);
                    } else {
                        assert(first_named(files@, at as int, self.spec_sstables()[j].spec_id()));
                    }
                }
                assert forall|i: int, id: u64| #[trigger]
                    names_run(files@, i, id) && id <= best_id implies has_table(
                    self.spec_sstables(),
                    id,
                ) by {
                    assert(ids@[i] is Some);
                    if ids@[i]->Some_0 != id {
                        lemma_name_tells_id(ids@[i]->Some_0, id);
                    }
                    if old_last is Some && id <= old_last->Some_0 {
                        assert(has_table(old_tables, id));
                        let j = choose|j: int|
                            0 <= j < old_tables.len() && (#[trigger] old_tables[j]).spec_id() == id;
                        assert(self.spec_sstables()[j] == old_tables[j]);
                    } else {
                        assert(id == best_id);
                        assert(self.spec_sstables()[old_tables.len() as int].spec_id() == id);
                    }
                }
                assert forall|i: int, id: u64| #[trigger]
                    first_named(files@, i, id) && id <= best_id implies id != u64::MAX
                    && strictly_sorted(parse_run(files@[i].bytes@)) by {
                    if old_last is Some && id <= old_last->Some_0 {
                    } else {
                        assert(names_run(files@, i, id));
                        assert(ids@[i] is Some);
                        if ids@[i]->Some_0 != id {
                            lemma_name_tells_id(ids@[i]->Some_0, id);
                        }
                        assert(id == best_id);
                        if i < at {
                            assert(!names_run(files@, i, best_id));
                        } else if at < i {
                            assert(!names_run(files@, at as int, id));
                        }
                    }
                }
            }
        }
        Ok(())
    }

    /// Opens an engine on what a data directory holds: the bytes of the log
    /// and the files beside it.
    ///
    /// The log is replayed into the memtable; a torn or corrupt tail of the
    /// log is discarded, and so is a log of which the engine takes no
    /// record. The sorted runs among the files are loaded in the order of
    /// their ids. Fails if a run's file holds keys out of order.
    pub fn open_with_config(wal_bytes: Vec<u8>, files: &Vec<StoredFile>, config: VelocityConfig) -> (result:
        VeloResult<Velocity>)
        ensures
            result is Ok <==> !damaged(files@),
            result is Err ==> result->Err_0 is CorruptedData,
            result is Ok ==> {
                let engine = result->Ok_0;
                &&& engine.wf()
                &&& engine@.memtable == replay(admitted(recover_spec(wal_bytes@)))
                &&& loaded_from(engine.spec_sstables(), files@)
                &&& engine.log().image() == kept_log(wal_bytes@)
                &&& engine.log().records() == kept_records(wal_bytes@)
                &&& engine.log().flushed_len() == engine.log().image().len()
                &&& engine.log().unsynced() == 0
                &&& engine.log().mode() == config.wal_sync_mode
                &&& engine.cached() == Map::<Seq<u8>, Seq<u8>>::empty()
                &&& engine.queue().waiting().len() == 0
                &&& engine.queue().count() == 0
                &&& !engine.queue().is_closed()
                &&& engine.spec_config() == config
                &&& engine.next_id() == if engine.spec_sstables().len() == 0 {
                    1
                } else {
                    (engine.spec_sstables().last().spec_id() + 1) as u64
                }
            },
    {
        let mut engine = Self::new(config);
        let mut wal = WriteAheadLog::new(wal_bytes, config.wal_sync_mode);
        engine.recover_from_wal(&wal);
        proof {
            let taken = admitted(recover_spec(wal_bytes@));
            lemma_put_all_from_empty(taken, engine@.tables);
            engine.lemma_run();
            if taken.len() > 0 {
                assert(replay(taken).contains_key(taken.last().0));
            } else {
                assert(replay(taken) =~= Map::<Seq<u8>, Seq<u8>>::empty());
            }
        }
        if engine.memtable.is_empty() {
            wal.clear();
        }
        engine.wal = wal;
        match engine.load_sstables(files) {
            Ok(()) => Ok(engine),
            Err(e) => Err(e),
        }
    }

    /// Opens an engine with the default options.
    pub fn open(wal_bytes: Vec<u8>, files: &Vec<StoredFile>) -> (result: VeloResult<Velocity>)
        ensures
            result is Ok <==> !damaged(files@),
            result is Err ==> result->Err_0 is CorruptedData,
            result is Ok ==> {
                let engine = result->Ok_0;
                &&& engine.wf()
                &&& engine@.memtable == replay(admitted(recover_spec(wal_bytes@)))
                &&& loaded_from(engine.spec_sstables(), files@)
                &&& engine.log().image() == kept_log(wal_bytes@)
                &&& engine.log().records() == kept_records(wal_bytes@)
                &&& engine.log().flushed_len() == engine.log().image().len()
                &&& engine.log().unsynced() == 0
                &&& engine.log().mode() == WalSyncMode::Batch
                &&& engine.cached() == Map::<Seq<u8>, Seq<u8>>::empty()
                &&& engine.queue().waiting().len() == 0
                &&& engine.queue().count() == 0
                &&& !engine.queue().is_closed()
                &&& engine.spec_config() == default_config()
                &&& engine.next_id() == if engine.spec_sstables().len() == 0 {
                    1
                } else {
                    (engine.spec_sstables().last().spec_id() + 1) as u64
                }
            },
    {
        Self::open_with_config(wal_bytes, files, VelocityConfig::default())
    }
}

/// Writing records into an empty memtable gives the map that replaying
/// them gives.
pub proof fn lemma_put_all_from_empty(ops: Seq<Record>, tables: Seq<Seq<Record>>)
    ensures
        put_all(EngineView { memtable: Map::empty(), tables }, ops) == (EngineView {
            memtable: replay(ops),
            tables,
        }),
    decreases ops.len(),
{
    if ops.len() > 0 {
        lemma_put_all_from_empty(ops.drop_last(), tables);
    }
}

/// What a reader sees of the whole engine: each key that reads as present,
/// with the value it reads as.
pub open spec fn live_map(view: EngineView) -> Map<Seq<u8>, Seq<u8>> {
    Map::new(|k: Seq<u8>| view.lookup(k) is Some, |k: Seq<u8>| view.lookup(k)->Some_0)
}

/// A map after the records are applied to it in order: a value is put in
/// its key's place, a tombstone takes the key out.
pub open spec fn overlay(m: Map<Seq<u8>, Seq<u8>>, records: Seq<Record>) -> Map<Seq<u8>, Seq<u8>>
    decreases records.len(),
{
    if records.len() == 0 {
        m
    } else if records.last().1.len() == 0 {
        overlay(m, records.drop_last()).remove(records.last().0)
    } else {
        overlay(m, records.drop_last()).insert(records.last().0, records.last().1)
    }
}

/// Applying records to a map: a key that the records hold reads as its
/// last record says, any other key as the map says.
pub proof fn lemma_overlay(m: Map<Seq<u8>, Seq<u8>>, records: Seq<Record>, key: Seq<u8>)
    ensures
        overlay(m, records).contains_key(key) == if replay(records).contains_key(key) {
            replay(records)[key].len() > 0
        } else {
            m.contains_key(key)
        },
        overlay(m, records).contains_key(key) ==> overlay(m, records)[key] == if replay(
            records,
        ).contains_key(key) {
            replay(records)[key]
        } else {
            m[key]
        },
    decreases records.len(),
{
    if records.len() > 0 {
        lemma_overlay(m, records.drop_last(), key);
    }
}

/// Applying a run to what a reader sees of older runs gives what the reader
/// sees once the run is the newest.
pub proof fn lemma_overlay_table(tables: Seq<Seq<Record>>, run: Seq<Record>)
    ensures
        overlay(live_map(EngineView { memtable: Map::empty(), tables }), run) == live_map(
            EngineView { memtable: Map::empty(), tables: tables.push(run) },
        ),
{
    let before = EngineView { memtable: Map::empty(), tables };
    let after = EngineView { memtable: Map::empty(), tables: tables.push(run) };
    assert(tables.push(run).drop_last() =~= tables);
    let merged = overlay(live_map(before), run);
    let seen = live_map(after);
    assert forall|k: Seq<u8>| #[trigger] merged.dom().contains(k) == seen.dom().contains(k) by {
        lemma_overlay(live_map(before), run, k);
    }
    assert forall|k: Seq<u8>| #[trigger] merged.dom().contains(k) implies merged[k] == seen[k] by {
        lemma_overlay(live_map(before), run, k);
    }
    assert(merged =~= seen);
}

/// Applying the memtable to what a reader sees of the runs gives what the
/// reader sees of the engine.
pub proof fn lemma_overlay_memtable(tables: Seq<Seq<Record>>, run: Seq<Record>)
    ensures
        overlay(live_map(EngineView { memtable: Map::empty(), tables }), run) == live_map(
            EngineView { memtable: replay(run), tables },
        ),
{
    let before = EngineView { memtable: Map::empty(), tables };
    let after = EngineView { memtable: replay(run), tables };
    let merged = overlay(live_map(before), run);
    let seen = live_map(after);
    assert forall|k: Seq<u8>| #[trigger] merged.dom().contains(k) == seen.dom().contains(k) by {
        lemma_overlay(live_map(before), run, k);
    }
    assert forall|k: Seq<u8>| #[trigger] merged.dom().contains(k) implies merged[k] == seen[k] by {
        lemma_overlay(live_map(before), run, k);
    }
    assert(merged =~= seen);
}

/// Applies the records to `merged` in order.
fn apply_records(merged: &mut Memtable, records: &Vec<(Vec<u8>, Vec<u8>)>)
    requires
        old(merged).wf(),
    ensures
        final(merged).wf(),
        final(merged)@ == overlay(old(merged)@, pairs_view(records@)),
{
    let ghost recs = pairs_view(records@);
    let mut i: usize = 0;
    proof {
        assert(recs.take(0) =~= Seq::<Record>::empty());
    }
    while i < records.len()
        invariant
            i <= records.len(),
            recs == pairs_view(records@),
            merged.wf(),
            merged@ == overlay(old(merged)@, recs.take(i as int)),
        decreases records.len() - i,
    {
        proof {
            assert(recs.take(i + 1).drop_last() =~= recs.take(i as int));
            assert(recs.take(i + 1).last() == (records@[i as int].0@, records@[i as int].1@));
        }
        if records[i].1.len() == 0 {
            merged.remove(records[i].0.as_slice());
        } else {
            merged.insert(
                copy_bytes(records[i].0.as_slice()),
                copy_bytes(records[i].1.as_slice()),
            );
        }
        i += 1;
    }
    proof {
        assert(recs.take(i as int) =~= recs);
    }
}

impl Velocity {
    /// The first `limit` pairs, in key order, of what a reader sees: every
    /// key that reads as present, with the value it reads as.
    ///
    /// The sorted runs are merged from the oldest to the newest and the
    /// memtable is applied last; at each step a tombstone takes its key out.
    pub fn scan(&self, limit: usize) -> (out: Vec<(Vec<u8>, Vec<u8>)>)
        requires
            self.wf(),
        ensures
            strictly_sorted(sorted_run_of(live_map(self@))),
            replay(sorted_run_of(live_map(self@))) == live_map(self@),
            pairs_view(out@) == sorted_run_of(live_map(self@)).take(
                at_most(sorted_run_of(live_map(self@)).len(), limit as nat) as int,
            ),
            strictly_sorted(pairs_view(out@)),
            forall|i: int|
                0 <= i < out@.len() ==> self@.lookup((#[trigger] pairs_view(out@)[i]).0) == Some(
                    pairs_view(out@)[i].1,
                ),
    {
        let ghost tables = self@.tables;
        let mut merged = Memtable::new();
        let mut t: usize = 0;
        proof {
            assert(tables.take(0) =~= Seq::<Seq<Record>>::empty());
            assert(merged@ =~= live_map(
                EngineView { memtable: Map::empty(), tables: tables.take(0) },
            ));
        }
        while t < self.sstables.len()
            invariant
                t <= self.sstables.len(),
                self.wf(),
                tables == self@.tables,
                merged.wf(),
                merged@ == live_map(
                    EngineView { memtable: Map::empty(), tables: tables.take(t as int) },
                ),
            decreases self.sstables.len() - t,
        {
            assert(self.sstables@[t as int].wf());
            let records = self.sstables[t].records();
            apply_records(&mut merged, &records);
            proof {
                assert(tables[t as int] == self.sstables@[t as int].entries());
                lemma_overlay_table(tables.take(t as int), tables[t as int]);
                assert(tables.take(t as int).push(tables[t as int]) =~= tables.take(t + 1));
            }
            t += 1;
        }
        proof {
            assert(tables.take(t as int) =~= tables);
        }
        let mut held: Vec<(Vec<u8>, Vec<u8>)> = Vec::new();
        let mut i: usize = 0;
        let ghost mem = self.memtable.run();
        while i < self.memtable.len()
            invariant
                i <= mem.len(),
                mem == self.memtable.run(),
                pairs_view(held@) == mem.take(i as int),
            decreases mem.len() - i,
        {
            let entry = self.memtable.entry_at(i);
            let ghost before = pairs_view(held@);
            held.push((copy_bytes(entry.key.as_slice()), copy_bytes(entry.value.as_slice())));
            proof {
                assert(pairs_view(held@) =~= before.push(mem[i as int]));
                assert(mem.take(i as int).push(mem[i as int]) =~= mem.take(i + 1));
            }
            i += 1;
        }
        proof {
            assert(mem.take(i as int) =~= mem);
        }
        apply_records(&mut merged, &held);
        proof {
            lemma_overlay_memtable(tables, mem);
            lemma_sorted_run_of(merged.run());
            assert(self@ == (EngineView { memtable: replay(mem), tables }));
        }
        let ghost run = merged.run();
        let count = if merged.len() <= limit {
            merged.len()
        } else {
            limit
        };
        let mut out: Vec<(Vec<u8>, Vec<u8>)> = Vec::new();
        let mut j: usize = 0;
        while j < count
            invariant
                j <= count <= run.len(),
                run == merged.run(),
                out@.len() == j,
                pairs_view(out@) == run.take(j as int),
            decreases count - j,
        {
            let entry = merged.entry_at(j);
            let ghost before = pairs_view(out@);
            out.push((copy_bytes(entry.key.as_slice()), copy_bytes(entry.value.as_slice())));
            proof {
                assert(pairs_view(out@) =~= before.push(run[j as int]));
                assert(run.take(j as int).push(run[j as int]) =~= run.take(j + 1));
            }
            j += 1;
        }
        proof {
            let shown = pairs_view(out@);
            assert(strictly_sorted(run));
            assert(replay(run) == live_map(self@));
            assert forall|a: int, b: int| 0 <= a < b < shown.len() implies key_lt(
                shown[a].0,
                shown[b].0,
            ) by {
                assert(shown[a] == run[a] && shown[b] == run[b]);
            }
            assert forall|i: int| 0 <= i < out@.len() implies self@.lookup(
                (#[trigger] pairs_view(out@)[i]).0,
            ) == Some(pairs_view(out@)[i].1) by {
                assert(shown[i] == run[i]);
                lemma_replay_sorted_at(run, i);
                assert(live_map(self@).contains_key(run[i].0));
            }
        }
        out
    }
}

/// The engine after each pair is written in order.
pub open spec fn put_all(view: EngineView, ops: Seq<Record>) -> EngineView
    decreases ops.len(),
{
    if ops.len() == 0 {
        view
    } else {
        put_all(view, ops.drop_last()).put(ops.last().0, ops.last().1)
    }
}

/// A filter that held the probes of the first `i` keys holds, after the
/// next key is added or passed over, the probes of the keys up to it.
proof fn lemma_filter_grows(
    first: BloomFilter,
    before: BloomFilter,
    after: BloomFilter,
    ops: Seq<Record>,
    i: int,
    added: bool,
)
    requires
        0 <= i < ops.len(),
        before.width() == first.width(),
        before.probes() == first.probes(),
        after.width() == first.width(),
        forall|pos: int| before.bit(pos) == (first.bit(pos) || probed_by(first, ops, i, pos)),
        forall|pos: int|
            after.bit(pos) == (before.bit(pos) || (added && 0 <= pos < before.width()
                && before.probed(ops[i].0, pos))),
    ensures
        forall|pos: int|
            after.bit(pos) == (first.bit(pos) || probed_by(
                first,
                ops,
                if added {
                    i + 1
                } else {
                    i
                },
                pos,
            )),
{
    let taken = if added {
        i + 1
    } else {
        i
    };
    assert forall|pos: int|
        after.bit(pos) == (first.bit(pos) || probed_by(first, ops, taken, pos)) by {
        before.lemma_same_probes(&first, ops[i].0, pos);
        if probed_by(first, ops, taken, pos) {
            let j = choose|j: int| 0 <= j < taken && first.probed(#[trigger] ops[j].0, pos);
            if j < i {
                assert(probed_by(first, ops, i, pos));
            }
        }
        if probed_by(first, ops, i, pos) {
            let j = choose|j: int| 0 <= j < i && first.probed(#[trigger] ops[j].0, pos);
            assert(0 <= j < taken && first.probed(ops[j].0, pos));
        }
        if added && 0 <= pos < before.width() && before.probed(ops[i].0, pos) {
            assert(0 <= i < taken && first.probed(ops[i].0, pos));
        }
    }
}

/// How many writes of the batch reach the queue: those before the first
/// that fails.
pub open spec fn queued(ops: Seq<Record>, closed: bool) -> int {
    if closed {
        0
    } else {
        reached(ops, closed)
    }
}

/// No write of the batch fails: the queue is open, or there is nothing to
/// write, and every pair is admissible.
pub open spec fn all_written(ops: Seq<Record>, closed: bool) -> bool {
    forall|j: int| 0 <= j < ops.len() ==> succeeds(#[trigger] ops[j], closed)
}

/// The write of the pair succeeds: the pair is admissible and the queue open.
pub open spec fn succeeds(op: Record, closed: bool) -> bool {
    admissible(op.0, op.1) && !closed
}

/// How many writes of the batch reach the memtable: those before the first
/// that fails, and that one too if it fails for the closed queue alone.
pub open spec fn reached(ops: Seq<Record>, closed: bool) -> int
    decreases ops.len(),
{
    if ops.len() == 0 {
        0
    } else if !admissible(ops[0].0, ops[0].1) {
        0
    } else if closed {
        1
    } else {
        1 + reached(ops.drop_first(), closed)
    }
}

proof fn lemma_reached_all(ops: Seq<Record>, closed: bool)
    requires
        all_written(ops, closed),
    ensures
        reached(ops, closed) == ops.len(),
    decreases ops.len(),
{
    if ops.len() > 0 {
        let rest = ops.drop_first();
        assert forall|j: int| 0 <= j < rest.len() implies succeeds(#[trigger] rest[j], closed) by {
            assert(rest[j] == ops[j + 1]);
        }
        assert(succeeds(ops[0], closed));
        lemma_reached_all(rest, closed);
    }
}

proof fn lemma_reached_at(ops: Seq<Record>, closed: bool, i: int)
    requires
        0 <= i < ops.len(),
        forall|j: int| 0 <= j < i ==> succeeds(#[trigger] ops[j], closed),
        !admissible(ops[i].0, ops[i].1) || closed,
    ensures
        reached(ops, closed) == if admissible(ops[i].0, ops[i].1) {
            i + 1
        } else {
            i
        },
        !all_written(ops, closed),
    decreases i,
{
    assert(!succeeds(ops[i], closed));
    if i > 0 {
        let rest = ops.drop_first();
        assert forall|j: int| 0 <= j < i - 1 implies succeeds(#[trigger] rest[j], closed) by {
            assert(rest[j] == ops[j + 1]);
        }
        assert(succeeds(ops[0], closed));
        assert(rest[i - 1] == ops[i]);
        lemma_reached_at(rest, closed, i - 1);
    }
}

} // verus!
