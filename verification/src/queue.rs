//! The write-staging queue: writes wait here, in order, until a worker
//! appends them to the log in batches.

use vstd::prelude::*;
use crate::entries::Record;
use crate::wal::{log_batch, WalState, WalSyncMode, WriteAheadLog};

verus! {

/// The most records a worker takes from the queue at once.
pub const BATCH_LIMIT: usize = 128;

/// The thresholds of the adaptive batcher: doubling from 2 to `BATCH_LIMIT`.
pub open spec fn schedule() -> Seq<usize> {
    seq![2, 4, 8, 16, 32, 64, 128]
}

/// The batcher flushes when the running count has reached a threshold of the
/// schedule and is a multiple of it, and at every multiple of `BATCH_LIMIT`.
pub open spec fn flush_due(count: int) -> bool {
    ||| exists|i: int|
        0 <= i < schedule().len() && count >= schedule()[i] && count % (schedule()[i] as int) == 0
    ||| count >= 128 && count % 128 == 0
}

/// The schedule starts at two, and each of its thresholds is even: the
/// batcher flushes exactly at the even counts.
pub proof fn lemma_flush_due_is_even(count: int)
    ensures
        flush_due(count) <==> count >= 2 && count % 2 == 0,
{
    let s = schedule();
    assert(s.len() == 7 && s[0] == 2 && s[1] == 4 && s[2] == 8 && s[3] == 16 && s[4] == 32 && s[5]
        == 64 && s[6] == 128);
    if count >= 2 && count % 2 == 0 {
        assert(0 <= 0 < s.len() && count >= s[0] && count % (s[0] as int) == 0);
    }
    if flush_due(count) {
        if exists|i: int| 0 <= i < s.len() && count >= s[i] && count % (s[i] as int) == 0 {
            let i = choose|i: int| 0 <= i < s.len() && count >= s[i] && count % (s[i] as int) == 0;
            assert(i == 0 || i == 1 || i == 2 || i == 3 || i == 4 || i == 5 || i == 6);
            lemma_multiple_of_even(count, s[i] as int);
        } else {
            lemma_multiple_of_even(count, 128);
        }
    }
}

proof fn lemma_multiple_of_even(count: int, d: int)
    requires
        d > 0,
        d % 2 == 0,
        count % d == 0,
    ensures
        count % 2 == 0,
{
    let q = count / d;
    let e = d / 2;
    assert(count == d * q) by (nonlinear_arith)
        requires
            d > 0,
            count % d == 0,
            q == count / d,
    ;
    assert(d == 2 * e);
    assert(count == 2 * (e * q)) by (nonlinear_arith)
        requires
            count == d * q,
            d == 2 * e,
    ;
}

/// Counts the writes that wait for a flush and decides when one is due.
#[derive(Debug)]
pub struct AdaptiveBatchManager {
    pending_count: usize,
    batch_thresholds: Vec<usize>,
}

impl AdaptiveBatchManager {
    /// The number of writes counted since the last reset.
    pub closed spec fn count(&self) -> int {
        self.pending_count as int
    }

    pub closed spec fn wf(&self) -> bool {
        self.batch_thresholds@ == schedule()
    }

    pub fn new() -> (manager: Self)
        ensures
            manager.wf(),
            manager.count() == 0,
    {
        let mut batch_thresholds: Vec<usize> = Vec::new();
        batch_thresholds.push(2);
        batch_thresholds.push(4);
        batch_thresholds.push(8);
        batch_thresholds.push(16);
        batch_thresholds.push(32);
        batch_thresholds.push(64);
        batch_thresholds.push(128);
        assert(batch_thresholds@ =~= schedule());
        AdaptiveBatchManager { pending_count: 0, batch_thresholds }
    }

    /// Whether a flush is due at the running count `current_count`.
    pub fn should_flush(&self, current_count: usize) -> (due: bool)
        requires
            self.wf(),
        ensures
            due == flush_due(current_count as int),
            due == (current_count >= 2 && current_count % 2 == 0),
    {
        proof {
            lemma_flush_due_is_even(current_count as int);
        }
        let mut i: usize = 0;
        while i < self.batch_thresholds.len()
            invariant
                i <= self.batch_thresholds.len(),
                self.batch_thresholds@ == schedule(),
                forall|j: int|
                    0 <= j < i ==> !(current_count >= schedule()[j] && current_count as int % (
                    schedule()[j] as int) == 0),
            decreases self.batch_thresholds.len() - i,
        {
            let threshold = self.batch_thresholds[i];
            assert(threshold == schedule()[i as int]);
            assert(threshold > 0);
            if current_count >= threshold && current_count % threshold == 0 {
                return true;
            }
            i += 1;
        }
        if current_count >= 128 && current_count % 128 == 0 {
            return true;
        }
        false
    }

    /// Counts one more write and returns the new count. The count stays at
    /// its maximum once there.
    pub fn increment(&mut self) -> (count: usize)
        requires
            old(self).wf(),
        ensures
            final(self).wf(),
            count == final(self).count(),
            count == if old(self).count() < usize::MAX {
                old(self).count() + 1
            } else {
                old(self).count()
            },
    {
        if self.pending_count < usize::MAX {
            self.pending_count = self.pending_count + 1;
        }
        self.pending_count
    }

    /// Starts the count anew after a flush.
    pub fn reset(&mut self)
        requires
            old(self).wf(),
        ensures
            final(self).wf(),
            final(self).count() == 0,
    {
        self.pending_count = 0;
    }

    pub fn get_count(&self) -> (count: usize)
        ensures
            count == self.count(),
    {
        self.pending_count
    }
}

/// A write that waits to be logged.
#[derive(Debug)]
pub struct WriteOperation {
    pub key: Vec<u8>,
    pub value: Vec<u8>,
}

/// The records held by a vector of writes.
pub open spec fn ops_view(ops: Seq<WriteOperation>) -> Seq<Record> {
    ops.map_values(|op: WriteOperation| (op.key@, op.value@))
}

/// What a worker's turn did.
#[derive(Debug, Clone, Copy, PartialEq, Eq, Structural)]
pub struct BatchOutcome {
    /// How many writes were taken from the queue.
    pub taken: usize,
    /// Whether the adaptive batcher asked for a flush.
    pub flushed: bool,
}

/// The queue between the writers and the worker that logs their writes.
#[derive(Debug)]
pub struct AsyncWriteQueue {
    pending: Vec<WriteOperation>,
    batch_manager: AdaptiveBatchManager,
    closed: bool,
}

impl AsyncWriteQueue {
    /// The writes that wait, oldest first.
    pub closed spec fn waiting(&self) -> Seq<Record> {
        ops_view(self.pending@)
    }

    /// The worker has terminated: the queue takes no more writes.
    pub closed spec fn is_closed(&self) -> bool {
        self.closed
    }

    /// The count of the adaptive batcher.
    pub closed spec fn count(&self) -> int {
        self.batch_manager.count()
    }

    pub closed spec fn wf(&self) -> bool {
        self.batch_manager.wf()
    }

    /// The batcher's count is a machine number.
    pub proof fn lemma_count_range(&self)
        ensures
            0 <= self.count() <= usize::MAX,
    {
    }

    pub fn new() -> (queue: Self)
        ensures
            queue.wf(),
            queue.waiting().len() == 0,
            !queue.is_closed(),
            queue.count() == 0,
    {
        let queue = AsyncWriteQueue {
            pending: Vec::new(),
            batch_manager: AdaptiveBatchManager::new(),
            closed: false,
        };
        assert(queue.waiting() =~= Seq::<Record>::empty());
        queue
    }

    /// Queues a write behind those that wait. A closed queue hands the write
    /// back. The batcher counts the write either way.
    pub fn send(&mut self, key: Vec<u8>, value: Vec<u8>) -> (result: Result<(), WriteOperation>)
        requires
            old(self).wf(),
        ensures
            final(self).wf(),
            final(self).is_closed() == old(self).is_closed(),
            final(self).count() == if old(self).count() < usize::MAX {
                old(self).count() + 1
            } else {
                old(self).count()
            },
            match result {
                Ok(()) => !old(self).is_closed() && final(self).waiting() == old(
                    self,
                ).waiting().push((key@, value@)),
                Err(op) => old(self).is_closed() && final(self).waiting() == old(self).waiting()
                    && op.key@ == key@ && op.value@ == value@,
            },
    {
        let _ = self.batch_manager.increment();
        let op = WriteOperation { key, value };
        if self.closed {
            return Err(op);
        }
        let ghost before = self.waiting();
        self.pending.push(op);
        assert(self.waiting() =~= before.push((key@, value@)));
        Ok(())
    }

    /// The count of the adaptive batcher.
    pub fn pending_count(&self) -> (count: usize)
        ensures
            count == self.count(),
    {
        self.batch_manager.get_count()
    }

    /// The number of writes that wait.
    pub fn len(&self) -> (n: usize)
        ensures
            n == self.waiting().len(),
    {
        self.pending.len()
    }

    /// Marks the worker as terminated.
    pub fn close(&mut self)
        requires
            old(self).wf(),
        ensures
            final(self).wf(),
            final(self).is_closed(),
            final(self).waiting() == old(self).waiting(),
            final(self).count() == old(self).count(),
    {
        self.closed = true;
    }

    /// Drops the writes that wait and starts the batcher's count anew. The
    /// engine calls this when a flush has put the memtable, which holds every
    /// waiting write, into a sorted run: the log that they wait for is
    /// cleared with it.
    pub fn discard(&mut self)
        requires
            old(self).wf(),
        ensures
            final(self).wf(),
            final(self).waiting().len() == 0,
            final(self).count() == 0,
            final(self).is_closed() == old(self).is_closed(),
    {
        self.pending.clear();
        self.batch_manager.reset();
        assert(self.waiting() =~= Seq::<Record>::empty());
    }

    /// Takes the oldest writes from the queue, `BATCH_LIMIT` at most.
    pub fn next_batch(&mut self) -> (batch: Vec<WriteOperation>)
        requires
            old(self).wf(),
        ensures
            final(self).wf(),
            final(self).is_closed() == old(self).is_closed(),
            final(self).count() == old(self).count(),
            batch@.len() == if old(self).waiting().len() <= BATCH_LIMIT {
                old(self).waiting().len()
            } else {
                BATCH_LIMIT as nat
            },
            ops_view(batch@) == old(self).waiting().take(batch@.len() as int),
            final(self).waiting() == old(self).waiting().skip(batch@.len() as int),
    {
        let n = if self.pending.len() <= BATCH_LIMIT {
            self.pending.len()
        } else {
            BATCH_LIMIT
        };
        let ghost before = self.pending@;
        let mut rest = self.pending.split_off(n);
        core::mem::swap(&mut self.pending, &mut rest);
        assert(ops_view(rest@) =~= ops_view(before).take(n as int));
        assert(ops_view(self.pending@) =~= ops_view(before).skip(n as int));
        rest
    }

    /// Appends a batch to the log, unless the engine runs in memory only,
    /// and flushes the log if the batcher forces it or the configuration
    /// asks for a flush after every batch. A write too long for the log is
    /// passed over.
    pub fn process_batch(
        batch: &Vec<WriteOperation>,
        wal: &mut WriteAheadLog,
        memory_only_mode: bool,
        batch_wal_writes: bool,
        force_flush: bool,
        timestamp: u64,
        elapsed_ms: u64,
    )
        requires
            old(wal).wf(),
        ensures
            final(wal).wf(),
            final(wal).mode() == old(wal).mode(),
            final(wal).state() == batch_result(
                old(wal).state(),
                old(wal).mode(),
                ops_view(batch@),
                memory_only_mode,
                batch_wal_writes || force_flush,
                timestamp,
                elapsed_ms,
            ),
    {
        if memory_only_mode {
            return ;
        }
        let ghost ops = ops_view(batch@);
        let ghost mode = wal.mode();
        let ghost start = wal.state();
        let mut i: usize = 0;
        assert(ops.take(0) =~= Seq::<Record>::empty());
        while i < batch.len()
            invariant
                i <= batch.len(),
                ops == ops_view(batch@),
                wal.wf(),
                wal.mode() == mode,
                wal.state() == log_batch(start, mode, timestamp, ops.take(i as int), elapsed_ms),
            decreases batch.len() - i,
        {
            let op = &batch[i];
            proof {
                assert(ops.take(i + 1).drop_last() =~= ops.take(i as int));
                assert(ops.take(i + 1).last() == (op.key@, op.value@));
            }
            let _ = wal.log_operation(op.key.as_slice(), op.value.as_slice(), timestamp, elapsed_ms);
            i += 1;
        }
        assert(ops.take(i as int) =~= ops);
        if force_flush || batch_wal_writes {
            wal.flush();
        }
    }

    /// One turn of the worker: takes a batch from the queue, lets the
    /// adaptive batcher decide on a flush, appends the batch to the log, and
    /// resets the batcher if it flushed.
    pub fn drain_batch(
        &mut self,
        wal: &mut WriteAheadLog,
        memory_only_mode: bool,
        batch_wal_writes: bool,
        timestamp: u64,
        elapsed_ms: u64,
    ) -> (outcome: BatchOutcome)
        requires
            old(self).wf(),
            old(wal).wf(),
        ensures
            final(self).wf(),
            final(wal).wf(),
            final(wal).mode() == old(wal).mode(),
            final(self).is_closed() == old(self).is_closed(),
            outcome.taken == if old(self).waiting().len() <= BATCH_LIMIT {
                old(self).waiting().len()
            } else {
                BATCH_LIMIT as nat
            },
            final(self).waiting() == old(self).waiting().skip(outcome.taken as int),
            outcome.taken == 0 ==> !outcome.flushed && final(wal).state() == old(wal).state()
                && final(self).count() == old(self).count(),
            outcome.taken > 0 ==> {
                &&& outcome.flushed == flush_due(running_count(old(self).count(), outcome.taken as int))
                &&& final(self).count() == if outcome.flushed {
                    0
                } else {
                    old(self).count()
                }
                &&& final(wal).state() == batch_result(
                    old(wal).state(),
                    old(wal).mode(),
                    old(self).waiting().take(outcome.taken as int),
                    memory_only_mode,
                    batch_wal_writes || outcome.flushed,
                    timestamp,
                    elapsed_ms,
                )
            },
    {
        let batch = self.next_batch();
        if batch.len() == 0 {
            return BatchOutcome { taken: 0, flushed: false };
        }
        let current_count = self.batch_manager.get_count().saturating_add(batch.len());
        let should_flush = self.batch_manager.should_flush(current_count);
        Self::process_batch(
            &batch,
            wal,
            memory_only_mode,
            batch_wal_writes,
            should_flush,
            timestamp,
            elapsed_ms,
        );
        if should_flush {
            self.batch_manager.reset();
        }
        BatchOutcome { taken: batch.len(), flushed: should_flush }
    }
}

/// The count on which the batcher decides: the writes counted so far and
/// the size of the batch, or the largest count if they are more.
pub open spec fn running_count(counted: int, taken: int) -> int {
    if counted + taken <= usize::MAX {
        counted + taken
    } else {
        usize::MAX as int
    }
}

/// The log after a worker's turn on a batch.
pub open spec fn batch_result(
    s: WalState,
    mode: WalSyncMode,
    records: Seq<Record>,
    memory_only_mode: bool,
    flush: bool,
    timestamp: u64,
    elapsed_ms: u64,
) -> WalState {
    if memory_only_mode {
        s
    } else {
        let logged = log_batch(s, mode, timestamp, records, elapsed_ms);
        if flush {
            WalState { flushed: logged.image.len() as int, ..logged }
        } else {
            logged
        }
    }
}

} // verus!
