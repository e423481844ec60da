//! Low-level I/O tasks, the per-block FIFO and the global ready queue.
//!
//! A task describes one unit of file work (write, read or delete a block,
//! or flush the file). Tasks for one block are serialized through the
//! block's FIFO; blocks with at least one dispatchable task sit in the
//! global ready queue, keyed by their file offset so that the scheduler can
//! prefer short seeks.

use vstd::prelude::*;

use crate::block::{BlockHeader, Bytes, BytesMut, Id};
use crate::schema::SpaceKey;

verus! {

/// A task for the interpreter: one block plus the work to do on it.
pub struct Task<C> {
    pub block_id: Id,
    pub kind: TaskKind<C>,
}

pub enum TaskKind<C> {
    WriteBlock(WriteBlock<C>),
    ReadBlock(ReadBlock<C>),
    DeleteBlock(DeleteBlock<C>),
    Flush(Flush<C>),
}

/// Whether this write also moves the logical end of the file.
#[derive(Clone, Copy, PartialEq, Eq, Structural, Debug)]
pub enum CommitType {
    CommitOnly,
    CommitAndEof,
}

pub struct WriteBlock<C> {
    pub block_bytes: Bytes,
    pub commit_type: CommitType,
    pub context: WriteBlockContext<C>,
}

pub struct ReadBlock<C> {
    pub block_header: BlockHeader,
    pub block_bytes: BytesMut,
    pub context: ReadBlockContext<C>,
}

pub struct DeleteBlock<C> {
    pub context: DeleteBlockContext<C>,
}

pub struct Flush<C> {
    pub context: C,
}

/// Who asked for a write: a client, or the defragmentation pipeline
/// relocating a block.
pub enum WriteBlockContext<C> {
    External(C),
    Defrag,
}

pub enum ReadBlockContext<C> {
    External(C),
    Defrag { space_key: SpaceKey },
}

pub enum DeleteBlockContext<C> {
    External(C),
    Defrag { space_key: SpaceKey },
}

/// A finished task, as reported back by the interpreter. `current_offset`
/// is where the interpreter's head ended up.
pub struct Done<C> {
    pub current_offset: u64,
    pub task: TaskDone<C>,
}

pub struct TaskDone<C> {
    pub block_id: Id,
    pub kind: TaskDoneKind<C>,
}

pub enum TaskDoneKind<C> {
    WriteBlock(TaskDoneWriteBlock<C>),
    ReadBlock(TaskDoneReadBlock<C>),
    DeleteBlock(TaskDoneDeleteBlock<C>),
    Flush(TaskDoneFlush<C>),
}

pub struct TaskDoneWriteBlock<C> {
    pub context: WriteBlockContext<C>,
}

pub struct TaskDoneReadBlock<C> {
    pub block_bytes: BytesMut,
    pub context: ReadBlockContext<C>,
}

pub struct TaskDoneDeleteBlock<C> {
    pub context: DeleteBlockContext<C>,
}

pub struct TaskDoneFlush<C> {
    pub context: C,
}

pub open spec fn kind_is_write<C>(kind: TaskKind<C>) -> bool {
    kind is WriteBlock
}

pub open spec fn kind_is_read<C>(kind: TaskKind<C>) -> bool {
    kind is ReadBlock
}

pub open spec fn kind_is_delete<C>(kind: TaskKind<C>) -> bool {
    kind is DeleteBlock
}

/// Is this a task of the defragmentation pipeline?
pub open spec fn kind_is_defrag<C>(kind: TaskKind<C>) -> bool {
    match kind {
        TaskKind::WriteBlock(wb) => wb.context is Defrag,
        TaskKind::ReadBlock(rb) => rb.context is Defrag,
        TaskKind::DeleteBlock(db) => db.context is Defrag,
        TaskKind::Flush(_) => false,
    }
}

/// How many tasks of a FIFO belong to the defragmentation pipeline.
pub open spec fn defrag_task_count<C>(fifo: Seq<TaskKind<C>>) -> nat
    decreases fifo.len(),
{
    if fifo.len() == 0 {
        0
    } else {
        defrag_task_count(fifo.drop_last()) + if kind_is_defrag(fifo.last()) {
            1nat
        } else {
            0nat
        }
    }
}

pub proof fn lemma_defrag_count_push<C>(fifo: Seq<TaskKind<C>>, kind: TaskKind<C>)
    ensures
        defrag_task_count(fifo.push(kind)) == defrag_task_count(fifo) + if kind_is_defrag(kind) {
            1nat
        } else {
            0nat
        },
{
    assert(fifo.push(kind).drop_last() =~= fifo);
}

pub proof fn lemma_defrag_count_remove<C>(fifo: Seq<TaskKind<C>>, i: int)
    requires
        0 <= i < fifo.len(),
    ensures
        defrag_task_count(fifo) == defrag_task_count(fifo.remove(i)) + if kind_is_defrag(
            fifo[i],
        ) {
            1nat
        } else {
            0nat
        },
    decreases fifo.len(),
{
    if i == fifo.len() - 1 {
        assert(fifo.remove(i) =~= fifo.drop_last());
    } else {
        lemma_defrag_count_remove(fifo.drop_last(), i);
        assert(fifo.remove(i).drop_last() =~= fifo.drop_last().remove(i));
        assert(fifo.remove(i).last() == fifo.last());
    }
}

/// The queue head of one block: its dispatch flag and its FIFO of pending
/// tasks. `is_queued` is true exactly while the block sits in the global
/// ready queue.
pub struct TasksHead<C> {
    pub is_queued: bool,
    pub fifo: Vec<TaskKind<C>>,
}

impl<C> TasksHead<C> {
    pub fn new() -> (r: TasksHead<C>)
        ensures
            r.is_queued == false,
            r.fifo@.len() == 0,
    {
        TasksHead { is_queued: false, fifo: Vec::new() }
    }

    /// Appends a task at the tail of the block's FIFO.
    pub fn push_kind(&mut self, kind: TaskKind<C>)
        ensures
            final(self).fifo@ == old(self).fifo@.push(kind),
            final(self).is_queued == old(self).is_queued,
    {
        self.fifo.push(kind);
    }

    /// Pops the task at the head of the FIFO.
    pub fn pop_front(&mut self) -> (r: Option<TaskKind<C>>)
        ensures
            final(self).is_queued == old(self).is_queued,
            match r {
                Some(kind) => old(self).fifo@.len() > 0 && kind == old(self).fifo@[0]
                    && final(self).fifo@ == old(self).fifo@.remove(0),
                None => old(self).fifo@.len() == 0 && final(self).fifo@ == old(self).fifo@,
            },
    {
        if self.fifo.len() == 0 {
            None
        } else {
            let kind = self.fifo.remove(0);
            Some(kind)
        }
    }

    /// Removes the first read task of the FIFO, if any.
    pub fn pop_first_read(&mut self) -> (r: Option<ReadBlock<C>>)
        ensures
            final(self).is_queued == old(self).is_queued,
            match r {
                Some(rb) => exists|i: int|
                    {
                        &&& 0 <= i < old(self).fifo@.len()
                        &&& old(self).fifo@[i] == TaskKind::<C>::ReadBlock(rb)
                        &&& forall|j: int| 0 <= j < i ==> !kind_is_read(old(self).fifo@[j])
                        &&& final(self).fifo@ == old(self).fifo@.remove(i)
                    },
                None => final(self).fifo@ == old(self).fifo@ && forall|j: int|
                    0 <= j < old(self).fifo@.len() ==> !kind_is_read(old(self).fifo@[j]),
            },
    {
        let mut i: usize = 0;
        while i < self.fifo.len()
            invariant
                self.fifo@ == old(self).fifo@,
                self.is_queued == old(self).is_queued,
                i <= self.fifo@.len(),
                forall|j: int| 0 <= j < i ==> !kind_is_read(self.fifo@[j]),
            decreases self.fifo@.len() - i,
        {
            if matches!(&self.fifo[i], TaskKind::ReadBlock(_)) {
                let kind = self.fifo.remove(i);
                match kind {
                    TaskKind::ReadBlock(rb) => {
                        proof {
                            let wi = i as int;
                            assert(old(self).fifo@[wi] == TaskKind::<C>::ReadBlock(rb));
                            assert(self.fifo@ == old(self).fifo@.remove(wi));
                        }
                        return Some(rb);
                    },
                    _ => {
                        // the scan above established that this element is a read
                        assert(false);
                    },
                }
            }
            i = i + 1;
        }
        None
    }

    /// Removes the first write task of the FIFO, if any.
    pub fn pop_first_write(&mut self) -> (r: Option<WriteBlock<C>>)
        ensures
            final(self).is_queued == old(self).is_queued,
            match r {
                Some(wb) => exists|i: int|
                    {
                        &&& 0 <= i < old(self).fifo@.len()
                        &&& old(self).fifo@[i] == TaskKind::<C>::WriteBlock(wb)
                        &&& forall|j: int| 0 <= j < i ==> !kind_is_write(old(self).fifo@[j])
                        &&& final(self).fifo@ == old(self).fifo@.remove(i)
                    },
                None => final(self).fifo@ == old(self).fifo@ && forall|j: int|
                    0 <= j < old(self).fifo@.len() ==> !kind_is_write(old(self).fifo@[j]),
            },
    {
        let mut i: usize = 0;
        while i < self.fifo.len()
            invariant
                self.fifo@ == old(self).fifo@,
                self.is_queued == old(self).is_queued,
                i <= self.fifo@.len(),
                forall|j: int| 0 <= j < i ==> !kind_is_write(self.fifo@[j]),
            decreases self.fifo@.len() - i,
        {
            if matches!(&self.fifo[i], TaskKind::WriteBlock(_)) {
                let kind = self.fifo.remove(i);
                match kind {
                    TaskKind::WriteBlock(wb) => {
                        proof {
                            let wi = i as int;
                            assert(old(self).fifo@[wi] == TaskKind::<C>::WriteBlock(wb));
                            assert(self.fifo@ == old(self).fifo@.remove(wi));
                        }
                        return Some(wb);
                    },
                    _ => {
                        assert(false);
                    },
                }
            }
            i = i + 1;
        }
        None
    }

    /// Removes the first delete task of the FIFO, if any.
    pub fn pop_first_delete(&mut self) -> (r: Option<DeleteBlock<C>>)
        ensures
            final(self).is_queued == old(self).is_queued,
            match r {
                Some(db) => exists|i: int|
                    {
                        &&& 0 <= i < old(self).fifo@.len()
                        &&& old(self).fifo@[i] == TaskKind::<C>::DeleteBlock(db)
                        &&& forall|j: int| 0 <= j < i ==> !kind_is_delete(old(self).fifo@[j])
                        &&& final(self).fifo@ == old(self).fifo@.remove(i)
                    },
                None => final(self).fifo@ == old(self).fifo@ && forall|j: int|
                    0 <= j < old(self).fifo@.len() ==> !kind_is_delete(old(self).fifo@[j]),
            },
    {
        let mut i: usize = 0;
        while i < self.fifo.len()
            invariant
                self.fifo@ == old(self).fifo@,
                self.is_queued == old(self).is_queued,
                i <= self.fifo@.len(),
                forall|j: int| 0 <= j < i ==> !kind_is_delete(self.fifo@[j]),
            decreases self.fifo@.len() - i,
        {
            if matches!(&self.fifo[i], TaskKind::DeleteBlock(_)) {
                let kind = self.fifo.remove(i);
                match kind {
                    TaskKind::DeleteBlock(db) => {
                        proof {
                            let wi = i as int;
                            assert(old(self).fifo@[wi] == TaskKind::<C>::DeleteBlock(db));
                            assert(self.fifo@ == old(self).fifo@.remove(wi));
                        }
                        return Some(db);
                    },
                    _ => {
                        assert(false);
                    },
                }
            }
            i = i + 1;
        }
        None
    }
}

/// One entry of the global ready queue: a block and its file offset.
#[derive(Clone, Copy, PartialEq, Eq, Structural, Debug)]
pub struct ReadyItem {
    pub offset: u64,
    pub serial: u64,
}

/// The seek cost of dispatching a block at `offset` while the head is at
/// `current`: blocks ahead of the head win, closest first; behind the
/// head, the lowest offset wins.
pub open spec fn seek_rank(current: u64, offset: u64) -> int {
    if offset >= current {
        offset - current
    } else {
        0x1_0000_0000_0000_0000 + offset
    }
}

/// The global ready queue of blocks with a dispatchable task.
pub struct Queue {
    items: Vec<ReadyItem>,
}

impl Queue {
    pub closed spec fn items(&self) -> Seq<ReadyItem> {
        self.items@
    }

    pub open spec fn contains_serial(&self, serial: u64) -> bool {
        exists|i: int| 0 <= i < self.items().len() && self.items()[i].serial == serial
    }

    pub fn new() -> (r: Queue)
        ensures
            r.items() == Seq::<ReadyItem>::empty(),
    {
        let r = Queue { items: Vec::new() };
        proof {
            assert(r.items() =~= Seq::<ReadyItem>::empty());
        }
        r
    }

    pub fn push(&mut self, offset: u64, serial: u64)
        ensures
            final(self).items() == old(self).items().push(ReadyItem { offset, serial }),
    {
        self.items.push(ReadyItem { offset, serial });
    }

    /// Drops a block's entry, if it has one.
    pub fn remove_serial(&mut self, serial: u64)
        ensures
            if old(self).contains_serial(serial) {
                exists|i: int|
                    {
                        &&& 0 <= i < old(self).items().len()
                        &&& old(self).items()[i].serial == serial
                        &&& final(self).items() == old(self).items().remove(i)
                    }
            } else {
                final(self).items() == old(self).items()
            },
    {
        let mut i: usize = 0;
        while i < self.items.len()
            invariant
                self.items@ == old(self).items@,
                i <= self.items@.len(),
                forall|j: int| 0 <= j < i ==> self.items@[j].serial != serial,
            decreases self.items@.len() - i,
        {
            if self.items[i].serial == serial {
                let _ = self.items.remove(i);
                proof {
                    let wi = i as int;
                    assert(old(self).items()[wi].serial == serial);
                    assert(self.items() == old(self).items().remove(wi));
                }
                return ;
            }
            i = i + 1;
        }
    }

    /// Removes and returns the block whose offset minimizes the seek cost
    /// from `current_offset`.
    pub fn pop_block_id(&mut self, current_offset: u64) -> (r: Option<ReadyItem>)
        ensures
            match r {
                Some(item) => exists|i: int|
                    {
                        &&& 0 <= i < old(self).items().len()
                        &&& old(self).items()[i] == item
                        &&& final(self).items() == old(self).items().remove(i)
                    },
                None => old(self).items().len() == 0 && final(self).items() == old(self).items(),
            },
            r is Some ==> forall|j: int|
                0 <= j < old(self).items().len() ==> seek_rank(current_offset, r->Some_0.offset)
                    <= seek_rank(current_offset, old(self).items()[j].offset),
    {
        if self.items.len() == 0 {
            return None;
        }
        let mut best: usize = 0;
        let mut i: usize = 1;
        while i < self.items.len()
            invariant
                self.items@ == old(self).items@,
                self.items@.len() > 0,
                best < i,
                i <= self.items@.len(),
                forall|j: int|
                    0 <= j < i ==> seek_rank(current_offset, self.items@[best as int].offset)
                        <= seek_rank(current_offset, self.items@[j].offset),
            decreases self.items@.len() - i,
        {
            let cand = self.items[i].offset;
            let cur = self.items[best].offset;
            let better = if cand >= current_offset && cur >= current_offset {
                cand < cur
            } else if cand >= current_offset {
                true
            } else if cur >= current_offset {
                false
            } else {
                cand < cur
            };
            if better {
                best = i;
            }
            i = i + 1;
        }
        let item = self.items.remove(best);
        proof {
            let wi = best as int;
            assert(old(self).items()[wi] == item);
            assert(self.items() == old(self).items().remove(wi));
        }
        Some(item)
    }
}

/// The first read task of a FIFO, in queue order.
pub open spec fn first_read<C>(fifo: Seq<TaskKind<C>>) -> Option<ReadBlock<C>>
    decreases fifo.len(),
{
    if fifo.len() == 0 {
        None
    } else {
        match fifo[0] {
            TaskKind::ReadBlock(rb) => Some(rb),
            _ => first_read(fifo.drop_first()),
        }
    }
}

/// The context of the first client read of a FIFO: relocation reads are
/// passed over, as the drains cancel them silently.
pub open spec fn first_external_read<C>(fifo: Seq<TaskKind<C>>) -> Option<C>
    decreases fifo.len(),
{
    if fifo.len() == 0 {
        None
    } else {
        match fifo[0] {
            TaskKind::ReadBlock(rb) => match rb.context {
                ReadBlockContext::External(c) => Some(c),
                ReadBlockContext::Defrag { .. } => first_external_read(fifo.drop_first()),
            },
            _ => first_external_read(fifo.drop_first()),
        }
    }
}

/// The context of the first client delete of a FIFO; relocation deletes
/// are passed over.
pub open spec fn first_external_delete<C>(fifo: Seq<TaskKind<C>>) -> Option<C>
    decreases fifo.len(),
{
    if fifo.len() == 0 {
        None
    } else {
        match fifo[0] {
            TaskKind::DeleteBlock(db) => match db.context {
                DeleteBlockContext::External(c) => Some(c),
                DeleteBlockContext::Defrag { .. } => first_external_delete(fifo.drop_first()),
            },
            _ => first_external_delete(fifo.drop_first()),
        }
    }
}

/// The element found by a first-read scan is the FIFO's first read.
pub proof fn lemma_first_read_at<C>(fifo: Seq<TaskKind<C>>, i: int, rb: ReadBlock<C>)
    requires
        0 <= i < fifo.len(),
        fifo[i] == TaskKind::<C>::ReadBlock(rb),
        forall|j: int| 0 <= j < i ==> !kind_is_read(fifo[j]),
    ensures
        first_read(fifo) == Some(rb),
    decreases i,
{
    if i > 0 {
        lemma_first_read_at(fifo.drop_first(), i - 1, rb);
    }
}

/// A FIFO with no read task has no first read.
pub proof fn lemma_first_read_none<C>(fifo: Seq<TaskKind<C>>)
    requires
        forall|j: int| 0 <= j < fifo.len() ==> !kind_is_read(fifo[j]),
    ensures
        first_read(fifo) is None,
    decreases fifo.len(),
{
    if fifo.len() > 0 {
        lemma_first_read_none(fifo.drop_first());
    }
}

/// Removing a non-read element leaves the first client read unchanged.
pub proof fn lemma_fer_remove_non_read<C>(fifo: Seq<TaskKind<C>>, i: int)
    requires
        0 <= i < fifo.len(),
        !kind_is_read(fifo[i]),
    ensures
        first_external_read(fifo.remove(i)) == first_external_read(fifo),
    decreases fifo.len(),
{
    if i == 0 {
        assert(fifo.remove(0) =~= fifo.drop_first());
    } else {
        lemma_fer_remove_non_read(fifo.drop_first(), i - 1);
        assert(fifo.remove(i).drop_first() =~= fifo.drop_first().remove(i - 1));
        assert(fifo.remove(i)[0] == fifo[0]);
    }
}

/// Cancelling the first read, when it belongs to the relocation pipeline,
/// leaves the first client read unchanged.
pub proof fn lemma_fer_remove_defrag_read<C>(fifo: Seq<TaskKind<C>>, i: int, rb: ReadBlock<C>)
    requires
        0 <= i < fifo.len(),
        fifo[i] == TaskKind::<C>::ReadBlock(rb),
        rb.context is Defrag,
        forall|j: int| 0 <= j < i ==> !kind_is_read(fifo[j]),
    ensures
        first_external_read(fifo.remove(i)) == first_external_read(fifo),
    decreases fifo.len(),
{
    if i == 0 {
        assert(fifo.remove(0) =~= fifo.drop_first());
    } else {
        lemma_fer_remove_defrag_read(fifo.drop_first(), i - 1, rb);
        assert(fifo.remove(i).drop_first() =~= fifo.drop_first().remove(i - 1));
        assert(fifo.remove(i)[0] == fifo[0]);
    }
}

/// Serving the first read, when it is a client's, is what the first-read
/// scan found.
pub proof fn lemma_fer_at<C>(fifo: Seq<TaskKind<C>>, i: int, rb: ReadBlock<C>, c: C)
    requires
        0 <= i < fifo.len(),
        fifo[i] == TaskKind::<C>::ReadBlock(rb),
        rb.context == ReadBlockContext::<C>::External(c),
        forall|j: int| 0 <= j < i ==> !kind_is_read(fifo[j]),
    ensures
        first_external_read(fifo) == Some(c),
    decreases i,
{
    if i > 0 {
        lemma_fer_at(fifo.drop_first(), i - 1, rb, c);
    }
}

/// A FIFO with no read task has no first client read.
pub proof fn lemma_fer_none<C>(fifo: Seq<TaskKind<C>>)
    requires
        forall|j: int| 0 <= j < fifo.len() ==> !kind_is_read(fifo[j]),
    ensures
        first_external_read(fifo) is None,
    decreases fifo.len(),
{
    if fifo.len() > 0 {
        lemma_fer_none(fifo.drop_first());
    }
}

/// Removing a non-delete element leaves the first client delete unchanged.
pub proof fn lemma_fed_remove_non_delete<C>(fifo: Seq<TaskKind<C>>, i: int)
    requires
        0 <= i < fifo.len(),
        !kind_is_delete(fifo[i]),
    ensures
        first_external_delete(fifo.remove(i)) == first_external_delete(fifo),
    decreases fifo.len(),
{
    if i == 0 {
        assert(fifo.remove(0) =~= fifo.drop_first());
    } else {
        lemma_fed_remove_non_delete(fifo.drop_first(), i - 1);
        assert(fifo.remove(i).drop_first() =~= fifo.drop_first().remove(i - 1));
        assert(fifo.remove(i)[0] == fifo[0]);
    }
}

/// Cancelling the first delete, when it belongs to the relocation
/// pipeline, leaves the first client delete unchanged.
pub proof fn lemma_fed_remove_defrag_delete<C>(fifo: Seq<TaskKind<C>>, i: int, db: DeleteBlock<C>)
    requires
        0 <= i < fifo.len(),
        fifo[i] == TaskKind::<C>::DeleteBlock(db),
        db.context is Defrag,
        forall|j: int| 0 <= j < i ==> !kind_is_delete(fifo[j]),
    ensures
        first_external_delete(fifo.remove(i)) == first_external_delete(fifo),
    decreases fifo.len(),
{
    if i == 0 {
        assert(fifo.remove(0) =~= fifo.drop_first());
    } else {
        lemma_fed_remove_defrag_delete(fifo.drop_first(), i - 1, db);
        assert(fifo.remove(i).drop_first() =~= fifo.drop_first().remove(i - 1));
        assert(fifo.remove(i)[0] == fifo[0]);
    }
}

/// Answering the first delete, when it is a client's, is what the
/// first-delete scan found.
pub proof fn lemma_fed_at<C>(fifo: Seq<TaskKind<C>>, i: int, db: DeleteBlock<C>, c: C)
    requires
        0 <= i < fifo.len(),
        fifo[i] == TaskKind::<C>::DeleteBlock(db),
        db.context == DeleteBlockContext::<C>::External(c),
        forall|j: int| 0 <= j < i ==> !kind_is_delete(fifo[j]),
    ensures
        first_external_delete(fifo) == Some(c),
    decreases i,
{
    if i > 0 {
        lemma_fed_at(fifo.drop_first(), i - 1, db, c);
    }
}

/// A FIFO with no delete task has no first client delete.
pub proof fn lemma_fed_none<C>(fifo: Seq<TaskKind<C>>)
    requires
        forall|j: int| 0 <= j < fifo.len() ==> !kind_is_delete(fifo[j]),
    ensures
        first_external_delete(fifo) is None,
    decreases fifo.len(),
{
    if fifo.len() > 0 {
        lemma_fed_none(fifo.drop_first());
    }
}

/// Is this a relocation read of the defragmentation pipeline?
pub open spec fn kind_is_defrag_read<C>(kind: TaskKind<C>) -> bool {
    match kind {
        TaskKind::ReadBlock(rb) => rb.context is Defrag,
        _ => false,
    }
}

/// How many relocation reads a FIFO holds.
pub open spec fn defrag_read_count<C>(fifo: Seq<TaskKind<C>>) -> nat
    decreases fifo.len(),
{
    if fifo.len() == 0 {
        0
    } else {
        defrag_read_count(fifo.drop_last()) + if kind_is_defrag_read(fifo.last()) {
            1nat
        } else {
            0nat
        }
    }
}

pub proof fn lemma_drc_push<C>(fifo: Seq<TaskKind<C>>, kind: TaskKind<C>)
    ensures
        defrag_read_count(fifo.push(kind)) == defrag_read_count(fifo) + if kind_is_defrag_read(
            kind,
        ) {
            1nat
        } else {
            0nat
        },
{
    assert(fifo.push(kind).drop_last() =~= fifo);
}

pub proof fn lemma_drc_remove<C>(fifo: Seq<TaskKind<C>>, i: int)
    requires
        0 <= i < fifo.len(),
    ensures
        defrag_read_count(fifo) == defrag_read_count(fifo.remove(i)) + if kind_is_defrag_read(
            fifo[i],
        ) {
            1nat
        } else {
            0nat
        },
    decreases fifo.len(),
{
    if i == fifo.len() - 1 {
        assert(fifo.remove(i) =~= fifo.drop_last());
    } else {
        lemma_drc_remove(fifo.drop_last(), i);
        assert(fifo.remove(i).drop_last() =~= fifo.drop_last().remove(i));
        assert(fifo.remove(i).last() == fifo.last());
    }
}

} // verus!
