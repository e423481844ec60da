//! The performer: the deterministic control core of the storage engine.
//!
//! The performer is a step machine. A driver repeatedly asks it for its
//! next operation ([`Performer::next`]); the answer is either `Idle` (poke
//! again), an `Event` to deliver to a client, or a `Query` asking the
//! driver for input: the next request, the next request or the pending
//! interpreter completion, or the handoff of an I/O task to the
//! interpreter.
//!
//! The machine owns three proved invariants: at most one task is with the
//! interpreter at any moment (the background slot); a block has pending
//! work exactly when it is ready-queued or owns the background slot; and
//! the defragmentation counter equals the number of outstanding
//! defragmentation tasks.

use vstd::prelude::*;
use vstd::multiset::Multiset;

use crate::block::{Bytes, BytesMut, Id};
use crate::defrag;
use crate::lru;
use crate::pool;
use crate::proto;
use crate::schema;
use crate::task;
use crate::task::{defrag_task_count, TaskKind};

verus! {

broadcast use vstd::multiset::group_multiset_axioms;

/// Ghost summary of the task currently with the interpreter.
pub enum InflightTask {
    Write { serial: u64, defrag: bool },
    Read { serial: u64, defrag: bool },
    Delete { serial: u64, defrag: bool },
    Flush,
}

pub open spec fn inflight_serial(t: InflightTask) -> u64 {
    match t {
        InflightTask::Write { serial, .. } => serial,
        InflightTask::Read { serial, .. } => serial,
        InflightTask::Delete { serial, .. } => serial,
        InflightTask::Flush => 0,
    }
}

pub open spec fn inflight_is_defrag(t: InflightTask) -> bool {
    match t {
        InflightTask::Write { defrag, .. } => defrag,
        InflightTask::Read { defrag, .. } => defrag,
        InflightTask::Delete { defrag, .. } => defrag,
        InflightTask::Flush => false,
    }
}

/// The ghost summary of a task kind handed to the interpreter.
pub open spec fn summary_of_kind<C>(serial: u64, kind: TaskKind<C>) -> InflightTask {
    match kind {
        TaskKind::WriteBlock(wb) => InflightTask::Write {
            serial,
            defrag: wb.context is Defrag,
        },
        TaskKind::ReadBlock(rb) => InflightTask::Read { serial, defrag: rb.context is Defrag },
        TaskKind::DeleteBlock(db) => InflightTask::Delete {
            serial,
            defrag: db.context is Defrag,
        },
        TaskKind::Flush(_) => InflightTask::Flush,
    }
}

/// Does a completion report match the task that is actually with the
/// interpreter? The driver must feed back the completion of the very task
/// it was handed.
pub open spec fn done_matches<C>(inflight: Option<InflightTask>, done: task::Done<C>) -> bool {
    match inflight {
        Some(t) => inflight_serial(t) == done.task.block_id.serial && match t {
            InflightTask::Write { defrag, .. } => done.task.kind matches task::TaskDoneKind::WriteBlock(w)
                && (w.context is Defrag) == defrag,
            InflightTask::Read { defrag, .. } => done.task.kind matches task::TaskDoneKind::ReadBlock(r)
                && (r.context is Defrag) == defrag,
            InflightTask::Delete { defrag, .. } => done.task.kind matches task::TaskDoneKind::DeleteBlock(d)
                && (d.context is Defrag) == defrag,
            InflightTask::Flush => done.task.kind is Flush,
        },
        None => false,
    }
}

struct Defrag<C> {
    queues: defrag::Queues<C>,
    in_progress_tasks_count: usize,
    in_progress_tasks_limit: usize,
}

/// A deferred continuation: extra events owed from the previous step.
enum DoneTask<C> {
    Reenqueue { block_id: Id },
    ReadBlock { block_id: Id, block_bytes: Bytes },
    DeleteBlockRegular { block_id: Id, block_entry: schema::BlockEntry<C> },
    DeleteBlockDefrag { block_id: Id, block_bytes: Bytes },
}

struct BackgroundTask<C> {
    current_offset: u64,
    state: BackgroundTaskState<C>,
}

enum BackgroundTaskState<C> {
    Idle,
    InProgress { block_id: Id, interpreter_context: C },
    Await { block_id: Id },
}

struct Inner<C> {
    schema: schema::Schema<C>,
    lru_cache: lru::Cache,
    blocks_pool: pool::Blocks,
    tasks_queue: task::Queue,
    defrag: Option<Defrag<C>>,
    bg_task: BackgroundTask<C>,
    done_task: Option<DoneTask<C>>,
    pending_flush: Vec<C>,
    inflight: Ghost<Option<InflightTask>>,
    defrag_outstanding: Ghost<Multiset<u64>>,
}

impl<C> Inner<C> {
    spec fn state_owns(&self, serial: u64) -> bool {
        match self.bg_task.state {
            BackgroundTaskState::Idle => false,
            BackgroundTaskState::InProgress { block_id, .. } => block_id.serial == serial,
            BackgroundTaskState::Await { block_id } => block_id.serial == serial,
        }
    }

    /// The background slot holds a task of this block.
    spec fn owns(&self, serial: u64) -> bool {
        match self.inflight@ {
            Some(t) => !(t is Flush) && inflight_serial(t) == serial,
            None => false,
        }
    }

    /// The deferred continuation concerns this block.
    spec fn done_mentions(&self, serial: u64) -> bool {
        match self.done_task {
            Some(DoneTask::Reenqueue { block_id }) => block_id.serial == serial,
            Some(DoneTask::ReadBlock { block_id, .. }) => block_id.serial == serial,
            Some(DoneTask::DeleteBlockDefrag { block_id, .. }) => block_id.serial == serial,
            _ => false,
        }
    }

    spec fn inflight_is_for(&self, serial: u64) -> bool {
        match self.inflight@ {
            Some(t) => inflight_serial(t) == serial && (!(t is Flush)
                ==> self.schema.contains(serial) && !self.schema.is_queued_flag(serial)) && (t
                is Flush ==> serial == 0),
            None => false,
        }
    }

    /// The background slot and its ghost summary agree.
    spec fn bg_matches(&self) -> bool {
        match self.bg_task.state {
            BackgroundTaskState::Idle => self.inflight@ is None,
            BackgroundTaskState::InProgress { block_id, .. } => self.inflight_is_for(block_id.serial),
            BackgroundTaskState::Await { block_id } => self.inflight_is_for(block_id.serial),
        }
    }

    /// The writes held for the defragmentation pipeline.
    spec fn pending_writes(&self) -> Seq<proto::RequestWriteBlock<C>> {
        match self.defrag {
            Some(d) => d.queues.pending.items(),
            None => Seq::empty(),
        }
    }

    /// The task outside the machine is a relocation read of this block.
    spec fn inflight_defrag_read(&self, b: u64) -> bool {
        match self.inflight@ {
            Some(InflightTask::Read { serial, defrag }) => serial == b && defrag,
            _ => false,
        }
    }

    /// One relocation move per block: while a relocation read is queued or
    /// in flight, the record is reserved for the pipeline, its stash slot
    /// is empty, and the read is unique. The stash is therefore empty when
    /// a relocation read completes.
    spec fn moves_wf(&self) -> bool {
        forall|b: u64|
            #[trigger] self.schema.contains(b) ==> {
                &&& (self.inflight_defrag_read(b) ==> self.schema.entry_map()[b].moving
                    && self.schema.entry_map()[b].cached is None && task::defrag_read_count(
                    self.schema.fifo(b),
                ) == 0)
                &&& (task::defrag_read_count(self.schema.fifo(b)) >= 1
                    ==> self.schema.entry_map()[b].moving && self.schema.entry_map()[b].cached
                    is None && task::defrag_read_count(self.schema.fifo(b)) == 1
                    && !self.inflight_defrag_read(b))
            }
    }

    /// The ready queue and the per-block flags agree.
    spec fn queues_wf(&self) -> bool {
        &&& self.schema.wf()
        &&& forall|i: int|
            0 <= i < self.tasks_queue.items().len() ==> {
                let it = #[trigger] self.tasks_queue.items()[i];
                &&& self.schema.contains(it.serial)
                &&& it.offset == self.schema.offset_of(it.serial)
                &&& self.schema.is_queued_flag(it.serial)
            }
        &&& forall|i: int, j: int|
            0 <= i < j < self.tasks_queue.items().len() ==> (#[trigger] self.tasks_queue.items()[i]).serial != (#[trigger] self.tasks_queue.items()[j]).serial
        &&& forall|b: u64|
            #[trigger] self.schema.contains(b) && self.schema.is_queued_flag(b)
                ==> self.tasks_queue.contains_serial(b)
        &&& forall|b: u64, i: int|
            #[trigger] self.schema.contains(b) && 0 <= i < self.schema.fifo(b).len() ==> !((
            #[trigger] self.schema.fifo(b)[i]) is Flush)
    }

    /// Everything but the defragmentation accounting.
    spec fn wf_core(&self) -> bool {
        &&& self.queues_wf()
        &&& self.bg_matches()
        // a ready-queued block has a dispatchable task, unless a pending
        // continuation is about to settle it
        &&& forall|b: u64|
            #[trigger] self.schema.contains(b) && self.schema.is_queued_flag(b)
                && !self.done_mentions(b) ==> self.schema.fifo(b).len() >= 1
        // a block with pending tasks is ready-queued, owns the slot, or is
        // about to be settled by the pending continuation
        &&& forall|b: u64|
            #[trigger] self.schema.contains(b) && self.schema.fifo(b).len() > 0
                && !self.schema.is_queued_flag(b) && !self.owns(b) ==> self.done_mentions(b)
        // continuations are drained before anything is dispatched
        &&& (self.done_task is Some ==> self.bg_task.state is Idle)
        // the record carried by a delete continuation has left the schema
        &&& self.done_ok()
        &&& self.moves_wf()
    }

    /// How many outstanding tasks of the defragmentation pipeline concern
    /// this block.
    spec fn defrag_tasks_of(&self, b: u64) -> nat {
        (if self.schema.contains(b) {
            defrag_task_count(self.schema.fifo(b))
        } else {
            0nat
        }) + (match self.inflight@ {
            Some(t) => if inflight_serial(t) == b && inflight_is_defrag(t) {
                1nat
            } else {
                0nat
            },
            None => 0nat,
        }) + (match self.done_task {
            Some(DoneTask::DeleteBlockRegular { block_id, block_entry }) => if block_id.serial
                == b {
                defrag_task_count(block_entry.tasks_head.fifo@)
            } else {
                0nat
            },
            _ => 0nat,
        })
    }

    /// The defragmentation counter equals the number of outstanding
    /// defragmentation tasks, up to `slack` completions not yet accounted.
    spec fn defrag_wf(&self, slack: nat) -> bool {
        match self.defrag {
            Some(d) => {
                &&& d.in_progress_tasks_count == self.defrag_outstanding@.len() + slack
                &&& d.in_progress_tasks_count <= d.in_progress_tasks_limit
                &&& forall|b: u64|
                    #[trigger] self.defrag_outstanding@.count(b) == self.defrag_tasks_of(b)
            },
            None => true,
        }
    }

    spec fn wf(&self) -> bool {
        self.wf_core() && self.defrag_wf(0)
    }

    /// The defragmentation top-up has nothing to do: disabled, at its
    /// limit, or out of hints. Dispatch then acts on the queues as they
    /// stand.
    spec fn defrag_quiet(&self) -> bool {
        match self.defrag {
            Some(d) => d.in_progress_tasks_count >= d.in_progress_tasks_limit
                || d.queues.tasks.items().len() == 0,
            None => true,
        }
    }

    fn new(
        schema: schema::Schema<C>,
        lru_cache: lru::Cache,
        defrag: Option<Defrag<C>>,
    ) -> (r: Inner<C>)
        requires
            schema.wf(),
            schema.quiescent(),
            match defrag {
                Some(d) => d.in_progress_tasks_count == 0,
                None => true,
            },
        ensures
            r.wf(),
            r.bg_task.state is Idle,
            r.bg_task.current_offset == 0,
            r.done_task is None,
            r.inflight@ is None,
            r.tasks_queue.items().len() == 0,
            r.pending_flush@.len() == 0,
            r.schema == schema,
            r.lru_cache == lru_cache,
            r.defrag == defrag,
    {
        let r = Inner {
            schema,
            lru_cache,
            blocks_pool: pool::Blocks::new(),
            tasks_queue: task::Queue::new(),
            defrag,
            bg_task: BackgroundTask { current_offset: 0, state: BackgroundTaskState::Idle },
            done_task: None,
            pending_flush: Vec::new(),
            inflight: Ghost(None),
            defrag_outstanding: Ghost(Multiset::empty()),
        };
        proof {
            assert forall|b: u64| #[trigger] r.defrag_outstanding@.count(b) == r.defrag_tasks_of(b) by {
                if r.schema.contains(b) {
                    assert(r.schema.fifo(b).len() == 0);
                }
            }
        }
        r
    }

    /// Appends a task for a block, following the push discipline: if the
    /// block owns the background slot or is already ready-queued, the task
    /// only joins the block's FIFO; otherwise the block also enters the
    /// ready queue.
    fn push_task(&mut self, block_offset: u64, block_id: Id, kind: TaskKind<C>)
        requires
            old(self).queues_wf(),
            old(self).schema.contains(block_id.serial),
            block_offset == old(self).schema.offset_of(block_id.serial),
            !(kind is Flush),
        ensures
            final(self).queues_wf(),
            final(self).schema.fifo(block_id.serial) == old(self).schema.fifo(block_id.serial).push(kind),
            forall|b: u64| final(self).schema.contains(b) <==> old(self).schema.contains(b),
            forall|b: u64|
                b != block_id.serial && old(self).schema.contains(b) ==> final(self).schema.entry_map()[b] == old(self).schema.entry_map()[b],
            final(self).schema.is_queued_flag(block_id.serial) == (old(self).schema.is_queued_flag(block_id.serial) || !old(self).state_owns(block_id.serial)),
            final(self).schema.entry_map()[block_id.serial].offset == old(self).schema.entry_map()[block_id.serial].offset,
            final(self).schema.entry_map()[block_id.serial].header == old(self).schema.entry_map()[block_id.serial].header,
            final(self).schema.entry_map()[block_id.serial].cached == old(self).schema.entry_map()[block_id.serial].cached,
            final(self).schema.entry_map()[block_id.serial].moving == old(self).schema.entry_map()[block_id.serial].moving,
            final(self).schema.next_serial_spec() == old(self).schema.next_serial_spec(),
            final(self).bg_task == old(self).bg_task,
            final(self).done_task == old(self).done_task,
            final(self).inflight == old(self).inflight,
            final(self).lru_cache == old(self).lru_cache,
            final(self).defrag == old(self).defrag,
            final(self).pending_flush == old(self).pending_flush,
            final(self).blocks_pool == old(self).blocks_pool,
            final(self).defrag_outstanding@ == if task::kind_is_defrag(kind) {
                old(self).defrag_outstanding@.insert(block_id.serial)
            } else {
                old(self).defrag_outstanding@
            },
            final(self).tasks_queue.items() == old(self).tasks_queue.items() || final(self).tasks_queue.items() == old(self).tasks_queue.items().push(
                task::ReadyItem { offset: block_offset, serial: block_id.serial },
            ),
    {
        proof {
            if task::kind_is_defrag(kind) {
                self.defrag_outstanding = Ghost(
                    self.defrag_outstanding@.insert(block_id.serial),
                );
            }
        }
        let owned = match &self.bg_task.state {
            BackgroundTaskState::Await { block_id: owner } => owner.serial == block_id.serial,
            BackgroundTaskState::InProgress { block_id: owner, .. } => owner.serial
                == block_id.serial,
            BackgroundTaskState::Idle => false,
        };
        if owned {
            self.schema.fifo_push(block_id.serial, kind, false);
        } else if self.schema.block_is_queued(block_id.serial) {
            self.schema.fifo_push(block_id.serial, kind, false);
        } else {
            self.schema.fifo_push(block_id.serial, kind, true);
            self.tasks_queue.push(block_offset, block_id.serial);
        }
        proof {
            assert forall|i: int| 0 <= i < self.tasks_queue.items().len() implies {
                let it = #[trigger] self.tasks_queue.items()[i];
                &&& self.schema.contains(it.serial)
                &&& it.offset == self.schema.offset_of(it.serial)
                &&& self.schema.is_queued_flag(it.serial)
            } by {
                if i < old(self).tasks_queue.items().len() {
                    assert(old(self).tasks_queue.items()[i] == self.tasks_queue.items()[i]);
                }
            }
            assert forall|b: u64|
                #[trigger] self.schema.contains(b) && self.schema.is_queued_flag(b) implies
                self.tasks_queue.contains_serial(b) by {
                if b == block_id.serial && !old(self).schema.is_queued_flag(b) {
                    let n = self.tasks_queue.items().len() - 1;
                    assert(self.tasks_queue.items()[n].serial == b);
                } else {
                    assert(old(self).schema.is_queued_flag(b));
                    let i = choose|i: int|
                        0 <= i < old(self).tasks_queue.items().len() && old(self).tasks_queue.items()[i].serial == b;
                    assert(self.tasks_queue.items()[i].serial == b);
                }
            }
            assert forall|b: u64, i: int|
                #[trigger] self.schema.contains(b) && 0 <= i < self.schema.fifo(b).len() implies
                !((#[trigger] self.schema.fifo(b)[i]) is Flush) by {
                if b == block_id.serial {
                    assert(self.schema.fifo(b) == old(self).schema.fifo(b).push(kind));
                    if i < old(self).schema.fifo(b).len() {
                        assert(old(self).schema.contains(b));
                        assert(!(old(self).schema.fifo(b)[i] is Flush));
                        assert(self.schema.fifo(b)[i] == old(self).schema.fifo(b)[i]);
                    } else {
                        assert(i == old(self).schema.fifo(b).len());
                        assert(self.schema.fifo(b)[i] == kind);
                    }
                } else {
                    assert(old(self).schema.contains(b));
                    assert(self.schema.entry_map()[b] == old(self).schema.entry_map()[b]);
                    assert(!(old(self).schema.fifo(b)[i] is Flush));
                }
            }
            assert forall|i: int, j: int|
                0 <= i < j < self.tasks_queue.items().len() implies (
            #[trigger] self.tasks_queue.items()[i]).serial != (#[trigger] self.tasks_queue.items()[j]).serial by {
                if j == self.tasks_queue.items().len() - 1 && self.tasks_queue.items().len() > old(self).tasks_queue.items().len() {
                    // the new entry is a block that was not queued before
                    assert(self.tasks_queue.items()[i] == old(self).tasks_queue.items()[i]);
                    assert(old(self).schema.is_queued_flag(old(self).tasks_queue.items()[i].serial));
                }
            }
        }
    }
}

/// Configuration of the defragmentation pipeline: how many moves may be
/// outstanding at once.
pub struct DefragConfig<C> {
    queues: defrag::Queues<C>,
    in_progress_tasks_limit: usize,
}

impl<C> DefragConfig<C> {
    /// The configured ceiling on outstanding relocation moves.
    pub closed spec fn limit_spec(&self) -> usize {
        self.in_progress_tasks_limit
    }

    /// A fresh configuration carries no queued work.
    pub closed spec fn hints_empty(&self) -> bool {
        self.queues.tasks.items().len() == 0 && self.queues.pending.items().len() == 0
    }

    pub fn new(in_progress_tasks_limit: usize) -> (r: DefragConfig<C>)
        ensures
            r.limit_spec() == in_progress_tasks_limit,
            r.hints_empty(),
    {
        DefragConfig { queues: defrag::Queues::new(), in_progress_tasks_limit }
    }
}

/// The performer between steps. Consumed by [`Performer::next`] and handed
/// back inside the returned operation.
pub struct Performer<C> {
    inner: Inner<C>,
}

/// What the performer asks of its driver next.
pub enum Op<C> {
    Idle(Performer<C>),
    Query(QueryOp<C>),
    Event(Event<C>),
}

pub enum QueryOp<C> {
    PollRequestAndInterpreter(PollRequestAndInterpreter<C>),
    PollRequest(PollRequest<C>),
    InterpretTask(InterpretTask<C>),
}

/// A task is in flight: feed the next request or the completion,
/// whichever comes first.
pub struct PollRequestAndInterpreter<C> {
    pub interpreter_context: C,
    pub next: PollRequestAndInterpreterNext<C>,
}

/// Nothing is in flight: feed the next request.
pub struct PollRequest<C> {
    pub next: PollRequestNext<C>,
}

/// A client-visible reply, with the performer to continue with.
pub struct Event<C> {
    pub op: EventOp<C>,
    pub performer: Performer<C>,
}

pub enum EventOp<C> {
    Info(TaskDoneOp<C, InfoOp>),
    Flush(TaskDoneOp<C, FlushOp>),
    LendBlock(TaskDoneOp<C, LendBlockOp>),
    WriteBlock(TaskDoneOp<C, WriteBlockOp>),
    ReadBlock(TaskDoneOp<C, ReadBlockOp>),
    DeleteBlock(TaskDoneOp<C, DeleteBlockOp>),
}

/// A reply paired with the caller-supplied context it answers.
pub struct TaskDoneOp<C, O> {
    pub context: C,
    pub op: O,
}

pub enum InfoOp {
    Success { info: schema::WheelInfo },
}

pub enum FlushOp {
    Flushed,
}

pub enum LendBlockOp {
    Success { block_bytes: BytesMut },
}

pub enum WriteBlockOp {
    NoSpaceLeft,
    Done { block_id: Id },
}

pub enum ReadBlockOp {
    NotFound,
    Done { block_bytes: Bytes },
}

pub enum DeleteBlockOp {
    NotFound,
    Done { block_id: Id },
}

/// A task for the interpreter; the driver confirms the handoff with
/// `task_accepted`.
pub struct InterpretTask<C> {
    pub offset: u64,
    pub task: task::Task<C>,
    pub next: InterpretTaskNext<C>,
}

pub struct InterpretTaskNext<C> {
    inner: Inner<C>,
}

pub struct PollRequestAndInterpreterNext<C> {
    inner: Inner<C>,
}

pub struct PollRequestNext<C> {
    inner: Inner<C>,
}

impl<C> Performer<C> {
    /// The machine is consistent: every proved invariant of the core holds.
    pub closed spec fn wf(&self) -> bool {
        self.inner.wf() && !(self.inner.bg_task.state is Await)
    }

    pub closed spec fn has_block(&self, serial: u64) -> bool {
        self.inner.schema.contains(serial)
    }

    pub closed spec fn block_id_bound(&self) -> u64 {
        self.inner.schema.next_serial_spec()
    }

    pub closed spec fn cache_contents(&self) -> Map<u64, Seq<u8>> {
        self.inner.lru_cache.contents()
    }

    /// The background slot is empty.
    pub closed spec fn background_idle(&self) -> bool {
        self.inner.bg_task.state is Idle
    }

    /// A task has been handed over and not yet confirmed or completed.
    pub closed spec fn background_awaiting(&self) -> bool {
        self.inner.bg_task.state is Await
    }

    /// A task is with the interpreter.
    pub closed spec fn background_in_progress(&self) -> bool {
        self.inner.bg_task.state is InProgress
    }

    /// How many tasks are outside the machine right now: zero or one.
    pub closed spec fn outstanding_interpreter_tasks(&self) -> nat {
        if self.inner.inflight@ is Some {
            1
        } else {
            0
        }
    }

    /// How many tasks wait in this block's FIFO.
    pub closed spec fn queued_task_count(&self, serial: u64) -> nat {
        if self.inner.schema.contains(serial) {
            self.inner.schema.fifo(serial).len()
        } else {
            0
        }
    }

    /// The block sits in the global ready queue.
    pub closed spec fn ready_queued(&self, serial: u64) -> bool {
        self.inner.schema.contains(serial) && self.inner.schema.is_queued_flag(serial)
    }

    /// The task outside the machine belongs to this block.
    pub closed spec fn background_owns(&self, serial: u64) -> bool {
        self.inner.owns(serial)
    }

    pub closed spec fn inflight_task_count_for(&self, serial: u64) -> nat {
        if self.inner.owns(serial) {
            1
        } else {
            0
        }
    }

    /// Events are still owed from the previous step.
    pub closed spec fn fanout_pending(&self) -> bool {
        self.inner.done_task is Some
    }

    pub closed spec fn defrag_enabled(&self) -> bool {
        self.inner.defrag is Some
    }

    /// The defragmentation pipeline's counter of moves in progress.
    pub closed spec fn defrag_in_progress_count(&self) -> nat {
        match self.inner.defrag {
            Some(d) => d.in_progress_tasks_count as nat,
            None => 0,
        }
    }

    /// The outstanding defragmentation tasks, one occurrence per task,
    /// tagged by the block they concern.
    pub closed spec fn defrag_outstanding_tasks(&self) -> Multiset<u64> {
        self.inner.defrag_outstanding@
    }

    /// How many tasks queued or in flight for this block belong to the
    /// defragmentation pipeline.
    pub closed spec fn defrag_tasks_of(&self, serial: u64) -> nat {
        self.inner.defrag_tasks_of(serial)
    }

    /// The configured ceiling on outstanding relocation moves.
    pub closed spec fn defrag_limit(&self) -> nat {
        match self.inner.defrag {
            Some(d) => d.in_progress_tasks_limit as nat,
            None => 0,
        }
    }

    /// The ghost summary of the task outside the machine, if any.
    pub closed spec fn inflight_info(&self) -> Option<InflightTask> {
        self.inner.inflight@
    }

    /// The interpreter context stored for the running task, if any.
    pub closed spec fn in_progress_context(&self) -> Option<C> {
        match self.inner.bg_task.state {
            BackgroundTaskState::InProgress { interpreter_context, .. } => Some(
                interpreter_context,
            ),
            _ => None,
        }
    }

    /// Where the interpreter's head was last reported.
    pub closed spec fn head_offset(&self) -> u64 {
        self.inner.bg_task.current_offset
    }

    /// This block's FIFO of pending tasks.
    pub closed spec fn block_fifo(&self, serial: u64) -> Seq<TaskKind<C>> {
        self.inner.schema.fifo(serial)
    }

    pub closed spec fn ready_queue_empty(&self) -> bool {
        self.inner.tasks_queue.items().len() == 0
    }

    pub closed spec fn ready_queue(&self) -> Seq<task::ReadyItem> {
        self.inner.tasks_queue.items()
    }

    pub closed spec fn pending_flush(&self) -> Seq<C> {
        self.inner.pending_flush@
    }

    pub closed spec fn block_stash(&self, serial: u64) -> Option<Seq<u8>> {
        match self.inner.schema.entry_map()[serial].cached {
            Some(c) => Some(c@),
            None => None,
        }
    }

    pub closed spec fn no_pending_flush(&self) -> bool {
        self.inner.pending_flush@.len() == 0
    }

    pub closed spec fn defrag_hints_empty(&self) -> bool {
        match self.inner.defrag {
            Some(d) => d.queues.tasks.items().len() == 0,
            None => true,
        }
    }

    /// Nothing to do: no owed fan-out, an empty background slot, no ready
    /// block, no pending flush and no queued defragmentation hint. A poke
    /// of a quiescent machine polls for the next request.
    pub open spec fn quiescent(&self) -> bool {
        &&& !self.fanout_pending()
        &&& self.background_idle()
        &&& self.ready_queue_empty()
        &&& self.no_pending_flush()
        &&& self.defrag_hints_empty()
    }
}

impl<C> PollRequestNext<C> {
    pub closed spec fn wf(&self) -> bool {
        self.inner.wf() && self.inner.bg_task.state is Idle && self.inner.done_task is None
    }

    pub closed spec fn inflight_info(&self) -> Option<InflightTask> {
        self.inner.inflight@
    }

    pub closed spec fn has_block(&self, serial: u64) -> bool {
        self.inner.schema.contains(serial)
    }

    pub closed spec fn block_id_bound(&self) -> u64 {
        self.inner.schema.next_serial_spec()
    }

    pub closed spec fn cache_contents(&self) -> Map<u64, Seq<u8>> {
        self.inner.lru_cache.contents()
    }

    pub closed spec fn head_offset(&self) -> u64 {
        self.inner.bg_task.current_offset
    }

    pub closed spec fn block_fifo(&self, serial: u64) -> Seq<TaskKind<C>> {
        self.inner.schema.fifo(serial)
    }

    /// The payload stashed in a block's record for its relocation.
    pub closed spec fn block_stash(&self, serial: u64) -> Option<Seq<u8>> {
        match self.inner.schema.entry_map()[serial].cached {
            Some(c) => Some(c@),
            None => None,
        }
    }

    pub closed spec fn pending_flush(&self) -> Seq<C> {
        self.inner.pending_flush@
    }

    pub closed spec fn defrag_pending(&self) -> Seq<proto::RequestWriteBlock<C>> {
        self.inner.pending_writes()
    }

    pub closed spec fn ready_queue(&self) -> Seq<task::ReadyItem> {
        self.inner.tasks_queue.items()
    }

    pub closed spec fn can_alloc(&self, need: int) -> bool {
        self.inner.schema.can_alloc(need)
    }

    pub closed spec fn may_defrag(&self, need: int) -> bool {
        self.inner.schema.may_defrag(need)
    }

    pub closed spec fn write_fits_gap(&self, need: int) -> bool {
        self.inner.schema.fits_gap(need)
    }

    pub closed spec fn defrag_enabled(&self) -> bool {
        self.inner.defrag is Some
    }

    pub closed spec fn size_limit(&self) -> u64 {
        self.inner.schema.size_limit_spec()
    }

    pub closed spec fn tail_offset(&self) -> u64 {
        self.inner.schema.tail_spec()
    }

    pub closed spec fn block_count(&self) -> nat {
        self.inner.schema.entry_map().dom().len()
    }

    pub closed spec fn gap_count(&self) -> nat {
        self.inner.schema.gaps_spec().len()
    }
}

impl<C> PollRequestAndInterpreterNext<C> {
    pub closed spec fn wf(&self) -> bool {
        self.inner.wf() && self.inner.bg_task.state is Await && self.inner.done_task is None
    }

    /// The ghost summary of the task the driver owes a completion for.
    pub closed spec fn inflight_info(&self) -> Option<InflightTask> {
        self.inner.inflight@
    }

    pub closed spec fn defrag_in_progress_count(&self) -> nat {
        match self.inner.defrag {
            Some(d) => d.in_progress_tasks_count as nat,
            None => 0,
        }
    }

    pub closed spec fn has_block(&self, serial: u64) -> bool {
        self.inner.schema.contains(serial)
    }

    pub closed spec fn block_id_bound(&self) -> u64 {
        self.inner.schema.next_serial_spec()
    }

    pub closed spec fn cache_contents(&self) -> Map<u64, Seq<u8>> {
        self.inner.lru_cache.contents()
    }

    pub closed spec fn head_offset(&self) -> u64 {
        self.inner.bg_task.current_offset
    }

    pub closed spec fn block_fifo(&self, serial: u64) -> Seq<TaskKind<C>> {
        self.inner.schema.fifo(serial)
    }

    /// The payload stashed in a block's record for its relocation.
    pub closed spec fn block_stash(&self, serial: u64) -> Option<Seq<u8>> {
        match self.inner.schema.entry_map()[serial].cached {
            Some(c) => Some(c@),
            None => None,
        }
    }

    pub closed spec fn pending_flush(&self) -> Seq<C> {
        self.inner.pending_flush@
    }

    pub closed spec fn defrag_pending(&self) -> Seq<proto::RequestWriteBlock<C>> {
        self.inner.pending_writes()
    }

    pub closed spec fn ready_queue(&self) -> Seq<task::ReadyItem> {
        self.inner.tasks_queue.items()
    }

    pub closed spec fn can_alloc(&self, need: int) -> bool {
        self.inner.schema.can_alloc(need)
    }

    pub closed spec fn may_defrag(&self, need: int) -> bool {
        self.inner.schema.may_defrag(need)
    }

    pub closed spec fn write_fits_gap(&self, need: int) -> bool {
        self.inner.schema.fits_gap(need)
    }

    pub closed spec fn defrag_enabled(&self) -> bool {
        self.inner.defrag is Some
    }

    pub closed spec fn size_limit(&self) -> u64 {
        self.inner.schema.size_limit_spec()
    }

    pub closed spec fn tail_offset(&self) -> u64 {
        self.inner.schema.tail_spec()
    }

    pub closed spec fn block_count(&self) -> nat {
        self.inner.schema.entry_map().dom().len()
    }

    pub closed spec fn gap_count(&self) -> nat {
        self.inner.schema.gaps_spec().len()
    }
}

impl<C> InterpretTaskNext<C> {
    pub closed spec fn wf(&self) -> bool {
        self.inner.wf() && self.inner.bg_task.state is Await && self.inner.done_task is None
    }

    pub closed spec fn has_block(&self, serial: u64) -> bool {
        self.inner.schema.contains(serial)
    }

    pub closed spec fn block_id_bound(&self) -> u64 {
        self.inner.schema.next_serial_spec()
    }

    pub closed spec fn cache_contents(&self) -> Map<u64, Seq<u8>> {
        self.inner.lru_cache.contents()
    }

    /// The ghost summary of the task this handle handed out.
    pub closed spec fn inflight_info(&self) -> Option<InflightTask> {
        self.inner.inflight@
    }

    pub closed spec fn head_offset(&self) -> u64 {
        self.inner.bg_task.current_offset
    }

    pub closed spec fn defrag_in_progress_count(&self) -> nat {
        match self.inner.defrag {
            Some(d) => d.in_progress_tasks_count as nat,
            None => 0,
        }
    }

    pub closed spec fn pending_flush(&self) -> Seq<C> {
        self.inner.pending_flush@
    }

    pub closed spec fn ready_queue(&self) -> Seq<task::ReadyItem> {
        self.inner.tasks_queue.items()
    }

    pub closed spec fn block_fifo(&self, serial: u64) -> Seq<TaskKind<C>> {
        self.inner.schema.fifo(serial)
    }
}

/// The machine wherever it sits inside an operation is consistent.
pub closed spec fn op_wf<C>(op: Op<C>) -> bool {
    match op {
        Op::Idle(p) => p.wf(),
        Op::Event(e) => e.performer.wf(),
        Op::Query(q) => match q {
            QueryOp::PollRequestAndInterpreter(x) => x.next.wf(),
            QueryOp::PollRequest(x) => x.next.wf(),
            QueryOp::InterpretTask(x) => x.next.wf() && x.next.inner.inflight@ == Some(
                summary_of_kind(x.task.block_id.serial, x.task.kind),
            ),
        },
    }
}

pub closed spec fn op_has_block<C>(op: Op<C>, serial: u64) -> bool {
    op_inner_view(op).schema.contains(serial)
}

pub closed spec fn op_block_id_bound<C>(op: Op<C>) -> u64 {
    op_inner_view(op).schema.next_serial_spec()
}

pub closed spec fn op_cache<C>(op: Op<C>) -> Map<u64, Seq<u8>> {
    op_inner_view(op).lru_cache.contents()
}

/// The defragmentation pipeline's counter of moves in progress, wherever
/// the machine sits inside the operation.
pub closed spec fn op_defrag_in_progress<C>(op: Op<C>) -> nat {
    match op_inner_view(op).defrag {
        Some(d) => d.in_progress_tasks_count as nat,
        None => 0,
    }
}

/// The ghost summary of the task outside the machine after the step.
pub closed spec fn op_inflight<C>(op: Op<C>) -> Option<InflightTask> {
    op_inner_view(op).inflight@
}

/// Where the interpreter's head was last reported, after the step.
pub closed spec fn op_head_offset<C>(op: Op<C>) -> u64 {
    op_inner_view(op).bg_task.current_offset
}

/// The interpreter context stored for the running task, after the step.
pub closed spec fn op_stored_context<C>(op: Op<C>) -> Option<C> {
    match op_inner_view(op).bg_task.state {
        BackgroundTaskState::InProgress { interpreter_context, .. } => Some(interpreter_context),
        _ => None,
    }
}

/// This block's FIFO of pending tasks, after the step.
pub closed spec fn op_block_fifo<C>(op: Op<C>, serial: u64) -> Seq<TaskKind<C>> {
    op_inner_view(op).schema.fifo(serial)
}

/// Whether the step leaves fan-out owed: further pokes will deliver it.
pub closed spec fn op_fanout_pending<C>(op: Op<C>) -> bool {
    op_inner_view(op).done_task is Some
}

/// The payload stashed in a block's record for its relocation, after the
/// step.
pub closed spec fn op_block_stash<C>(op: Op<C>, serial: u64) -> Option<Seq<u8>> {
    match op_inner_view(op).schema.entry_map()[serial].cached {
        Some(c) => Some(c@),
        None => None,
    }
}

/// The contexts waiting for a flush barrier, after the step.
pub closed spec fn op_pending_flush<C>(op: Op<C>) -> Seq<C> {
    op_inner_view(op).pending_flush@
}

/// The writes held for the defragmentation pipeline, after the step.
pub closed spec fn op_defrag_pending<C>(op: Op<C>) -> Seq<proto::RequestWriteBlock<C>> {
    match op_inner_view(op).defrag {
        Some(d) => d.queues.pending.items(),
        None => Seq::empty(),
    }
}

/// The defragmentation pipeline is topped up: disabled, at its ceiling, or
/// out of hints. Every poke leaves the machine in this state.
pub closed spec fn op_defrag_topped_up<C>(op: Op<C>) -> bool {
    op_inner_view(op).defrag_quiet()
}

/// The global ready queue, after the step.
pub closed spec fn op_ready_queue<C>(op: Op<C>) -> Seq<task::ReadyItem> {
    op_inner_view(op).tasks_queue.items()
}

spec fn op_inner_view<C>(op: Op<C>) -> Inner<C> {
    match op {
        Op::Idle(p) => p.inner,
        Op::Event(e) => e.performer.inner,
        Op::Query(q) => match q {
            QueryOp::PollRequestAndInterpreter(x) => x.next.inner,
            QueryOp::PollRequest(x) => x.next.inner,
            QueryOp::InterpretTask(x) => x.next.inner,
        },
    }
}

pub open spec fn op_is_idle<C>(op: Op<C>) -> bool {
    op is Idle
}

pub open spec fn op_event_info<C>(
    op: Op<C>,
    context: C,
    size_limit: u64,
    tail_offset: u64,
    blocks_count: nat,
    gaps_count: nat,
) -> bool {
    match op {
        Op::Event(e) => match e.op {
            EventOp::Info(td) => td.context == context && match td.op {
                InfoOp::Success { info } => info.size_limit == size_limit && info.tail_offset
                    == tail_offset && info.blocks_count == blocks_count && info.gaps_count
                    == gaps_count,
            },
            _ => false,
        },
        _ => false,
    }
}

pub open spec fn op_event_flushed<C>(op: Op<C>, context: C) -> bool {
    match op {
        Op::Event(e) => match e.op {
            EventOp::Flush(td) => td.context == context && td.op is Flushed,
            _ => false,
        },
        _ => false,
    }
}

pub open spec fn op_event_lend_success<C>(op: Op<C>, context: C) -> bool {
    match op {
        Op::Event(e) => match e.op {
            EventOp::LendBlock(td) => td.context == context && match td.op {
                LendBlockOp::Success { block_bytes } => block_bytes@.len() == 0,
            },
            _ => false,
        },
        _ => false,
    }
}

pub open spec fn op_event_write_done<C>(op: Op<C>, context: C, serial: u64) -> bool {
    match op {
        Op::Event(e) => match e.op {
            EventOp::WriteBlock(td) => td.context == context && match td.op {
                WriteBlockOp::Done { block_id } => block_id.serial == serial,
                _ => false,
            },
            _ => false,
        },
        _ => false,
    }
}

pub open spec fn op_event_write_no_space<C>(op: Op<C>, context: C) -> bool {
    match op {
        Op::Event(e) => match e.op {
            EventOp::WriteBlock(td) => td.context == context && td.op is NoSpaceLeft,
            _ => false,
        },
        _ => false,
    }
}

pub open spec fn op_event_read_done<C>(op: Op<C>, context: C, bytes: Seq<u8>) -> bool {
    match op {
        Op::Event(e) => match e.op {
            EventOp::ReadBlock(td) => td.context == context && match td.op {
                ReadBlockOp::Done { block_bytes } => block_bytes@ == bytes,
                _ => false,
            },
            _ => false,
        },
        _ => false,
    }
}

pub open spec fn op_event_read_not_found<C>(op: Op<C>, context: C) -> bool {
    match op {
        Op::Event(e) => match e.op {
            EventOp::ReadBlock(td) => td.context == context && td.op is NotFound,
            _ => false,
        },
        _ => false,
    }
}

pub open spec fn op_event_delete_done<C>(op: Op<C>, context: C, serial: u64) -> bool {
    match op {
        Op::Event(e) => match e.op {
            EventOp::DeleteBlock(td) => td.context == context && match td.op {
                DeleteBlockOp::Done { block_id } => block_id.serial == serial,
                _ => false,
            },
            _ => false,
        },
        _ => false,
    }
}

pub open spec fn op_event_delete_not_found<C>(op: Op<C>, context: C) -> bool {
    match op {
        Op::Event(e) => match e.op {
            EventOp::DeleteBlock(td) => td.context == context && td.op is NotFound,
            _ => false,
        },
        _ => false,
    }
}

/// The one live block a request may queue work on.
pub open spec fn request_concerns<C>(request: proto::Request<C>, b: u64) -> bool {
    match request {
        proto::Request::ReadBlock(r) => r.block_id.serial == b,
        proto::Request::DeleteBlock(r) => r.block_id.serial == b,
        _ => false,
    }
}

/// What a step owes for an incoming request: consistency, preservation of
/// the block directory and the cache, and the exact reply for every
/// request that is answered at once.
spec fn inner_request_response<C>(pre: Inner<C>, request: proto::Request<C>, op: Op<C>) -> bool {
    &&& op_wf(op)
    &&& op_block_id_bound(op) == (match request {
        proto::Request::WriteBlock(r) => if pre.schema.can_alloc(r.block_bytes@.len() as int) {
            pre.schema.next_serial_spec() + 1
        } else {
            pre.schema.next_serial_spec() as int
        },
        _ => pre.schema.next_serial_spec() as int,
    })
    &&& forall|b: u64|
        b < pre.schema.next_serial_spec() ==> op_has_block(op, b) == pre.schema.contains(b)
    &&& op_cache(op) == pre.lru_cache.contents()
    &&& op_inflight(op) == pre.inflight@
    &&& op_head_offset(op) == pre.bg_task.current_offset
    &&& op_pending_flush(op) == (match request {
        proto::Request::Flush(r) => pre.pending_flush@.push(r.context),
        _ => pre.pending_flush@,
    })
    &&& op_defrag_pending(op) == (match request {
        proto::Request::WriteBlock(r) => if pre.schema.may_defrag(r.block_bytes@.len() as int)
            && pre.defrag is Some {
            pre.pending_writes().push(r)
        } else {
            pre.pending_writes()
        },
        _ => pre.pending_writes(),
    })
    &&& (forall|b: u64|
        pre.schema.contains(b) && !request_concerns(request, b) ==> op_block_fifo(op, b)
            == pre.schema.fifo(b))
    &&& (op_ready_queue(op) == pre.tasks_queue.items() || exists|it: task::ReadyItem|
        op_ready_queue(op) == pre.tasks_queue.items().push(it))
    &&& match request {
        proto::Request::Info(r) => op_event_info(
            op,
            r.context,
            pre.schema.size_limit_spec(),
            pre.schema.tail_spec(),
            pre.schema.entry_map().dom().len(),
            pre.schema.gaps_spec().len(),
        ),
        proto::Request::Flush(_) => op_is_idle(op),
        proto::Request::LendBlock(r) => op_event_lend_success(op, r.context),
        proto::Request::RepayBlock(_) => op_is_idle(op),
        proto::Request::WriteBlock(r) => if pre.schema.can_alloc(r.block_bytes@.len() as int) {
            let fresh = pre.schema.next_serial_spec();
            &&& op_is_idle(op)
            &&& op_has_block(op, fresh)
            &&& op_block_fifo(op, fresh) == seq![
                TaskKind::<C>::WriteBlock(
                    task::WriteBlock {
                        block_bytes: r.block_bytes,
                        commit_type: if pre.schema.fits_gap(r.block_bytes@.len() as int) {
                            task::CommitType::CommitOnly
                        } else {
                            task::CommitType::CommitAndEof
                        },
                        context: task::WriteBlockContext::External(r.context),
                    },
                ),
            ]
        } else if pre.schema.may_defrag(r.block_bytes@.len() as int) && pre.defrag is Some {
            op_is_idle(op)
        } else {
            op_event_write_no_space(op, r.context)
        },
        proto::Request::ReadBlock(r) => if !pre.schema.contains(r.block_id.serial) {
            op_event_read_not_found(op, r.context)
        } else if pre.schema.entry_map()[r.block_id.serial].cached is Some {
            &&& op_event_read_done(
                op,
                r.context,
                pre.schema.entry_map()[r.block_id.serial].cached->Some_0@,
            )
            &&& op_block_fifo(op, r.block_id.serial) == pre.schema.fifo(r.block_id.serial)
        } else if pre.lru_cache.contents().contains_key(r.block_id.serial) {
            &&& op_event_read_done(op, r.context, pre.lru_cache.contents()[r.block_id.serial])
            &&& op_block_fifo(op, r.block_id.serial) == pre.schema.fifo(r.block_id.serial)
        } else {
            &&& op_is_idle(op)
            &&& (exists|buf: BytesMut|
                buf@.len() == 0 && op_block_fifo(op, r.block_id.serial) == pre.schema.fifo(
                    r.block_id.serial,
                ).push(
                    TaskKind::<C>::ReadBlock(
                        task::ReadBlock {
                            block_header: pre.schema.entry_map()[r.block_id.serial].header,
                            block_bytes: buf,
                            context: task::ReadBlockContext::External(r.context),
                        },
                    ),
                ))
        },
        proto::Request::DeleteBlock(r) => if pre.schema.contains(r.block_id.serial) {
            &&& op_is_idle(op)
            &&& op_block_fifo(op, r.block_id.serial) == pre.schema.fifo(r.block_id.serial).push(
                TaskKind::<C>::DeleteBlock(
                    task::DeleteBlock {
                        context: task::DeleteBlockContext::External(r.context),
                    },
                ),
            )
        } else {
            op_event_delete_not_found(op, r.context)
        },
    }
}

/// What a step owes for an interpreter completion: consistency and the
/// exact reply, with the block directory and the cache updated as the
/// completed task demands.
spec fn inner_done_response<C>(pre: Inner<C>, done: task::Done<C>, op: Op<C>) -> bool {
    let serial = done.task.block_id.serial;
    &&& op_wf(op)
    &&& op_block_id_bound(op) == pre.schema.next_serial_spec()
    &&& op_head_offset(op) == done.current_offset
    &&& op_inflight(op) is None
    &&& op_fanout_pending(op) == !(done.task.kind is Flush)
    &&& op_pending_flush(op) == pre.pending_flush@
    &&& op_defrag_pending(op) == pre.pending_writes()
    &&& (forall|b: u64|
        b != done.task.block_id.serial && pre.schema.contains(b) ==> op_block_fifo(op, b)
            == pre.schema.fifo(b))
    &&& (op_ready_queue(op) == pre.tasks_queue.items() || exists|it: task::ReadyItem|
        op_ready_queue(op) == pre.tasks_queue.items().push(it))
    &&& match done.task.kind {
        task::TaskDoneKind::WriteBlock(w) => {
            &&& (forall|b: u64| op_has_block(op, b) == pre.schema.contains(b))
            &&& op_cache(op) == pre.lru_cache.contents()
            &&& match w.context {
                task::WriteBlockContext::External(c) => op_event_write_done(op, c, serial),
                task::WriteBlockContext::Defrag => op_is_idle(op) && (pre.defrag is Some
                    ==> op_defrag_in_progress(op)
                    == pre.defrag->Some_0.in_progress_tasks_count - 1),
            }
        },
        task::TaskDoneKind::ReadBlock(r) => {
            &&& (forall|b: u64| op_has_block(op, b) == pre.schema.contains(b))
            &&& op_cache(op) == pre.lru_cache.contents().insert(serial, r.block_bytes@)
            &&& match r.context {
                task::ReadBlockContext::External(c) => op_event_read_done(op, c, r.block_bytes@),
                task::ReadBlockContext::Defrag { space_key } => {
                    &&& op_is_idle(op)
                    &&& (pre.defrag is Some ==> op_defrag_in_progress(op)
                        == pre.defrag->Some_0.in_progress_tasks_count)
                    &&& op_block_stash(op, serial) == Some(r.block_bytes@)
                    &&& op_block_fifo(op, serial) == pre.schema.fifo(serial).push(
                        TaskKind::<C>::DeleteBlock(
                            task::DeleteBlock {
                                context: task::DeleteBlockContext::Defrag { space_key },
                            },
                        ),
                    )
                },
            }
        },
        task::TaskDoneKind::DeleteBlock(d) => match d.context {
            task::DeleteBlockContext::External(c) => {
                &&& op_event_delete_done(op, c, serial)
                &&& !op_has_block(op, serial)
                &&& (forall|b: u64|
                    b != serial ==> op_has_block(op, b) == pre.schema.contains(b))
                &&& op_cache(op) == pre.lru_cache.contents().remove(serial)
            },
            task::DeleteBlockContext::Defrag { .. } => {
                &&& op_is_idle(op)
                &&& (forall|b: u64| op_has_block(op, b) == pre.schema.contains(b))
                &&& op_cache(op) == pre.lru_cache.contents()
            },
        },
        task::TaskDoneKind::Flush(f) => {
            &&& op_event_flushed(op, f.context)
            &&& (forall|b: u64| op_has_block(op, b) == pre.schema.contains(b))
            &&& op_cache(op) == pre.lru_cache.contents()
        },
    }
}

/// What a poke owes: consistency, and the block directory, cache and head
/// position untouched.
spec fn inner_step_response<C>(pre: Inner<C>, op: Op<C>) -> bool {
    &&& op_wf(op)
    &&& op_block_id_bound(op) == pre.schema.next_serial_spec()
    &&& forall|b: u64| op_has_block(op, b) == pre.schema.contains(b)
    &&& op_cache(op) == pre.lru_cache.contents()
    &&& op_head_offset(op) == pre.bg_task.current_offset
}

/// What dispatch produces, as a function of the pre-state: a task in
/// flight is polled for together with the next request, handing back its
/// stored context; an empty slot dispatches the ready block with the least
/// seek cost, then a pending flush barrier, and otherwise polls for a
/// request. While the defragmentation top-up has work, the dispatched task
/// may also be one of its reads, so only the query shape is pinned.
spec fn dispatch_outcome<C>(pre: Inner<C>, op: Op<C>) -> bool {
    &&& op_defrag_topped_up(op)
    &&& match pre.bg_task.state {
        BackgroundTaskState::InProgress { block_id, interpreter_context } => match op {
            Op::Query(QueryOp::PollRequestAndInterpreter(x)) => x.interpreter_context
                == interpreter_context && x.next.inner.inflight@ == pre.inflight@,
            _ => false,
        },
        BackgroundTaskState::Idle => if pre.defrag_quiet() {
            if pre.tasks_queue.items().len() > 0 {
                match op {
                    Op::Query(QueryOp::InterpretTask(x)) => {
                        &&& exists|i: int|
                            0 <= i < pre.tasks_queue.items().len()
                                && (#[trigger] pre.tasks_queue.items()[i]) == (task::ReadyItem {
                                offset: x.offset,
                                serial: x.task.block_id.serial,
                            })
                        &&& forall|j: int|
                            0 <= j < pre.tasks_queue.items().len() ==> task::seek_rank(
                                pre.bg_task.current_offset,
                                x.offset,
                            ) <= task::seek_rank(
                                pre.bg_task.current_offset,
                                (#[trigger] pre.tasks_queue.items()[j]).offset,
                            )
                        &&& pre.schema.fifo(x.task.block_id.serial).len() > 0
                        &&& x.task.kind == pre.schema.fifo(x.task.block_id.serial)[0]
                        // the dispatched task leaves the queues: no redelivery
                        &&& x.next.inner.schema.fifo(x.task.block_id.serial) == pre.schema.fifo(
                            x.task.block_id.serial,
                        ).remove(0)
                        &&& !x.next.inner.schema.is_queued_flag(x.task.block_id.serial)
                        &&& x.next.inner.tasks_queue.items().len() == pre.tasks_queue.items().len()
                            - 1
                    },
                    _ => false,
                }
            } else if pre.pending_flush@.len() > 0 {
                match op {
                    Op::Query(QueryOp::InterpretTask(x)) => match x.task.kind {
                        TaskKind::Flush(f) => f.context == pre.pending_flush@[0] && x.offset
                            == pre.bg_task.current_offset,
                        _ => false,
                    },
                    _ => false,
                }
            } else {
                op matches Op::Query(QueryOp::PollRequest(_))
            }
        } else {
            op is Query
        },
        BackgroundTaskState::Await { .. } => true,
    }
}

/// What a poke produces, as a function of the pre-state: first any owed
/// fan-out event of the previous step, then dispatch.
spec fn poke_outcome<C>(pre: Inner<C>, op: Op<C>) -> bool {
    match pre.done_task {
        None => dispatch_outcome(pre, op),
        Some(DoneTask::Reenqueue { .. }) => op is Query && op_defrag_topped_up(op),
        Some(DoneTask::ReadBlock { block_id, block_bytes }) => if pre.schema.contains(
            block_id.serial,
        ) {
            match task::first_read(pre.schema.fifo(block_id.serial)) {
                Some(rb) => match rb.context {
                    task::ReadBlockContext::External(c) => op_event_read_done(
                        op,
                        c,
                        block_bytes@,
                    ) && op_fanout_pending(op),
                    task::ReadBlockContext::Defrag { space_key } => {
                        &&& op_is_idle(op)
                        &&& op_block_stash(op, block_id.serial) == Some(block_bytes@)
                        &&& (exists|i: int|
                            0 <= i < pre.schema.fifo(block_id.serial).len()
                                && pre.schema.fifo(block_id.serial)[i]
                                == TaskKind::<C>::ReadBlock(rb) && op_block_fifo(
                                op,
                                block_id.serial,
                            ) == pre.schema.fifo(block_id.serial).remove(i).push(
                                TaskKind::<C>::DeleteBlock(
                                    task::DeleteBlock {
                                        context: task::DeleteBlockContext::Defrag { space_key },
                                    },
                                ),
                            ))
                    },
                },
                None => op_is_idle(op) && op_fanout_pending(op),
            }
        } else {
            op_is_idle(op) && op_fanout_pending(op)
        },
        Some(DoneTask::DeleteBlockRegular { block_entry, .. }) => match task::first_external_read(
            block_entry.tasks_head.fifo@,
        ) {
            Some(c) => op_event_read_not_found(op, c) && op_fanout_pending(op),
            None => match task::first_external_delete(block_entry.tasks_head.fifo@) {
                Some(c) => op_event_delete_not_found(op, c) && op_fanout_pending(op),
                None => op is Query && op_defrag_topped_up(op),
            },
        },
        Some(DoneTask::DeleteBlockDefrag { block_id, block_bytes }) => if pre.schema.contains(
            block_id.serial,
        ) {
            match task::first_external_read(pre.schema.fifo(block_id.serial)) {
                Some(c) => op_event_read_done(op, c, block_bytes@) && op_fanout_pending(op),
                None => op_is_idle(op) && op_fanout_pending(op),
            }
        } else {
            op_is_idle(op) && op_fanout_pending(op)
        },
    }
}

/// Dispatch from a non-awaiting slot always asks the driver something.
proof fn lemma_dispatch_is_query<C>(pre: Inner<C>, op: Op<C>)
    requires
        dispatch_outcome(pre, op),
        !(pre.bg_task.state is Await),
    ensures
        op is Query,
{
}

/// What [`PollRequestNext::incoming_request`] promises.
pub closed spec fn request_step_ok<C>(
    p: PollRequestNext<C>,
    request: proto::Request<C>,
    op: Op<C>,
) -> bool {
    inner_request_response(p.inner, request, op) && op_stored_context(op) is None
}

/// What [`PollRequestAndInterpreterNext::incoming_request`] promises.
pub closed spec fn request_step_with_interpreter_ok<C>(
    p: PollRequestAndInterpreterNext<C>,
    request: proto::Request<C>,
    interpreter_context: C,
    op: Op<C>,
) -> bool {
    inner_request_response(p.inner, request, op) && op_stored_context(op) == Some(
        interpreter_context,
    )
}

/// What [`PollRequestAndInterpreterNext::incoming_task_done`] promises.
pub closed spec fn task_done_step_ok<C>(
    p: PollRequestAndInterpreterNext<C>,
    done: task::Done<C>,
    op: Op<C>,
) -> bool {
    inner_done_response(p.inner, done, op)
}

/// What [`Performer::next`] promises.
pub closed spec fn poke_step_ok<C>(p: Performer<C>, op: Op<C>) -> bool {
    inner_step_response(p.inner, op) && poke_outcome(p.inner, op)
}

proof fn lemma_ms_remove_len(m: Multiset<u64>, v: u64)
    requires
        m.count(v) >= 1,
    ensures
        m.remove(v).len() == m.len() - 1,
{
    broadcast use vstd::multiset::group_multiset_properties;

    assert(m.remove(v).insert(v) =~= m);
}

impl<C> Inner<C> {
    /// Queues a defragmentation hint when the pipeline is enabled.
    fn note_defrag_hint(&mut self, hint: Option<schema::DefragOp>)
        ensures
            final(self).schema == old(self).schema,
            final(self).lru_cache == old(self).lru_cache,
            final(self).blocks_pool == old(self).blocks_pool,
            final(self).tasks_queue == old(self).tasks_queue,
            final(self).bg_task == old(self).bg_task,
            final(self).done_task == old(self).done_task,
            final(self).pending_flush == old(self).pending_flush,
            final(self).inflight == old(self).inflight,
            final(self).defrag_outstanding == old(self).defrag_outstanding,
            (final(self).defrag is Some) == (old(self).defrag is Some),
            final(self).defrag is Some ==> final(self).defrag->Some_0.in_progress_tasks_count
                == old(self).defrag->Some_0.in_progress_tasks_count,
            final(self).defrag is Some ==> final(self).defrag->Some_0.in_progress_tasks_limit
                == old(self).defrag->Some_0.in_progress_tasks_limit,
            final(self).pending_writes() == old(self).pending_writes(),
            forall|k: nat| old(self).defrag_wf(k) ==> final(self).defrag_wf(k),
            old(self).wf_core() ==> final(self).wf_core(),
    {
        match hint {
            Some(op) => {
                let mut tmp: Option<Defrag<C>> = None;
                core::mem::swap(&mut tmp, &mut self.defrag);
                match tmp {
                    Some(mut d) => {
                        d.queues.tasks.push(op.free_space_offset, op.space_key);
                        self.defrag = Some(d);
                    },
                    None => {},
                }
            },
            None => {},
        }
    }

    /// Holds an external write until defragmentation makes room.
    fn defrag_push_pending(&mut self, request: proto::RequestWriteBlock<C>)
        requires
            old(self).defrag is Some,
        ensures
            final(self).schema == old(self).schema,
            final(self).lru_cache == old(self).lru_cache,
            final(self).blocks_pool == old(self).blocks_pool,
            final(self).tasks_queue == old(self).tasks_queue,
            final(self).bg_task == old(self).bg_task,
            final(self).done_task == old(self).done_task,
            final(self).pending_flush == old(self).pending_flush,
            final(self).inflight == old(self).inflight,
            final(self).defrag_outstanding == old(self).defrag_outstanding,
            final(self).defrag is Some,
            final(self).defrag->Some_0.in_progress_tasks_count == old(self).defrag->Some_0.in_progress_tasks_count,
            final(self).defrag->Some_0.in_progress_tasks_limit == old(self).defrag->Some_0.in_progress_tasks_limit,
            final(self).defrag->Some_0.queues.tasks == old(self).defrag->Some_0.queues.tasks,
            final(self).pending_writes() == old(self).pending_writes().push(request),
            forall|k: nat| old(self).defrag_wf(k) ==> final(self).defrag_wf(k),
            old(self).wf_core() ==> final(self).wf_core(),
    {
        let mut tmp: Option<Defrag<C>> = None;
        core::mem::swap(&mut tmp, &mut self.defrag);
        match tmp {
            Some(mut d) => {
                d.queues.pending.push(request);
                self.defrag = Some(d);
            },
            None => vstd::pervasive::unreached(),
        }
    }

    fn defrag_enabled_exec(&self) -> (r: bool)
        ensures
            r == (self.defrag is Some),
    {
        match &self.defrag {
            Some(_) => true,
            None => false,
        }
    }

    /// A new record with no pending tasks leaves the queue discipline
    /// intact.
    proof fn lemma_queues_wf_grow(pre: Inner<C>, mid: Inner<C>)
        requires
            pre.queues_wf(),
            mid.tasks_queue == pre.tasks_queue,
            mid.schema.wf(),
            forall|b: u64|
                pre.schema.contains(b) ==> mid.schema.contains(b) && mid.schema.entry_map()[b]
                    == pre.schema.entry_map()[b],
            forall|b: u64|
                mid.schema.contains(b) && !pre.schema.contains(b) ==> mid.schema.fifo(b).len()
                    == 0 && !mid.schema.is_queued_flag(b),
        ensures
            mid.queues_wf(),
    {
        assert forall|i: int| 0 <= i < mid.tasks_queue.items().len() implies {
            let it = #[trigger] mid.tasks_queue.items()[i];
            &&& mid.schema.contains(it.serial)
            &&& it.offset == mid.schema.offset_of(it.serial)
            &&& mid.schema.is_queued_flag(it.serial)
        } by {
            let it = pre.tasks_queue.items()[i];
            assert(pre.schema.contains(it.serial));
        }
        assert forall|b: u64|
            #[trigger] mid.schema.contains(b) && mid.schema.is_queued_flag(b) implies
            mid.tasks_queue.contains_serial(b) by {
            assert(pre.schema.contains(b));
            let i = choose|i: int|
                0 <= i < pre.tasks_queue.items().len() && pre.tasks_queue.items()[i].serial == b;
            assert(mid.tasks_queue.items()[i].serial == b);
        }
        assert forall|b: u64, i: int|
            #[trigger] mid.schema.contains(b) && 0 <= i < mid.schema.fifo(b).len() implies !((
        #[trigger] mid.schema.fifo(b)[i]) is Flush) by {
            if pre.schema.contains(b) {
                assert(mid.schema.fifo(b) == pre.schema.fifo(b));
            }
        }
    }

    /// Pushing one client task keeps the whole machine consistent.
    proof fn lemma_wf_after_request_push(
        pre: Inner<C>,
        mid: Inner<C>,
        post: Inner<C>,
        serial: u64,
        kind: TaskKind<C>,
    )
        requires
            pre.wf(),
            pre.done_task is None,
            !task::kind_is_defrag(kind),
            // mid: pre with possibly one fresh quiescent record
            mid.queues_wf(),
            mid.bg_task == pre.bg_task,
            mid.done_task == pre.done_task,
            mid.inflight == pre.inflight,
            mid.defrag_outstanding == pre.defrag_outstanding,
            (mid.defrag is Some) == (pre.defrag is Some),
            mid.defrag is Some ==> mid.defrag->Some_0.in_progress_tasks_count == pre.defrag->Some_0.in_progress_tasks_count,
            mid.defrag is Some ==> mid.defrag->Some_0.in_progress_tasks_limit == pre.defrag->Some_0.in_progress_tasks_limit,
            mid.schema.contains(serial),
            forall|b: u64|
                pre.schema.contains(b) ==> mid.schema.contains(b) && mid.schema.entry_map()[b]
                    == pre.schema.entry_map()[b],
            forall|b: u64| mid.schema.contains(b) && b != serial ==> pre.schema.contains(b),
            !pre.schema.contains(serial) ==> mid.schema.fifo(serial).len() == 0
                && !mid.schema.is_queued_flag(serial) && mid.schema.entry_map()[serial].cached
                is None && !mid.schema.entry_map()[serial].moving,
            // post: mid after push_task
            post.queues_wf(),
            post.schema.fifo(serial) == mid.schema.fifo(serial).push(kind),
            forall|b: u64| post.schema.contains(b) <==> mid.schema.contains(b),
            forall|b: u64|
                b != serial && mid.schema.contains(b) ==> post.schema.entry_map()[b]
                    == mid.schema.entry_map()[b],
            post.schema.is_queued_flag(serial) == (mid.schema.is_queued_flag(serial)
                || !mid.state_owns(serial)),
            post.schema.entry_map()[serial].cached == mid.schema.entry_map()[serial].cached,
            post.schema.entry_map()[serial].moving == mid.schema.entry_map()[serial].moving,
            post.bg_task == mid.bg_task,
            post.done_task == mid.done_task,
            post.inflight == mid.inflight,
            post.defrag == mid.defrag,
            post.defrag_outstanding == mid.defrag_outstanding,
        ensures
            post.wf(),
    {
        task::lemma_defrag_count_push(mid.schema.fifo(serial), kind);
        task::lemma_drc_push(mid.schema.fifo(serial), kind);
        assert forall|b: u64| #[trigger] post.schema.contains(b) implies {
            &&& (post.inflight_defrag_read(b) ==> post.schema.entry_map()[b].moving
                && post.schema.entry_map()[b].cached is None && task::defrag_read_count(
                post.schema.fifo(b),
            ) == 0)
            &&& (task::defrag_read_count(post.schema.fifo(b)) >= 1
                ==> post.schema.entry_map()[b].moving && post.schema.entry_map()[b].cached is None
                && task::defrag_read_count(post.schema.fifo(b)) == 1
                && !post.inflight_defrag_read(b))
        } by {
            if b == serial {
                if pre.schema.contains(serial) {
                    assert(mid.schema.entry_map()[serial] == pre.schema.entry_map()[serial]);
                } else {
                    // a fresh record: its FIFO was empty before this push
                    assert(task::defrag_read_count(mid.schema.fifo(serial)) == 0);
                    if post.inflight_defrag_read(serial) {
                        // the slot's task concerns a block that already existed
                        assert(pre.schema.contains(serial));
                    }
                }
            } else {
                assert(pre.schema.contains(b));
                assert(post.schema.entry_map()[b] == pre.schema.entry_map()[b]);
            }
        }
        // the background summary still matches
        assert(post.bg_matches()) by {
            match post.bg_task.state {
                BackgroundTaskState::Idle => {},
                BackgroundTaskState::Await { block_id } => {
                    let s0 = block_id.serial;
                    if s0 == serial {
                        assert(pre.schema.contains(s0) || s0 == 0);
                    }
                },
                BackgroundTaskState::InProgress { block_id, .. } => {
                    let s0 = block_id.serial;
                    if s0 == serial {
                        assert(pre.schema.contains(s0) || s0 == 0);
                    }
                },
            }
        }
        // ready-queued blocks keep a dispatchable task
        assert forall|b: u64|
            #[trigger] post.schema.contains(b) && post.schema.is_queued_flag(b)
                && !post.done_mentions(b) implies post.schema.fifo(b).len() >= 1 by {
            if b != serial {
                assert(pre.schema.contains(b));
                assert(pre.schema.fifo(b).len() >= 1);
            }
        }
        // blocks with pending tasks are queued or owned
        assert forall|b: u64|
            #[trigger] post.schema.contains(b) && post.schema.fifo(b).len() > 0
                && !post.schema.is_queued_flag(b) && !post.owns(b) implies post.done_mentions(
            b,
        ) by {
            if b == serial {
                // the push must have found the block owned
                assert(mid.state_owns(serial));
                mid.schema.lemma_contains_bounds(serial);
                assert(post.owns(b)) by {
                    if post.inflight@->Some_0 is Flush {
                        assert(serial == 0);
                    }
                }
            } else {
                assert(pre.schema.contains(b));
                assert(pre.schema.fifo(b).len() > 0);
            }
        }
        // defragmentation accounting is untouched by a client task
        assert(post.defrag_wf(0)) by {
            if post.defrag is Some {
                assert forall|b: u64| #[trigger] post.defrag_outstanding@.count(b)
                    == post.defrag_tasks_of(b) by {
                    assert(pre.defrag_outstanding@.count(b) == pre.defrag_tasks_of(b));
                    if b == serial {
                        if !pre.schema.contains(serial) {
                            assert(pre.defrag_tasks_of(serial) == 0);
                            assert(defrag_task_count(mid.schema.fifo(serial)) == 0);
                        }
                    }
                }
            }
        }
    }

    /// Handles one external request. The reply, when one is due at once,
    /// is pinned by the contract; otherwise the task is queued.
    fn incoming_request(self, request: proto::Request<C>) -> (op: Op<C>)
        requires
            self.wf(),
            self.done_task is None,
            !(self.bg_task.state is Await),
        ensures
            inner_request_response(self, request, op),
            op_stored_context(op) == (match self.bg_task.state {
                BackgroundTaskState::InProgress { interpreter_context, .. } => Some(
                    interpreter_context,
                ),
                _ => None,
            }),
    {
        let mut this = self;
        let ghost pre = this;
        match request {
            proto::Request::Info(proto::RequestInfo { context }) => {
                let info = this.schema.info();
                Op::Event(
                    Event {
                        op: EventOp::Info(TaskDoneOp { context, op: InfoOp::Success { info } }),
                        performer: Performer { inner: this },
                    },
                )
            },
            proto::Request::Flush(proto::RequestFlush { context }) => {
                this.pending_flush.push(context);
                Op::Idle(Performer { inner: this })
            },
            proto::Request::LendBlock(proto::RequestLendBlock { context }) => {
                let block_bytes = this.blocks_pool.lend();
                Op::Event(
                    Event {
                        op: EventOp::LendBlock(
                            TaskDoneOp { context, op: LendBlockOp::Success { block_bytes } },
                        ),
                        performer: Performer { inner: this },
                    },
                )
            },
            proto::Request::RepayBlock(proto::RequestRepayBlock { block_bytes }) => {
                this.blocks_pool.repay(block_bytes);
                Op::Idle(Performer { inner: this })
            },
            proto::Request::WriteBlock(request_write_block) => {
                match this.schema.process_write_block_request(&request_write_block.block_bytes) {
                    schema::WriteBlockOp::Perform(perform) => {
                        let schema::WriteBlockPerform { defrag_op, task_op } = perform;
                        let proto::RequestWriteBlock { block_bytes, context } = request_write_block;
                        this.note_defrag_hint(defrag_op);
                        let ghost mid = this;
                        proof {
                            Inner::lemma_queues_wf_grow(pre, mid);
                        }
                        let commit_type = match task_op.commit_type {
                            schema::WriteBlockTaskCommitType::CommitOnly => task::CommitType::CommitOnly,
                            schema::WriteBlockTaskCommitType::CommitAndEof => task::CommitType::CommitAndEof,
                        };
                        let kind = TaskKind::WriteBlock(
                            task::WriteBlock {
                                block_bytes,
                                commit_type,
                                context: task::WriteBlockContext::External(context),
                            },
                        );
                        let ghost gkind = kind;
                        this.push_task(task_op.block_offset, task_op.block_id, kind);
                        proof {
                            Inner::lemma_wf_after_request_push(
                                pre,
                                mid,
                                this,
                                task_op.block_id.serial,
                                gkind,
                            );
                            assert(this.schema.fifo(task_op.block_id.serial) =~= seq![gkind]);
                        }
                        Op::Idle(Performer { inner: this })
                    },
                    schema::WriteBlockOp::QueuePendingDefrag => {
                        if this.defrag_enabled_exec() {
                            this.defrag_push_pending(request_write_block);
                            Op::Idle(Performer { inner: this })
                        } else {
                            // with defragmentation disabled an unplaceable
                            // write fails at once
                            Op::Event(
                                Event {
                                    op: EventOp::WriteBlock(
                                        TaskDoneOp {
                                            context: request_write_block.context,
                                            op: WriteBlockOp::NoSpaceLeft,
                                        },
                                    ),
                                    performer: Performer { inner: this },
                                },
                            )
                        }
                    },
                    schema::WriteBlockOp::ReplyNoSpaceLeft => Op::Event(
                        Event {
                            op: EventOp::WriteBlock(
                                TaskDoneOp {
                                    context: request_write_block.context,
                                    op: WriteBlockOp::NoSpaceLeft,
                                },
                            ),
                            performer: Performer { inner: this },
                        },
                    ),
                }
            },
            proto::Request::ReadBlock(request_read_block) => {
                match this.schema.process_read_block_request(&request_read_block.block_id) {
                    schema::ReadBlockOp::Perform(perform) => {
                        match this.lru_cache.get(request_read_block.block_id.serial) {
                            Some(block_bytes) => Op::Event(
                                Event {
                                    op: EventOp::ReadBlock(
                                        TaskDoneOp {
                                            context: request_read_block.context,
                                            op: ReadBlockOp::Done { block_bytes },
                                        },
                                    ),
                                    performer: Performer { inner: this },
                                },
                            ),
                            None => {
                                let block_bytes = this.blocks_pool.lend();
                                let ghost gbuf = block_bytes;
                                let ghost mid = this;
                                let kind = TaskKind::ReadBlock(
                                    task::ReadBlock {
                                        block_header: perform.block_header,
                                        block_bytes,
                                        context: task::ReadBlockContext::External(
                                            request_read_block.context,
                                        ),
                                    },
                                );
                                let ghost gkind = kind;
                                this.push_task(
                                    perform.block_offset,
                                    request_read_block.block_id,
                                    kind,
                                );
                                proof {
                                    Inner::lemma_wf_after_request_push(
                                        pre,
                                        mid,
                                        this,
                                        request_read_block.block_id.serial,
                                        gkind,
                                    );
                                    assert(gbuf@.len() == 0 && this.schema.fifo(
                                        request_read_block.block_id.serial,
                                    ) == pre.schema.fifo(request_read_block.block_id.serial).push(
                                        TaskKind::<C>::ReadBlock(
                                            task::ReadBlock {
                                                block_header: pre.schema.entry_map()[request_read_block.block_id.serial].header,
                                                block_bytes: gbuf,
                                                context: task::ReadBlockContext::External(
                                                    request_read_block.context,
                                                ),
                                            },
                                        ),
                                    ));
                                }
                                Op::Idle(Performer { inner: this })
                            },
                        }
                    },
                    schema::ReadBlockOp::Cached { block_bytes } => Op::Event(
                        Event {
                            op: EventOp::ReadBlock(
                                TaskDoneOp {
                                    context: request_read_block.context,
                                    op: ReadBlockOp::Done { block_bytes },
                                },
                            ),
                            performer: Performer { inner: this },
                        },
                    ),
                    schema::ReadBlockOp::NotFound => Op::Event(
                        Event {
                            op: EventOp::ReadBlock(
                                TaskDoneOp {
                                    context: request_read_block.context,
                                    op: ReadBlockOp::NotFound,
                                },
                            ),
                            performer: Performer { inner: this },
                        },
                    ),
                }
            },
            proto::Request::DeleteBlock(request_delete_block) => {
                match this.schema.process_delete_block_request(&request_delete_block.block_id) {
                    schema::DeleteBlockOp::Perform(perform) => {
                        let ghost mid = this;
                        let kind = TaskKind::DeleteBlock(
                            task::DeleteBlock {
                                context: task::DeleteBlockContext::External(
                                    request_delete_block.context,
                                ),
                            },
                        );
                        let ghost gkind = kind;
                        this.push_task(
                            perform.block_offset,
                            request_delete_block.block_id,
                            kind,
                        );
                        proof {
                            Inner::lemma_wf_after_request_push(
                                pre,
                                mid,
                                this,
                                request_delete_block.block_id.serial,
                                gkind,
                            );
                        }
                        Op::Idle(Performer { inner: this })
                    },
                    schema::DeleteBlockOp::NotFound => Op::Event(
                        Event {
                            op: EventOp::DeleteBlock(
                                TaskDoneOp {
                                    context: request_delete_block.context,
                                    op: DeleteBlockOp::NotFound,
                                },
                            ),
                            performer: Performer { inner: this },
                        },
                    ),
                }
            },
        }
    }
}

impl<C> Inner<C> {
    /// Removing one task from a block's FIFO keeps the one-move-per-block
    /// discipline, as long as the record's reservation and stash and the
    /// background slot are untouched.
    proof fn lemma_moves_wf_after_fifo_remove(
        pre: Inner<C>,
        post: Inner<C>,
        serial: u64,
        i: int,
    )
        requires
            pre.moves_wf(),
            pre.schema.contains(serial),
            0 <= i < pre.schema.fifo(serial).len(),
            post.schema.fifo(serial) == pre.schema.fifo(serial).remove(i),
            forall|b: u64| post.schema.contains(b) <==> pre.schema.contains(b),
            forall|b: u64|
                b != serial && pre.schema.contains(b) ==> post.schema.entry_map()[b]
                    == pre.schema.entry_map()[b],
            post.schema.entry_map()[serial].cached == pre.schema.entry_map()[serial].cached,
            post.schema.entry_map()[serial].moving == pre.schema.entry_map()[serial].moving,
            post.inflight == pre.inflight,
        ensures
            post.moves_wf(),
    {
        task::lemma_drc_remove(pre.schema.fifo(serial), i);
        assert forall|b: u64| #[trigger] post.schema.contains(b) implies {
            &&& (post.inflight_defrag_read(b) ==> post.schema.entry_map()[b].moving
                && post.schema.entry_map()[b].cached is None && task::defrag_read_count(
                post.schema.fifo(b),
            ) == 0)
            &&& (task::defrag_read_count(post.schema.fifo(b)) >= 1
                ==> post.schema.entry_map()[b].moving && post.schema.entry_map()[b].cached is None
                && task::defrag_read_count(post.schema.fifo(b)) == 1
                && !post.inflight_defrag_read(b))
        } by {
            if b != serial {
                assert(pre.schema.contains(b));
                assert(post.schema.entry_map()[b] == pre.schema.entry_map()[b]);
            }
        }
    }

    /// `wf_core`, except that one block's accounting may be mid-update.
    spec fn wf_core_except(&self, s: u64) -> bool {
        &&& self.queues_wf()
        &&& self.bg_matches()
        &&& forall|b: u64|
            b != s && #[trigger] self.schema.contains(b) && self.schema.is_queued_flag(b)
                && !self.done_mentions(b) ==> self.schema.fifo(b).len() >= 1
        &&& forall|b: u64|
            b != s && #[trigger] self.schema.contains(b) && self.schema.fifo(b).len() > 0
                && !self.schema.is_queued_flag(b) && !self.owns(b) ==> self.done_mentions(b)
        &&& (self.done_task is Some ==> self.bg_task.state is Idle)
        &&& self.done_ok()
        &&& self.moves_wf()
    }

    spec fn done_ok(&self) -> bool {
        match self.done_task {
            Some(DoneTask::DeleteBlockRegular { block_id, block_entry }) => !self.schema.contains(
                block_id.serial,
            ) && (forall|i: int|
                0 <= i < block_entry.tasks_head.fifo@.len() ==> !((
                #[trigger] block_entry.tasks_head.fifo@[i]) is Flush)),
            _ => true,
        }
    }

    proof fn lemma_wf_core_weaken(&self, s: u64)
        requires
            self.wf_core(),
        ensures
            self.wf_core_except(s),
    {
    }

    /// Pushing one task onto a block settles that block's accounting.
    proof fn lemma_wf_after_push(mid: Inner<C>, post: Inner<C>, serial: u64, kind: TaskKind<C>)
        requires
            mid.wf_core_except(serial),
            mid.schema.contains(serial),
            post.queues_wf(),
            post.schema.fifo(serial) == mid.schema.fifo(serial).push(kind),
            forall|b: u64| post.schema.contains(b) <==> mid.schema.contains(b),
            forall|b: u64|
                b != serial && mid.schema.contains(b) ==> post.schema.entry_map()[b]
                    == mid.schema.entry_map()[b],
            post.schema.is_queued_flag(serial) == (mid.schema.is_queued_flag(serial)
                || !mid.state_owns(serial)),
            post.schema.entry_map()[serial].cached == mid.schema.entry_map()[serial].cached,
            post.schema.entry_map()[serial].moving == mid.schema.entry_map()[serial].moving,
            post.bg_task == mid.bg_task,
            post.done_task == mid.done_task,
            post.inflight == mid.inflight,
            post.defrag == mid.defrag,
            task::kind_is_defrag_read(kind) ==> task::defrag_read_count(
                mid.schema.fifo(serial),
            ) == 0 && mid.schema.entry_map()[serial].moving && mid.schema.entry_map()[serial].cached
                is None && !mid.inflight_defrag_read(serial),
        ensures
            post.wf_core_except(serial),
            post.wf_core(),
    {
        task::lemma_drc_push(mid.schema.fifo(serial), kind);
        assert forall|b: u64| #[trigger] post.schema.contains(b) implies {
            &&& (post.inflight_defrag_read(b) ==> post.schema.entry_map()[b].moving
                && post.schema.entry_map()[b].cached is None && task::defrag_read_count(
                post.schema.fifo(b),
            ) == 0)
            &&& (task::defrag_read_count(post.schema.fifo(b)) >= 1
                ==> post.schema.entry_map()[b].moving && post.schema.entry_map()[b].cached is None
                && task::defrag_read_count(post.schema.fifo(b)) == 1
                && !post.inflight_defrag_read(b))
        } by {
            if b != serial {
                assert(mid.schema.contains(b));
                assert(post.schema.entry_map()[b] == mid.schema.entry_map()[b]);
            }
        }
        assert(post.bg_matches()) by {
            match post.bg_task.state {
                BackgroundTaskState::Idle => {},
                BackgroundTaskState::Await { block_id } => {
                    if block_id.serial == serial {
                        assert(mid.schema.contains(serial));
                    }
                },
                BackgroundTaskState::InProgress { block_id, .. } => {
                    if block_id.serial == serial {
                        assert(mid.schema.contains(serial));
                    }
                },
            }
        }
        assert forall|b: u64|
            #[trigger] post.schema.contains(b) && post.schema.is_queued_flag(b)
                && !post.done_mentions(b) implies post.schema.fifo(b).len() >= 1 by {
            if b != serial {
                assert(mid.schema.contains(b));
                assert(mid.schema.fifo(b).len() >= 1);
            }
        }
        assert forall|b: u64|
            #[trigger] post.schema.contains(b) && post.schema.fifo(b).len() > 0
                && !post.schema.is_queued_flag(b) && !post.owns(b) implies post.done_mentions(
            b,
        ) by {
            if b == serial {
                assert(mid.state_owns(serial));
                mid.schema.lemma_contains_bounds(serial);
                assert(post.owns(b)) by {
                    if post.inflight@->Some_0 is Flush {
                        assert(serial == 0);
                    }
                }
            } else {
                assert(mid.schema.contains(b));
                assert(mid.schema.fifo(b).len() > 0);
            }
        }
    }

    fn defrag_count_below_limit(&self) -> (r: bool)
        ensures
            r == match self.defrag {
                Some(d) => d.in_progress_tasks_count < d.in_progress_tasks_limit,
                None => false,
            },
    {
        match &self.defrag {
            Some(d) => d.in_progress_tasks_count < d.in_progress_tasks_limit,
            None => false,
        }
    }

    /// Pops the most urgent defragmentation region, lowest offset first.
    fn defrag_pop(&mut self) -> (r: Option<defrag::DefragTask>)
        ensures
            final(self).schema == old(self).schema,
            final(self).lru_cache == old(self).lru_cache,
            final(self).blocks_pool == old(self).blocks_pool,
            final(self).tasks_queue == old(self).tasks_queue,
            final(self).bg_task == old(self).bg_task,
            final(self).done_task == old(self).done_task,
            final(self).pending_flush == old(self).pending_flush,
            final(self).inflight == old(self).inflight,
            final(self).defrag_outstanding == old(self).defrag_outstanding,
            (final(self).defrag is Some) == (old(self).defrag is Some),
            final(self).defrag is Some ==> final(self).defrag->Some_0.in_progress_tasks_count
                == old(self).defrag->Some_0.in_progress_tasks_count,
            final(self).defrag is Some ==> final(self).defrag->Some_0.in_progress_tasks_limit
                == old(self).defrag->Some_0.in_progress_tasks_limit,
            match r {
                Some(_) => old(self).defrag is Some && final(self).defrag is Some && final(self).defrag->Some_0.queues.tasks.items().len() == old(self).defrag->Some_0.queues.tasks.items().len() - 1,
                None => (old(self).defrag is Some ==> old(self).defrag->Some_0.queues.tasks.items().len() == 0) && (final(self).defrag is Some ==> final(self).defrag->Some_0.queues.tasks.items() == old(self).defrag->Some_0.queues.tasks.items()),
            },
            forall|k: nat| old(self).defrag_wf(k) ==> final(self).defrag_wf(k),
            old(self).wf_core() ==> final(self).wf_core(),
    {
        let mut tmp: Option<Defrag<C>> = None;
        core::mem::swap(&mut tmp, &mut self.defrag);
        match tmp {
            Some(mut d) => {
                let ghost t0 = d.queues.tasks.items();
                let r = d.queues.tasks.pop();
                proof {
                    if r is Some {
                        let i = choose|i: int|
                            0 <= i < t0.len() && t0[i] == r->Some_0 && d.queues.tasks.items()
                                == t0.remove(i);
                        assert(d.queues.tasks.items().len() == t0.len() - 1);
                    }
                }
                self.defrag = Some(d);
                r
            },
            None => {
                self.defrag = None;
                None
            },
        }
    }

    /// One more defragmentation move is outstanding.
    fn defrag_inc(&mut self)
        requires
            old(self).defrag is Some,
            old(self).defrag->Some_0.in_progress_tasks_count < old(self).defrag->Some_0.in_progress_tasks_limit,
        ensures
            final(self).schema == old(self).schema,
            final(self).lru_cache == old(self).lru_cache,
            final(self).blocks_pool == old(self).blocks_pool,
            final(self).tasks_queue == old(self).tasks_queue,
            final(self).bg_task == old(self).bg_task,
            final(self).done_task == old(self).done_task,
            final(self).pending_flush == old(self).pending_flush,
            final(self).inflight == old(self).inflight,
            final(self).defrag_outstanding == old(self).defrag_outstanding,
            final(self).defrag is Some,
            final(self).defrag->Some_0.in_progress_tasks_count == old(self).defrag->Some_0.in_progress_tasks_count + 1,
            final(self).defrag->Some_0.in_progress_tasks_limit == old(self).defrag->Some_0.in_progress_tasks_limit,
            final(self).defrag->Some_0.queues == old(self).defrag->Some_0.queues,
            old(self).wf_core() ==> final(self).wf_core(),
    {
        let mut tmp: Option<Defrag<C>> = None;
        core::mem::swap(&mut tmp, &mut self.defrag);
        match tmp {
            Some(mut d) => {
                d.in_progress_tasks_count = d.in_progress_tasks_count + 1;
                self.defrag = Some(d);
            },
            None => vstd::pervasive::unreached(),
        }
    }

    /// One outstanding defragmentation move settled or was cancelled.
    fn defrag_dec(&mut self)
        requires
            old(self).defrag is Some,
            old(self).defrag->Some_0.in_progress_tasks_count >= 1,
        ensures
            final(self).schema == old(self).schema,
            final(self).lru_cache == old(self).lru_cache,
            final(self).blocks_pool == old(self).blocks_pool,
            final(self).tasks_queue == old(self).tasks_queue,
            final(self).bg_task == old(self).bg_task,
            final(self).done_task == old(self).done_task,
            final(self).pending_flush == old(self).pending_flush,
            final(self).inflight == old(self).inflight,
            final(self).defrag_outstanding == old(self).defrag_outstanding,
            final(self).defrag is Some,
            final(self).defrag->Some_0.in_progress_tasks_count == old(self).defrag->Some_0.in_progress_tasks_count - 1,
            final(self).defrag->Some_0.in_progress_tasks_limit == old(self).defrag->Some_0.in_progress_tasks_limit,
            final(self).defrag->Some_0.queues == old(self).defrag->Some_0.queues,
            old(self).wf_core() ==> final(self).wf_core(),
    {
        let mut tmp: Option<Defrag<C>> = None;
        core::mem::swap(&mut tmp, &mut self.defrag);
        match tmp {
            Some(mut d) => {
                d.in_progress_tasks_count = d.in_progress_tasks_count - 1;
                self.defrag = Some(d);
            },
            None => vstd::pervasive::unreached(),
        }
    }

    /// Finishes a completed read: an external reader gets the bytes, the
    /// defragmentation pipeline stashes them and queues the delete of the
    /// block's old extent.
    fn proceed_read_block_task_done(
        self,
        block_id: Id,
        block_bytes: Bytes,
        task_context: task::ReadBlockContext<C>,
    ) -> (op: Op<C>)
        requires
            self.wf_core(),
            match task_context {
                task::ReadBlockContext::External(_) => self.defrag_wf(0),
                task::ReadBlockContext::Defrag { .. } => self.defrag_wf(1)
                    && self.schema.entry_map()[block_id.serial].cached is None
                    && task::defrag_read_count(self.schema.fifo(block_id.serial)) == 0,
            },
            self.bg_task.state is Idle,
            self.schema.contains(block_id.serial),
            match self.done_task {
                Some(DoneTask::ReadBlock { block_id: b2, .. }) => b2 == block_id,
                _ => false,
            },
        ensures
            op_wf(op),
            op_block_id_bound(op) == self.schema.next_serial_spec(),
            forall|b: u64| op_has_block(op, b) == self.schema.contains(b),
            op_cache(op) == self.lru_cache.contents(),
            self.defrag is Some ==> op_defrag_in_progress(op)
                == self.defrag->Some_0.in_progress_tasks_count,
            op_inflight(op) == self.inflight@,
            op_head_offset(op) == self.bg_task.current_offset,
            op_fanout_pending(op),
            op_pending_flush(op) == self.pending_flush@,
            op_defrag_pending(op) == self.pending_writes(),
            forall|b: u64|
                b != block_id.serial && self.schema.contains(b) ==> op_block_fifo(op, b)
                    == self.schema.fifo(b),
            op_ready_queue(op) == self.tasks_queue.items() || (exists|it: task::ReadyItem|
                op_ready_queue(op) == self.tasks_queue.items().push(it)),
            match task_context {
                task::ReadBlockContext::External(c) => op_event_read_done(op, c, block_bytes@),
                task::ReadBlockContext::Defrag { space_key } => {
                    &&& op_is_idle(op)
                    &&& op_block_stash(op, block_id.serial) == Some(block_bytes@)
                    &&& op_block_fifo(op, block_id.serial) == self.schema.fifo(
                        block_id.serial,
                    ).push(
                        TaskKind::<C>::DeleteBlock(
                            task::DeleteBlock {
                                context: task::DeleteBlockContext::Defrag { space_key },
                            },
                        ),
                    )
                },
            },
    {
        match task_context {
            task::ReadBlockContext::External(context) => Op::Event(
                Event {
                    op: EventOp::ReadBlock(
                        TaskDoneOp { context, op: ReadBlockOp::Done { block_bytes } },
                    ),
                    performer: Performer { inner: self },
                },
            ),
            task::ReadBlockContext::Defrag { space_key } => {
                let mut this = self;
                let ghost pre = this;
                let block_offset = this.schema.process_read_block_task_done(
                    &block_id,
                    block_bytes,
                );
                let ghost mid = this;
                proof {
                    // stashing the payload touches no queue state
                    assert forall|i: int| 0 <= i < mid.tasks_queue.items().len() implies {
                        let it = #[trigger] mid.tasks_queue.items()[i];
                        &&& mid.schema.contains(it.serial)
                        &&& it.offset == mid.schema.offset_of(it.serial)
                        &&& mid.schema.is_queued_flag(it.serial)
                    } by {
                        let it = pre.tasks_queue.items()[i];
                        assert(pre.schema.contains(it.serial));
                        if it.serial != block_id.serial {
                            assert(mid.schema.entry_map()[it.serial] == pre.schema.entry_map()[it.serial]);
                        }
                    }
                    assert forall|b: u64|
                        #[trigger] mid.schema.contains(b) && mid.schema.is_queued_flag(b) implies
                        mid.tasks_queue.contains_serial(b) by {
                        assert(pre.schema.contains(b) && pre.schema.is_queued_flag(b));
                    }
                    assert forall|b: u64, i: int|
                        #[trigger] mid.schema.contains(b) && 0 <= i < mid.schema.fifo(b).len()
                            implies !((#[trigger] mid.schema.fifo(b)[i]) is Flush) by {
                        assert(pre.schema.contains(b));
                        assert(mid.schema.fifo(b) == pre.schema.fifo(b));
                    }
                    assert forall|b: u64|
                        #[trigger] mid.schema.contains(b) && mid.schema.is_queued_flag(b)
                            && !mid.done_mentions(b) implies mid.schema.fifo(b).len() >= 1 by {
                        assert(pre.schema.contains(b));
                    }
                    assert forall|b: u64|
                        #[trigger] mid.schema.contains(b) && mid.schema.fifo(b).len() > 0
                            && !mid.schema.is_queued_flag(b) && !mid.owns(b) implies
                        mid.done_mentions(b) by {
                        assert(pre.schema.contains(b));
                        assert(pre.schema.fifo(b) == mid.schema.fifo(b));
                    }
                    assert(mid.wf_core());
                    mid.lemma_wf_core_weaken(block_id.serial);
                }
                let kind = TaskKind::DeleteBlock(
                    task::DeleteBlock {
                        context: task::DeleteBlockContext::Defrag { space_key },
                    },
                );
                let ghost gkind = kind;
                this.push_task(block_offset, block_id, kind);
                proof {
                    Inner::lemma_wf_after_push(mid, this, block_id.serial, gkind);
                    // the queued delete takes over the slot of the finished read
                    task::lemma_defrag_count_push(mid.schema.fifo(block_id.serial), gkind);
                    assert(this.defrag_wf(0)) by {
                        if this.defrag is Some {
                            assert(this.defrag_outstanding@ == mid.defrag_outstanding@.insert(
                                block_id.serial,
                            ));
                            assert forall|b: u64| #[trigger] this.defrag_outstanding@.count(b)
                                == this.defrag_tasks_of(b) by {
                                assert(mid.defrag_outstanding@.count(b) == mid.defrag_tasks_of(b));
                                if b != block_id.serial {
                                    assert(this.schema.contains(b) ==> this.schema.fifo(b)
                                        == mid.schema.fifo(b));
                                }
                            }
                        }
                    }
                }
                Op::Idle(Performer { inner: this })
            },
        }
    }
}

impl<C> Inner<C> {
    /// After a completion is absorbed, the machine is consistent again:
    /// the background slot is empty and the continuation names the block.
    proof fn lemma_wf_core_after_completion(pre: Inner<C>, post: Inner<C>, serial: u64)
        requires
            pre.wf_core(),
            pre.done_task is None,
            match pre.bg_task.state {
                BackgroundTaskState::Await { block_id } => block_id.serial == serial,
                _ => false,
            },
            post.tasks_queue == pre.tasks_queue,
            post.schema.wf(),
            forall|b: u64| b != serial ==> (post.schema.contains(b) <==> pre.schema.contains(b)),
            forall|b: u64|
                b != serial && pre.schema.contains(b) ==> post.schema.entry_map()[b]
                    == pre.schema.entry_map()[b],
            post.schema.contains(serial) ==> pre.schema.contains(serial) && post.schema.fifo(
                serial,
            ) == pre.schema.fifo(serial) && post.schema.is_queued_flag(serial)
                == pre.schema.is_queued_flag(serial),
            post.schema.contains(serial) && task::defrag_read_count(pre.schema.fifo(serial)) >= 1
                ==> post.schema.entry_map()[serial].moving && post.schema.entry_map()[serial].cached is None,
            post.bg_task.state is Idle,
            post.inflight@ is None,
            match post.done_task {
                Some(DoneTask::Reenqueue { block_id }) => block_id.serial == serial,
                Some(DoneTask::ReadBlock { block_id, .. }) => block_id.serial == serial,
                Some(DoneTask::DeleteBlockDefrag { block_id, .. }) => block_id.serial == serial,
                Some(DoneTask::DeleteBlockRegular { block_id, block_entry }) => block_id.serial
                    == serial && !post.schema.contains(serial) && (forall|i: int|
                    0 <= i < block_entry.tasks_head.fifo@.len() ==> !((
                    #[trigger] block_entry.tasks_head.fifo@[i]) is Flush)),
                None => false,
            },
        ensures
            post.wf_core(),
    {
        assert forall|i: int| 0 <= i < post.tasks_queue.items().len() implies {
            let it = #[trigger] post.tasks_queue.items()[i];
            &&& post.schema.contains(it.serial)
            &&& it.offset == post.schema.offset_of(it.serial)
            &&& post.schema.is_queued_flag(it.serial)
        } by {
            let it = pre.tasks_queue.items()[i];
            assert(pre.schema.contains(it.serial) && pre.schema.is_queued_flag(it.serial));
            assert(it.serial != serial) by {
                if it.serial == serial {
                    pre.schema.lemma_contains_bounds(serial);
                    assert(match pre.inflight@ {
                        Some(t) => !(t is Flush),
                        None => false,
                    });
                }
            }
        }
        assert forall|b: u64|
            #[trigger] post.schema.contains(b) && post.schema.is_queued_flag(b) implies
            post.tasks_queue.contains_serial(b) by {
            assert(pre.schema.contains(b) && pre.schema.is_queued_flag(b));
        }
        assert forall|b: u64, i: int|
            #[trigger] post.schema.contains(b) && 0 <= i < post.schema.fifo(b).len() implies !((
        #[trigger] post.schema.fifo(b)[i]) is Flush) by {
            assert(pre.schema.contains(b));
            assert(post.schema.fifo(b) == pre.schema.fifo(b));
        }
        assert forall|b: u64|
            #[trigger] post.schema.contains(b) && post.schema.is_queued_flag(b)
                && !post.done_mentions(b) implies post.schema.fifo(b).len() >= 1 by {
            assert(pre.schema.contains(b) && pre.schema.fifo(b) == post.schema.fifo(b));
        }
        assert forall|b: u64|
            #[trigger] post.schema.contains(b) && post.schema.fifo(b).len() > 0
                && !post.schema.is_queued_flag(b) && !post.owns(b) implies post.done_mentions(
            b,
        ) by {
            if b != serial {
                assert(pre.schema.contains(b));
                assert(pre.schema.fifo(b) == post.schema.fifo(b));
                assert(!pre.owns(b));
            }
        }
        assert forall|b: u64| #[trigger] post.schema.contains(b) implies {
            &&& (post.inflight_defrag_read(b) ==> post.schema.entry_map()[b].moving
                && post.schema.entry_map()[b].cached is None && task::defrag_read_count(
                post.schema.fifo(b),
            ) == 0)
            &&& (task::defrag_read_count(post.schema.fifo(b)) >= 1
                ==> post.schema.entry_map()[b].moving && post.schema.entry_map()[b].cached is None
                && task::defrag_read_count(post.schema.fifo(b)) == 1
                && !post.inflight_defrag_read(b))
        } by {
            if b != serial {
                assert(pre.schema.contains(b));
                assert(post.schema.entry_map()[b] == pre.schema.entry_map()[b]);
            } else {
                assert(pre.schema.contains(b));
                assert(post.schema.fifo(b) == pre.schema.fifo(b));
            }
        }
    }

    /// Absorbs the completion of the in-flight task and produces the reply
    /// it owes, leaving the remaining fan-out in the continuation slot.
    fn incoming_interpreter(self, incoming: task::Done<C>) -> (op: Op<C>)
        requires
            self.wf(),
            self.done_task is None,
            self.bg_task.state is Await,
            done_matches(self.inflight@, incoming),
        ensures
            inner_done_response(self, incoming, op),
    {
        let mut this = self;
        let ghost pre = this;
        let task::Done { current_offset, task: task_done } = incoming;
        let task::TaskDone { block_id, kind } = task_done;
        let ghost was_defrag = match pre.inflight@ {
            Some(t) => inflight_is_defrag(t),
            None => false,
        };
        this.bg_task = BackgroundTask { current_offset, state: BackgroundTaskState::Idle };
        this.inflight = Ghost(None);
        this.defrag_outstanding = Ghost(
            if was_defrag {
                this.defrag_outstanding@.remove(block_id.serial)
            } else {
                this.defrag_outstanding@
            },
        );
        proof {
            if was_defrag && pre.defrag is Some {
                assert(pre.defrag_outstanding@.count(block_id.serial) >= 1);
                lemma_ms_remove_len(pre.defrag_outstanding@, block_id.serial);
            }
        }
        match kind {
            task::TaskDoneKind::WriteBlock(write_block) => {
                this.schema.process_write_block_task_done(&block_id);
                this.done_task = Some(DoneTask::Reenqueue { block_id });
                proof {
                    Inner::lemma_wf_core_after_completion(pre, this, block_id.serial);
                }
                match write_block.context {
                    task::WriteBlockContext::External(context) => {
                        proof {
                            assert(this.defrag_wf(0)) by {
                                if this.defrag is Some {
                                    assert forall|b: u64|
                                        #[trigger] this.defrag_outstanding@.count(b)
                                            == this.defrag_tasks_of(b) by {
                                        assert(pre.defrag_outstanding@.count(b)
                                            == pre.defrag_tasks_of(b));
                                    }
                                }
                            }
                        }
                        Op::Event(
                            Event {
                                op: EventOp::WriteBlock(
                                    TaskDoneOp { context, op: WriteBlockOp::Done { block_id } },
                                ),
                                performer: Performer { inner: this },
                            },
                        )
                    },
                    task::WriteBlockContext::Defrag => {
                        if this.defrag_enabled_exec() {
                            proof {
                                assert(pre.defrag_outstanding@.count(block_id.serial) >= 1);
                            }
                            this.defrag_dec();
                        }
                        proof {
                            assert(this.defrag_wf(0)) by {
                                if this.defrag is Some {
                                    assert forall|b: u64|
                                        #[trigger] this.defrag_outstanding@.count(b)
                                            == this.defrag_tasks_of(b) by {
                                        assert(pre.defrag_outstanding@.count(b)
                                            == pre.defrag_tasks_of(b));
                                    }
                                }
                            }
                        }
                        Op::Idle(Performer { inner: this })
                    },
                }
            },
            task::TaskDoneKind::ReadBlock(read_block) => {
                let task::TaskDoneReadBlock { block_bytes, context } = read_block;
                let block_bytes = block_bytes.freeze();
                this.lru_cache.insert(block_id.serial, block_bytes.duplicate());
                this.done_task = Some(
                    DoneTask::ReadBlock { block_id, block_bytes: block_bytes.duplicate() },
                );
                proof {
                    Inner::lemma_wf_core_after_completion(pre, this, block_id.serial);
                    assert(this.schema.contains(block_id.serial)) by {
                        assert(pre.schema.contains(block_id.serial));
                    }
                    match context {
                        task::ReadBlockContext::External(_) => {
                            assert(this.defrag_wf(0)) by {
                                if this.defrag is Some {
                                    assert forall|b: u64|
                                        #[trigger] this.defrag_outstanding@.count(b)
                                            == this.defrag_tasks_of(b) by {
                                        assert(pre.defrag_outstanding@.count(b)
                                            == pre.defrag_tasks_of(b));
                                    }
                                }
                            }
                        },
                        task::ReadBlockContext::Defrag { .. } => {
                            assert(this.defrag_wf(1)) by {
                                if this.defrag is Some {
                                    assert forall|b: u64|
                                        #[trigger] this.defrag_outstanding@.count(b)
                                            == this.defrag_tasks_of(b) by {
                                        assert(pre.defrag_outstanding@.count(b)
                                            == pre.defrag_tasks_of(b));
                                    }
                                }
                            }
                        },
                    }
                }
                this.proceed_read_block_task_done(block_id, block_bytes, context)
            },
            task::TaskDoneKind::DeleteBlock(delete_block) => {
                match delete_block.context {
                    task::DeleteBlockContext::External(context) => {
                        this.lru_cache.invalidate(block_id.serial);
                        let perform = this.schema.process_delete_block_task_done(&block_id);
                        let schema::DeleteBlockTaskDonePerform { defrag_op, block_entry } =
                            perform;
                        this.note_defrag_hint(defrag_op);
                        this.done_task = Some(
                            DoneTask::DeleteBlockRegular { block_id, block_entry },
                        );
                        proof {
                            assert forall|i: int|
                                0 <= i < block_entry.tasks_head.fifo@.len() implies !((
                            #[trigger] block_entry.tasks_head.fifo@[i]) is Flush) by {
                                assert(pre.schema.contains(block_id.serial));
                                assert(pre.schema.fifo(block_id.serial)[i]
                                    == block_entry.tasks_head.fifo@[i]);
                            }
                            Inner::lemma_wf_core_after_completion(pre, this, block_id.serial);
                            assert(this.defrag_wf(0)) by {
                                if this.defrag is Some {
                                    assert forall|b: u64|
                                        #[trigger] this.defrag_outstanding@.count(b)
                                            == this.defrag_tasks_of(b) by {
                                        assert(pre.defrag_outstanding@.count(b)
                                            == pre.defrag_tasks_of(b));
                                        if b == block_id.serial {
                                            assert(pre.defrag_tasks_of(b) == defrag_task_count(
                                                pre.schema.fifo(b),
                                            ));
                                        }
                                    }
                                }
                            }
                        }
                        Op::Event(
                            Event {
                                op: EventOp::DeleteBlock(
                                    TaskDoneOp { context, op: DeleteBlockOp::Done { block_id } },
                                ),
                                performer: Performer { inner: this },
                            },
                        )
                    },
                    task::DeleteBlockContext::Defrag { space_key } => {
                        match this.schema.process_delete_block_task_done_defrag(
                            &block_id,
                            space_key,
                        ) {
                            Some(perform) => {
                                let schema::DeleteBlockTaskDoneDefragPerform {
                                    block_offset,
                                    block_bytes,
                                    commit_type,
                                    defrag_op,
                                } = perform;
                                this.note_defrag_hint(defrag_op);
                                let fanout_bytes = block_bytes.duplicate();
                                this.done_task = Some(
                                    DoneTask::DeleteBlockDefrag {
                                        block_id,
                                        block_bytes: fanout_bytes,
                                    },
                                );
                                proof {
                                    Inner::lemma_wf_core_after_completion(
                                        pre,
                                        this,
                                        block_id.serial,
                                    );
                                    this.lemma_wf_core_weaken(block_id.serial);
                                }
                                let ghost mid = this;
                                let commit_type = match commit_type {
                                    schema::WriteBlockTaskCommitType::CommitOnly => task::CommitType::CommitOnly,
                                    schema::WriteBlockTaskCommitType::CommitAndEof => task::CommitType::CommitAndEof,
                                };
                                let kind = TaskKind::WriteBlock(
                                    task::WriteBlock {
                                        block_bytes,
                                        commit_type,
                                        context: task::WriteBlockContext::Defrag,
                                    },
                                );
                                let ghost gkind = kind;
                                this.push_task(block_offset, block_id, kind);
                                proof {
                                    Inner::lemma_wf_after_push(mid, this, block_id.serial, gkind);
                                    task::lemma_defrag_count_push(
                                        mid.schema.fifo(block_id.serial),
                                        gkind,
                                    );
                                    assert(this.defrag_wf(0)) by {
                                        if this.defrag is Some {
                                            assert forall|b: u64|
                                                #[trigger] this.defrag_outstanding@.count(b)
                                                    == this.defrag_tasks_of(b) by {
                                                assert(pre.defrag_outstanding@.count(b)
                                                    == pre.defrag_tasks_of(b));
                                                if b != block_id.serial {
                                                    assert(this.schema.contains(b)
                                                        ==> this.schema.fifo(b)
                                                        == pre.schema.fifo(b));
                                                }
                                            }
                                        }
                                    }
                                }
                                Op::Idle(Performer { inner: this })
                            },
                            None => {
                                // the move found no room: give its slot back
                                if this.defrag_enabled_exec() {
                                    proof {
                                        assert(pre.defrag_outstanding@.count(block_id.serial)
                                            >= 1);
                                    }
                                    this.defrag_dec();
                                }
                                this.done_task = Some(DoneTask::Reenqueue { block_id });
                                proof {
                                    Inner::lemma_wf_core_after_completion(
                                        pre,
                                        this,
                                        block_id.serial,
                                    );
                                    assert(this.defrag_wf(0)) by {
                                        if this.defrag is Some {
                                            assert forall|b: u64|
                                                #[trigger] this.defrag_outstanding@.count(b)
                                                    == this.defrag_tasks_of(b) by {
                                                assert(pre.defrag_outstanding@.count(b)
                                                    == pre.defrag_tasks_of(b));
                                            }
                                        }
                                    }
                                }
                                Op::Idle(Performer { inner: this })
                            },
                        }
                    },
                }
            },
            task::TaskDoneKind::Flush(flush) => {
                proof {
                    assert forall|i: int| 0 <= i < this.tasks_queue.items().len() implies {
                        let it = #[trigger] this.tasks_queue.items()[i];
                        &&& this.schema.contains(it.serial)
                        &&& it.offset == this.schema.offset_of(it.serial)
                        &&& this.schema.is_queued_flag(it.serial)
                    } by {
                        let it = pre.tasks_queue.items()[i];
                        assert(pre.schema.contains(it.serial));
                    }
                    assert(this.defrag_wf(0)) by {
                        if this.defrag is Some {
                            assert forall|b: u64| #[trigger] this.defrag_outstanding@.count(b)
                                == this.defrag_tasks_of(b) by {
                                assert(pre.defrag_outstanding@.count(b) == pre.defrag_tasks_of(
                                    b,
                                ));
                            }
                        }
                    }
                }
                Op::Event(
                    Event {
                        op: EventOp::Flush(
                            TaskDoneOp { context: flush.context, op: FlushOp::Flushed },
                        ),
                        performer: Performer { inner: this },
                    },
                )
            },
        }
    }
}

impl<C> Inner<C> {
    /// Tops up the defragmentation pipeline and dispatches the next task:
    /// a ready block's task, a pending flush barrier, or a poll for input.
    fn next_action(self) -> (op: Op<C>)
        requires
            self.wf(),
            self.done_task is None,
            !(self.bg_task.state is Await),
        ensures
            inner_step_response(self, op),
            dispatch_outcome(self, op),
    {
        let mut this = self;
        let ghost pre = this;
        // feed the defragmentation pipeline while it has capacity
        loop
            invariant
                pre == self,
                this.wf(),
                this.done_task is None,
                this.bg_task == pre.bg_task,
                this.inflight == pre.inflight,
                this.schema.next_serial_spec() == pre.schema.next_serial_spec(),
                forall|b: u64| this.schema.contains(b) == pre.schema.contains(b),
                this.lru_cache == pre.lru_cache,
                this.pending_flush == pre.pending_flush,
                pre.defrag_quiet() ==> this.defrag_quiet(),
                pre.defrag_quiet() ==> this.schema == pre.schema && this.tasks_queue
                    == pre.tasks_queue,
            ensures
                this.defrag_quiet(),
            decreases (match this.defrag {
                Option::Some(d) => d.queues.tasks.items().len(),
                Option::None => 0,
            }),
        {
            if !this.defrag_count_below_limit() {
                break ;
            }
            match this.defrag_pop() {
                None => {
                    break ;
                },
                Some(region) => {
                    match this.schema.pick_defrag_space_key(&region.key) {
                        None => {
                            // the region is stale or nothing can collapse it
                        },
                        Some(picked) => {
                            let block_bytes = this.blocks_pool.lend();
                            let ghost mid = this;
                            proof {
                                this.lemma_wf_core_weaken(picked.block_id.serial);
                            }
                            let kind = TaskKind::ReadBlock(
                                task::ReadBlock {
                                    block_header: picked.block_header,
                                    block_bytes,
                                    context: task::ReadBlockContext::Defrag {
                                        space_key: region.key,
                                    },
                                },
                            );
                            let ghost gkind = kind;
                            proof {
                                // the picked block was idle and unreserved, so
                                // no relocation read of it is anywhere
                                assert(task::defrag_read_count(
                                    mid.schema.fifo(picked.block_id.serial),
                                ) == 0);
                                assert(!mid.inflight_defrag_read(picked.block_id.serial));
                            }
                            this.push_task(picked.block_offset, picked.block_id, kind);
                            proof {
                                Inner::lemma_wf_after_push(
                                    mid,
                                    this,
                                    picked.block_id.serial,
                                    gkind,
                                );
                            }
                            this.defrag_inc();
                            proof {
                                task::lemma_defrag_count_push(
                                    mid.schema.fifo(picked.block_id.serial),
                                    gkind,
                                );
                                assert(this.defrag_wf(0)) by {
                                    if this.defrag is Some {
                                        assert forall|b: u64|
                                            #[trigger] this.defrag_outstanding@.count(b)
                                                == this.defrag_tasks_of(b) by {
                                            assert(mid.defrag_outstanding@.count(b)
                                                == mid.defrag_tasks_of(b));
                                            if b != picked.block_id.serial {
                                                assert(this.schema.contains(b)
                                                    ==> this.schema.fifo(b) == mid.schema.fifo(
                                                    b,
                                                ));
                                            }
                                        }
                                    }
                                }
                            }
                        },
                    }
                },
            }
        }
        // dispatch
        let mut st = BackgroundTaskState::Idle;
        core::mem::swap(&mut st, &mut this.bg_task.state);
        let ghost base = this;
        match st {
            BackgroundTaskState::Idle => {
                match this.tasks_queue.pop_block_id(this.bg_task.current_offset) {
                    Some(item) => {
                        let ghost mid = this;
                        proof {
                            assert(mid.schema.contains(item.serial)
                                && mid.schema.is_queued_flag(item.serial)) by {
                                let i = choose|i: int|
                                    0 <= i < base.tasks_queue.items().len()
                                        && base.tasks_queue.items()[i] == item
                                        && mid.tasks_queue.items()
                                        == base.tasks_queue.items().remove(i);
                                assert(base.tasks_queue.items()[i] == item);
                            }
                        }
                        this.schema.set_unqueued(item.serial);
                        match this.schema.fifo_pop_front(item.serial) {
                            Some(kind) => {
                                let ghost gkind = kind;
                                this.inflight = Ghost(
                                    Some(summary_of_kind(item.serial, gkind)),
                                );
                                this.bg_task.state = BackgroundTaskState::Await {
                                    block_id: Id::new(item.serial),
                                };
                                proof {
                                    task::lemma_defrag_count_remove(
                                        base.schema.fifo(item.serial),
                                        0,
                                    );
                                    assert(!(gkind is Flush)) by {
                                        assert(base.schema.fifo(item.serial)[0] == gkind);
                                    }
                                    // the dispatched block leaves the ready queue
                                    let ghost removed = choose|i: int|
                                        0 <= i < base.tasks_queue.items().len()
                                            && base.tasks_queue.items()[i] == item
                                            && this.tasks_queue.items()
                                            == base.tasks_queue.items().remove(i);
                                    assert forall|i: int|
                                        0 <= i < this.tasks_queue.items().len() implies {
                                        let it = #[trigger] this.tasks_queue.items()[i];
                                        &&& this.schema.contains(it.serial)
                                        &&& it.offset == this.schema.offset_of(it.serial)
                                        &&& this.schema.is_queued_flag(it.serial)
                                    } by {
                                        let i0: int = if i < removed {
                                            i
                                        } else {
                                            i + 1
                                        };
                                        let it = base.tasks_queue.items()[i0];
                                        assert(base.schema.contains(it.serial));
                                        assert(it.serial != item.serial);
                                    }
                                    assert forall|b: u64|
                                        #[trigger] this.schema.contains(b)
                                            && this.schema.is_queued_flag(b) implies
                                        this.tasks_queue.contains_serial(b) by {
                                        assert(base.schema.contains(b)
                                            && base.schema.is_queued_flag(b));
                                        let i = choose|i: int|
                                            0 <= i < base.tasks_queue.items().len()
                                                && base.tasks_queue.items()[i].serial == b;
                                        if i < removed {
                                            assert(this.tasks_queue.items()[i].serial == b);
                                        } else {
                                            assert(i != removed);
                                            assert(this.tasks_queue.items()[i - 1].serial == b);
                                        }
                                    }
                                    assert forall|b: u64, i: int|
                                        #[trigger] this.schema.contains(b) && 0 <= i
                                            < this.schema.fifo(b).len() implies !((
                                    #[trigger] this.schema.fifo(b)[i]) is Flush) by {
                                        assert(base.schema.contains(b));
                                        if b == item.serial {
                                            assert(this.schema.fifo(b) == base.schema.fifo(
                                                b,
                                            ).remove(0));
                                            assert(base.schema.fifo(b)[i + 1]
                                                == this.schema.fifo(b)[i]);
                                        } else {
                                            assert(this.schema.fifo(b) == base.schema.fifo(b));
                                        }
                                    }
                                    assert(this.defrag_wf(0)) by {
                                        if this.defrag is Some {
                                            assert forall|b: u64|
                                                #[trigger] this.defrag_outstanding@.count(b)
                                                    == this.defrag_tasks_of(b) by {
                                                assert(base.defrag_outstanding@.count(b)
                                                    == base.defrag_tasks_of(b));
                                                if b != item.serial {
                                                    assert(this.schema.contains(b)
                                                        ==> this.schema.fifo(b)
                                                        == base.schema.fifo(b));
                                                }
                                            }
                                        }
                                    }
                                    task::lemma_drc_remove(base.schema.fifo(item.serial), 0);
                                    assert forall|b: u64| #[trigger] this.schema.contains(
                                        b,
                                    ) implies {
                                        &&& (this.inflight_defrag_read(b)
                                            ==> this.schema.entry_map()[b].moving
                                            && this.schema.entry_map()[b].cached is None
                                            && task::defrag_read_count(this.schema.fifo(b))
                                            == 0)
                                        &&& (task::defrag_read_count(this.schema.fifo(b)) >= 1
                                            ==> this.schema.entry_map()[b].moving
                                            && this.schema.entry_map()[b].cached is None
                                            && task::defrag_read_count(this.schema.fifo(b)) == 1
                                            && !this.inflight_defrag_read(b))
                                    } by {
                                        if b == item.serial {
                                            if task::kind_is_defrag_read(gkind) {
                                                assert(task::defrag_read_count(
                                                    base.schema.fifo(b),
                                                ) >= 1);
                                            }
                                        } else {
                                            assert(base.schema.contains(b));
                                            assert(this.schema.entry_map()[b]
                                                == base.schema.entry_map()[b]);
                                        }
                                    }
                                }
                                Op::Query(
                                    QueryOp::InterpretTask(
                                        InterpretTask {
                                            offset: item.offset,
                                            task: task::Task {
                                                block_id: Id::new(item.serial),
                                                kind,
                                            },
                                            next: InterpretTaskNext { inner: this },
                                        },
                                    ),
                                )
                            },
                            None => vstd::pervasive::unreached(),
                        }
                    },
                    None => {
                        if this.pending_flush.len() > 0 {
                            let context = this.pending_flush.remove(0);
                            this.inflight = Ghost(Some(InflightTask::Flush));
                            this.bg_task.state = BackgroundTaskState::Await {
                                block_id: Id::new(0),
                            };
                            let offset = this.bg_task.current_offset;
                            proof {
                                assert(this.defrag_wf(0)) by {
                                    if this.defrag is Some {
                                        assert forall|b: u64|
                                            #[trigger] this.defrag_outstanding@.count(b)
                                                == this.defrag_tasks_of(b) by {
                                            assert(base.defrag_outstanding@.count(b)
                                                == base.defrag_tasks_of(b));
                                        }
                                    }
                                }
                            }
                            Op::Query(
                                QueryOp::InterpretTask(
                                    InterpretTask {
                                        offset,
                                        task: task::Task {
                                            block_id: Id::new(0),
                                            kind: TaskKind::Flush(task::Flush { context }),
                                        },
                                        next: InterpretTaskNext { inner: this },
                                    },
                                ),
                            )
                        } else {
                            Op::Query(
                                QueryOp::PollRequest(
                                    PollRequest { next: PollRequestNext { inner: this } },
                                ),
                            )
                        }
                    },
                }
            },
            BackgroundTaskState::InProgress { block_id, interpreter_context } => {
                this.bg_task.state = BackgroundTaskState::Await { block_id };
                Op::Query(
                    QueryOp::PollRequestAndInterpreter(
                        PollRequestAndInterpreter {
                            interpreter_context,
                            next: PollRequestAndInterpreterNext { inner: this },
                        },
                    ),
                )
            },
            BackgroundTaskState::Await { .. } => vstd::pervasive::unreached(),
        }
    }
}

impl<C> Inner<C> {
    /// How many defragmentation tasks a drained record still carries for
    /// its block, on top of the live accounting.
    spec fn dbr_extra(&self, serial: u64, fifo: Seq<TaskKind<C>>, b: u64) -> nat {
        self.defrag_tasks_of(b) + if b == serial {
            defrag_task_count(fifo)
        } else {
            0nat
        }
    }

    spec fn dbr_accounting(&self, serial: u64, fifo: Seq<TaskKind<C>>) -> bool {
        match self.defrag {
            Some(d) => {
                &&& d.in_progress_tasks_count == self.defrag_outstanding@.len()
                &&& d.in_progress_tasks_count <= d.in_progress_tasks_limit
                &&& forall|b: u64|
                    #[trigger] self.defrag_outstanding@.count(b) == self.dbr_extra(
                        serial,
                        fifo,
                        b,
                    )
            },
            None => true,
        }
    }

    /// Drains the task FIFO of a deleted block: relocation work on it is
    /// cancelled, and every still-queued client gets its `NotFound`, one
    /// reply per poke.
    #[verifier::rlimit(50)]
    fn drain_delete_regular(
        self,
        block_id: Id,
        block_entry: schema::BlockEntry<C>,
    ) -> (op: Op<C>)
        requires
            self.wf_core(),
            self.done_task is None,
            self.bg_task.state is Idle,
            !self.schema.contains(block_id.serial),
            forall|i: int|
                0 <= i < block_entry.tasks_head.fifo@.len() ==> !((
                #[trigger] block_entry.tasks_head.fifo@[i]) is Flush),
            self.dbr_accounting(block_id.serial, block_entry.tasks_head.fifo@),
        ensures
            op_wf(op),
            op_block_id_bound(op) == self.schema.next_serial_spec(),
            forall|b: u64| op_has_block(op, b) == self.schema.contains(b),
            op_cache(op) == self.lru_cache.contents(),
            op_head_offset(op) == self.bg_task.current_offset,
            match task::first_external_read(block_entry.tasks_head.fifo@) {
                Some(c) => op_event_read_not_found(op, c) && op_fanout_pending(op),
                None => match task::first_external_delete(block_entry.tasks_head.fifo@) {
                    Some(c) => op_event_delete_not_found(op, c) && op_fanout_pending(op),
                    None => op is Query && op_defrag_topped_up(op),
                },
            },
    {
        let mut this = self;
        let ghost pre = this;
        let mut entry = block_entry;
        let serial = block_id.serial;
        // relocation writes aimed at the deleted block are cancelled; no
        // client write can be queued here, since a block's write always
        // precedes every other task of its life
        loop
            invariant
                pre == self,
                this.wf_core(),
                this.done_task is None,
                this.bg_task == pre.bg_task,
                this.bg_task.state is Idle,
                !this.schema.contains(serial),
                serial == block_id.serial,
                forall|i: int|
                    0 <= i < entry.tasks_head.fifo@.len() ==> !((
                    #[trigger] entry.tasks_head.fifo@[i]) is Flush),
                this.dbr_accounting(serial, entry.tasks_head.fifo@),
                this.schema == pre.schema,
                this.lru_cache == pre.lru_cache,
                task::first_external_read(entry.tasks_head.fifo@) == task::first_external_read(
                    block_entry.tasks_head.fifo@,
                ),
                task::first_external_delete(entry.tasks_head.fifo@)
                    == task::first_external_delete(block_entry.tasks_head.fifo@),
            ensures
                forall|i: int|
                    0 <= i < entry.tasks_head.fifo@.len() ==> !task::kind_is_write(
                        #[trigger] entry.tasks_head.fifo@[i],
                    ),
                task::first_external_read(entry.tasks_head.fifo@) == task::first_external_read(
                    block_entry.tasks_head.fifo@,
                ),
                task::first_external_delete(entry.tasks_head.fifo@)
                    == task::first_external_delete(block_entry.tasks_head.fifo@),
            decreases entry.tasks_head.fifo@.len(),
        {
            let ghost fifo0 = entry.tasks_head.fifo@;
            match entry.tasks_head.pop_first_write() {
                Some(write_block) => {
                    proof {
                        let i = choose|i: int|
                            0 <= i < fifo0.len() && fifo0[i] == TaskKind::<C>::WriteBlock(
                                write_block,
                            ) && entry.tasks_head.fifo@ == fifo0.remove(i);
                        task::lemma_defrag_count_remove(fifo0, i);
                        task::lemma_fer_remove_non_read(fifo0, i);
                        task::lemma_fed_remove_non_delete(fifo0, i);
                        assert forall|j: int|
                            0 <= j < entry.tasks_head.fifo@.len() implies !((
                        #[trigger] entry.tasks_head.fifo@[j]) is Flush) by {
                            if j < i {
                                assert(entry.tasks_head.fifo@[j] == fifo0[j]);
                            } else {
                                assert(entry.tasks_head.fifo@[j] == fifo0[j + 1]);
                            }
                        }
                    }
                    match write_block.context {
                        task::WriteBlockContext::External(_) => {
                            // cannot arise: dropped without a reply
                        },
                        task::WriteBlockContext::Defrag => {
                            proof {
                                if this.defrag is Some {
                                    assert(this.defrag_outstanding@.count(serial) >= 1);
                                    lemma_ms_remove_len(this.defrag_outstanding@, serial);
                                }
                            }
                            this.defrag_outstanding = Ghost(
                                this.defrag_outstanding@.remove(serial),
                            );
                            if this.defrag_enabled_exec() {
                                this.defrag_dec();
                            }
                        },
                    }
                },
                None => {
                    break ;
                },
            }
        }
        // every queued reader learns the block is gone
        loop
            invariant
                pre == self,
                this.wf_core(),
                this.done_task is None,
                this.bg_task == pre.bg_task,
                this.bg_task.state is Idle,
                !this.schema.contains(serial),
                serial == block_id.serial,
                forall|i: int|
                    0 <= i < entry.tasks_head.fifo@.len() ==> !((
                    #[trigger] entry.tasks_head.fifo@[i]) is Flush),
                this.dbr_accounting(serial, entry.tasks_head.fifo@),
                this.schema == pre.schema,
                this.lru_cache == pre.lru_cache,
                forall|i: int|
                    0 <= i < entry.tasks_head.fifo@.len() ==> !task::kind_is_write(
                        #[trigger] entry.tasks_head.fifo@[i],
                    ),
                task::first_external_read(entry.tasks_head.fifo@) == task::first_external_read(
                    block_entry.tasks_head.fifo@,
                ),
                task::first_external_delete(entry.tasks_head.fifo@)
                    == task::first_external_delete(block_entry.tasks_head.fifo@),
            ensures
                forall|i: int|
                    0 <= i < entry.tasks_head.fifo@.len() ==> !task::kind_is_read(
                        #[trigger] entry.tasks_head.fifo@[i],
                    ) && !task::kind_is_write(entry.tasks_head.fifo@[i]),
                task::first_external_read(block_entry.tasks_head.fifo@) is None,
                task::first_external_delete(entry.tasks_head.fifo@)
                    == task::first_external_delete(block_entry.tasks_head.fifo@),
            decreases entry.tasks_head.fifo@.len(),
        {
            let ghost fifo0 = entry.tasks_head.fifo@;
            match entry.tasks_head.pop_first_read() {
                Some(read_block) => {
                    let ghost grb = read_block;
                    let ghost gi = choose|i: int|
                        0 <= i < fifo0.len() && fifo0[i] == TaskKind::<C>::ReadBlock(grb)
                            && entry.tasks_head.fifo@ == fifo0.remove(i) && (forall|j: int|
                            0 <= j < i ==> !task::kind_is_read(fifo0[j]));
                    proof {
                        task::lemma_defrag_count_remove(fifo0, gi);
                        task::lemma_fed_remove_non_delete(fifo0, gi);
                        assert forall|j: int|
                            0 <= j < entry.tasks_head.fifo@.len() implies !((
                        #[trigger] entry.tasks_head.fifo@[j]) is Flush) by {
                            if j < gi {
                                assert(entry.tasks_head.fifo@[j] == fifo0[j]);
                            } else {
                                assert(entry.tasks_head.fifo@[j] == fifo0[j + 1]);
                            }
                        }
                    }
                    let task::ReadBlock { block_bytes, context, .. } = read_block;
                    this.blocks_pool.repay(block_bytes.freeze());
                    match context {
                        task::ReadBlockContext::External(context) => {
                            proof {
                                task::lemma_fer_at(fifo0, gi, grb, context);
                            }
                            this.done_task = Some(
                                DoneTask::DeleteBlockRegular { block_id, block_entry: entry },
                            );
                            return Op::Event(
                                Event {
                                    op: EventOp::ReadBlock(
                                        TaskDoneOp { context, op: ReadBlockOp::NotFound },
                                    ),
                                    performer: Performer { inner: this },
                                },
                            );
                        },
                        task::ReadBlockContext::Defrag { .. } => {
                            proof {
                                task::lemma_fer_remove_defrag_read(fifo0, gi, grb);
                                if this.defrag is Some {
                                    assert(this.defrag_outstanding@.count(serial) >= 1);
                                    lemma_ms_remove_len(this.defrag_outstanding@, serial);
                                }
                            }
                            this.defrag_outstanding = Ghost(
                                this.defrag_outstanding@.remove(serial),
                            );
                            if this.defrag_enabled_exec() {
                                this.defrag_dec();
                            }
                        },
                    }
                },
                None => {
                    proof {
                        task::lemma_fer_none(entry.tasks_head.fifo@);
                    }
                    break ;
                },
            }
        }
        // every queued deleter learns it lost the race
        loop
            invariant
                pre == self,
                this.wf_core(),
                this.done_task is None,
                this.bg_task == pre.bg_task,
                this.bg_task.state is Idle,
                !this.schema.contains(serial),
                serial == block_id.serial,
                forall|i: int|
                    0 <= i < entry.tasks_head.fifo@.len() ==> !((
                    #[trigger] entry.tasks_head.fifo@[i]) is Flush),
                forall|i: int|
                    0 <= i < entry.tasks_head.fifo@.len() ==> !task::kind_is_read(
                        #[trigger] entry.tasks_head.fifo@[i],
                    ) && !task::kind_is_write(entry.tasks_head.fifo@[i]),
                this.dbr_accounting(serial, entry.tasks_head.fifo@),
                this.schema == pre.schema,
                this.lru_cache == pre.lru_cache,
                task::first_external_read(block_entry.tasks_head.fifo@) is None,
                task::first_external_delete(entry.tasks_head.fifo@)
                    == task::first_external_delete(block_entry.tasks_head.fifo@),
            ensures
                forall|i: int|
                    0 <= i < entry.tasks_head.fifo@.len() ==> !task::kind_is_delete(
                        #[trigger] entry.tasks_head.fifo@[i],
                    ) && !task::kind_is_read(entry.tasks_head.fifo@[i])
                        && !task::kind_is_write(entry.tasks_head.fifo@[i]),
                task::first_external_read(block_entry.tasks_head.fifo@) is None,
                task::first_external_delete(block_entry.tasks_head.fifo@) is None,
            decreases entry.tasks_head.fifo@.len(),
        {
            let ghost fifo0 = entry.tasks_head.fifo@;
            match entry.tasks_head.pop_first_delete() {
                Some(delete_block) => {
                    let ghost gdb = delete_block;
                    let ghost gi = choose|i: int|
                        0 <= i < fifo0.len() && fifo0[i] == TaskKind::<C>::DeleteBlock(gdb)
                            && entry.tasks_head.fifo@ == fifo0.remove(i) && (forall|j: int|
                            0 <= j < i ==> !task::kind_is_delete(fifo0[j]));
                    proof {
                        task::lemma_defrag_count_remove(fifo0, gi);
                        assert forall|j: int|
                            0 <= j < entry.tasks_head.fifo@.len() implies !((
                        #[trigger] entry.tasks_head.fifo@[j]) is Flush)
                            && !task::kind_is_read(entry.tasks_head.fifo@[j])
                            && !task::kind_is_write(entry.tasks_head.fifo@[j]) by {
                            if j < gi {
                                assert(entry.tasks_head.fifo@[j] == fifo0[j]);
                            } else {
                                assert(entry.tasks_head.fifo@[j] == fifo0[j + 1]);
                            }
                        }
                    }
                    match delete_block.context {
                        task::DeleteBlockContext::External(context) => {
                            proof {
                                task::lemma_fed_at(fifo0, gi, gdb, context);
                            }
                            this.done_task = Some(
                                DoneTask::DeleteBlockRegular { block_id, block_entry: entry },
                            );
                            return Op::Event(
                                Event {
                                    op: EventOp::DeleteBlock(
                                        TaskDoneOp { context, op: DeleteBlockOp::NotFound },
                                    ),
                                    performer: Performer { inner: this },
                                },
                            );
                        },
                        task::DeleteBlockContext::Defrag { .. } => {
                            proof {
                                task::lemma_fed_remove_defrag_delete(fifo0, gi, gdb);
                                if this.defrag is Some {
                                    assert(this.defrag_outstanding@.count(serial) >= 1);
                                    lemma_ms_remove_len(this.defrag_outstanding@, serial);
                                }
                            }
                            this.defrag_outstanding = Ghost(
                                this.defrag_outstanding@.remove(serial),
                            );
                            if this.defrag_enabled_exec() {
                                this.defrag_dec();
                            }
                        },
                    }
                },
                None => {
                    proof {
                        task::lemma_fed_none(entry.tasks_head.fifo@);
                    }
                    break ;
                },
            }
        }
        proof {
            // the record's FIFO is exhausted: every task was a write, read
            // or delete
            assert(entry.tasks_head.fifo@.len() == 0) by {
                if entry.tasks_head.fifo@.len() > 0 {
                    let k = entry.tasks_head.fifo@[0];
                    match k {
                        TaskKind::WriteBlock(_) => {},
                        TaskKind::ReadBlock(_) => {},
                        TaskKind::DeleteBlock(_) => {},
                        TaskKind::Flush(_) => {},
                    }
                }
            }
            assert(this.defrag_wf(0)) by {
                if this.defrag is Some {
                    assert forall|b: u64| #[trigger] this.defrag_outstanding@.count(b)
                        == this.defrag_tasks_of(b) by {
                        assert(this.defrag_outstanding@.count(b) == this.dbr_extra(
                            serial,
                            entry.tasks_head.fifo@,
                            b,
                        ));
                    }
                }
            }
        }
        let ghost gthis = this;
        let op = this.next_action();
        proof {
            lemma_dispatch_is_query(gthis, op);
        }
        op
    }

    /// One step of the machine: finish any owed fan-out, then top up the
    /// defragmentation pipeline and dispatch.
    fn incoming_poke(self) -> (op: Op<C>)
        requires
            self.wf(),
            !(self.bg_task.state is Await),
        ensures
            inner_step_response(self, op),
            poke_outcome(self, op),
    {
        let mut this = self;
        let ghost pre = this;
        let mut done: Option<DoneTask<C>> = None;
        core::mem::swap(&mut done, &mut this.done_task);
        match done {
            None => this.next_action(),
            Some(DoneTask::Reenqueue { block_id }) => {
                match this.schema.block_offset(block_id.serial) {
                    Some(block_offset) => {
                        let ghost base = this;
                        match this.schema.fifo_pop_front(block_id.serial) {
                            Some(kind) => {
                                let ghost gkind = kind;
                                this.defrag_outstanding = Ghost(
                                    if task::kind_is_defrag(gkind) {
                                        this.defrag_outstanding@.remove(block_id.serial)
                                    } else {
                                        this.defrag_outstanding@
                                    },
                                );
                                let ghost mid = this;
                                proof {
                                    task::lemma_defrag_count_remove(
                                        base.schema.fifo(block_id.serial),
                                        0,
                                    );
                                    assert(!(gkind is Flush)) by {
                                        assert(base.schema.fifo(block_id.serial)[0] == gkind);
                                    }
                                    if task::kind_is_defrag(gkind) && base.defrag is Some {
                                        assert(base.defrag_outstanding@.count(block_id.serial)
                                            >= 1);
                                        lemma_ms_remove_len(
                                            base.defrag_outstanding@,
                                            block_id.serial,
                                        );
                                    }
                                    // the queue discipline survives the pop
                                    assert forall|i: int|
                                        0 <= i < mid.tasks_queue.items().len() implies {
                                        let it = #[trigger] mid.tasks_queue.items()[i];
                                        &&& mid.schema.contains(it.serial)
                                        &&& it.offset == mid.schema.offset_of(it.serial)
                                        &&& mid.schema.is_queued_flag(it.serial)
                                    } by {
                                        let it = base.tasks_queue.items()[i];
                                        assert(base.schema.contains(it.serial));
                                    }
                                    assert forall|b: u64, i: int|
                                        #[trigger] mid.schema.contains(b) && 0 <= i
                                            < mid.schema.fifo(b).len() implies !((
                                    #[trigger] mid.schema.fifo(b)[i]) is Flush) by {
                                        assert(base.schema.contains(b));
                                        if b == block_id.serial {
                                            assert(mid.schema.fifo(b) == base.schema.fifo(
                                                b,
                                            ).remove(0));
                                            assert(base.schema.fifo(b)[i + 1]
                                                == mid.schema.fifo(b)[i]);
                                        } else {
                                            assert(mid.schema.fifo(b) == base.schema.fifo(b));
                                        }
                                    }
                                    assert forall|b: u64|
                                        #[trigger] mid.schema.contains(b)
                                            && mid.schema.is_queued_flag(b) implies
                                        mid.tasks_queue.contains_serial(b) by {
                                        assert(base.schema.contains(b)
                                            && base.schema.is_queued_flag(b));
                                    }
                                    assert forall|b: u64|
                                        b != block_id.serial && #[trigger] mid.schema.contains(b)
                                            && mid.schema.is_queued_flag(b)
                                            && !mid.done_mentions(b) implies mid.schema.fifo(
                                        b,
                                    ).len() >= 1 by {
                                        assert(pre.schema.contains(b));
                                        assert(mid.schema.fifo(b) == pre.schema.fifo(b));
                                        assert(!pre.done_mentions(b));
                                    }
                                    assert forall|b: u64|
                                        b != block_id.serial && #[trigger] mid.schema.contains(b)
                                            && mid.schema.fifo(b).len() > 0
                                            && !mid.schema.is_queued_flag(b) && !mid.owns(b)
                                            implies mid.done_mentions(b) by {
                                        assert(pre.schema.contains(b));
                                        assert(mid.schema.fifo(b) == pre.schema.fifo(b));
                                        assert(!pre.owns(b));
                                        assert(!pre.done_mentions(b));
                                    }
                                    Inner::lemma_moves_wf_after_fifo_remove(
                                        base,
                                        mid,
                                        block_id.serial,
                                        0,
                                    );
                                    assert(mid.wf_core_except(block_id.serial));
                                    if task::kind_is_defrag_read(gkind) {
                                        // the popped task was the block's unique
                                        // relocation read
                                        task::lemma_drc_remove(
                                            base.schema.fifo(block_id.serial),
                                            0,
                                        );
                                        assert(task::defrag_read_count(
                                            base.schema.fifo(block_id.serial),
                                        ) >= 1);
                                    }
                                }
                                this.push_task(block_offset, block_id, kind);
                                proof {
                                    Inner::lemma_wf_after_push(
                                        mid,
                                        this,
                                        block_id.serial,
                                        gkind,
                                    );
                                    task::lemma_defrag_count_push(
                                        mid.schema.fifo(block_id.serial),
                                        gkind,
                                    );
                                    assert(this.defrag_wf(0)) by {
                                        if this.defrag is Some {
                                            assert forall|b: u64|
                                                #[trigger] this.defrag_outstanding@.count(b)
                                                    == this.defrag_tasks_of(b) by {
                                                assert(base.defrag_outstanding@.count(b)
                                                    == base.defrag_tasks_of(b));
                                                if b != block_id.serial {
                                                    assert(this.schema.contains(b)
                                                        ==> this.schema.fifo(b)
                                                        == base.schema.fifo(b));
                                                }
                                            }
                                        }
                                    }
                                }
                                let ghost gthis = this;
                                let op = this.next_action();
                                proof {
                                    lemma_dispatch_is_query(gthis, op);
                                }
                                op
                            },
                            None => {
                                // nothing left for this block: drop any
                                // stale ready-queue entry
                                if this.schema.block_is_queued(block_id.serial) {
                                    this.tasks_queue.remove_serial(block_id.serial);
                                    this.schema.set_unqueued(block_id.serial);
                                    proof {
                                        let ghost removed = choose|i: int|
                                            0 <= i < base.tasks_queue.items().len()
                                                && base.tasks_queue.items()[i].serial
                                                == block_id.serial && this.tasks_queue.items()
                                                == base.tasks_queue.items().remove(i);
                                        assert forall|i: int|
                                            0 <= i < this.tasks_queue.items().len() implies {
                                            let it = #[trigger] this.tasks_queue.items()[i];
                                            &&& this.schema.contains(it.serial)
                                            &&& it.offset == this.schema.offset_of(it.serial)
                                            &&& this.schema.is_queued_flag(it.serial)
                                        } by {
                                            let i0: int = if i < removed {
                                                i
                                            } else {
                                                i + 1
                                            };
                                            let it = base.tasks_queue.items()[i0];
                                            assert(base.schema.contains(it.serial));
                                            assert(it.serial != block_id.serial);
                                        }
                                        assert forall|b: u64|
                                            #[trigger] this.schema.contains(b)
                                                && this.schema.is_queued_flag(b) implies
                                            this.tasks_queue.contains_serial(b) by {
                                            assert(base.schema.contains(b)
                                                && base.schema.is_queued_flag(b));
                                            let i = choose|i: int|
                                                0 <= i < base.tasks_queue.items().len()
                                                    && base.tasks_queue.items()[i].serial == b;
                                            if i < removed {
                                                assert(this.tasks_queue.items()[i].serial == b);
                                            } else {
                                                assert(i != removed);
                                                assert(this.tasks_queue.items()[i - 1].serial
                                                    == b);
                                            }
                                        }
                                        assert forall|b: u64, i: int|
                                            #[trigger] this.schema.contains(b) && 0 <= i
                                                < this.schema.fifo(b).len() implies !((
                                        #[trigger] this.schema.fifo(b)[i]) is Flush) by {
                                            assert(base.schema.contains(b));
                                            assert(this.schema.fifo(b) == base.schema.fifo(b));
                                        }
                                        assert(this.defrag_wf(0)) by {
                                            if this.defrag is Some {
                                                assert forall|b: u64|
                                                    #[trigger] this.defrag_outstanding@.count(b)
                                                        == this.defrag_tasks_of(b) by {
                                                    assert(base.defrag_outstanding@.count(b)
                                                        == base.defrag_tasks_of(b));
                                                    assert(this.schema.contains(b)
                                                        ==> this.schema.fifo(b)
                                                        == base.schema.fifo(b));
                                                }
                                            }
                                        }
                                    }
                                }
                                let ghost gthis = this;
                                let op = this.next_action();
                                proof {
                                    lemma_dispatch_is_query(gthis, op);
                                }
                                op
                            },
                        }
                    },
                    None => {
                        let ghost gthis = this;
                        let op = this.next_action();
                        proof {
                            lemma_dispatch_is_query(gthis, op);
                        }
                        op
                    },
                }
            },
            Some(DoneTask::ReadBlock { block_id, block_bytes }) => {
                if this.schema.contains_block(block_id.serial) {
                    let ghost base = this;
                    match this.schema.fifo_pop_first_read(block_id.serial) {
                        Some(read_block) => {
                            let ghost grb = read_block;
                            let ghost gi = choose|i: int|
                                0 <= i < base.schema.fifo(block_id.serial).len()
                                    && base.schema.fifo(block_id.serial)[i]
                                    == TaskKind::<C>::ReadBlock(grb) && (forall|j: int|
                                    0 <= j < i ==> !task::kind_is_read(
                                        base.schema.fifo(block_id.serial)[j],
                                    )) && this.schema.fifo(block_id.serial) == base.schema.fifo(
                                    block_id.serial,
                                ).remove(i);
                            proof {
                                task::lemma_first_read_at(
                                    base.schema.fifo(block_id.serial),
                                    gi,
                                    grb,
                                );
                            }
                            let task::ReadBlock {
                                block_bytes: scratch,
                                context,
                                ..
                            } = read_block;
                            this.blocks_pool.repay(scratch.freeze());
                            this.defrag_outstanding = Ghost(
                                match context {
                                    task::ReadBlockContext::Defrag { .. } => this.defrag_outstanding@.remove(
                                        block_id.serial,
                                    ),
                                    _ => this.defrag_outstanding@,
                                },
                            );
                            this.done_task = Some(
                                DoneTask::ReadBlock {
                                    block_id,
                                    block_bytes: block_bytes.duplicate(),
                                },
                            );
                            proof {
                                let i = choose|i: int|
                                    0 <= i < base.schema.fifo(block_id.serial).len()
                                        && base.schema.fifo(block_id.serial)[i]
                                        == TaskKind::<C>::ReadBlock(read_block)
                                        && this.schema.fifo(block_id.serial)
                                        == base.schema.fifo(block_id.serial).remove(i);
                                task::lemma_defrag_count_remove(
                                    base.schema.fifo(block_id.serial),
                                    i,
                                );
                                if (context matches task::ReadBlockContext::Defrag { .. })
                                    && base.defrag is Some {
                                    assert(base.defrag_outstanding@.count(block_id.serial) >= 1);
                                    lemma_ms_remove_len(
                                        base.defrag_outstanding@,
                                        block_id.serial,
                                    );
                                }
                                assert forall|ii: int|
                                    0 <= ii < this.tasks_queue.items().len() implies {
                                    let it = #[trigger] this.tasks_queue.items()[ii];
                                    &&& this.schema.contains(it.serial)
                                    &&& it.offset == this.schema.offset_of(it.serial)
                                    &&& this.schema.is_queued_flag(it.serial)
                                } by {
                                    let it = base.tasks_queue.items()[ii];
                                    assert(base.schema.contains(it.serial));
                                }
                                assert forall|b: u64|
                                    #[trigger] this.schema.contains(b)
                                        && this.schema.is_queued_flag(b) implies
                                    this.tasks_queue.contains_serial(b) by {
                                    assert(base.schema.contains(b)
                                        && base.schema.is_queued_flag(b));
                                }
                                assert forall|b: u64, ii: int|
                                    #[trigger] this.schema.contains(b) && 0 <= ii
                                        < this.schema.fifo(b).len() implies !((
                                #[trigger] this.schema.fifo(b)[ii]) is Flush) by {
                                    assert(base.schema.contains(b));
                                    if b == block_id.serial {
                                        assert(this.schema.fifo(b) == base.schema.fifo(
                                            b,
                                        ).remove(i));
                                        if ii < i {
                                            assert(this.schema.fifo(b)[ii]
                                                == base.schema.fifo(b)[ii]);
                                        } else {
                                            assert(this.schema.fifo(b)[ii]
                                                == base.schema.fifo(b)[ii + 1]);
                                        }
                                    } else {
                                        assert(this.schema.fifo(b) == base.schema.fifo(b));
                                    }
                                }
                                assert(base.inflight@ is None);
                                Inner::lemma_moves_wf_after_fifo_remove(
                                    base,
                                    this,
                                    block_id.serial,
                                    i,
                                );
                                if task::kind_is_defrag_read(TaskKind::<C>::ReadBlock(grb)) {
                                    // the served read was the block's unique
                                    // relocation read: the stash is free
                                    task::lemma_drc_remove(
                                        base.schema.fifo(block_id.serial),
                                        i,
                                    );
                                    assert(task::defrag_read_count(
                                        base.schema.fifo(block_id.serial),
                                    ) >= 1);
                                    assert(task::defrag_read_count(
                                        this.schema.fifo(block_id.serial),
                                    ) == 0);
                                    assert(this.schema.entry_map()[block_id.serial].cached
                                        is None);
                                }
                                assert(this.wf_core());
                                match context {
                                    task::ReadBlockContext::External(_) => {
                                        assert(this.defrag_wf(0)) by {
                                            if this.defrag is Some {
                                                assert forall|b: u64|
                                                    #[trigger] this.defrag_outstanding@.count(b)
                                                        == this.defrag_tasks_of(b) by {
                                                    assert(base.defrag_outstanding@.count(b)
                                                        == base.defrag_tasks_of(b));
                                                }
                                            }
                                        }
                                    },
                                    task::ReadBlockContext::Defrag { .. } => {
                                        assert(this.defrag_wf(1)) by {
                                            if this.defrag is Some {
                                                assert forall|b: u64|
                                                    #[trigger] this.defrag_outstanding@.count(b)
                                                        == this.defrag_tasks_of(b) by {
                                                    assert(base.defrag_outstanding@.count(b)
                                                        == base.defrag_tasks_of(b));
                                                }
                                            }
                                        }
                                    },
                                }
                            }
                            this.proceed_read_block_task_done(block_id, block_bytes, context)
                        },
                        None => {
                            proof {
                                task::lemma_first_read_none(base.schema.fifo(block_id.serial));
                            }
                            this.done_task = Some(DoneTask::Reenqueue { block_id });
                            Op::Idle(Performer { inner: this })
                        },
                    }
                } else {
                    this.done_task = Some(DoneTask::Reenqueue { block_id });
                    Op::Idle(Performer { inner: this })
                }
            },
            Some(DoneTask::DeleteBlockRegular { block_id, block_entry }) => {
                proof {
                    assert(pre.done_task == Some(
                        DoneTask::DeleteBlockRegular { block_id, block_entry },
                    ));
                    assert(pre.done_ok());
                    assert(this.dbr_accounting(block_id.serial, block_entry.tasks_head.fifo@)) by {
                        if this.defrag is Some {
                            assert forall|b: u64| #[trigger] this.defrag_outstanding@.count(b)
                                == this.dbr_extra(
                                block_id.serial,
                                block_entry.tasks_head.fifo@,
                                b,
                            ) by {
                                assert(pre.defrag_outstanding@.count(b) == pre.defrag_tasks_of(
                                    b,
                                ));
                            }
                        }
                    }
                }
                this.drain_delete_regular(block_id, block_entry)
            },
            Some(DoneTask::DeleteBlockDefrag { block_id, block_bytes }) => {
                this.drain_delete_defrag(block_id, block_bytes)
            },
        }
    }
}

impl<C> Inner<C> {
    /// Fans out a relocation's payload: every reader that queued on the
    /// block while it moved receives the bytes the relocation read, one
    /// reply per poke. Relocation reads that raced the move are cancelled.
    fn drain_delete_defrag(self, block_id: Id, block_bytes: Bytes) -> (op: Op<C>)
        requires
            self.wf_core_except(block_id.serial),
            self.defrag_wf(0),
            self.done_task is None,
            self.bg_task.state is Idle,
        ensures
            op_wf(op),
            op_block_id_bound(op) == self.schema.next_serial_spec(),
            forall|b: u64| op_has_block(op, b) == self.schema.contains(b),
            op_cache(op) == self.lru_cache.contents(),
            op_head_offset(op) == self.bg_task.current_offset,
            (if self.schema.contains(block_id.serial) {
                match task::first_external_read(self.schema.fifo(block_id.serial)) {
                    Some(c) => op_event_read_done(op, c, block_bytes@) && op_fanout_pending(op),
                    None => op_is_idle(op) && op_fanout_pending(op),
                }
            } else {
                op_is_idle(op) && op_fanout_pending(op)
            }),
    {
        let mut this = self;
        let ghost pre = this;
        let serial = block_id.serial;
        if this.schema.contains_block(serial) {
            loop
                invariant
                    pre == self,
                    this.wf_core_except(serial),
                    this.defrag_wf(0),
                    this.done_task is None,
                    this.bg_task == pre.bg_task,
                    this.bg_task.state is Idle,
                    this.schema.contains(serial),
                    serial == block_id.serial,
                    this.schema.next_serial_spec() == pre.schema.next_serial_spec(),
                    forall|b: u64| this.schema.contains(b) == pre.schema.contains(b),
                    this.lru_cache == pre.lru_cache,
                    task::first_external_read(this.schema.fifo(serial))
                        == task::first_external_read(pre.schema.fifo(serial)),
                ensures
                    task::first_external_read(pre.schema.fifo(serial)) is None,
                decreases this.schema.fifo(serial).len(),
            {
                let ghost base = this;
                match this.schema.fifo_pop_first_read(serial) {
                    Some(read_block) => {
                        let ghost grb = read_block;
                        let ghost gi = choose|i: int|
                            0 <= i < base.schema.fifo(serial).len() && base.schema.fifo(serial)[i]
                                == TaskKind::<C>::ReadBlock(grb) && this.schema.fifo(serial)
                                == base.schema.fifo(serial).remove(i) && (forall|j: int|
                                0 <= j < i ==> !task::kind_is_read(base.schema.fifo(serial)[j]));
                        let task::ReadBlock { block_bytes: scratch, context, .. } = read_block;
                        this.blocks_pool.repay(scratch.freeze());
                        proof {
                            let i = gi;
                            task::lemma_defrag_count_remove(base.schema.fifo(serial), i);
                            assert forall|ii: int|
                                0 <= ii < this.tasks_queue.items().len() implies {
                                let it = #[trigger] this.tasks_queue.items()[ii];
                                &&& this.schema.contains(it.serial)
                                &&& it.offset == this.schema.offset_of(it.serial)
                                &&& this.schema.is_queued_flag(it.serial)
                            } by {
                                let it = base.tasks_queue.items()[ii];
                                assert(base.schema.contains(it.serial));
                            }
                            assert forall|b: u64|
                                #[trigger] this.schema.contains(b)
                                    && this.schema.is_queued_flag(b) implies
                                this.tasks_queue.contains_serial(b) by {
                                assert(base.schema.contains(b) && base.schema.is_queued_flag(b));
                            }
                            assert forall|b: u64, ii: int|
                                #[trigger] this.schema.contains(b) && 0 <= ii
                                    < this.schema.fifo(b).len() implies !((
                            #[trigger] this.schema.fifo(b)[ii]) is Flush) by {
                                assert(base.schema.contains(b));
                                if b == serial {
                                    if ii < i {
                                        assert(this.schema.fifo(b)[ii] == base.schema.fifo(
                                            b,
                                        )[ii]);
                                    } else {
                                        assert(this.schema.fifo(b)[ii] == base.schema.fifo(
                                            b,
                                        )[ii + 1]);
                                    }
                                } else {
                                    assert(this.schema.fifo(b) == base.schema.fifo(b));
                                }
                            }
                            assert(base.inflight@ is None);
                            Inner::lemma_moves_wf_after_fifo_remove(base, this, serial, gi);
                        }
                        match context {
                            task::ReadBlockContext::External(context) => {
                                proof {
                                    task::lemma_fer_at(
                                        base.schema.fifo(serial),
                                        gi,
                                        grb,
                                        context,
                                    );
                                }
                                this.done_task = Some(
                                    DoneTask::DeleteBlockDefrag {
                                        block_id,
                                        block_bytes: block_bytes.duplicate(),
                                    },
                                );
                                proof {
                                    assert(this.defrag_wf(0)) by {
                                        if this.defrag is Some {
                                            assert forall|b: u64|
                                                #[trigger] this.defrag_outstanding@.count(b)
                                                    == this.defrag_tasks_of(b) by {
                                                assert(base.defrag_outstanding@.count(b)
                                                    == base.defrag_tasks_of(b));
                                            }
                                        }
                                    }
                                }
                                return Op::Event(
                                    Event {
                                        op: EventOp::ReadBlock(
                                            TaskDoneOp {
                                                context,
                                                op: ReadBlockOp::Done { block_bytes },
                                            },
                                        ),
                                        performer: Performer { inner: this },
                                    },
                                );
                            },
                            task::ReadBlockContext::Defrag { .. } => {
                                proof {
                                    task::lemma_fer_remove_defrag_read(
                                        base.schema.fifo(serial),
                                        gi,
                                        grb,
                                    );
                                    if this.defrag is Some {
                                        assert(this.defrag_outstanding@.count(serial) >= 1);
                                        lemma_ms_remove_len(this.defrag_outstanding@, serial);
                                    }
                                }
                                this.defrag_outstanding = Ghost(
                                    this.defrag_outstanding@.remove(serial),
                                );
                                if this.defrag_enabled_exec() {
                                    this.defrag_dec();
                                }
                                proof {
                                    assert(this.defrag_wf(0)) by {
                                        if this.defrag is Some {
                                            assert forall|b: u64|
                                                #[trigger] this.defrag_outstanding@.count(b)
                                                    == this.defrag_tasks_of(b) by {
                                                assert(base.defrag_outstanding@.count(b)
                                                    == base.defrag_tasks_of(b));
                                            }
                                        }
                                    }
                                }
                            },
                        }
                    },
                    None => {
                        proof {
                            task::lemma_fer_none(this.schema.fifo(serial));
                        }
                        break ;
                    },
                }
            }
        }
        this.done_task = Some(DoneTask::Reenqueue { block_id });
        Op::Idle(Performer { inner: this })
    }
}

impl<C> Performer<C> {
    /// Builds a performer over a consistent, quiescent schema.
    pub fn new(
        schema: schema::Schema<C>,
        lru_cache: lru::Cache,
        defrag_queues: Option<DefragConfig<C>>,
    ) -> (r: Performer<C>)
        requires
            schema.wf(),
            schema.quiescent(),
        ensures
            r.wf(),
            !r.fanout_pending(),
            r.background_idle(),
            forall|b: u64| r.has_block(b) == schema.contains(b),
            r.block_id_bound() == schema.next_serial_spec(),
            r.cache_contents() == lru_cache.contents(),
            r.defrag_enabled() == (defrag_queues is Some),
            r.defrag_in_progress_count() == 0,
            r.head_offset() == 0,
            (match defrag_queues {
                Some(cfg) => r.defrag_limit() == cfg.limit_spec() && cfg.hints_empty(),
                None => true,
            }) ==> r.quiescent(),
            defrag_queues matches Some(cfg) ==> r.defrag_limit() == cfg.limit_spec(),
    {
        let defrag = match defrag_queues {
            Some(config) => Some(
                Defrag {
                    queues: config.queues,
                    in_progress_tasks_count: 0,
                    in_progress_tasks_limit: config.in_progress_tasks_limit,
                },
            ),
            None => None,
        };
        Performer { inner: Inner::new(schema, lru_cache, defrag) }
    }

    /// One step of the machine.
    pub fn next(self) -> (op: Op<C>)
        requires
            self.wf(),
        ensures
            poke_step_ok(self, op),
    {
        self.inner.incoming_poke()
    }
}

impl<C> PollRequestNext<C> {
    /// Feeds the next external request into the machine.
    pub fn incoming_request(self, request: proto::Request<C>) -> (op: Op<C>)
        requires
            self.wf(),
        ensures
            request_step_ok(self, request, op),
    {
        self.inner.incoming_request(request)
    }
}

impl<C> PollRequestAndInterpreterNext<C> {
    /// A request arrived first: the interpreter context is handed back and
    /// the request is fed into the machine.
    pub fn incoming_request(self, request: proto::Request<C>, interpreter_context: C) -> (op: Op<
        C,
    >)
        requires
            self.wf(),
        ensures
            request_step_with_interpreter_ok(self, request, interpreter_context, op),
    {
        let ghost pre = self.inner;
        let mut this = self.inner;
        let mut st = BackgroundTaskState::Idle;
        core::mem::swap(&mut st, &mut this.bg_task.state);
        match st {
            BackgroundTaskState::Await { block_id } => {
                this.bg_task.state = BackgroundTaskState::InProgress {
                    block_id,
                    interpreter_context,
                };
            },
            _ => {
                vstd::pervasive::unreached::<()>();
            },
        }
        proof {
            assert(this.wf()) by {
                assert(this.bg_matches());
                assert(this.defrag_wf(0)) by {
                    if this.defrag is Some {
                        assert forall|b: u64| #[trigger] this.defrag_outstanding@.count(b)
                            == this.defrag_tasks_of(b) by {
                            assert(pre.defrag_outstanding@.count(b) == pre.defrag_tasks_of(b));
                        }
                    }
                }
            }
        }
        this.incoming_request(request)
    }

    /// The in-flight task completed: its result is fed into the machine.
    pub fn incoming_task_done(self, task_done: task::Done<C>) -> (op: Op<C>)
        requires
            self.wf(),
            done_matches(self.inflight_info(), task_done),
        ensures
            task_done_step_ok(self, task_done, op),
    {
        self.inner.incoming_interpreter(task_done)
    }
}

impl<C> InterpretTaskNext<C> {
    /// The interpreter accepted the task: remember its context and resume.
    pub fn task_accepted(self, interpreter_context: C) -> (r: Performer<C>)
        requires
            self.wf(),
        ensures
            r.wf(),
            !r.fanout_pending(),
            r.background_in_progress(),
            forall|b: u64| r.has_block(b) == self.has_block(b),
            r.block_id_bound() == self.block_id_bound(),
            r.cache_contents() == self.cache_contents(),
            r.inflight_info() == self.inflight_info(),
            r.in_progress_context() == Some(interpreter_context),
            r.head_offset() == self.head_offset(),
            r.defrag_in_progress_count() == self.defrag_in_progress_count(),
            r.pending_flush() == self.pending_flush(),
            r.ready_queue() == self.ready_queue(),
            forall|b: u64| r.block_fifo(b) == self.block_fifo(b),
    {
        let ghost pre = self.inner;
        let mut this = self.inner;
        let mut st = BackgroundTaskState::Idle;
        core::mem::swap(&mut st, &mut this.bg_task.state);
        match st {
            BackgroundTaskState::Await { block_id } => {
                this.bg_task.state = BackgroundTaskState::InProgress {
                    block_id,
                    interpreter_context,
                };
            },
            _ => {
                vstd::pervasive::unreached::<()>();
            },
        }
        proof {
            assert(this.wf()) by {
                assert(this.bg_matches());
                assert(this.defrag_wf(0)) by {
                    if this.defrag is Some {
                        assert forall|b: u64| #[trigger] this.defrag_outstanding@.count(b)
                            == this.defrag_tasks_of(b) by {
                            assert(pre.defrag_outstanding@.count(b) == pre.defrag_tasks_of(b));
                        }
                    }
                }
            }
        }
        Performer { inner: this }
    }
}

/// At most one task is ever outside the machine, and the background slot's
/// state says whether one is: `Idle` means none, `Await` and `InProgress`
/// mean exactly one. The three states exclude one another.
pub proof fn lemma_background_slot_exclusive<C>(p: &Performer<C>)
    requires
        p.wf(),
    ensures
        p.outstanding_interpreter_tasks() <= 1,
        p.background_idle() <==> p.outstanding_interpreter_tasks() == 0,
        (p.background_awaiting() || p.background_in_progress())
            <==> p.outstanding_interpreter_tasks() == 1,
        !(p.background_idle() && p.background_awaiting()),
        !(p.background_idle() && p.background_in_progress()),
        !(p.background_awaiting() && p.background_in_progress()),
{
}

/// A block has pending work exactly when it sits in the ready queue or
/// owns the background slot, once the owed fan-out of the previous step
/// has been delivered.
pub proof fn lemma_block_task_accounting<C>(p: &Performer<C>, serial: u64)
    requires
        p.wf(),
        !p.fanout_pending(),
    ensures
        (p.queued_task_count(serial) + p.inflight_task_count_for(serial) >= 1) <==> (
        p.ready_queued(serial) || p.background_owns(serial)),
{
}

/// The defragmentation counter equals the number of outstanding
/// defragmentation tasks: for each block, the occurrences in the
/// outstanding multiset are exactly its queued or in-flight
/// defragmentation tasks.
pub proof fn lemma_defrag_task_accounting<C>(p: &Performer<C>, serial: u64)
    requires
        p.wf(),
        p.defrag_enabled(),
    ensures
        p.defrag_in_progress_count() == p.defrag_outstanding_tasks().len(),
        p.defrag_outstanding_tasks().count(serial) == p.defrag_tasks_of(serial),
{
}

/// Every step's promise includes the machine's consistency, wherever it
/// sits inside the returned operation.
pub proof fn lemma_poke_step_consistent<C>(p: Performer<C>, op: Op<C>)
    requires
        poke_step_ok(p, op),
    ensures
        op_wf(op),
{
}

pub proof fn lemma_request_step_consistent<C>(
    p: PollRequestNext<C>,
    request: proto::Request<C>,
    op: Op<C>,
)
    requires
        request_step_ok(p, request, op),
    ensures
        op_wf(op),
{
}

pub proof fn lemma_request_step_with_interpreter_consistent<C>(
    p: PollRequestAndInterpreterNext<C>,
    request: proto::Request<C>,
    interpreter_context: C,
    op: Op<C>,
)
    requires
        request_step_with_interpreter_ok(p, request, interpreter_context, op),
    ensures
        op_wf(op),
{
}

pub proof fn lemma_task_done_step_consistent<C>(
    p: PollRequestAndInterpreterNext<C>,
    done: task::Done<C>,
    op: Op<C>,
)
    requires
        task_done_step_ok(p, done, op),
    ensures
        op_wf(op),
{
}

/// A consistent operation hands a consistent machine to whoever holds it,
/// and a handed-out task always matches its handle's ghost summary: feeding
/// back that task's completion satisfies `done_matches`.
pub proof fn lemma_op_wf_unpack<C>(op: Op<C>)
    requires
        op_wf(op),
    ensures
        match op {
            Op::Idle(p) => p.wf(),
            Op::Event(e) => e.performer.wf(),
            Op::Query(q) => match q {
                QueryOp::PollRequestAndInterpreter(x) => x.next.wf(),
                QueryOp::PollRequest(x) => x.next.wf(),
                QueryOp::InterpretTask(x) => x.next.wf() && x.next.inflight_info() == Some(
                    summary_of_kind(x.task.block_id.serial, x.task.kind),
                ),
            },
        },
{
}

/// While a task runs, a poke hands the driver back the stored interpreter
/// context, and the poll handle keeps the slot's ghost summary: what the
/// driver was given is what it must complete.
pub proof fn lemma_poll_hands_back_context<C>(p: Performer<C>, op: Op<C>)
    requires
        p.wf(),
        poke_step_ok(p, op),
        !p.fanout_pending(),
        p.background_in_progress(),
    ensures
        (op matches Op::Query(QueryOp::PollRequestAndInterpreter(x)) && x.interpreter_context
            == p.in_progress_context()->Some_0 && x.next.inflight_info() == p.inflight_info()),
{
}

/// A poke of a quiescent machine polls for the next request: a fresh
/// performer's first step asks the driver for input.
pub proof fn lemma_quiescent_poke_polls<C>(p: Performer<C>, op: Op<C>)
    requires
        p.wf(),
        poke_step_ok(p, op),
        p.quiescent(),
    ensures
        op matches Op::Query(QueryOp::PollRequest(_)),
{
}

/// The defragmentation pipeline never exceeds its configured ceiling of
/// outstanding moves.
pub proof fn lemma_defrag_count_bounded<C>(p: &Performer<C>)
    requires
        p.wf(),
        p.defrag_enabled(),
    ensures
        p.defrag_in_progress_count() <= p.defrag_limit(),
{
}

/// Opens [`request_step_ok`] over the public vocabulary: what each request
/// is answered with, what it queues, and what is preserved.
pub proof fn lemma_request_step_unfold<C>(
    p: PollRequestNext<C>,
    request: proto::Request<C>,
    op: Op<C>,
)
    requires
        request_step_ok(p, request, op),
    ensures
        op_wf(op),
        op_block_id_bound(op) == (match request {
            proto::Request::WriteBlock(r) => if p.can_alloc(r.block_bytes@.len() as int) {
                p.block_id_bound() + 1
            } else {
                p.block_id_bound() as int
            },
            _ => p.block_id_bound() as int,
        }),
        forall|b: u64| b < p.block_id_bound() ==> op_has_block(op, b) == p.has_block(b),
        op_cache(op) == p.cache_contents(),
        op_inflight(op) == p.inflight_info(),
        op_head_offset(op) == p.head_offset(),
        op_stored_context(op) is None,
        op_pending_flush(op) == (match request {
            proto::Request::Flush(r) => p.pending_flush().push(r.context),
            _ => p.pending_flush(),
        }),
        op_defrag_pending(op) == (match request {
            proto::Request::WriteBlock(r) => if p.may_defrag(r.block_bytes@.len() as int)
                && p.defrag_enabled() {
                p.defrag_pending().push(r)
            } else {
                p.defrag_pending()
            },
            _ => p.defrag_pending(),
        }),
        forall|b: u64|
            p.has_block(b) && !request_concerns(request, b) ==> op_block_fifo(op, b)
                == p.block_fifo(b),
        op_ready_queue(op) == p.ready_queue() || (exists|it: task::ReadyItem|
            op_ready_queue(op) == p.ready_queue().push(it)),
        match request {
            proto::Request::Info(r) => op_event_info(
                op,
                r.context,
                p.size_limit(),
                p.tail_offset(),
                p.block_count(),
                p.gap_count(),
            ),
            proto::Request::Flush(_) => op_is_idle(op),
            proto::Request::LendBlock(r) => op_event_lend_success(op, r.context),
            proto::Request::RepayBlock(_) => op_is_idle(op),
            proto::Request::WriteBlock(r) => if p.can_alloc(r.block_bytes@.len() as int) {
                &&& op_is_idle(op)
                &&& op_has_block(op, p.block_id_bound())
                &&& op_block_fifo(op, p.block_id_bound()) == seq![
                    TaskKind::<C>::WriteBlock(
                        task::WriteBlock {
                            block_bytes: r.block_bytes,
                            commit_type: if p.write_fits_gap(r.block_bytes@.len() as int) {
                                task::CommitType::CommitOnly
                            } else {
                                task::CommitType::CommitAndEof
                            },
                            context: task::WriteBlockContext::External(r.context),
                        },
                    ),
                ]
            } else if p.may_defrag(r.block_bytes@.len() as int) && p.defrag_enabled() {
                op_is_idle(op)
            } else {
                op_event_write_no_space(op, r.context)
            },
            proto::Request::ReadBlock(r) => if !p.has_block(r.block_id.serial) {
                op_event_read_not_found(op, r.context)
            } else if p.block_stash(r.block_id.serial) is Some {
                op_event_read_done(op, r.context, p.block_stash(r.block_id.serial)->Some_0)
            } else if p.cache_contents().contains_key(r.block_id.serial) {
                op_event_read_done(op, r.context, p.cache_contents()[r.block_id.serial])
            } else {
                op_is_idle(op)
            },
            proto::Request::DeleteBlock(r) => if p.has_block(r.block_id.serial) {
                &&& op_is_idle(op)
                &&& op_block_fifo(op, r.block_id.serial) == p.block_fifo(r.block_id.serial).push(
                    TaskKind::<C>::DeleteBlock(
                        task::DeleteBlock {
                            context: task::DeleteBlockContext::External(r.context),
                        },
                    ),
                )
            } else {
                op_event_delete_not_found(op, r.context)
            },
        },
{
}

/// Opens [`request_step_with_interpreter_ok`] over the public vocabulary:
/// as [`lemma_request_step_unfold`], with the handed-back interpreter
/// context stored again for the still-running task.
pub proof fn lemma_request_step_with_interpreter_unfold<C>(
    p: PollRequestAndInterpreterNext<C>,
    request: proto::Request<C>,
    interpreter_context: C,
    op: Op<C>,
)
    requires
        request_step_with_interpreter_ok(p, request, interpreter_context, op),
    ensures
        op_wf(op),
        op_block_id_bound(op) == (match request {
            proto::Request::WriteBlock(r) => if p.can_alloc(r.block_bytes@.len() as int) {
                p.block_id_bound() + 1
            } else {
                p.block_id_bound() as int
            },
            _ => p.block_id_bound() as int,
        }),
        forall|b: u64| b < p.block_id_bound() ==> op_has_block(op, b) == p.has_block(b),
        op_cache(op) == p.cache_contents(),
        op_inflight(op) == p.inflight_info(),
        op_head_offset(op) == p.head_offset(),
        op_stored_context(op) == Some(interpreter_context),
        op_pending_flush(op) == (match request {
            proto::Request::Flush(r) => p.pending_flush().push(r.context),
            _ => p.pending_flush(),
        }),
        op_defrag_pending(op) == (match request {
            proto::Request::WriteBlock(r) => if p.may_defrag(r.block_bytes@.len() as int)
                && p.defrag_enabled() {
                p.defrag_pending().push(r)
            } else {
                p.defrag_pending()
            },
            _ => p.defrag_pending(),
        }),
        forall|b: u64|
            p.has_block(b) && !request_concerns(request, b) ==> op_block_fifo(op, b)
                == p.block_fifo(b),
        op_ready_queue(op) == p.ready_queue() || (exists|it: task::ReadyItem|
            op_ready_queue(op) == p.ready_queue().push(it)),
        match request {
            proto::Request::Info(r) => op_event_info(
                op,
                r.context,
                p.size_limit(),
                p.tail_offset(),
                p.block_count(),
                p.gap_count(),
            ),
            proto::Request::Flush(_) => op_is_idle(op),
            proto::Request::LendBlock(r) => op_event_lend_success(op, r.context),
            proto::Request::RepayBlock(_) => op_is_idle(op),
            proto::Request::WriteBlock(r) => if p.can_alloc(r.block_bytes@.len() as int) {
                &&& op_is_idle(op)
                &&& op_has_block(op, p.block_id_bound())
                &&& op_block_fifo(op, p.block_id_bound()) == seq![
                    TaskKind::<C>::WriteBlock(
                        task::WriteBlock {
                            block_bytes: r.block_bytes,
                            commit_type: if p.write_fits_gap(r.block_bytes@.len() as int) {
                                task::CommitType::CommitOnly
                            } else {
                                task::CommitType::CommitAndEof
                            },
                            context: task::WriteBlockContext::External(r.context),
                        },
                    ),
                ]
            } else if p.may_defrag(r.block_bytes@.len() as int) && p.defrag_enabled() {
                op_is_idle(op)
            } else {
                op_event_write_no_space(op, r.context)
            },
            proto::Request::ReadBlock(r) => if !p.has_block(r.block_id.serial) {
                op_event_read_not_found(op, r.context)
            } else if p.block_stash(r.block_id.serial) is Some {
                op_event_read_done(op, r.context, p.block_stash(r.block_id.serial)->Some_0)
            } else if p.cache_contents().contains_key(r.block_id.serial) {
                op_event_read_done(op, r.context, p.cache_contents()[r.block_id.serial])
            } else {
                op_is_idle(op)
            },
            proto::Request::DeleteBlock(r) => if p.has_block(r.block_id.serial) {
                &&& op_is_idle(op)
                &&& op_block_fifo(op, r.block_id.serial) == p.block_fifo(r.block_id.serial).push(
                    TaskKind::<C>::DeleteBlock(
                        task::DeleteBlock {
                            context: task::DeleteBlockContext::External(r.context),
                        },
                    ),
                )
            } else {
                op_event_delete_not_found(op, r.context)
            },
        },
{
}

/// Opens [`task_done_step_ok`] over the public vocabulary: the reply each
/// completion produces, and how the directory, cache and queues move.
pub proof fn lemma_task_done_step_unfold<C>(
    p: PollRequestAndInterpreterNext<C>,
    done: task::Done<C>,
    op: Op<C>,
)
    requires
        task_done_step_ok(p, done, op),
    ensures
        op_wf(op),
        op_block_id_bound(op) == p.block_id_bound(),
        op_head_offset(op) == done.current_offset,
        op_inflight(op) is None,
        op_fanout_pending(op) == !(done.task.kind is Flush),
        op_pending_flush(op) == p.pending_flush(),
        op_defrag_pending(op) == p.defrag_pending(),
        forall|b: u64|
            b != done.task.block_id.serial && p.has_block(b) ==> op_block_fifo(op, b)
                == p.block_fifo(b),
        op_ready_queue(op) == p.ready_queue() || (exists|it: task::ReadyItem|
            op_ready_queue(op) == p.ready_queue().push(it)),
        match done.task.kind {
            task::TaskDoneKind::WriteBlock(w) => {
                &&& (forall|b: u64| op_has_block(op, b) == p.has_block(b))
                &&& op_cache(op) == p.cache_contents()
                &&& match w.context {
                    task::WriteBlockContext::External(c) => op_event_write_done(
                        op,
                        c,
                        done.task.block_id.serial,
                    ),
                    task::WriteBlockContext::Defrag => op_is_idle(op) && (p.defrag_enabled()
                        ==> op_defrag_in_progress(op) + 1 == p.defrag_in_progress_count()),
                }
            },
            task::TaskDoneKind::ReadBlock(r) => {
                &&& (forall|b: u64| op_has_block(op, b) == p.has_block(b))
                &&& op_cache(op) == p.cache_contents().insert(
                    done.task.block_id.serial,
                    r.block_bytes@,
                )
                &&& match r.context {
                    task::ReadBlockContext::External(c) => op_event_read_done(
                        op,
                        c,
                        r.block_bytes@,
                    ),
                    task::ReadBlockContext::Defrag { space_key } => {
                        &&& op_is_idle(op)
                        &&& op_block_stash(op, done.task.block_id.serial) == Some(r.block_bytes@)
                        &&& op_block_fifo(op, done.task.block_id.serial) == p.block_fifo(
                            done.task.block_id.serial,
                        ).push(
                            TaskKind::<C>::DeleteBlock(
                                task::DeleteBlock {
                                    context: task::DeleteBlockContext::Defrag { space_key },
                                },
                            ),
                        )
                    },
                }
            },
            task::TaskDoneKind::DeleteBlock(d) => match d.context {
                task::DeleteBlockContext::External(c) => {
                    &&& op_event_delete_done(op, c, done.task.block_id.serial)
                    &&& !op_has_block(op, done.task.block_id.serial)
                    &&& (forall|b: u64|
                        b != done.task.block_id.serial ==> op_has_block(op, b) == p.has_block(b))
                    &&& op_cache(op) == p.cache_contents().remove(done.task.block_id.serial)
                },
                task::DeleteBlockContext::Defrag { .. } => {
                    &&& op_is_idle(op)
                    &&& (forall|b: u64| op_has_block(op, b) == p.has_block(b))
                    &&& op_cache(op) == p.cache_contents()
                },
            },
            task::TaskDoneKind::Flush(f) => {
                &&& op_event_flushed(op, f.context)
                &&& (forall|b: u64| op_has_block(op, b) == p.has_block(b))
                &&& op_cache(op) == p.cache_contents()
            },
        },
{
}

/// Opens the dispatch part of [`poke_step_ok`] over the public vocabulary:
/// with no fan-out owed, a poke hands back the running task's context, or
/// dispatches the nearest ready block's FIFO head (removing it from the
/// queues), then a pending flush barrier, and otherwise polls for a
/// request; and it always leaves the defragmentation pipeline topped up.
pub proof fn lemma_poke_dispatch_unfold<C>(p: Performer<C>, op: Op<C>)
    requires
        p.wf(),
        poke_step_ok(p, op),
        !p.fanout_pending(),
    ensures
        op_wf(op),
        op_block_id_bound(op) == p.block_id_bound(),
        forall|b: u64| op_has_block(op, b) == p.has_block(b),
        op_cache(op) == p.cache_contents(),
        op_head_offset(op) == p.head_offset(),
        op_defrag_topped_up(op),
        p.background_in_progress() ==> (op matches Op::Query(
            QueryOp::PollRequestAndInterpreter(x),
        ) && x.interpreter_context == p.in_progress_context()->Some_0 && x.next.inflight_info()
            == p.inflight_info()),
        (p.background_idle() && (!p.defrag_enabled() || p.defrag_in_progress_count()
            >= p.defrag_limit() || p.defrag_hints_empty())) ==> (if p.ready_queue().len() > 0 {
            match op {
                Op::Query(QueryOp::InterpretTask(x)) => {
                    &&& exists|i: int|
                        0 <= i < p.ready_queue().len() && (#[trigger] p.ready_queue()[i]) == (
                        task::ReadyItem { offset: x.offset, serial: x.task.block_id.serial })
                    &&& forall|j: int|
                        0 <= j < p.ready_queue().len() ==> task::seek_rank(
                            p.head_offset(),
                            x.offset,
                        ) <= task::seek_rank(
                            p.head_offset(),
                            (#[trigger] p.ready_queue()[j]).offset,
                        )
                    &&& p.block_fifo(x.task.block_id.serial).len() > 0
                    &&& x.task.kind == p.block_fifo(x.task.block_id.serial)[0]
                    &&& op_block_fifo(op, x.task.block_id.serial) == p.block_fifo(
                        x.task.block_id.serial,
                    ).remove(0)
                    &&& op_ready_queue(op).len() == p.ready_queue().len() - 1
                },
                _ => false,
            }
        } else if p.pending_flush().len() > 0 {
            match op {
                Op::Query(QueryOp::InterpretTask(x)) => match x.task.kind {
                    TaskKind::Flush(f) => f.context == p.pending_flush()[0] && x.offset
                        == p.head_offset(),
                    _ => false,
                },
                _ => false,
            }
        } else {
            op matches Op::Query(QueryOp::PollRequest(_))
        }),
{
}

} // verus!
