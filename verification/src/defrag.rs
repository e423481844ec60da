//! Queues of the defragmentation pipeline.
//!
//! `TasksQueue` holds "collapse this free region" work, prioritized by the
//! region's file offset (lowest first). `PendingQueue` holds external
//! writes that did not fit at submission time and wait for room.

use vstd::prelude::*;

use crate::proto::RequestWriteBlock;
use crate::schema::SpaceKey;

verus! {

/// One piece of defragmentation work: the free region at `offset`, named
/// by `key`.
#[derive(Clone, Copy, PartialEq, Eq, Structural, Debug)]
pub struct DefragTask {
    pub offset: u64,
    pub key: SpaceKey,
}

/// Priority queue of free regions to collapse, lowest offset first.
pub struct TasksQueue {
    items: Vec<DefragTask>,
}

impl TasksQueue {
    pub closed spec fn items(&self) -> Seq<DefragTask> {
        self.items@
    }

    pub fn new() -> (r: TasksQueue)
        ensures
            r.items().len() == 0,
    {
        TasksQueue { items: Vec::new() }
    }

    pub fn push(&mut self, offset: u64, key: SpaceKey)
        ensures
            final(self).items() == old(self).items().push(DefragTask { offset, key }),
    {
        self.items.push(DefragTask { offset, key });
    }

    /// Removes and returns the region with the lowest offset.
    pub fn pop(&mut self) -> (r: Option<DefragTask>)
        ensures
            match r {
                Some(task) => exists|i: int|
                    {
                        &&& 0 <= i < old(self).items().len()
                        &&& old(self).items()[i] == task
                        &&& final(self).items() == old(self).items().remove(i)
                    },
                None => old(self).items().len() == 0 && final(self).items() == old(self).items(),
            },
            r is Some ==> forall|j: int|
                0 <= j < old(self).items().len() ==> r->Some_0.offset
                    <= old(self).items()[j].offset,
    {
        if self.items.len() == 0 {
            return None;
        }
        let mut best: usize = 0;
        let mut i: usize = 1;
        while i < self.items.len()
            invariant
                self.items@ == old(self).items@,
                self.items@.len() > 0,
                best < i,
                i <= self.items@.len(),
                forall|j: int|
                    0 <= j < i ==> self.items@[best as int].offset <= self.items@[j].offset,
            decreases self.items@.len() - i,
        {
            if self.items[i].offset < self.items[best].offset {
                best = i;
            }
            i = i + 1;
        }
        let task = self.items.remove(best);
        proof {
            let wi = best as int;
            assert(old(self).items()[wi] == task);
            assert(self.items() == old(self).items().remove(wi));
        }
        Some(task)
    }
}

/// FIFO of external writes waiting for defragmentation to make room.
pub struct PendingQueue<C> {
    items: Vec<RequestWriteBlock<C>>,
}

impl<C> PendingQueue<C> {
    pub closed spec fn items(&self) -> Seq<RequestWriteBlock<C>> {
        self.items@
    }

    pub fn new() -> (r: PendingQueue<C>)
        ensures
            r.items().len() == 0,
    {
        PendingQueue { items: Vec::new() }
    }

    pub fn push(&mut self, request: RequestWriteBlock<C>)
        ensures
            final(self).items() == old(self).items().push(request),
    {
        self.items.push(request);
    }

    pub fn pop(&mut self) -> (r: Option<RequestWriteBlock<C>>)
        ensures
            match r {
                Some(request) => old(self).items().len() > 0 && request == old(self).items()[0]
                    && final(self).items() == old(self).items().remove(0),
                None => old(self).items().len() == 0 && final(self).items() == old(self).items(),
            },
    {
        if self.items.len() == 0 {
            None
        } else {
            Some(self.items.remove(0))
        }
    }

    pub fn len(&self) -> (r: usize)
        ensures
            r == self.items().len(),
    {
        self.items.len()
    }
}

/// The two queues of the defragmentation pipeline.
pub struct Queues<C> {
    pub tasks: TasksQueue,
    pub pending: PendingQueue<C>,
}

impl<C> Queues<C> {
    pub fn new() -> (r: Queues<C>)
        ensures
            r.tasks.items().len() == 0,
            r.pending.items().len() == 0,
    {
        Queues { tasks: TasksQueue::new(), pending: PendingQueue::new() }
    }
}

} // verus!
