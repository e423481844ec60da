//! The schema: placement of blocks in the file and the free-space map.
//!
//! The schema answers the performer's placement questions: where a new
//! block goes, whether a read or delete refers to a live block, and which
//! block should be relocated to collapse a given free region. Blocks are
//! laid out in a file of `size_limit` bytes; deleting a block leaves a gap
//! that new writes may fill and that the defragmentation pipeline tries to
//! collapse by moving the following block into it.

use vstd::prelude::*;
use std::collections::HashMap;

use crate::block::{BlockHeader, Bytes, Id};
use crate::task::{ReadBlock, TaskKind, TasksHead};

verus! {

broadcast use vstd::std_specs::hash::group_hash_axioms;

/// Opaque handle naming one free-space region that the defragmentation
/// pipeline wants to collapse.
#[derive(Clone, Copy, PartialEq, Eq, Structural, Debug)]
pub struct SpaceKey {
    pub serial: u64,
}

/// A hint handed to the defragmentation pipeline: prioritize collapsing
/// the free region at this offset.
#[derive(Clone, Copy, PartialEq, Eq, Structural, Debug)]
pub struct DefragOp {
    pub free_space_offset: u64,
    pub space_key: SpaceKey,
}

/// One free region of the file.
#[derive(Clone, Copy, PartialEq, Eq, Structural, Debug)]
pub struct Gap {
    pub offset: u64,
    pub len: u64,
    pub key: SpaceKey,
}

/// The first free region carrying the given key, in list order: the one a
/// key lookup resolves to.
pub open spec fn gap_with_key(gaps: Seq<Gap>, key: SpaceKey) -> Option<Gap>
    decreases gaps.len(),
{
    if gaps.len() == 0 {
        None
    } else if gaps[0].key == key {
        Some(gaps[0])
    } else {
        gap_with_key(gaps.drop_first(), key)
    }
}

/// The region found by a first-match scan is what the key resolves to.
pub proof fn lemma_gap_with_key_at(gaps: Seq<Gap>, key: SpaceKey, i: int)
    requires
        0 <= i < gaps.len(),
        gaps[i].key == key,
        forall|j: int| 0 <= j < i ==> gaps[j].key != key,
    ensures
        gap_with_key(gaps, key) == Some(gaps[i]),
    decreases i,
{
    if i > 0 {
        lemma_gap_with_key_at(gaps.drop_first(), key, i - 1);
    }
}

/// A key carried by no region resolves to nothing.
pub proof fn lemma_gap_with_key_none(gaps: Seq<Gap>, key: SpaceKey)
    requires
        forall|j: int| 0 <= j < gaps.len() ==> gaps[j].key != key,
    ensures
        gap_with_key(gaps, key) is None,
    decreases gaps.len(),
{
    if gaps.len() > 0 {
        lemma_gap_with_key_none(gaps.drop_first(), key);
    }
}

/// The schema's record of one live block.
pub struct BlockEntry<C> {
    /// Current file offset of the block.
    pub offset: u64,
    /// Identifier and payload size.
    pub header: BlockHeader,
    /// The block's task FIFO and ready-queue flag.
    pub tasks_head: TasksHead<C>,
    /// Payload stashed by the defragmentation read, consumed by the
    /// relocation write.
    pub cached: Option<Bytes>,
    /// True while the block is reserved by the defragmentation pipeline.
    pub moving: bool,
    /// True once the block's write task has completed.
    pub durable: bool,
}

/// What to do with an incoming write request.
pub enum WriteBlockOp {
    Perform(WriteBlockPerform),
    QueuePendingDefrag,
    ReplyNoSpaceLeft,
}

pub struct WriteBlockPerform {
    pub defrag_op: Option<DefragOp>,
    pub task_op: WriteBlockTaskOp,
}

pub struct WriteBlockTaskOp {
    pub block_id: Id,
    pub block_offset: u64,
    pub commit_type: WriteBlockTaskCommitType,
}

#[derive(Clone, Copy, PartialEq, Eq, Structural, Debug)]
pub enum WriteBlockTaskCommitType {
    CommitOnly,
    CommitAndEof,
}

/// What to do with an incoming read request.
pub enum ReadBlockOp {
    Perform(ReadBlockPerform),
    Cached { block_bytes: Bytes },
    NotFound,
}

pub struct ReadBlockPerform {
    pub block_offset: u64,
    pub block_header: BlockHeader,
}

/// What to do with an incoming delete request.
pub enum DeleteBlockOp {
    Perform(DeleteBlockPerform),
    NotFound,
}

pub struct DeleteBlockPerform {
    pub block_offset: u64,
}

/// The record removed by a completed external delete, plus a hint for the
/// defragmentation pipeline.
pub struct DeleteBlockTaskDonePerform<C> {
    pub defrag_op: Option<DefragOp>,
    pub block_entry: BlockEntry<C>,
}

/// The relocation descriptor produced when a defragmentation delete
/// completes: where to rewrite the block and with which payload.
pub struct DeleteBlockTaskDoneDefragPerform {
    pub block_offset: u64,
    pub block_bytes: Bytes,
    pub commit_type: WriteBlockTaskCommitType,
    pub defrag_op: Option<DefragOp>,
}

/// A block picked for relocation.
pub struct PickedBlock {
    pub block_id: Id,
    pub block_offset: u64,
    pub block_header: BlockHeader,
}

/// Statistics reported for an `Info` request.
#[derive(Clone, Copy, PartialEq, Eq, Structural, Debug)]
pub struct WheelInfo {
    pub size_limit: u64,
    pub tail_offset: u64,
    pub blocks_count: usize,
    pub gaps_count: usize,
}

pub struct Schema<C> {
    entries: HashMap<u64, BlockEntry<C>>,
    ids: Vec<u64>,
    gaps: Vec<Gap>,
    tail: u64,
    size_limit: u64,
    next_serial: u64,
    next_space_key: u64,
}

impl<C> Schema<C> {
    /// The live blocks, keyed by their serial.
    pub closed spec fn entry_map(&self) -> Map<u64, BlockEntry<C>> {
        self.entries@
    }

    pub open spec fn contains(&self, serial: u64) -> bool {
        self.entry_map().contains_key(serial)
    }

    pub open spec fn fifo(&self, serial: u64) -> Seq<TaskKind<C>> {
        self.entry_map()[serial].tasks_head.fifo@
    }

    pub open spec fn is_queued_flag(&self, serial: u64) -> bool {
        self.entry_map()[serial].tasks_head.is_queued
    }

    pub open spec fn offset_of(&self, serial: u64) -> u64 {
        self.entry_map()[serial].offset
    }

    pub closed spec fn next_serial_spec(&self) -> u64 {
        self.next_serial
    }

    pub closed spec fn tail_spec(&self) -> u64 {
        self.tail
    }

    pub closed spec fn size_limit_spec(&self) -> u64 {
        self.size_limit
    }

    pub closed spec fn gaps_spec(&self) -> Seq<Gap> {
        self.gaps@
    }

    pub closed spec fn next_space_key_spec(&self) -> u64 {
        self.next_space_key
    }

    /// Some gap alone can hold `need` bytes.
    pub closed spec fn fits_gap(&self, need: int) -> bool {
        exists|i: int| 0 <= i < self.gaps@.len() && (#[trigger] self.gaps@[i]).len >= need
    }

    /// The file tail can hold `need` more bytes.
    pub closed spec fn fits_tail(&self, need: int) -> bool {
        self.tail + need <= self.size_limit
    }

    /// A write of `need` bytes can be placed right now.
    pub open spec fn can_alloc(&self, need: int) -> bool {
        self.next_serial_spec() < u64::MAX && (self.fits_gap(need) || self.fits_tail(need))
    }

    /// A write of `need` bytes cannot be placed now but defragmentation
    /// might make room for it.
    pub open spec fn may_defrag(&self, need: int) -> bool {
        !self.can_alloc(need) && self.gaps_spec().len() > 0 && need <= self.size_limit_spec()
    }

    closed spec fn ids_sync(&self) -> bool {
        &&& forall|i: int, j: int|
            0 <= i < j < self.ids@.len() ==> #[trigger] self.ids@[i] != #[trigger] self.ids@[j]
        &&& forall|b: u64| self.entries@.contains_key(b) <==> #[trigger] self.ids@.contains(b)
    }

    /// Internal consistency of the schema.
    pub closed spec fn wf(&self) -> bool {
        &&& forall|b: u64|
            #[trigger] self.entries@.contains_key(b) ==> {
                &&& self.entries@[b].header.block_id.serial == b
                &&& 1 <= b < self.next_serial
                &&& self.entries@[b].offset + self.entries@[b].header.block_size
                    <= self.size_limit
            }
        &&& self.ids_sync()
        &&& self.tail <= self.size_limit
        &&& self.next_serial >= 1
        &&& forall|i: int|
            0 <= i < self.gaps@.len() ==> (#[trigger] self.gaps@[i]).offset + self.gaps@[i].len
                <= self.size_limit
    }

    /// Every live block's serial is below the next serial: fresh ids are
    /// really fresh.
    pub proof fn lemma_contains_bounds(&self, serial: u64)
        requires
            self.wf(),
            self.contains(serial),
        ensures
            1 <= serial < self.next_serial_spec(),
            self.entry_map()[serial].header.block_id.serial == serial,
    {
    }

    /// A completed relocation delete can place the block again: the
    /// payload is stashed and either the named region or the tail fits it.
    pub open spec fn relocation_possible(&self, serial: u64, key: SpaceKey) -> bool {
        &&& self.entry_map()[serial].cached is Some
        &&& ((exists|i: int|
            0 <= i < self.gaps_spec().len() && (#[trigger] self.gaps_spec()[i]).key == key
                && self.gaps_spec()[i].len >= self.entry_map()[serial].header.block_size)
            || self.fits_tail(self.entry_map()[serial].header.block_size as int))
    }

    /// The block is idle and would fit inside the free region: moving it
    /// there is a legal relocation.
    pub open spec fn relocatable_into(&self, b: u64, g: Gap) -> bool {
        &&& self.contains(b)
        &&& self.fifo(b).len() == 0
        &&& self.entry_map()[b].cached is None
        &&& !self.entry_map()[b].moving
        &&& self.offset_of(b) > g.offset
        &&& self.entry_map()[b].header.block_size <= g.len
    }

    /// No block has any task pending.
    pub open spec fn quiescent(&self) -> bool {
        forall|b: u64|
            #[trigger] self.contains(b) ==> self.fifo(b).len() == 0 && !self.is_queued_flag(b)
    }

    /// A fresh schema for an empty file of `size_limit` bytes.
    pub fn new(size_limit: u64) -> (r: Schema<C>)
        ensures
            r.wf(),
            r.quiescent(),
            r.entry_map() == Map::<u64, BlockEntry<C>>::empty(),
            r.next_serial_spec() == 1,
            r.tail_spec() == 0,
            r.size_limit_spec() == size_limit,
            r.gaps_spec().len() == 0,
    {
        let entries: HashMap<u64, BlockEntry<C>> = HashMap::new();
        let r = Schema {
            entries,
            ids: Vec::new(),
            gaps: Vec::new(),
            tail: 0,
            size_limit,
            next_serial: 1,
            next_space_key: 1,
        };
        proof {
            assert(r.entry_map() =~= Map::<u64, BlockEntry<C>>::empty());
        }
        r
    }

    /// Removes a live block's record from the map, to be put back after an
    /// update.
    fn take_entry(&mut self, serial: u64) -> (r: BlockEntry<C>)
        requires
            old(self).contains(serial),
        ensures
            r == old(self).entry_map()[serial],
            final(self).entries@ == old(self).entries@.remove(serial),
            final(self).ids == old(self).ids,
            final(self).gaps == old(self).gaps,
            final(self).tail == old(self).tail,
            final(self).size_limit == old(self).size_limit,
            final(self).next_serial == old(self).next_serial,
            final(self).next_space_key == old(self).next_space_key,
    {
        match self.entries.remove(&serial) {
            Some(entry) => entry,
            None => vstd::pervasive::unreached(),
        }
    }

    fn put_entry(&mut self, serial: u64, entry: BlockEntry<C>)
        ensures
            final(self).entries@ == old(self).entries@.insert(serial, entry),
            final(self).ids == old(self).ids,
            final(self).gaps == old(self).gaps,
            final(self).tail == old(self).tail,
            final(self).size_limit == old(self).size_limit,
            final(self).next_serial == old(self).next_serial,
            final(self).next_space_key == old(self).next_space_key,
    {
        self.entries.insert(serial, entry);
    }

    pub fn contains_block(&self, serial: u64) -> (r: bool)
        ensures
            r == self.contains(serial),
    {
        self.entries.contains_key(&serial)
    }

    /// The file offset of a live block.
    pub fn block_offset(&self, serial: u64) -> (r: Option<u64>)
        ensures
            match r {
                Some(offset) => self.contains(serial) && offset == self.offset_of(serial),
                None => !self.contains(serial),
            },
    {
        match self.entries.get(&serial) {
            Some(entry) => Some(entry.offset),
            None => None,
        }
    }

    pub fn block_is_queued(&self, serial: u64) -> (r: bool)
        requires
            self.contains(serial),
        ensures
            r == self.is_queued_flag(serial),
    {
        match self.entries.get(&serial) {
            Some(entry) => entry.tasks_head.is_queued,
            None => vstd::pervasive::unreached(),
        }
    }

    /// Appends a task to a block's FIFO; optionally raises the block's
    /// ready-queue flag.
    pub fn fifo_push(&mut self, serial: u64, kind: TaskKind<C>, set_queued: bool)
        requires
            old(self).wf(),
            old(self).contains(serial),
        ensures
            final(self).wf(),
            forall|b: u64| final(self).contains(b) <==> old(self).contains(b),
            forall|b: u64|
                b != serial && old(self).contains(b) ==> final(self).entry_map()[b] == old(
                    self,
                ).entry_map()[b],
            final(self).fifo(serial) == old(self).fifo(serial).push(kind),
            final(self).is_queued_flag(serial) == (old(self).is_queued_flag(serial) || set_queued),
            final(self).entry_map()[serial].offset == old(self).entry_map()[serial].offset,
            final(self).entry_map()[serial].header == old(self).entry_map()[serial].header,
            final(self).entry_map()[serial].cached == old(self).entry_map()[serial].cached,
            final(self).entry_map()[serial].moving == old(self).entry_map()[serial].moving,
            final(self).entry_map()[serial].durable == old(self).entry_map()[serial].durable,
            final(self).next_serial_spec() == old(self).next_serial_spec(),
            final(self).gaps_spec() == old(self).gaps_spec(),
            final(self).tail_spec() == old(self).tail_spec(),
            final(self).size_limit_spec() == old(self).size_limit_spec(),
    {
        let mut entry = self.take_entry(serial);
        entry.tasks_head.push_kind(kind);
        if set_queued {
            entry.tasks_head.is_queued = true;
        }
        self.put_entry(serial, entry);
        proof {
            assert(final(self).entries@ =~= old(self).entries@.insert(
                serial,
                final(self).entries@[serial],
            ));
            Schema::lemma_update_wf(*old(self), *self, serial);
        }
    }

    /// Lowers a block's ready-queue flag.
    pub fn set_unqueued(&mut self, serial: u64)
        requires
            old(self).wf(),
            old(self).contains(serial),
        ensures
            final(self).wf(),
            forall|b: u64| final(self).contains(b) <==> old(self).contains(b),
            forall|b: u64|
                b != serial && old(self).contains(b) ==> final(self).entry_map()[b] == old(
                    self,
                ).entry_map()[b],
            final(self).fifo(serial) == old(self).fifo(serial),
            final(self).is_queued_flag(serial) == false,
            final(self).entry_map()[serial].offset == old(self).entry_map()[serial].offset,
            final(self).entry_map()[serial].header == old(self).entry_map()[serial].header,
            final(self).entry_map()[serial].cached == old(self).entry_map()[serial].cached,
            final(self).entry_map()[serial].moving == old(self).entry_map()[serial].moving,
            final(self).entry_map()[serial].durable == old(self).entry_map()[serial].durable,
            final(self).next_serial_spec() == old(self).next_serial_spec(),
            final(self).gaps_spec() == old(self).gaps_spec(),
            final(self).tail_spec() == old(self).tail_spec(),
            final(self).size_limit_spec() == old(self).size_limit_spec(),
    {
        let mut entry = self.take_entry(serial);
        entry.tasks_head.is_queued = false;
        self.put_entry(serial, entry);
        proof {
            assert(final(self).entries@ =~= old(self).entries@.insert(
                serial,
                final(self).entries@[serial],
            ));
            Schema::lemma_update_wf(*old(self), *self, serial);
        }
    }

    /// Pops the task at the head of a block's FIFO.
    pub fn fifo_pop_front(&mut self, serial: u64) -> (r: Option<TaskKind<C>>)
        requires
            old(self).wf(),
            old(self).contains(serial),
        ensures
            final(self).wf(),
            forall|b: u64| final(self).contains(b) <==> old(self).contains(b),
            forall|b: u64|
                b != serial && old(self).contains(b) ==> final(self).entry_map()[b] == old(
                    self,
                ).entry_map()[b],
            match r {
                Some(kind) => old(self).fifo(serial).len() > 0 && kind == old(self).fifo(serial)[0]
                    && final(self).fifo(serial) == old(self).fifo(serial).remove(0),
                None => old(self).fifo(serial).len() == 0 && final(self).fifo(serial) == old(
                    self,
                ).fifo(serial),
            },
            final(self).is_queued_flag(serial) == old(self).is_queued_flag(serial),
            final(self).entry_map()[serial].offset == old(self).entry_map()[serial].offset,
            final(self).entry_map()[serial].header == old(self).entry_map()[serial].header,
            final(self).entry_map()[serial].cached == old(self).entry_map()[serial].cached,
            final(self).entry_map()[serial].moving == old(self).entry_map()[serial].moving,
            final(self).entry_map()[serial].durable == old(self).entry_map()[serial].durable,
            final(self).next_serial_spec() == old(self).next_serial_spec(),
            final(self).gaps_spec() == old(self).gaps_spec(),
            final(self).tail_spec() == old(self).tail_spec(),
            final(self).size_limit_spec() == old(self).size_limit_spec(),
    {
        let mut entry = self.take_entry(serial);
        let r = entry.tasks_head.pop_front();
        self.put_entry(serial, entry);
        proof {
            assert(final(self).entries@ =~= old(self).entries@.insert(
                serial,
                final(self).entries@[serial],
            ));
            Schema::lemma_update_wf(*old(self), *self, serial);
        }
        r
    }

    /// Removes the first read task of a block's FIFO, if any.
    pub fn fifo_pop_first_read(&mut self, serial: u64) -> (r: Option<ReadBlock<C>>)
        requires
            old(self).wf(),
            old(self).contains(serial),
        ensures
            final(self).wf(),
            forall|b: u64| final(self).contains(b) <==> old(self).contains(b),
            forall|b: u64|
                b != serial && old(self).contains(b) ==> final(self).entry_map()[b] == old(
                    self,
                ).entry_map()[b],
            match r {
                Some(rb) => exists|i: int|
                    {
                        &&& 0 <= i < old(self).fifo(serial).len()
                        &&& old(self).fifo(serial)[i] == TaskKind::<C>::ReadBlock(rb)
                        &&& (forall|j: int|
                            0 <= j < i ==> !crate::task::kind_is_read(old(self).fifo(serial)[j]))
                        &&& final(self).fifo(serial) == old(self).fifo(serial).remove(i)
                    },
                None => final(self).fifo(serial) == old(self).fifo(serial) && forall|j: int|
                    0 <= j < old(self).fifo(serial).len() ==> !crate::task::kind_is_read(
                        old(self).fifo(serial)[j],
                    ),
            },
            final(self).is_queued_flag(serial) == old(self).is_queued_flag(serial),
            final(self).entry_map()[serial].offset == old(self).entry_map()[serial].offset,
            final(self).entry_map()[serial].header == old(self).entry_map()[serial].header,
            final(self).entry_map()[serial].cached == old(self).entry_map()[serial].cached,
            final(self).entry_map()[serial].moving == old(self).entry_map()[serial].moving,
            final(self).entry_map()[serial].durable == old(self).entry_map()[serial].durable,
            final(self).next_serial_spec() == old(self).next_serial_spec(),
            final(self).gaps_spec() == old(self).gaps_spec(),
            final(self).tail_spec() == old(self).tail_spec(),
            final(self).size_limit_spec() == old(self).size_limit_spec(),
    {
        let mut entry = self.take_entry(serial);
        let ghost fifo0 = entry.tasks_head.fifo@;
        let r = entry.tasks_head.pop_first_read();
        let ghost fifo1 = entry.tasks_head.fifo@;
        self.put_entry(serial, entry);
        proof {
            assert(final(self).entries@ =~= old(self).entries@.insert(
                serial,
                final(self).entries@[serial],
            ));
            Schema::lemma_update_wf(*old(self), *self, serial);
            assert(fifo0 == old(self).fifo(serial));
            assert(fifo1 == final(self).fifo(serial));
            if r is Some {
                let rb = r->Some_0;
                let i = choose|i: int|
                    0 <= i < fifo0.len() && fifo0[i] == TaskKind::<C>::ReadBlock(rb) && (forall|
                        j: int,
                    |
                        0 <= j < i ==> !crate::task::kind_is_read(fifo0[j])) && fifo1 == fifo0.remove(
                        i,
                    );
                assert(0 <= i < old(self).fifo(serial).len() && old(self).fifo(serial)[i]
                    == TaskKind::<C>::ReadBlock(rb) && (forall|j: int|
                    0 <= j < i ==> !crate::task::kind_is_read(old(self).fifo(serial)[j]))
                    && final(self).fifo(serial) == old(self).fifo(serial).remove(i));
            }
        }
        r
    }

    /// Updating one record in place keeps the schema consistent, as long
    /// as its identity is kept and its extent stays within the file.
    proof fn lemma_update_wf(pre: Schema<C>, post: Schema<C>, serial: u64)
        requires
            pre.wf(),
            pre.entries@.contains_key(serial),
            post.entries@ == pre.entries@.insert(serial, post.entries@[serial]),
            post.entries@[serial].header == pre.entries@[serial].header,
            post.entries@[serial].offset + post.entries@[serial].header.block_size
                <= post.size_limit,
            post.ids@ == pre.ids@,
            post.tail <= post.size_limit,
            post.next_serial == pre.next_serial,
            post.size_limit == pre.size_limit,
            forall|i: int|
                0 <= i < post.gaps@.len() ==> (#[trigger] post.gaps@[i]).offset
                    + post.gaps@[i].len <= post.size_limit,
        ensures
            post.wf(),
    {
        assert forall|b: u64| #[trigger] post.entries@.contains_key(b) implies {
            &&& post.entries@[b].header.block_id.serial == b
            &&& 1 <= b < post.next_serial
            &&& post.entries@[b].offset + post.entries@[b].header.block_size <= post.size_limit
        } by {
            assert(pre.entries@.contains_key(b));
        }
        assert forall|b: u64| post.entries@.contains_key(b) implies #[trigger] post.ids@.contains(
            b,
        ) by {
            assert(pre.entries@.contains_key(b));
        }
        assert forall|b: u64| #[trigger] post.ids@.contains(b) implies post.entries@.contains_key(
            b,
        ) by {
            assert(pre.entries@.contains_key(b));
        }
    }

    /// A freshly allocated record keeps the schema consistent.
    proof fn lemma_alloc_wf(pre: Schema<C>, post: Schema<C>, serial: u64)
        requires
            pre.wf(),
            serial == pre.next_serial,
            serial < u64::MAX,
            post.entries@ == pre.entries@.insert(serial, post.entries@[serial]),
            post.entries@.contains_key(serial),
            post.entries@[serial].header.block_id.serial == serial,
            post.entries@[serial].offset + post.entries@[serial].header.block_size
                <= post.size_limit,
            post.ids@ == pre.ids@.push(serial),
            post.next_serial == serial + 1,
            post.size_limit == pre.size_limit,
            post.tail <= post.size_limit,
            forall|i: int|
                0 <= i < post.gaps@.len() ==> (#[trigger] post.gaps@[i]).offset
                    + post.gaps@[i].len <= post.size_limit,
        ensures
            post.wf(),
    {
        assert forall|b: u64| #[trigger] post.entries@.contains_key(b) implies {
            &&& post.entries@[b].header.block_id.serial == b
            &&& 1 <= b < post.next_serial
            &&& post.entries@[b].offset + post.entries@[b].header.block_size <= post.size_limit
        } by {
            if b != serial {
                assert(pre.entries@.contains_key(b));
            }
        }
        assert forall|i: int, j: int| 0 <= i < j < post.ids@.len() implies #[trigger] post.ids@[i]
            != #[trigger] post.ids@[j] by {
            if j == post.ids@.len() - 1 {
                assert(pre.ids@.contains(pre.ids@[i]));
                assert(pre.entries@.contains_key(pre.ids@[i]));
            }
        }
        assert forall|b: u64| post.entries@.contains_key(b) implies #[trigger] post.ids@.contains(
            b,
        ) by {
            if b == serial {
                assert(post.ids@[post.ids@.len() - 1] == serial);
            } else {
                assert(pre.ids@.contains(b));
                let j = choose|j: int| 0 <= j < pre.ids@.len() && pre.ids@[j] == b;
                assert(post.ids@[j] == b);
            }
        }
        assert forall|b: u64| #[trigger] post.ids@.contains(b) implies post.entries@.contains_key(
            b,
        ) by {
            let j = choose|j: int| 0 <= j < post.ids@.len() && post.ids@[j] == b;
            if j < post.ids@.len() - 1 {
                assert(pre.ids@[j] == b);
                assert(pre.ids@.contains(b));
            }
        }
    }

    /// Decides an incoming write request: place it, queue it behind the
    /// defragmentation pipeline, or refuse it.
    pub fn process_write_block_request(&mut self, block_bytes: &Bytes) -> (r: WriteBlockOp)
        requires
            old(self).wf(),
        ensures
            final(self).wf(),
            (r is Perform) == old(self).can_alloc(block_bytes@.len() as int),
            (r is QueuePendingDefrag) == old(self).may_defrag(block_bytes@.len() as int),
            !(r is Perform) ==> *final(self) == *old(self),
            r matches WriteBlockOp::Perform(p) ==> {
                let s = p.task_op.block_id.serial;
                &&& s == old(self).next_serial_spec()
                &&& !old(self).contains(s)
                &&& final(self).next_serial_spec() == s + 1
                &&& forall|b: u64|
                    final(self).contains(b) <==> (old(self).contains(b) || b == s)
                &&& forall|b: u64|
                    b != s && old(self).contains(b) ==> final(self).entry_map()[b] == old(
                        self,
                    ).entry_map()[b]
                &&& final(self).contains(s)
                &&& final(self).fifo(s).len() == 0
                &&& !final(self).is_queued_flag(s)
                &&& final(self).entry_map()[s].cached is None
                &&& !final(self).entry_map()[s].moving
                &&& final(self).offset_of(s) == p.task_op.block_offset
                &&& final(self).entry_map()[s].header == (BlockHeader {
                    block_id: Id { serial: s },
                    block_size: block_bytes@.len() as u64,
                })
                &&& (p.task_op.commit_type is CommitAndEof) == !old(self).fits_gap(
                    block_bytes@.len() as int,
                )
                &&& !old(self).fits_gap(block_bytes@.len() as int) ==> p.task_op.block_offset
                    == old(self).tail_spec() && final(self).tail_spec() == old(self).tail_spec()
                    + block_bytes@.len()
                &&& (p.defrag_op is Some) ==> old(self).fits_gap(block_bytes@.len() as int)
            },
            final(self).next_serial_spec() >= old(self).next_serial_spec(),
    {
        let need = block_bytes.len() as u64;
        proof {
            assert(need == block_bytes@.len());
        }
        // find the lowest-offset gap that alone can hold the payload
        let mut found: Option<usize> = None;
        let mut gi: usize = 0;
        while gi < self.gaps.len()
            invariant
                self == old(self),
                gi <= self.gaps@.len(),
                match found {
                    Some(fi) => fi < gi && self.gaps@[fi as int].len >= need,
                    None => forall|j: int| 0 <= j < gi ==> (#[trigger] self.gaps@[j]).len < need,
                },
            decreases self.gaps@.len() - gi,
        {
            if self.gaps[gi].len >= need {
                match found {
                    Some(fi) => {
                        if self.gaps[gi].offset < self.gaps[fi].offset {
                            found = Some(gi);
                        }
                    },
                    None => {
                        found = Some(gi);
                    },
                }
            }
            gi = gi + 1;
        }
        proof {
            if found is Some {
                assert(self.fits_gap(need as int));
            } else {
                assert(!self.fits_gap(need as int));
            }
        }
        if self.next_serial < u64::MAX && found.is_some() {
            let fi = found.unwrap();
            let ghost gaps0 = self.gaps@;
            let g = self.gaps[fi];
            let _ = self.gaps.remove(fi);
            let mut defrag_op: Option<DefragOp> = None;
            if g.len > need && self.next_space_key < u64::MAX {
                let key = SpaceKey { serial: self.next_space_key };
                self.next_space_key = self.next_space_key + 1;
                let rest = Gap { offset: g.offset + need, len: g.len - need, key };
                self.gaps.push(rest);
                defrag_op = Some(DefragOp { free_space_offset: rest.offset, space_key: key });
            }
            proof {
                assert forall|i: int|
                    0 <= i < self.gaps@.len() implies (#[trigger] self.gaps@[i]).offset
                    + self.gaps@[i].len <= self.size_limit by {
                    if i < gaps0.len() - 1 {
                        if i < fi {
                            assert(self.gaps@[i] == gaps0[i]);
                        } else {
                            assert(self.gaps@[i] == gaps0[i + 1]);
                        }
                    }
                }
            }
            let serial = self.next_serial;
            self.next_serial = self.next_serial + 1;
            let entry = BlockEntry {
                offset: g.offset,
                header: BlockHeader { block_id: Id { serial }, block_size: need },
                tasks_head: TasksHead::new(),
                cached: None,
                moving: false,
                durable: false,
            };
            self.put_entry(serial, entry);
            self.ids.push(serial);
            proof {
                Schema::lemma_alloc_wf(*old(self), *self, serial);
            }
            WriteBlockOp::Perform(
                WriteBlockPerform {
                    defrag_op,
                    task_op: WriteBlockTaskOp {
                        block_id: Id { serial },
                        block_offset: g.offset,
                        commit_type: WriteBlockTaskCommitType::CommitOnly,
                    },
                },
            )
        } else if self.next_serial < u64::MAX && need <= self.size_limit - self.tail {
            let offset = self.tail;
            self.tail = self.tail + need;
            let serial = self.next_serial;
            self.next_serial = self.next_serial + 1;
            let entry = BlockEntry {
                offset,
                header: BlockHeader { block_id: Id { serial }, block_size: need },
                tasks_head: TasksHead::new(),
                cached: None,
                moving: false,
                durable: false,
            };
            self.put_entry(serial, entry);
            self.ids.push(serial);
            proof {
                Schema::lemma_alloc_wf(*old(self), *self, serial);
            }
            WriteBlockOp::Perform(
                WriteBlockPerform {
                    defrag_op: None,
                    task_op: WriteBlockTaskOp {
                        block_id: Id { serial },
                        block_offset: offset,
                        commit_type: WriteBlockTaskCommitType::CommitAndEof,
                    },
                },
            )
        } else if self.gaps.len() > 0 && need <= self.size_limit {
            WriteBlockOp::QueuePendingDefrag
        } else {
            WriteBlockOp::ReplyNoSpaceLeft
        }
    }

    /// Decides an incoming read request.
    pub fn process_read_block_request(&self, block_id: &Id) -> (r: ReadBlockOp)
        ensures
            match r {
                ReadBlockOp::NotFound => !self.contains(block_id.serial),
                ReadBlockOp::Cached { block_bytes } => self.contains(block_id.serial) && (
                self.entry_map()[block_id.serial].cached matches Some(c) && block_bytes@ == c@),
                ReadBlockOp::Perform(p) => self.contains(block_id.serial) && self.entry_map()[block_id.serial].cached is None && p.block_offset == self.offset_of(block_id.serial)
                    && p.block_header == self.entry_map()[block_id.serial].header,
            },
            (r is NotFound) == !self.contains(block_id.serial),
    {
        match self.entries.get(&block_id.serial) {
            Some(entry) => match &entry.cached {
                Some(bytes) => ReadBlockOp::Cached { block_bytes: bytes.duplicate() },
                None => ReadBlockOp::Perform(
                    ReadBlockPerform { block_offset: entry.offset, block_header: entry.header },
                ),
            },
            None => ReadBlockOp::NotFound,
        }
    }

    /// Decides an incoming delete request.
    pub fn process_delete_block_request(&self, block_id: &Id) -> (r: DeleteBlockOp)
        ensures
            match r {
                DeleteBlockOp::NotFound => !self.contains(block_id.serial),
                DeleteBlockOp::Perform(p) => self.contains(block_id.serial) && p.block_offset
                    == self.offset_of(block_id.serial),
            },
            (r is NotFound) == !self.contains(block_id.serial),
    {
        match self.entries.get(&block_id.serial) {
            Some(entry) => DeleteBlockOp::Perform(
                DeleteBlockPerform { block_offset: entry.offset },
            ),
            None => DeleteBlockOp::NotFound,
        }
    }

    /// Records that a block's write task completed: the block is durable.
    pub fn process_write_block_task_done(&mut self, block_id: &Id)
        requires
            old(self).wf(),
            old(self).contains(block_id.serial),
        ensures
            final(self).wf(),
            forall|b: u64| final(self).contains(b) <==> old(self).contains(b),
            forall|b: u64|
                b != block_id.serial && old(self).contains(b) ==> final(self).entry_map()[b] == old(
                    self,
                ).entry_map()[b],
            final(self).fifo(block_id.serial) == old(self).fifo(block_id.serial),
            final(self).is_queued_flag(block_id.serial) == old(self).is_queued_flag(
                block_id.serial,
            ),
            final(self).entry_map()[block_id.serial].offset == old(self).entry_map()[block_id.serial].offset,
            final(self).entry_map()[block_id.serial].header == old(self).entry_map()[block_id.serial].header,
            final(self).entry_map()[block_id.serial].cached == old(self).entry_map()[block_id.serial].cached,
            final(self).entry_map()[block_id.serial].moving == old(self).entry_map()[block_id.serial].moving,
            final(self).entry_map()[block_id.serial].durable == true,
            final(self).next_serial_spec() == old(self).next_serial_spec(),
    {
        let mut entry = self.take_entry(block_id.serial);
        entry.durable = true;
        self.put_entry(block_id.serial, entry);
        proof {
            assert(final(self).entries@ =~= old(self).entries@.insert(
                block_id.serial,
                final(self).entries@[block_id.serial],
            ));
            Schema::lemma_update_wf(*old(self), *self, block_id.serial);
        }
    }

    /// Records a completed read of a block being relocated: the payload is
    /// stashed in the block's record until the relocation write consumes
    /// it. Returns the block's current offset.
    pub fn process_read_block_task_done(&mut self, block_id: &Id, block_bytes: Bytes) -> (r: u64)
        requires
            old(self).wf(),
            old(self).contains(block_id.serial),
        ensures
            final(self).wf(),
            r == old(self).offset_of(block_id.serial),
            forall|b: u64| final(self).contains(b) <==> old(self).contains(b),
            forall|b: u64|
                b != block_id.serial && old(self).contains(b) ==> final(self).entry_map()[b] == old(
                    self,
                ).entry_map()[b],
            final(self).fifo(block_id.serial) == old(self).fifo(block_id.serial),
            final(self).is_queued_flag(block_id.serial) == old(self).is_queued_flag(
                block_id.serial,
            ),
            final(self).entry_map()[block_id.serial].offset == old(self).entry_map()[block_id.serial].offset,
            final(self).entry_map()[block_id.serial].header == old(self).entry_map()[block_id.serial].header,
            final(self).entry_map()[block_id.serial].cached matches Some(c) && c == block_bytes,
            final(self).entry_map()[block_id.serial].moving == old(self).entry_map()[block_id.serial].moving,
            final(self).next_serial_spec() == old(self).next_serial_spec(),
    {
        let mut entry = self.take_entry(block_id.serial);
        let offset = entry.offset;
        entry.cached = Some(block_bytes);
        self.put_entry(block_id.serial, entry);
        proof {
            assert(final(self).entries@ =~= old(self).entries@.insert(
                block_id.serial,
                final(self).entries@[block_id.serial],
            ));
            Schema::lemma_update_wf(*old(self), *self, block_id.serial);
        }
        offset
    }

    /// Records a completed external delete: the block's record leaves the
    /// schema and its extent becomes a gap, hinted to the defragmentation
    /// pipeline.
    pub fn process_delete_block_task_done(&mut self, block_id: &Id) -> (r:
        DeleteBlockTaskDonePerform<C>)
        requires
            old(self).wf(),
            old(self).contains(block_id.serial),
        ensures
            final(self).wf(),
            final(self).entry_map() == old(self).entry_map().remove(block_id.serial),
            r.block_entry == old(self).entry_map()[block_id.serial],
            final(self).next_serial_spec() == old(self).next_serial_spec(),
            old(self).next_space_key_spec() < u64::MAX ==> (r.defrag_op matches Some(op) && {
                &&& op.free_space_offset == old(self).offset_of(block_id.serial)
                &&& final(self).gaps_spec() == old(self).gaps_spec().push(
                    Gap {
                        offset: old(self).offset_of(block_id.serial),
                        len: old(self).entry_map()[block_id.serial].header.block_size,
                        key: op.space_key,
                    },
                )
            }),
            old(self).next_space_key_spec() == u64::MAX ==> r.defrag_op is None,
    {
        let serial = block_id.serial;
        let entry = self.take_entry(serial);
        // drop the serial from the index
        let mut k: usize = 0;
        let mut found_at: Option<usize> = None;
        let ghost ids0 = self.ids@;
        while k < self.ids.len()
            invariant
                self.ids@ == ids0,
                k <= ids0.len(),
                match found_at {
                    Some(f) => f < ids0.len() && ids0[f as int] == serial,
                    None => forall|j: int| 0 <= j < k ==> ids0[j] != serial,
                },
            decreases ids0.len() - k,
        {
            if found_at.is_none() && self.ids[k] == serial {
                found_at = Some(k);
            }
            k = k + 1;
        }
        let f = match found_at {
            Some(f) => f,
            None => {
                proof {
                    assert(ids0.contains(serial));
                }
                vstd::pervasive::unreached()
            },
        };
        let _ = self.ids.remove(f);
        // the freed extent becomes a gap
        let mut defrag_op: Option<DefragOp> = None;
        if self.next_space_key < u64::MAX {
            let key = SpaceKey { serial: self.next_space_key };
            self.next_space_key = self.next_space_key + 1;
            self.gaps.push(Gap { offset: entry.offset, len: entry.header.block_size, key });
            defrag_op = Some(DefragOp { free_space_offset: entry.offset, space_key: key });
        }
        proof {
            let fi = f as int;
            assert(self.ids@ == ids0.remove(fi));
            // the index still covers exactly the remaining records
            assert forall|b: u64| self.entries@.contains_key(b) implies
                #[trigger] self.ids@.contains(b) by {
                assert(old(self).entries@.contains_key(b) && b != serial);
                assert(ids0.contains(b));
                let j = choose|j: int| 0 <= j < ids0.len() && ids0[j] == b;
                if j < fi {
                    assert(self.ids@[j] == b);
                } else {
                    assert(j != fi);
                    assert(self.ids@[j - 1] == b);
                }
            }
            assert forall|b: u64| #[trigger] self.ids@.contains(b) implies
                self.entries@.contains_key(b) by {
                let j = choose|j: int| 0 <= j < self.ids@.len() && self.ids@[j] == b;
                if j < fi {
                    assert(ids0[j] == b);
                } else {
                    assert(ids0[j + 1] == b);
                }
                assert(ids0.contains(b));
                assert(old(self).entries@.contains_key(b));
                assert(b != serial);
            }
            assert forall|i: int, j: int| 0 <= i < j < self.ids@.len() implies
                #[trigger] self.ids@[i] != #[trigger] self.ids@[j] by {
                let i0: int = if i < fi { i } else { i + 1 };
                let j0: int = if j < fi { j } else { j + 1 };
                assert(self.ids@[i] == ids0[i0]);
                assert(self.ids@[j] == ids0[j0]);
            }
            // the gap bound comes from the removed record's own bound
            let gn = self.gaps@.len() - 1;
            assert forall|i: int|
                0 <= i < self.gaps@.len() implies (#[trigger] self.gaps@[i]).offset
                + self.gaps@[i].len <= self.size_limit by {
                if i < gn || defrag_op is None {
                    assert(self.gaps@[i] == old(self).gaps@[i]);
                }
            }
        }
        DeleteBlockTaskDonePerform { defrag_op, block_entry: entry }
    }

    /// Records a completed defragmentation delete: picks the block's new
    /// placement and hands back the stashed payload for the relocation
    /// write. `None` abandons the move and leaves the block where it was.
    pub fn process_delete_block_task_done_defrag(&mut self, block_id: &Id, space_key: SpaceKey)
        -> (r: Option<DeleteBlockTaskDoneDefragPerform>)
        requires
            old(self).wf(),
            old(self).contains(block_id.serial),
        ensures
            final(self).wf(),
            forall|b: u64| final(self).contains(b) <==> old(self).contains(b),
            forall|b: u64|
                b != block_id.serial && old(self).contains(b) ==> final(self).entry_map()[b] == old(
                    self,
                ).entry_map()[b],
            final(self).fifo(block_id.serial) == old(self).fifo(block_id.serial),
            final(self).is_queued_flag(block_id.serial) == old(self).is_queued_flag(
                block_id.serial,
            ),
            final(self).entry_map()[block_id.serial].header == old(self).entry_map()[block_id.serial].header,
            old(self).entry_map()[block_id.serial].cached is Some ==> final(self).entry_map()[block_id.serial].moving == false,
            old(self).entry_map()[block_id.serial].cached is None ==> final(self).entry_map()[block_id.serial].moving == old(self).entry_map()[block_id.serial].moving,
            final(self).next_serial_spec() == old(self).next_serial_spec(),
            match r {
                Some(p) => {
                    &&& old(self).entry_map()[block_id.serial].cached matches Some(c)
                        && p.block_bytes == c
                    &&& final(self).entry_map()[block_id.serial].cached is None
                    &&& final(self).offset_of(block_id.serial) == p.block_offset
                },
                None => {
                    &&& final(self).entry_map()[block_id.serial].cached == old(self).entry_map()[block_id.serial].cached
                    &&& final(self).offset_of(block_id.serial) == old(self).offset_of(
                        block_id.serial,
                    )
                },
            },
            old(self).relocation_possible(block_id.serial, space_key) ==> (r is Some),
    {
        let serial = block_id.serial;
        let mut entry = self.take_entry(serial);
        let payload = entry.cached;
        entry.cached = None;
        match payload {
            None => {
                // nothing was stashed: abandon the move, leaving the
                // record reserved as it was
                self.put_entry(serial, entry);
                proof {
                    assert(final(self).entries@ =~= old(self).entries@.insert(
                        serial,
                        final(self).entries@[serial],
                    ));
                    Schema::lemma_update_wf(*old(self), *self, serial);
                }
                None
            },
            Some(block_bytes) => {
                let size = entry.header.block_size;
                // look for the named gap, if it still exists and fits
                let mut found: Option<usize> = None;
                let mut gi: usize = 0;
                while gi < self.gaps.len()
                    invariant
                        self.gaps@ == old(self).gaps@,
                        gi <= self.gaps@.len(),
                        match found {
                            Some(fi) => fi < self.gaps@.len() && self.gaps@[fi as int].len
                                >= size,
                            None => forall|j: int|
                                0 <= j < gi ==> !((#[trigger] self.gaps@[j]).key == space_key
                                    && self.gaps@[j].len >= size),
                        },
                    decreases self.gaps@.len() - gi,
                {
                    if found.is_none() && self.gaps[gi].key.serial == space_key.serial
                        && self.gaps[gi].len >= size {
                        found = Some(gi);
                    }
                    gi = gi + 1;
                }
                let old_offset = entry.offset;
                let placed: Option<(u64, WriteBlockTaskCommitType)> = match found {
                    Some(fi) => {
                        let g = self.gaps[fi];
                        let _ = self.gaps.remove(fi);
                        if g.len > size && self.next_space_key < u64::MAX {
                            let key = SpaceKey { serial: self.next_space_key };
                            self.next_space_key = self.next_space_key + 1;
                            self.gaps.push(
                                Gap { offset: g.offset + size, len: g.len - size, key },
                            );
                        }
                        Some((g.offset, WriteBlockTaskCommitType::CommitOnly))
                    },
                    None => {
                        if size <= self.size_limit - self.tail {
                            let offset = self.tail;
                            self.tail = self.tail + size;
                            Some((offset, WriteBlockTaskCommitType::CommitAndEof))
                        } else {
                            None
                        }
                    },
                };
                match placed {
                    None => {
                        // no room anywhere: abandon the move, keep the stash
                        entry.cached = Some(block_bytes);
                        entry.moving = false;
                        self.put_entry(serial, entry);
                        proof {
                            assert(final(self).entries@ =~= old(self).entries@.insert(
                                serial,
                                final(self).entries@[serial],
                            ));
                        }
                        None
                    },
                    Some((new_offset, commit_type)) => {
                        // the old extent becomes a gap
                        let mut defrag_op: Option<DefragOp> = None;
                        if self.next_space_key < u64::MAX {
                            let key = SpaceKey { serial: self.next_space_key };
                            self.next_space_key = self.next_space_key + 1;
                            self.gaps.push(Gap { offset: old_offset, len: size, key });
                            defrag_op = Some(
                                DefragOp { free_space_offset: old_offset, space_key: key },
                            );
                        }
                        entry.offset = new_offset;
                        entry.moving = false;
                        entry.durable = false;
                        self.put_entry(serial, entry);
                        proof {
                            assert(final(self).entries@ =~= old(self).entries@.insert(
                                serial,
                                final(self).entries@[serial],
                            ));
                        }
                        Some(
                            DeleteBlockTaskDoneDefragPerform {
                                block_offset: new_offset,
                                block_bytes,
                                commit_type,
                                defrag_op,
                            },
                        )
                    },
                }
            },
        }
    }

    /// Picks an idle block whose relocation would collapse the free region
    /// named by `space_key`, and reserves it for the move.
    pub fn pick_defrag_space_key(&mut self, space_key: &SpaceKey) -> (r: Option<PickedBlock>)
        requires
            old(self).wf(),
        ensures
            final(self).wf(),
            forall|b: u64| final(self).contains(b) <==> old(self).contains(b),
            final(self).next_serial_spec() == old(self).next_serial_spec(),
            match r {
                None => *final(self) == *old(self),
                Some(p) => {
                    let s = p.block_id.serial;
                    &&& old(self).contains(s)
                    &&& forall|b: u64|
                        b != s && old(self).contains(b) ==> final(self).entry_map()[b] == old(
                            self,
                        ).entry_map()[b]
                    &&& final(self).fifo(s) == old(self).fifo(s)
                    &&& old(self).fifo(s).len() == 0
                    &&& final(self).is_queued_flag(s) == old(self).is_queued_flag(s)
                    &&& final(self).entry_map()[s].offset == old(self).entry_map()[s].offset
                    &&& final(self).entry_map()[s].header == old(self).entry_map()[s].header
                    &&& final(self).entry_map()[s].cached is None
                    &&& old(self).entry_map()[s].cached is None
                    &&& old(self).entry_map()[s].moving == false
                    &&& final(self).entry_map()[s].moving == true
                    &&& p.block_offset == old(self).offset_of(s)
                    &&& p.block_header == old(self).entry_map()[s].header
                },
            },
            match gap_with_key(old(self).gaps_spec(), *space_key) {
                None => r is None,
                Some(g) => (exists|b: u64| old(self).relocatable_into(b, g)) ==> r is Some,
            },
    {
        // the named free region must still exist
        let mut gap: Option<Gap> = None;
        let mut gi: usize = 0;
        while gi < self.gaps.len()
            invariant
                gi <= self.gaps@.len(),
                self == old(self),
                match gap {
                    Some(g) => exists|i: int|
                        {
                            &&& 0 <= i < self.gaps@.len()
                            &&& (#[trigger] self.gaps@[i]).key == *space_key
                            &&& g == self.gaps@[i]
                            &&& forall|j: int| 0 <= j < i ==> self.gaps@[j].key != *space_key
                        },
                    None => forall|j: int|
                        0 <= j < gi ==> (#[trigger] self.gaps@[j]).key != *space_key,
                },
            decreases self.gaps@.len() - gi,
        {
            if gap.is_none() && self.gaps[gi].key.serial == space_key.serial {
                gap = Some(self.gaps[gi]);
            }
            gi = gi + 1;
        }
        let g = match gap {
            Some(g) => {
                proof {
                    let i = choose|i: int|
                        0 <= i < self.gaps@.len() && (#[trigger] self.gaps@[i]).key == *space_key
                            && g == self.gaps@[i] && forall|j: int|
                            0 <= j < i ==> self.gaps@[j].key != *space_key;
                    lemma_gap_with_key_at(self.gaps@, *space_key, i);
                }
                g
            },
            None => {
                proof {
                    lemma_gap_with_key_none(self.gaps@, *space_key);
                }
                return None;
            },
        };
        // the best candidate: the idle block closest after the region
        let mut best: Option<PickedBlock> = None;
        let mut k: usize = 0;
        while k < self.ids.len()
            invariant
                self == old(self),
                self.wf(),
                k <= self.ids@.len(),
                match best {
                    Some(p) => {
                        let s = p.block_id.serial;
                        &&& self.contains(s)
                        &&& self.fifo(s).len() == 0
                        &&& self.entry_map()[s].cached is None
                        &&& self.entry_map()[s].moving == false
                        &&& p.block_offset == self.offset_of(s)
                        &&& p.block_header == self.entry_map()[s].header
                    },
                    None => forall|j: int|
                        0 <= j < k ==> !self.relocatable_into(#[trigger] self.ids@[j], g),
                },
            decreases self.ids@.len() - k,
        {
            let serial = self.ids[k];
            proof {
                assert(self.ids@.contains(serial));
            }
            match self.entries.get(&serial) {
                Some(entry) => {
                    let idle = entry.tasks_head.fifo.len() == 0 && !entry.moving
                        && entry.cached.is_none();
                    let fits = entry.offset > g.offset && entry.header.block_size <= g.len;
                    if idle && fits {
                        let take = match &best {
                            Some(p) => entry.offset < p.block_offset,
                            None => true,
                        };
                        if take {
                            best = Some(
                                PickedBlock {
                                    block_id: Id { serial },
                                    block_offset: entry.offset,
                                    block_header: entry.header,
                                },
                            );
                        }
                    }
                },
                None => {
                    proof {
                        assert(false);
                    }
                },
            }
            k = k + 1;
        }
        match best {
            Some(p) => {
                let mut entry = self.take_entry(p.block_id.serial);
                entry.moving = true;
                self.put_entry(p.block_id.serial, entry);
                proof {
                    assert(final(self).entries@ =~= old(self).entries@.insert(
                        p.block_id.serial,
                        final(self).entries@[p.block_id.serial],
                    ));
                    Schema::lemma_update_wf(*old(self), *self, p.block_id.serial);
                }
                Some(p)
            },
            None => {
                proof {
                    // every candidate was examined: none was relocatable
                    assert forall|b: u64| !old(self).relocatable_into(b, g) by {
                        if old(self).contains(b) {
                            assert(self.ids@.contains(b));
                            let j = choose|j: int|
                                0 <= j < self.ids@.len() && self.ids@[j] == b;
                            assert(!self.relocatable_into(self.ids@[j], g));
                        }
                    }
                }
                None
            },
        }
    }

    /// Current statistics of the file.
    pub fn info(&self) -> (r: WheelInfo)
        ensures
            r.size_limit == self.size_limit_spec(),
            r.tail_offset == self.tail_spec(),
            r.blocks_count == self.entry_map().dom().len(),
            r.gaps_count == self.gaps_spec().len(),
    {
        WheelInfo {
            size_limit: self.size_limit,
            tail_offset: self.tail,
            blocks_count: self.entries.len(),
            gaps_count: self.gaps.len(),
        }
    }
}

} // verus!
