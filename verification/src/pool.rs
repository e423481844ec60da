//! Pool of reusable block buffers.
//!
//! The pool is the long-lived owner of buffer storage: callers lend a
//! cleared mutable buffer, fill it, and either repay it or let it travel
//! with a task until the performer repays it on the task's completion.

use vstd::prelude::*;

use crate::block::{Bytes, BytesMut};

verus! {

/// A pool of spare block buffers.
pub struct Blocks {
    spare: Vec<BytesMut>,
}

impl Blocks {
    /// The number of buffers currently held by the pool.
    pub closed spec fn spare_count(&self) -> nat {
        self.spare@.len()
    }

    pub fn new() -> (r: Blocks)
        ensures
            r.spare_count() == 0,
    {
        Blocks { spare: Vec::new() }
    }

    /// Lends a cleared buffer, reusing a repaid one when available.
    pub fn lend(&mut self) -> (r: BytesMut)
        ensures
            r@.len() == 0,
            final(self).spare_count() == if old(self).spare_count() == 0 {
                0
            } else {
                (old(self).spare_count() - 1) as nat
            },
    {
        match self.spare.pop() {
            Some(mut buf) => {
                buf.clear();
                buf
            },
            None => BytesMut::new(),
        }
    }

    /// Returns a frozen buffer's storage to the pool.
    pub fn repay(&mut self, block_bytes: Bytes)
        ensures
            final(self).spare_count() == old(self).spare_count() + 1,
    {
        self.spare.push(BytesMut::from_vec(block_bytes.data));
    }
}

} // verus!
