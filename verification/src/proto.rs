//! Client-facing requests. Each request carries an opaque context token of
//! type `C` that is returned unchanged in the matching reply event.

use vstd::prelude::*;

use crate::block::{Bytes, Id};

verus! {

pub enum Request<C> {
    Info(RequestInfo<C>),
    Flush(RequestFlush<C>),
    LendBlock(RequestLendBlock<C>),
    RepayBlock(RequestRepayBlock),
    WriteBlock(RequestWriteBlock<C>),
    ReadBlock(RequestReadBlock<C>),
    DeleteBlock(RequestDeleteBlock<C>),
}

pub struct RequestInfo<C> {
    pub context: C,
}

pub struct RequestFlush<C> {
    pub context: C,
}

pub struct RequestLendBlock<C> {
    pub context: C,
}

pub struct RequestRepayBlock {
    pub block_bytes: Bytes,
}

pub struct RequestWriteBlock<C> {
    pub block_bytes: Bytes,
    pub context: C,
}

pub struct RequestReadBlock<C> {
    pub block_id: Id,
    pub context: C,
}

pub struct RequestDeleteBlock<C> {
    pub block_id: Id,
    pub context: C,
}

} // verus!
