//! Block identifiers, byte buffers and on-disk block metadata.

use vstd::prelude::*;

verus! {

/// Unique identifier of a stored block: a serial number handed out by the
/// schema. Totally ordered and cheap to copy.
#[derive(Clone, Copy, PartialEq, Eq, Structural, Debug, Hash)]
pub struct Id {
    pub serial: u64,
}

impl Id {
    pub fn new(serial: u64) -> (r: Id)
        ensures
            r.serial == serial,
    {
        Id { serial }
    }
}

/// An immutable block payload.
pub struct Bytes {
    pub data: Vec<u8>,
}

impl View for Bytes {
    type V = Seq<u8>;

    closed spec fn view(&self) -> Seq<u8> {
        self.data@
    }
}

impl Bytes {
    pub fn from_vec(data: Vec<u8>) -> (r: Bytes)
        ensures
            r@ == data@,
    {
        Bytes { data }
    }

    pub fn len(&self) -> (r: usize)
        ensures
            r == self@.len(),
    {
        self.data.len()
    }

    pub fn as_slice(&self) -> (r: &[u8])
        ensures
            r@ == self@,
    {
        self.data.as_slice()
    }

    /// An explicit deep copy with a proved view equality.
    pub fn duplicate(&self) -> (r: Bytes)
        ensures
            r@ == self@,
    {
        let mut data: Vec<u8> = Vec::new();
        let mut i: usize = 0;
        while i < self.data.len()
            invariant
                i <= self.data.len(),
                data@ == self.data@.subrange(0, i as int),
            decreases self.data.len() - i,
        {
            data.push(self.data[i]);
            i = i + 1;
        }
        proof {
            assert(data@ =~= self.data@);
        }
        Bytes { data }
    }
}

impl Clone for Bytes {
    fn clone(&self) -> (r: Bytes)
        ensures
            r@ == self@,
    {
        self.duplicate()
    }
}

/// A mutable block buffer, lent from the pool and frozen into [`Bytes`]
/// once filled.
pub struct BytesMut {
    pub data: Vec<u8>,
}

impl View for BytesMut {
    type V = Seq<u8>;

    closed spec fn view(&self) -> Seq<u8> {
        self.data@
    }
}

impl BytesMut {
    pub fn new() -> (r: BytesMut)
        ensures
            r@.len() == 0,
    {
        BytesMut { data: Vec::new() }
    }

    pub fn from_vec(data: Vec<u8>) -> (r: BytesMut)
        ensures
            r@ == data@,
    {
        BytesMut { data }
    }

    pub fn len(&self) -> (r: usize)
        ensures
            r == self@.len(),
    {
        self.data.len()
    }

    pub fn push(&mut self, byte: u8)
        ensures
            final(self)@ == old(self)@.push(byte),
    {
        self.data.push(byte);
    }

    pub fn clear(&mut self)
        ensures
            final(self)@.len() == 0,
    {
        self.data.clear();
    }

    /// Turns the mutable buffer into an immutable payload, keeping its
    /// contents.
    pub fn freeze(self) -> (r: Bytes)
        ensures
            r@ == self@,
    {
        Bytes { data: self.data }
    }
}

/// Metadata kept with a block: its identifier and the size of its payload.
#[derive(Clone, Copy, PartialEq, Eq, Structural, Debug)]
pub struct BlockHeader {
    pub block_id: Id,
    pub block_size: u64,
}

} // verus!
