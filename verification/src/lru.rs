//! Cache of decoded block payloads, keyed by block id.
//!
//! The performer consults it before scheduling a read task and keeps it
//! coherent: a payload is inserted when a read completes and invalidated
//! when the block's delete completes. The eviction policy is not part of
//! the control core's obligations; this cache retains entries until they
//! are invalidated.

use vstd::prelude::*;
use std::collections::HashMap;

use crate::block::Bytes;

verus! {

broadcast use vstd::std_specs::hash::group_hash_axioms;

/// Keyed cache of read-only block payloads.
pub struct Cache {
    map: HashMap<u64, Bytes>,
}

impl Cache {
    /// The cache contents as a map from block serial to payload bytes.
    pub closed spec fn contents(&self) -> Map<u64, Seq<u8>> {
        Map::new(
            |serial: u64| self.map@.contains_key(serial),
            |serial: u64| self.map@[serial]@,
        )
    }

    pub fn new() -> (r: Cache)
        ensures
            r.contents() == Map::<u64, Seq<u8>>::empty(),
    {
        let map: HashMap<u64, Bytes> = HashMap::new();
        let r = Cache { map };
        proof {
            assert(r.contents() =~= Map::<u64, Seq<u8>>::empty());
        }
        r
    }

    /// Stores the payload of a block, replacing any previous entry.
    pub fn insert(&mut self, serial: u64, block_bytes: Bytes)
        ensures
            final(self).contents() == old(self).contents().insert(serial, block_bytes@),
    {
        let ghost bytes_view = block_bytes@;
        self.map.insert(serial, block_bytes);
        proof {
            assert(final(self).contents() =~= old(self).contents().insert(serial, bytes_view));
        }
    }

    /// Looks a block's payload up; a copy of the cached bytes is returned.
    pub fn get(&self, serial: u64) -> (r: Option<Bytes>)
        ensures
            match r {
                Some(bytes) => self.contents().contains_key(serial) && bytes@
                    == self.contents()[serial],
                None => !self.contents().contains_key(serial),
            },
    {
        match self.map.get(&serial) {
            Some(bytes) => Some(bytes.duplicate()),
            None => None,
        }
    }

    /// Drops a block's payload, if present.
    pub fn invalidate(&mut self, serial: u64)
        ensures
            final(self).contents() == old(self).contents().remove(serial),
    {
        self.map.remove(&serial);
        proof {
            assert(final(self).contents() =~= old(self).contents().remove(serial));
        }
    }
}

} // verus!
