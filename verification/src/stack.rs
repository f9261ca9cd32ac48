//! A storage in memory without the limits of FLASH.
use vstd::prelude::*;

use crate::storage;
use crate::storage::{Medium, ReadStorage, Storage};

verus! {

/// A storage over a borrowed buffer: any word can be written at any time.
pub struct StackStorage<'a> {
    /// The stored bytes.
    pub buf: &'a mut [u8],
}

impl<'a> ReadStorage for StackStorage<'a> {
    type Error = ();

    open spec fn medium(&self) -> Medium {
        Medium { bytes: self.buf@, locked: Set::empty(), reliable: true, faults: Seq::empty() }
    }

    fn try_read(&mut self, offset: u32, bytes: &mut [u8]) -> (r: Result<(), ()>) {
        let addr: usize = offset as usize;
        let len: usize = bytes.len();
        let capacity: usize = self.buf.len();
        let mut i: usize = 0;
        while i < len
            invariant
                i <= len,
                len == old(bytes)@.len(),
                bytes@.len() == len,
                addr + len <= capacity,
                capacity == self.buf@.len(),
                *self == *old(self),
                forall|j: int| 0 <= j < i ==> bytes@[j] == self.buf@[addr + j],
            decreases len - i,
        {
            bytes[i] = self.buf[addr + i];
            i += 1;
        }
        assert(bytes@ =~= self.buf@.subrange(addr as int, addr + len));
        Ok(())
    }

    fn capacity(&self) -> (r: usize) {
        self.buf.len()
    }
}

impl<'a> Storage for StackStorage<'a> {
    fn try_write(&mut self, offset: u32, bytes: &[u8]) -> (r: Result<(), ()>) {
        let addr: usize = offset as usize;
        let len: usize = bytes.len();
        let capacity: usize = self.buf.len();
        let mut i: usize = 0;
        while i < len
            invariant
                i <= len,
                len == bytes@.len(),
                addr + len <= capacity,
                capacity == self.buf@.len(),
                self.buf@ == storage::patched(old(self).buf@, addr as int, bytes@.take(i as int)),
            decreases len - i,
        {
            self.buf[addr + i] = bytes[i];
            i += 1;
        }
        assert(bytes@.take(len as int) =~= bytes@);
        Ok(())
    }
}

} // verus!
