//! FLASH memory simulated in RAM.
use std::collections::HashSet;
use vstd::prelude::*;

use crate::storage;
use crate::storage::{ErasableStorage, Fault, Medium, ReadStorage, Storage};

verus! {

/// A storage that behaves as FLASH does: a word can be written only once
/// between two erasures of its page.
pub struct PseudoFlashStorage<'a> {
    /// The stored bytes.
    pub buf: &'a mut [u8],
    /// The words that have been written since they were last erased.
    pub word_set: HashSet<usize>,
    /// The requests that have been refused, for proofs only.
    pub faults: Ghost<Seq<Fault>>,
}

/// The words of a set of word numbers.
pub open spec fn word_numbers(set: Set<usize>) -> Set<int> {
    Set::new(|word: int| 0 <= word <= usize::MAX && set.contains(word as usize))
}

/// Whether `next` is `medium` after `data` has been written at `offset` of a
/// FLASH: the words that were programmed are locked from then on.
pub open spec fn flashed(medium: Medium, next: Medium, offset: int, data: Seq<u8>) -> bool {
    &&& medium.wrote(next, offset, data)
    &&& forall|word: int| #[trigger]
        next.locked.contains(word) <==> medium.locked.contains(word) || storage::programs(
            offset,
            data.len() as int,
            word,
        )
}

/// A write to a word that has been written is refused.
pub proof fn law_no_second_write(
    medium: Medium,
    next: Medium,
    offset: int,
    data: Seq<u8>,
    word: int,
    again: int,
    len: int,
)
    requires
        flashed(medium, next, offset, data),
        storage::programs(offset, data.len() as int, word),
        storage::programs(again, len, word),
    ensures
        !next.writable(again, len),
{
    assert(next.locked.contains(word));
}

impl<'a> Default for PseudoFlashStorage<'a> {
    /// A storage without any bytes.
    fn default() -> (r: Self)
        ensures
            r.buf@.len() == 0,
            r.word_set@ == Set::<usize>::empty(),
            r.faults@ == Seq::<Fault>::empty(),
    {
        PseudoFlashStorage { buf: &mut [], word_set: HashSet::new(), faults: Ghost(Seq::empty()) }
    }
}

impl<'a> ReadStorage for PseudoFlashStorage<'a> {
    type Error = ();

    open spec fn medium(&self) -> Medium {
        Medium {
            bytes: self.buf@,
            locked: word_numbers(self.word_set@),
            reliable: true,
            faults: self.faults@,
        }
    }

    fn try_read(&mut self, offset: u32, bytes: &mut [u8]) -> (r: Result<(), ()>) {
        let addr: usize = offset as usize;
        let len: usize = bytes.len();
        let capacity: usize = self.buf.len();
        let mut i: usize = 0;
        while i < len
            invariant
                i <= len,
                len == old(bytes)@.len(),
                bytes@.len() == len,
                addr + len <= capacity,
                capacity == self.buf@.len(),
                *self == *old(self),
                forall|j: int| 0 <= j < i ==> bytes@[j] == self.buf@[addr + j],
            decreases len - i,
        {
            bytes[i] = self.buf[addr + i];
            i += 1;
        }
        assert(bytes@ =~= self.buf@.subrange(addr as int, addr + len));
        Ok(())
    }

    fn capacity(&self) -> (r: usize) {
        self.buf.len()
    }
}

impl<'a> Storage for PseudoFlashStorage<'a> {
    /// Writes `bytes`, or refuses where one of the words has been written since
    /// it was last erased. The words before the first such word count as
    /// written from then on, also when the write is refused.
    fn try_write(&mut self, offset: u32, bytes: &[u8]) -> (r: Result<(), ()>)
        ensures
            r is Ok ==> flashed(old(self).medium(), final(self).medium(), offset as int, bytes@),
            r is Err ==> exists|stop: int|
                {
                    &&& storage::programs(offset as int, bytes@.len() as int, stop)
                    &&& #[trigger] old(self).medium().locked.contains(stop)
                    &&& forall|word: int|
                        offset as int / 8 <= word < stop ==> !#[trigger] old(
                            self,
                        ).medium().locked.contains(word)
                    &&& forall|word: int| #[trigger]
                        final(self).medium().locked.contains(word) <==> old(
                            self,
                        ).medium().locked.contains(word) || offset as int / 8 <= word < stop
                },
    {
        broadcast use vstd::std_specs::hash::group_hash_axioms;

        let addr: usize = offset as usize;
        let len: usize = bytes.len();
        let capacity: usize = self.buf.len();
        let first: usize = addr / 8;
        let words: usize = len / 8 + if len % 8 > 0 { 1 } else { 0 };
        let mut k: usize = 0;
        while k < words
            invariant
                addr + len <= capacity,
                first == addr / 8,
                words == (len + 7) / 8,
                k <= words,
                len == bytes@.len(),
                first == offset / 8,
                self.buf@ == old(self).buf@,
                self.faults == old(self).faults,
                capacity == self.buf@.len(),
                forall|w: usize|
                    first <= w < first + k ==> !#[trigger] old(self).word_set@.contains(w),
                forall|w: usize| #[trigger]
                    self.word_set@.contains(w) <==> old(self).word_set@.contains(w) || first <= w
                        < first + k,
            decreases words - k,
        {
            let word: usize = first + k;
            if self.word_set.contains(&word) {
                proof {
                    assert(storage::programs(offset as int, len as int, word as int));
                    assert(old(self).medium().locked.contains(word as int));
                    assert forall|w: int| offset as int / 8 <= w < word implies !#[trigger] old(
                        self,
                    ).medium().locked.contains(w) by {
                        assert(!old(self).word_set@.contains(w as usize));
                    }
                    self.faults@ = self.faults@.push(Fault::Write);
                }
                return Err(());
            }
            self.word_set.insert(word);
            k += 1;
        }
        proof {
            assert(old(self).medium().writable(offset as int, len as int)) by {
                assert forall|word: int|
                    storage::programs(offset as int, len as int, word) implies !#[trigger] old(
                    self,
                ).medium().locked.contains(word) by {
                    assert(!old(self).word_set@.contains(word as usize));
                }
            }
        }
        let mut i: usize = 0;
        let ghost set = self.word_set@;
        while i < len
            invariant
                i <= len,
                len == bytes@.len(),
                addr + len <= capacity,
                capacity == self.buf@.len(),
                self.word_set@ == set,
                self.faults == old(self).faults,
                self.buf@ == storage::patched(old(self).buf@, addr as int, bytes@.take(i as int)),
            decreases len - i,
        {
            self.buf[addr + i] = bytes[i];
            i += 1;
        }
        assert(bytes@.take(len as int) =~= bytes@);
        Ok(())
    }
}

impl<'a> ErasableStorage for PseudoFlashStorage<'a> {
    const ERASE_SIZE: u32 = 128;

    open spec fn page_size() -> u32 {
        128
    }

    proof fn erase_size() {
    }

    fn try_erase(&mut self, from: u32, to: u32) -> (r: Result<(), ()>)
    {
        broadcast use vstd::std_specs::hash::group_hash_axioms;

        let capacity: usize = self.buf.len();
        if from % Self::ERASE_SIZE != 0 {
            proof {
                self.faults@ = self.faults@.push(Fault::Erase);
            }
            return Err(());  // Not aligned
        }
        if to as usize >= capacity {
            proof {
                self.faults@ = self.faults@.push(Fault::Erase);
            }
            return Err(());  // Overflow
        }
        let mut page: usize = from as usize;
        while page <= to as usize
            invariant
                from <= page,
                page % 128 == 0,
                from % 128 == 0,
                from <= to ==> page <= storage::erase_end(from as int, to as int, 128),
                from > to ==> page == from,
                from <= to ==> storage::erase_end(from as int, to as int, 128) <= capacity,
                capacity == self.buf@.len(),
                capacity == old(self).buf@.len(),
                self.faults == old(self).faults,
                self.buf@ == storage::cleared(old(self).buf@, from as int, page as int),
                forall|w: usize| #[trigger]
                    self.word_set@.contains(w) <==> old(self).word_set@.contains(w) && !(from / 8
                        <= w < page / 8),
            decreases to as usize + 128 - page,
        {
            let ghost before = self.word_set@;
            let mut k: usize = 0;
            while k < 16
                invariant
                    k <= 16,
                    page + 128 <= capacity,
                    capacity == self.buf@.len(),
                    self.faults == old(self).faults,
                    self.buf@ == storage::cleared(old(self).buf@, from as int, page as int),
                    forall|w: usize| #[trigger]
                        self.word_set@.contains(w) <==> before.contains(w) && !(page / 8 <= w < page
                            / 8 + k),
                decreases 16 - k,
            {
                let word: usize = page / 8 + k;
                self.word_set.remove(&word);
                k += 1;
            }
            let ghost set = self.word_set@;
            let mut i: usize = 0;
            while i < 128
                invariant
                    i <= 128,
                    from <= page,
                    page + 128 <= capacity,
                    capacity == self.buf@.len(),
                    self.word_set@ == set,
                    self.faults == old(self).faults,
                    self.buf@ == storage::cleared(old(self).buf@, from as int, page + i),
                decreases 128 - i,
            {
                self.buf[page + i] = 0xFF;
                i += 1;
            }
            page += 128;
        }
        Ok(())
    }
}

} // verus!
