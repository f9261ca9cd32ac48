//! Byte-addressed storage: what it holds, and what reading, writing and
//! erasing do to it.
use vstd::prelude::*;

verus! {

/// Number of bytes in a storage word; typical internal FLASH has 64-bit words.
pub const WORD_SIZE_BYTES: usize = 8;

/// The byte that an erased storage cell holds.
///
/// It is also the byte that separates log frames, so erased space reads as a
/// run of separators.
pub const COBS_SENTINEL_BYTE: u8 = 0xFF;

/// The kind of a request that has failed.
#[derive(Clone, Copy, Debug, PartialEq, Eq, Structural)]
pub enum Fault {
    /// A read.
    Read,
    /// A write.
    Write,
    /// An erase.
    Erase,
}

/// Mathematical model of a storage.
#[verifier::ext_equal]
pub struct Medium {
    /// The stored bytes; their number is the capacity.
    pub bytes: Seq<u8>,
    /// The words (numbered from 0) that refuse to be written until they are erased.
    pub locked: Set<int>,
    /// Whether requests fail only for the reasons that this model knows: a write
    /// for a locked word, an erase for its range. A storage that is not reliable
    /// may fail any request.
    pub reliable: bool,
    /// The requests that have failed so far.
    pub faults: Seq<Fault>,
}

/// Whether a write of `len` bytes at `offset` programs the word `word`.
///
/// One word is counted for every started group of eight bytes, from the word
/// that holds `offset` on.
pub open spec fn programs(offset: int, len: int, word: int) -> bool {
    offset / 8 <= word < offset / 8 + (len + 7) / 8
}

/// `bytes` with `data` put at `offset`.
pub open spec fn patched(bytes: Seq<u8>, offset: int, data: Seq<u8>) -> Seq<u8> {
    Seq::new(
        bytes.len(),
        |i: int|
            if offset <= i < offset + data.len() {
                data[i - offset]
            } else {
                bytes[i]
            },
    )
}

/// `bytes` with the range from `from` up to `end` erased.
pub open spec fn cleared(bytes: Seq<u8>, from: int, end: int) -> Seq<u8> {
    Seq::new(
        bytes.len(),
        |i: int|
            if from <= i < end {
                COBS_SENTINEL_BYTE
            } else {
                bytes[i]
            },
    )
}

/// End of the range that erasing `from..=to` clears: the end of the page of `to`.
pub open spec fn erase_end(from: int, to: int, page: int) -> int {
    if from <= to {
        (to / page + 1) * page
    } else {
        from
    }
}

impl Medium {
    /// Whether no word that the write would program is locked.
    pub open spec fn writable(self, offset: int, len: int) -> bool {
        forall|word: int| programs(offset, len, word) ==> !#[trigger] self.locked.contains(word)
    }

    /// Whether `next` is `self` after `data` has been written at `offset`.
    ///
    /// The words that were programmed may be locked afterwards or not; all
    /// others are as before.
    pub open spec fn wrote(self, next: Medium, offset: int, data: Seq<u8>) -> bool {
        &&& next.bytes == patched(self.bytes, offset, data)
        &&& next.reliable == self.reliable
        &&& next.faults == self.faults
        &&& forall|word: int|
            !programs(offset, data.len() as int, word) ==> (#[trigger] next.locked.contains(word)
                <==> self.locked.contains(word))
    }

    /// Whether `next` is `self` after the bytes from `from` up to `end` have
    /// been erased: they hold 0xFF, and their words can be written again.
    pub open spec fn erased(self, next: Medium, from: int, end: int) -> bool {
        &&& next.bytes == cleared(self.bytes, from, end)
        &&& next.reliable == self.reliable
        &&& next.faults == self.faults
        &&& forall|word: int|
            from <= 8 * word && 8 * word + 8 <= end ==> !#[trigger] next.locked.contains(word)
        &&& forall|word: int|
            8 * word + 8 <= from || end <= 8 * word ==> (#[trigger] next.locked.contains(word)
                <==> self.locked.contains(word))
    }

    /// The storage after a request that has failed and changed nothing.
    pub open spec fn failed(self, fault: Fault) -> Medium {
        Medium { faults: self.faults.push(fault), ..self }
    }

    /// The storage after requests to read, of which the last has failed unless
    /// all are `done`.
    pub open spec fn read(self, done: bool) -> Medium {
        if done {
            self
        } else {
            self.failed(Fault::Read)
        }
    }

    /// Whether an erase of `from..=to` is a request for whole pages inside the storage.
    pub open spec fn erasable(self, from: int, to: int, page: int) -> bool {
        from % page == 0 && to < self.bytes.len()
    }
}

/// A storage that can be read.
pub trait ReadStorage {
    /// What a failed request reports.
    type Error;

    /// The model of the storage.
    spec fn medium(&self) -> Medium;

    /// Reads `bytes.len()` bytes from `offset` on into `bytes`.
    fn try_read(&mut self, offset: u32, bytes: &mut [u8]) -> (r: Result<(), Self::Error>)
        requires
            offset + old(bytes)@.len() <= old(self).medium().bytes.len(),
        ensures
            final(self).medium() == old(self).medium().read(r is Ok),
            final(bytes)@.len() == old(bytes)@.len(),
            r is Ok ==> final(bytes)@ == old(self).medium().bytes.subrange(
                offset as int,
                offset + old(bytes)@.len(),
            ),
            old(self).medium().reliable ==> r is Ok,
    ;

    /// The number of bytes that the storage holds.
    fn capacity(&self) -> (r: usize)
        ensures
            r == self.medium().bytes.len(),
    ;
}

/// A storage that can be read and written.
pub trait Storage: ReadStorage {
    /// Writes `bytes` from `offset` on.
    fn try_write(&mut self, offset: u32, bytes: &[u8]) -> (r: Result<(), Self::Error>)
        requires
            offset + bytes@.len() <= old(self).medium().bytes.len(),
        ensures
            r is Ok ==> old(self).medium().wrote(final(self).medium(), offset as int, bytes@),
            final(self).medium().bytes.len() == old(self).medium().bytes.len(),
            final(self).medium().reliable == old(self).medium().reliable,
            old(self).medium().reliable ==> (r is Ok <==> old(self).medium().writable(
                offset as int,
                bytes@.len() as int,
            )),
            r is Err ==> final(self).medium().faults == old(self).medium().faults.push(
                Fault::Write,
            ),
            old(self).medium().reliable && r is Err ==> final(self).medium().bytes
                == old(self).medium().bytes,
    ;
}

/// A storage whose pages can be erased.
pub trait ErasableStorage: Storage {
    /// Number of bytes in a page, the smallest range that can be erased.
    const ERASE_SIZE: u32;

    /// Number of bytes in a page.
    spec fn page_size() -> u32;

    /// `ERASE_SIZE` is the number of bytes in a page.
    proof fn erase_size()
        ensures
            Self::ERASE_SIZE == Self::page_size(),
    ;

    /// Erases the pages that hold the bytes `from..=to`.
    fn try_erase(&mut self, from: u32, to: u32) -> (r: Result<(), Self::Error>)
        requires
            Self::page_size() > 0,
            old(self).medium().erasable(from as int, to as int, Self::page_size() as int)
                ==> erase_end(from as int, to as int, Self::page_size() as int)
                <= old(self).medium().bytes.len(),
        ensures
            r is Ok ==> old(self).medium().erased(
                final(self).medium(),
                from as int,
                erase_end(from as int, to as int, Self::page_size() as int),
            ),
            final(self).medium().bytes.len() == old(self).medium().bytes.len(),
            final(self).medium().reliable == old(self).medium().reliable,
            old(self).medium().reliable ==> (r is Ok <==> old(self).medium().erasable(
                from as int,
                to as int,
                Self::page_size() as int,
            )),
            r is Err ==> final(self).medium().faults == old(self).medium().faults.push(
                Fault::Erase,
            ),
            old(self).medium().reliable && r is Err ==> final(self).medium() == old(
                self,
            ).medium().failed(Fault::Erase),
    ;
}

} // verus!
