//! The log in a storage.
use vstd::prelude::*;

use crate::error;
use crate::error::{erase_outcome, read_outcome, write_outcome, Error};
use crate::frames;
use crate::layout;
use crate::storage;
use crate::storage::{ErasableStorage, Fault, Medium, Storage, COBS_SENTINEL_BYTE, WORD_SIZE_BYTES};

verus! {

/// A place from which the log can be read.
pub enum ReadMarker {
    /// The start of the log.
    Start,
    /// The end of the log.
    Tail,
}

/// A BIP style buffer on top of a physical non-volatile storage, to be used as
/// persistent log storage.
pub struct StorageHelper<S> {
    read_head: u32,
    write_head: u32,
    _storage: core::marker::PhantomData<S>,
}

impl<S> StorageHelper<S> where S: Storage + ErasableStorage {
    /// The address at which the log is read on.
    pub closed spec fn read_addr(self) -> u32 {
        self.read_head
    }

    /// The address at which the log is continued.
    pub closed spec fn write_addr(self) -> u32 {
        self.write_head
    }

    /// Whether the log is continued at a word behind the magic word of a
    /// storage that holds `bytes`, or at its end.
    pub open spec fn valid(self, bytes: Seq<u8>) -> bool {
        8 <= self.write_addr() <= bytes.len() && self.write_addr() % 8 == 0
    }

    /// The address at which the log is read on.
    pub fn read_head(&self) -> (r: u32)
        ensures
            r == self.read_addr(),
    {
        self.read_head
    }

    /// The address at which the log is continued.
    pub fn write_head(&self) -> (r: u32)
        ensures
            r == self.write_addr(),
    {
        self.write_head
    }

    /// Whether opening the log in a storage can have the result `r` and turn
    /// `first` into `next`.
    pub open spec fn opening(first: Medium, next: Medium, r: Result<Self, Error>) -> bool {
        &&& r matches Ok(helper) ==> {
            &&& helper.read_addr() == 8
            &&& helper.write_addr() == layout::write_head_of(next.bytes)
            &&& helper.valid(next.bytes)
            &&& if layout::has_magic(first.bytes) {
                next == first
            } else {
                first.wrote(next, 0, layout::magic())
            }
        }
        &&& r matches Err(e) ==> {
            &&& e == Error::StorageRead || e == Error::StorageWrite
            &&& e == Error::StorageRead ==> {
                ||| next == first.failed(Fault::Read)
                ||| !layout::has_magic(first.bytes) && first.wrote(
                    (Medium { faults: first.faults, ..next }),
                    0,
                    layout::magic(),
                )
            }
            &&& e == Error::StorageWrite ==> !layout::has_magic(first.bytes)
        }
        &&& next.bytes.len() == first.bytes.len()
        &&& next.reliable == first.reliable
        &&& next.faults == error::faulted(first.faults, r)
        &&& first.reliable ==> (r is Ok <==> layout::has_magic(first.bytes) || first.writable(0, 8))
        &&& first.reliable && r is Err ==> r == Err::<Self, Error>(Error::StorageWrite)
            && next.bytes == first.bytes
    }

    /// Opens the log in `storage`, and sets the storage up if it holds none.
    ///
    /// The log is read from its start, and continued at the start of the
    /// biggest erased area.
    pub fn try_new(storage: &mut S) -> (r: Result<Self, Error>)
        requires
            8 <= old(storage).medium().bytes.len() <= u32::MAX,
            old(storage).medium().bytes.len() % 8 == 0,
        ensures
            Self::opening(old(storage).medium(), final(storage).medium(), r),
    {
        // Check & write magic first
        match Self::check_magic(storage) {
            Ok(true) => {},
            Ok(false) => match Self::write_magic(storage) {
                Ok(_) => {},
                Err(e) => {
                    return Err(e);
                },
            },
            Err(e) => {
                return Err(e);
            },
        }
        match Self::seek_write_head(storage) {
            Ok(write_head) => {
                proof {
                    layout::lemma_write_head(storage.medium().bytes);
                }
                Ok(
                    Self {
                        read_head: 8,  // Skip magic
                        write_head,
                        _storage: core::marker::PhantomData,
                    },
                )
            },
            Err(e) => Err(e),
        }
    }

    /// Writes the data slice into the storage in circular buffer manner.
    ///
    /// Please note the following properties of this write:
    /// - All the data slices are aligned at the word (`WORD_SIZE_BYTES`) boundary.
    /// - The data slice size can't exceed the minimum erase size (page), otherwise it can't be
    ///   guaranteed that data slice can fit wholly into a single page. Data slices have to fit
    ///   in the pages wholly to guarantee that no data slices shall be cut or truncated when
    ///   any of the pages are erased.
    /// - If the data slice at the current write position shall span across the page boundary,
    ///   then it shall be placed at the beginning of the next page.
    /// - If data slice can't fit into the free storage area, the next page shall be erased
    ///   and the slice shall be put at the beginning of the erased page.
    /// - If the current page is the last one, then the very first page shall be erased.
    ///   This provides the ability to wrap the storage around while keeping the most recent data
    ///   slices.
    #[verifier::spinoff_prover]
    #[verifier::rlimit(40)]
    pub fn write_slice(&mut self, storage: &mut S, data: &[u8]) -> (r: Result<(), Error>)
        requires
            layout::paged(old(storage).medium().bytes, S::page_size() as int),
            old(self).valid(old(storage).medium().bytes),
            layout::accepts(
                old(storage).medium().bytes.len() as int,
                S::page_size() as int,
                data@.len() as int,
            ),
        ensures
            ({
                let first = old(storage).medium();
                let next = final(storage).medium();
                let page = S::page_size() as int;
                let len = layout::padded_len(data@.len() as int);
                let plan = layout::plan(first.bytes, page, old(self).write_addr() as int, len);
                &&& r is Ok ==> {
                    &&& layout::stored(first, next, page, plan, data@)
                    &&& final(self).write_addr() == plan.pos + len
                    &&& final(self).read_addr() == old(self).read_addr()
                    &&& final(self).valid(next.bytes)
                }
                &&& r matches Err(e) ==> {
                    &&& e == Error::StorageRead || e == Error::StorageWrite || e
                        == Error::StorageErase
                    &&& e == Error::StorageErase ==> plan.wraps || plan.clears
                    &&& e == Error::StorageRead && !plan.wraps ==> next == first.failed(Fault::Read)
                    &&& e == Error::StorageRead ==> next.bytes == first.bytes || next.bytes
                        == layout::restarted(first.bytes, page)
                    &&& *final(self) == *old(self)
                }
                &&& next.bytes.len() == first.bytes.len()
                &&& next.reliable == first.reliable
                &&& next.faults == error::faulted(first.faults, r)
                &&& first.reliable ==> (r is Ok <==> layout::place_writable(
                    first,
                    page,
                    plan,
                    len,
                ))
                &&& first.reliable && r is Err ==> {
                    &&& r == Err::<(), Error>(Error::StorageWrite)
                    &&& next.bytes == storage::patched(
                        layout::prepared(first.bytes, page, plan),
                        plan.pos,
                        layout::taken(
                            data@,
                            layout::place_writable(
                                first,
                                page,
                                plan,
                                data@.len() as int / 8 * 8,
                            ),
                        ),
                    )
                }
            }),
    {
        let ghost first = storage.medium();
        let ghost page = S::page_size() as int;
        let ghost len = layout::padded_len(data@.len() as int);
        let ghost plan = layout::plan(first.bytes, page, self.write_head as int, len);
        proof {
            layout::lemma_plan(first.bytes, page, self.write_head as int, len);
            layout::lemma_whole_words(first.bytes, page);
        }
        let len_estimate: usize = Self::estimate_frame_size_aligned(data);
        let pos: u32 = match Self::make_room(storage, self.write_head, len_estimate as u32) {
            Ok(pos) => pos,
            Err(e) => {
                return Err(e);
            },
        };
        let ghost second = storage.medium();
        proof {
            layout::lemma_place_writable(first, second, page, plan, len);
            layout::lemma_place_writable(
                first,
                second,
                page,
                plan,
                data@.len() as int / 8 * 8,
            );
            assert(second.bytes == layout::prepared(first.bytes, page, plan)) by {
                reveal(layout::made_room);
            }
        }
        match Self::write_aligned(storage, pos, data) {
            Ok(write_pos) => {
                self.write_head = write_pos;
                proof {
                    layout::lemma_stored(first, second, storage.medium(), page, plan, data@);
                }
                Ok(())
            },
            Err(e) => Err(e),
        }
    }

    /// Reads from the read marker on, without moving it.
    pub fn read_slice(&self, storage: &mut S, buf: &mut [u8]) -> (r: Result<(), Error>)
        requires
            self.read_addr() + old(buf)@.len() <= old(storage).medium().bytes.len(),
        ensures
            final(storage).medium() == old(storage).medium().read(r is Ok),
            final(buf)@.len() == old(buf)@.len(),
            r is Ok ==> final(buf)@ == old(storage).medium().bytes.subrange(
                self.read_addr() as int,
                self.read_addr() + old(buf)@.len(),
            ),
            r matches Err(e) ==> e == Error::StorageRead,
            old(storage).medium().reliable ==> r is Ok,
    {
        read_outcome(storage.try_read(self.read_head, buf))
    }

    /// Moves the read marker forward by `inc`, counted from the end of the
    /// storage where it would reach or pass that end.
    pub fn incr_read_marker(&mut self, storage: &mut S, inc: u32)
        requires
            old(storage).medium().bytes.len() <= u32::MAX,
            old(self).read_addr() + inc <= u32::MAX,
            old(self).read_addr() + inc >= old(storage).medium().bytes.len() ==> old(
                storage,
            ).medium().bytes.len() + inc <= u32::MAX,
        ensures
            final(storage).medium() == old(storage).medium(),
            final(self).write_addr() == old(self).write_addr(),
            final(self).read_addr() == layout::advanced(
                old(self).read_addr() as int,
                inc as int,
                old(storage).medium().bytes.len() as int,
            ),
            old(self).read_addr() + inc < old(storage).medium().bytes.len() ==> final(self).read_addr()
                == old(self).read_addr() + inc,
            old(self).read_addr() + inc >= old(storage).medium().bytes.len() ==> final(self).read_addr()
                == old(storage).medium().bytes.len() + inc,
    {
        let capacity: u32 = storage.capacity() as u32;
        if self.read_head + inc >= capacity {
            self.read_head = capacity;
        }
        self.read_head += inc;
    }

    /// Moves the read marker back by `dec`, but not before the start of the storage.
    pub fn decr_read_marker(&mut self, dec: u32)
        ensures
            final(self).write_addr() == old(self).write_addr(),
            final(self).read_addr() == layout::moved_back(old(self).read_addr() as int, dec as int),
            dec <= old(self).read_addr() ==> final(self).read_addr() + dec == old(self).read_addr(),
            dec > old(self).read_addr() ==> final(self).read_addr() == 0,
    {
        self.read_head = self.read_head.saturating_sub(dec);
    }

    /// Whether the word at `addr` reads as erased.
    pub fn is_word_empty(storage: &mut S, addr: u32) -> (r: Result<bool, Error>)
        requires
            addr + 8 <= old(storage).medium().bytes.len(),
        ensures
            final(storage).medium() == old(storage).medium().read(r is Ok),
            r matches Ok(empty) ==> empty == layout::blank(
                old(storage).medium().bytes,
                addr as int,
                addr + 8,
            ),
            r matches Ok(empty) ==> (empty <==> forall|i: int|
                addr <= i < addr + 8 ==> #[trigger] old(storage).medium().bytes[i] == 0xFFu8),
            r matches Err(e) ==> e == Error::StorageRead,
            old(storage).medium().reliable ==> r is Ok,
    {
        let mut word_buf: [u8; 8] = [0u8; 8];
        match read_outcome(storage.try_read(addr, &mut word_buf)) {
            Ok(_) => {
                let ghost bytes = storage.medium().bytes;
                let mut i: usize = 0;
                while i < WORD_SIZE_BYTES
                    invariant
                        i <= 8,
                        word_buf@ == bytes.subrange(addr as int, addr + 8),
                        addr + 8 <= bytes.len(),
                        layout::blank(bytes, addr as int, addr + i),
                        storage.medium() == old(storage).medium(),
                        bytes == storage.medium().bytes,
                    decreases 8 - i,
                {
                    if word_buf[i] != COBS_SENTINEL_BYTE {
                        assert(bytes[addr + i] != COBS_SENTINEL_BYTE);
                        return Ok(false);
                    }
                    i += 1;
                }
                Ok(true)
            },
            Err(e) => Err(e),
        }
    }

    /// Whether the storage has been set up for a log.
    pub fn check_magic(storage: &mut S) -> (r: Result<bool, Error>)
        requires
            8 <= old(storage).medium().bytes.len(),
        ensures
            final(storage).medium() == old(storage).medium().read(r is Ok),
            r matches Ok(found) ==> found == layout::has_magic(old(storage).medium().bytes),
            r matches Ok(found) ==> (found <==> old(storage).medium().bytes.subrange(0, 8) == seq![
                0xFEu8,
                0xED,
                0xBE,
                0xEF,
                0xCA,
                0xFE,
                0xBA,
                0xBE,
            ]),
            r matches Err(e) ==> e == Error::StorageRead,
            old(storage).medium().reliable ==> r is Ok,
    {
        let mut buf: [u8; 8] = [0u8; 8];
        match read_outcome(storage.try_read(0, &mut buf)) {
            Ok(_) => {
                let found = buf[0] == 0xFE && buf[1] == 0xED && buf[2] == 0xBE && buf[3] == 0xEF
                    && buf[4] == 0xCA && buf[5] == 0xFE && buf[6] == 0xBA && buf[7] == 0xBE;
                proof {
                    let bytes = storage.medium().bytes;
                    if found {
                        assert(buf@ =~= layout::magic());
                    } else if layout::has_magic(bytes) {
                        assert(buf@[0] == layout::magic()[0]);
                        assert(buf@[1] == layout::magic()[1]);
                        assert(buf@[2] == layout::magic()[2]);
                        assert(buf@[3] == layout::magic()[3]);
                        assert(buf@[4] == layout::magic()[4]);
                        assert(buf@[5] == layout::magic()[5]);
                        assert(buf@[6] == layout::magic()[6]);
                        assert(buf@[7] == layout::magic()[7]);
                    }
                }
                Ok(found)
            },
            Err(e) => Err(e),
        }
    }

    /// Marks the storage as set up for a log.
    pub fn write_magic(storage: &mut S) -> (r: Result<(), Error>)
        requires
            8 <= old(storage).medium().bytes.len(),
        ensures
            r is Ok ==> old(storage).medium().wrote(
                final(storage).medium(),
                0,
                layout::magic(),
            ) && layout::has_magic(final(storage).medium().bytes),
            r is Ok ==> final(storage).medium().bytes.subrange(0, 8) == seq![
                0xFEu8,
                0xED,
                0xBE,
                0xEF,
                0xCA,
                0xFE,
                0xBA,
                0xBE,
            ],
            r is Ok ==> forall|i: int|
                8 <= i < old(storage).medium().bytes.len() ==> #[trigger] final(storage).medium().bytes[i]
                    == old(storage).medium().bytes[i],
            r matches Err(e) ==> e == Error::StorageWrite,
            final(storage).medium().bytes.len() == old(storage).medium().bytes.len(),
            final(storage).medium().reliable == old(storage).medium().reliable,
            final(storage).medium().faults == error::faulted(old(storage).medium().faults, r),
            old(storage).medium().reliable ==> (r is Ok <==> old(storage).medium().writable(0, 8)),
            old(storage).medium().reliable && r is Err ==> final(storage).medium().bytes == old(
                storage,
            ).medium().bytes,
    {
        let word: [u8; 8] = [0xFE, 0xED, 0xBE, 0xEF, 0xCA, 0xFE, 0xBA, 0xBE];
        assert(word@ =~= layout::magic());
        let r = write_outcome(storage.try_write(0, &word));
        assert(r is Ok ==> storage.medium().bytes.subrange(0, 8) =~= layout::magic());
        r
    }

    /// Finds the start of the biggest erased area.
    pub fn seek_write_head(storage: &mut S) -> (r: Result<u32, Error>)
        requires
            8 <= old(storage).medium().bytes.len() <= u32::MAX,
            old(storage).medium().bytes.len() % 8 == 0,
        ensures
            final(storage).medium() == old(storage).medium().read(r is Ok),
            r matches Ok(addr) ==> addr == layout::write_head_of(old(storage).medium().bytes),
            r matches Err(e) ==> e == Error::StorageRead,
            old(storage).medium().reliable ==> r is Ok,
    {
        match Self::check_magic(storage) {
            Ok(true) => {},
            Ok(false) => {
                return Ok(0);
            },
            Err(e) => {
                return Err(e);
            },
        }
        let ghost bytes = storage.medium().bytes;
        let capacity: usize = storage.capacity();
        let mut max_empty_area_size: usize = 0;
        let mut max_empty_area_start_addr: Option<u32> = None;
        let mut current_empty_area_size: usize = 0;
        let mut current_empty_area_addr: u32 = 0;
        let mut addr: usize = WORD_SIZE_BYTES;
        while addr < capacity
            invariant
                storage.medium() == old(storage).medium(),
                bytes == storage.medium().bytes,
                capacity == bytes.len(),
                8 <= capacity <= u32::MAX,
                capacity % 8 == 0,
                8 <= addr <= capacity,
                addr % 8 == 0,
                8 * current_empty_area_size + 8 <= addr,
                current_empty_area_size > 0 ==> current_empty_area_addr == addr - 8
                    * current_empty_area_size,
                layout::run(
                    bytes,
                    addr / 8 - current_empty_area_size,
                    current_empty_area_size as int,
                ),
                addr / 8 - current_empty_area_size > 1 ==> !layout::blank_word(
                    bytes,
                    addr / 8 - current_empty_area_size - 1,
                ),
                match max_empty_area_start_addr {
                    None => max_empty_area_size == 0 && forall|word: int|
                        1 <= word < addr / 8 ==> !layout::blank_word(bytes, word),
                    Some(start) => start % 8 == 0 && layout::longest_run(
                        bytes,
                        addr as int / 8,
                        start as int / 8,
                        max_empty_area_size as int,
                    ),
                },
                current_empty_area_size <= max_empty_area_size,
            decreases capacity - addr,
        {
            let ghost k = addr as int / 8;
            let ghost cur = current_empty_area_size as int;
            let ghost best_start = max_empty_area_start_addr;
            match Self::is_word_empty(storage, addr as u32) {
                Ok(true) => {
                    if current_empty_area_size == 0 {
                        current_empty_area_addr = addr as u32;
                    }
                    current_empty_area_size += 1;
                    assert(layout::blank_word(bytes, k));
                },
                Ok(false) => {
                    current_empty_area_size = 0;
                    assert(!layout::blank_word(bytes, k));
                },
                Err(e) => {
                    return Err(e);
                },
            }
            proof {
                assert forall|f: int, c: int|
                    1 <= f && 1 <= c && f + c == k + 1 && #[trigger] layout::run(bytes, f, c) implies
                    layout::blank_word(bytes, k) && c <= cur + 1 by {
                    assert(layout::blank_word(bytes, k));
                    if c > cur + 1 {
                        assert(layout::blank_word(bytes, k - cur - 1));
                    }
                }
            }
            if current_empty_area_size > max_empty_area_size {
                max_empty_area_start_addr = Some(current_empty_area_addr);
                max_empty_area_size = current_empty_area_size;
            }
            proof {
                match max_empty_area_start_addr {
                    Some(start) => {
                        let first = start as int / 8;
                        let count = max_empty_area_size as int;
                        assert(layout::run(bytes, first, count)) by {
                            assert forall|word: int|
                                first <= word < first + count implies layout::blank_word(
                                bytes,
                                word,
                            ) by {}
                        }
                        assert forall|f: int, c: int|
                            1 <= f && 1 <= c && f + c <= k + 1 && #[trigger] layout::run(
                                bytes,
                                f,
                                c,
                            ) implies c < count || (c == count && first <= f) by {
                            if f + c <= k && best_start is None {
                                assert(layout::blank_word(bytes, f));
                            }
                        }
                        assert(layout::longest_run(
                            bytes,
                            k + 1,
                            start as int / 8,
                            max_empty_area_size as int,
                        ));
                    },
                    None => {
                        assert forall|word: int| 1 <= word < k + 1 implies !layout::blank_word(
                            bytes,
                            word,
                        ) by {}
                    },
                }
            }
            addr += WORD_SIZE_BYTES;
        }
        match max_empty_area_start_addr {
            Some(area_addr) => {
                proof {
                    let words = capacity as int / 8;
                    assert(layout::longest_run(
                        bytes,
                        words,
                        area_addr as int / 8,
                        max_empty_area_size as int,
                    ));
                    let (first, count) = choose|first: int, count: int|
                        layout::longest_run(bytes, words, first, count);
                    layout::lemma_longest_run_unique(
                        bytes,
                        words,
                        first,
                        count,
                        area_addr as int / 8,
                        max_empty_area_size as int,
                    );
                }
                Ok(area_addr)
            },
            None => {
                proof {
                    let words = capacity as int / 8;
                    assert forall|first: int, count: int|
                        !layout::longest_run(bytes, words, first, count) by {
                        if layout::longest_run(bytes, words, first, count) {
                            assert(layout::blank_word(bytes, first));
                        }
                    }
                }
                Ok(8)
            },
        }
    }

    /// Number of bytes to reckon with for `data`: whole words, except that a
    /// single separator in the last word stands for itself.
    pub fn estimate_frame_size_aligned(data: &[u8]) -> (r: usize)
        requires
            layout::padded_len(data@.len() as int) <= usize::MAX,
        ensures
            r == if data@.len() % 8 == 1 && data@.last() == COBS_SENTINEL_BYTE {
                data@.len() as int
            } else {
                layout::padded_len(data@.len() as int)
            },
    {
        let len: usize = data.len();
        let mut result: usize = 0;
        if len % WORD_SIZE_BYTES == 0 {
            result = len;
        } else {
            let bytes_within_word: usize = len % WORD_SIZE_BYTES;
            let last_word_index: usize = len - bytes_within_word;
            if len - bytes_within_word > 0 {
                result += last_word_index;
            }
            if bytes_within_word == 1 && data[last_word_index] == COBS_SENTINEL_BYTE {
                result += 1;
            } else {
                result += WORD_SIZE_BYTES;
            }
        }
        result
    }

    /// Whether the words from `start` on that begin before `end` all read as erased.
    pub fn is_area_empty(storage: &mut S, start: u32, end: u32) -> (r: Result<bool, Error>)
        requires
            start < end ==> start + layout::padded_len(end - start) <= old(
                storage,
            ).medium().bytes.len(),
            old(storage).medium().bytes.len() <= u32::MAX,
        ensures
            final(storage).medium() == old(storage).medium().read(r is Ok),
            r matches Ok(empty) ==> empty == layout::blank(
                old(storage).medium().bytes,
                start as int,
                start + layout::padded_len(end - start),
            ),
            r matches Err(e) ==> e == Error::StorageRead,
            old(storage).medium().reliable ==> r is Ok,
    {
        if start >= end {
            return Ok(true);
        }
        let mut addr: u32 = start;
        while addr < end
            invariant
                start <= addr <= start + layout::padded_len(end - start),
                (addr - start) % 8 == 0,
                start < end,
                start + layout::padded_len(end - start) <= storage.medium().bytes.len()
                    <= u32::MAX,
                storage.medium() == old(storage).medium(),
                layout::blank(storage.medium().bytes, start as int, addr as int),
            decreases start + layout::padded_len(end - start) - addr,
        {
            match Self::is_word_empty(storage, addr) {
                Ok(true) => {},
                Ok(false) => {
                    return Ok(false);
                },
                Err(e) => {
                    return Err(e);
                },
            }
            addr += 8;
        }
        Ok(true)
    }

    /// Moves `pos` to the start of the next page where `len` bytes from there
    /// on would span two pages.
    fn fit_in_page(pos: u32, len: u32) -> (r: u32)
        requires
            0 < S::page_size(),
            S::page_size() % 8 == 0,
            8 <= pos,
            pos % 8 == 0,
            layout::padded_len(len as int) <= S::page_size(),
            pos + S::page_size() <= u32::MAX,
        ensures
            r == layout::fit(pos as int, layout::padded_len(len as int), S::page_size() as int),
    {
        proof {
            S::erase_size();
            if len > 0 {
                layout::lemma_same_page(pos as int, len as int, S::page_size() as int);
            }
            layout::lemma_page_offset(pos as int, S::page_size() as int);
            layout::lemma_page_start(pos as int, S::page_size() as int);
        }
        let start_page_nr: u32 = pos / S::ERASE_SIZE;
        if len > 0 && start_page_nr != (pos + len - 1) / S::ERASE_SIZE {
            // Place the write position at the beginning of the next page
            (start_page_nr + 1) * S::ERASE_SIZE
        } else {
            pos
        }
    }

    /// Erases the first page and sets it up anew.
    fn restart(storage: &mut S) -> (r: Result<(), Error>)
        requires
            layout::paged(old(storage).medium().bytes, S::page_size() as int),
        ensures
            r is Ok ==> layout::made_room(
                old(storage).medium(),
                final(storage).medium(),
                S::page_size() as int,
                layout::Plan { wraps: true, clears: false, pos: 8 },
            ),
            r matches Err(e) ==> e == Error::StorageErase || e == Error::StorageWrite,
            final(storage).medium().bytes.len() == old(storage).medium().bytes.len(),
            final(storage).medium().reliable == old(storage).medium().reliable,
            final(storage).medium().faults == error::faulted(old(storage).medium().faults, r),
            old(storage).medium().reliable ==> r is Ok,
    {
        reveal(layout::made_room);
        let ghost page = S::page_size() as int;
        proof {
            S::erase_size();
            vstd::arithmetic::div_mod::lemma_small_mod(0, page as nat);
            layout::lemma_erase_page(0, page, page);
        }
        match erase_outcome(storage.try_erase(0, S::ERASE_SIZE - 1)) {
            Ok(_) => {},
            Err(e) => {
                return Err(e);
            },
        }
        let ghost between = storage.medium();
        assert(!between.locked.contains(0));
        let r = Self::write_magic(storage);
        proof {
            if r is Ok {
                let next = storage.medium();
                assert(next.bytes =~= layout::restarted(old(storage).medium().bytes, page));
                assert forall|word: int| 8 <= 8 * word < page implies !#[trigger] next.locked.contains(
                    word,
                ) by {
                    assert(!between.locked.contains(word));
                }
            }
        }
        r
    }

    /// Finds the address at which `len` bytes would go while the log is
    /// continued at `head`, with a restart where the storage ends before that.
    #[verifier::spinoff_prover]
    #[verifier::rlimit(60)]
    fn choose_place(storage: &mut S, head: u32, len: u32) -> (r: Result<u32, Error>)
        requires
            layout::paged(old(storage).medium().bytes, S::page_size() as int),
            8 <= head <= old(storage).medium().bytes.len(),
            head % 8 == 0,
            layout::accepts(
                old(storage).medium().bytes.len() as int,
                S::page_size() as int,
                len as int,
            ),
        ensures
            ({
                let first = old(storage).medium();
                let next = final(storage).medium();
                let page = S::page_size() as int;
                let room = layout::padded_len(len as int);
                let wraps = head + room > first.bytes.len();
                r matches Ok(pos) ==> {
                    &&& pos == layout::fit(
                        if wraps {
                            layout::write_head_of(next.bytes)
                        } else {
                            head as int
                        },
                        room,
                        page,
                    )
                    &&& pos % 8 == 0
                    &&& 8 <= pos
                    &&& pos + room <= first.bytes.len()
                    &&& layout::made_room(
                        first,
                        next,
                        page,
                        layout::Plan { wraps, clears: false, pos: 8 },
                    )
                }
            }),
            r matches Err(e) ==> e == Error::StorageRead || e == Error::StorageWrite || e
                == Error::StorageErase,
            r == Err::<u32, Error>(Error::StorageRead) ==> final(storage).medium().bytes
                == layout::restarted(old(storage).medium().bytes, S::page_size() as int),
            head + layout::padded_len(len as int) <= old(storage).medium().bytes.len() ==> r is Ok
                && final(storage).medium() == old(storage).medium(),
            final(storage).medium().bytes.len() == old(storage).medium().bytes.len(),
            final(storage).medium().reliable == old(storage).medium().reliable,
            final(storage).medium().faults == error::faulted(old(storage).medium().faults, r),
            old(storage).medium().reliable ==> r is Ok,
    {
        let ghost page = S::page_size() as int;
        let ghost first = storage.medium();
        let ghost room = layout::padded_len(len as int);
        proof {
            reveal(layout::made_room);
            layout::lemma_restart_head(first.bytes, page);
            layout::lemma_whole_words(first.bytes, page);
        }
        let capacity: u32 = storage.capacity() as u32;
        let mut pos: u32 = head;
        if head + len > capacity {
            // This write won't fit at the end of the storage,
            // erase the first page and start from there
            match Self::restart(storage) {
                Ok(_) => {},
                Err(e) => {
                    return Err(e);
                },
            }
            match Self::seek_write_head(storage) {
                Ok(addr) => {
                    pos = addr;
                },
                Err(e) => {
                    return Err(e);
                },
            }
        }
        proof {
            layout::lemma_fit(pos as int, room, page, capacity as int);
        }
        // If this write spans across the page boundary, shift to the next page
        Ok(Self::fit_in_page(pos, len))
    }

    /// Erases the page at `pos` if there is some data that `len` bytes would bump into.
    #[verifier::spinoff_prover]
    #[verifier::rlimit(60)]
    fn clear_page(storage: &mut S, pos: u32, len: u32) -> (r: Result<(), Error>)
        requires
            layout::paged(old(storage).medium().bytes, S::page_size() as int),
            8 <= pos,
            pos % 8 == 0,
            pos % S::page_size() == 0 || layout::blank(
                old(storage).medium().bytes,
                pos as int,
                pos + layout::padded_len(len as int),
            ),
            pos + layout::padded_len(len as int) <= old(storage).medium().bytes.len(),
            layout::padded_len(len as int) <= S::page_size(),
        ensures
            r is Ok ==> layout::made_room(
                old(storage).medium(),
                final(storage).medium(),
                S::page_size() as int,
                layout::Plan {
                    wraps: false,
                    clears: !layout::blank(
                        old(storage).medium().bytes,
                        pos as int,
                        pos + layout::padded_len(len as int),
                    ),
                    pos: pos as int,
                },
            ),
            r matches Err(e) ==> e == Error::StorageRead || e == Error::StorageErase,
            r == Err::<(), Error>(Error::StorageRead) ==> final(storage).medium() == old(
                storage,
            ).medium().failed(Fault::Read),
            r == Err::<(), Error>(Error::StorageErase) ==> !layout::blank(
                old(storage).medium().bytes,
                pos as int,
                pos + layout::padded_len(len as int),
            ),
            final(storage).medium().bytes.len() == old(storage).medium().bytes.len(),
            final(storage).medium().reliable == old(storage).medium().reliable,
            final(storage).medium().faults == error::faulted(old(storage).medium().faults, r),
            old(storage).medium().reliable ==> r is Ok,
    {
        reveal(layout::made_room);
        match Self::is_area_empty(storage, pos, pos + len) {
            Ok(true) => {
                return Ok(());
            },
            Ok(false) => {},
            Err(e) => {
                return Err(e);
            },
        }
        proof {
            let page = S::page_size() as int;
            layout::lemma_erase_page(pos as int, len as int, page);
            layout::lemma_whole_page(pos as int, page, storage.medium().bytes.len() as int);
            layout::lemma_whole_words(storage.medium().bytes, page);
        }
        erase_outcome(storage.try_erase(pos, pos + len - 1))
    }

    /// Makes a place for `len` bytes while the log is continued at `head`, and
    /// returns its address.
    #[verifier::spinoff_prover]
    #[verifier::rlimit(40)]
    fn make_room(storage: &mut S, head: u32, len: u32) -> (r: Result<u32, Error>)
        requires
            layout::paged(old(storage).medium().bytes, S::page_size() as int),
            8 <= head <= old(storage).medium().bytes.len(),
            head % 8 == 0,
            layout::accepts(
                old(storage).medium().bytes.len() as int,
                S::page_size() as int,
                len as int,
            ),
        ensures
            ({
                let plan = layout::plan(
                    old(storage).medium().bytes,
                    S::page_size() as int,
                    head as int,
                    layout::padded_len(len as int),
                );
                &&& r matches Ok(pos) ==> pos == plan.pos && layout::made_room(
                    old(storage).medium(),
                    final(storage).medium(),
                    S::page_size() as int,
                    plan,
                )
                &&& r == Err::<u32, Error>(Error::StorageErase) ==> plan.wraps || plan.clears
                &&& r == Err::<u32, Error>(Error::StorageRead) && !plan.wraps
                    ==> final(storage).medium() == old(storage).medium().failed(Fault::Read)
                &&& r == Err::<u32, Error>(Error::StorageRead) ==> {
                    ||| final(storage).medium().bytes == old(storage).medium().bytes
                    ||| final(storage).medium().bytes == layout::restarted(
                        old(storage).medium().bytes,
                        S::page_size() as int,
                    )
                }
            }),
            r matches Err(e) ==> e == Error::StorageRead || e == Error::StorageWrite || e
                == Error::StorageErase,
            final(storage).medium().bytes.len() == old(storage).medium().bytes.len(),
            final(storage).medium().reliable == old(storage).medium().reliable,
            final(storage).medium().faults == error::faulted(old(storage).medium().faults, r),
            old(storage).medium().reliable ==> r is Ok,
    {
        let ghost page = S::page_size() as int;
        let ghost first = storage.medium();
        let ghost room = layout::padded_len(len as int);
        let ghost plan = layout::plan(first.bytes, page, head as int, room);
        proof {
            S::erase_size();
            layout::lemma_plan(first.bytes, page, head as int, room);
            assert(head + room > first.bytes.len() ==> plan.wraps) by {
                reveal(layout::plan);
            }
        }
        let capacity: u32 = storage.capacity() as u32;
        let mut pos: u32 = match Self::choose_place(storage, head, len) {
            Ok(pos) => pos,
            Err(e) => {
                return Err(e);
            },
        };
        let ghost second = storage.medium();
        let ghost wraps = head + room > first.bytes.len();
        let ghost mut again = wraps;
        proof {
            layout::lemma_room_bytes(first, second, page, wraps);
            layout::lemma_whole_words(first.bytes, page);
        }
        if pos % S::ERASE_SIZE != 0 {
            match Self::is_area_empty(storage, pos, pos + len) {
                Ok(true) => {
                    assert(plan == layout::Plan { wraps, clears: false, pos: pos as int }) by {
                        reveal(layout::plan);
                    }
                    assert(layout::made_room(first, second, page, plan)) by {
                        reveal(layout::made_room);
                    }
                    return Ok(pos);
                },
                Ok(false) => {},
                Err(e) => {
                    return Err(e);
                },
            }
            // There is data in the rest of this page, go on in the next one
            proof {
                layout::lemma_page_start(pos as int, page);
                layout::lemma_next_page(pos as int, page, capacity as int);
            }
            pos = pos - pos % S::ERASE_SIZE + S::ERASE_SIZE;
            if pos >= capacity {
                assert(plan.wraps) by {
                    reveal(layout::plan);
                }
                match Self::restart(storage) {
                    Ok(_) => {},
                    Err(e) => {
                        return Err(e);
                    },
                }
                pos = Self::fit_in_page(8, len);
                proof {
                    again = true;
                    layout::lemma_room_restarted(first, second, storage.medium(), page, wraps);
                    layout::lemma_room_bytes(second, storage.medium(), page, true);
                }
            }
        }
        let ghost third = storage.medium();
        proof {
            assert(plan == layout::Plan {
                wraps: again,
                clears: !layout::blank(third.bytes, pos as int, pos + room),
                pos: pos as int,
            }) by {
                reveal(layout::plan);
            }
        }
        match Self::clear_page(storage, pos, len) {
            Ok(_) => {
                proof {
                    layout::lemma_room_cleared(first, third, storage.medium(), page, plan);
                }
                Ok(pos)
            },
            Err(e) => Err(e),
        }
    }

    /// Writes `data` at `pos`, filled up to whole words, and returns the
    /// address behind it.
    fn write_aligned(storage: &mut S, pos: u32, data: &[u8]) -> (r: Result<u32, Error>)
        requires
            pos % 8 == 0,
            pos + layout::padded_len(data@.len() as int) <= old(storage).medium().bytes.len()
                <= u32::MAX,
        ensures
            r matches Ok(next) ==> next == pos + layout::padded_len(data@.len() as int) && old(
                storage,
            ).medium().wrote(final(storage).medium(), pos as int, layout::padded(data@)),
            r matches Err(e) ==> e == Error::StorageWrite,
            final(storage).medium().bytes.len() == old(storage).medium().bytes.len(),
            final(storage).medium().reliable == old(storage).medium().reliable,
            final(storage).medium().faults == error::faulted(old(storage).medium().faults, r),
            old(storage).medium().reliable ==> (r is Ok <==> old(storage).medium().writable(
                pos as int,
                layout::padded_len(data@.len() as int),
            )),
            old(storage).medium().reliable && r is Err ==> final(storage).medium().bytes
                == storage::patched(
                old(storage).medium().bytes,
                pos as int,
                layout::taken(
                    data@,
                    old(storage).medium().writable(pos as int, data@.len() as int / 8 * 8),
                ),
            ),
    {
        let ghost first = storage.medium();
        let len: usize = data.len();
        if len % WORD_SIZE_BYTES == 0 {
            assert(layout::padded(data@) =~= data@);
            let r = write_outcome(storage.try_write(pos, data));
            assert(storage::patched(first.bytes, pos as int, Seq::empty()) =~= first.bytes);
            match r {
                Ok(_) => Ok(pos + len as u32),
                Err(e) => Err(e),
            }
        } else {
            let bytes_within_word: usize = len % WORD_SIZE_BYTES;
            let last_word_index: usize = len - bytes_within_word;
            let mut write_pos: u32 = pos;
            proof {
                layout::lemma_writable_rest(first, pos as int, len as int);
                assert(storage::patched(first.bytes, pos as int, Seq::empty()) =~= first.bytes);
            }
            // Write whole words
            if last_word_index > 0 {
                let words = vstd::slice::slice_subrange(data, 0, last_word_index);
                assert(words@ =~= data@.take(last_word_index as int));
                match write_outcome(storage.try_write(write_pos, words)) {
                    Ok(_) => {},
                    Err(e) => {
                        return Err(e);
                    },
                }
                write_pos += last_word_index as u32;
                proof {
                    layout::lemma_writable_behind(first, storage.medium(), pos as int, words@);
                }
            }
            // Write partial word, filled with sentinels
            let mut word_buf: [u8; 8] = [COBS_SENTINEL_BYTE; 8];
            let mut i: usize = 0;
            while i < bytes_within_word
                invariant
                    i <= bytes_within_word < 8,
                    last_word_index + bytes_within_word == len,
                    len == data@.len(),
                    word_buf@.len() == 8,
                    forall|j: int|
                        0 <= j < 8 ==> word_buf@[j] == if j < i {
                            data@[last_word_index + j]
                        } else {
                            COBS_SENTINEL_BYTE
                        },
                decreases bytes_within_word - i,
            {
                word_buf[i] = data[last_word_index + i];
                i += 1;
            }
            match write_outcome(storage.try_write(write_pos, &word_buf)) {
                Ok(_) => {},
                Err(e) => {
                    return Err(e);
                },
            }
            // Make sure that the next write will be aligned at the word boundary
            write_pos += 8;
            assert(storage.medium().bytes =~= storage::patched(
                first.bytes,
                pos as int,
                layout::padded(data@),
            ));
            Ok(write_pos)
        }
    }

    /// Finds the first byte from `from` on that is a separator, or that is none.
    fn scan(storage: &mut S, from: u32, separator: bool) -> (r: Result<u32, Error>)
        requires
            from <= old(storage).medium().bytes.len() <= u32::MAX,
        ensures
            final(storage).medium() == old(storage).medium().read(r is Ok),
            r matches Ok(addr) ==> addr == frames::seek(
                old(storage).medium().bytes,
                from as int,
                separator,
            ) && from <= addr <= old(storage).medium().bytes.len(),
            r matches Err(e) ==> e == Error::StorageRead,
            old(storage).medium().reliable ==> r is Ok,
    {
        let ghost bytes = storage.medium().bytes;
        let capacity: u32 = storage.capacity() as u32;
        let mut addr: u32 = from;
        while addr < capacity
            invariant
                from <= addr <= capacity,
                capacity == bytes.len(),
                storage.medium() == old(storage).medium(),
                bytes == storage.medium().bytes,
                frames::seek(bytes, from as int, separator) == frames::seek(
                    bytes,
                    addr as int,
                    separator,
                ),
            decreases capacity - addr,
        {
            let left: u32 = capacity - addr;
            let bytes_to_read: usize = if left < 8 {
                left as usize
            } else {
                8
            };
            let mut word_buf: [u8; 8] = [0u8; 8];
            let word: &mut [u8] = &mut word_buf;
            let (part, _) = word.split_at_mut(bytes_to_read);
            match read_outcome(storage.try_read(addr, part)) {
                Ok(_) => {},
                Err(e) => {
                    return Err(e);
                },
            }
            let ghost start = addr as int;
            let mut i: usize = 0;
            while i < bytes_to_read
                invariant
                    i <= bytes_to_read <= 8,
                    start + bytes_to_read <= capacity,
                    addr == start + i,
                    from <= start,
                    capacity == bytes.len(),
                    storage.medium() == old(storage).medium(),
                    bytes == storage.medium().bytes,
                    word_buf@.len() == 8,
                    word_buf@.take(bytes_to_read as int) == bytes.subrange(
                        start,
                        start + bytes_to_read,
                    ),
                    frames::seek(bytes, from as int, separator) == frames::seek(
                        bytes,
                        addr as int,
                        separator,
                    ),
                decreases bytes_to_read - i,
            {
                assert(word_buf@[i as int] == word_buf@.take(bytes_to_read as int)[i as int]);
                if (word_buf[i] == COBS_SENTINEL_BYTE) == separator {
                    return Ok(addr);
                }
                i += 1;
                addr += 1;
            }
        }
        Ok(addr)
    }

    /// Reads complete frames from the read marker on into `buf`, each with one
    /// separator behind it, until one no longer fits or there are no more, and
    /// moves the marker behind them. Returns the number of bytes read.
    pub fn read_frames(&mut self, storage: &mut S, buf: &mut [u8]) -> (r: Result<usize, Error>)
        requires
            old(storage).medium().bytes.len() <= u32::MAX,
        ensures
            ({
                let bytes = old(storage).medium().bytes;
                let from = old(self).read_addr() as int;
                let found = frames::frames(bytes, from);
                let count = frames::fitting(found, old(buf)@.len() as int);
                let out = frames::delimited(found.take(count as int));
                &&& r matches Ok(n) ==> {
                    &&& n == out.len()
                    &&& final(buf)@ == out + old(buf)@.skip(out.len() as int)
                    &&& final(self).read_addr() == frames::resume(bytes, from, count)
                    &&& final(self).write_addr() == old(self).write_addr()
                }
                &&& r matches Err(e) ==> e == Error::StorageRead && *final(self) == *old(self)
            }),
            final(storage).medium() == old(storage).medium().read(r is Ok),
            final(buf)@.len() == old(buf)@.len(),
            old(storage).medium().reliable ==> r is Ok,
    {
        let ghost bytes = storage.medium().bytes;
        let ghost from = self.read_head as int;
        let ghost found = frames::frames(bytes, from);
        let room: usize = buf.len();
        let ghost count = frames::fitting(found, room as int);
        let ghost out = frames::delimited(found.take(count as int));
        let capacity: u32 = storage.capacity() as u32;
        let mut addr: u32 = self.read_head;
        let mut written: usize = 0;
        if addr >= capacity {
            proof {
                frames::lemma_last_frame(bytes, from, room as int);
                assert(out + old(buf)@.skip(0) =~= old(buf)@);
            }
            return Ok(0);
        }
        proof {
            assert(buf@.take(0) + out =~= out);
            assert(buf@ =~= buf@.take(0) + old(buf)@.skip(0));
        }
        loop
            invariant
                *self == *old(self),
                storage.medium() == old(storage).medium(),
                bytes == storage.medium().bytes,
                capacity == bytes.len(),
                addr <= capacity,
                room == buf@.len(),
                room == old(buf)@.len(),
                written <= room,
                count == frames::fitting(found, room as int),
                out == frames::delimited(found.take(count as int)),
                found == frames::frames(bytes, from),
                from == old(self).read_addr(),
                buf@ == buf@.take(written as int) + old(buf)@.skip(written as int),
                ({
                    let rest = frames::frames(bytes, addr as int);
                    let left = frames::fitting(rest, room - written);
                    &&& out == buf@.take(written as int) + frames::delimited(
                        rest.take(left as int),
                    )
                    &&& frames::resume(bytes, from, count) == frames::resume(
                        bytes,
                        addr as int,
                        left,
                    )
                }),
            decreases capacity - addr,
        {
            let start: u32 = match Self::scan(storage, addr, false) {
                Ok(start) => start,
                Err(e) => {
                    return Err(e);
                },
            };
            let end: u32 = match Self::scan(storage, start, true) {
                Ok(end) => end,
                Err(e) => {
                    return Err(e);
                },
            };
            if end >= capacity || (end - start) as usize >= room - written {
                proof {
                    frames::lemma_last_frame(bytes, addr as int, room - written);
                    assert(out =~= buf@.take(written as int));
                }
                self.read_head = start;
                return Ok(written);
            }
            let len: usize = (end - start) as usize + 1;
            proof {
                frames::lemma_next_frame(bytes, addr as int, room - written);
            }
            let ghost before = buf@;
            let (_, behind) = buf.split_at_mut(written);
            let (part, _) = behind.split_at_mut(len);
            match read_outcome(storage.try_read(start, part)) {
                Ok(_) => {},
                Err(e) => {
                    return Err(e);
                },
            }
            proof {
                let frame = bytes.subrange(start as int, end + 1);
                assert(buf@.take(written + len) =~= before.take(written as int) + frame);
                assert(buf@ =~= buf@.take(written + len) + old(buf)@.skip(written + len));
                assert(out =~= buf@.take(written + len) + frames::delimited(
                    frames::frames(bytes, end + 1).take(
                        frames::fitting(
                            frames::frames(bytes, end + 1),
                            room - (written + len),
                        ) as int,
                    ),
                ));
            }
            written += len;
            addr = end + 1;
        }
    }
}

/// Opening a log: a storage that holds the magic word is left as it is, any
/// other gets it in its first word and is left as it is behind that. A reliable
/// storage fails only where it has no magic word and its first word is locked.
/// The log is read from behind the magic word.
pub proof fn law_log_opened<S: Storage + ErasableStorage>(
    first: Medium,
    next: Medium,
    r: Result<StorageHelper<S>, Error>,
    i: int,
)
    requires
        8 <= first.bytes.len(),
        0 <= i < first.bytes.len(),
        StorageHelper::<S>::opening(first, next, r),
    ensures
        ({
            let word = seq![0xFEu8, 0xED, 0xBE, 0xEF, 0xCA, 0xFE, 0xBA, 0xBE];
            let found = first.bytes.subrange(0, 8) == word;
            &&& r matches Ok(helper) ==> {
                &&& helper.read_addr() == 8
                &&& next.bytes.subrange(0, 8) == word
                &&& found || 8 <= i ==> next.bytes[i] == first.bytes[i]
            }
            &&& r matches Err(e) ==> e == Error::StorageRead || e == Error::StorageWrite
            &&& first.reliable && (found || !first.locked.contains(0)) ==> r is Ok
            &&& first.reliable && !found && first.locked.contains(0) ==> r == Err::<
                StorageHelper<S>,
                Error,
            >(Error::StorageWrite)
        }),
{
    assert(layout::magic() =~= seq![0xFEu8, 0xED, 0xBE, 0xEF, 0xCA, 0xFE, 0xBA, 0xBE]);
    assert(storage::programs(0, 8, 0));
    if !first.locked.contains(0) {
        assert(first.writable(0, 8));
    }
    if r is Ok && !layout::has_magic(first.bytes) {
        assert(next.bytes.subrange(0, 8) =~= layout::magic());
    }
}

} // verus!
