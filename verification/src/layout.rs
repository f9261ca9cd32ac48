//! How the log lies in a storage: the mathematics behind
//! [`StorageHelper`](crate::helper::StorageHelper).
use vstd::prelude::*;

use crate::storage;
use crate::storage::{Medium, COBS_SENTINEL_BYTE};

verus! {

/// The bytes that the first word of a log storage holds.
pub open spec fn magic() -> Seq<u8> {
    seq![0xFEu8, 0xED, 0xBE, 0xEF, 0xCA, 0xFE, 0xBA, 0xBE]
}

/// Whether the storage has been set up for a log.
pub open spec fn has_magic(bytes: Seq<u8>) -> bool {
    bytes.subrange(0, 8) == magic()
}

/// Whether the range from `from` up to `end` reads as erased.
pub open spec fn blank(bytes: Seq<u8>, from: int, end: int) -> bool {
    forall|i: int| from <= i < end ==> bytes[i] == COBS_SENTINEL_BYTE
}

/// Whether the word numbered `word` reads as erased.
pub open spec fn blank_word(bytes: Seq<u8>, word: int) -> bool {
    blank(bytes, 8 * word, 8 * word + 8)
}

/// Whether `count` words from the word `first` on read as erased.
pub open spec fn run(bytes: Seq<u8>, first: int, count: int) -> bool {
    forall|word: int| first <= word < first + count ==> blank_word(bytes, word)
}

/// Whether the `count` words from `first` on are the longest run of erased
/// words between the word 1 and the word `limit`, and the first one of that
/// length.
pub open spec fn longest_run(bytes: Seq<u8>, limit: int, first: int, count: int) -> bool {
    &&& 1 <= first
    &&& 1 <= count
    &&& first + count <= limit
    &&& run(bytes, first, count)
    &&& forall|f: int, c: int|
        1 <= f && 1 <= c && f + c <= limit && #[trigger] run(bytes, f, c) ==> c < count || (c
            == count && first <= f)
}

/// The address from which a log is continued: the start of the longest run of
/// erased words behind the magic word.
pub open spec fn write_head_of(bytes: Seq<u8>) -> int {
    let words = bytes.len() as int / 8;
    if !has_magic(bytes) {
        0
    } else if exists|first: int, count: int| longest_run(bytes, words, first, count) {
        8 * (choose|first: int, count: int| longest_run(bytes, words, first, count)).0
    } else {
        8
    }
}

/// There is at most one first longest run.
pub proof fn lemma_longest_run_unique(
    bytes: Seq<u8>,
    limit: int,
    first: int,
    count: int,
    first2: int,
    count2: int,
)
    requires
        longest_run(bytes, limit, first, count),
        longest_run(bytes, limit, first2, count2),
    ensures
        first == first2,
        count == count2,
{
}

/// Whether the storage consists of whole pages of whole words, and its
/// addresses fit in 32 bits with one page to spare.
pub open spec fn paged(bytes: Seq<u8>, page: int) -> bool {
    &&& 0 < page
    &&& page % 8 == 0
    &&& page <= bytes.len()
    &&& bytes.len() as int % page == 0
    &&& bytes.len() + page <= u32::MAX
}

/// Number of bytes that `len` bytes of data take in whole words.
pub open spec fn padded_len(len: int) -> int {
    (len + 7) / 8 * 8
}

/// `data` filled up to whole words with 0xFF.
pub open spec fn padded(data: Seq<u8>) -> Seq<u8> {
    data + Seq::new(
        (padded_len(data.len() as int) - data.len()) as nat,
        |i: int| COBS_SENTINEL_BYTE,
    )
}

/// Whether a slice of `len` bytes has a place in a storage of `capacity` bytes:
/// it fits in a page, and in the only page beside the magic word.
pub open spec fn accepts(capacity: int, page: int, len: int) -> bool {
    padded_len(len) <= page && (page < capacity || padded_len(len) + 8 <= page)
}

/// Start of the page behind the page of `pos`.
pub open spec fn next_page(pos: int, page: int) -> int {
    pos - pos % page + page
}

/// Where a slice that takes `len` bytes goes that is to start at `pos`: there,
/// or at the start of the next page where it would span two pages.
pub open spec fn fit(pos: int, len: int, page: int) -> int {
    if pos % page + len > page {
        next_page(pos, page)
    } else {
        pos
    }
}

/// The read marker `addr` moved forward by `inc` in a storage of `capacity`
/// bytes: counted from the end where it would reach or pass that end.
pub open spec fn advanced(addr: int, inc: int, capacity: int) -> int {
    if addr + inc >= capacity {
        capacity + inc
    } else {
        addr + inc
    }
}

/// The read marker `addr` moved back by `dec`, but not before the start.
pub open spec fn moved_back(addr: int, dec: int) -> int {
    if addr >= dec {
        addr - dec
    } else {
        0
    }
}

/// `bytes` with the first page erased and set up anew.
pub open spec fn restarted(bytes: Seq<u8>, page: int) -> Seq<u8> {
    storage::patched(storage::cleared(bytes, 0, page), 0, magic())
}

/// What is done to find a place for a slice.
pub struct Plan {
    /// Whether the first page is erased and set up anew.
    pub wraps: bool,
    /// Whether the page at `pos` is erased.
    pub clears: bool,
    /// The address at which the slice is written.
    pub pos: int,
}

/// Where a slice that takes `len` bytes goes while the log is continued at `head`.
#[verifier::opaque]
pub open spec fn plan(bytes: Seq<u8>, page: int, head: int, len: int) -> Plan {
    let wraps = head + len > bytes.len();
    let base = if wraps {
        restarted(bytes, page)
    } else {
        bytes
    };
    let pos = fit(
        if wraps {
            write_head_of(base)
        } else {
            head
        },
        len,
        page,
    );
    if blank(base, pos, pos + len) {
        Plan { wraps, clears: false, pos }
    } else if pos % page == 0 {
        Plan { wraps, clears: true, pos }
    } else if next_page(pos, page) < bytes.len() {
        let next = next_page(pos, page);
        Plan { wraps, clears: !blank(base, next, next + len), pos: next }
    } else {
        let again = restarted(base, page);
        let next = fit(8, len, page);
        Plan { wraps: true, clears: !blank(again, next, next + len), pos: next }
    }
}

/// `bytes` when the place for a slice has been made.
pub open spec fn prepared(bytes: Seq<u8>, page: int, plan: Plan) -> Seq<u8> {
    let base = if plan.wraps {
        restarted(bytes, page)
    } else {
        bytes
    };
    if plan.clears {
        storage::cleared(base, plan.pos, plan.pos + page)
    } else {
        base
    }
}

/// Whether `next` is `medium` when the place for a slice has been made: the
/// words of erased pages can be written again, and beside the magic word all
/// others are as before.
#[verifier::opaque]
pub open spec fn made_room(medium: Medium, next: Medium, page: int, plan: Plan) -> bool {
    &&& next.bytes == prepared(medium.bytes, page, plan)
    &&& next.reliable == medium.reliable
    &&& next.faults == medium.faults
    &&& forall|word: int|
        (plan.clears && plan.pos <= 8 * word < plan.pos + page) || (plan.wraps && 8 <= 8 * word
            < page) ==> !#[trigger] next.locked.contains(word)
    &&& forall|word: int|
        !(plan.clears && plan.pos <= 8 * word < plan.pos + page) && !(plan.wraps && 0 <= 8 * word
            < page) ==> (#[trigger] next.locked.contains(word) <==> medium.locked.contains(word))
}

/// Whether `next` is `medium` after `data` has been stored as planned.
pub open spec fn stored(
    medium: Medium,
    next: Medium,
    page: int,
    plan: Plan,
    data: Seq<u8>,
) -> bool {
    let len = padded_len(data.len() as int);
    &&& next.bytes == storage::patched(
        prepared(medium.bytes, page, plan),
        plan.pos,
        padded(data),
    )
    &&& next.reliable == medium.reliable
    &&& next.faults == medium.faults
    &&& forall|word: int|
        ((plan.clears && plan.pos <= 8 * word < plan.pos + page) || (plan.wraps && 8 <= 8 * word
            < page)) && !storage::programs(plan.pos, len, word)
            ==> !#[trigger] next.locked.contains(word)
    &&& forall|word: int|
        !(plan.clears && plan.pos <= 8 * word < plan.pos + page) && !(plan.wraps && 0 <= 8 * word
            < page) && !storage::programs(plan.pos, len, word) ==> (
        #[trigger] next.locked.contains(word) <==> medium.locked.contains(word))
}

/// Whether the words of the planned place can be written once it has been made.
pub open spec fn place_writable(medium: Medium, page: int, plan: Plan, len: int) -> bool {
    plan.clears || forall|word: int| #[trigger]
        medium.locked.contains(word) && storage::programs(plan.pos, len, word) ==> plan.wraps && 8
            * word < page
}

/// The part of `data` that a reliable storage takes where it refuses the
/// whole: the whole words, where it is only a rest behind them that is refused.
pub open spec fn taken(data: Seq<u8>, whole_words_writable: bool) -> Seq<u8> {
    let whole = data.len() as int / 8 * 8;
    if whole < data.len() && whole_words_writable {
        data.take(whole)
    } else {
        Seq::empty()
    }
}

/// When room has been made, the place can be written as planned.
pub proof fn lemma_place_writable(medium: Medium, next: Medium, page: int, plan: Plan, len: int)
    requires
        made_room(medium, next, page, plan),
        8 <= page,
        page % 8 == 0,
        8 <= plan.pos,
        plan.pos % 8 == 0,
        0 <= len,
        len % 8 == 0,
        plan.clears ==> len <= page,
    ensures
        next.writable(plan.pos, len) <==> place_writable(medium, page, plan, len),
{
    reveal(made_room);
    if place_writable(medium, page, plan, len) {
        assert forall|word: int| storage::programs(plan.pos, len, word) implies !#[trigger]
        next.locked.contains(word) by {
            if !plan.clears && medium.locked.contains(word) {
                assert(8 * word < page);
            }
        }
    }
    if next.writable(plan.pos, len) && !plan.clears {
        assert forall|word: int| #[trigger]
            medium.locked.contains(word) && storage::programs(
                plan.pos,
                len,
                word,
            ) implies plan.wraps && 8 * word < page by {
            assert(!next.locked.contains(word));
        }
    }
}

/// Writing at a place that has been made stores the data as planned.
pub proof fn lemma_stored(
    medium: Medium,
    between: Medium,
    next: Medium,
    page: int,
    plan: Plan,
    data: Seq<u8>,
)
    requires
        made_room(medium, between, page, plan),
        between.wrote(next, plan.pos, padded(data)),
    ensures
        stored(medium, next, page, plan, data),
{
    reveal(made_room);
    let len = padded_len(data.len() as int);
    assert forall|word: int|
        ((plan.clears && plan.pos <= 8 * word < plan.pos + page) || (plan.wraps && 8 <= 8 * word
            < page)) && !storage::programs(plan.pos, len, word) implies !#[trigger]
    next.locked.contains(word) by {
        assert(!between.locked.contains(word));
    }
    assert forall|word: int|
        !(plan.clears && plan.pos <= 8 * word < plan.pos + page) && !(plan.wraps && 0 <= 8 * word
            < page) && !storage::programs(plan.pos, len, word) implies (
    #[trigger] next.locked.contains(word) <==> medium.locked.contains(word)) by {
        assert(between.locked.contains(word) <==> medium.locked.contains(word));
    }
}

/// Data in whole words and a rest can be written where both parts can.
pub proof fn lemma_writable_rest(medium: Medium, pos: int, len: int)
    requires
        0 <= pos,
        pos % 8 == 0,
        0 <= len,
        len % 8 != 0,
    ensures
        medium.writable(pos, padded_len(len)) <==> medium.writable(pos, len / 8 * 8)
            && medium.writable(pos + len / 8 * 8, 8),
{
    let whole = len / 8 * 8;
    assert forall|word: int|
        storage::programs(pos, padded_len(len), word) <==> storage::programs(pos, whole, word)
            || storage::programs(pos + whole, 8, word) by {}
    if medium.writable(pos, padded_len(len)) {
        assert forall|word: int| storage::programs(pos, whole, word) implies !#[trigger]
        medium.locked.contains(word) by {
            assert(storage::programs(pos, padded_len(len), word));
        }
        assert forall|word: int| storage::programs(pos + whole, 8, word) implies !#[trigger]
        medium.locked.contains(word) by {
            assert(storage::programs(pos, padded_len(len), word));
        }
    }
}

/// Writing whole words leaves the words behind them as they are.
pub proof fn lemma_writable_behind(medium: Medium, next: Medium, pos: int, data: Seq<u8>)
    requires
        0 <= pos,
        pos % 8 == 0,
        data.len() % 8 == 0,
        medium.wrote(next, pos, data),
    ensures
        next.writable(pos + data.len(), 8) <==> medium.writable(pos + data.len(), 8),
{
    let rest = pos + data.len();
    assert forall|word: int| storage::programs(rest, 8, word) implies (#[trigger]
    next.locked.contains(word) <==> medium.locked.contains(word)) by {
        assert(!storage::programs(pos, data.len() as int, word));
    }
    if medium.writable(rest, 8) {
        assert forall|word: int| storage::programs(rest, 8, word) implies !#[trigger]
        next.locked.contains(word) by {
            assert(!medium.locked.contains(word));
        }
    }
    if next.writable(rest, 8) {
        assert forall|word: int| storage::programs(rest, 8, word) implies !#[trigger]
        medium.locked.contains(word) by {
            assert(!next.locked.contains(word));
        }
    }
}

/// The bytes after room has been made by a restart or by nothing.
pub proof fn lemma_room_bytes(medium: Medium, next: Medium, page: int, wraps: bool)
    requires
        made_room(medium, next, page, Plan { wraps, clears: false, pos: 8 }),
    ensures
        next.bytes == if wraps {
            restarted(medium.bytes, page)
        } else {
            medium.bytes
        },
        next.reliable == medium.reliable,
        next.faults == medium.faults,
{
    reveal(made_room);
}

/// Clearing a page completes the making of room.
pub proof fn lemma_room_cleared(
    medium: Medium,
    between: Medium,
    next: Medium,
    page: int,
    plan: Plan,
)
    requires
        made_room(
            medium,
            between,
            page,
            Plan { wraps: plan.wraps, clears: false, pos: 8 },
        ),
        made_room(
            between,
            next,
            page,
            Plan { wraps: false, clears: plan.clears, pos: plan.pos },
        ),
    ensures
        made_room(medium, next, page, plan),
{
    reveal(made_room);
    assert forall|word: int|
        (plan.clears && plan.pos <= 8 * word < plan.pos + page) || (plan.wraps && 8 <= 8 * word
            < page) implies !#[trigger] next.locked.contains(word) by {
        if !(plan.clears && plan.pos <= 8 * word < plan.pos + page) {
            assert(!between.locked.contains(word));
        }
    }
    assert forall|word: int|
        !(plan.clears && plan.pos <= 8 * word < plan.pos + page) && !(plan.wraps && 0 <= 8 * word
            < page) implies (#[trigger] next.locked.contains(word) <==> medium.locked.contains(
        word,
    )) by {
        assert(between.locked.contains(word) <==> medium.locked.contains(word));
    }
}

/// A restart after another is one restart.
pub proof fn lemma_room_restarted(
    medium: Medium,
    between: Medium,
    next: Medium,
    page: int,
    wraps: bool,
)
    requires
        8 <= page,
        made_room(medium, between, page, Plan { wraps, clears: false, pos: 8 }),
        made_room(between, next, page, Plan { wraps: true, clears: false, pos: 8 }),
    ensures
        made_room(medium, next, page, Plan { wraps: true, clears: false, pos: 8 }),
{
    reveal(made_room);
    assert(next.bytes =~= restarted(medium.bytes, page));
    assert forall|word: int| !(0 <= 8 * word < page) implies (#[trigger] next.locked.contains(word)
        <==> medium.locked.contains(word)) by {
        assert(between.locked.contains(word) <==> medium.locked.contains(word));
    }
}

/// A multiple of eight lies a multiple of eight behind the start of its page.
pub proof fn lemma_page_offset(pos: int, page: int)
    requires
        0 < page,
        page % 8 == 0,
        pos % 8 == 0,
    ensures
        0 <= pos % page < page,
        (pos % page) % 8 == 0,
{
    vstd::arithmetic::div_mod::lemma_fundamental_div_mod(pos, page);
    let q = pos / page;
    let s = page / 8;
    assert(page * q == 8 * (s * q)) by (nonlinear_arith)
        requires
            page == 8 * s,
    ;
}

/// Whole pages of whole words are whole words.
pub proof fn lemma_whole_words(bytes: Seq<u8>, page: int)
    requires
        paged(bytes, page),
    ensures
        bytes.len() as int % 8 == 0,
        8 <= page,
{
    let capacity = bytes.len() as int;
    vstd::arithmetic::div_mod::lemma_fundamental_div_mod(capacity, page);
    let n = capacity / page;
    let s = page / 8;
    assert(page * n == 8 * (s * n)) by (nonlinear_arith)
        requires
            page == 8 * s,
    ;
}

/// The next page starts one page size behind the start of the page.
pub proof fn lemma_page_start(pos: int, page: int)
    requires
        0 < page,
        0 <= pos,
    ensures
        next_page(pos, page) == (pos / page + 1) * page,
        pos < next_page(pos, page) <= pos + page,
        0 <= pos % page <= pos,
{
    vstd::arithmetic::div_mod::lemma_fundamental_div_mod(pos, page);
    let q = pos / page;
    assert((q + 1) * page == page * q + page) by (nonlinear_arith);
    assert(0 <= q) by (nonlinear_arith)
        requires
            0 <= pos,
            0 < page,
            q == pos / page,
    ;
    assert(0 <= page * q) by (nonlinear_arith)
        requires
            0 <= q,
            0 < page,
    ;
}

/// Erasing a slice at the start of a page erases that page.
pub proof fn lemma_erase_page(pos: int, len: int, page: int)
    requires
        0 <= pos,
        pos % page == 0,
        0 < len <= page,
    ensures
        storage::erase_end(pos, pos + len - 1, page) == pos + page,
{
    vstd::arithmetic::div_mod::lemma_fundamental_div_mod(pos, page);
    let q = pos / page;
    assert(q * page == page * q) by (nonlinear_arith);
    vstd::arithmetic::div_mod::lemma_fundamental_div_mod_converse(pos + len - 1, page, q, len - 1);
    assert((q + 1) * page == page * q + page) by (nonlinear_arith);
}

/// Inside a storage of whole pages, the next page starts inside or at the end.
pub proof fn lemma_next_page(pos: int, page: int, capacity: int)
    requires
        0 < page,
        page % 8 == 0,
        0 <= pos < capacity,
        capacity % page == 0,
    ensures
        next_page(pos, page) <= capacity,
        next_page(pos, page) % page == 0,
        next_page(pos, page) == (pos / page + 1) * page,
        pos < next_page(pos, page),
        next_page(pos, page) < capacity ==> next_page(pos, page) + page <= capacity,
        pos % 8 == 0 ==> next_page(pos, page) % 8 == 0,
{
    vstd::arithmetic::div_mod::lemma_fundamental_div_mod(pos, page);
    vstd::arithmetic::div_mod::lemma_fundamental_div_mod(capacity, page);
    let q = pos / page;
    let n = capacity / page;
    assert((q + 1) * page == page * q + page) by (nonlinear_arith);
    assert(q < n) by (nonlinear_arith)
        requires
            page * q <= pos,
            pos < page * n,
            0 < page,
    ;
    assert((q + 1) * page <= page * n) by (nonlinear_arith)
        requires
            q < n,
            0 < page,
    ;
    if (q + 1) * page < capacity {
        assert((q + 2) * page <= page * n) by (nonlinear_arith)
            requires
                (q + 1) * page < page * n,
                0 < page,
        ;
        assert((q + 2) * page == (q + 1) * page + page) by (nonlinear_arith);
    }
    vstd::arithmetic::div_mod::lemma_mod_multiples_basic(q + 1, page);
    if pos % 8 == 0 {
        lemma_page_offset(pos, page);
    }
}

/// Two addresses of a slice are in one page exactly when the slice does not
/// reach over the end of the page.
pub proof fn lemma_same_page(pos: int, len: int, page: int)
    requires
        0 < page,
        0 < pos,
        0 < len <= page,
    ensures
        pos / page == (pos + len - 1) / page <==> pos % page + len <= page,
{
    vstd::arithmetic::div_mod::lemma_fundamental_div_mod(pos, page);
    let q = pos / page;
    let r = pos % page;
    let last = pos + len - 1;
    if r + len > page {
        assert((q + 1) * page == page * q + page) by (nonlinear_arith);
        vstd::arithmetic::div_mod::lemma_fundamental_div_mod_converse(
            last,
            page,
            q + 1,
            r + len - 1 - page,
        );
    } else {
        assert(q * page == page * q) by (nonlinear_arith);
        vstd::arithmetic::div_mod::lemma_fundamental_div_mod_converse(last, page, q, r + len - 1);
    }
}

/// A log is continued at a word behind the magic word.
pub proof fn lemma_write_head(bytes: Seq<u8>)
    requires
        8 <= bytes.len(),
        bytes.len() % 8 == 0,
        has_magic(bytes),
    ensures
        8 <= write_head_of(bytes) <= bytes.len(),
        write_head_of(bytes) % 8 == 0,
{
}

/// Behind a restart the log is continued where a page is left, or in the first page.
pub proof fn lemma_restart_head(bytes: Seq<u8>, page: int)
    requires
        paged(bytes, page),
    ensures
        has_magic(restarted(bytes, page)),
        write_head_of(restarted(bytes, page)) % 8 == 0,
        write_head_of(restarted(bytes, page)) == 8 || (8 < write_head_of(restarted(bytes, page))
            && write_head_of(restarted(bytes, page)) + page <= bytes.len()),
        blank(restarted(bytes, page), 8, page),
{
    let base = restarted(bytes, page);
    assert(base.subrange(0, 8) =~= magic());
    let words = base.len() as int / 8;
    if exists|first: int, count: int| longest_run(base, words, first, count) {
        let (first, count) = choose|first: int, count: int|
            longest_run(base, words, first, count);
        let c = page / 8 - 1;
        assert(run(base, 1, c)) by {
            assert forall|word: int| 1 <= word < 1 + c implies blank_word(base, word) by {}
        }
        if first > 1 {
            assert(count >= page / 8);
        }
    }
}

/// A place that is found lies on a word boundary behind the magic word, inside
/// the storage and inside one page.
pub proof fn lemma_plan(bytes: Seq<u8>, page: int, head: int, len: int)
    requires
        paged(bytes, page),
        8 <= head <= bytes.len(),
        head % 8 == 0,
        0 <= len,
        len % 8 == 0,
        accepts(bytes.len() as int, page, len),
    ensures
        ({
            let p = plan(bytes, page, head, len);
            &&& 8 <= p.pos
            &&& p.pos % 8 == 0
            &&& p.pos + len <= bytes.len()
            &&& p.pos % page + len <= page
            &&& p.clears ==> p.pos % page == 0 && p.pos + page <= bytes.len() && page <= p.pos
            &&& blank(prepared(bytes, page, p), p.pos, p.pos + len)
        }),
{
    reveal(plan);
    let capacity = bytes.len() as int;
    let wraps = head + len > capacity;
    let base = if wraps {
        restarted(bytes, page)
    } else {
        bytes
    };
    if wraps {
        lemma_restart_head(bytes, page);
    }
    let start = if wraps {
        write_head_of(base)
    } else {
        head
    };
    lemma_fit(start, len, page, capacity);
    let pos = fit(start, len, page);
    let p = plan(bytes, page, head, len);
    if blank(base, pos, pos + len) {
    } else if pos % page == 0 {
        lemma_whole_page(pos, page, capacity);
    } else {
        lemma_next_page(pos, page, capacity);
        let next = next_page(pos, page);
        lemma_page_offset(pos, page);
        if next < capacity {
            lemma_whole_page(next, page, capacity);
        } else {
            let again = restarted(base, page);
            lemma_restart_head(base, page);
            assert(restarted(bytes, page) =~= again);
            lemma_fit(8, len, page, capacity);
            if p.pos == 8 {
                vstd::arithmetic::div_mod::lemma_small_mod(8, page as nat);
            } else {
                vstd::arithmetic::div_mod::lemma_mod_self_0(page);
                lemma_whole_page(p.pos, page, capacity);
            }
        }
    }
}

/// A positive multiple of the page size inside a storage of whole pages has a
/// page behind it.
pub proof fn lemma_whole_page(pos: int, page: int, capacity: int)
    requires
        0 < page,
        0 < pos < capacity,
        pos % page == 0,
        capacity % page == 0,
    ensures
        pos + page <= capacity,
        page <= pos,
{
    vstd::arithmetic::div_mod::lemma_fundamental_div_mod(pos, page);
    vstd::arithmetic::div_mod::lemma_fundamental_div_mod(capacity, page);
    let q = pos / page;
    let n = capacity / page;
    assert(0 < q < n) by (nonlinear_arith)
        requires
            0 < page * q,
            page * q < page * n,
            0 < page,
    ;
    assert(page * q + page <= page * n) by (nonlinear_arith)
        requires
            q < n,
            0 < page,
    ;
    assert(page <= page * q) by (nonlinear_arith)
        requires
            0 < q,
            0 < page,
    ;
}

/// A slice that is moved to the next page lies inside the storage.
pub proof fn lemma_fit(pos: int, len: int, page: int, capacity: int)
    requires
        0 < page,
        page % 8 == 0,
        page <= capacity,
        capacity % page == 0,
        8 <= pos,
        pos % 8 == 0,
        0 <= len,
        len % 8 == 0,
        accepts(capacity, page, len),
        pos + len <= capacity || pos == 8 || pos + page <= capacity,
    ensures
        8 <= fit(pos, len, page),
        fit(pos, len, page) % 8 == 0,
        fit(pos, len, page) + len <= capacity,
        fit(pos, len, page) % page + len <= page,
        pos == 8 && 0 < len && fit(pos, len, page) != pos ==> fit(pos, len, page) == page,
{
    lemma_page_offset(pos, page);
    if pos == 8 {
        if page == 8 {
            assert(8int % 8 == 0);
        } else {
            vstd::arithmetic::div_mod::lemma_small_mod(8, page as nat);
        }
    }
    if fit(pos, len, page) != pos {
        assert(pos < capacity);
        lemma_next_page(pos, page, capacity);
    }
}

} // verus!
