//! What holds of the log as a whole.
use vstd::prelude::*;

use crate::frames;
use crate::layout;
use crate::packing;
use crate::producer;
use crate::storage;
use crate::storage::{Medium, COBS_SENTINEL_BYTE};

verus! {

/// What has been written to a storage is read back from it, and nothing else
/// has changed.
pub proof fn law_read_back(medium: Medium, next: Medium, offset: int, data: Seq<u8>)
    requires
        0 <= offset,
        offset + data.len() <= medium.bytes.len(),
        medium.wrote(next, offset, data),
    ensures
        next.bytes.len() == medium.bytes.len(),
        next.bytes.subrange(offset, offset + data.len()) == data,
        next.bytes.take(offset) == medium.bytes.take(offset),
        next.bytes.skip(offset + data.len()) == medium.bytes.skip(offset + data.len()),
{
    assert(next.bytes.subrange(offset, offset + data.len()) =~= data);
    assert(next.bytes.take(offset) =~= medium.bytes.take(offset));
    assert(next.bytes.skip(offset + data.len()) =~= medium.bytes.skip(offset + data.len()));
}

/// A range of whole words that has been erased can be written.
pub proof fn law_writable_after_erase(medium: Medium, next: Medium, from: int, end: int)
    requires
        0 <= from <= end,
        from % 8 == 0,
        end % 8 == 0,
        medium.erased(next, from, end),
    ensures
        next.writable(from, end - from),
{
}

/// A slice is stored at a word boundary behind the magic word, inside one page,
/// and only where the storage reads as erased.
pub proof fn law_slice_has_its_place(bytes: Seq<u8>, page: int, head: int, data: Seq<u8>)
    requires
        layout::paged(bytes, page),
        8 <= head <= bytes.len(),
        head % 8 == 0,
        0 < data.len(),
        layout::accepts(bytes.len() as int, page, data.len() as int),
    ensures
        ({
            let len = layout::padded_len(data.len() as int);
            let plan = layout::plan(bytes, page, head, len);
            &&& 8 <= plan.pos
            &&& plan.pos % 8 == 0
            &&& plan.pos + len <= bytes.len()
            &&& plan.pos % page + len <= page
            &&& layout::blank(layout::prepared(bytes, page, plan), plan.pos, plan.pos + len)
        }),
{
    layout::lemma_plan(bytes, page, head, layout::padded_len(data.len() as int));
}

/// A slice that has been stored is read back from its place, and the magic word
/// is still there.
#[verifier::spinoff_prover]
#[verifier::rlimit(60)]
pub proof fn law_slice_read_back(
    medium: Medium,
    next: Medium,
    page: int,
    head: int,
    data: Seq<u8>,
)
    requires
        layout::paged(medium.bytes, page),
        layout::has_magic(medium.bytes),
        8 <= head <= medium.bytes.len(),
        head % 8 == 0,
        0 < data.len(),
        layout::accepts(medium.bytes.len() as int, page, data.len() as int),
        layout::stored(
            medium,
            next,
            page,
            layout::plan(medium.bytes, page, head, layout::padded_len(data.len() as int)),
            data,
        ),
    ensures
        ({
            let plan = layout::plan(
                medium.bytes,
                page,
                head,
                layout::padded_len(data.len() as int),
            );
            next.bytes.subrange(plan.pos, plan.pos + data.len()) == data
        }),
        layout::has_magic(next.bytes),
{
    let len = layout::padded_len(data.len() as int);
    let plan = layout::plan(medium.bytes, page, head, len);
    layout::lemma_plan(medium.bytes, page, head, len);
    layout::lemma_restart_head(medium.bytes, page);
    let room = layout::prepared(medium.bytes, page, plan);
    assert(room.subrange(0, 8) =~= layout::magic()) by {
        let base = if plan.wraps {
            layout::restarted(medium.bytes, page)
        } else {
            medium.bytes
        };
        assert(base.subrange(0, 8) == layout::magic());
        assert(room.subrange(0, 8) =~= base.subrange(0, 8));
    }
    assert(next.bytes.subrange(0, 8) =~= room.subrange(0, 8));
    assert(next.bytes.subrange(plan.pos, plan.pos + data.len()) =~= data);
}

/// Storing a slice erases whole pages only, the first one and the one that the
/// slice goes to; all that lies outside of them and of the slice is kept, so
/// that no older slice loses a part of itself.
pub proof fn law_other_pages_kept(
    medium: Medium,
    next: Medium,
    page: int,
    head: int,
    data: Seq<u8>,
    addr: int,
)
    requires
        layout::paged(medium.bytes, page),
        8 <= head <= medium.bytes.len(),
        head % 8 == 0,
        0 < data.len(),
        layout::accepts(medium.bytes.len() as int, page, data.len() as int),
        layout::stored(
            medium,
            next,
            page,
            layout::plan(medium.bytes, page, head, layout::padded_len(data.len() as int)),
            data,
        ),
        0 <= addr < medium.bytes.len(),
    ensures
        ({
            let len = layout::padded_len(data.len() as int);
            let plan = layout::plan(medium.bytes, page, head, len);
            &&& plan.clears ==> plan.pos % page == 0
            &&& !(plan.wraps && addr < page) && !(plan.clears && plan.pos <= addr < plan.pos
                + page) && !(plan.pos <= addr < plan.pos + len) ==> next.bytes[addr]
                == medium.bytes[addr]
        }),
{
    layout::lemma_plan(medium.bytes, page, head, layout::padded_len(data.len() as int));
    layout::lemma_whole_words(medium.bytes, page);
}

/// A log that is opened again goes on where it was left: where all words from
/// `head` on read as erased, the one before does not, and there is no run of
/// erased words as long as that before `head`.
pub proof fn law_resumes_at_head(bytes: Seq<u8>, head: int)
    requires
        8 <= head < bytes.len(),
        head % 8 == 0,
        bytes.len() % 8 == 0,
        layout::has_magic(bytes),
        layout::blank(bytes, head, bytes.len() as int),
        head == 8 || !layout::blank_word(bytes, head / 8 - 1),
        forall|f: int, c: int|
            1 <= f && 1 <= c && f + c <= head / 8 && #[trigger] layout::run(bytes, f, c) ==> c < (
            bytes.len() as int - head) / 8,
    ensures
        layout::write_head_of(bytes) == head,
{
    let words = bytes.len() as int / 8;
    let first = head / 8;
    let count = words - first;
    assert(layout::run(bytes, first, count)) by {
        assert forall|word: int| first <= word < first + count implies layout::blank_word(
            bytes,
            word,
        ) by {}
    }
    assert forall|f: int, c: int|
        1 <= f && 1 <= c && f + c <= words && #[trigger] layout::run(bytes, f, c) implies c < count
        || (c == count && first <= f) by {
        if f < first && first < f + c {
            assert(layout::blank_word(bytes, first - 1));
        }
    }
    assert(layout::longest_run(bytes, words, first, count));
    let found = choose|f: int, c: int| layout::longest_run(bytes, words, f, c);
    layout::lemma_longest_run_unique(bytes, words, first, count, found.0, found.1);
}

/// The erased rest of a log takes every slice that fits in it: where no word
/// from `head` on is locked, a reliable storage accepts the slice, and the
/// rest behind it is as fit as before.
pub proof fn law_rest_takes_slices(
    medium: Medium,
    next: Medium,
    page: int,
    head: int,
    data: Seq<u8>,
)
    requires
        layout::paged(medium.bytes, page),
        8 <= head < medium.bytes.len(),
        head % 8 == 0,
        0 < data.len(),
        layout::accepts(medium.bytes.len() as int, page, data.len() as int),
        layout::blank(medium.bytes, head, medium.bytes.len() as int),
        forall|word: int| #[trigger] medium.locked.contains(word) ==> 8 * word < head,
        layout::fit(head, layout::padded_len(data.len() as int), page) + layout::padded_len(
            data.len() as int,
        ) <= medium.bytes.len(),
    ensures
        ({
            let len = layout::padded_len(data.len() as int);
            let plan = layout::plan(medium.bytes, page, head, len);
            let end = plan.pos + len;
            &&& layout::place_writable(medium, page, plan, len)
            &&& layout::stored(medium, next, page, plan, data) ==> {
                &&& layout::blank(next.bytes, end, next.bytes.len() as int)
                &&& forall|word: int| #[trigger] next.locked.contains(word) ==> 8 * word < end
            }
        }),
{
    let len = layout::padded_len(data.len() as int);
    let plan = layout::plan(medium.bytes, page, head, len);
    layout::lemma_page_start(head, page);
    layout::lemma_plan(medium.bytes, page, head, len);
    assert(plan == layout::Plan { wraps: false, clears: false, pos: layout::fit(head, len, page) })
        by {
        reveal(layout::plan);
    }
    if layout::stored(medium, next, page, plan, data) {
        assert forall|word: int| #[trigger] next.locked.contains(word) implies 8 * word < plan.pos
            + len by {
            if !storage::programs(plan.pos, len, word) {
                assert(medium.locked.contains(word));
            }
        }
    }
}

/// Moving the read marker back undoes a move forward that stays inside the storage.
pub proof fn law_marker_moved_back(addr: int, by: int, capacity: int)
    requires
        0 <= addr,
        0 <= by,
        addr + by < capacity,
    ensures
        layout::moved_back(layout::advanced(addr, by, capacity), by) == addr,
{
}

/// Whether each of `list` is a frame: it has bytes, and no separator among them.
pub open spec fn clean(list: Seq<Seq<u8>>) -> bool {
    forall|k: int|
        0 <= k < list.len() ==> (#[trigger] list[k]).len() > 0 && !list[k].contains(
            COBS_SENTINEL_BYTE,
        )
}

/// The frames that are found have bytes, and no separator among them.
pub proof fn law_frames_clean(bytes: Seq<u8>, from: int)
    requires
        0 <= from,
    ensures
        clean(frames::frames(bytes, from)),
    decreases bytes.len() - from,
{
    let start = frames::frame_start(bytes, from);
    let end = frames::frame_end(bytes, from);
    frames::lemma_seek(bytes, from, false);
    frames::lemma_seek(bytes, start, true);
    if end < bytes.len() {
        let frame = bytes.subrange(start, end);
        if frame.contains(COBS_SENTINEL_BYTE) {
            let j = choose|j: int| 0 <= j < frame.len() && frame[j] == COBS_SENTINEL_BYTE;
            assert(bytes[start + j] == COBS_SENTINEL_BYTE);
        }
        law_frames_clean(bytes, end + 1);
    }
}

/// Separators add no frames.
pub proof fn law_separators_skipped(bytes: Seq<u8>, from: int, mid: int)
    requires
        0 <= from <= mid <= bytes.len(),
        layout::blank(bytes, from, mid),
    ensures
        frames::frames(bytes, from) == frames::frames(bytes, mid),
    decreases mid - from,
{
    if from < mid {
        law_separators_skipped(bytes, from + 1, mid);
        frames::lemma_seek(bytes, from + 1, false);
        frames::lemma_seek(bytes, frames::frame_start(bytes, from + 1), true);
    }
}

/// Behind a separator the frames are those before it and those behind it.
pub proof fn law_frames_in_parts(bytes: Seq<u8>, from: int, mid: int)
    requires
        0 <= from <= mid <= bytes.len(),
        from == mid || bytes[mid - 1] == COBS_SENTINEL_BYTE,
    ensures
        frames::frames(bytes, from) == frames::frames(bytes.take(mid), from) + frames::frames(
            bytes,
            mid,
        ),
    decreases mid - from,
{
    let part = bytes.take(mid);
    if from == mid {
        assert(frames::frames(part, from) =~= Seq::empty());
        assert(Seq::<Seq<u8>>::empty() + frames::frames(bytes, mid) =~= frames::frames(
            bytes,
            mid,
        ));
    } else {
        let start = frames::frame_start(bytes, from);
        let end = frames::frame_end(bytes, from);
        frames::lemma_seek(bytes, from, false);
        frames::lemma_seek(bytes, start, true);
        lemma_seek_part(bytes, from, mid, false);
        if start >= mid {
            law_separators_skipped(bytes, from, mid);
            frames::lemma_seek(part, from, false);
            frames::lemma_seek(part, frames::frame_start(part, from), true);
            assert(frames::frames(part, from) =~= Seq::empty());
            assert(Seq::<Seq<u8>>::empty() + frames::frames(bytes, mid) =~= frames::frames(
                bytes,
                mid,
            ));
        } else {
            assert(bytes[mid - 1] == COBS_SENTINEL_BYTE);
            assert(end <= mid - 1);
            lemma_seek_part(bytes, start, mid, true);
            assert(part.subrange(start, end) =~= bytes.subrange(start, end));
            law_frames_in_parts(bytes, end + 1, mid);
            assert(frames::frames(bytes, from) =~= frames::frames(part, from) + frames::frames(
                bytes,
                mid,
            ));
        }
    }
}

/// Looking in the first `mid` bytes finds what looking in all finds, or their end.
proof fn lemma_seek_part(bytes: Seq<u8>, from: int, mid: int, separator: bool)
    requires
        0 <= from <= mid <= bytes.len(),
    ensures
        frames::seek(bytes.take(mid), from, separator) == if frames::seek(bytes, from, separator)
            < mid {
            frames::seek(bytes, from, separator)
        } else {
            mid
        },
    decreases mid - from,
{
    frames::lemma_seek(bytes, from, separator);
    if from < mid && (bytes[from] == COBS_SENTINEL_BYTE) != separator {
        lemma_seek_part(bytes, from + 1, mid, separator);
    }
}

/// Frames that lie one behind the other, each with its separator, are found
/// one after the other.
pub proof fn law_frames_found(bytes: Seq<u8>, from: int, list: Seq<Seq<u8>>)
    requires
        0 <= from,
        from + frames::delimited(list).len() <= bytes.len(),
        bytes.subrange(from, from + frames::delimited(list).len()) == frames::delimited(list),
        clean(list),
    ensures
        frames::frames(bytes, from) == list + frames::frames(
            bytes,
            from + frames::delimited(list).len(),
        ),
    decreases list.len(),
{
    let all = frames::delimited(list);
    let behind = frames::frames(bytes, from + all.len());
    if list.len() == 0 {
        assert(list + behind =~= behind);
    } else {
        let frame = list[0];
        let end = from + frame.len();
        let rest = frames::delimited(list.skip(1));
        assert(all == frame.push(COBS_SENTINEL_BYTE) + rest);
        assert forall|i: int| from <= i < end implies bytes[i] == frame[i - from] && bytes[i]
            != COBS_SENTINEL_BYTE by {
            assert(bytes.subrange(from, from + all.len())[i - from] == all[i - from]);
            assert(frame.contains(frame[i - from]));
        }
        assert(bytes[end] == COBS_SENTINEL_BYTE) by {
            assert(bytes.subrange(from, from + all.len())[frame.len() as int]
                == all[frame.len() as int]);
        }
        frames::lemma_seek(bytes, from, true);
        assert(bytes[from] != COBS_SENTINEL_BYTE);
        assert(frames::frame_start(bytes, from) == from);
        assert(frames::frame_end(bytes, from) == end);
        assert(bytes.subrange(from, end) =~= frame);
        assert(bytes.subrange(end + 1, end + 1 + rest.len()) =~= rest) by {
            assert forall|i: int| 0 <= i < rest.len() implies #[trigger] bytes.subrange(
                end + 1,
                end + 1 + rest.len(),
            )[i] == rest[i] by {
                assert(bytes.subrange(from, from + all.len())[frame.len() + 1 + i]
                    == all[frame.len() + 1 + i]);
            }
        }
        assert forall|k: int| 0 <= k < list.skip(1).len() implies (#[trigger] list.skip(
            1,
        )[k]).len() > 0 && !list.skip(1)[k].contains(COBS_SENTINEL_BYTE) by {
            assert(list.skip(1)[k] == list[k + 1]);
        }
        law_frames_found(bytes, end + 1, list.skip(1));
        assert(seq![frame] + (list.skip(1) + behind) =~= list + behind);
    }
}

/// Where there is room for all frames and their separators, all are read.
pub proof fn law_all_frames_fit(list: Seq<Seq<u8>>, room: int)
    requires
        frames::delimited(list).len() <= room,
    ensures
        frames::fitting(list, room) == list.len(),
    decreases list.len(),
{
    if list.len() != 0 {
        law_all_frames_fit(list.skip(1), room - list[0].len() - 1);
    }
}

/// Frames that have been read take no more room than there is.
pub proof fn law_room_kept(list: Seq<Seq<u8>>, room: int)
    requires
        0 <= room,
    ensures
        frames::fitting(list, room) <= list.len(),
        frames::delimited(list.take(frames::fitting(list, room) as int)).len() <= room,
    decreases list.len(),
{
    frames::lemma_fitting(list, room);
    if list.len() != 0 && list[0].len() + 1 <= room {
        let left = room - list[0].len() - 1;
        let count = frames::fitting(list.skip(1), left);
        law_room_kept(list.skip(1), left);
        assert(list.take(count as int + 1).skip(1) =~= list.skip(1).take(count as int));
    }
}

/// Reading goes on with the frame behind those that have been read: no frame is
/// read twice, and none is left out.
pub proof fn law_reading_goes_on(bytes: Seq<u8>, from: int, count: nat)
    requires
        0 <= from <= bytes.len(),
        count <= frames::frames(bytes, from).len(),
    ensures
        frames::frames(bytes, frames::resume(bytes, from, count)) == frames::frames(
            bytes,
            from,
        ).skip(count as int),
    decreases count,
{
    let start = frames::frame_start(bytes, from);
    let end = frames::frame_end(bytes, from);
    let all = frames::frames(bytes, from);
    frames::lemma_seek(bytes, from, false);
    frames::lemma_seek(bytes, start, true);
    if count == 0 {
        law_separators_skipped(bytes, from, start);
        assert(all.skip(0) =~= all);
    } else {
        law_reading_goes_on(bytes, end + 1, (count - 1) as nat);
        assert(all.skip(1) =~= frames::frames(bytes, end + 1));
        assert(all.skip(1).skip(count - 1) =~= all.skip(count as int));
    }
}

/// The frames of `sent` that hold a message, without the separators that end
/// them. A frame of no message is a separator alone.
pub open spec fn logged(sent: Seq<Seq<u8>>) -> Seq<Seq<u8>>
    decreases sent.len(),
{
    if sent.len() == 0 {
        Seq::empty()
    } else if sent[0].len() > 1 {
        seq![sent[0].drop_last()] + logged(sent.drop_first())
    } else {
        logged(sent.drop_first())
    }
}

/// What has been put in the log buffer frame by frame are frames, which take no
/// more room with their separators than they took there.
pub proof fn law_committed_frames(sent: Seq<Seq<u8>>)
    requires
        producer::all_frames(sent),
    ensures
        clean(logged(sent)),
        frames::delimited(logged(sent)).len() <= sent.flatten().len(),
        (forall|k: int| 0 <= k < sent.len() ==> (#[trigger] sent[k]).len() > 1) ==> {
            &&& logged(sent).len() == sent.len()
            &&& forall|k: int|
                0 <= k < sent.len() ==> #[trigger] logged(sent)[k] == sent[k].drop_last()
            &&& frames::delimited(logged(sent)) == sent.flatten()
        },
    decreases sent.len(),
{
    if sent.len() > 0 {
        let rest = sent.drop_first();
        lemma_rest_frames(sent);
        law_committed_frames(rest);
        let list = logged(sent);
        let frame = sent[0].drop_last();
        assert(frame.push(COBS_SENTINEL_BYTE) =~= sent[0]);
        if sent[0].len() > 1 {
            assert(list.skip(1) =~= logged(rest));
            assert forall|k: int| 0 <= k < list.len() implies (#[trigger] list[k]).len() > 0
                && !list[k].contains(COBS_SENTINEL_BYTE) by {
                if k > 0 {
                    assert(list[k] == logged(rest)[k - 1]);
                }
            }
        }
        if forall|k: int| 0 <= k < sent.len() ==> (#[trigger] sent[k]).len() > 1 {
            assert forall|k: int| 0 <= k < rest.len() implies (#[trigger] rest[k]).len() > 1 by {
                assert(rest[k] == sent[k + 1]);
            }
        }
    }
}

/// The first of some frames, and the others.
proof fn lemma_rest_frames(sent: Seq<Seq<u8>>)
    requires
        producer::all_frames(sent),
        sent.len() > 0,
    ensures
        producer::single_frame(sent[0]),
        producer::all_frames(sent.drop_first()),
        sent.flatten() == sent[0] + sent.drop_first().flatten(),
{
    let rest = sent.drop_first();
    assert forall|k: int| 0 <= k < rest.len() implies producer::single_frame(#[trigger] rest[k]) by {
        assert(rest[k] == sent[k + 1]);
    }
}

/// Frames that lie as they have been put in the log buffer are found one after
/// the other.
#[verifier::spinoff_prover]
#[verifier::rlimit(60)]
pub proof fn law_sent_frames_found(bytes: Seq<u8>, from: int, sent: Seq<Seq<u8>>)
    requires
        0 <= from,
        from + sent.flatten().len() <= bytes.len(),
        bytes.subrange(from, from + sent.flatten().len()) == sent.flatten(),
        producer::all_frames(sent),
    ensures
        frames::frames(bytes, from) == logged(sent) + frames::frames(
            bytes,
            from + sent.flatten().len(),
        ),
    decreases sent.len(),
{
    let all = sent.flatten();
    let behind = frames::frames(bytes, from + all.len());
    if sent.len() == 0 {
        assert(logged(sent) + behind =~= behind);
    } else {
        let rest = sent.drop_first();
        lemma_rest_frames(sent);
        let mid = from + sent[0].len();
        let part = bytes.subrange(from, from + all.len());
        assert(bytes.subrange(mid, mid + rest.flatten().len()) =~= rest.flatten()) by {
            assert(part.subrange(sent[0].len() as int, all.len() as int) =~= rest.flatten());
            assert(bytes.subrange(mid, mid + rest.flatten().len()) =~= part.subrange(
                sent[0].len() as int,
                all.len() as int,
            ));
        }
        assert(bytes.subrange(from, mid) =~= sent[0]) by {
            assert(part.subrange(0, sent[0].len() as int) =~= sent[0]);
            assert(bytes.subrange(from, mid) =~= part.subrange(0, sent[0].len() as int));
        }
        law_sent_frames_found(bytes, mid, rest);
        if sent[0].len() > 1 {
            let list = seq![sent[0].drop_last()];
            assert(list.skip(1) =~= Seq::empty());
            assert(frames::delimited(list.skip(1)) =~= Seq::empty());
            assert(frames::delimited(list) =~= sent[0]);
            law_frames_found(bytes, from, list);
            assert(list + (logged(rest) + behind) =~= logged(sent) + behind);
        } else {
            assert(bytes.subrange(from, mid)[0] == bytes[from]);
            law_separators_skipped(bytes, from, mid);
        }
    }
}

/// Frames as they have been put in the log buffer end with a separator.
pub proof fn lemma_sent_ends(sent: Seq<Seq<u8>>)
    requires
        0 < sent.len(),
        producer::all_frames(sent),
    ensures
        sent.flatten().len() > 0,
        sent.flatten().last() == COBS_SENTINEL_BYTE,
    decreases sent.len(),
{
    lemma_rest_frames(sent);
    if sent.len() > 1 {
        lemma_sent_ends(sent.drop_first());
    } else {
        assert(sent.drop_first().flatten() =~= Seq::empty());
        assert(sent.flatten() =~= sent[0]);
    }
}

/// Frames one behind the other, in two parts.
pub proof fn law_delimited_in_parts(list: Seq<Seq<u8>>, more: Seq<Seq<u8>>)
    ensures
        frames::delimited(list + more) == frames::delimited(list) + frames::delimited(more),
    decreases list.len(),
{
    if list.len() == 0 {
        assert(list + more =~= more);
        assert(frames::delimited(list) + frames::delimited(more) =~= frames::delimited(more));
    } else {
        law_delimited_in_parts(list.skip(1), more);
        assert((list + more).skip(1) =~= list.skip(1) + more);
        assert(frames::delimited(list + more) =~= frames::delimited(list) + frames::delimited(
            more,
        ));
    }
}

/// Frames that have been stored as one slice are found again, between the
/// frames before and behind their place, provided that what lies before it
/// ends with a separator.
#[verifier::spinoff_prover]
#[verifier::rlimit(60)]
pub proof fn law_stored_frames_found(
    medium: Medium,
    next: Medium,
    page: int,
    head: int,
    sent: Seq<Seq<u8>>,
    from: int,
)
    requires
        layout::paged(medium.bytes, page),
        8 <= head <= medium.bytes.len(),
        head % 8 == 0,
        0 < sent.len(),
        producer::all_frames(sent),
        layout::accepts(
            medium.bytes.len() as int,
            page,
            sent.flatten().len() as int,
        ),
        ({
            let data = sent.flatten();
            let plan = layout::plan(
                medium.bytes,
                page,
                head,
                layout::padded_len(data.len() as int),
            );
            &&& layout::stored(medium, next, page, plan, data)
            &&& 0 <= from <= plan.pos
            &&& from == plan.pos || layout::prepared(medium.bytes, page, plan)[plan.pos - 1]
                == COBS_SENTINEL_BYTE
        }),
    ensures
        ({
            let len = layout::padded_len(sent.flatten().len() as int);
            let plan = layout::plan(medium.bytes, page, head, len);
            let room = layout::prepared(medium.bytes, page, plan);
            &&& frames::frames(next.bytes, from) == frames::frames(room.take(plan.pos), from)
                + logged(sent) + frames::frames(room, plan.pos + len)
            &&& next.bytes[plan.pos + len - 1] == COBS_SENTINEL_BYTE
        }),
{
    let data = sent.flatten();
    let len = layout::padded_len(data.len() as int);
    let plan = layout::plan(medium.bytes, page, head, len);
    let room = layout::prepared(medium.bytes, page, plan);
    let bytes = next.bytes;
    let pos = plan.pos;
    lemma_sent_ends(sent);
    layout::lemma_plan(medium.bytes, page, head, len);
    assert(bytes.take(pos) =~= room.take(pos));
    assert(from < pos ==> bytes[pos - 1] == room[pos - 1]);
    law_frames_in_parts(bytes, from, pos);
    assert(bytes.subrange(pos, pos + data.len()) =~= data);
    law_sent_frames_found(bytes, pos, sent);
    assert(bytes[pos + len - 1] == COBS_SENTINEL_BYTE) by {
        assert(layout::padded(data)[len - 1] == COBS_SENTINEL_BYTE);
    }
    law_separators_skipped(bytes, pos + data.len(), pos + len);
    lemma_frames_behind(bytes, room, pos + len);
    assert(frames::frames(bytes, from) =~= frames::frames(room.take(pos), from) + logged(sent)
        + frames::frames(room, pos + len));
}

/// The frames from `from` on depend on the bytes from there on only.
proof fn lemma_frames_behind(bytes: Seq<u8>, other: Seq<u8>, from: int)
    requires
        0 <= from <= bytes.len(),
        bytes.len() == other.len(),
        forall|i: int| from <= i < bytes.len() ==> bytes[i] == other[i],
    ensures
        frames::frames(bytes, from) == frames::frames(other, from),
    decreases bytes.len() - from,
{
    let start = frames::frame_start(bytes, from);
    let end = frames::frame_end(bytes, from);
    frames::lemma_seek(bytes, from, false);
    frames::lemma_seek(bytes, start, true);
    lemma_seek_behind(bytes, other, from, false);
    lemma_seek_behind(bytes, other, start, true);
    if end < bytes.len() {
        assert(bytes.subrange(start, end) =~= other.subrange(start, end));
        lemma_frames_behind(bytes, other, end + 1);
    }
}

/// What is found from `from` on depends on the bytes from there on only.
proof fn lemma_seek_behind(bytes: Seq<u8>, other: Seq<u8>, from: int, separator: bool)
    requires
        0 <= from <= bytes.len(),
        bytes.len() == other.len(),
        forall|i: int| from <= i < bytes.len() ==> bytes[i] == other[i],
    ensures
        frames::seek(bytes, from, separator) == frames::seek(other, from, separator),
    decreases bytes.len() - from,
{
    if from < bytes.len() {
        lemma_seek_behind(bytes, other, from + 1, separator);
    }
}

/// Frames that are stored in the erased rest of a log, behind a separator, are
/// read back behind all frames that have been in the log before.
#[verifier::spinoff_prover]
#[verifier::rlimit(60)]
pub proof fn law_log_grows(
    medium: Medium,
    next: Medium,
    page: int,
    head: int,
    sent: Seq<Seq<u8>>,
    from: int,
)
    requires
        layout::paged(medium.bytes, page),
        8 <= from <= head < medium.bytes.len(),
        head % 8 == 0,
        0 < sent.len(),
        producer::all_frames(sent),
        layout::accepts(
            medium.bytes.len() as int,
            page,
            sent.flatten().len() as int,
        ),
        layout::blank(medium.bytes, head, medium.bytes.len() as int),
        from == head || medium.bytes[head - 1] == COBS_SENTINEL_BYTE,
        layout::fit(head, layout::padded_len(sent.flatten().len() as int), page)
            + layout::padded_len(sent.flatten().len() as int) <= medium.bytes.len(),
        layout::stored(
            medium,
            next,
            page,
            layout::plan(
                medium.bytes,
                page,
                head,
                layout::padded_len(sent.flatten().len() as int),
            ),
            sent.flatten(),
        ),
    ensures
        frames::frames(next.bytes, from) == frames::frames(medium.bytes, from) + logged(sent),
{
    let bytes = medium.bytes;
    let data = sent.flatten();
    let len = layout::padded_len(data.len() as int);
    let plan = layout::plan(bytes, page, head, len);
    let end = bytes.len() as int;
    lemma_sent_ends(sent);
    layout::lemma_page_start(head, page);
    assert(plan == layout::Plan { wraps: false, clears: false, pos: layout::fit(head, len, page) })
        by {
        reveal(layout::plan);
    }
    let pos = plan.pos;
    assert(head <= pos);
    law_stored_frames_found(medium, next, page, head, sent, from);
    law_frames_in_parts(bytes, from, pos);
    law_separators_skipped(bytes, pos, end);
    law_separators_skipped(bytes, pos + len, end);
    let none = frames::frames(bytes, end);
    assert(none =~= Seq::empty());
    assert(frames::frames(bytes.take(pos), from) + none =~= frames::frames(bytes.take(pos), from));
    assert(frames::frames(bytes.take(pos), from) + logged(sent) + none =~= frames::frames(
        bytes.take(pos),
        from,
    ) + logged(sent));
}

/// What has been logged is retrieved: when the frames `sent` that have been put
/// in the log buffer are drained to the erased rest of a log, behind a
/// separator, a buffer with room for all frames of the log gets those from
/// before and then the messages of `sent`.
#[verifier::spinoff_prover]
#[verifier::rlimit(60)]
pub proof fn law_logged_is_retrieved(
    medium: Medium,
    next: Medium,
    page: int,
    head: int,
    sent: Seq<Seq<u8>>,
    from: int,
    room: int,
)
    requires
        layout::paged(medium.bytes, page),
        8 <= from <= head < medium.bytes.len(),
        head % 8 == 0,
        0 < sent.len(),
        producer::all_frames(sent),
        layout::accepts(medium.bytes.len() as int, page, sent.flatten().len() as int),
        layout::blank(medium.bytes, head, medium.bytes.len() as int),
        from == head || medium.bytes[head - 1] == COBS_SENTINEL_BYTE,
        layout::fit(head, layout::padded_len(sent.flatten().len() as int), page)
            + layout::padded_len(sent.flatten().len() as int) <= medium.bytes.len(),
        layout::stored(
            medium,
            next,
            page,
            layout::plan(
                medium.bytes,
                page,
                head,
                layout::padded_len(sent.flatten().len() as int),
            ),
            sent.flatten(),
        ),
        frames::delimited(frames::frames(medium.bytes, from)).len() + sent.flatten().len() <= room,
    ensures
        ({
            let found = frames::frames(next.bytes, from);
            let count = frames::fitting(found, room);
            found.take(count as int) == frames::frames(medium.bytes, from) + logged(sent)
        }),
{
    let list = logged(sent);
    let earlier = frames::frames(medium.bytes, from);
    law_committed_frames(sent);
    law_log_grows(medium, next, page, head, sent, from);
    law_delimited_in_parts(earlier, list);
    law_all_frames_fit(earlier + list, room);
    assert((earlier + list).take((earlier + list).len() as int) =~= earlier + list);
}

/// Messages come back: where each frame of `sent` holds a message and stands
/// for it, the frames that are retrieved of them stand for the messages, in
/// their order.
pub proof fn law_messages_come_back(sent: Seq<Seq<u8>>, messages: Seq<Seq<u8>>)
    requires
        producer::all_frames(sent),
        sent.len() == messages.len(),
        forall|k: int|
            0 <= k < sent.len() ==> (#[trigger] sent[k]).len() > 1 && packing::stands_for(
                producer::masked(sent[k].drop_last()),
                messages[k],
            ),
    ensures
        logged(sent).len() == messages.len(),
        forall|k: int|
            0 <= k < messages.len() ==> packing::stands_for(
                producer::masked(#[trigger] logged(sent)[k]),
                messages[k],
            ),
{
    law_committed_frames(sent);
    assert forall|k: int| 0 <= k < messages.len() implies packing::stands_for(
        producer::masked(#[trigger] logged(sent)[k]),
        messages[k],
    ) by {
        assert(sent[k].len() > 1);
    }
}

/// The eight bytes that mark a storage as set up for a log.
pub open spec fn marked(bytes: Seq<u8>) -> bool {
    &&& 8 <= bytes.len()
    &&& bytes[0] == 0xFE && bytes[1] == 0xED && bytes[2] == 0xBE && bytes[3] == 0xEF
    &&& bytes[4] == 0xCA && bytes[5] == 0xFE && bytes[6] == 0xBA && bytes[7] == 0xBE
}

/// Whether all bytes from `from` up to `end` are 0xFF.
pub open spec fn all_ones(bytes: Seq<u8>, from: int, end: int) -> bool {
    forall|i: int| from <= i < end ==> #[trigger] bytes[i] == 0xFFu8
}

/// The log is continued at the biggest erased area: wherever `count` erased
/// words lie behind the magic word, from `from` on, the log is continued at the
/// start of at least as many, and of just as many only where it comes first.
pub proof fn law_biggest_area(bytes: Seq<u8>, from: int, count: int) -> (found: int)
    requires
        bytes.len() % 8 == 0,
        marked(bytes),
        8 <= from,
        from % 8 == 0,
        1 <= count,
        from + 8 * count <= bytes.len(),
        all_ones(bytes, from, from + 8 * count),
    ensures
        ({
            let head = layout::write_head_of(bytes);
            &&& 8 <= head
            &&& head % 8 == 0
            &&& count <= found
            &&& head + 8 * found <= bytes.len()
            &&& all_ones(bytes, head, head + 8 * found)
            &&& found == count ==> head <= from
        }),
{
    let words = bytes.len() as int / 8;
    assert(bytes.subrange(0, 8) =~= layout::magic());
    assert(layout::run(bytes, from / 8, count)) by {
        assert forall|word: int| from / 8 <= word < from / 8 + count implies layout::blank_word(
            bytes,
            word,
        ) by {
            assert forall|i: int| 8 * word <= i < 8 * word + 8 implies bytes[i] == COBS_SENTINEL_BYTE by {
                assert(from <= i < from + 8 * count);
            }
        }
    }
    lemma_some_longest(bytes, words, from / 8, count, words);
    let (first, found) = choose|first: int, count: int|
        layout::longest_run(bytes, words, first, count);
    assert(layout::run(bytes, first, found));
    let head = layout::write_head_of(bytes);
    assert forall|i: int| head <= i < head + 8 * found implies #[trigger] bytes[i] == 0xFFu8 by {
        assert(layout::blank_word(bytes, i / 8));
    }
    found
}

/// Where there is an erased run there is a first longest one; none is longer
/// than `most` words.
proof fn lemma_some_longest(bytes: Seq<u8>, words: int, from: int, count: int, most: int)
    requires
        1 <= from,
        1 <= count,
        from + count <= words,
        layout::run(bytes, from, count),
        most <= words,
        forall|f: int, c: int|
            1 <= f && 1 <= c && f + c <= words && #[trigger] layout::run(bytes, f, c) ==> c <= most,
    ensures
        exists|f: int, c: int| layout::longest_run(bytes, words, f, c),
    decreases most,
{
    assert(count <= most);
    if exists|f: int| 1 <= f && f + most <= words && #[trigger] layout::run(bytes, f, most) {
        let f = choose|f: int| 1 <= f && f + most <= words && #[trigger] layout::run(bytes, f, most);
        lemma_first_of_length(bytes, words, f, most, f);
    } else {
        lemma_some_longest(bytes, words, from, count, most - 1);
    }
}

/// Of the runs of the greatest length there is a first.
proof fn lemma_first_of_length(bytes: Seq<u8>, words: int, from: int, most: int, upto: int)
    requires
        1 <= from <= upto,
        1 <= most,
        from + most <= words,
        layout::run(bytes, from, most),
        forall|f: int, c: int|
            1 <= f && 1 <= c && f + c <= words && #[trigger] layout::run(bytes, f, c) ==> c <= most,
    ensures
        exists|f: int, c: int| layout::longest_run(bytes, words, f, c),
    decreases from,
{
    if exists|f: int| 1 <= f < from && #[trigger] layout::run(bytes, f, most) {
        let f = choose|f: int| 1 <= f < from && #[trigger] layout::run(bytes, f, most);
        lemma_first_of_length(bytes, words, f, most, upto);
    } else {
        assert(layout::longest_run(bytes, words, from, most));
    }
}

/// Where no word behind the magic word is erased, the log is continued right
/// behind the magic word.
pub proof fn law_no_erased_area(bytes: Seq<u8>)
    requires
        bytes.len() % 8 == 0,
        marked(bytes),
        forall|word: int|
            1 <= word && 8 * word + 8 <= bytes.len() ==> !#[trigger] layout::blank_word(bytes, word),
    ensures
        layout::write_head_of(bytes) == 8,
{
    let words = bytes.len() as int / 8;
    assert(bytes.subrange(0, 8) =~= layout::magic());
    assert forall|f: int, c: int| !layout::longest_run(bytes, words, f, c) by {
        if layout::longest_run(bytes, words, f, c) {
            assert(layout::blank_word(bytes, f));
        }
    }
}

/// A slice that fits between the write head and the end of the storage goes on
/// from the head. `place` is the first address from `head` on at which it lies
/// inside one page. Where that area is erased, the slice is put there and
/// nothing else changes. Where it is in use and is the start of a page, that
/// page is erased for it, and no other. Where it is in use inside a page, the
/// slice goes to the start of the next page, of which the same holds. The first
/// page is set up anew only where there is no such page: at the end of the
/// last one.
#[verifier::spinoff_prover]
#[verifier::rlimit(60)]
pub proof fn law_slice_goes_on(
    medium: Medium,
    next: Medium,
    page: int,
    head: int,
    data: Seq<u8>,
    len: int,
    place: int,
)
    requires
        layout::paged(medium.bytes, page),
        8 <= head,
        head % 8 == 0,
        0 < data.len(),
        data.len() <= len < data.len() + 8,
        len % 8 == 0,
        len <= page,
        head + len <= medium.bytes.len(),
        head <= place,
        place % page + len <= page,
        forall|other: int| head <= other < place ==> #[trigger] (other % page) + len > page,
        layout::stored(medium, next, page, layout::plan(medium.bytes, page, head, len), data),
    ensures
        ({
            let bytes = medium.bytes;
            let pos = layout::plan(bytes, page, head, len).pos;
            let behind = place - place % page + page;
            let free = all_ones(bytes, place, place + len);
            let goal = if free || place % page == 0 {
                place
            } else {
                behind
            };
            &&& goal < bytes.len() ==> {
                &&& pos == goal
                &&& next.bytes.len() == bytes.len()
                &&& forall|i: int| 0 <= i < goal ==> next.bytes[i] == bytes[i]
                &&& forall|i: int| goal <= i < goal + data.len() ==> next.bytes[i] == data[i - goal]
                &&& all_ones(next.bytes, goal + data.len(), goal + len)
                &&& all_ones(bytes, goal, goal + len) ==> forall|i: int|
                    goal + len <= i < bytes.len() ==> next.bytes[i] == bytes[i]
                &&& !all_ones(bytes, goal, goal + len) ==> {
                    &&& goal % page == 0
                    &&& all_ones(next.bytes, goal + len, goal + page)
                    &&& forall|i: int| goal + page <= i < bytes.len() ==> next.bytes[i] == bytes[i]
                }
            }
            &&& goal >= bytes.len() ==> {
                &&& pos == if 8 + len <= page {
                    8
                } else {
                    page
                }
                &&& marked(next.bytes)
                &&& forall|i: int| pos <= i < pos + data.len() ==> next.bytes[i] == data[i - pos]
                &&& forall|i: int|
                    8 <= i < page && !(pos <= i < pos + len) ==> next.bytes[i] == 0xFFu8
                &&& forall|i: int|
                    (if pos < page {
                        page
                    } else {
                        pos + page
                    }) <= i < bytes.len() ==> next.bytes[i] == bytes[i]
            }
        }),
{
    let bytes = medium.bytes;
    let capacity = bytes.len() as int;
    assert(len == layout::padded_len(data.len() as int));
    layout::lemma_whole_words(bytes, page);
    layout::lemma_page_start(head, page);
    layout::lemma_page_offset(head, page);
    if page > 8 {
        vstd::arithmetic::div_mod::lemma_small_mod(8, page as nat);
    } else {
        assert(8int % 8 == 0);
    }
    lemma_first_fit(head, len, page, place);
    assert(layout::fit(head, len, page) == place);
    layout::lemma_page_start(place, page);
    layout::lemma_page_offset(place, page);
    if place < capacity {
        layout::lemma_next_page(place, page, capacity);
    }
    assert(layout::blank(bytes, place, place + len) == all_ones(bytes, place, place + len));
    let behind = layout::next_page(place, page);
    assert(layout::blank(bytes, behind, behind + len) == all_ones(bytes, behind, behind + len));
    let plan = layout::plan(bytes, page, head, len);
    assert(place + len <= capacity) by {
        if place != head {
            layout::lemma_next_page(head, page, capacity);
        }
    }
    let goal = if all_ones(bytes, place, place + len) || place % page == 0 {
        place
    } else {
        behind
    };
    let goes_on = layout::Plan {
        wraps: false,
        clears: !all_ones(bytes, goal, goal + len),
        pos: goal,
    };
    if goal < capacity {
        assert(plan == goes_on) by {
            reveal(layout::plan);
        }
        assert(goal + len <= capacity) by {
            if goal != place {
                layout::lemma_whole_page(goal, page, capacity);
            }
        }
        if plan.clears {
            layout::lemma_whole_page(goal, page, capacity);
        }
    } else {
        assert(plan.wraps && plan.pos == layout::fit(8, len, page)) by {
            reveal(layout::plan);
        }
        assert(plan.pos == if 8 + len <= page {
            8
        } else {
            page
        });
        assert(plan.clears ==> plan.pos == page) by {
            reveal(layout::plan);
            layout::lemma_restart_head(bytes, page);
        }
        assert(marked(layout::restarted(bytes, page))) by {
            let m = layout::magic();
            assert(m[0] == 0xFE && m[1] == 0xED && m[2] == 0xBE && m[3] == 0xEF);
            assert(m[4] == 0xCA && m[5] == 0xFE && m[6] == 0xBA && m[7] == 0xBE);
        }
        assert(marked(next.bytes));
    }
}

/// The first address from `head` on at which a slice lies inside one page is
/// `head`, or the start of the next page.
proof fn lemma_first_fit(head: int, len: int, page: int, place: int)
    requires
        0 < page,
        0 <= head <= place,
        0 < len <= page,
        place % page + len <= page,
        forall|other: int| head <= other < place ==> #[trigger] (other % page) + len > page,
    ensures
        place == layout::fit(head, len, page),
{
    layout::lemma_page_start(head, page);
    let behind = layout::next_page(head, page);
    if head % page + len <= page {
        assert(!(head < place));
    } else {
        vstd::arithmetic::div_mod::lemma_fundamental_div_mod(head, page);
        vstd::arithmetic::div_mod::lemma_mod_multiples_basic(head / page + 1, page);
        assert(behind % page == 0);
        assert(!(behind < place));
        if place < behind {
            let d = place - head;
            vstd::arithmetic::div_mod::lemma_fundamental_div_mod_converse(
                place,
                page,
                head / page,
                head % page + d,
            );
        }
    }
}

/// A slice that does not fit between the write head and the end of the storage
/// goes where it would go had the first page been erased and set up anew, and
/// the log been continued at the biggest erased area from then on. `base` is
/// what the storage holds then.
#[verifier::spinoff_prover]
#[verifier::rlimit(60)]
pub proof fn law_slice_wraps(
    medium: Medium,
    next: Medium,
    page: int,
    head: int,
    data: Seq<u8>,
    base: Seq<u8>,
) -> (between: Medium)
    requires
        layout::paged(medium.bytes, page),
        8 <= head <= medium.bytes.len(),
        head % 8 == 0,
        0 < data.len(),
        layout::accepts(medium.bytes.len() as int, page, data.len() as int),
        head + layout::padded_len(data.len() as int) > medium.bytes.len(),
        base.len() == medium.bytes.len(),
        marked(base),
        all_ones(base, 8, page),
        forall|i: int| page <= i < base.len() ==> base[i] == medium.bytes[i],
        layout::stored(
            medium,
            next,
            page,
            layout::plan(medium.bytes, page, head, layout::padded_len(data.len() as int)),
            data,
        ),
    ensures
        between.bytes == base,
        between.reliable == medium.reliable,
        between.faults == medium.faults,
        forall|word: int| page <= 8 * word ==> (#[trigger] between.locked.contains(word)
            <==> medium.locked.contains(word)),
        forall|word: int| 8 <= 8 * word < page ==> !#[trigger] between.locked.contains(word),
        ({
            let len = layout::padded_len(data.len() as int);
            let start = layout::write_head_of(base);
            let plan = layout::plan(base, page, start, len);
            &&& start + len <= base.len()
            &&& layout::stored(between, next, page, plan, data)
            &&& plan.pos == layout::plan(medium.bytes, page, head, len).pos
        }),
{
    let bytes = medium.bytes;
    let len = layout::padded_len(data.len() as int);
    layout::lemma_whole_words(bytes, page);
    layout::lemma_restart_head(bytes, page);
    let m = layout::magic();
    assert(m[0] == 0xFE && m[1] == 0xED && m[2] == 0xBE && m[3] == 0xEF);
    assert(m[4] == 0xCA && m[5] == 0xFE && m[6] == 0xBA && m[7] == 0xBE);
    assert forall|i: int| 0 <= i < base.len() implies base[i] == layout::restarted(bytes, page)[i] by {
        if i < 8 {
            assert(i == 0 || i == 1 || i == 2 || i == 3 || i == 4 || i == 5 || i == 6 || i == 7);
        }
    }
    assert(base =~= layout::restarted(bytes, page));
    assert(layout::restarted(base, page) =~= base);
    let start = layout::write_head_of(base);
    let ours = layout::plan(bytes, page, head, len);
    let plan = layout::plan(base, page, start, len);
    layout::lemma_plan(bytes, page, head, len);
    assert(start + len <= base.len());
    assert(ours == layout::Plan { wraps: true, ..plan }) by {
        reveal(layout::plan);
    }
    assert(layout::prepared(base, page, plan) =~= layout::prepared(bytes, page, ours));
    Medium {
        bytes: base,
        locked: Set::new(
            |word: int|
                if 0 <= 8 * word < page {
                    word == 0 && next.locked.contains(0)
                } else {
                    medium.locked.contains(word)
                },
        ),
        ..medium
    }
}

/// A storage whose locked words all hold something takes every slice that has a
/// place in it.
#[verifier::spinoff_prover]
#[verifier::rlimit(60)]
pub proof fn law_slices_taken(medium: Medium, page: int, head: int, data: Seq<u8>)
    requires
        layout::paged(medium.bytes, page),
        8 <= head <= medium.bytes.len(),
        head % 8 == 0,
        0 < data.len(),
        layout::accepts(medium.bytes.len() as int, page, data.len() as int),
        forall|word: int| #[trigger]
            medium.locked.contains(word) ==> !all_ones(medium.bytes, 8 * word, 8 * word + 8),
    ensures
        ({
            let len = layout::padded_len(data.len() as int);
            layout::place_writable(
                medium,
                page,
                layout::plan(medium.bytes, page, head, len),
                len,
            )
        }),
{
    let len = layout::padded_len(data.len() as int);
    let plan = layout::plan(medium.bytes, page, head, len);
    layout::lemma_whole_words(medium.bytes, page);
    layout::lemma_plan(medium.bytes, page, head, len);
    let room = layout::prepared(medium.bytes, page, plan);
    if !plan.clears {
        assert forall|word: int| #[trigger]
            medium.locked.contains(word) && storage::programs(plan.pos, len, word) implies plan.wraps
            && 8 * word < page by {
            if !(plan.wraps && 8 * word < page) {
                assert(all_ones(medium.bytes, 8 * word, 8 * word + 8)) by {
                    assert forall|i: int| 8 * word <= i < 8 * word + 8 implies #[trigger] medium.bytes[i]
                        == 0xFFu8 by {
                        assert(room[i] == COBS_SENTINEL_BYTE);
                        assert(room[i] == medium.bytes[i]);
                    }
                }
            }
        }
    }
}

/// A slice has a place exactly where it fits in a page, and beside the magic
/// word where there is but one page.
pub proof fn law_which_slices_fit(capacity: int, page: int, len: int)
    requires
        0 < page <= capacity,
        page % 8 == 0,
        0 <= len,
    ensures
        layout::accepts(capacity, page, len) <==> len <= page && (page < capacity || len <= page
            - 8),
        len <= layout::padded_len(len) < len + 8,
        layout::padded_len(len) % 8 == 0,
{
}

/// Reading stops at a frame only where that frame does not fit in what is left
/// of the room.
pub proof fn law_next_frame_does_not_fit(list: Seq<Seq<u8>>, room: int)
    requires
        0 <= room,
        frames::fitting(list, room) < list.len(),
    ensures
        ({
            let count = frames::fitting(list, room) as int;
            frames::delimited(list.take(count)).len() + list[count].len() + 1 > room
        }),
    decreases list.len(),
{
    let count = frames::fitting(list, room) as int;
    if count == 0 {
        assert(frames::delimited(list.take(0)).len() == 0);
    } else {
        let left = room - list[0].len() - 1;
        law_next_frame_does_not_fit(list.skip(1), left);
        assert(list.take(count).skip(1) =~= list.skip(1).take(count - 1));
        assert(list.skip(1)[count - 1] == list[count]);
    }
}

/// What is read of one frame is its bytes and one 0xFF behind them.
pub proof fn law_one_frame_read(frame: Seq<u8>)
    ensures
        frames::delimited(seq![frame]) == frame.push(0xFFu8),
{
    assert(seq![frame].skip(1) =~= Seq::empty());
    assert(frames::delimited(seq![frame].skip(1)) =~= Seq::empty());
    assert(frames::delimited(seq![frame]) =~= frame.push(0xFFu8));
}

/// Bytes that no 0xFF ends are no frame.
pub proof fn law_unended_not_read(bytes: Seq<u8>, from: int)
    requires
        0 <= from <= bytes.len(),
        forall|i: int| from <= i < bytes.len() ==> #[trigger] bytes[i] != 0xFFu8,
    ensures
        frames::frames(bytes, from).len() == 0,
{
    let start = frames::frame_start(bytes, from);
    let end = frames::frame_end(bytes, from);
    frames::lemma_seek(bytes, from, false);
    frames::lemma_seek(bytes, start, true);
    if end < bytes.len() {
        assert(bytes[end] == COBS_SENTINEL_BYTE);
    }
}

/// An erase of `from..=to` clears all from `from` up to the end of the page of
/// `to`, and nothing else; the words there can be written again, and no others
/// are locked or unlocked.
pub proof fn law_erase_clears_pages(
    medium: Medium,
    next: Medium,
    page: int,
    from: int,
    to: int,
    i: int,
)
    requires
        0 < page,
        page % 8 == 0,
        0 <= from <= to,
        from % page == 0,
        0 <= i < medium.bytes.len(),
        medium.erased(next, from, storage::erase_end(from, to, page)),
    ensures
        next.bytes.len() == medium.bytes.len(),
        from <= i && i / page <= to / page ==> next.bytes[i] == 0xFFu8 && !next.locked.contains(
            i / 8,
        ),
        i < from || i / page > to / page ==> next.bytes[i] == medium.bytes[i] && (
        next.locked.contains(i / 8) <==> medium.locked.contains(i / 8)),
{
    let end = (to / page + 1) * page;
    vstd::arithmetic::div_mod::lemma_fundamental_div_mod(i, page);
    vstd::arithmetic::div_mod::lemma_fundamental_div_mod(from, page);
    let q = i / page;
    let t = to / page;
    if q <= t {
        assert(i < end) by (nonlinear_arith)
            requires
                q <= t,
                i == page * q + i % page,
                i % page < page,
                end == (t + 1) * page,
                0 < page,
        ;
    } else {
        assert(end <= i) by (nonlinear_arith)
            requires
                q >= t + 1,
                i == page * q + i % page,
                0 <= i % page,
                end == (t + 1) * page,
                0 < page,
        ;
    }
    let n = page / 8;
    assert(end == 8 * (n * (t + 1))) by (nonlinear_arith)
        requires
            page == 8 * n,
            end == (t + 1) * page,
    ;
    let f = from / page;
    assert(from == 8 * (n * f)) by (nonlinear_arith)
        requires
            page == 8 * n,
            from == page * f,
    ;
}

/// A write that starts at a word programs exactly the words that hold a byte of it.
pub proof fn law_programmed_words(offset: int, len: int, word: int)
    requires
        0 <= offset,
        offset % 8 == 0,
        0 <= len,
    ensures
        storage::programs(offset, len, word) <==> exists|i: int|
            offset <= i < offset + len && #[trigger] (i / 8) == word,
{
    if storage::programs(offset, len, word) {
        let i = 8 * word;
        assert(offset <= i < offset + len && i / 8 == word);
    }
}

} // verus!
