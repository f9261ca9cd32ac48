//! Log frames among bytes: runs of bytes, each ended by a separator.
use vstd::prelude::*;

use crate::storage::COBS_SENTINEL_BYTE;

verus! {

/// The first address from `from` on whose byte is a separator, or is none,
/// as `separator` says; the end where there is no such address.
pub open spec fn seek(bytes: Seq<u8>, from: int, separator: bool) -> int
    decreases bytes.len() - from,
{
    if from >= bytes.len() || (bytes[from] == COBS_SENTINEL_BYTE) == separator {
        from
    } else {
        seek(bytes, from + 1, separator)
    }
}

/// Start of the first frame from `from` on.
pub open spec fn frame_start(bytes: Seq<u8>, from: int) -> int {
    seek(bytes, from, false)
}

/// Address of the separator that ends the first frame from `from` on.
pub open spec fn frame_end(bytes: Seq<u8>, from: int) -> int {
    seek(bytes, frame_start(bytes, from), true)
}

/// The complete frames from `from` on, without their separators.
pub open spec fn frames(bytes: Seq<u8>, from: int) -> Seq<Seq<u8>>
    decreases bytes.len() - from,
{
    let start = frame_start(bytes, from);
    let end = frame_end(bytes, from);
    if from < 0 || end >= bytes.len() || end < from {
        Seq::empty()
    } else {
        seq![bytes.subrange(start, end)] + frames(bytes, end + 1)
    }
}

/// The bytes of `frames`, each followed by one separator.
pub open spec fn delimited(frames: Seq<Seq<u8>>) -> Seq<u8>
    decreases frames.len(),
{
    if frames.len() == 0 {
        Seq::empty()
    } else {
        frames[0].push(COBS_SENTINEL_BYTE) + delimited(frames.skip(1))
    }
}

/// The number of frames from `from` on that fit in `room` bytes with their
/// separators, up to the first that does not.
pub open spec fn fitting(frames: Seq<Seq<u8>>, room: int) -> nat
    decreases frames.len(),
{
    if frames.len() == 0 || frames[0].len() + 1 > room {
        0
    } else {
        1 + fitting(frames.skip(1), room - frames[0].len() - 1)
    }
}

/// Where reading goes on after `count` frames from `from` on: at the start of
/// the next frame.
pub open spec fn resume(bytes: Seq<u8>, from: int, count: nat) -> int
    decreases count,
{
    if count == 0 {
        frame_start(bytes, from)
    } else {
        resume(bytes, frame_end(bytes, from) + 1, (count - 1) as nat)
    }
}

/// What `seek` finds, and that there is nothing of the kind before it.
pub proof fn lemma_seek(bytes: Seq<u8>, from: int, separator: bool)
    requires
        0 <= from,
    ensures
        from <= seek(bytes, from, separator),
        from <= bytes.len() ==> seek(bytes, from, separator) <= bytes.len(),
        seek(bytes, from, separator) < bytes.len() ==> (bytes[seek(bytes, from, separator)]
            == COBS_SENTINEL_BYTE) == separator,
        forall|i: int|
            from <= i < seek(bytes, from, separator) && i < bytes.len() ==> (#[trigger] bytes[i]
                == COBS_SENTINEL_BYTE) != separator,
    decreases bytes.len() - from,
{
    if from < bytes.len() && (bytes[from] == COBS_SENTINEL_BYTE) != separator {
        lemma_seek(bytes, from + 1, separator);
    }
}

/// Reading one more frame that fits in `room` bytes.
pub proof fn lemma_next_frame(bytes: Seq<u8>, from: int, room: int)
    requires
        0 <= from,
        frame_end(bytes, from) < bytes.len(),
        frame_end(bytes, from) + 1 - frame_start(bytes, from) <= room,
    ensures
        ({
            let start = frame_start(bytes, from);
            let end = frame_end(bytes, from);
            let all = frames(bytes, from);
            let rest = frames(bytes, end + 1);
            let count = fitting(all, room);
            let left = fitting(rest, room - (end + 1 - start));
            &&& count == left + 1
            &&& delimited(all.take(count as int)) == bytes.subrange(start, end + 1) + delimited(
                rest.take(left as int),
            )
            &&& resume(bytes, from, count) == resume(bytes, end + 1, left)
        }),
{
    let start = frame_start(bytes, from);
    let end = frame_end(bytes, from);
    lemma_seek(bytes, from, false);
    lemma_seek(bytes, start, true);
    let all = frames(bytes, from);
    let rest = frames(bytes, end + 1);
    let count = fitting(all, room);
    let left = fitting(rest, room - (end + 1 - start));
    assert(all.skip(1) =~= rest);
    lemma_fitting(rest, room - (end + 1 - start));
    assert(all.take(count as int).skip(1) =~= rest.take(left as int));
    assert(all.take(count as int)[0] == bytes.subrange(start, end));
    assert(bytes.subrange(start, end).push(COBS_SENTINEL_BYTE) =~= bytes.subrange(start, end + 1));
}

/// Reading stops where no frame is complete, or where it does not fit in `room` bytes.
pub proof fn lemma_last_frame(bytes: Seq<u8>, from: int, room: int)
    requires
        0 <= from,
        frame_end(bytes, from) >= bytes.len() || frame_end(bytes, from) + 1 - frame_start(
            bytes,
            from,
        ) > room,
    ensures
        fitting(frames(bytes, from), room) == 0,
        delimited(frames(bytes, from).take(0)).len() == 0,
        resume(bytes, from, 0) == frame_start(bytes, from),
{
    lemma_seek(bytes, from, false);
    lemma_seek(bytes, frame_start(bytes, from), true);
}

/// No more frames fit than there are.
pub proof fn lemma_fitting(frames: Seq<Seq<u8>>, room: int)
    ensures
        fitting(frames, room) <= frames.len(),
    decreases frames.len(),
{
    if frames.len() != 0 {
        lemma_fitting(frames.skip(1), room - frames[0].len() - 1);
    }
}

} // verus!
