//! Consistent Overhead Byte Stuffing: the mathematics behind
//! [`cobs`](crate::cobs).
//!
//! A message is cut into blocks of up to 254 bytes that are not zero. Each
//! block is led by its code byte, which is one more than its length; a zero of
//! the message follows every block but the last, unless the block is of full
//! length. Where a block of full length ends the message, there is no other
//! block behind it.
use vstd::prelude::*;

verus! {

/// An encoded message in the making.
#[verifier::ext_equal]
pub struct Frame {
    /// The blocks that are complete, with their code bytes.
    pub closed: Seq<u8>,
    /// The bytes of the block that is not.
    pub tail: Seq<u8>,
    /// Whether a block of full length is the last that is complete, and no
    /// byte of the message has followed it.
    pub full: bool,
}

impl Frame {
    /// The frame of the empty message.
    pub open spec fn empty() -> Frame {
        Frame { closed: Seq::empty(), tail: Seq::empty(), full: false }
    }

    /// The frame with the block that is not complete completed.
    pub open spec fn completed(self) -> Seq<u8> {
        self.closed + seq![(self.tail.len() + 1) as u8] + self.tail
    }

    /// The encoding of the message so far: behind a block of full length no
    /// other block is needed to end it.
    pub open spec fn closing(self) -> Seq<u8> {
        if self.full {
            self.closed
        } else {
            self.completed()
        }
    }

    /// The frame with one more byte of the message.
    pub open spec fn put(self, byte: u8) -> Frame {
        if byte == 0 {
            Frame { closed: self.completed(), tail: Seq::empty(), full: false }
        } else {
            let next = Frame { closed: self.closed, tail: self.tail.push(byte), full: false };
            if self.tail.len() == 253 {
                Frame { closed: next.completed(), tail: Seq::empty(), full: true }
            } else {
                next
            }
        }
    }

    /// The frame with more bytes of the message.
    pub open spec fn put_all(self, message: Seq<u8>) -> Frame
        decreases message.len(),
    {
        if message.len() == 0 {
            self
        } else {
            self.put_all(message.drop_last()).put(message.last())
        }
    }

    /// Number of bytes of the frame, with a code byte for the block that is not
    /// complete.
    pub open spec fn len(self) -> nat {
        self.closed.len() + 1 + self.tail.len()
    }

    /// Whether the block that is not complete is shorter than a full one.
    pub open spec fn valid(self) -> bool {
        self.tail.len() <= 253 && (self.full ==> self.tail.len() == 0)
    }

    /// Whether a buffer of `room` bytes takes one more byte: the code byte that
    /// a zero completes, or the byte itself.
    pub open spec fn takes(self, byte: u8, room: int) -> bool {
        if byte == 0 {
            self.closed.len() < room
        } else {
            self.len() < room
        }
    }

    /// The number of bytes of `message` that a buffer of `room` bytes takes.
    pub open spec fn taken(self, message: Seq<u8>, room: int) -> int
        decreases message.len(),
    {
        if message.len() == 0 || !self.takes(message[0], room) {
            0
        } else {
            1 + self.put(message[0]).taken(message.skip(1), room)
        }
    }
}

/// The encoding of a message.
pub open spec fn encoded(message: Seq<u8>) -> Seq<u8> {
    Frame::empty().put_all(message).closing()
}

/// Where the decoder stands.
#[derive(Debug, Clone, Copy, PartialEq, Eq, Structural)]
pub enum DecoderState {
    /// State machine has not received any non-zero bytes
    Idle,
    /// 1-254 bytes, can be header or 00
    Grab(u8),
    /// 255 bytes, will be a header next
    GrabChain(u8),
    /// Prevent re-using the state machine
    ErrOrComplete,
}

/// What the decoder makes of a byte.
#[derive(Debug, Clone, Copy, PartialEq, Eq, Structural)]
pub enum Step {
    /// Nothing to put out.
    More,
    /// A byte to put out.
    Emit(u8),
    /// The message is complete.
    Complete,
    /// The message is malformed.
    Fail,
}

impl DecoderState {
    /// The state behind a code byte.
    pub open spec fn after_code(code: u8) -> DecoderState {
        if code == 0xFF {
            DecoderState::GrabChain(0xFE)
        } else {
            DecoderState::Grab((code - 1) as u8)
        }
    }

    /// What the decoder makes of `byte`.
    pub open spec fn step(self, byte: u8) -> Step {
        match self {
            DecoderState::Idle => Step::More,
            DecoderState::Grab(left) => if byte == 0 {
                if left == 0 {
                    Step::Complete
                } else {
                    Step::Fail
                }
            } else if left == 0 {
                Step::Emit(0)
            } else {
                Step::Emit(byte)
            },
            DecoderState::GrabChain(left) => if byte == 0 {
                if left == 0 {
                    Step::Complete
                } else {
                    Step::Fail
                }
            } else if left == 0 {
                Step::More
            } else {
                Step::Emit(byte)
            },
            DecoderState::ErrOrComplete => Step::Fail,
        }
    }

    /// The state behind `byte`.
    pub open spec fn next(self, byte: u8) -> DecoderState {
        match self {
            DecoderState::Idle => if byte == 0 {
                self
            } else {
                Self::after_code(byte)
            },
            DecoderState::Grab(left) => if byte == 0 {
                DecoderState::ErrOrComplete
            } else if left == 0 {
                Self::after_code(byte)
            } else {
                DecoderState::Grab((left - 1) as u8)
            },
            DecoderState::GrabChain(left) => if byte == 0 {
                DecoderState::ErrOrComplete
            } else if left == 0 {
                Self::after_code(byte)
            } else {
                DecoderState::GrabChain((left - 1) as u8)
            },
            DecoderState::ErrOrComplete => self,
        }
    }
}

/// The next state of the decoder, and what it makes of the byte.
pub fn advance(state: DecoderState, data: u8) -> (r: (DecoderState, Step))
    ensures
        r.0 == state.next(data),
        r.1 == state.step(data),
{
    match state {
        // Currently Idle, received a terminator, ignore, stay idle
        DecoderState::Idle => if data == 0 {
            (DecoderState::Idle, Step::More)
        } else {
            // Received a byte indicating where the next run of bytes ends
            (after_code(data), Step::More)
        },
        DecoderState::Grab(left) => if left == 0 {
            if data == 0 {
                // We have reached the end of a data run indicated by an overhead
                // byte, AND we have received the message terminator. This was a
                // well framed message!
                (DecoderState::ErrOrComplete, Step::Complete)
            } else {
                // We will treat this byte as a modified sentinel byte. Place the
                // sentinel byte in the output, and begin processing the next
                // non-sentinel sequence
                (after_code(data), Step::Emit(0))
            }
        } else if data == 0 {
            // We were not expecting the sequence to terminate, but here we are.
            (DecoderState::ErrOrComplete, Step::Fail)
        } else {
            // We have not yet reached the end of a data run, decrement the run
            // counter, and place the byte into the decoded output
            (DecoderState::Grab(left - 1), Step::Emit(data))
        },
        DecoderState::GrabChain(left) => if left == 0 {
            if data == 0 {
                // A well framed message
                (DecoderState::ErrOrComplete, Step::Complete)
            } else {
                // Begin another data run without a sentinel in between
                (after_code(data), Step::More)
            }
        } else if data == 0 {
            // We were not expecting the sequence to terminate, but here we are.
            (DecoderState::ErrOrComplete, Step::Fail)
        } else {
            (DecoderState::GrabChain(left - 1), Step::Emit(data))
        },
        // When we have errored or successfully completed decoding a message,
        // latch this state to prevent confusion
        DecoderState::ErrOrComplete => (DecoderState::ErrOrComplete, Step::Fail),
    }
}

/// The state behind a code byte.
fn after_code(code: u8) -> (r: DecoderState)
    requires
        code != 0,
    ensures
        r == DecoderState::after_code(code),
{
    if code == 0xFF {
        // The next 254 bytes are unmodified data bytes, then comes an overhead byte
        DecoderState::GrabChain(0xFE)
    } else {
        // There will be a zero that must be modified in the next 1..=254 bytes
        DecoderState::Grab(code - 1)
    }
}

/// How a run of the decoder ends.
pub enum End {
    /// The input is used up, and more is needed.
    More,
    /// The message is complete, with this number of bytes used.
    Complete(nat),
    /// The message is malformed.
    Fail,
    /// There is no room for the next byte of the message.
    Full,
}

/// A run of the decoder over some input.
pub struct Walk {
    /// The state in which it ends.
    pub state: DecoderState,
    /// The bytes that are put out.
    pub out: Seq<u8>,
    /// How it ends.
    pub end: End,
}

/// The run of the decoder from `state` over `input` with `room` bytes for its output.
pub open spec fn walk(state: DecoderState, input: Seq<u8>, room: int) -> Walk
    decreases input.len(),
{
    if input.len() == 0 {
        Walk { state, out: Seq::empty(), end: End::More }
    } else {
        let next = state.next(input[0]);
        match state.step(input[0]) {
            Step::More => {
                let rest = walk(next, input.skip(1), room);
                Walk { end: one_more(rest.end), ..rest }
            },
            Step::Emit(byte) => if room <= 0 {
                Walk { state: DecoderState::ErrOrComplete, out: Seq::empty(), end: End::Full }
            } else {
                let rest = walk(next, input.skip(1), room - 1);
                Walk { end: one_more(rest.end), out: seq![byte] + rest.out, ..rest }
            },
            Step::Complete => Walk { state: next, out: Seq::empty(), end: End::Complete(1) },
            Step::Fail => Walk { state: next, out: Seq::empty(), end: End::Fail },
        }
    }
}

/// The end of a run that has used one more byte before.
pub open spec fn one_more(end: End) -> End {
    match end {
        End::Complete(used) => End::Complete(used + 1),
        other => other,
    }
}

/// What `input` decodes to as a sequence of blocks, or nothing where it is malformed.
pub open spec fn blocks(input: Seq<u8>) -> Option<Seq<u8>>
    decreases input.len(), 0int,
{
    if input.len() == 0 || input[0] == 0 || input.len() < input[0] || input.subrange(
        1,
        input[0] as int,
    ).contains(0) {
        None
    } else {
        let code = input[0] as int;
        after_block(input.subrange(1, code), code == 0xFF, input.skip(code))
    }
}

/// What a block and the blocks behind it decode to.
pub open spec fn after_block(block: Seq<u8>, full: bool, rest: Seq<u8>) -> Option<Seq<u8>>
    decreases rest.len(), 1int,
{
    if rest.len() == 0 {
        Some(block)
    } else {
        match blocks(rest) {
            Some(message) => Some(block + gap(full) + message),
            None => None,
        }
    }
}

/// What a block stands for beside its bytes.
pub open spec fn gap(full: bool) -> Seq<u8> {
    if full {
        Seq::empty()
    } else {
        seq![0u8]
    }
}

/// The message that `source` encodes, or nothing where it is malformed. Zeros
/// before the first block are skipped.
pub open spec fn decoded(source: Seq<u8>) -> Option<Seq<u8>>
    decreases source.len(),
{
    if source.len() > 0 && source[0] == 0 {
        decoded(source.skip(1))
    } else {
        blocks(source)
    }
}

/// What the rest of a block of which `left` bytes are missing decodes to, with
/// the blocks behind it.
spec fn pending(left: int, full: bool, input: Seq<u8>) -> Option<Seq<u8>> {
    if left < 0 || input.len() < left || input.take(left).contains(0) {
        None
    } else {
        after_block(input.take(left), full, input.skip(left))
    }
}

/// The state in which `left` bytes of a block are missing.
spec fn in_block(left: int, full: bool) -> DecoderState {
    if full {
        DecoderState::GrabChain(left as u8)
    } else {
        DecoderState::Grab(left as u8)
    }
}

proof fn lemma_blocks(input: Seq<u8>)
    requires
        input.len() > 0,
        input[0] != 0,
    ensures
        blocks(input) == pending(input[0] - 1, input[0] == 0xFF, input.skip(1)),
{
    let code = input[0] as int;
    if input.len() >= code {
        assert(input.skip(1).take(code - 1) =~= input.subrange(1, code));
        assert(input.skip(1).skip(code - 1) =~= input.skip(code));
    }
}

proof fn lemma_walk_block(left: int, full: bool, input: Seq<u8>, room: int)
    requires
        0 <= left <= 254,
        0 <= room,
    ensures
        ({
            let w = walk(in_block(left, full), input.push(0), room);
            match pending(left, full, input) {
                Some(message) => if message.len() <= room {
                    w.end == End::Complete(input.len() + 1) && w.out == message
                } else {
                    w.end == End::Full
                },
                None => w.end != End::Complete(input.len() + 1),
            }
        }),
    decreases input.len(),
{
    let state = in_block(left, full);
    let all = input.push(0);
    if input.len() == 0 {
        if left == 0 {
            assert(pending(left, full, input) == Some(input.take(0)));
            assert(walk(state, all, room).out =~= input.take(0));
        }
    } else {
        let byte = input[0];
        let rest = input.skip(1);
        assert(all[0] == byte);
        assert(all.skip(1) =~= rest.push(0));
        if left > 0 {
            if byte == 0 {
                if input.len() >= left {
                    assert(input.take(left)[0] == 0);
                }
            } else {
                lemma_pending_step(left, full, input);
                if room > 0 {
                    lemma_walk_block(left - 1, full, rest, room - 1);
                }
                if let Some(message) = pending(left - 1, full, rest) {
                    if message.len() < room {
                        assert(walk(state, all, room).out =~= seq![byte] + message);
                    }
                }
            }
        } else {
            assert(input.take(0) =~= Seq::empty());
            assert(input.skip(0) =~= input);
            if byte != 0 {
                lemma_blocks(input);
                if full {
                    lemma_walk_block(byte - 1, byte == 0xFF, rest, room);
                    if let Some(message) = blocks(input) {
                        assert(input.take(0) + gap(full) + message =~= message);
                    }
                } else {
                    if room > 0 {
                        lemma_walk_block(byte - 1, byte == 0xFF, rest, room - 1);
                    }
                    if let Some(message) = blocks(input) {
                        assert(input.take(0) + gap(full) + message =~= seq![0u8] + message);
                    }
                }
            }
        }
    }
}

proof fn lemma_pending_step(left: int, full: bool, input: Seq<u8>)
    requires
        0 < left,
        input.len() > 0,
        input[0] != 0,
    ensures
        pending(left, full, input) == match pending(left - 1, full, input.skip(1)) {
            Some(message) => Some(seq![input[0]] + message),
            None => None,
        },
{
    let rest = input.skip(1);
    if input.len() >= left {
        let part = rest.take(left - 1);
        assert(input.take(left) =~= seq![input[0]] + part);
        assert(rest.skip(left - 1) =~= input.skip(left));
        if input.take(left).contains(0) {
            let i = choose|i: int| 0 <= i < left && input.take(left)[i] == 0;
            assert(part[i - 1] == 0);
        }
        if part.contains(0) {
            let i = choose|i: int| 0 <= i < part.len() && part[i] == 0;
            assert(input.take(left)[i + 1] == 0);
        }
        if let Some(message) = blocks(input.skip(left)) {
            assert(input.take(left) + gap(full) + message =~= seq![input[0]] + (part + gap(
                full,
            ) + message));
        }
    }
}

/// A run puts out no more than there is room and input for, and uses no more
/// than its input.
pub proof fn lemma_walk_bounds(state: DecoderState, input: Seq<u8>, room: int)
    requires
        0 <= room,
    ensures
        walk(state, input, room).out.len() <= room,
        walk(state, input, room).out.len() <= input.len(),
        walk(state, input, room).end matches End::Complete(used) ==> 1 <= used <= input.len(),
    decreases input.len(),
{
    if input.len() > 0 {
        let next = state.next(input[0]);
        match state.step(input[0]) {
            Step::More => {
                lemma_walk_bounds(next, input.skip(1), room);
            },
            Step::Emit(_) => {
                if room > 0 {
                    lemma_walk_bounds(next, input.skip(1), room - 1);
                }
            },
            _ => {},
        }
    }
}

/// Feeding the decoder in parts is feeding it the whole input: a run over two
/// inputs is a run over the first and, where that uses up its input, one over
/// the second.
pub proof fn law_walk_in_parts(state: DecoderState, input: Seq<u8>, more: Seq<u8>, room: int)
    ensures
        ({
            let all = walk(state, input + more, room);
            let first = walk(state, input, room);
            let second = walk(first.state, more, room - first.out.len());
            if first.end is More {
                &&& all.state == second.state
                &&& all.out == first.out + second.out
                &&& all.end == match second.end {
                    End::Complete(used) => End::Complete(used + input.len()),
                    other => other,
                }
            } else {
                all == first
            }
        }),
    decreases input.len(),
{
    let all = walk(state, input + more, room);
    let first = walk(state, input, room);
    let second = walk(first.state, more, room - first.out.len());
    if input.len() == 0 {
        assert(input + more =~= more);
        assert(all.out =~= first.out + second.out);
    } else {
        assert((input + more).skip(1) =~= input.skip(1) + more);
        let next = state.next(input[0]);
        match state.step(input[0]) {
            Step::More => {
                law_walk_in_parts(next, input.skip(1), more, room);
            },
            Step::Emit(byte) => {
                if room > 0 {
                    law_walk_in_parts(next, input.skip(1), more, room - 1);
                    if first.end is More {
                        assert(all.out =~= first.out + second.out);
                    }
                }
            },
            _ => {},
        }
    }
}

/// The decoder, given a message and the zero that ends it, puts out what the
/// message decodes to, where there is room for it, and finds every message
/// malformed that decodes to nothing.
pub proof fn lemma_walk_decodes(source: Seq<u8>, room: int)
    requires
        0 <= room,
    ensures
        ({
            let w = walk(DecoderState::Idle, source.push(0), room);
            match decoded(source) {
                Some(message) => if message.len() <= room {
                    w.end == End::Complete(source.len() + 1) && w.out == message
                } else {
                    w.end == End::Full
                },
                None => w.end != End::Complete(source.len() + 1),
            }
        }),
    decreases source.len(),
{
    let all = source.push(0);
    if source.len() == 0 {
        assert(walk(DecoderState::Idle, all.skip(1), room).end == End::More);
    } else {
        let rest = source.skip(1);
        assert(all[0] == source[0]);
        assert(all.skip(1) =~= rest.push(0));
        if source[0] == 0 {
            lemma_walk_decodes(rest, room);
        } else {
            lemma_blocks(source);
            lemma_walk_block(source[0] - 1, source[0] == 0xFF, rest, room);
        }
    }
}

/// Blocks in front of others decode to their part of the message.
proof fn lemma_closed_blocks(message: Seq<u8>, input: Seq<u8>, later: Seq<u8>)
    requires
        blocks(input) == Some(later),
    ensures
        ({
            let frame = Frame::empty().put_all(message);
            &&& frame.valid()
            &&& !frame.tail.contains(0)
            &&& frame.tail.len() <= message.len()
            &&& frame.tail == message.skip(message.len() - frame.tail.len())
            &&& blocks(frame.closed + input) == Some(
                message.take(message.len() - frame.tail.len()) + later,
            )
        }),
    decreases message.len(),
{
    let frame = Frame::empty().put_all(message);
    if message.len() == 0 {
        assert(frame.closed + input =~= input);
        assert(message.take(0) + later =~= later);
        assert(frame.tail =~= message.skip(0));
    } else {
        let before = message.drop_last();
        let byte = message.last();
        let old_frame = Frame::empty().put_all(before);
        lemma_closed_blocks(before, input, later);
        let head = before.take(before.len() - old_frame.tail.len());
        assert(before =~= head + old_frame.tail);
        assert(message =~= before.push(byte));
        if byte == 0 {
            let block = seq![(old_frame.tail.len() + 1) as u8] + old_frame.tail;
            lemma_block(old_frame.tail, input, later);
            lemma_closed_blocks(before, block + input, old_frame.tail + gap(false) + later);
            assert(frame.closed + input =~= old_frame.closed + (block + input));
            assert(head + (old_frame.tail + gap(false) + later) =~= message + later);
            assert(message.take(message.len() as int) =~= message);
            assert(frame.tail =~= message.skip(message.len() as int));
        } else if old_frame.tail.len() == 253 {
            let full = old_frame.tail.push(byte);
            let block = seq![255u8] + full;
            lemma_no_zero_push(old_frame.tail, byte);
            lemma_block(full, input, later);
            lemma_closed_blocks(before, block + input, full + gap(true) + later);
            assert(frame.closed + input =~= old_frame.closed + (block + input));
            assert(head + (full + gap(true) + later) =~= message + later);
            assert(message.take(message.len() as int) =~= message);
            assert(frame.tail =~= message.skip(message.len() as int));
        } else {
            lemma_no_zero_push(old_frame.tail, byte);
            assert(message.take(message.len() - frame.tail.len()) =~= head);
            assert(frame.tail =~= message.skip(message.len() - frame.tail.len()));
        }
    }
}

proof fn lemma_no_zero_push(bytes: Seq<u8>, byte: u8)
    requires
        !bytes.contains(0),
        byte != 0,
    ensures
        !bytes.push(byte).contains(0),
{
    if bytes.push(byte).contains(0) {
        let i = choose|i: int| 0 <= i < bytes.push(byte).len() && bytes.push(byte)[i] == 0;
        assert(bytes[i] == 0);
    }
}

/// One block in front of others.
proof fn lemma_block(block: Seq<u8>, input: Seq<u8>, later: Seq<u8>)
    requires
        block.len() <= 254,
        !block.contains(0),
        blocks(input) == Some(later),
    ensures
        blocks(seq![(block.len() + 1) as u8] + block + input) == Some(
            block + gap(block.len() == 254) + later,
        ),
{
    let all = seq![(block.len() + 1) as u8] + block + input;
    let code = (block.len() + 1) as int;
    assert(all.subrange(1, code) =~= block);
    assert(all.skip(code) =~= input);
    assert(input.len() > 0);
}

/// Decoding an encoded message gives back the message.
pub proof fn law_decode_encoded(message: Seq<u8>)
    ensures
        decoded(encoded(message)) == Some(message),
{
    let frame = Frame::empty().put_all(message);
    assert(seq![1u8].subrange(1, 1) =~= Seq::empty());
    assert(blocks(seq![1u8]) == Some(Seq::<u8>::empty()));
    lemma_closed_blocks(message, seq![1u8], Seq::empty());
    let last = seq![(frame.tail.len() + 1) as u8] + frame.tail;
    assert(last.subrange(1, last.len() as int) =~= frame.tail);
    assert(blocks(last) == Some(frame.tail));
    lemma_closed_blocks(message, last, frame.tail);
    assert(message.take(message.len() - frame.tail.len()) + frame.tail =~= message);
    if frame.full {
        let before = message.drop_last();
        let old_frame = Frame::empty().put_all(before);
        let block = old_frame.tail.push(message.last());
        let end = seq![255u8] + block;
        lemma_closed_blocks(before, seq![1u8], Seq::empty());
        lemma_no_zero_push(old_frame.tail, message.last());
        assert(end.subrange(1, 255) =~= block);
        assert(blocks(end) == Some(block));
        lemma_closed_blocks(before, end, block);
        assert(encoded(message) =~= old_frame.closed + end);
        assert(before.take(before.len() - old_frame.tail.len()) + block =~= message);
    } else {
        assert(encoded(message) =~= frame.closed + last);
    }
    law_encoded_free_of_zeros(message);
}

/// An encoded message holds no zero byte.
pub proof fn law_encoded_free_of_zeros(message: Seq<u8>)
    ensures
        !encoded(message).contains(0),
{
    lemma_frame_free_of_zeros(message);
    let frame = Frame::empty().put_all(message);
    assert forall|i: int| 0 <= i < encoded(message).len() implies #[trigger] encoded(message)[i]
        != 0 by {
        assert(encoded(message)[i] == frame.completed()[i]);
    }
}

proof fn lemma_frame_free_of_zeros(message: Seq<u8>)
    ensures
        Frame::empty().put_all(message).valid(),
        forall|i: int|
            0 <= i < Frame::empty().put_all(message).completed().len() ==> #[trigger] Frame::empty().put_all(
                message,
            ).completed()[i] != 0,
    decreases message.len(),
{
    if message.len() > 0 {
        lemma_frame_free_of_zeros(message.drop_last());
        let before = Frame::empty().put_all(message.drop_last());
        let frame = Frame::empty().put_all(message);
        assert(forall|i: int| 0 <= i < before.tail.len() ==> #[trigger] before.tail[i] != 0) by {
            assert forall|i: int| 0 <= i < before.tail.len() implies #[trigger] before.tail[i]
                != 0 by {
                assert(before.completed()[before.closed.len() + 1 + i] != 0);
            }
        }
        assert forall|i: int| 0 <= i < frame.completed().len() implies #[trigger] frame.completed()[i]
            != 0 by {
            if i < before.closed.len() {
                assert(before.completed()[i] != 0);
            } else if i < before.completed().len() {
                assert(before.completed()[i] != 0);
            }
        }
    }
}

/// Size of the largest encoding of `len` bytes: one byte more for every started
/// 254 bytes.
pub open spec fn max_encoded_len(len: nat) -> nat {
    len + len / 254 + if len % 254 > 0 {
        1nat
    } else {
        0
    }
}

/// No encoded message is longer than the largest encoding.
pub proof fn law_encoded_len(message: Seq<u8>)
    requires
        message.len() > 0,
    ensures
        message.len() < encoded(message).len() <= max_encoded_len(message.len()),
{
    lemma_closed_len(message);
}

proof fn lemma_closed_len(message: Seq<u8>)
    ensures
        ({
            let frame = Frame::empty().put_all(message);
            let rest = message.len() - frame.tail.len();
            &&& frame.valid()
            &&& rest >= 0
            &&& rest <= frame.closed.len()
            &&& 254 * (frame.closed.len() - rest) <= rest
            &&& frame.full ==> rest < frame.closed.len()
            &&& !frame.full && message.len() > 0 ==> 254 * (frame.closed.len() - rest)
                < message.len()
        }),
    decreases message.len(),
{
    if message.len() > 0 {
        let before = message.drop_last();
        lemma_closed_len(before);
    }
}

/// Encoding a message in parts is encoding the whole message.
pub proof fn law_put_in_parts(frame: Frame, message: Seq<u8>, more: Seq<u8>)
    ensures
        frame.put_all(message + more) == frame.put_all(message).put_all(more),
    decreases more.len(),
{
    if more.len() == 0 {
        assert(message + more =~= message);
    } else {
        law_put_in_parts(frame, message, more.drop_last());
        assert((message + more).drop_last() =~= message + more.drop_last());
        assert((message + more).last() == more.last());
    }
}

/// A buffer of the size of the largest encoding takes every message and its end.
pub proof fn law_room_suffices(message: Seq<u8>, room: int)
    requires
        message.len() > 0,
        max_encoded_len(message.len()) <= room,
    ensures
        Frame::empty().len() + message.len() <= room,
        Frame::empty().taken(message, room) == message.len(),
        encoded(message).len() <= room,
{
    law_encoded_len(message);
    assert forall|i: int| 0 <= i < message.len() implies Frame::empty().put_all(
        #[trigger] message.take(i),
    ).takes(message[i], room) by {
        lemma_closed_len(message.take(i));
    }
    lemma_taken(Frame::empty(), message, room);
}

proof fn lemma_taken(frame: Frame, message: Seq<u8>, room: int)
    requires
        forall|i: int|
            0 <= i < message.len() ==> frame.put_all(#[trigger] message.take(i)).takes(
                message[i],
                room,
            ),
    ensures
        frame.taken(message, room) == message.len(),
    decreases message.len(),
{
    if message.len() > 0 {
        let next = frame.put(message[0]);
        let rest = message.skip(1);
        assert(frame.put_all(message.take(0)) == frame);
        assert forall|i: int| 0 <= i < rest.len() implies next.put_all(
            #[trigger] rest.take(i),
        ).takes(rest[i], room) by {
            law_put_in_parts(frame, seq![message[0]], rest.take(i));
            assert(seq![message[0]] + rest.take(i) =~= message.take(i + 1));
            assert(seq![message[0]].drop_last() =~= Seq::empty());
            assert(frame.put_all(seq![message[0]].drop_last()) == frame);
            assert(frame.put_all(seq![message[0]]) == next);
        }
        lemma_taken(next, rest, room);
    }
}

/// Complete blocks in front of a message stay as they are.
proof fn lemma_behind_closed(closed: Seq<u8>, full: bool, message: Seq<u8>)
    ensures
        ({
            let frame = Frame { closed, tail: Seq::empty(), full }.put_all(message);
            let own = Frame::empty().put_all(message);
            &&& frame.closed == closed + own.closed
            &&& frame.tail == own.tail
            &&& frame.full == if message.len() == 0 {
                full
            } else {
                own.full
            }
        }),
    decreases message.len(),
{
    let frame = Frame { closed, tail: Seq::empty(), full }.put_all(message);
    let own = Frame::empty().put_all(message);
    if message.len() > 0 {
        lemma_behind_closed(closed, full, message.drop_last());
    }
    assert(frame.closed =~= closed + own.closed);
}

/// A block that is not complete is kept as it is.
proof fn lemma_open_block(block: Seq<u8>)
    requires
        block.len() <= 253,
        !block.contains(0),
    ensures
        Frame::empty().put_all(block) == (Frame { closed: Seq::empty(), tail: block, full: false }),
    decreases block.len(),
{
    if block.len() > 0 {
        let before = block.drop_last();
        if before.contains(0) {
            let i = choose|i: int| 0 <= i < before.len() && before[i] == 0;
            assert(block[i] == 0);
        }
        assert(block[block.len() - 1] != 0);
        lemma_open_block(before);
        assert(before.push(block.last()) =~= block);
    } else {
        assert(block =~= Seq::empty());
    }
}

/// Up to 253 bytes without a zero are led by their number and one.
pub proof fn law_encoded_block(block: Seq<u8>)
    requires
        block.len() <= 253,
        !block.contains(0),
    ensures
        encoded(block) == seq![(block.len() + 1) as u8] + block,
{
    lemma_open_block(block);
    assert(encoded(block) =~= seq![(block.len() + 1) as u8] + block);
}

/// A zero of the message ends a block, and the rest is encoded behind it.
pub proof fn law_encoded_zero(block: Seq<u8>, rest: Seq<u8>)
    requires
        block.len() <= 253,
        !block.contains(0),
    ensures
        encoded(block + seq![0u8] + rest) == seq![(block.len() + 1) as u8] + block + encoded(rest),
{
    let front = block.push(0);
    lemma_open_block(block);
    assert(front.drop_last() =~= block);
    let code = seq![(block.len() + 1) as u8] + block;
    let frame = Frame::empty().put_all(front);
    assert(frame.closed =~= code);
    assert(frame == Frame { closed: code, tail: Seq::empty(), full: false });
    law_put_in_parts(Frame::empty(), front, rest);
    assert(front + rest =~= block + seq![0u8] + rest);
    lemma_behind_closed(code, false, rest);
    assert(encoded(block + seq![0u8] + rest) =~= code + encoded(rest));
}

/// 254 bytes without a zero are a block of their own, led by 0xFF; what
/// follows them is encoded behind it, and nothing where nothing follows.
pub proof fn law_encoded_full_block(block: Seq<u8>, rest: Seq<u8>)
    requires
        block.len() == 254,
        !block.contains(0),
    ensures
        encoded(block + rest) == if rest.len() == 0 {
            seq![0xFFu8] + block
        } else {
            seq![0xFFu8] + block + encoded(rest)
        },
{
    let before = block.drop_last();
    if before.contains(0) {
        let i = choose|i: int| 0 <= i < before.len() && before[i] == 0;
        assert(block[i] == 0);
    }
    assert(block[253] != 0);
    lemma_open_block(before);
    assert(before.push(block.last()) =~= block);
    let code = seq![0xFFu8] + block;
    let frame = Frame::empty().put_all(block);
    assert(frame.closed =~= code);
    assert(frame == Frame { closed: code, tail: Seq::empty(), full: true });
    law_put_in_parts(Frame::empty(), block, rest);
    lemma_behind_closed(code, true, rest);
    if rest.len() == 0 {
        assert(encoded(block + rest) =~= code);
    } else {
        assert(encoded(block + rest) =~= code + encoded(rest));
    }
}

/// A block of `code - 1` bytes without a zero decodes to these bytes, with a
/// zero between them and what follows unless the code is 0xFF. What is cut
/// short, is empty or has a zero inside a block decodes to nothing.
pub proof fn law_decoded_block(code: u8, block: Seq<u8>, rest: Seq<u8>)
    requires
        code != 0,
        block.len() <= code - 1,
        block.len() < code - 1 ==> rest.len() == 0,
    ensures
        decoded(Seq::empty()) == None::<Seq<u8>>,
        ({
            let source = seq![code] + block + rest;
            if block.len() < code - 1 || block.contains(0) {
                decoded(source) == None::<Seq<u8>>
            } else if rest.len() == 0 {
                decoded(source) == Some(block)
            } else if rest[0] == 0 || decoded(rest) is None {
                decoded(source) == None::<Seq<u8>>
            } else if code == 0xFF {
                decoded(source) == Some(block + decoded(rest)->0)
            } else {
                decoded(source) == Some(block + seq![0u8] + decoded(rest)->0)
            }
        }),
{
    let source = seq![code] + block + rest;
    assert(source[0] == code);
    if block.len() == code - 1 {
        assert(source.subrange(1, code as int) =~= block);
        assert(source.skip(code as int) =~= rest);
        if rest.len() > 0 && rest[0] != 0 && decoded(rest) is Some && code == 0xFF {
            assert(block + gap(true) + decoded(rest)->0 =~= block + decoded(rest)->0);
        }
    }
}

} // verus!
