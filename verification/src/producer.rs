//! The writing end of the log.
use vstd::prelude::*;

use crate::packing;
use crate::queue;
use crate::queue::{QueueError, QueueProducer, WriteGrant, LOG_BUFFER_SIZE};
use crate::storage::COBS_SENTINEL_BYTE;
use crate::writer;
use crate::writer::BufWriter;

verus! {

/// Number of bytes that are set aside for one encoded frame.
pub const MAX_ENCODING_SIZE: usize = 512;

/// Encodes log messages into frames and puts them in the log buffer.
pub struct LogProducer {
    queue: Option<QueueProducer>,
    encoder: Option<rzcobs::Encoder<BufWriter>>,
}

/// What has become of a part of a message.
pub struct Encoding {
    /// What the encoder remembers: the length of the run that is not closed.
    pub run: u8,
    /// What the encoder remembers: the zeros of that run.
    pub zeros: u8,
    /// The bytes that have been written.
    pub out: Seq<u8>,
    /// Whether all of the part has been encoded.
    pub ok: bool,
}

/// The encoding of `bytes` by an encoder that remembers `run` and `zeros`, with
/// room for `room` bytes.
pub open spec fn encoding(run: u8, zeros: u8, room: int, bytes: Seq<u8>) -> Encoding
    decreases bytes.len(),
{
    if bytes.len() == 0 {
        Encoding { run, zeros, out: Seq::empty(), ok: true }
    } else {
        let (run1, zeros1, out, ok) = writer::stepped(run, zeros, room, bytes[0]);
        if ok {
            let rest = encoding(run1, zeros1, room - out.len(), bytes.skip(1));
            Encoding { out: out + rest.out, ..rest }
        } else {
            Encoding { run: run1, zeros: zeros1, out, ok }
        }
    }
}

/// The largest number of bytes that `len` more bytes of a message take when the
/// run that is not closed has `run` bytes: themselves, and one for every seven.
pub open spec fn largest(run: int, len: int) -> int {
    len + (len + run) / 7
}

/// What `bytes` take is bounded, and where there is room for that they are
/// encoded; they leave something to end.
pub proof fn law_room_for_message(run: u8, zeros: u8, room: int, bytes: Seq<u8>)
    requires
        0 <= room,
        writer::can_grow(run, room),
    ensures
        ({
            let done = encoding(run, zeros, room, bytes);
            let most = largest(run as int, bytes.len() as int);
            &&& done.out.len() <= most
            &&& done.out.len() <= room
            &&& room >= most ==> done.ok
            &&& !done.ok ==> done.out.len() == room
            &&& done.ok && bytes.len() > 0 ==> done.run > 0 || done.out.len() > 0
            &&& writer::can_grow(done.run, room - done.out.len())
        }),
    decreases bytes.len(),
{
    if bytes.len() > 0 {
        let (run1, zeros1, out, ok) = writer::stepped(run, zeros, room, bytes[0]);
        writer::lemma_stepped(run, zeros, room, bytes[0]);
        if ok {
            law_room_for_message(run1, zeros1, room - out.len(), bytes.skip(1));
        }
    }
}

/// What is written for `bytes` behind what has been `written` for `message`
/// stands for both.
pub proof fn law_message_packed(
    message: Seq<u8>,
    written: Seq<u8>,
    run: u8,
    zeros: u8,
    room: int,
    bytes: Seq<u8>,
)
    requires
        packing::packs(message, written, run, zeros),
        encoding(run, zeros, room, bytes).ok,
    ensures
        ({
            let done = encoding(run, zeros, room, bytes);
            packing::packs(message + bytes, written + done.out, done.run, done.zeros)
        }),
    decreases bytes.len(),
{
    let done = encoding(run, zeros, room, bytes);
    if bytes.len() == 0 {
        assert(message + bytes =~= message);
        assert(written + done.out =~= written);
    } else {
        let (run1, zeros1, out, _) = writer::stepped(run, zeros, room, bytes[0]);
        packing::lemma_packed_byte(message, written, run, zeros, room, bytes[0]);
        law_message_packed(
            message.push(bytes[0]),
            written + out,
            run1,
            zeros1,
            room - out.len(),
            bytes.skip(1),
        );
        assert(message.push(bytes[0]) + bytes.skip(1) =~= message + bytes);
        let rest = encoding(run1, zeros1, room - out.len(), bytes.skip(1));
        assert((written + out) + rest.out =~= written + done.out);
    }
}

/// A frame that has just been begun stands for the empty message.
pub proof fn law_nothing_packed()
    ensures
        packing::packs(Seq::empty(), Seq::empty(), 0, 0),
{
    assert((1u8 << 0u8) == 1u8) by (bit_vector);
    let none = Seq::<u8>::empty();
    assert(none.take(0) =~= none);
    assert(none + packing::run_bytes(0, 0, none.skip(0)) =~= none);
}

/// Every byte of a frame but its separator is the byte that the encoder has
/// written at that place, XORed with 0xFF, whatever it is; the separator is 0xFF.
pub proof fn law_frame_xored(written: Seq<u8>, run: u8, zeros: u8, room: int, i: int)
    requires
        sealed(written, run, zeros, room) is Some,
        0 <= i < written.len() + writer::ended(run, zeros, room).0.len(),
    ensures
        ({
            let frame = sealed(written, run, zeros, room)->0;
            let out = writer::ended(run, zeros, room).0;
            &&& frame.len() == written.len() + out.len() + 1
            &&& frame[i] == (written + out)[i] ^ 0xFFu8
            &&& frame[i] ^ 0xFFu8 == (written + out)[i]
            &&& frame[frame.len() - 1] == 0xFFu8
        }),
{
    let byte = (written + writer::ended(run, zeros, room).0)[i];
    assert((byte ^ 0xFFu8) ^ 0xFFu8 == byte) by (bit_vector);
}

/// Reading a frame back, by XORing every byte before its separator with 0xFF,
/// gives what stands for its message with up to six zeros behind it.
pub proof fn law_frame_read_back(
    message: Seq<u8>,
    written: Seq<u8>,
    run: u8,
    zeros: u8,
    room: int,
)
    requires
        packing::packs(message, written, run, zeros),
        sealed(written, run, zeros, room) is Some,
    ensures
        ({
            let frame = sealed(written, run, zeros, room)->0;
            packing::stands_for(
                Seq::new((frame.len() - 1) as nat, |i: int| frame[i] ^ 0xFFu8),
                message,
            )
        }),
{
    let frame = sealed(written, run, zeros, room)->0;
    let all = written + writer::ended(run, zeros, room).0;
    let read = Seq::new((frame.len() - 1) as nat, |i: int| frame[i] ^ 0xFFu8);
    assert forall|i: int| 0 <= i < all.len() implies #[trigger] read[i] == all[i] by {
        law_frame_xored(written, run, zeros, room, i);
    }
    assert(read =~= all);
    packing::lemma_packed_end(message, written, run, zeros, room);
}

/// A frame without its separator, with every bit turned over again, stands for
/// its message with up to six zeros behind it.
pub proof fn law_frame_stands_for_message(
    message: Seq<u8>,
    written: Seq<u8>,
    run: u8,
    zeros: u8,
    room: int,
)
    requires
        packing::packs(message, written, run, zeros),
        sealed(written, run, zeros, room) is Some,
    ensures
        packing::stands_for(
            masked(sealed(written, run, zeros, room)->0.drop_last()),
            message,
        ),
{
    law_frame_unsealed(written, run, zeros, room);
    packing::lemma_packed_end(message, written, run, zeros, room);
}

/// Encoding a message in parts is encoding the whole message, as long as there
/// is room for it.
pub proof fn law_encoding_in_parts(run: u8, zeros: u8, room: int, bytes: Seq<u8>, more: Seq<u8>)
    ensures
        ({
            let all = encoding(run, zeros, room, bytes + more);
            let first = encoding(run, zeros, room, bytes);
            let second = encoding(first.run, first.zeros, room - first.out.len(), more);
            if first.ok {
                &&& all.run == second.run
                &&& all.zeros == second.zeros
                &&& all.out == first.out + second.out
                &&& all.ok == second.ok
            } else {
                all == first
            }
        }),
    decreases bytes.len(),
{
    let first = encoding(run, zeros, room, bytes);
    let second = encoding(first.run, first.zeros, room - first.out.len(), more);
    if bytes.len() == 0 {
        assert(bytes + more =~= more);
        assert(first.out + second.out =~= second.out);
    } else {
        let (run1, zeros1, out, ok) = writer::stepped(run, zeros, room, bytes[0]);
        assert((bytes + more)[0] == bytes[0]);
        assert((bytes + more).skip(1) =~= bytes.skip(1) + more);
        if ok {
            law_encoding_in_parts(run1, zeros1, room - out.len(), bytes.skip(1), more);
            let rest = encoding(run1, zeros1, room - out.len(), bytes.skip(1));
            assert(room - out.len() - rest.out.len() == room - first.out.len());
            if first.ok {
                assert(encoding(run, zeros, room, bytes + more).out =~= first.out + second.out);
            }
        }
    }
}

/// `bytes` with every bit turned over, so that 0x00 becomes 0xFF.
pub open spec fn masked(bytes: Seq<u8>) -> Seq<u8> {
    bytes.map_values(|byte: u8| byte ^ COBS_SENTINEL_BYTE)
}

impl LogProducer {
    /// Whether a frame has been begun.
    pub closed spec fn encoding(self) -> bool {
        self.encoder is Some
    }

    /// The writer of the frame that has been begun.
    pub closed spec fn writer(self) -> BufWriter {
        writer::encoder_writer(self.encoder->0)
    }

    /// What the encoder remembers of the frame that has been begun.
    pub closed spec fn state(self) -> (u8, u8) {
        writer::encoder_state(self.encoder->0)
    }

    /// The frames that have been put in the log buffer, each with its separator.
    pub closed spec fn sent(self) -> Seq<Seq<u8>> {
        queue::sent(self.end())
    }

    /// All the blocks of bytes that ever pass the log buffer.
    pub closed spec fn blocks(self) -> Seq<Seq<u8>> {
        queue::blocks_in(self.end())
    }

    /// The bytes of all frames that have been put in the log buffer.
    pub open spec fn committed(self) -> Seq<u8> {
        self.sent().flatten()
    }

    /// The end of the log buffer, as it was when the frame was begun.
    closed spec fn end(self) -> QueueProducer {
        if self.encoding() {
            queue::producer_of(self.writer().grant->0)
        } else {
            self.queue->0
        }
    }

    /// Whether the frame that has been begun has its place in the log buffer,
    /// and holds no zero so far. What has been put in the log buffer are
    /// frames, and they are the first to pass it.
    pub closed spec fn valid(self) -> bool {
        &&& self.queue is Some <==> self.encoder is None
        &&& self.sent().is_prefix_of(self.blocks())
        &&& all_frames(self.sent())
        &&& self.encoding() ==> {
            &&& self.writer().valid()
            &&& self.writer().bytes().len() == MAX_ENCODING_SIZE
            &&& writer::can_grow(self.state().0, self.writer().room())
            &&& !self.writer().written().contains(0)
        }
    }

    /// What has been put in the log buffer are frames, the first to pass it.
    pub proof fn lemma_sent_first(self)
        requires
            self.valid(),
        ensures
            self.sent().is_prefix_of(self.blocks()),
            all_frames(self.sent()),
    {
    }

    /// The encoded bytes of the frame that has been begun.
    pub open spec fn written(self) -> Seq<u8> {
        self.writer().written()
    }

    /// Number of bytes that the frame can still take.
    pub open spec fn room(self) -> int {
        self.writer().room()
    }

    /// Whether the message of the frame has any bytes so far.
    pub open spec fn begun_with(self) -> bool {
        self.state().0 > 0 || self.written().len() > 0
    }

    /// Whether what has been written of the frame stands for `message`.
    pub open spec fn holds(self, message: Seq<u8>) -> bool {
        packing::packs(message, self.written(), self.state().0, self.state().1)
    }

    /// Whether `outcome` is what the log buffer has answered to a request for
    /// the room of a frame.
    pub closed spec fn grant_gives(
        self,
        outcome: Result<WriteGrant, (QueueProducer, QueueError)>,
    ) -> bool {
        call_ensures(queue::grant_exact, (self.queue->0, MAX_ENCODING_SIZE), outcome)
    }

    /// A producer for one end of the log buffer.
    pub fn new(producer: QueueProducer) -> (r: Self)
        requires
            queue::sent(producer).is_prefix_of(queue::blocks_in(producer)),
            all_frames(queue::sent(producer)),
        ensures
            r.blocks() == queue::blocks_in(producer),
            r.valid(),
            !r.encoding(),
            r.sent() == queue::sent(producer),
    {
        Self { queue: Some(producer), encoder: None }
    }

    /// Begins a frame, for which the log buffer has to grant room. It does so
    /// as long as it has not been used up once; from then on that depends on
    /// what has been drained from it.
    pub fn start_encoder(&mut self) -> (r: Result<(), ()>)
        requires
            old(self).valid(),
        ensures
            final(self).valid(),
            final(self).sent() == old(self).sent(),
            final(self).blocks() == old(self).blocks(),
            old(self).encoding() ==> r is Err && *final(self) == *old(self),
            !old(self).encoding() ==> final(self).encoding() == (r is Ok),
            !old(self).encoding() ==> exists|outcome| #[trigger]
                old(self).grant_gives(outcome) && (r is Ok <==> outcome is Ok),
            !old(self).encoding() && old(self).committed().len() + MAX_ENCODING_SIZE
                <= LOG_BUFFER_SIZE ==> r is Ok,
            r is Ok ==> {
                &&& final(self).state() == (0u8, 0u8)
                &&& final(self).written() == Seq::<u8>::empty()
                &&& final(self).room() == MAX_ENCODING_SIZE - 1
                &&& final(self).holds(Seq::empty())
            },
    {
        if self.encoder.is_some() {
            return Err(());
        }
        match self.queue.take() {
            Some(producer) => {
                let outcome = queue::grant_exact(producer, MAX_ENCODING_SIZE);
                let granted: bool = outcome.is_ok();
                assert(old(self).grant_gives(outcome));
                *self = Self::begun(outcome);
                proof {
                    law_nothing_packed();
                }
                if granted {
                    Ok(())
                } else {
                    Err(())
                }
            },
            None => Err(()),
        }
    }

    /// The producer when the log buffer has granted room for a frame, or has not.
    pub fn begun(outcome: Result<WriteGrant, (QueueProducer, QueueError)>) -> (r: Self)
        requires
            match outcome {
                Ok(grant) => {
                    let end = queue::producer_of(grant);
                    &&& queue::grant_bytes(grant).len() == MAX_ENCODING_SIZE
                    &&& queue::sent(end).is_prefix_of(queue::blocks_in(end))
                    &&& all_frames(queue::sent(end))
                },
                Err(refused) => {
                    &&& queue::sent(refused.0).is_prefix_of(queue::blocks_in(refused.0))
                    &&& all_frames(queue::sent(refused.0))
                },
            },
        ensures
            r.valid(),
            match outcome {
                Ok(grant) => {
                    &&& r.encoding()
                    &&& r.sent() == queue::sent(queue::producer_of(grant))
                    &&& r.blocks() == queue::blocks_in(queue::producer_of(grant))
                    &&& r.state() == (0u8, 0u8)
                    &&& r.written() == Seq::<u8>::empty()
                    &&& r.room() == MAX_ENCODING_SIZE - 1
                },
                Err(refused) => {
                    &&& !r.encoding()
                    &&& r.sent() == queue::sent(refused.0)
                    &&& r.blocks() == queue::blocks_in(refused.0)
                },
            },
    {
        match outcome {
            Ok(grant) => {
                let encoder = writer::encoder_new(BufWriter::new(grant));
                Self { queue: None, encoder: Some(encoder) }
            },
            Err((producer, _)) => Self::new(producer),
        }
    }

    /// Encodes `bytes` as a part of the message of the frame, up to the first
    /// byte for which there is no room.
    #[verifier::spinoff_prover]
    #[verifier::rlimit(60)]
    pub fn encode(&mut self, bytes: &[u8]) -> (r: Result<(), ()>)
        requires
            old(self).valid(),
        ensures
            final(self).valid(),
            final(self).sent() == old(self).sent(),
            final(self).blocks() == old(self).blocks(),
            !old(self).encoding() ==> r is Err && *final(self) == *old(self),
            old(self).encoding() ==> {
                let done = encoding(old(self).state().0, old(self).state().1, old(self).room(), bytes@);
                &&& final(self).encoding()
                &&& (r is Ok) == done.ok
                &&& final(self).state() == (done.run, done.zeros)
                &&& final(self).written() == old(self).written() + done.out
                &&& final(self).room() == old(self).room() - done.out.len()
                &&& done.out.len() <= largest(old(self).state().0 as int, bytes@.len() as int)
                &&& old(self).room() >= largest(old(self).state().0 as int, bytes@.len() as int)
                    ==> r is Ok
                &&& bytes@.len() > 0 ==> final(self).begun_with()
                &&& r is Ok ==> forall|message: Seq<u8>| #[trigger]
                    old(self).holds(message) ==> final(self).holds(message + bytes@)
            },
    {
        match &mut self.encoder {
            Some(encoder) => {
                let ghost first = *encoder;
                let ghost state = writer::encoder_state(first);
                let ghost start = writer::encoder_writer(first);
                let ghost done = encoding(state.0, state.1, start.room(), bytes@);
                let ghost mut out: Seq<u8> = Seq::empty();
                let len: usize = bytes.len();
                let mut i: usize = 0;
                let mut ok: bool = true;
                proof {
                    assert(bytes@.skip(0) =~= bytes@);
                    assert(start.written() + out =~= start.written());
                }
                while ok && i < len
                    invariant
                        i <= len,
                        len == bytes@.len(),
                        ({
                            let now = writer::encoder_writer(*encoder);
                            let st = writer::encoder_state(*encoder);
                            let rest = encoding(
                                st.0,
                                st.1,
                                now.room(),
                                bytes@.skip(i as int),
                            );
                            &&& now.valid()
                            &&& now.bytes().len() == start.bytes().len()
                            &&& now.written() == start.written() + out
                            &&& !now.written().contains(0)
                            &&& now.room() == start.room() - out.len()
                            &&& writer::can_grow(st.0, now.room())
                            &&& queue::producer_of(now.grant->0) == queue::producer_of(
                                start.grant->0,
                            )
                            &&& if ok {
                                &&& done.out == out + rest.out
                                &&& done.run == rest.run
                                &&& done.zeros == rest.zeros
                                &&& done.ok == rest.ok
                            } else {
                                done == Encoding { run: st.0, zeros: st.1, out, ok: false }
                            }
                        }),
                    decreases len - i + if ok { 1int } else { 0 },
                {
                    let byte: u8 = bytes[i];
                    let ghost old_writer = writer::encoder_writer(*encoder);
                    let ghost old_state = writer::encoder_state(*encoder);
                    let ghost outcome = writer::stepped(
                        old_state.0,
                        old_state.1,
                        old_writer.room(),
                        byte,
                    );
                    proof {
                        let rest = bytes@.skip(i as int);
                        assert(rest[0] == byte);
                        assert(rest.skip(1) =~= bytes@.skip(i + 1));
                        writer::lemma_stepped(
                            old_state.0,
                            old_state.1,
                            old_writer.room(),
                            byte,
                        );
                    }
                    match writer::encoder_write(encoder, byte) {
                        Ok(_) => {
                            i += 1;
                        },
                        Err(_) => {
                            ok = false;
                        },
                    }
                    proof {
                        let now = writer::encoder_writer(*encoder);
                        lemma_wrote(old_writer, now, outcome.2);
                        assert(now.written() =~= start.written() + (out + outcome.2));
                        if ok {
                            assert(done.out =~= out + outcome.2 + encoding(
                                outcome.0,
                                outcome.1,
                                now.room(),
                                bytes@.skip(i as int),
                            ).out);
                        } else {
                            assert(done.out =~= out + outcome.2);
                        }
                        out = out + outcome.2;
                    }
                }
                proof {
                    if ok {
                        assert(done.out =~= out);
                    }
                    law_room_for_message(state.0, state.1, start.room(), bytes@);
                    if done.ok {
                        assert forall|message: Seq<u8>|
                            packing::packs(
                                message,
                                start.written(),
                                state.0,
                                state.1,
                            ) implies packing::packs(
                            message + bytes@,
                            start.written() + done.out,
                            done.run,
                            done.zeros,
                        ) by {
                            law_message_packed(
                                message,
                                start.written(),
                                state.0,
                                state.1,
                                start.room(),
                                bytes@,
                            );
                        }
                    }
                }
                if ok {
                    Ok(())
                } else {
                    Err(())
                }
            },
            None => Err(()),
        }
    }

    /// Ends the frame and puts it in the log buffer; gives it up where there is
    /// no room for its end.
    #[verifier::spinoff_prover]
    #[verifier::rlimit(60)]
    pub fn finalize_encoder(&mut self) -> (r: Result<(), ()>)
        requires
            old(self).valid(),
        ensures
            final(self).valid(),
            final(self).blocks() == old(self).blocks(),
            !final(self).encoding(),
            !old(self).encoding() ==> r is Err && *final(self) == *old(self),
            old(self).encoding() && old(self).room() > 0 ==> r is Ok,
            old(self).encoding() ==> match sealed(
                old(self).written(),
                old(self).state().0,
                old(self).state().1,
                old(self).room(),
            ) {
                Some(frame) => {
                    &&& r is Ok
                    &&& final(self).sent() == old(self).sent().push(frame)
                    &&& final(self).committed() == old(self).committed() + frame
                    &&& single_frame(frame)
                    &&& old(self).written().len() < frame.len()
                    &&& forall|i: int|
                        0 <= i < old(self).written().len() ==> #[trigger] frame[i] == old(
                            self,
                        ).written()[i] ^ 0xFFu8
                    &&& frame.len() <= MAX_ENCODING_SIZE
                    &&& old(self).begun_with() ==> frame.len() > 1
                    &&& forall|message: Seq<u8>| #[trigger]
                        old(self).holds(message) ==> packing::stands_for(
                            masked(frame.drop_last()),
                            message,
                        )
                },
                None => r is Err && final(self).sent() == old(self).sent(),
            },
    {
        match self.encoder.take() {
            Some(encoder) => {
                let mut encoder = encoder;
                let ghost first = writer::encoder_writer(encoder);
                let ghost state = writer::encoder_state(encoder);
                let ghost outcome = writer::ended(state.0, state.1, first.room());
                let ended = writer::encoder_end(&mut encoder);
                let buf_writer = writer::encoder_writer_mut(&mut encoder);
                let ghost last = *buf_writer;
                proof {
                    writer::lemma_ended(state.0, state.1, first.room());
                    lemma_wrote(first, last, outcome.0);
                }
                let last_encoded_byte: usize = buf_writer.i;
                match buf_writer.grant.take() {
                    Some(grant) => {
                        let mut grant = grant;
                        match ended {
                            Ok(_) => {
                                let len: usize = last_encoded_byte + 1;
                                proof {
                                    lemma_masked(last.written());
                                }
                                seal(queue::grant_buf(&mut grant), last_encoded_byte);
                                self.queue = Some(queue::commit(grant, len));
                                proof {
                                    old(self).sent().lemma_flatten_push(self.sent().last());
                                    assert forall|message: Seq<u8>| #[trigger]
                                        old(self).holds(message) implies packing::stands_for(
                                        masked(self.sent().last().drop_last()),
                                        message,
                                    ) by {
                                        law_frame_stands_for_message(
                                            message,
                                            first.written(),
                                            state.0,
                                            state.1,
                                            first.room(),
                                        );
                                    }
                                }
                                Ok(())
                            },
                            Err(_) => {
                                self.queue = Some(queue::abandon(grant));
                                Err(())
                            },
                        }
                    },
                    None => Err(()),
                }
            },
            None => Err(()),
        }
    }
}

/// The frame for a message of which `written` has been encoded, when the
/// encoder remembers `run` and `zeros` and there is room for `room` more bytes;
/// nothing where there is no room for its end.
pub open spec fn sealed(written: Seq<u8>, run: u8, zeros: u8, room: int) -> Option<Seq<u8>> {
    let (out, ok) = writer::ended(run, zeros, room);
    if ok {
        Some(masked(written + out).push(COBS_SENTINEL_BYTE))
    } else {
        None
    }
}

/// Whether the last byte of `bytes`, and no other, is a separator.
pub open spec fn single_frame(bytes: Seq<u8>) -> bool {
    &&& bytes.len() > 0
    &&& bytes.last() == COBS_SENTINEL_BYTE
    &&& !bytes.drop_last().contains(COBS_SENTINEL_BYTE)
}

/// Whether each of `sent` is a frame with its separator.
pub open spec fn all_frames(sent: Seq<Seq<u8>>) -> bool {
    forall|k: int| 0 <= k < sent.len() ==> single_frame(#[trigger] sent[k])
}

/// Bytes without zeros and a separator behind them are one frame.
proof fn lemma_masked(bytes: Seq<u8>)
    requires
        !bytes.contains(0),
    ensures
        single_frame(masked(bytes).push(COBS_SENTINEL_BYTE)),
{
    let frame = masked(bytes).push(COBS_SENTINEL_BYTE);
    assert(frame.drop_last() =~= masked(bytes));
    if masked(bytes).contains(COBS_SENTINEL_BYTE) {
        let j = choose|j: int|
            0 <= j < masked(bytes).len() && masked(bytes)[j] == COBS_SENTINEL_BYTE;
        let byte = bytes[j];
        assert(byte ^ 0xFFu8 == 0xFFu8 ==> byte == 0) by (bit_vector);
        assert(bytes.contains(0));
    }
}

/// Turning every bit over twice gives back the bytes.
pub proof fn law_masked_twice(bytes: Seq<u8>)
    ensures
        masked(masked(bytes)) == bytes,
{
    assert forall|j: int| 0 <= j < bytes.len() implies masked(masked(bytes))[j] == bytes[j] by {
        let byte = bytes[j];
        assert((byte ^ 0xFFu8) ^ 0xFFu8 == byte) by (bit_vector);
    }
    assert(masked(masked(bytes)) =~= bytes);
}

/// A frame without its separator, with every bit turned over again, is what the
/// encoder has written.
pub proof fn law_frame_unsealed(written: Seq<u8>, run: u8, zeros: u8, room: int)
    requires
        sealed(written, run, zeros, room) is Some,
    ensures
        masked(sealed(written, run, zeros, room)->0.drop_last()) == written + writer::ended(
            run,
            zeros,
            room,
        ).0,
{
    let out = written + writer::ended(run, zeros, room).0;
    assert(masked(out).push(COBS_SENTINEL_BYTE).drop_last() =~= masked(out));
    law_masked_twice(out);
}

/// Ends the `last` bytes of `buf` with a separator and turns every bit over.
fn seal(buf: &mut [u8], last: usize)
    requires
        last < old(buf)@.len(),
    ensures
        final(buf)@.len() == old(buf)@.len(),
        final(buf)@.take(last + 1) == masked(old(buf)@.take(last as int)).push(COBS_SENTINEL_BYTE),
{
    let ghost before = buf@;
    let len: usize = buf.len();
    buf[last] = 0x00;  // Terminator byte has to be written manually
    // Convert 0x00 sentinel into 0xFF sentinel by XORing
    let mut k: usize = 0;
    while k < len
        invariant
            k <= len,
            len == buf@.len(),
            len == before.len(),
            last < len,
            forall|j: int|
                0 <= j < len ==> buf@[j] == ({
                    let byte = if j == last {
                        0u8
                    } else {
                        before[j]
                    };
                    if j < k {
                        byte ^ COBS_SENTINEL_BYTE
                    } else {
                        byte
                    }
                }),
        decreases len - k,
    {
        buf[k] = buf[k] ^ COBS_SENTINEL_BYTE;
        k += 1;
    }
    assert(0u8 ^ 0xFFu8 == 0xFFu8) by (bit_vector);
    assert(buf@.take(last + 1) =~= masked(before.take(last as int)).push(COBS_SENTINEL_BYTE));
}

/// Makes `prod` the producer in `slot`.
pub fn set_producer(slot: &mut Option<LogProducer>, prod: QueueProducer)
    requires
        queue::sent(prod).is_prefix_of(queue::blocks_in(prod)),
        all_frames(queue::sent(prod)),
    ensures
        *final(slot) matches Some(producer) && {
            &&& producer.valid()
            &&& producer.blocks() == queue::blocks_in(prod)
            &&& !producer.encoding()
            &&& producer.sent() == queue::sent(prod)
        },
{
    *slot = Some(LogProducer::new(prod));
}

/// Returns a reference to the log producer.
pub fn handle(slot: &mut Option<LogProducer>) -> (r: &mut LogProducer)
    requires
        *old(slot) is Some,
    ensures
        *r == (*old(slot))->0,
        *final(slot) == Some(*final(r)),
{
    match slot {
        Some(x) => x,
        None => {
            proof {
                assert(false);
            }
            vstd::pervasive::unreached()
        },
    }
}

/// What has been written grows by what is written, and stays free of zeros.
proof fn lemma_wrote(before: BufWriter, next: BufWriter, out: Seq<u8>)
    requires
        before.valid(),
        before.wrote(next, out),
        !out.contains(0),
        !before.written().contains(0),
    ensures
        next.written() == before.written() + out,
        !next.written().contains(0),
        next.bytes().len() == before.bytes().len(),
        next.room() == before.room() - out.len(),
{
    assert(next.written() =~= before.written() + out);
    if next.written().contains(0) {
        let j = choose|j: int| 0 <= j < next.written().len() && next.written()[j] == 0;
        if j < before.i {
            assert(before.written()[j] == 0);
        } else {
            assert(next.bytes()[j] == out[j - before.i]);
            assert(out.contains(out[j - before.i]));
        }
    }
}

} // verus!
