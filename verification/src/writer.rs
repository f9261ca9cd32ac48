//! The rzCOBS encoder of the `rzcobs` crate, writing into the log buffer.
use vstd::prelude::*;

use crate::queue;
use crate::queue::WriteGrant;
use crate::storage;

verus! {

/// Writes bytes into a grant of the log buffer, one after the other. The last
/// byte of the grant is left free.
pub struct BufWriter {
    /// The grant, until it is taken back
    pub grant: Option<WriteGrant>,
    /// Number of bytes written
    pub i: usize,
}

impl BufWriter {
    /// Whether there is a grant with at least one byte left free.
    pub open spec fn valid(self) -> bool {
        self.grant is Some && self.i < self.bytes().len()
    }

    /// The bytes of the grant.
    pub open spec fn bytes(self) -> Seq<u8> {
        queue::grant_bytes(self.grant->0)
    }

    /// The bytes that have been written.
    pub open spec fn written(self) -> Seq<u8> {
        self.bytes().take(self.i as int)
    }

    /// Number of bytes that can still be written.
    pub open spec fn room(self) -> int {
        self.bytes().len() - 1 - self.i
    }

    /// Whether `next` is `self` after `out` has been written.
    pub open spec fn wrote(self, next: BufWriter, out: Seq<u8>) -> bool {
        &&& next.valid()
        &&& next.i == self.i + out.len()
        &&& next.bytes() == storage::patched(self.bytes(), self.i as int, out)
        &&& queue::producer_of(next.grant->0) == queue::producer_of(self.grant->0)
    }

    /// Whether `next` is `self`, with nothing written.
    pub open spec fn kept(self, next: BufWriter) -> bool {
        &&& next.grant is Some <==> self.grant is Some
        &&& next.i == self.i
        &&& next.bytes() == self.bytes()
        &&& queue::producer_of(next.grant->0) == queue::producer_of(self.grant->0)
    }

    /// Starts at the first byte of the grant.
    pub fn new(grant: WriteGrant) -> (r: Self)
        ensures
            r.grant == Some(grant),
            r.i == 0,
    {
        Self { grant: Some(grant), i: 0 }
    }

    /// Writes one byte, if one more byte is left free behind it.
    pub fn put(&mut self, byte: u8) -> (r: Result<(), ()>)
        ensures
            r is Ok <==> old(self).valid() && old(self).room() > 0,
            r is Ok ==> old(self).wrote(*final(self), seq![byte]),
            r is Err ==> old(self).kept(*final(self)),
    {
        let ghost before = *self;
        let i: usize = self.i;
        let fits: bool = match &mut self.grant {
            Some(grant) => {
                let buf = queue::grant_buf(grant);
                let len: usize = buf.len();
                if i < len && 1 < len - i {
                    buf[i] = byte;
                    true
                } else {
                    false
                }
            },
            None => false,
        };
        if !fits {
            return Err(());
        }
        self.i += 1;
        assert(self.bytes() =~= storage::patched(before.bytes(), i as int, seq![byte]));
        Ok(())
    }
}

impl rzcobs::Write for BufWriter {
    type Error = ();

    fn write(&mut self, byte: u8) -> (r: Result<(), ()>)
        ensures
            r is Ok <==> old(self).valid() && old(self).room() > 0,
            r is Ok ==> old(self).wrote(*final(self), seq![byte]),
            r is Err ==> old(self).kept(*final(self)),
    {
        self.put(byte)
    }
}

/// The type `rzcobs::Encoder`.
#[verifier::external_type_specification]
#[verifier::external_body]
#[verifier::reject_recursive_types(W)]
pub struct ExEncoder<W>(rzcobs::Encoder<W>);

/// The writer that an `rzcobs::Encoder` holds.
pub uninterp spec fn encoder_writer(encoder: rzcobs::Encoder<BufWriter>) -> BufWriter;

/// What an `rzcobs::Encoder` remembers of the message: the length of the run of
/// bytes that is not closed yet, and a bit for each of its zeros.
pub uninterp spec fn encoder_state(encoder: rzcobs::Encoder<BufWriter>) -> (u8, u8);

/// What an encoder that remembers `run` and `zeros` makes of a byte of the
/// message when its writer takes `room` more bytes: what it remembers then, the
/// bytes that the writer has taken, and whether it took all.
///
/// Bytes other than zero are written as they are. The first seven bytes of a
/// run are closed by the places of the zeros among them, where there are any.
/// A longer run is closed by its length at the next zero, or when it has 134
/// bytes.
pub open spec fn stepped(run: u8, zeros: u8, room: int, byte: u8) -> (u8, u8, Seq<u8>, bool) {
    if byte == 0 && run < 7 {
        let next = zeros | (1u8 << run);
        if run == 6 {
            closed(7, next, Seq::empty(), room, next)
        } else {
            ((run + 1) as u8, next, Seq::empty(), true)
        }
    } else if byte == 0 {
        closed(run, zeros, Seq::empty(), room, (run - 7) as u8 | 0x80u8)
    } else if room <= 0 {
        (run, zeros, Seq::empty(), false)
    } else if run == 6 && zeros != 0 {
        closed(7, zeros, seq![byte], room, zeros)
    } else if run == 133 {
        closed(134, zeros, seq![byte], room, 0xFF)
    } else {
        ((run + 1) as u8, zeros, seq![byte], true)
    }
}

/// What becomes of a run of which `out` has just been written when it is to be
/// closed by the byte `code`.
pub open spec fn closed(run: u8, zeros: u8, out: Seq<u8>, room: int, code: u8) -> (
    u8,
    u8,
    Seq<u8>,
    bool,
) {
    if out.len() < room {
        (0, 0, out.push(code), true)
    } else {
        (run, zeros, out, false)
    }
}

/// How much is written for one byte of the message, and when there is no room.
pub proof fn lemma_stepped(run: u8, zeros: u8, room: int, byte: u8)
    requires
        0 <= room,
        can_grow(run, room),
    ensures
        ({
            let (run1, zeros1, out, ok) = stepped(run, zeros, room, byte);
            &&& !out.contains(0)
            &&& out.len() <= room
            &&& run1 <= run + 1
            &&& out.len() <= 1 || (out.len() == 2 && run >= 6 && run1 == 0)
            &&& ok ==> run1 > 0 || out.len() > 0
            &&& !ok ==> room < if run >= 6 {
                2int
            } else {
                1
            }
            &&& !ok ==> out.len() == room
            &&& can_grow(run1, room - out.len())
        }),
{
    let next = zeros | (1u8 << run);
    assert(run < 7 ==> next != 0) by (bit_vector)
        requires
            next == zeros | (1u8 << run),
    ;
    let rest = (run - 7) as u8;
    assert(rest | 0x80u8 != 0) by (bit_vector);
}

/// The bytes that end a message when an encoder remembers `run` and `zeros` and
/// its writer takes `room` more bytes, and whether there is room for them: a
/// run that is not closed is closed by one byte, which holds its zeros or its
/// length.
pub open spec fn ended(run: u8, zeros: u8, room: int) -> (Seq<u8>, bool) {
    if run == 0 {
        (Seq::empty(), true)
    } else if room <= 0 {
        (Seq::empty(), false)
    } else if run < 7 {
        (seq![(zeros | (0xFFu8 << run)) & 0x7Fu8], true)
    } else {
        (seq![(run - 7) as u8 | 0x80u8], true)
    }
}

/// No message is ended by a zero.
pub proof fn lemma_ended(run: u8, zeros: u8, room: int)
    ensures
        !ended(run, zeros, room).0.contains(0),
{
    if 0 < run < 7 {
        assert((zeros | (0xFFu8 << run)) & 0x7Fu8 != 0) by (bit_vector)
            requires
                0 < run < 7,
        ;
    }
    let rest = (run - 7) as u8;
    assert(rest | 0x80u8 != 0) by (bit_vector);
}

/// Whether the run that an encoder remembers can be longer by one: it is
/// closed when it gets to 134 bytes, unless the writer is full.
pub open spec fn can_grow(run: u8, room: int) -> bool {
    run < 134 || (run == 134 && room == 0)
}

/// Calls `rzcobs::Encoder::new`: an encoder that remembers nothing.
#[verifier::external_body]
pub(crate) fn encoder_new(writer: BufWriter) -> (r: rzcobs::Encoder<BufWriter>)
    ensures
        encoder_writer(r) == writer,
        encoder_state(r) == (0u8, 0u8),
{
    rzcobs::Encoder::new(writer)
}

/// Calls `rzcobs::Encoder::writer`: access to the writer.
#[verifier::external_body]
pub(crate) fn encoder_writer_mut(encoder: &mut rzcobs::Encoder<BufWriter>) -> (r: &mut BufWriter)
    ensures
        *r == encoder_writer(*old(encoder)),
        encoder_writer(*final(encoder)) == *final(r),
        encoder_state(*final(encoder)) == encoder_state(*old(encoder)),
{
    encoder.writer()
}

/// Calls `rzcobs::Encoder::write`: it hands the bytes that [`stepped`] says to
/// the writer, and fails when there is no room for them. The run it remembers
/// has to be short enough to be counted.
#[verifier::external_body]
pub(crate) fn encoder_write(encoder: &mut rzcobs::Encoder<BufWriter>, byte: u8) -> (r: Result<
    (),
    (),
>)
    requires
        encoder_writer(*old(encoder)).valid(),
        can_grow(encoder_state(*old(encoder)).0, encoder_writer(*old(encoder)).room()),
    ensures
        ({
            let state = encoder_state(*old(encoder));
            let writer = encoder_writer(*old(encoder));
            let outcome = stepped(state.0, state.1, writer.room(), byte);
            &&& (r is Ok) == outcome.3
            &&& encoder_state(*final(encoder)) == (outcome.0, outcome.1)
            &&& writer.wrote(encoder_writer(*final(encoder)), outcome.2)
        }),
{
    encoder.write(byte)
}

/// Calls `rzcobs::Encoder::end`: it hands the bytes that [`ended`] says to the
/// writer, and fails when there is no room for them.
#[verifier::external_body]
pub(crate) fn encoder_end(encoder: &mut rzcobs::Encoder<BufWriter>) -> (r: Result<(), ()>)
    requires
        encoder_writer(*old(encoder)).valid(),
    ensures
        ({
            let state = encoder_state(*old(encoder));
            let writer = encoder_writer(*old(encoder));
            let outcome = ended(state.0, state.1, writer.room());
            &&& (r is Ok) == outcome.1
            &&& writer.wrote(encoder_writer(*final(encoder)), outcome.0)
        }),
{
    encoder.end()
}

} // verus!
