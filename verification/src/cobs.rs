//! Consistent Overhead Byte Stuffing with 0x00 as the byte that ends a message.
use vstd::prelude::*;

use crate::checksum;
use crate::checksum::CRC_POLYNOMIAL;
use crate::coding;
use crate::coding::{DecoderState, End, Frame, Step};

verus! {

/// A streaming encoder that writes into a borrowed buffer.
pub struct CobsEncoder<'a> {
    /// Destination slice for the encoded message
    pub dest: &'a mut [u8],
    /// Index of the next byte to write in `dest`
    pub dest_idx: usize,
    /// Index of the code byte of the current block
    pub code_idx: usize,
    /// The code byte that the current block has so far
    pub num_bt_sent: u8,
    /// Whether the block before the current one is of full length, and the
    /// current one is empty
    pub full: bool,
    /// Whether a 0x00 is written behind the message
    pub terminate: bool,
    /// The checksum that is appended to the message, if any
    pub digest: Option<crc::crc16::Digest>,
}

impl<'a> CobsEncoder<'a> {
    /// Whether the encoder stands behind the bytes of the current block, of
    /// which at most the code byte lies outside the buffer.
    pub open spec fn valid(self) -> bool {
        &&& 1 <= self.num_bt_sent <= 254
        &&& self.dest_idx == self.code_idx + self.num_bt_sent
        &&& self.dest_idx <= self.dest@.len() + 1
        &&& self.dest_idx == self.dest@.len() + 1 ==> self.num_bt_sent == 1
        &&& self.full ==> self.num_bt_sent == 1 && 0 < self.code_idx
        &&& self.dest@.len() < usize::MAX
    }

    /// The frame of the message so far.
    pub open spec fn frame(self) -> Frame {
        Frame {
            closed: self.dest@.take(self.code_idx as int),
            tail: Seq::new(
                (self.num_bt_sent - 1) as nat,
                |i: int| self.dest@[self.code_idx + 1 + i],
            ),
            full: self.full,
        }
    }

    /// Polynomial and value of the checksum so far.
    pub open spec fn sum(self) -> Option<(u16, u16)> {
        match self.digest {
            Some(digest) => Some(checksum::digest_state(digest)),
            None => None,
        }
    }

    /// Create a new streaming Cobs Encoder
    pub fn new(out_buf: &'a mut [u8], crc: bool, terminate: bool) -> (r: CobsEncoder<'a>)
        requires
            old(out_buf)@.len() < usize::MAX,
        ensures
            r.valid(),
            r.frame() == Frame::empty(),
            r.dest@ == old(out_buf)@,
            r.terminate == terminate,
            r.sum() == if crc {
                Some((CRC_POLYNOMIAL, 0u16))
            } else {
                None
            },
            final(out_buf)@ == final(r.dest)@,
    {
        let r = CobsEncoder {
            dest: out_buf,
            dest_idx: 1,
            code_idx: 0,
            num_bt_sent: 1,
            full: false,
            terminate,
            digest: if crc {
                Some(checksum::digest_new(CRC_POLYNOMIAL))
            } else {
                None
            },
        };
        assert(r.frame() =~= Frame::empty());
        r
    }

    /// Encodes one more byte, if the buffer takes it.
    fn put(&mut self, x: u8) -> (r: Result<(), ()>)
        requires
            old(self).valid(),
        ensures
            final(self).valid(),
            final(self).dest@.len() == old(self).dest@.len(),
            final(self).terminate == old(self).terminate,
            final(self).dest_idx >= old(self).dest_idx,
            final(final(self).dest)@ == final(old(self).dest)@,
            final(self).dest@ == staged(old(self).dest@, final(self).frame()),
            r is Ok <==> old(self).frame().takes(x, old(self).dest@.len() as int),
            r is Ok ==> final(self).frame() == old(self).frame().put(x) && final(self).sum()
                == match old(self).sum() {
                Some((poly, value)) => Some((poly, checksum::checksum(poly, value, seq![x]))),
                None => None,
            },
            r is Err ==> final(self).frame() == old(self).frame() && final(self).sum() == old(
                self,
            ).sum(),
    {
        let ghost frame = self.frame();
        let len: usize = self.dest.len();
        if x == 0 {
            if self.code_idx >= len {
                return Err(());
            }
            self.dest[self.code_idx] = self.num_bt_sent;
            self.num_bt_sent = 1;
            self.full = false;
            self.code_idx = self.dest_idx;
            self.dest_idx += 1;
        } else {
            if self.dest_idx >= len {
                return Err(());
            }
            self.dest[self.dest_idx] = x;
            self.num_bt_sent += 1;
            self.full = false;
            self.dest_idx += 1;
            if 0xFF == self.num_bt_sent {
                self.dest[self.code_idx] = self.num_bt_sent;
                self.num_bt_sent = 1;
                self.full = true;
                self.code_idx = self.dest_idx;
                self.dest_idx += 1;
            }
        }
        assert(self.frame() =~= frame.put(x));
        match &mut self.digest {
            Some(digest) => {
                let bytes: [u8; 1] = [x];
                assert(bytes@ =~= seq![x]);
                checksum::digest_write(digest, &bytes);
            },
            None => {},
        }
        assert(self.frame() =~= frame.put(x));
        Ok(())
    }

    /// Push a slice of data to be encoded
    ///
    /// Nothing is taken where the buffer is too small for the bytes themselves.
    /// Where it is too small for the code bytes between them, the bytes before
    /// that point are taken.
    pub fn push(&mut self, data: &[u8]) -> (r: Result<(), ()>)
        requires
            old(self).valid(),
        ensures
            final(self).valid(),
            final(self).dest@.len() == old(self).dest@.len(),
            final(self).terminate == old(self).terminate,
            final(self).dest_idx >= old(self).dest_idx,
            final(final(self).dest)@ == final(old(self).dest)@,
            final(self).dest@ == staged(old(self).dest@, final(self).frame()),
            ({
                let frame = old(self).frame();
                let room = old(self).dest@.len() as int;
                let count = if frame.len() + data@.len() <= room {
                    frame.taken(data@, room)
                } else {
                    0
                };
                &&& r is Ok <==> frame.len() + data@.len() <= room && count == data@.len()
                &&& final(self).frame() == frame.put_all(data@.take(count))
                &&& final(self).sum() == continued(old(self).sum(), data@.take(count))
            }),
    {
        let ghost frame = self.frame();
        let ghost sum = self.sum();
        let room: usize = self.dest.len();
        let len: usize = data.len();
        proof {
            assert(data@.take(0) =~= Seq::empty());
            assert(self.frame() =~= frame.put_all(data@.take(0)));
            assert(data@.skip(0) =~= data@);
        }
        // Check if this would fit without iterating through all data
        if room < self.dest_idx || room - self.dest_idx < len {
            return Err(());
        }
        let mut i: usize = 0;
        while i < len
            invariant
                i <= len,
                len == data@.len(),
                self.valid(),
                room == self.dest@.len(),
                room == old(self).dest@.len(),
                self.terminate == old(self).terminate,
                self.dest_idx >= old(self).dest_idx,
                final(self.dest)@ == final(old(self).dest)@,
                self.dest@ == staged(old(self).dest@, self.frame()),
                frame == old(self).frame(),
                sum == old(self).sum(),
                self.frame() == frame.put_all(data@.take(i as int)),
                self.sum() == continued(sum, data@.take(i as int)),
                frame.taken(data@, room as int) == i + self.frame().taken(
                    data@.skip(i as int),
                    room as int,
                ),
                frame.len() + len <= room,
            decreases len - i,
        {
            proof {
                let rest = data@.skip(i as int);
                assert(rest.skip(1) =~= data@.skip(i + 1));
                assert(rest[0] == data@[i as int]);
                assert(data@.take(i + 1).drop_last() =~= data@.take(i as int));
                assert(data@.take(i + 1).last() == data@[i as int]);
                if let Some((poly, value)) = sum {
                    checksum::lemma_one_more(poly, value, data@.take(i + 1));
                }
            }
            let x: u8 = data[i];
            match self.put(x) {
                Ok(_) => {},
                Err(_) => {
                    return Err(());
                },
            }
            i += 1;
        }
        assert(data@.take(len as int) =~= data@);
        Ok(())
    }

    /// Complete encoding of the output message.
    ///
    /// Returns the length of the encoded message, or 0 where nothing has been
    /// pushed. Fails where the encoded message does not fit in the buffer.
    pub fn finalize(self) -> (r: Result<usize, ()>)
        requires
            self.valid(),
        ensures
            ({
                let frame = self.frame();
                let room = old(self.dest)@.len() as int;
                let sum = sum_bytes(self.sum());
                let whole = frame.put_all(sum);
                let out = whole.closing() + if self.terminate {
                    seq![0u8]
                } else {
                    Seq::empty()
                };
                if frame.len() == 1 {
                    r == Ok::<usize, ()>(0) && final(self.dest)@ == old(self.dest)@
                } else if sum_fits(frame, sum, room) && out.len() <= room {
                    r matches Ok(n) && n == out.len() && final(self.dest)@ == overlaid(
                        old(self.dest)@,
                        out,
                    )
                } else {
                    r is Err && final(self.dest)@ == if sum_fits(frame, sum, room) {
                        overlaid(old(self.dest)@, whole.closing())
                    } else {
                        staged(
                            old(self.dest)@,
                            frame.put_all(sum.take(
                                if frame.len() + sum.len() <= room {
                                    frame.taken(sum, room)
                                } else {
                                    0
                                },
                            )),
                        )
                    }
                }
            }),
            r matches Ok(n) ==> n <= old(self.dest)@.len(),
    {
        let mut this = self;
        let ghost frame = this.frame();
        let ghost sum = sum_bytes(this.sum());
        if this.dest_idx == 1 {
            return Ok(0);
        }
        let room: usize = this.dest.len();
        assert(frame.put_all(Seq::empty()) =~= frame);
        match this.digest.take() {
            Some(digest) => {
                let bytes = checksum::to_le_bytes(checksum::digest_finish(&digest) as u16);
                match this.push(&bytes) {
                    Ok(_) => {},
                    Err(_) => {
                        return Err(());
                    },
                }
                assert(bytes@.take(2) =~= bytes@);
            },
            None => {},
        }
        let ghost whole = this.frame();
        assert(whole == frame.put_all(sum));
        assert(this.dest@ =~= staged(self.dest@, whole));
        if this.full {
            // The message ends with a block of full length, so we do not need
            // to write out the code of another one
            this.dest_idx = this.code_idx;
        } else {
            if this.code_idx >= room {
                assert(this.dest@ =~= overlaid(self.dest@, whole.closing()));
                return Err(());
            }
            this.dest[this.code_idx] = this.num_bt_sent;
        }
        assert(this.dest@ =~= overlaid(self.dest@, whole.closing()));
        if this.terminate {
            if this.dest_idx >= room {
                return Err(());
            }
            this.dest[this.dest_idx] = 0;
            this.dest_idx += 1;
            assert(this.dest@ =~= overlaid(self.dest@, whole.closing() + seq![0u8]));
        }
        Ok(this.dest_idx)
    }
}

/// The checksum continued over more bytes.
pub open spec fn continued(sum: Option<(u16, u16)>, bytes: Seq<u8>) -> Option<(u16, u16)> {
    match sum {
        Some((poly, value)) => Some((poly, checksum::checksum(poly, value, bytes))),
        None => None,
    }
}

/// The bytes of the checksum that end the message, low byte first.
pub open spec fn sum_bytes(sum: Option<(u16, u16)>) -> Seq<u8> {
    match sum {
        Some((_, value)) => checksum::low_first(value),
        None => Seq::empty(),
    }
}

/// Whether a buffer of `room` bytes takes the checksum behind `frame`.
pub open spec fn sum_fits(frame: Frame, sum: Seq<u8>, room: int) -> bool {
    sum.len() == 0 || (frame.len() + sum.len() <= room && frame.taken(sum, room) == sum.len())
}

/// `dest` with `frame` at its start, but for the code byte of the last block.
pub open spec fn staged(dest: Seq<u8>, frame: Frame) -> Seq<u8> {
    Seq::new(
        dest.len(),
        |i: int|
            if i < frame.closed.len() {
                frame.closed[i]
            } else if frame.closed.len() < i < frame.len() {
                frame.tail[i - frame.closed.len() - 1]
            } else {
                dest[i]
            },
    )
}

/// `dest` with `out` at its start, as far as there is room.
pub open spec fn overlaid(dest: Seq<u8>, out: Seq<u8>) -> Seq<u8> {
    Seq::new(
        dest.len(),
        |i: int|
            if i < out.len() {
                out[i]
            } else {
                dest[i]
            },
    )
}

/// A streaming decoder that writes into a borrowed buffer.
pub struct CobsDecoder<'a> {
    /// Destination slice for decoded message
    pub dest: &'a mut [u8],
    /// Index of next byte to write in `dest`
    pub dest_idx: usize,
    /// Decoder state as an enum
    pub state: DecoderState,
}

/// Puts `data` at `idx`, if there is such a place.
fn add(to: &mut [u8], idx: usize, data: u8) -> (r: Result<(), ()>)
    ensures
        r is Ok <==> idx < old(to)@.len(),
        final(to)@ == if idx < old(to)@.len() {
            old(to)@.update(idx as int, data)
        } else {
            old(to)@
        },
{
    if idx < to.len() {
        to[idx] = data;
        Ok(())
    } else {
        Err(())
    }
}

/// `dest` with `out` put at `idx`.
pub open spec fn filled(dest: Seq<u8>, idx: int, out: Seq<u8>) -> Seq<u8> {
    dest.take(idx) + out + dest.skip(idx + out.len())
}

impl<'a> CobsDecoder<'a> {
    /// Whether the decoder stands inside its buffer.
    pub open spec fn valid(self) -> bool {
        self.dest_idx <= self.dest@.len()
    }

    /// Create a new streaming Cobs Decoder. Provide the output buffer
    /// for the decoded message to be placed in
    pub fn new(dest: &'a mut [u8]) -> (r: CobsDecoder<'a>)
        ensures
            r.valid(),
            r.dest@ == old(dest)@,
            r.dest_idx == 0,
            r.state == DecoderState::Idle,
            final(dest)@ == final(r.dest)@,
    {
        CobsDecoder { dest, dest_idx: 0, state: DecoderState::Idle }
    }

    /// Push a single byte into the streaming CobsDecoder. Return values mean:
    ///
    /// * Ok(None) - State machine okay, more data needed
    /// * Ok(Some(N)) - A message of N bytes was successfully decoded
    /// * Err(M) - Message decoding failed, and M bytes were written to output
    ///
    /// NOTE: Sentinel value must be included in the input to this function for the
    /// decoding to complete
    pub fn feed(&mut self, data: u8) -> (r: Result<Option<usize>, usize>)
        requires
            old(self).valid(),
        ensures
            final(self).valid(),
            final(final(self).dest)@ == final(old(self).dest)@,
            match old(self).state.step(data) {
                Step::Emit(byte) => if old(self).dest_idx < old(self).dest@.len() {
                    &&& r == Ok::<Option<usize>, usize>(None)
                    &&& final(self).state == old(self).state.next(data)
                    &&& final(self).dest@ == old(self).dest@.update(
                        old(self).dest_idx as int,
                        byte,
                    )
                    &&& final(self).dest_idx == old(self).dest_idx + 1
                } else {
                    &&& r == Err::<Option<usize>, usize>(old(self).dest_idx)
                    &&& final(self).state == DecoderState::ErrOrComplete
                    &&& final(self).dest@ == old(self).dest@
                    &&& final(self).dest_idx == old(self).dest_idx
                },
                step => {
                    &&& r == match step {
                        Step::Complete => Ok(Some(old(self).dest_idx)),
                        Step::Fail => Err(old(self).dest_idx),
                        _ => Ok(None),
                    }
                    &&& final(self).state == old(self).state.next(data)
                    &&& final(self).dest@ == old(self).dest@
                    &&& final(self).dest_idx == old(self).dest_idx
                },
            },
    {
        let room: usize = self.dest.len();
        let (state, step) = coding::advance(self.state, data);
        let ret = match step {
            Step::More => Ok(None),
            Step::Emit(byte) => {
                match self::add(self.dest, self.dest_idx, byte) {
                    Ok(_) => {},
                    Err(_) => {
                        self.state = DecoderState::ErrOrComplete;
                        return Err(self.dest_idx);
                    },
                }
                assert(self.dest_idx < room);
                self.dest_idx += 1;
                Ok(None)
            },
            Step::Complete => Ok(Some(self.dest_idx)),
            Step::Fail => Err(self.dest_idx),
        };
        self.state = state;
        ret
    }

    /// Push a slice of bytes into the streaming CobsDecoder. Return values mean:
    ///
    /// * Ok(None) - State machine okay, more data needed
    /// * Ok(Some((N, M))) - A message of N bytes was successfully decoded,
    ///     using M bytes from `data` (and earlier data)
    /// * Err(J) - Message decoding failed, and J bytes were written to output
    ///
    /// NOTE: Sentinel value must be included in the input to this function for the
    /// decoding to complete
    pub fn push(&mut self, data: &[u8]) -> (r: Result<Option<(usize, usize)>, usize>)
        requires
            old(self).valid(),
        ensures
            final(self).valid(),
            final(final(self).dest)@ == final(old(self).dest)@,
            ({
                let idx = old(self).dest_idx as int;
                let run = coding::walk(old(self).state, data@, old(self).dest@.len() - idx);
                &&& final(self).state == run.state
                &&& final(self).dest@ == filled(old(self).dest@, idx, run.out)
                &&& final(self).dest_idx == idx + run.out.len()
                &&& match run.end {
                    End::More => r == Ok::<Option<(usize, usize)>, usize>(None),
                    End::Complete(used) => r matches Ok(Some(done)) && done.0
                        == final(self).dest_idx && done.1 == used,
                    End::Fail | End::Full => r == Err::<Option<(usize, usize)>, usize>(
                        final(self).dest_idx,
                    ),
                }
            }),
    {
        let ghost idx = self.dest_idx as int;
        let ghost room = self.dest@.len() - idx;
        let ghost run = coding::walk(self.state, data@, room);
        let len: usize = data.len();
        let mut i: usize = 0;
        proof {
            assert(data@.skip(0) =~= data@);
            assert(self.dest@ =~= filled(self.dest@, idx, Seq::empty()));
        }
        let ghost mut out: Seq<u8> = Seq::empty();
        while i < len
            invariant
                i <= len,
                len == data@.len(),
                self.valid(),
                final(self.dest)@ == final(old(self).dest)@,
                idx == old(self).dest_idx,
                idx <= old(self).dest@.len(),
                room == old(self).dest@.len() - idx,
                run == coding::walk(old(self).state, data@, room),
                self.dest@.len() == old(self).dest@.len(),
                self.dest_idx == idx + out.len(),
                self.dest@ == filled(old(self).dest@, idx, out),
                ({
                    let rest = coding::walk(
                        self.state,
                        data@.skip(i as int),
                        room - out.len(),
                    );
                    &&& run.state == rest.state
                    &&& run.out == out + rest.out
                    &&& run.end == match rest.end {
                        End::Complete(used) => End::Complete(used + i as nat),
                        other => other,
                    }
                }),
            decreases len - i,
        {
            let d: u8 = data[i];
            let ghost before = *self;
            proof {
                assert(data@.skip(i as int)[0] == d);
                assert(data@.skip(i as int).skip(1) =~= data@.skip(i + 1));
            }
            let x = self.feed(d);
            proof {
                let rest = coding::walk(before.state, data@.skip(i as int), room - out.len());
                match before.state.step(d) {
                    Step::Emit(byte) => {
                        if before.dest_idx < before.dest@.len() {
                            assert(run.out =~= out.push(byte) + coding::walk(
                                self.state,
                                data@.skip(i + 1),
                                room - out.len() - 1,
                            ).out);
                            assert(self.dest@ =~= filled(old(self).dest@, idx, out.push(byte)));
                            out = out.push(byte);
                        } else {
                            assert(run.out =~= out);
                        }
                    },
                    Step::More => {},
                    _ => {
                        assert(run.out =~= out);
                    },
                }
            }
            match x {
                Ok(Some(decoded_bytes_ct)) => {
                    // convert from index to number of bytes consumed
                    return Ok(Some((decoded_bytes_ct, i + 1)));
                },
                Ok(None) => {},
                Err(written) => {
                    return Err(written);
                },
            }
            i += 1;
        }
        proof {
            assert(run.out =~= out);
        }
        Ok(None)
    }
}

/// Decodes the `source` buffer into the `dest` buffer.
///
/// This function uses the typical sentinel value of 0.
///
/// # Failures
///
/// This will return `Err(())` if there was a decoding error. Otherwise,
/// it will return `Ok(n)` where `n` is the length of the decoded message.
///
/// The `dest` buffer has to be large enough for the decoded message. Since an
/// encoded message is always larger than a decoded message, it may be a good
/// idea to make the `dest` buffer as big as the `source` buffer.
pub fn decode(source: &[u8], dest: &mut [u8]) -> (r: Result<usize, ()>)
    requires
        coding::decoded(source@) matches Some(message) ==> message.len() <= old(dest)@.len(),
    ensures
        match coding::decoded(source@) {
            Some(message) => r matches Ok(n) && n == message.len() && final(dest)@ == overlaid(
                old(dest)@,
                message,
            ),
            None => r is Err && final(dest)@ == overlaid(
                old(dest)@,
                coding::walk(
                    DecoderState::Idle,
                    source@.push(0),
                    old(dest)@.len() as int,
                ).out,
            ),
        },
{
    let ghost room = dest@.len() as int;
    let ghost run = coding::walk(DecoderState::Idle, source@.push(0), room);
    let end: [u8; 1] = [0];
    proof {
        coding::lemma_walk_decodes(source@, room);
        coding::law_walk_in_parts(DecoderState::Idle, source@, seq![0u8], room);
        coding::lemma_walk_bounds(DecoderState::Idle, source@, room);
        assert(source@ + seq![0u8] =~= source@.push(0));
        assert(end@ =~= seq![0u8]);
    }
    let mut dec = CobsDecoder::new(dest);
    let ghost before = dec.dest@;
    match dec.push(source) {
        Ok(None) => {},
        _ => {
            assert(dec.dest@ =~= overlaid(before, run.out));
            return Err(());
        },
    }
    // Explicitly push sentinel of zero
    proof {
        coding::lemma_walk_bounds(dec.state, end@, room - dec.dest_idx);
        assert(dec.dest@ =~= overlaid(
            before,
            coding::walk(DecoderState::Idle, source@, room).out,
        ));
    }
    let r = dec.push(&end);
    assert(dec.dest@ =~= overlaid(before, run.out));
    match r {
        Ok(Some((d_used, _))) => Ok(d_used),
        _ => Err(()),
    }
}

/// Decodes a message in-place.
///
/// This is the same function as `decode`, but replaces the encoded message
/// with the decoded message instead of writing to another buffer.
pub fn decode_in_place(buff: &mut [u8]) -> (r: Result<usize, ()>)
    ensures
        match coding::decoded(old(buff)@) {
            Some(message) => r matches Ok(n) && n == message.len() && final(buff)@ == overlaid(
                old(buff)@,
                message,
            ),
            None => r is Err && final(buff)@ == overlaid(
                old(buff)@,
                coding::walk(
                    DecoderState::Idle,
                    old(buff)@.push(0),
                    old(buff)@.len() as int,
                ).out,
            ),
        },
{
    let ghost source = buff@;
    let len: usize = buff.len();
    let ghost run = coding::walk(DecoderState::Idle, source.push(0), len as int);
    proof {
        coding::lemma_walk_decodes(source, len as int);
        assert(source.push(0).skip(0) =~= source.push(0));
        assert(buff@ =~= overlaid(source, Seq::empty()));
    }
    let ghost mut out: Seq<u8> = Seq::empty();
    let mut state: DecoderState = DecoderState::Idle;
    let mut source_index: usize = 0;
    let mut dest_index: usize = 0;
    loop
        invariant
            dest_index <= source_index <= len,
            len == source.len(),
            dest_index == out.len(),
            buff@ == overlaid(source, out),
            ({
                let rest = coding::walk(
                    state,
                    source.push(0).skip(source_index as int),
                    len - dest_index,
                );
                &&& run.out == out + rest.out
                &&& run.end == match rest.end {
                    End::Complete(used) => End::Complete(used + source_index as nat),
                    other => other,
                }
            }),
            match coding::decoded(source) {
                Some(message) => if message.len() <= len {
                    run.end == End::Complete(len as nat + 1) && run.out == message
                } else {
                    run.end == End::Full
                },
                None => run.end != End::Complete(len as nat + 1),
            },
            old(buff)@ == source,
            run == coding::walk(DecoderState::Idle, source.push(0), len as int),
        decreases len + 1 - source_index,
    {
        // The sentinel of zero follows the message
        let data: u8 = if source_index < len {
            buff[source_index]
        } else {
            0
        };
        let ghost input = source.push(0).skip(source_index as int);
        proof {
            assert(input[0] == data);
            assert(input.skip(1) =~= source.push(0).skip(source_index + 1));
        }
        let (next, step) = coding::advance(state, data);
        match step {
            Step::More => {},
            Step::Emit(byte) => {
                if source_index >= len {
                    return Err(());
                }
                buff[dest_index] = byte;
                dest_index += 1;
                proof {
                    out = out.push(byte);
                    assert(buff@ =~= overlaid(source, out));
                    assert(run.out =~= out + coding::walk(
                        next,
                        source.push(0).skip(source_index + 1),
                        len - dest_index,
                    ).out);
                }
            },
            Step::Complete => {
                assert(run.out =~= out);
                if source_index < len {
                    return Err(());
                }
                return Ok(dest_index);
            },
            Step::Fail => {
                assert(run.out =~= out);
                return Err(());
            },
        }
        if source_index >= len {
            proof {
                assert(coding::walk(next, input.skip(1), len - dest_index).end == End::More);
                assert(run.out =~= out);
            }
            return Err(());
        }
        state = next;
        source_index += 1;
    }
}

/// Calculates the maximum possible size of an encoded message given the length
/// of the source message. This may be useful for calculating how large the
/// `dest` buffer needs to be in the encoding functions.
pub fn max_encoding_length(source_len: usize) -> (r: usize)
    requires
        coding::max_encoded_len(source_len as nat) <= usize::MAX,
    ensures
        r == coding::max_encoded_len(source_len as nat),
{
    source_len + (source_len / 254) + if source_len % 254 > 0 {
        1
    } else {
        0
    }
}

} // verus!
