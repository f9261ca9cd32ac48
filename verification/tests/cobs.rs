use defmt_persist::checksum::to_le_bytes;
use defmt_persist::cobs::{
    decode, decode_in_place, max_encoding_length, CobsDecoder, CobsEncoder,
};
use defmt_persist::coding::{advance, DecoderState, Step};

fn encode(message: &[u8], crc: bool, terminate: bool) -> Vec<u8> {
    let mut buf = vec![0xAAu8; 2 * message.len() + 10];
    let mut enc = CobsEncoder::new(&mut buf, crc, terminate);
    enc.push(message).unwrap();
    let n = enc.finalize().unwrap();
    buf.truncate(n);
    buf
}

#[test]
fn encodes_known_messages() {
    assert_eq!(encode(&[0x00], false, false), vec![1, 1]);
    assert_eq!(encode(&[0x00, 0x00], false, false), vec![1, 1, 1]);
    assert_eq!(encode(&[0x11, 0x22, 0x00, 0x33], false, false), vec![3, 0x11, 0x22, 2, 0x33]);
    assert_eq!(encode(&[0x11, 0x22], false, true), vec![3, 0x11, 0x22, 0]);
}

#[test]
fn appends_the_checksum() {
    let mut expected = vec![12u8];
    expected.extend_from_slice(b"123456789");
    expected.extend_from_slice(&[0x6E, 0x90, 0x00]);
    assert_eq!(encode(b"123456789", true, true), expected);

    // A zero in the message counts as any other byte
    assert_eq!(encode(&[0x00], true, false), vec![1, 3, 0x78, 0xF0]);
    assert_eq!(to_le_bytes(0x906E), [0x6E, 0x90]);
}

#[test]
fn nothing_pushed_is_nothing_encoded() {
    let mut buf = [7u8; 4];
    assert_eq!(CobsEncoder::new(&mut buf, true, true).finalize(), Ok(0));
    assert_eq!(buf, [7; 4]);
}

#[test]
fn encoder_stays_in_its_buffer() {
    // Too small for the bytes: nothing is taken
    let mut buf = [0u8; 3];
    let mut enc = CobsEncoder::new(&mut buf, false, false);
    assert_eq!(enc.push(&[1, 2, 3]), Err(()));
    assert_eq!(enc.push(&[1, 2]), Ok(()));
    assert_eq!(enc.finalize(), Ok(3));
    assert_eq!(buf, [3, 1, 2]);

    // No room for the terminator
    let mut buf = [0u8; 3];
    let mut enc = CobsEncoder::new(&mut buf, false, true);
    assert_eq!(enc.push(&[1, 2]), Ok(()));
    assert_eq!(enc.finalize(), Err(()));

    // No room for the checksum
    let mut buf = [0u8; 4];
    let mut enc = CobsEncoder::new(&mut buf, true, false);
    assert_eq!(enc.push(&[1, 2]), Ok(()));
    assert_eq!(enc.finalize(), Err(()));

    // No code byte is needed behind a block of full length
    let mut buf = [0u8; 255];
    let mut enc = CobsEncoder::new(&mut buf, false, false);
    assert_eq!(enc.push(&[9; 254]), Ok(()));
    assert_eq!(enc.finalize(), Ok(255));
    assert_eq!(buf[0], 0xFF);
    assert!(buf[1..].iter().all(|b| *b == 9));
    let mut buf = [7u8; 257];
    let mut enc = CobsEncoder::new(&mut buf, false, true);
    assert_eq!(enc.push(&[9; 254]), Ok(()));
    assert_eq!(enc.finalize(), Ok(256));
    assert_eq!(buf[255..], [0, 7]);

    // A zero behind such a block needs one, and it has no room
    let mut message = [9u8; 255];
    message[254] = 0;
    let mut buf = [0u8; 256];
    let mut enc = CobsEncoder::new(&mut buf, false, false);
    assert_eq!(enc.push(&message), Ok(()));
    assert_eq!(enc.finalize(), Err(()));
    let mut buf = [0u8; 257];
    let mut enc = CobsEncoder::new(&mut buf, false, false);
    assert_eq!(enc.push(&message), Ok(()));
    assert_eq!(enc.finalize(), Ok(257));
    assert_eq!(buf[255..], [1, 1]);

    // The bytes would fit, but not the code byte between them
    let mut buf = [0u8; 256];
    let mut enc = CobsEncoder::new(&mut buf, false, false);
    assert_eq!(enc.push(&[9; 255]), Err(()));
}

#[test]
fn messages_survive_encoding_and_decoding() {
    for len in [0usize, 1, 2, 100, 253, 254, 255, 508, 509, 600] {
        for zero_every in [1usize, 2, 7, 254, 255, 1000] {
            let message: Vec<u8> = (0..len)
                .map(|i| if (i + 1) % zero_every == 0 { 0 } else { (i % 255 + 1) as u8 })
                .collect();
            if len == 0 {
                continue;
            }
            let encoded = encode(&message, false, false);
            assert!(!encoded.contains(&0));
            assert!(encoded.len() <= max_encoding_length(len));

            let mut dest = vec![0u8; encoded.len()];
            assert_eq!(decode(&encoded, &mut dest), Ok(len));
            assert_eq!(&dest[..len], &message[..]);

            let mut in_place = encoded.clone();
            assert_eq!(decode_in_place(&mut in_place), Ok(len));
            assert_eq!(&in_place[..len], &message[..]);
        }
    }
}

#[test]
fn encodes_and_decodes_in_parts() {
    let message: Vec<u8> = (0..300usize).map(|i| (i % 7) as u8).collect();
    let whole = encode(&message, true, true);

    let mut buf = [0u8; 400];
    let mut enc = CobsEncoder::new(&mut buf, true, true);
    for part in message.chunks(11) {
        enc.push(part).unwrap();
    }
    let n = enc.finalize().unwrap();
    assert_eq!(&buf[..n], &whole[..]);

    let mut dest = [0u8; 400];
    let mut dec = CobsDecoder::new(&mut dest);
    let (first, second) = whole.split_at(57);
    assert_eq!(dec.push(first), Ok(None));
    // Two bytes of checksum follow the message; what comes behind is not used
    let mut more = second.to_vec();
    more.push(0x55);
    assert_eq!(dec.push(&more), Ok(Some((302, second.len()))));
    assert_eq!(&dest[..300], &message[..]);
}

#[test]
fn decoder_reports_and_latches() {
    let mut dest = [0u8; 4];
    let mut dec = CobsDecoder::new(&mut dest);
    // Zeros before a message are ignored
    assert_eq!(dec.feed(0), Ok(None));
    assert_eq!(dec.feed(2), Ok(None));
    assert_eq!(dec.feed(0x11), Ok(None));
    assert_eq!(dec.feed(0), Ok(Some(1)));
    // Not to be used again
    assert_eq!(dec.feed(2), Err(1));
    assert_eq!(dest, [0x11, 0, 0, 0]);

    // Ended too early
    let mut dest = [0u8; 4];
    let mut dec = CobsDecoder::new(&mut dest);
    assert_eq!(dec.push(&[4, 1, 2, 0]), Err(2));
    assert_eq!(dec.push(&[]), Ok(None));
    assert_eq!(dec.feed(1), Err(2));

    // No room
    let mut dest = [0u8; 1];
    let mut dec = CobsDecoder::new(&mut dest);
    assert_eq!(dec.push(&[4, 1, 2]), Err(1));
    assert_eq!(dec.push(&[0]), Err(1));
    let mut dec = CobsDecoder::new(&mut []);
    assert_eq!(dec.feed(1), Ok(None));
    assert_eq!(dec.feed(1), Err(0));
    assert_eq!(dec.feed(0), Err(0));
}

#[test]
fn decoding_errors() {
    for source in [&[][..], &[0][..], &[2][..], &[3, 1][..], &[2, 0][..], &[1, 0, 1][..], &[0xFF, 1][..]] {
        let mut dest = [0u8; 8];
        assert_eq!(decode(source, &mut dest), Err(()));
        let mut in_place = source.to_vec();
        assert_eq!(decode_in_place(&mut in_place), Err(()));
    }
    // Zeros in front are no part of the message
    let mut dest = [0u8; 8];
    assert_eq!(decode(&[0, 0, 2, 5], &mut dest), Ok(1));
    assert_eq!(dest[0], 5);
    let mut in_place = [0, 0, 2, 5];
    assert_eq!(decode_in_place(&mut in_place), Ok(1));
    assert_eq!(in_place[0], 5);
}

#[test]
fn states_of_the_decoder() {
    assert_eq!(advance(DecoderState::Idle, 0), (DecoderState::Idle, Step::More));
    assert_eq!(advance(DecoderState::Idle, 0xFF), (DecoderState::GrabChain(0xFE), Step::More));
    assert_eq!(advance(DecoderState::Grab(0), 5), (DecoderState::Grab(4), Step::Emit(0)));
    assert_eq!(advance(DecoderState::GrabChain(0), 5), (DecoderState::Grab(4), Step::More));
    assert_eq!(advance(DecoderState::Grab(3), 9), (DecoderState::Grab(2), Step::Emit(9)));
    assert_eq!(advance(DecoderState::Grab(3), 0), (DecoderState::ErrOrComplete, Step::Fail));
    assert_eq!(
        advance(DecoderState::GrabChain(0), 0),
        (DecoderState::ErrOrComplete, Step::Complete)
    );
}

#[test]
fn largest_encodings() {
    assert_eq!(max_encoding_length(0), 0);
    assert_eq!(max_encoding_length(1), 2);
    assert_eq!(max_encoding_length(253), 254);
    assert_eq!(max_encoding_length(254), 255);
    assert_eq!(max_encoding_length(255), 257);
    assert_eq!(max_encoding_length(508), 510);
}
