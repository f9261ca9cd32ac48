use defmt_persist::pseudo_flash::PseudoFlashStorage;
use defmt_persist::storage::{COBS_SENTINEL_BYTE, WORD_SIZE_BYTES};
use defmt_persist::{handle, LogBuffer, LogManager, LogProducer, Logger, StorageHelper};

fn storage_to_str(
    storage: &PseudoFlashStorage,
    sh: &StorageHelper<PseudoFlashStorage>,
    num_bytes: usize,
) -> String {
    let mut s = "".to_owned();

    for i in (0..num_bytes).step_by(16) {
        let mut bytes_str = "".to_owned();

        for (bi, byte) in storage.buf[i..(i + 16)].iter().enumerate() {
            bytes_str.push_str(&format!("{:02X}", byte));

            let has_write_head = sh.write_head() == (i + bi) as u32;
            let has_read_head = sh.read_head() == (i + bi) as u32;
            if has_read_head && has_write_head {
                bytes_str.push('b');
            } else if has_write_head {
                bytes_str.push('w');
            } else if has_read_head {
                bytes_str.push('r');
            } else {
                bytes_str.push(' ');
            }

            bytes_str.push(' ');

            if (bi + 1) % WORD_SIZE_BYTES == 0 {
                bytes_str.push_str("|  ");
            }
        }

        s.push_str(bytes_str.trim());
        s.push('\n');
    }

    s
}

fn assert_storage(
    storage: &PseudoFlashStorage,
    sh: &StorageHelper<PseudoFlashStorage>,
    dump: &str,
) {
    // Remove starting whitespace
    // This allows for better formatting of the dump in the assertion code
    let dump = dump
        .lines()
        .map(str::trim_start)
        .filter(|s| !s.is_empty())
        .collect::<Vec<_>>();

    let num_lines = dump.len();
    let dump = dump.join("\n");

    let storage_str = storage_to_str(storage, sh, num_lines * 16);

    if storage_str.trim() != dump.trim() {
        panic!(
            "Dumps aren't equal\nActual:\n{}\nExpected:\n{}",
            storage_str, dump
        );
    }
}

#[test]
fn write_read() {
    let mut storage = PseudoFlashStorage {
        buf: &mut [COBS_SENTINEL_BYTE; 128],
        ..Default::default()
    };

    let mut sh = StorageHelper::try_new(&mut storage).unwrap();

    // 1. Write some bytes but not the whole word (WORD_SIZE_BYTES),
    // so the rest of the word will be filled with COBS_SENTINEL_BYTEs
    sh.write_slice(&mut storage, &[0x00, 0x11, 0x22, 0x33])
        .unwrap();

    // 2. Write the whole word of WORD_SIZE_BYTES bytes,
    // in this case, there shouldn't be any bytes written outside the word boundary
    sh.write_slice(
        &mut storage,
        &[0x00, 0x11, 0x22, 0x33, 0x44, 0x55, 0x66, 0x77],
    )
    .unwrap();

    // 3. Write more than one word of bytes, so it'll consume two words,
    // but the second word will contain only a single byte
    // and the rest of the word will be filled with COBS_SENTINEL_BYTEs
    sh.write_slice(
        &mut storage,
        &[0x00, 0x11, 0x22, 0x33, 0x44, 0x55, 0x66, 0x77, 0x88],
    )
    .unwrap();

    // Assert that data has been written properly and
    // that write head (w) is at the end of the data, and
    // that read head (r) is after the magic number that should be skipped
    assert_storage(
        &storage,
        &sh,
        r#"
            FE  ED  BE  EF  CA  FE  BA  BE  |  00r 11  22  33  FF  FF  FF  FF  |
            00  11  22  33  44  55  66  77  |  00  11  22  33  44  55  66  77  |
            88  FF  FF  FF  FF  FF  FF  FF  |  FFw FF  FF  FF  FF  FF  FF  FF  |
        "#,
    );

    // Check the case #1
    let mut buf = [0u8; 24];
    sh.read_slice(&mut storage, &mut buf[..WORD_SIZE_BYTES])
        .unwrap();
    sh.incr_read_marker(&mut storage, WORD_SIZE_BYTES as u32);
    assert!(matches!(buf, [0x00, 0x11, 0x22, 0x33, 0xFF, ..]));

    // Check the case #2
    sh.read_slice(&mut storage, &mut buf).unwrap();
    sh.incr_read_marker(&mut storage, WORD_SIZE_BYTES as u32);
    assert!(matches!(
        buf,
        [0x00, 0x11, 0x22, 0x33, 0x44, 0x55, 0x66, 0x77, ..]
    ));

    // Check the case #3
    sh.read_slice(&mut storage, &mut buf).unwrap();
    sh.incr_read_marker(&mut storage, (2 * WORD_SIZE_BYTES) as u32);
    assert!(matches!(
        buf,
        [
            0x00,
            0x11,
            0x22,
            0x33,
            0x44,
            0x55,
            0x66,
            0x77,
            0x88,
            0xFF,
            ..
        ]
    ));

    // Both read and write heads are now at the same place (signified by b after FF)
    assert_storage(
        &storage,
        &sh,
        r#"
            FE  ED  BE  EF  CA  FE  BA  BE  |  00  11  22  33  FF  FF  FF  FF  |
            00  11  22  33  44  55  66  77  |  00  11  22  33  44  55  66  77  |
            88  FF  FF  FF  FF  FF  FF  FF  |  FFb FF  FF  FF  FF  FF  FF  FF  |
        "#,
    );
}

#[test]
fn helper_init() {
    let mut storage = PseudoFlashStorage {
        buf: &mut [COBS_SENTINEL_BYTE; 128],
        ..Default::default()
    };

    // This will init the empty storage by
    // 1. Writing the magic word as the first word
    // 2. Writing some data that should go after the magic word
    {
        let mut sh = StorageHelper::try_new(&mut storage).unwrap();
        sh.write_slice(&mut storage, &[0x00, 0x11, 0x22, 0x33])
            .unwrap();
    }

    // Now let's re-initialize the storage helper (to simulate restart)
    let sh = StorageHelper::try_new(&mut storage).unwrap();

    // Assert that data has been written properly and
    // that write head (w) is at the end of the data, and
    // that read head (r) is after the magic number that should be skipped
    assert_storage(
        &storage,
        &sh,
        r#"
            FE  ED  BE  EF  CA  FE  BA  BE  |  00r 11  22  33  FF  FF  FF  FF  |
            FFw FF  FF  FF  FF  FF  FF  FF  |  FF  FF  FF  FF  FF  FF  FF  FF  |
        "#,
    );
}

#[test]
fn log_manager() {
    let mut storage = PseudoFlashStorage {
        buf: &mut [COBS_SENTINEL_BYTE; 256],
        ..Default::default()
    };

    let buffer: &'static LogBuffer = Box::leak(Box::new(LogBuffer::new()));
    let mut slot: Option<LogProducer> = None;
    let mut read_data = [0x00; 256];

    let mut log = LogManager::try_new(buffer, &mut storage, &mut slot).unwrap();

    let frames = [
        vec![0x00; 1],
        vec![0x00; 2],
        vec![0x00; 3],
        vec![0x00; 4],
        vec![0x00; 5],
        vec![0x00; 6],
        vec![0x00; 7],
        vec![0x00; 8],
        vec![0x01, 0x00, 0x01, 0x00],
        vec![0x00, 0x01, 0x00, 0x01],
        vec![0x00, 0x01, 0x00, 0x00, 0x00, 0xFF],
        vec![0xFF, 0x00, 0x00, 0x00, 0x00, 0xFF],
        vec![0xFF_u8; 1],
        vec![0xED; 9],
        vec![0xED; 9],
        vec![0xED; 8],
        vec![0xEE; 7],
        vec![0xEF; 6],
        vec![0xFA; 5],
        vec![0xFB; 4],
        vec![0xFC; 3],
        vec![0xFD; 2],
        vec![0xFE; 1],
    ];

    for frame in frames.iter() {
        handle(&mut slot).start_encoder().unwrap();
        Logger::new().write(handle(&mut slot), frame);
        handle(&mut slot).finalize_encoder().unwrap();
    }
    log.drain_storage(&mut storage).unwrap();

    let len = log.retrieve_frames(&mut storage, &mut read_data).unwrap();

    let mut num_frames_read = 0;
    for (i, frame) in read_data[..len]
        .split_mut(|b| *b == COBS_SENTINEL_BYTE)
        .filter(|f| f.len() >= 1)
        .enumerate()
    {
        for b in frame.iter_mut() {
            *b ^= 0xFF;
        }
        let frame = rzcobs::decode(frame).unwrap();

        compare_with_trailing_zeros_ignored(&frames[i], &frame);
        num_frames_read += 1;
    }

    assert_eq!(
        num_frames_read,
        frames.len(),
        "Not all of the frames were read"
    );
}

// From rzCOBS docs:
//    When a message is encoded and then decoded, the result is the original message, with up
//    to 6 zero bytes appended.
//    Higher layer protocols must be able to deal with these appended zero bytes.
//
// Compares two slices of bytes by finding a middle ground w.r.t. number of trailing zeros
// and cuts the two slices there to have an equal length slices.
fn compare_with_trailing_zeros_ignored(left: &[u8], right: &[u8]) {
    let zeros_left = left.iter().rev().filter(|b| **b == 0x00).count();
    let zeros_right = right.iter().rev().filter(|b| **b == 0x00).count();
    let zeros_middle = core::cmp::min(zeros_left, zeros_right);

    assert_eq!(left[..zeros_middle], right[..zeros_middle]);
}
