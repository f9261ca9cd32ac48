use defmt_persist::logger::Acquired;
use defmt_persist::manager::refused_outcome;
use defmt_persist::pseudo_flash::PseudoFlashStorage;
use defmt_persist::queue::QueueError;
use defmt_persist::{
    handle, Error, LogBuffer, LogManager, LogProducer, Logger, StorageHelper, LOG_BUFFER_SIZE,
    MAX_ENCODING_SIZE,
};

fn buffer() -> &'static LogBuffer {
    Box::leak(Box::new(LogBuffer::new()))
}

#[test]
fn frames_go_through_to_the_storage() {
    let mut storage = PseudoFlashStorage {
        buf: &mut [0xFF; 256],
        ..Default::default()
    };
    let mut slot: Option<LogProducer> = None;
    let mut log = LogManager::try_new(buffer(), &mut storage, &mut slot).unwrap();
    assert_eq!(log.drain_storage(&mut storage), Ok(0));

    let producer = handle(&mut slot);
    // As one frame, in parts
    producer.start_encoder().unwrap();
    producer.encode(&[0x01]).unwrap();
    producer.encode(&[0x00, 0x02]).unwrap();
    producer.finalize_encoder().unwrap();
    // As a frame of its own
    Logger::new().write(producer, &[0x01]);
    assert_eq!(log.drain_storage(&mut storage), Ok(7));
    assert_eq!(
        &storage.buf[8..24],
        &[0xFE, 0xFD, 0x85, 0xFF, 0xFE, 0x81, 0xFF, 0xFF, 0xFF, 0xFF, 0xFF, 0xFF, 0xFF, 0xFF, 0xFF, 0xFF]
    );
    assert_eq!(log.drain_storage(&mut storage), Ok(0));

    let mut buf = [0u8; 16];
    assert_eq!(log.retrieve_frames(&mut storage, &mut buf), Ok(7));
    assert_eq!(&buf[..7], &[0xFE, 0xFD, 0x85, 0xFF, 0xFE, 0x81, 0xFF]);
    let unmasked: Vec<u8> = buf[..3].iter().map(|b| *b ^ 0xFF).collect();
    assert_eq!(rzcobs::encode(&[0x01, 0x00, 0x02]), unmasked);
    assert_eq!(log.retrieve_frames(&mut storage, &mut buf), Ok(0));
}

#[test]
fn frames_of_several_drains_are_read_in_order() {
    let mut storage = PseudoFlashStorage {
        buf: &mut [0xFF; 256],
        ..Default::default()
    };
    let mut slot: Option<LogProducer> = None;
    let mut log = LogManager::try_new(buffer(), &mut storage, &mut slot).unwrap();
    for k in 1..=5u8 {
        Logger::new().write(handle(&mut slot), &[k; 9]);
        assert!(log.drain_storage(&mut storage).unwrap() > 0);
    }
    let mut helper = StorageHelper::try_new(&mut storage).unwrap();
    let mut buf = [0u8; 256];
    let n = LogManager::retrieve_frames_helper(&mut helper, &mut storage, &mut buf).unwrap();
    let frames: Vec<Vec<u8>> = buf[..n]
        .split(|b| *b == 0xFF)
        .filter(|f| !f.is_empty())
        .map(|f| f.iter().map(|b| *b ^ 0xFF).collect())
        .collect();
    assert_eq!(frames.len(), 5);
    for (k, frame) in frames.iter().enumerate() {
        assert_eq!(frame, &rzcobs::encode(&[k as u8 + 1; 9]));
    }
}

#[test]
fn requests_in_the_wrong_order_are_refused() {
    let mut storage = PseudoFlashStorage {
        buf: &mut [0xFF; 256],
        ..Default::default()
    };
    let mut slot: Option<LogProducer> = None;
    let mut log = LogManager::try_new(buffer(), &mut storage, &mut slot).unwrap();
    let producer = handle(&mut slot);
    assert_eq!(producer.encode(&[1]), Err(()));
    assert_eq!(producer.finalize_encoder(), Err(()));
    assert_eq!(producer.start_encoder(), Ok(()));
    assert_eq!(producer.start_encoder(), Err(()));
    // A frame of no message is a separator alone
    assert_eq!(producer.finalize_encoder(), Ok(()));
    assert_eq!(producer.finalize_encoder(), Err(()));
    assert_eq!(log.drain_storage(&mut storage), Ok(1));
    let mut buf = [0u8; 16];
    assert_eq!(log.retrieve_frames(&mut storage, &mut buf), Ok(0));
}

#[test]
fn a_message_without_room_is_given_up() {
    let mut storage = PseudoFlashStorage {
        buf: &mut [0xFF; 256],
        ..Default::default()
    };
    let mut slot: Option<LogProducer> = None;
    let mut log = LogManager::try_new(buffer(), &mut storage, &mut slot).unwrap();
    let producer = handle(&mut slot);
    producer.start_encoder().unwrap();
    assert_eq!(producer.encode(&[1; MAX_ENCODING_SIZE]), Err(()));
    assert_eq!(producer.finalize_encoder(), Err(()));
    assert_eq!(log.drain_storage(&mut storage), Ok(0));
    Logger::new().write(producer, &[1; MAX_ENCODING_SIZE]);
    assert_eq!(log.drain_storage(&mut storage), Ok(0));
    // The largest that fits: a code byte for every 134 bytes, and one at the end
    producer.start_encoder().unwrap();
    assert_eq!(producer.encode(&[1; 507]), Ok(()));
    assert_eq!(producer.finalize_encoder(), Ok(()));
    // It is more than a page takes, and stays in the log buffer
    assert_eq!(log.drain_storage(&mut storage), Err(Error::StorageSize));
    assert_eq!(log.drain_storage(&mut storage), Err(Error::StorageSize));
}

#[test]
fn a_full_log_buffer_grants_no_room() {
    let mut storage = PseudoFlashStorage {
        buf: &mut [0xFF; 1024],
        ..Default::default()
    };
    let mut slot: Option<LogProducer> = None;
    let mut log = LogManager::try_new(buffer(), &mut storage, &mut slot).unwrap();
    let producer = handle(&mut slot);
    let mut committed = 0usize;
    while committed <= LOG_BUFFER_SIZE - MAX_ENCODING_SIZE {
        producer.start_encoder().unwrap();
        producer.encode(&[1; 50]).unwrap();
        producer.finalize_encoder().unwrap();
        committed += 52;
    }
    assert_eq!(producer.start_encoder(), Err(()));
    Logger::new().write(producer, &[2]);
    assert_eq!(log.drain_storage(&mut storage), Err(Error::StorageSize));
}

#[test]
fn the_ends_are_handed_out_once() {
    let mut storage = PseudoFlashStorage {
        buf: &mut [0xFF; 256],
        ..Default::default()
    };
    let buffer = buffer();
    let mut slot: Option<LogProducer> = None;
    assert!(LogManager::try_new(buffer, &mut storage, &mut slot).is_ok());
    let mut other: Option<LogProducer> = None;
    assert!(matches!(
        LogManager::try_new(buffer, &mut storage, &mut other),
        Err(Error::BBBuffer)
    ));
    assert!(other.is_none());
}

#[test]
fn a_log_is_opened_once() {
    let mut storage = PseudoFlashStorage {
        buf: &mut [0xFF; 256],
        ..Default::default()
    };
    let mut slot: Option<LogProducer> = None;
    let mut log = LogManager::try_new(buffer(), &mut storage, &mut slot).unwrap();
    let before = storage.buf.to_vec();
    // Another buffer that has not been split does not replace the producer
    let other = buffer();
    assert!(matches!(
        LogManager::try_new(other, &mut storage, &mut slot),
        Err(Error::BBBuffer)
    ));
    assert_eq!(storage.buf.to_vec(), before);
    Logger::new().write(handle(&mut slot), &[1]);
    assert_eq!(log.drain_storage(&mut storage), Ok(3));
    // It has not been split either
    let mut free: Option<LogProducer> = None;
    assert!(LogManager::try_new(other, &mut storage, &mut free).is_ok());
}

#[test]
fn a_refused_split_opens_nothing() {
    let mut storage = PseudoFlashStorage {
        buf: &mut [0xFF; 256],
        ..Default::default()
    };
    let mut slot: Option<LogProducer> = None;
    assert!(matches!(
        LogManager::opened(Err(QueueError::AlreadySplit), &mut storage, &mut slot),
        Err(Error::BBBuffer)
    ));
    assert!(slot.is_none());
    assert!(storage.buf.iter().all(|b| *b == 0xFF));
}

#[test]
fn a_storage_that_fails_leaves_the_producer() {
    let mut storage = PseudoFlashStorage {
        buf: &mut [0xFF; 256],
        ..Default::default()
    };
    storage.word_set.insert(0);
    let mut slot: Option<LogProducer> = None;
    assert!(matches!(
        LogManager::try_new(buffer(), &mut storage, &mut slot),
        Err(Error::StorageWrite)
    ));
    assert!(slot.is_some());
}

#[test]
fn retrieved_frames_stand_for_their_messages() {
    let messages: Vec<Vec<u8>> = vec![
        vec![0],
        vec![0; 7],
        vec![0; 8],
        vec![1, 2, 3, 4, 5, 6],
        vec![1, 2, 3, 4, 5, 6, 7],
        vec![1, 2, 3, 0, 5, 6, 7, 0, 0xFF],
        vec![9; 20],
        (0..30).collect(),
    ];
    let mut storage = PseudoFlashStorage {
        buf: &mut [0xFF; 256],
        ..Default::default()
    };
    let mut slot: Option<LogProducer> = None;
    let mut log = LogManager::try_new(buffer(), &mut storage, &mut slot).unwrap();
    for message in &messages {
        Logger::new().write(handle(&mut slot), message);
        // A frame of no message is not retrieved
        Logger::new().write(handle(&mut slot), &[]);
    }
    assert!(log.drain_storage(&mut storage).unwrap() > 0);
    assert_eq!(log.drain_storage(&mut storage), Ok(0));
    let mut buf = [0u8; 256];
    let n = log.retrieve_frames(&mut storage, &mut buf).unwrap();
    let frames: Vec<&[u8]> = buf[..n - 1].split(|b| *b == 0xFF).collect();
    assert_eq!(frames.len(), messages.len());
    for (frame, message) in frames.iter().zip(&messages) {
        let unmasked: Vec<u8> = frame.iter().map(|b| *b ^ 0xFF).collect();
        let decoded = rzcobs::decode(&unmasked).unwrap();
        assert_eq!(&decoded[..message.len()], &message[..]);
        assert!(decoded.len() - message.len() <= 6);
        assert!(decoded[message.len()..].iter().all(|b| *b == 0));
    }
}

#[test]
fn a_long_run_is_closed() {
    for len in [133usize, 134, 135, 268] {
        let mut storage = PseudoFlashStorage {
            buf: &mut [0xFF; 256],
            ..Default::default()
        };
        let mut slot: Option<LogProducer> = None;
        let mut log = LogManager::try_new(buffer(), &mut storage, &mut slot).unwrap();
        Logger::new().write(handle(&mut slot), &vec![5; len]);
        let n = rzcobs::encode(&vec![5; len]).len();
        // More than a page takes
        assert!(n > 128);
        assert_eq!(log.drain_storage(&mut storage), Err(Error::StorageSize));
    }
}

#[test]
fn drains_take_whole_frames() {
    let mut storage = PseudoFlashStorage {
        buf: &mut [0xFF; 1024],
        ..Default::default()
    };
    let mut slot: Option<LogProducer> = None;
    let mut log = LogManager::try_new(buffer(), &mut storage, &mut slot).unwrap();
    // The log buffer goes round several times
    for round in 0..60u8 {
        Logger::new().write(handle(&mut slot), &[round % 9 + 1; 50]);
        Logger::new().write(handle(&mut slot), &[round % 9 + 1; 11]);
        let mut total = 0;
        loop {
            let n = log.drain_storage(&mut storage).unwrap();
            if n == 0 {
                break;
            }
            assert!(n == 52 || n == 13 || n == 65);
            total += n;
        }
        // There may be no room for the second where the log buffer goes round
        assert!(total == 65 || total == 52);
    }
}

#[test]
fn messages_take_at_most_one_byte_more_for_every_seven() {
    for len in [1usize, 6, 7, 8, 100, 446] {
        for fill in [0u8, 1] {
            let mut message = vec![1u8; len];
            for k in (0..len).step_by(7) {
                message[k] = fill;
            }
            let mut storage = PseudoFlashStorage {
                buf: &mut [0xFF; 256],
                ..Default::default()
            };
            let mut slot: Option<LogProducer> = None;
            let _log = LogManager::try_new(buffer(), &mut storage, &mut slot).unwrap();
            let producer = handle(&mut slot);
            producer.start_encoder().unwrap();
            assert!(len + len / 7 < MAX_ENCODING_SIZE - 1);
            assert_eq!(producer.encode(&message), Ok(()));
            assert_eq!(producer.finalize_encoder(), Ok(()));
        }
    }
}

#[test]
fn a_failed_drain_releases_nothing() {
    let mut storage = PseudoFlashStorage {
        buf: &mut [0xFF; 256],
        ..Default::default()
    };
    let mut slot: Option<LogProducer> = None;
    let mut log = LogManager::try_new(buffer(), &mut storage, &mut slot).unwrap();
    Logger::new().write(handle(&mut slot), &[1]);
    storage.word_set.insert(1);
    assert_eq!(log.drain_storage(&mut storage), Err(Error::StorageWrite));
    storage.word_set.remove(&1);
    assert_eq!(log.drain_storage(&mut storage), Ok(3));
    assert_eq!(&storage.buf[8..11], &[0xFE, 0x81, 0xFF]);
}

#[test]
fn slices_need_a_place() {
    let mut storage = PseudoFlashStorage {
        buf: &mut [0xFF; 128],
        ..Default::default()
    };
    let mut helper = StorageHelper::try_new(&mut storage).unwrap();
    assert_eq!(
        LogManager::store(&mut helper, &mut storage, &[1; 121]),
        Err(Error::StorageSize)
    );
    assert_eq!(LogManager::store(&mut helper, &mut storage, &[1; 120]), Ok(120));
    let mut storage = PseudoFlashStorage {
        buf: &mut [0xFF; 256],
        ..Default::default()
    };
    let mut helper = StorageHelper::try_new(&mut storage).unwrap();
    assert_eq!(
        LogManager::store(&mut helper, &mut storage, &[1; 129]),
        Err(Error::StorageSize)
    );
    assert_eq!(LogManager::store(&mut helper, &mut storage, &[1; 128]), Ok(128));
    assert_eq!(helper.write_head(), 256);
}

#[test]
fn refusals_of_the_log_buffer() {
    assert_eq!(refused_outcome(QueueError::InsufficientSize), Ok(0));
    assert_eq!(refused_outcome(QueueError::GrantInProgress), Err(Error::BBBuffer));
    assert_eq!(refused_outcome(QueueError::AlreadySplit), Err(Error::BBBuffer));
}

#[test]
fn the_logger_is_handed_out_once_at_a_time() {
    let mut logger = Logger::new();
    assert_eq!(logger.acquire(true), Acquired::Granted);
    assert_eq!(logger.acquire(false), Acquired::Refused { enable_interrupts: false });
    assert_eq!(logger.acquire(true), Acquired::Refused { enable_interrupts: true });
    assert!(logger.release());
    assert_eq!(logger.acquire(false), Acquired::Granted);
    assert!(!logger.release());
}

#[test]
fn a_write_continues_the_frame_that_has_been_begun() {
    let mut storage = PseudoFlashStorage {
        buf: &mut [0xFF; 256],
        ..Default::default()
    };
    let mut slot: Option<LogProducer> = None;
    let mut log = LogManager::try_new(buffer(), &mut storage, &mut slot).unwrap();
    let producer = handle(&mut slot);
    let logger = Logger::new();
    producer.start_encoder().unwrap();
    logger.write(producer, &[1, 2]);
    logger.write_started(false, producer, &[3]);
    assert_eq!(log.drain_storage(&mut storage), Ok(0));
    producer.finalize_encoder().unwrap();
    assert_eq!(log.drain_storage(&mut storage), Ok(5));
    let frame: Vec<u8> = storage.buf[8..12].iter().map(|b| *b ^ 0xFF).collect();
    assert_eq!(rzcobs::encode(&[1, 2, 3]), frame);
    // Nothing has been begun
    logger.write_started(false, producer, &[4]);
    assert_eq!(log.drain_storage(&mut storage), Ok(0));
    producer.start_encoder().unwrap();
    logger.write_started(true, producer, &[4]);
    assert_eq!(log.drain_storage(&mut storage), Ok(3));
}
