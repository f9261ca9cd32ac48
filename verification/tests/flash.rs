use defmt_persist::pseudo_flash::PseudoFlashStorage;
use defmt_persist::storage::{ErasableStorage, ReadStorage, Storage};

#[test]
fn cant_write_twice() {
    const STORAGE_CAPACITY: usize = 32;
    const WORD_SIZE: usize = 8;

    let mut storage = PseudoFlashStorage {
        buf: &mut [0xFFu8; STORAGE_CAPACITY],
        ..Default::default()
    };

    for wi in (0..STORAGE_CAPACITY).step_by(WORD_SIZE) {
        storage.try_write(wi as u32, &[0x00; WORD_SIZE]).unwrap();

        // FLASH won't allow to write to the same programmed word twice before erasing
        assert!(storage.try_write(wi as u32, &[0x00; WORD_SIZE]).is_err());
    }

    // The code above should touch all of the storage words
    assert_eq!(storage.word_set.len(), STORAGE_CAPACITY / WORD_SIZE);
}

#[test]
fn can_write_after_erase() {
    const NUM_PAGES: usize = 4;
    const PAGE_SIZE: usize = PseudoFlashStorage::ERASE_SIZE as usize;
    const STORAGE_CAPACITY: usize = PAGE_SIZE * NUM_PAGES;

    let mut storage = PseudoFlashStorage {
        buf: &mut [0xFFu8; STORAGE_CAPACITY],
        ..Default::default()
    };

    for page_nr in (0..NUM_PAGES).into_iter() {
        let from = (PAGE_SIZE * page_nr) as u32;
        let to = (PAGE_SIZE * (page_nr + 1)) as u32;

        storage.try_write(from, &[0x00; PAGE_SIZE]).unwrap();
        assert!(
            storage.try_write(from, &[0x00; PAGE_SIZE]).is_err(),
            "can't write before erased"
        );
        assert!(
            storage.try_erase(from, to - 1).is_ok(),
            "can write after erase"
        );
        storage.try_write(from, &[0x00; PAGE_SIZE]).unwrap();
        assert!(
            storage.try_write(from, &[0x00; PAGE_SIZE]).is_err(),
            "can't write before erased"
        );

        assert!(
            storage.try_erase(from + 1, to).is_err(),
            "can erase unaligned page"
        );
    }
}

#[test]
fn erase_reaches_the_end_of_the_page() {
    let mut storage = PseudoFlashStorage {
        buf: &mut [0x11u8; 256],
        ..Default::default()
    };
    storage.try_erase(0, 5).unwrap();
    assert!(storage.buf[..128].iter().all(|b| *b == 0xFF));
    assert!(storage.buf[128..].iter().all(|b| *b == 0x11));
    // Nothing to erase in an empty range
    storage.try_erase(128, 3).unwrap();
    assert!(storage.buf[128..].iter().all(|b| *b == 0x11));
    // Past the end
    assert!(storage.try_erase(128, 256).is_err());
}

#[test]
fn refused_write_locks_the_words_before() {
    let mut storage = PseudoFlashStorage {
        buf: &mut [0xFFu8; 128],
        ..Default::default()
    };
    storage.try_write(16, &[1; 8]).unwrap();
    assert!(storage.try_write(0, &[2; 32]).is_err());
    assert!(storage.buf[..16].iter().all(|b| *b == 0xFF));
    let mut words: Vec<usize> = storage.word_set.iter().copied().collect();
    words.sort();
    assert_eq!(words, vec![0, 1, 2]);
    let mut back = [0u8; 10];
    storage.try_read(14, &mut back).unwrap();
    assert_eq!(back, [0xFF, 0xFF, 1, 1, 1, 1, 1, 1, 1, 1]);
    assert_eq!(storage.capacity(), 128);
}
