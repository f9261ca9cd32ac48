use defmt_persist::pseudo_flash::PseudoFlashStorage;
use defmt_persist::stack::StackStorage;
use defmt_persist::storage::{ErasableStorage, Medium, ReadStorage, Storage};
use defmt_persist::{Error, StorageHelper};

const MAGIC: [u8; 8] = [0xFE, 0xED, 0xBE, 0xEF, 0xCA, 0xFE, 0xBA, 0xBE];

/// A storage that keeps everything but fails the requests it is told to fail.
struct Faulty {
    bytes: Vec<u8>,
    reads: bool,
    writes: bool,
    erases: bool,
}

impl Faulty {
    fn new(len: usize) -> Self {
        Faulty { bytes: vec![0xFF; len], reads: true, writes: true, erases: true }
    }
}

impl ReadStorage for Faulty {
    type Error = &'static str;

    /// For proofs only.
    fn medium(&self) -> Medium {
        unreachable!()
    }

    fn try_read(&mut self, offset: u32, bytes: &mut [u8]) -> Result<(), Self::Error> {
        if !self.reads {
            return Err("read");
        }
        let at = offset as usize;
        bytes.copy_from_slice(&self.bytes[at..at + bytes.len()]);
        Ok(())
    }

    fn capacity(&self) -> usize {
        self.bytes.len()
    }
}

impl Storage for Faulty {
    fn try_write(&mut self, offset: u32, bytes: &[u8]) -> Result<(), Self::Error> {
        if !self.writes {
            return Err("write");
        }
        let at = offset as usize;
        self.bytes[at..at + bytes.len()].copy_from_slice(bytes);
        Ok(())
    }
}

impl ErasableStorage for Faulty {
    const ERASE_SIZE: u32 = 32;

    /// For proofs only.
    fn page_size() -> u32 {
        unreachable!()
    }

    /// For proofs only.
    fn erase_size() {
        unreachable!()
    }

    fn try_erase(&mut self, from: u32, to: u32) -> Result<(), Self::Error> {
        if !self.erases {
            return Err("erase");
        }
        let end = (to / 32 + 1) * 32;
        self.bytes[from as usize..end as usize].fill(0xFF);
        Ok(())
    }
}

#[test]
fn failures_of_the_storage_are_told_apart() {
    let mut storage = Faulty::new(64);
    storage.reads = false;
    assert!(matches!(StorageHelper::try_new(&mut storage), Err(Error::StorageRead)));
    storage.reads = true;
    storage.writes = false;
    assert!(matches!(StorageHelper::try_new(&mut storage), Err(Error::StorageWrite)));
    storage.writes = true;
    let mut sh = StorageHelper::try_new(&mut storage).unwrap();
    assert_eq!(sh.write_head(), 8);

    storage.writes = false;
    assert_eq!(sh.write_slice(&mut storage, &[1; 8]), Err(Error::StorageWrite));
    assert_eq!(sh.write_head(), 8);
    storage.writes = true;
    sh.write_slice(&mut storage, &[1; 24]).unwrap();
    sh.write_slice(&mut storage, &[2; 32]).unwrap();
    assert_eq!(sh.write_head(), 64);

    storage.erases = false;
    assert_eq!(sh.write_slice(&mut storage, &[3; 8]), Err(Error::StorageErase));
    assert_eq!(sh.write_head(), 64);
    storage.erases = true;
    storage.reads = false;
    let mut buf = [0u8; 4];
    assert_eq!(sh.read_slice(&mut storage, &mut buf), Err(Error::StorageRead));
    assert_eq!(sh.read_frames(&mut storage, &mut buf), Err(Error::StorageRead));
    assert_eq!(sh.read_head(), 8);
}

#[test]
fn opening_again_changes_nothing() {
    let mut storage = PseudoFlashStorage {
        buf: &mut [0xFF; 256],
        ..Default::default()
    };
    let mut sh = StorageHelper::try_new(&mut storage).unwrap();
    sh.write_slice(&mut storage, &[1, 2, 3, 0xFF]).unwrap();
    let before = storage.buf.to_vec();
    let again = StorageHelper::try_new(&mut storage).unwrap();
    assert_eq!(storage.buf.to_vec(), before);
    assert_eq!(&before[..8], &MAGIC);
    assert_eq!(again.write_head(), sh.write_head());
    assert_eq!(again.read_head(), 8);
}

#[test]
fn a_storage_that_cannot_be_set_up_is_refused() {
    let mut storage = PseudoFlashStorage {
        buf: &mut [0xFF; 128],
        ..Default::default()
    };
    storage.try_write(0, &[0; 8]).unwrap();
    assert!(matches!(StorageHelper::try_new(&mut storage), Err(Error::StorageWrite)));
}

#[test]
fn the_log_goes_on_in_the_biggest_erased_area() {
    let mut storage = Faulty::new(128);
    storage.bytes[..8].copy_from_slice(&MAGIC);
    // Words 1, 4 and 5 and the last are in use
    for word in [1usize, 4, 5, 15] {
        storage.bytes[8 * word] = 1;
    }
    assert_eq!(StorageHelper::seek_write_head(&mut storage), Ok(48));
    // Of two areas of the same size it is the first
    storage.bytes[8 * 9] = 1;
    storage.bytes[8 * 12] = 1;
    assert_eq!(StorageHelper::seek_write_head(&mut storage), Ok(48));
    storage.bytes.fill(0);
    assert_eq!(StorageHelper::seek_write_head(&mut storage), Ok(0));
    storage.bytes[..8].copy_from_slice(&MAGIC);
    assert_eq!(StorageHelper::seek_write_head(&mut storage), Ok(8));
}

#[test]
fn slices_do_not_span_pages() {
    let mut storage = PseudoFlashStorage {
        buf: &mut [0xFF; 384],
        ..Default::default()
    };
    let mut sh = StorageHelper::try_new(&mut storage).unwrap();
    sh.write_slice(&mut storage, &[1; 100]).unwrap();
    assert_eq!(sh.write_head(), 112);
    sh.write_slice(&mut storage, &[2; 17]).unwrap();
    assert_eq!(sh.write_head(), 128 + 24);
    assert!(storage.buf[112..128].iter().all(|b| *b == 0xFF));
    assert!(storage.buf[128..145].iter().all(|b| *b == 2));
    assert!(storage.buf[145..].iter().all(|b| *b == 0xFF));
    sh.write_slice(&mut storage, &[3; 128]).unwrap();
    assert_eq!(sh.write_head(), 384);
}

#[test]
fn the_log_wraps_and_keeps_the_other_pages() {
    let mut storage = PseudoFlashStorage {
        buf: &mut [0xFF; 384],
        ..Default::default()
    };
    let mut sh = StorageHelper::try_new(&mut storage).unwrap();
    sh.write_slice(&mut storage, &[1; 120]).unwrap();
    sh.write_slice(&mut storage, &[2; 128]).unwrap();
    sh.write_slice(&mut storage, &[3; 128]).unwrap();
    // The first page is erased and set up anew
    sh.write_slice(&mut storage, &[4; 64]).unwrap();
    assert_eq!(sh.write_head(), 72);
    assert_eq!(&storage.buf[..8], &MAGIC);
    assert!(storage.buf[8..72].iter().all(|b| *b == 4));
    assert!(storage.buf[72..128].iter().all(|b| *b == 0xFF));
    assert!(storage.buf[128..256].iter().all(|b| *b == 2));
    assert!(storage.buf[256..].iter().all(|b| *b == 3));
    // The next page is in use, so it is erased
    sh.write_slice(&mut storage, &[5; 64]).unwrap();
    assert_eq!(sh.write_head(), 192);
    assert!(storage.buf[8..72].iter().all(|b| *b == 4));
    assert!(storage.buf[128..192].iter().all(|b| *b == 5));
    assert!(storage.buf[192..256].iter().all(|b| *b == 0xFF));
    assert!(storage.buf[256..].iter().all(|b| *b == 3));
}

#[test]
fn a_used_place_in_a_page_is_left_for_the_next_page() {
    let mut storage = Faulty::new(96);
    storage.bytes[..8].copy_from_slice(&MAGIC);
    storage.bytes[8] = 1;
    storage.bytes[24] = 1;
    let mut sh = StorageHelper::try_new(&mut storage).unwrap();
    assert_eq!(sh.write_head(), 32);
    // The words behind the slice are in use by then
    storage.bytes[40] = 7;
    sh.write_slice(&mut storage, &[2; 8]).unwrap();
    assert_eq!(sh.write_head(), 40);
    sh.write_slice(&mut storage, &[3; 8]).unwrap();
    assert_eq!(sh.write_head(), 72);
    assert_eq!(&storage.bytes[64..72], &[3; 8]);
    assert_eq!(storage.bytes[40], 7);
    // From the last page on to the first
    storage.bytes[72] = 7;
    sh.write_slice(&mut storage, &[4; 8]).unwrap();
    assert_eq!(sh.write_head(), 16);
    assert_eq!(&storage.bytes[..8], &MAGIC);
    assert_eq!(&storage.bytes[8..16], &[4; 8]);
    assert!(storage.bytes[16..32].iter().all(|b| *b == 0xFF));
    assert_eq!(&storage.bytes[64..72], &[3; 8]);
}

#[test]
fn an_empty_slice_moves_nothing() {
    let mut storage = PseudoFlashStorage {
        buf: &mut [0xFF; 256],
        ..Default::default()
    };
    let mut sh = StorageHelper::try_new(&mut storage).unwrap();
    sh.write_slice(&mut storage, &[1; 120]).unwrap();
    assert_eq!(sh.write_head(), 128);
    sh.write_slice(&mut storage, &[]).unwrap();
    assert_eq!(sh.write_head(), 128);
    sh.write_slice(&mut storage, &[2; 128]).unwrap();
    sh.write_slice(&mut storage, &[]).unwrap();
    assert_eq!(sh.write_head(), 256);
}

#[test]
fn estimates_count_whole_words() {
    type Helper<'a> = StorageHelper<PseudoFlashStorage<'a>>;
    assert_eq!(Helper::estimate_frame_size_aligned(&[]), 0);
    assert_eq!(Helper::estimate_frame_size_aligned(&[1; 8]), 8);
    assert_eq!(Helper::estimate_frame_size_aligned(&[1; 9]), 16);
    assert_eq!(Helper::estimate_frame_size_aligned(&[0xFF; 9]), 9);
    assert_eq!(Helper::estimate_frame_size_aligned(&[0xFF; 10]), 16);
}

#[test]
fn read_marker_moves() {
    let mut storage = PseudoFlashStorage {
        buf: &mut [0xFF; 128],
        ..Default::default()
    };
    let mut sh = StorageHelper::try_new(&mut storage).unwrap();
    sh.incr_read_marker(&mut storage, 16);
    assert_eq!(sh.read_head(), 24);
    sh.decr_read_marker(16);
    assert_eq!(sh.read_head(), 8);
    sh.decr_read_marker(9);
    assert_eq!(sh.read_head(), 0);
    sh.incr_read_marker(&mut storage, 127);
    assert_eq!(sh.read_head(), 127);
    sh.incr_read_marker(&mut storage, 1);
    assert_eq!(sh.read_head(), 129);
}

#[test]
fn frames_are_read_up_to_the_room_there_is() {
    let mut storage = PseudoFlashStorage {
        buf: &mut [0xFF; 128],
        ..Default::default()
    };
    let mut sh = StorageHelper::try_new(&mut storage).unwrap();
    sh.write_slice(&mut storage, &[1, 2, 0xFF, 3, 0xFF]).unwrap();
    sh.write_slice(&mut storage, &[4, 5, 6, 7, 8, 9, 10, 11, 12, 0xFF]).unwrap();
    sh.write_slice(&mut storage, &[13; 8]).unwrap();

    let mut buf = [0u8; 6];
    assert_eq!(sh.read_frames(&mut storage, &mut buf), Ok(5));
    assert_eq!(buf, [1, 2, 0xFF, 3, 0xFF, 0]);
    assert_eq!(sh.read_head(), 16);
    // The next does not fit
    assert_eq!(sh.read_frames(&mut storage, &mut buf), Ok(0));
    assert_eq!(buf, [1, 2, 0xFF, 3, 0xFF, 0]);
    let mut buf = [0u8; 10];
    assert_eq!(sh.read_frames(&mut storage, &mut buf), Ok(10));
    assert_eq!(buf, [4, 5, 6, 7, 8, 9, 10, 11, 12, 0xFF]);
    // Behind the last word there is erased space, which ends the frame
    assert_eq!(sh.read_frames(&mut storage, &mut buf), Ok(9));
    assert_eq!(buf, [13, 13, 13, 13, 13, 13, 13, 13, 0xFF, 0xFF]);
    assert_eq!(sh.read_frames(&mut storage, &mut buf), Ok(0));
    assert_eq!(sh.read_head(), 128);
}

#[test]
fn an_unended_frame_is_not_read() {
    let mut storage = PseudoFlashStorage {
        buf: &mut [0xFF; 128],
        ..Default::default()
    };
    let mut sh = StorageHelper::try_new(&mut storage).unwrap();
    sh.write_slice(&mut storage, &[9; 120]).unwrap();
    let mut buf = [0u8; 200];
    assert_eq!(sh.read_frames(&mut storage, &mut buf), Ok(0));
    assert_eq!(sh.read_head(), 8);
}

#[test]
fn empty_words_and_areas() {
    let mut storage = PseudoFlashStorage {
        buf: &mut [0xFF; 128],
        ..Default::default()
    };
    storage.buf[20] = 0;
    assert_eq!(StorageHelper::is_word_empty(&mut storage, 8), Ok(true));
    assert_eq!(StorageHelper::is_word_empty(&mut storage, 16), Ok(false));
    assert_eq!(StorageHelper::is_area_empty(&mut storage, 0, 16), Ok(true));
    assert_eq!(StorageHelper::is_area_empty(&mut storage, 0, 17), Ok(false));
    assert_eq!(StorageHelper::is_area_empty(&mut storage, 24, 24), Ok(true));
    assert_eq!(StorageHelper::is_area_empty(&mut storage, 24, 8), Ok(true));
    assert_eq!(StorageHelper::is_area_empty(&mut storage, 500, 8), Ok(true));
    assert_eq!(StorageHelper::check_magic(&mut storage), Ok(false));
    assert_eq!(StorageHelper::write_magic(&mut storage), Ok(()));
    assert_eq!(StorageHelper::check_magic(&mut storage), Ok(true));
}

#[test]
fn stack_storage_reads_back() {
    let mut bytes = [0u8; 16];
    let mut storage = StackStorage { buf: &mut bytes };
    assert_eq!(storage.capacity(), 16);
    storage.try_write(3, &[1, 2, 3]).unwrap();
    storage.try_write(3, &[4, 5]).unwrap();
    let mut back = [9u8; 5];
    storage.try_read(2, &mut back).unwrap();
    assert_eq!(back, [0, 4, 5, 3, 0]);
}
