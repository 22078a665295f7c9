use happycache::delta::DeltaEncoder;
use happycache::residency::CHUNK_PAGES;
use happycache::scan::{dump_file, encode_bitmap, FileScan, ScanError};

const PAGE: usize = 4096;

#[test]
fn empty_file_is_not_scanned() {
    assert!(FileScan::new(b"empty".to_vec(), 0, PAGE).is_none());
}

#[test]
fn pages_need_a_size() {
    assert!(FileScan::new(b"f".to_vec(), 100, 0).is_none());
}

#[test]
fn new_scan_has_its_first_chunk_pending() {
    let scan = FileScan::new(b"f".to_vec(), 3 * PAGE, PAGE).unwrap();
    assert!(!scan.finished());
    let chunk = scan.pending().unwrap();
    assert_eq!((chunk.start(), chunk.len()), (0, 3 * PAGE));
}

#[test]
fn resident_pages_become_a_block() {
    let mut scan = FileScan::new(b"a.txt".to_vec(), 3 * PAGE, PAGE).unwrap();
    let mut out = Vec::new();
    assert_eq!(dump_file(&mut scan, &[1, 1, 1], &mut out), Ok(()));
    assert_eq!(out, b"a.txt\n0\n1\n1\n".to_vec());
    assert!(scan.finished());
    assert!(scan.pending().is_none());
}

#[test]
fn single_resident_page_at_five() {
    let mut scan = FileScan::new(b"sub/b.txt".to_vec(), 6 * PAGE, PAGE).unwrap();
    let mut out = Vec::new();
    assert_eq!(dump_file(&mut scan, &[0, 0, 0, 0, 0, 1], &mut out), Ok(()));
    assert_eq!(out, b"sub/b.txt\n5\n".to_vec());
}

#[test]
fn any_nonzero_byte_is_resident() {
    let mut scan = FileScan::new(b"f".to_vec(), 4 * PAGE, PAGE).unwrap();
    let mut out = Vec::new();
    assert_eq!(dump_file(&mut scan, &[0, 255, 0, 128], &mut out), Ok(()));
    assert_eq!(out, b"f\n1\n2\n".to_vec());
}

#[test]
fn file_without_resident_pages_writes_nothing() {
    let mut scan = FileScan::new(b"cold".to_vec(), 4 * PAGE + 1, PAGE).unwrap();
    let mut out = b"before\n".to_vec();
    assert_eq!(dump_file(&mut scan, &[0, 0, 0, 0, 0], &mut out), Ok(()));
    assert_eq!(out, b"before\n".to_vec());
    assert!(scan.finished());
}

#[test]
fn bitmap_of_the_wrong_length_is_refused() {
    let mut scan = FileScan::new(b"f".to_vec(), 3 * PAGE, PAGE).unwrap();
    let mut out = b"kept".to_vec();
    assert_eq!(dump_file(&mut scan, &[1, 1], &mut out), Err(ScanError::BitmapLength));
    assert_eq!(dump_file(&mut scan, &[1, 1, 1, 1], &mut out), Err(ScanError::BitmapLength));
    assert_eq!(dump_file(&mut scan, &[], &mut out), Err(ScanError::BitmapLength));
    assert_eq!(out, b"kept".to_vec());
    assert!(!scan.finished());
    assert_eq!(dump_file(&mut scan, &[0, 1, 0], &mut out), Ok(()));
    assert_eq!(out, b"keptf\n1\n".to_vec());
}

#[test]
fn finished_scan_takes_no_more_bitmaps() {
    let mut scan = FileScan::new(b"f".to_vec(), PAGE, PAGE).unwrap();
    let mut out = Vec::new();
    assert_eq!(dump_file(&mut scan, &[1], &mut out), Ok(()));
    assert_eq!(dump_file(&mut scan, &[1], &mut out), Err(ScanError::Finished));
    assert_eq!(dump_file(&mut scan, &[], &mut out), Err(ScanError::Finished));
    assert_eq!(out, b"f\n0\n".to_vec());
}

#[test]
fn pages_on_both_sides_of_a_chunk_boundary() {
    let len = (CHUNK_PAGES + 2) * PAGE;
    let mut scan = FileScan::new(b"big".to_vec(), len, PAGE).unwrap();
    let mut out = Vec::new();

    let first = scan.pending().unwrap();
    assert_eq!((first.start(), first.len()), (0, CHUNK_PAGES * PAGE));
    let mut bitmap = first.residency_buffer(PAGE);
    assert_eq!(bitmap.len(), CHUNK_PAGES);
    bitmap[0] = 1;
    bitmap[1] = 1;
    assert_eq!(dump_file(&mut scan, &bitmap, &mut out), Ok(()));
    assert!(!scan.finished());

    let second = scan.pending().unwrap();
    assert_eq!((second.start(), second.len()), (CHUNK_PAGES * PAGE, 2 * PAGE));
    assert_eq!(dump_file(&mut scan, &[1, 1], &mut out), Ok(()));
    assert!(scan.finished());

    assert_eq!(out, b"big\n0\n1\n1048575\n1\n".to_vec());
}

#[test]
fn chunked_scan_writes_what_one_oversized_chunk_would() {
    let pages = 2 * CHUNK_PAGES + 5;
    let mut whole = vec![0u8; pages];
    for page in [7, CHUNK_PAGES - 1, CHUNK_PAGES, 2 * CHUNK_PAGES - 1, 2 * CHUNK_PAGES + 4] {
        whole[page] = 1;
    }

    let mut scan = FileScan::new(b"big".to_vec(), pages * PAGE - 100, PAGE).unwrap();
    let mut chunked = Vec::new();
    let mut chunks = 0;
    let mut at = 0;
    while let Some(chunk) = scan.pending() {
        let n = chunk.page_count(PAGE);
        assert_eq!(chunk.start(), at * PAGE);
        assert_eq!(dump_file(&mut scan, &whole[at..at + n], &mut chunked), Ok(()));
        at += n;
        chunks += 1;
    }
    assert_eq!(chunks, 3);
    assert_eq!(at, pages);

    let mut encoder = DeltaEncoder::new(b"big".to_vec());
    let mut at_once = Vec::new();
    encode_bitmap(&mut encoder, &whole, 0, &mut at_once);

    assert_eq!(chunked, at_once);
    assert_eq!(
        String::from_utf8(chunked).unwrap(),
        "big\n7\n1048568\n1\n1048575\n5\n"
    );
}

#[test]
fn first_resident_page_in_a_later_chunk_still_gets_the_header() {
    let len = (CHUNK_PAGES + 1) * PAGE;
    let mut scan = FileScan::new(b"late".to_vec(), len, PAGE).unwrap();
    let mut out = Vec::new();
    let bitmap = scan.pending().unwrap().residency_buffer(PAGE);
    assert_eq!(dump_file(&mut scan, &bitmap, &mut out), Ok(()));
    assert_eq!(out, Vec::<u8>::new());
    assert_eq!(dump_file(&mut scan, &[1], &mut out), Ok(()));
    assert_eq!(out, b"late\n1048576\n".to_vec());
}

#[test]
fn encode_bitmap_counts_pages_from_its_base() {
    let mut encoder = DeltaEncoder::new(b"f".to_vec());
    let mut out = Vec::new();
    encode_bitmap(&mut encoder, &[0, 1, 1, 0], 10, &mut out);
    assert_eq!(out, b"f\n11\n1\n".to_vec());
    assert_eq!(encoder.last(), 12);
    encode_bitmap(&mut encoder, &[1, 0], 14, &mut out);
    assert_eq!(out, b"f\n11\n1\n2\n".to_vec());
    assert_eq!(encoder.last(), 14);
}

#[test]
fn last_page_may_be_partial() {
    let mut scan = FileScan::new(b"f".to_vec(), PAGE + 1, PAGE).unwrap();
    let chunk = scan.pending().unwrap();
    assert_eq!(chunk.page_count(PAGE), 2);
    let mut out = Vec::new();
    assert_eq!(dump_file(&mut scan, &[0, 1], &mut out), Ok(()));
    assert_eq!(out, b"f\n1\n".to_vec());
}
