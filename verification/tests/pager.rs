use rusql::cursor::Cursor;
use rusql::error::ErrorKind;
use rusql::page::Page;
use rusql::pager::Pager;
use rusql::{PAGE_SIZE, TABLE_MAX_PAGES};

#[test]
fn page_write_and_read_back() {
    let mut page = Page::from_bytes(vec![0u8; PAGE_SIZE]);
    let r = page.write(10..13, vec![7, 8, 9]);
    assert!(r.is_ok());
    let bytes = page.into_bytes();
    assert_eq!(&bytes[9..14], &[0, 7, 8, 9, 0]);
    assert_eq!(page.read(10, 3), vec![7, 8, 9]);
}

#[test]
fn load_out_of_bounds_page_is_rejected() {
    let mut pager = Pager::open(Vec::new());
    let err = pager.load_page(TABLE_MAX_PAGES).unwrap_err();
    assert_eq!(err.kind, ErrorKind::OutOfBounds);
}

#[test]
fn flush_of_a_page_never_loaded_is_rejected() {
    let mut pager = Pager::open(Vec::new());
    let err = pager.flush(0).unwrap_err();
    assert_eq!(err.kind, ErrorKind::FlushEmptyPage);
}

#[test]
fn short_file_loads_zero_padded() {
    let mut pager = Pager::open(vec![0xAB; 10]);
    pager.load_page(0).unwrap();
    let head = pager.read_from_page(0, 0, 12);
    assert_eq!(head, vec![0xAB, 0xAB, 0xAB, 0xAB, 0xAB, 0xAB, 0xAB, 0xAB, 0xAB, 0xAB, 0, 0]);
}

#[test]
fn flushed_write_survives_in_the_image() {
    let mut pager = Pager::open(Vec::new());
    pager.load_page(1).unwrap();
    pager.write_in_page(1, 5, vec![1, 2, 3]).unwrap();
    let image = pager.close();
    assert_eq!(image.len(), 2 * PAGE_SIZE);
    assert_eq!(&image[PAGE_SIZE + 4..PAGE_SIZE + 9], &[0, 1, 2, 3, 0]);
}

#[test]
fn cursor_walks_to_the_end() {
    let mut c = Cursor::start(2);
    assert!(!c.end_of_table);
    assert_eq!(c.row_num, 0);
    c.advance();
    assert!(!c.end_of_table);
    c.advance();
    assert!(c.end_of_table);
    assert_eq!(c.row_num, 2);

    let empty = Cursor::start(0);
    assert!(empty.end_of_table);
    let end = Cursor::end(5);
    assert!(end.end_of_table);
    assert_eq!(end.row_num, 5);
}
