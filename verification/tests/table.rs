use rusql::error::ErrorKind;
use rusql::row::{encode_row, Row};
use rusql::table::Table;
use rusql::{ROW_SIZE, TABLE_MAX_ROWS};

fn row(id: u32, username: &str, email: &str) -> Row {
    Row::new(id, username.as_bytes().to_vec(), email.as_bytes().to_vec())
}

#[test]
fn fresh_file_two_rows_select_and_reopen() {
    let mut table = Table::db_open(&[]).unwrap();
    assert_eq!(table.num_rows, 0);
    table.insert(row(1, "alice", "alice@x.com")).unwrap();
    table.insert(row(2, "bob", "bob@x.com")).unwrap();
    let rows = table.select().unwrap();
    assert_eq!(rows, vec![row(1, "alice", "alice@x.com"), row(2, "bob", "bob@x.com")]);

    let image = table.db_close();
    let mut reopened = Table::db_open(&image).unwrap();
    assert_eq!(reopened.num_rows, 2);
    let rows = reopened.select().unwrap();
    assert_eq!(rows, vec![row(1, "alice", "alice@x.com"), row(2, "bob", "bob@x.com")]);
}

#[test]
fn close_then_reopen_is_byte_identical() {
    let mut table = Table::db_open(&[]).unwrap();
    for i in 0..20u32 {
        table.insert(row(i, "user", "user@x.com")).unwrap();
    }
    let image = table.db_close();
    let reopened = Table::db_open(&image).unwrap();
    let image_again = reopened.db_close();
    assert_eq!(image, image_again);
}

#[test]
fn empty_table_persists_empty() {
    let table = Table::db_open(&[]).unwrap();
    let image = table.db_close();
    let mut reopened = Table::db_open(&image).unwrap();
    assert_eq!(reopened.num_rows, 0);
    assert!(reopened.select().unwrap().is_empty());
}

#[test]
fn overwidth_username_fails_and_leaves_table_unchanged() {
    let mut table = Table::db_open(&[]).unwrap();
    table.insert(row(1, "alice", "alice@x.com")).unwrap();
    let wide = String::from_utf8(vec![b'u'; 33]).unwrap();
    let err = table.insert(row(2, &wide, "b@x.com")).unwrap_err();
    assert_eq!(err.kind, ErrorKind::EncodingError);
    assert_eq!(table.num_rows, 1);
    assert_eq!(table.select().unwrap(), vec![row(1, "alice", "alice@x.com")]);
}

#[test]
fn capacity_is_table_max_rows() {
    let mut table = Table::db_open(&[]).unwrap();
    for i in 0..TABLE_MAX_ROWS as u32 {
        table.insert(row(i, "u", "u@x.com")).unwrap();
    }
    assert_eq!(table.num_rows, TABLE_MAX_ROWS);
    let err = table.insert(row(9999, "late", "late@x.com")).unwrap_err();
    assert_eq!(err.kind, ErrorKind::TableFull);
    assert_eq!(table.num_rows, TABLE_MAX_ROWS);
}

#[test]
fn full_table_survives_reopen() {
    let mut table = Table::db_open(&[]).unwrap();
    for i in 0..TABLE_MAX_ROWS as u32 {
        table.insert(row(i, "u", "u@x.com")).unwrap();
    }
    let image = table.db_close();
    let mut reopened = Table::db_open(&image).unwrap();
    assert_eq!(reopened.num_rows, TABLE_MAX_ROWS);
    let rows = reopened.select().unwrap();
    assert_eq!(rows.len(), TABLE_MAX_ROWS);
    assert_eq!(rows[0], row(0, "u", "u@x.com"));
    assert_eq!(rows[TABLE_MAX_ROWS - 1], row(TABLE_MAX_ROWS as u32 - 1, "u", "u@x.com"));
}

#[test]
fn image_with_a_gap_is_rejected() {
    // slot 0 unwritten, slot 1 live: not an image this store writes
    let mut image = vec![0u8; 4096];
    let live = encode_row(&row(7, "ghost", "g@x.com")).unwrap();
    image[ROW_SIZE..2 * ROW_SIZE].copy_from_slice(&live);
    let err = Table::db_open(&image).unwrap_err();
    assert_eq!(err.kind, ErrorKind::DecodingError);
}

#[test]
fn trailing_text_padding_is_trimmed_on_select() {
    // a username that ends in a zero byte is stored with that byte trimmed
    let mut table = Table::db_open(&[]).unwrap();
    table.insert(Row::new(1, b"ab\0".to_vec(), b"e@x.com".to_vec())).unwrap();
    let rows = table.select().unwrap();
    assert_eq!(rows, vec![row(1, "ab", "e@x.com")]);
}

#[test]
fn truncated_image_is_zero_padded_on_load() {
    // an image holding exactly one encoded row, far short of a page: the
    // remainder of the page reads as zeros, so exactly one row is live
    let image = encode_row(&row(5, "solo", "s@x.com")).unwrap();
    assert_eq!(image.len(), ROW_SIZE);
    let mut table = Table::db_open(&image).unwrap();
    assert_eq!(table.num_rows, 1);
    assert_eq!(table.select().unwrap(), vec![row(5, "solo", "s@x.com")]);
}
