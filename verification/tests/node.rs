use rusql::error::ErrorKind;
use rusql::node::{LeafNode, LEAF_NODE_HEADER_SIZE, LEAF_NODE_LEFT_SPLIT_COUNT,
    LEAF_NODE_MAX_CELLS, LEAF_NODE_RIGHT_SPLIT_COUNT};
use rusql::page::Page;
use rusql::row::Row;
use rusql::PAGE_SIZE;

fn row(id: u32) -> Row {
    Row::new(id, b"user".to_vec(), b"user@x.com".to_vec())
}

#[test]
fn leaf_geometry() {
    assert_eq!(LEAF_NODE_MAX_CELLS, 13);
    assert_eq!(LEAF_NODE_LEFT_SPLIT_COUNT, 7);
    assert_eq!(LEAF_NODE_RIGHT_SPLIT_COUNT, 7);
}

#[test]
fn cells_stay_sorted_regardless_of_insertion_order() {
    let mut leaf = LeafNode::new_root();
    for id in [5u32, 1, 9, 3, 7] {
        assert!(leaf.leaf_insert(row(id)).unwrap().is_none());
    }
    let keys: Vec<u32> = leaf.cells.iter().map(|c| c.key).collect();
    assert_eq!(keys, vec![1, 3, 5, 7, 9]);
}

#[test]
fn leaf_find_returns_match_or_insertion_point() {
    let mut leaf = LeafNode::new_root();
    for id in [10u32, 20, 30] {
        leaf.leaf_insert(row(id)).unwrap();
    }
    assert_eq!(leaf.leaf_find(10), 0);
    assert_eq!(leaf.leaf_find(30), 2);
    assert_eq!(leaf.leaf_find(5), 0);
    assert_eq!(leaf.leaf_find(25), 2);
    assert_eq!(leaf.leaf_find(35), 3);
}

#[test]
fn duplicate_key_is_rejected() {
    let mut leaf = LeafNode::new_root();
    leaf.leaf_insert(row(4)).unwrap();
    let err = leaf.leaf_insert(row(4)).unwrap_err();
    assert_eq!(err.kind, ErrorKind::DuplicateKey);
    assert_eq!(leaf.cells.len(), 1);
}

#[test]
fn split_keeps_every_cell_once_and_in_order() {
    let mut leaf = LeafNode::new_root();
    // fill the leaf out of order
    let ids = [13u32, 1, 12, 2, 11, 3, 10, 4, 9, 5, 8, 6, 7];
    assert_eq!(ids.len(), LEAF_NODE_MAX_CELLS);
    for id in ids {
        assert!(leaf.leaf_insert(row(id)).unwrap().is_none());
    }
    // one more forces the split
    let right = leaf.leaf_insert(row(0)).unwrap().unwrap();
    assert_eq!(leaf.cells.len(), LEAF_NODE_LEFT_SPLIT_COUNT);
    assert_eq!(right.cells.len(), LEAF_NODE_RIGHT_SPLIT_COUNT);
    assert!(!right.is_root);
    let mut all: Vec<u32> = leaf.cells.iter().map(|c| c.key).collect();
    all.extend(right.cells.iter().map(|c| c.key));
    let expected: Vec<u32> = (0..14).collect();
    assert_eq!(all, expected);
    assert!(leaf.cells.last().unwrap().key < right.cells.first().unwrap().key);
}

#[test]
fn split_places_the_new_cell_where_it_belongs() {
    let mut leaf = LeafNode::new_root();
    for id in [0u32, 2, 4, 6, 8, 10, 12, 14, 16, 18, 20, 22, 24] {
        leaf.leaf_insert(row(id)).unwrap();
    }
    // the new middle key lands in one of the halves, order intact
    let right = leaf.leaf_insert(row(13)).unwrap().unwrap();
    let mut all: Vec<u32> = leaf.cells.iter().map(|c| c.key).collect();
    all.extend(right.cells.iter().map(|c| c.key));
    assert_eq!(all, vec![0, 2, 4, 6, 8, 10, 12, 13, 14, 16, 18, 20, 22, 24]);
}

#[test]
fn leaf_page_round_trip_is_byte_identical() {
    let mut leaf = LeafNode::new_root();
    for id in [9u32, 4, 7] {
        leaf.leaf_insert(row(id)).unwrap();
    }
    let page = leaf.leaf_to_page();
    let bytes = page.into_bytes();
    assert_eq!(bytes.len(), PAGE_SIZE);
    // header: leaf type, root flag, parent 0, three cells
    assert_eq!(&bytes[..10], &[0, 1, 0, 0, 0, 0, 3, 0, 0, 0]);
    // first cell: key 4 little-endian, then the live row for id 4
    assert_eq!(&bytes[10..14], &[4, 0, 0, 0]);
    assert_eq!(bytes[14], 1);
    assert_eq!(&bytes[15..19], &[4, 0, 0, 0]);

    let back = LeafNode::leaf_from_page(&page).unwrap();
    assert_eq!(back.is_root, true);
    assert_eq!(back.parent, 0);
    let keys: Vec<u32> = back.cells.iter().map(|c| c.key).collect();
    assert_eq!(keys, vec![4, 7, 9]);
    let again = back.leaf_to_page().into_bytes();
    assert_eq!(again, bytes);
}

#[test]
fn page_that_no_leaf_writes_is_rejected() {
    // an internal-node type byte
    let mut bytes = vec![0u8; PAGE_SIZE];
    bytes[0] = 1;
    assert_eq!(
        LeafNode::leaf_from_page(&Page::from_bytes(bytes)).unwrap_err().kind,
        ErrorKind::DecodingError
    );

    // a cell count past the leaf capacity
    let mut bytes = vec![0u8; PAGE_SIZE];
    bytes[LEAF_NODE_HEADER_SIZE - 4] = LEAF_NODE_MAX_CELLS as u8 + 1;
    assert_eq!(
        LeafNode::leaf_from_page(&Page::from_bytes(bytes)).unwrap_err().kind,
        ErrorKind::DecodingError
    );

    // one cell claimed but its liveness byte still clear
    let mut bytes = vec![0u8; PAGE_SIZE];
    bytes[LEAF_NODE_HEADER_SIZE - 4] = 1;
    assert_eq!(
        LeafNode::leaf_from_page(&Page::from_bytes(bytes)).unwrap_err().kind,
        ErrorKind::DecodingError
    );
}

#[test]
fn empty_root_leaf_round_trips() {
    let leaf = LeafNode::new_root();
    let page = leaf.leaf_to_page();
    let back = LeafNode::leaf_from_page(&page).unwrap();
    assert!(back.cells.is_empty());
    assert!(back.is_root);
    assert_eq!(back.leaf_to_page().into_bytes(), page.into_bytes());
}

#[test]
fn max_key_is_the_separator() {
    let mut leaf = LeafNode::new_root();
    for id in [8u32, 2, 5] {
        leaf.leaf_insert(row(id)).unwrap();
    }
    assert_eq!(leaf.max_key(), 8);
}
