//! The B-tree leaf node layout: the cell geometry every in-use page follows
//! (a common node header, then for leaves a cell count and a sorted cell
//! array), and the operations on one leaf — find, insert in place, and the
//! split, which must never lose, duplicate or misorder a cell.
use vstd::prelude::*;
use vstd::bytes::{
    lemma_auto_spec_u32_to_from_le_bytes, spec_u32_from_le_bytes, spec_u32_to_le_bytes,
    u32_from_le_bytes, u32_to_le_bytes,
};
use crate::error::{ErrorKind, ExecError};
use crate::page::Page;
use crate::row::{
    canonical_row, decode_row, encode_row, lemma_decode_encode, lemma_decoded_valid,
    lemma_encode_decode, spec_decode_row, spec_encode_row, Row, RowV, LIVE_MARKER,
};
use crate::{PAGE_SIZE, ROW_SIZE};
use vstd::arithmetic::div_mod::{lemma_fundamental_div_mod, lemma_mod_bound};

verus! {

// Common node header layout: node type, root flag, parent pointer.
pub const NODE_TYPE_SIZE: usize = 1;

pub const NODE_TYPE_OFFSET: usize = 0;

pub const IS_ROOT_SIZE: usize = 1;

pub const IS_ROOT_OFFSET: usize = NODE_TYPE_OFFSET + NODE_TYPE_SIZE;

pub const PARENT_POINTER_SIZE: usize = 4;

pub const PARENT_POINTER_OFFSET: usize = IS_ROOT_OFFSET + IS_ROOT_SIZE;

pub const COMMON_NODE_HEADER_SIZE: usize = NODE_TYPE_SIZE + IS_ROOT_SIZE + PARENT_POINTER_SIZE;

// Leaf node header layout: the common header, then the cell count.
pub const LEAF_NODE_NUM_CELLS_SIZE: usize = 4;

pub const LEAF_NODE_NUM_CELLS_OFFSET: usize = COMMON_NODE_HEADER_SIZE;

pub const LEAF_NODE_HEADER_SIZE: usize = COMMON_NODE_HEADER_SIZE + LEAF_NODE_NUM_CELLS_SIZE;

// Leaf node body layout: cells of a four-byte key and one encoded row,
// packed from the end of the header.
pub const LEAF_NODE_KEY_SIZE: usize = 4;

pub const LEAF_NODE_VALUE_SIZE: usize = ROW_SIZE;

pub const LEAF_NODE_CELL_SIZE: usize = LEAF_NODE_KEY_SIZE + LEAF_NODE_VALUE_SIZE;

pub const LEAF_NODE_SPACE_FOR_CELLS: usize = PAGE_SIZE - LEAF_NODE_HEADER_SIZE;

/// The most cells one leaf page can hold.
pub const LEAF_NODE_MAX_CELLS: usize = LEAF_NODE_SPACE_FOR_CELLS / LEAF_NODE_CELL_SIZE;

/// How many cells move to the new leaf when a full leaf splits.
pub const LEAF_NODE_RIGHT_SPLIT_COUNT: usize = (LEAF_NODE_MAX_CELLS + 1) / 2;

/// How many cells stay behind when a full leaf splits.
pub const LEAF_NODE_LEFT_SPLIT_COUNT: usize = LEAF_NODE_MAX_CELLS + 1
    - LEAF_NODE_RIGHT_SPLIT_COUNT;

/// The node-type byte of a leaf page.
pub const NODE_TYPE_LEAF: u8 = 0;

/// The node-type byte of an internal page.
pub const NODE_TYPE_INTERNAL: u8 = 1;

/// One leaf cell: a key and the row stored under it.
#[derive(Debug)]
pub struct LeafCell {
    /// The cell's key; always the row's id.
    pub key: u32,
    /// The stored row.
    pub row: Row,
}

/// A leaf node: the common header fields and the sorted cell array.
#[derive(Debug)]
pub struct LeafNode {
    /// Whether this node is the tree's root.
    pub is_root: bool,
    /// The parent's page number; meaningful only when not the root.
    pub parent: u32,
    /// The cells, sorted ascending by key.
    pub cells: Vec<LeafCell>,
}

/// The model of one cell: its key and its row's model.
pub open spec fn cell_view(c: LeafCell) -> (u32, RowV) {
    (c.key, c.row@)
}

/// Where a new key lands in a key-sorted cell sequence: the number of
/// leading entries with a smaller key.
pub open spec fn spec_insert_pos(s: Seq<(u32, RowV)>, key: u32) -> int
    decreases s.len(),
{
    if s.len() == 0 {
        0
    } else if s[0].0 < key {
        1 + spec_insert_pos(s.drop_first(), key)
    } else {
        0
    }
}

/// A key-sorted cell sequence with `(key, r)` inserted at its place: no
/// cell lost, none duplicated, the order kept.
pub open spec fn spec_sorted_insert(s: Seq<(u32, RowV)>, key: u32, r: RowV) -> Seq<(u32, RowV)> {
    let p = spec_insert_pos(s, key);
    s.subrange(0, p) + seq![(key, r)] + s.subrange(p, s.len() as int)
}

/// The search index of `leaf_find` is exactly the model's insertion point.
proof fn lemma_insert_pos(s: Seq<(u32, RowV)>, key: u32, idx: int)
    requires
        0 <= idx <= s.len(),
        forall|i: int| 0 <= i < idx ==> s[i].0 < key,
        forall|i: int| idx <= i < s.len() ==> s[i].0 >= key,
    ensures
        spec_insert_pos(s, key) == idx,
    decreases s.len(),
{
    if s.len() > 0 && s[0].0 < key {
        assert(idx >= 1);
        let t = s.drop_first();
        assert forall|i: int| 0 <= i < idx - 1 implies t[i].0 < key by {
            assert(t[i] == s[i + 1]);
        }
        assert forall|i: int| idx - 1 <= i < t.len() implies t[i].0 >= key by {
            assert(t[i] == s[i + 1]);
        }
        lemma_insert_pos(t, key, idx - 1);
    }
}

impl LeafNode {
    /// The node's cells as models, in cell order.
    pub open spec fn cell_views(self) -> Seq<(u32, RowV)> {
        self.cells@.map_values(|c: LeafCell| cell_view(c))
    }

    /// The cells are strictly ascending by key: sorted, with no duplicate.
    pub open spec fn sorted(self) -> bool {
        forall|a: int, b: int|
            0 <= a < b < self.cells@.len() ==> self.cells@[a].key < self.cells@[b].key
    }

    /// Well-formedness: within page capacity, sorted, every row storable and
    /// keyed by its own id.
    pub open spec fn wf(self) -> bool {
        &&& self.cells@.len() <= LEAF_NODE_MAX_CELLS
        &&& self.sorted()
        &&& forall|i: int|
            0 <= i < self.cells@.len() ==> (#[trigger] self.cells@[i]).row@.valid()
                && self.cells@[i].key == self.cells@[i].row.id
    }

    /// Whether some cell holds `key`.
    pub open spec fn contains_key(self, key: u32) -> bool {
        exists|i: int| 0 <= i < self.cells@.len() && self.cells@[i].key == key
    }

    /// A fresh, empty root leaf.
    pub fn new_root() -> (n: LeafNode)
        ensures
            n.wf(),
            n.cells@.len() == 0,
            n.is_root,
    {
        LeafNode { is_root: true, parent: 0, cells: Vec::new() }
    }

    /// The greatest key in the leaf: what a parent records as the separator
    /// for this node when a split propagates upward.
    pub fn max_key(&self) -> (k: u32)
        requires
            self.wf(),
            self.cells@.len() > 0,
        ensures
            k == self.cells@.last().key,
            forall|i: int| 0 <= i < self.cells@.len() ==> self.cells@[i].key <= k,
    {
        self.cells[self.cells.len() - 1].key
    }

    /// Binary search over the sorted key array: the index of `key`'s cell,
    /// or of the cell it would be inserted before.
    pub fn leaf_find(&self, key: u32) -> (idx: usize)
        requires
            self.wf(),
        ensures
            idx <= self.cells@.len(),
            forall|i: int| 0 <= i < idx ==> self.cells@[i].key < key,
            forall|i: int| idx <= i < self.cells@.len() ==> self.cells@[i].key >= key,
            self.contains_key(key) <==> (idx < self.cells@.len() && self.cells@[idx as int].key
                == key),
    {
        let mut lo: usize = 0;
        let mut hi: usize = self.cells.len();
        while lo < hi
            invariant
                self.wf(),
                lo <= hi <= self.cells@.len(),
                forall|i: int| 0 <= i < lo ==> self.cells@[i].key < key,
                forall|i: int| hi <= i < self.cells@.len() ==> self.cells@[i].key >= key,
            decreases hi - lo,
        {
            let mid = lo + (hi - lo) / 2;
            if self.cells[mid].key < key {
                proof {
                    assert forall|i: int| 0 <= i < mid + 1 implies self.cells@[i].key < key by {
                        if i < mid {
                            assert(self.cells@[i].key < self.cells@[mid as int].key);
                        }
                    }
                }
                lo = mid + 1;
            } else {
                proof {
                    assert forall|i: int|
                        mid <= i < self.cells@.len() implies self.cells@[i].key >= key by {
                        if i > mid {
                            assert(self.cells@[mid as int].key < self.cells@[i].key);
                        }
                    }
                }
                hi = mid;
            }
        }
        proof {
            if self.contains_key(key) {
                let w = choose|i: int|
                    0 <= i < self.cells@.len() && self.cells@[i].key == key;
                assert(w >= lo);
                if w > lo {
                    assert(self.cells@[lo as int].key < self.cells@[w].key);
                }
            }
        }
        lo
    }

    /// Inserts `row` under its id. A key already present is rejected and
    /// nothing changes. With room to spare the cell goes in at its sorted
    /// place. A full leaf splits: the lower half of the combined cells stays
    /// here, the upper half moves to a new leaf, and together the two halves
    /// hold exactly the old cells plus the new one, still in key order —
    /// every key that stays is below every key that moved.
    #[verifier::rlimit(100)]
    #[verifier::spinoff_prover]
    pub fn leaf_insert(&mut self, row: Row) -> (res: Result<Option<LeafNode>, ExecError>)
        requires
            old(self).wf(),
            row@.valid(),
        ensures
            final(self).wf(),
            final(self).is_root == old(self).is_root,
            final(self).parent == old(self).parent,
            old(self).contains_key(row.id) ==> res == Err::<Option<LeafNode>, ExecError>(
                ExecError { kind: ErrorKind::DuplicateKey },
            ) && *final(self) == *old(self),
            !old(self).contains_key(row.id) && old(self).cells@.len() < LEAF_NODE_MAX_CELLS ==> (
            res matches Ok(o) && o is None && final(self).cell_views() == spec_sorted_insert(
                old(self).cell_views(),
                row.id,
                row@,
            )),
            !old(self).contains_key(row.id) && old(self).cells@.len() == LEAF_NODE_MAX_CELLS ==> (
            res matches Ok(o) && o matches Some(right) && {
                &&& right.wf()
                &&& final(self).cell_views() + right.cell_views() == spec_sorted_insert(
                    old(self).cell_views(),
                    row.id,
                    row@,
                )
                &&& final(self).cells@.len() == LEAF_NODE_LEFT_SPLIT_COUNT
                &&& right.cells@.len() == LEAF_NODE_RIGHT_SPLIT_COUNT
                &&& forall|a: int, b: int|
                    0 <= a < final(self).cells@.len() && 0 <= b < right.cells@.len() ==> (
                    #[trigger] final(self).cells@[a]).key < (#[trigger] right.cells@[b]).key
                &&& !right.is_root
                &&& right.parent == old(self).parent
            }),
    {
        proof {
            lemma_leaf_geometry();
        }
        let key = row.id;
        let idx = self.leaf_find(key);
        if idx < self.cells.len() && self.cells[idx].key == key {
            return Err(ExecError { kind: ErrorKind::DuplicateKey });
        }
        proof {
            lemma_insert_pos(self.cell_views(), key, idx as int);
        }
        let ghost before = *self;
        let cell = LeafCell { key, row };
        self.cells.insert(idx, cell);
        proof {
            assert(self.cells@ =~= before.cells@.subrange(0, idx as int) + seq![
                LeafCell { key, row },
            ] + before.cells@.subrange(idx as int, before.cells@.len() as int));
            assert(self.cell_views() =~= spec_sorted_insert(before.cell_views(), key, row@));
            assert forall|a: int, b: int|
                0 <= a < b < self.cells@.len() implies self.cells@[a].key
                < self.cells@[b].key by {
                if a < idx && b > idx {
                    assert(before.cells@[a].key < key);
                    assert(before.cells@[b - 1].key >= key);
                    assert(before.cells@[b - 1].key != key);
                }
            }
            assert forall|i: int|
                0 <= i < self.cells@.len() implies (#[trigger] self.cells@[i]).row@.valid()
                && self.cells@[i].key == self.cells@[i].row.id by {}
        }
        if self.cells.len() <= LEAF_NODE_MAX_CELLS {
            return Ok(None);
        }
        let ghost combined = *self;
        let right_cells = self.cells.split_off(LEAF_NODE_LEFT_SPLIT_COUNT);
        let right = LeafNode { is_root: false, parent: self.parent, cells: right_cells };
        proof {
            assert(combined.cells@.len() == LEAF_NODE_MAX_CELLS + 1);
            assert(self.cells@ =~= combined.cells@.subrange(
                0,
                LEAF_NODE_LEFT_SPLIT_COUNT as int,
            ));
            assert(right.cells@ =~= combined.cells@.subrange(
                LEAF_NODE_LEFT_SPLIT_COUNT as int,
                combined.cells@.len() as int,
            ));
            assert(self.cell_views() + right.cell_views() =~= combined.cell_views());
        }
        Ok(Some(right))
    }

    /// Serialises the leaf into one page, bit-exact: the node header, the
    /// packed cells, and zero padding out to the page end.
    #[verifier::spinoff_prover]
    pub fn leaf_to_page(&self) -> (p: Page)
        requires
            self.wf(),
        ensures
            p.wf(),
            p@ == spec_leaf_bytes(*self),
    {
        proof {
            lemma_leaf_geometry();
            lemma_auto_spec_u32_to_from_le_bytes();
            assert forall|i: int|
                0 <= i < self.cell_views().len() implies (#[trigger] self.cell_views()[i]).1.encodable() by {
                assert(self.cells@[i].row@.valid());
            }
            lemma_cells_bytes_len(self.cell_views());
        }
        let mut out: Vec<u8> = Vec::new();
        out.push(NODE_TYPE_LEAF);
        out.push(if self.is_root { 1u8 } else { 0u8 });
        let mut pb = u32_to_le_bytes(self.parent);
        out.append(&mut pb);
        let mut nb = u32_to_le_bytes(self.cells.len() as u32);
        out.append(&mut nb);
        let ghost header = seq![NODE_TYPE_LEAF, spec_bool_byte(self.is_root)]
            + spec_u32_to_le_bytes(self.parent) + spec_u32_to_le_bytes(self.cells@.len() as u32);
        assert(out@ =~= header);
        let mut i: usize = 0;
        while i < self.cells.len()
            invariant
                self.wf(),
                i <= self.cells@.len(),
                header == seq![NODE_TYPE_LEAF, spec_bool_byte(self.is_root)]
                    + spec_u32_to_le_bytes(self.parent) + spec_u32_to_le_bytes(
                    self.cells@.len() as u32,
                ),
                out@ == header + spec_cells_bytes(self.cell_views().take(i as int)),
            decreases self.cells@.len() - i,
        {
            let ghost prev = out@;
            let mut kb = u32_to_le_bytes(self.cells[i].key);
            out.append(&mut kb);
            let mut rowb = match encode_row(&self.cells[i].row) {
                Ok(b) => b,
                Err(_) => {
                    proof {
                        assert(self.cells@[i as int].row@.valid());
                        assert(false);
                    }
                    Vec::new()
                },
            };
            out.append(&mut rowb);
            proof {
                lemma_leaf_geometry();
                lemma_auto_spec_u32_to_from_le_bytes();
                let v = self.cell_views();
                assert(v.take(i + 1).drop_last() =~= v.take(i as int));
                assert(v.take(i + 1).last() == v[i as int]);
                assert(out@ =~= prev + spec_cell_bytes(v[i as int]));
                assert(out@ =~= header + spec_cells_bytes(v.take(i + 1)));
            }
            i = i + 1;
        }
        proof {
            lemma_leaf_geometry();
            assert(self.cell_views().take(self.cells@.len() as int) =~= self.cell_views());
            lemma_cells_bytes_len(self.cell_views());
            assert(out@.len() == LEAF_NODE_HEADER_SIZE + self.cells@.len()
                * LEAF_NODE_CELL_SIZE);
        }
        let ghost filled = out@;
        proof {
            lemma_leaf_geometry();
            assert(self.cells@.len() <= LEAF_NODE_MAX_CELLS);
            assert(out@.len() <= PAGE_SIZE);
            assert(out@ =~= filled + Seq::new((out@.len() - filled.len()) as nat, |k: int| 0u8));
        }
        while out.len() < PAGE_SIZE
            invariant
                filled.len() <= out@.len() <= PAGE_SIZE,
                out@ == filled + Seq::new((out@.len() - filled.len()) as nat, |k: int| 0u8),
            decreases PAGE_SIZE - out@.len(),
        {
            out.push(0u8);
            proof {
                assert(out@ =~= filled + Seq::new((out@.len() - filled.len()) as nat, |k: int| 0u8));
            }
        }
        assert(out@ =~= spec_leaf_bytes(*self));
        Page::from_bytes(out)
    }

    /// Reads a leaf node back out of one page. Exactly the pages that some
    /// well-formed leaf writes parse back; every other page is malformed.
    /// The node read back re-serialises to the very same page bytes.
    #[verifier::rlimit(60)]
    #[verifier::spinoff_prover]
    pub fn leaf_from_page(p: &Page) -> (res: Result<LeafNode, ExecError>)
        requires
            p.wf(),
        ensures
            res is Ok <==> leaf_image_ok(p@),
            res matches Ok(n) ==> n.wf() && spec_leaf_bytes(n) == p@,
            res is Err ==> res == Err::<LeafNode, ExecError>(
                ExecError { kind: ErrorKind::DecodingError },
            ),
    {
        proof {
            lemma_leaf_geometry();
            lemma_auto_spec_u32_to_from_le_bytes();
        }
        if node_type_byte(p) != NODE_TYPE_LEAF {
            return Err(ExecError { kind: ErrorKind::DecodingError });
        }
        let root_byte = p.bytes[IS_ROOT_OFFSET];
        if root_byte > 1 {
            return Err(ExecError { kind: ErrorKind::DecodingError });
        }
        let is_root = root_byte == 1;
        let parent = u32_from_le_bytes(
            vstd::slice::slice_subrange(
                p.bytes.as_slice(),
                PARENT_POINTER_OFFSET,
                PARENT_POINTER_OFFSET + PARENT_POINTER_SIZE,
            ),
        );
        let num32 = u32_from_le_bytes(
            vstd::slice::slice_subrange(
                p.bytes.as_slice(),
                LEAF_NODE_NUM_CELLS_OFFSET,
                LEAF_NODE_NUM_CELLS_OFFSET + LEAF_NODE_NUM_CELLS_SIZE,
            ),
        );
        if num32 > LEAF_NODE_MAX_CELLS as u32 {
            return Err(ExecError { kind: ErrorKind::DecodingError });
        }
        let num = num32 as usize;
        assert(num == leaf_num_at(p@));
        let mut cells: Vec<LeafCell> = Vec::new();
        let mut j: usize = 0;
        while j < num
            invariant
                p.wf(),
                p@[NODE_TYPE_OFFSET as int] == NODE_TYPE_LEAF,
                p@[IS_ROOT_OFFSET as int] == spec_bool_byte(is_root),
                spec_u32_from_le_bytes(
                    p@.subrange(
                        PARENT_POINTER_OFFSET as int,
                        PARENT_POINTER_OFFSET + PARENT_POINTER_SIZE,
                    ),
                ) == parent,
                num == leaf_num_at(p@),
                num <= LEAF_NODE_MAX_CELLS,
                j <= num,
                cells@.len() == j,
                forall|t: int| 0 <= t < j ==> leaf_cell_ok(p@, t),
                forall|t: int| 0 <= t < j ==> (#[trigger] cells@[t]).key == leaf_key_at(p@, t),
                forall|t: int|
                    0 <= t < j ==> (#[trigger] cells@[t]).row@ == spec_decode_row(
                        leaf_row_bytes_at(p@, t),
                    )->Some_0,
                forall|t: int|
                    0 <= t < j ==> (#[trigger] cells@[t]).row@.valid() && cells@[t].key
                        == cells@[t].row.id,
                forall|a: int, b: int| 0 <= a < b < j ==> cells@[a].key < cells@[b].key,
            decreases num - j,
        {
            proof {
                lemma_leaf_geometry();
                lemma_auto_spec_u32_to_from_le_bytes();
            }
            let off = LEAF_NODE_HEADER_SIZE + j * LEAF_NODE_CELL_SIZE;
            proof {
                assert(p.bytes@.len() == PAGE_SIZE);
                assert(off + LEAF_NODE_CELL_SIZE <= PAGE_SIZE);
            }
            let key = u32_from_le_bytes(
                vstd::slice::slice_subrange(p.bytes.as_slice(), off, off + LEAF_NODE_KEY_SIZE),
            );
            assert(key == leaf_key_at(p@, j as int));
            if p.bytes[off + LEAF_NODE_KEY_SIZE] != LIVE_MARKER {
                proof {
                    assert(leaf_row_bytes_at(p@, j as int)[0] != LIVE_MARKER);
                    assert(!leaf_cell_ok(p@, j as int));
                }
                return Err(ExecError { kind: ErrorKind::DecodingError });
            }
            let row = match decode_row(
                vstd::slice::slice_subrange(
                    p.bytes.as_slice(),
                    off + LEAF_NODE_KEY_SIZE,
                    off + LEAF_NODE_CELL_SIZE,
                ),
            ) {
                Ok(Some(r)) => r,
                _ => {
                    proof {
                        assert(leaf_row_bytes_at(p@, j as int)[0] == LIVE_MARKER);
                        assert(false);
                    }
                    return Err(ExecError { kind: ErrorKind::DecodingError });
                },
            };
            proof {
                lemma_decoded_valid(leaf_row_bytes_at(p@, j as int));
            }
            if row.id != key {
                proof {
                    assert(!leaf_cell_ok(p@, j as int));
                }
                return Err(ExecError { kind: ErrorKind::DecodingError });
            }
            if j > 0 && cells[j - 1].key >= key {
                proof {
                    assert(leaf_key_at(p@, j as int - 1) >= leaf_key_at(p@, j as int));
                }
                return Err(ExecError { kind: ErrorKind::DecodingError });
            }
            proof {
                assert forall|a: int| 0 <= a < j implies cells@[a].key < key by {
                    if a < j - 1 {
                        assert(cells@[a].key < cells@[j - 1].key);
                    }
                }
            }
            cells.push(LeafCell { key, row });
            j = j + 1;
        }
        proof {
            lemma_leaf_geometry();
            assert(LEAF_NODE_HEADER_SIZE + num * LEAF_NODE_CELL_SIZE <= PAGE_SIZE);
        }
        let mut k: usize = LEAF_NODE_HEADER_SIZE + num * LEAF_NODE_CELL_SIZE;
        while k < PAGE_SIZE
            invariant
                p.wf(),
                p@[NODE_TYPE_OFFSET as int] == NODE_TYPE_LEAF,
                p@[IS_ROOT_OFFSET as int] == spec_bool_byte(is_root),
                spec_u32_from_le_bytes(
                    p@.subrange(
                        PARENT_POINTER_OFFSET as int,
                        PARENT_POINTER_OFFSET + PARENT_POINTER_SIZE,
                    ),
                ) == parent,
                num == leaf_num_at(p@),
                num <= LEAF_NODE_MAX_CELLS,
                LEAF_NODE_HEADER_SIZE + num * LEAF_NODE_CELL_SIZE <= k <= PAGE_SIZE,
                cells@.len() == num,
                forall|t: int| 0 <= t < num ==> leaf_cell_ok(p@, t),
                forall|t: int| 0 <= t < num ==> (#[trigger] cells@[t]).key == leaf_key_at(p@, t),
                forall|t: int|
                    0 <= t < num ==> (#[trigger] cells@[t]).row@ == spec_decode_row(
                        leaf_row_bytes_at(p@, t),
                    )->Some_0,
                forall|t: int|
                    0 <= t < num ==> (#[trigger] cells@[t]).row@.valid() && cells@[t].key
                        == cells@[t].row.id,
                forall|a: int, b: int| 0 <= a < b < num ==> cells@[a].key < cells@[b].key,
                forall|t: int|
                    LEAF_NODE_HEADER_SIZE + num * LEAF_NODE_CELL_SIZE <= t < k ==> p@[t] == 0u8,
            decreases PAGE_SIZE - k,
        {
            proof {
                lemma_leaf_geometry();
            }
            if p.bytes[k] != 0 {
                return Err(ExecError { kind: ErrorKind::DecodingError });
            }
            k = k + 1;
        }
        let node = LeafNode { is_root, parent, cells };
        proof {
            lemma_leaf_geometry();
            assert(node.wf());
            lemma_leaf_reconstruct(p@, node, num as int);
        }
        Ok(node)
    }
}

/// The node-type byte of a page.
fn node_type_byte(p: &Page) -> (b: u8)
    requires
        p.wf(),
    ensures
        b == p@[NODE_TYPE_OFFSET as int],
{
    p.bytes[NODE_TYPE_OFFSET]
}


/// The leaf geometry, worked out: thirteen cells of 295 bytes after a
/// ten-byte header fit one 4096-byte page.
#[verifier::spinoff_prover]
pub proof fn lemma_leaf_geometry()
    ensures
        LEAF_NODE_HEADER_SIZE == 10,
        LEAF_NODE_KEY_SIZE == 4,
        LEAF_NODE_CELL_SIZE == 295,
        LEAF_NODE_MAX_CELLS == 13,
        LEAF_NODE_LEFT_SPLIT_COUNT == 7,
        LEAF_NODE_RIGHT_SPLIT_COUNT == 7,
        PAGE_SIZE == 4096,
        ROW_SIZE == 291,
{
}

/// The header byte standing for the root flag.
pub open spec fn spec_bool_byte(b: bool) -> u8 {
    if b {
        1u8
    } else {
        0u8
    }
}

/// The bytes of one cell: the little-endian key, then the encoded row.
pub open spec fn spec_cell_bytes(c: (u32, RowV)) -> Seq<u8> {
    spec_u32_to_le_bytes(c.0) + spec_encode_row(c.1)
}

/// The bytes of a cell array, packed in order.
pub open spec fn spec_cells_bytes(s: Seq<(u32, RowV)>) -> Seq<u8>
    decreases s.len(),
{
    if s.len() == 0 {
        Seq::empty()
    } else {
        spec_cells_bytes(s.drop_last()) + spec_cell_bytes(s.last())
    }
}

/// The exact page bytes of a leaf node: node type, root flag, parent
/// pointer, cell count, the packed cells, and zero padding to the page end.
pub open spec fn spec_leaf_bytes(n: LeafNode) -> Seq<u8> {
    seq![NODE_TYPE_LEAF, spec_bool_byte(n.is_root)] + spec_u32_to_le_bytes(n.parent)
        + spec_u32_to_le_bytes(n.cells@.len() as u32) + spec_cells_bytes(n.cell_views())
        + Seq::new(
        (PAGE_SIZE - LEAF_NODE_HEADER_SIZE - n.cells@.len() * LEAF_NODE_CELL_SIZE) as nat,
        |i: int| 0u8,
    )
}

/// The byte offset of cell `j` within a leaf page.
pub open spec fn cell_off(j: int) -> int {
    LEAF_NODE_HEADER_SIZE + j * LEAF_NODE_CELL_SIZE
}

/// The key of cell `j` of leaf page bytes `b`.
pub open spec fn leaf_key_at(b: Seq<u8>, j: int) -> u32 {
    spec_u32_from_le_bytes(
        b.subrange(
            LEAF_NODE_HEADER_SIZE + j * LEAF_NODE_CELL_SIZE,
            LEAF_NODE_HEADER_SIZE + j * LEAF_NODE_CELL_SIZE + LEAF_NODE_KEY_SIZE,
        ),
    )
}

/// The row bytes of cell `j` of leaf page bytes `b`.
pub open spec fn leaf_row_bytes_at(b: Seq<u8>, j: int) -> Seq<u8> {
    b.subrange(
        LEAF_NODE_HEADER_SIZE + j * LEAF_NODE_CELL_SIZE + LEAF_NODE_KEY_SIZE,
        LEAF_NODE_HEADER_SIZE + (j + 1) * LEAF_NODE_CELL_SIZE,
    )
}

/// The cell count held in the header of leaf page bytes `b`.
pub open spec fn leaf_num_at(b: Seq<u8>) -> int {
    spec_u32_from_le_bytes(
        b.subrange(
            LEAF_NODE_NUM_CELLS_OFFSET as int,
            LEAF_NODE_NUM_CELLS_OFFSET + LEAF_NODE_NUM_CELLS_SIZE,
        ),
    ) as int
}

/// Cell `j` of leaf page bytes `b` holds a row: its liveness byte is the
/// live marker and its key is the row's id.
pub open spec fn leaf_cell_ok(b: Seq<u8>, j: int) -> bool {
    &&& leaf_row_bytes_at(b, j)[0] == LIVE_MARKER
    &&& spec_decode_row(leaf_row_bytes_at(b, j))->Some_0.id == leaf_key_at(b, j)
}

/// The pages that parse back as a leaf node: a leaf type byte, a root flag
/// of zero or one, a cell count within capacity, cells that each hold a row
/// under its own id in strictly ascending key order, and zero padding after
/// the last cell.
pub open spec fn leaf_image_ok(b: Seq<u8>) -> bool {
    &&& b.len() == PAGE_SIZE
    &&& b[NODE_TYPE_OFFSET as int] == NODE_TYPE_LEAF
    &&& (b[IS_ROOT_OFFSET as int] == 0 || b[IS_ROOT_OFFSET as int] == 1)
    &&& leaf_num_at(b) <= LEAF_NODE_MAX_CELLS
    &&& forall|j: int| 0 <= j < leaf_num_at(b) ==> leaf_cell_ok(b, j)
    &&& forall|j: int| 0 <= j < leaf_num_at(b) - 1 ==> #[trigger] leaf_key_at(b, j) < leaf_key_at(
        b,
        j + 1,
    )
    &&& forall|k: int|
        LEAF_NODE_HEADER_SIZE + leaf_num_at(b) * LEAF_NODE_CELL_SIZE <= k < PAGE_SIZE ==> b[k]
            == 0u8
}

/// A packed cell array takes one cell-size worth of bytes per cell.
#[verifier::rlimit(30)]
#[verifier::spinoff_prover]
proof fn lemma_cells_bytes_len(s: Seq<(u32, RowV)>)
    requires
        forall|i: int| 0 <= i < s.len() ==> (#[trigger] s[i]).1.encodable(),
    ensures
        spec_cells_bytes(s).len() == s.len() * LEAF_NODE_CELL_SIZE,
    decreases s.len(),
{
    lemma_leaf_geometry();
    if s.len() > 0 {
        assert forall|i: int| 0 <= i < s.drop_last().len() implies (#[trigger] s.drop_last()[i]).1.encodable() by {
            assert(s.drop_last()[i] == s[i]);
        }
        lemma_cells_bytes_len(s.drop_last());
        vstd::bytes::lemma_auto_spec_u32_to_from_le_bytes();
    }
}

/// Each cell of a packed cell array sits at its own offset.
#[verifier::rlimit(30)]
#[verifier::spinoff_prover]
proof fn lemma_cells_bytes_index(s: Seq<(u32, RowV)>, j: int)
    requires
        forall|i: int| 0 <= i < s.len() ==> (#[trigger] s[i]).1.encodable(),
        0 <= j < s.len(),
    ensures
        spec_cells_bytes(s).subrange(j * LEAF_NODE_CELL_SIZE, (j + 1) * LEAF_NODE_CELL_SIZE)
            == spec_cell_bytes(s[j]),
    decreases s.len(),
{
    lemma_leaf_geometry();
    lemma_cells_bytes_len(s);
    assert forall|i: int| 0 <= i < s.drop_last().len() implies (#[trigger] s.drop_last()[i]).1.encodable() by {
        assert(s.drop_last()[i] == s[i]);
    }
    lemma_cells_bytes_len(s.drop_last());
    vstd::bytes::lemma_auto_spec_u32_to_from_le_bytes();
    if j == s.len() - 1 {
        assert(spec_cells_bytes(s).subrange(j * LEAF_NODE_CELL_SIZE, (j + 1)
            * LEAF_NODE_CELL_SIZE) =~= spec_cell_bytes(s[j]));
    } else {
        lemma_cells_bytes_index(s.drop_last(), j);
        let pre = spec_cells_bytes(s.drop_last());
        assert(spec_cells_bytes(s) == pre + spec_cell_bytes(s.last()));
        assert(pre.len() == (s.len() - 1) * LEAF_NODE_CELL_SIZE);
        assert((j + 1) * LEAF_NODE_CELL_SIZE <= pre.len());
        assert forall|x: int|
            j * LEAF_NODE_CELL_SIZE <= x < (j + 1) * LEAF_NODE_CELL_SIZE implies spec_cells_bytes(
            s,
        )[x] == pre[x] by {}
        assert(spec_cells_bytes(s).subrange(j * LEAF_NODE_CELL_SIZE, (j + 1)
            * LEAF_NODE_CELL_SIZE) =~= pre.subrange(
            j * LEAF_NODE_CELL_SIZE,
            (j + 1) * LEAF_NODE_CELL_SIZE,
        ));
    }
}

/// Two leaf pages whose cells agree, cell by cell, agree on the whole cell
/// region.
#[verifier::rlimit(30)]
#[verifier::spinoff_prover]
proof fn lemma_cell_region_eq(b1: Seq<u8>, b2: Seq<u8>, num: int, m: int)
    requires
        b1.len() == PAGE_SIZE,
        b2.len() == PAGE_SIZE,
        0 <= m <= num,
        LEAF_NODE_HEADER_SIZE + num * LEAF_NODE_CELL_SIZE <= PAGE_SIZE,
        forall|j: int| #![trigger cell_off(j)]
            0 <= j < num ==> b1.subrange(cell_off(j), cell_off(j + 1)) == b2.subrange(
                cell_off(j),
                cell_off(j + 1),
            ),
    ensures
        b1.subrange(
            LEAF_NODE_HEADER_SIZE as int,
            LEAF_NODE_HEADER_SIZE + m * LEAF_NODE_CELL_SIZE,
        ) == b2.subrange(
            LEAF_NODE_HEADER_SIZE as int,
            LEAF_NODE_HEADER_SIZE + m * LEAF_NODE_CELL_SIZE,
        ),
    decreases m,
{
    lemma_leaf_geometry();
    if m > 0 {
        lemma_cell_region_eq(b1, b2, num, m - 1);
        assert(cell_off(m - 1) == LEAF_NODE_HEADER_SIZE + (m - 1) * LEAF_NODE_CELL_SIZE);
        assert(cell_off(m) == LEAF_NODE_HEADER_SIZE + m * LEAF_NODE_CELL_SIZE);
        assert(b1.subrange(cell_off(m - 1), cell_off(m)) == b2.subrange(
            cell_off(m - 1),
            cell_off(m),
        ));
        assert(b1.subrange(LEAF_NODE_HEADER_SIZE as int, LEAF_NODE_HEADER_SIZE + m * LEAF_NODE_CELL_SIZE) =~= b1.subrange(LEAF_NODE_HEADER_SIZE as int, LEAF_NODE_HEADER_SIZE + (m - 1) * LEAF_NODE_CELL_SIZE) + b1.subrange(
            LEAF_NODE_HEADER_SIZE + (m - 1) * LEAF_NODE_CELL_SIZE,
            LEAF_NODE_HEADER_SIZE + m * LEAF_NODE_CELL_SIZE,
        ));
        assert(b2.subrange(LEAF_NODE_HEADER_SIZE as int, LEAF_NODE_HEADER_SIZE + m * LEAF_NODE_CELL_SIZE) =~= b2.subrange(LEAF_NODE_HEADER_SIZE as int, LEAF_NODE_HEADER_SIZE + (m - 1) * LEAF_NODE_CELL_SIZE) + b2.subrange(
            LEAF_NODE_HEADER_SIZE + (m - 1) * LEAF_NODE_CELL_SIZE,
            LEAF_NODE_HEADER_SIZE + m * LEAF_NODE_CELL_SIZE,
        ));
    } else {
        assert(b1.subrange(LEAF_NODE_HEADER_SIZE as int, LEAF_NODE_HEADER_SIZE as int) =~= b2.subrange(LEAF_NODE_HEADER_SIZE as int, LEAF_NODE_HEADER_SIZE as int));
    }
}

/// Where every part of a well-formed leaf's page bytes sits.
#[verifier::rlimit(30)]
#[verifier::spinoff_prover]
proof fn lemma_leaf_bytes_shape(n: LeafNode)
    requires
        n.wf(),
    ensures
        spec_leaf_bytes(n).len() == PAGE_SIZE,
        spec_leaf_bytes(n)[NODE_TYPE_OFFSET as int] == NODE_TYPE_LEAF,
        spec_leaf_bytes(n)[IS_ROOT_OFFSET as int] == spec_bool_byte(n.is_root),
        spec_leaf_bytes(n).subrange(
            PARENT_POINTER_OFFSET as int,
            PARENT_POINTER_OFFSET + PARENT_POINTER_SIZE,
        ) == spec_u32_to_le_bytes(n.parent),
        spec_leaf_bytes(n).subrange(
            LEAF_NODE_NUM_CELLS_OFFSET as int,
            LEAF_NODE_NUM_CELLS_OFFSET + LEAF_NODE_NUM_CELLS_SIZE,
        ) == spec_u32_to_le_bytes(n.cells@.len() as u32),
        forall|j: int|
            0 <= j < n.cells@.len() ==> spec_leaf_bytes(n).subrange(
                LEAF_NODE_HEADER_SIZE + j * LEAF_NODE_CELL_SIZE,
                LEAF_NODE_HEADER_SIZE + (j + 1) * LEAF_NODE_CELL_SIZE,
            ) == spec_cell_bytes(n.cell_views()[j]),
        forall|k: int|
            LEAF_NODE_HEADER_SIZE + n.cells@.len() * LEAF_NODE_CELL_SIZE <= k < PAGE_SIZE
                ==> spec_leaf_bytes(n)[k] == 0u8,
{
    lemma_leaf_geometry();
    let b = spec_leaf_bytes(n);
    let len = n.cells@.len() as int;
    assert forall|i: int| 0 <= i < n.cell_views().len() implies (#[trigger] n.cell_views()[i]).1.encodable() by {
        assert(n.cells@[i].row@.valid());
    }
    lemma_cells_bytes_len(n.cell_views());
    lemma_auto_spec_u32_to_from_le_bytes();
    assert(b.len() == PAGE_SIZE);
    assert(b.subrange(PARENT_POINTER_OFFSET as int, PARENT_POINTER_OFFSET + PARENT_POINTER_SIZE)
        =~= spec_u32_to_le_bytes(n.parent));
    assert(b.subrange(
        LEAF_NODE_NUM_CELLS_OFFSET as int,
        LEAF_NODE_NUM_CELLS_OFFSET + LEAF_NODE_NUM_CELLS_SIZE,
    ) =~= spec_u32_to_le_bytes(n.cells@.len() as u32));
    assert forall|j: int|
        0 <= j < len implies b.subrange(
        LEAF_NODE_HEADER_SIZE + j * LEAF_NODE_CELL_SIZE,
        LEAF_NODE_HEADER_SIZE + (j + 1) * LEAF_NODE_CELL_SIZE,
    ) == spec_cell_bytes(n.cell_views()[j]) by {
        lemma_cells_bytes_index(n.cell_views(), j);
        assert(b.subrange(
            LEAF_NODE_HEADER_SIZE + j * LEAF_NODE_CELL_SIZE,
            LEAF_NODE_HEADER_SIZE + (j + 1) * LEAF_NODE_CELL_SIZE,
        ) =~= spec_cells_bytes(n.cell_views()).subrange(
            j * LEAF_NODE_CELL_SIZE,
            (j + 1) * LEAF_NODE_CELL_SIZE,
        ));
    }
}

/// A page that parsed back as `node` is exactly the page `node` writes, and
/// is a well-formed leaf image.
#[verifier::rlimit(60)]
#[verifier::spinoff_prover]
proof fn lemma_leaf_reconstruct(b: Seq<u8>, node: LeafNode, num: int)
    requires
        b.len() == PAGE_SIZE,
        node.wf(),
        b[NODE_TYPE_OFFSET as int] == NODE_TYPE_LEAF,
        b[IS_ROOT_OFFSET as int] == spec_bool_byte(node.is_root),
        spec_u32_from_le_bytes(
            b.subrange(PARENT_POINTER_OFFSET as int, PARENT_POINTER_OFFSET + PARENT_POINTER_SIZE),
        ) == node.parent,
        leaf_num_at(b) == num,
        node.cells@.len() == num,
        0 <= num <= LEAF_NODE_MAX_CELLS,
        forall|t: int| 0 <= t < num ==> leaf_cell_ok(b, t),
        forall|t: int| 0 <= t < num ==> (#[trigger] node.cells@[t]).key == leaf_key_at(b, t),
        forall|t: int|
            0 <= t < num ==> (#[trigger] node.cells@[t]).row@ == spec_decode_row(
                leaf_row_bytes_at(b, t),
            )->Some_0,
        forall|k: int|
            LEAF_NODE_HEADER_SIZE + num * LEAF_NODE_CELL_SIZE <= k < PAGE_SIZE ==> b[k] == 0u8,
    ensures
        leaf_image_ok(b),
        spec_leaf_bytes(node) == b,
{
    lemma_leaf_geometry();
    lemma_auto_spec_u32_to_from_le_bytes();
    assert forall|j2: int|
        0 <= j2 < num - 1 implies #[trigger] leaf_key_at(b, j2) < leaf_key_at(b, j2 + 1) by {
        assert(node.cells@[j2].key < node.cells@[j2 + 1].key);
    }
    assert(leaf_image_ok(b));
    lemma_leaf_bytes_shape(node);
    let b2 = spec_leaf_bytes(node);
    assert forall|j2: int|
        0 <= j2 < num implies #[trigger] b.subrange(cell_off(j2), cell_off(j2 + 1)) == b2.subrange(
        cell_off(j2),
        cell_off(j2 + 1),
    ) by {
        assert(cell_off(j2) == LEAF_NODE_HEADER_SIZE + j2 * LEAF_NODE_CELL_SIZE);
        assert(cell_off(j2 + 1) == LEAF_NODE_HEADER_SIZE + (j2 + 1) * LEAF_NODE_CELL_SIZE);
        assert(LEAF_NODE_HEADER_SIZE + (j2 + 1) * LEAF_NODE_CELL_SIZE <= PAGE_SIZE);
        assert(leaf_cell_ok(b, j2));
        assert(leaf_row_bytes_at(b, j2).len() == ROW_SIZE);
        assert(leaf_row_bytes_at(b, j2)[0] == LIVE_MARKER);
        lemma_decode_encode(leaf_row_bytes_at(b, j2));
        assert(node.cell_views()[j2] == (node.cells@[j2].key, node.cells@[j2].row@));
        assert(spec_u32_to_le_bytes(node.cells@[j2].key) == b.subrange(
            LEAF_NODE_HEADER_SIZE + j2 * LEAF_NODE_CELL_SIZE,
            LEAF_NODE_HEADER_SIZE + j2 * LEAF_NODE_CELL_SIZE + LEAF_NODE_KEY_SIZE,
        ));
        assert(spec_encode_row(node.cells@[j2].row@) == leaf_row_bytes_at(b, j2));
        assert(b.subrange(LEAF_NODE_HEADER_SIZE + j2 * LEAF_NODE_CELL_SIZE, LEAF_NODE_HEADER_SIZE + (j2 + 1) * LEAF_NODE_CELL_SIZE) =~= spec_cell_bytes(
            node.cell_views()[j2],
        ));
        assert(b2.subrange(LEAF_NODE_HEADER_SIZE + j2 * LEAF_NODE_CELL_SIZE, LEAF_NODE_HEADER_SIZE + (j2 + 1) * LEAF_NODE_CELL_SIZE) == spec_cell_bytes(
            node.cell_views()[j2],
        ));
    }
    lemma_cell_region_eq(b, b2, num, num);
    assert(spec_u32_to_le_bytes(node.parent) == b.subrange(
        PARENT_POINTER_OFFSET as int,
        PARENT_POINTER_OFFSET + PARENT_POINTER_SIZE,
    ));
    assert(spec_u32_to_le_bytes(node.cells@.len() as u32) == b.subrange(
        LEAF_NODE_NUM_CELLS_OFFSET as int,
        LEAF_NODE_NUM_CELLS_OFFSET + LEAF_NODE_NUM_CELLS_SIZE,
    ));
    assert forall|k2: int| 0 <= k2 < PAGE_SIZE implies b[k2] == b2[k2] by {
        if PARENT_POINTER_OFFSET <= k2 < LEAF_NODE_NUM_CELLS_OFFSET {
            assert(b[k2] == b.subrange(
                PARENT_POINTER_OFFSET as int,
                PARENT_POINTER_OFFSET + PARENT_POINTER_SIZE,
            )[k2 - PARENT_POINTER_OFFSET]);
            assert(b2[k2] == b2.subrange(
                PARENT_POINTER_OFFSET as int,
                PARENT_POINTER_OFFSET + PARENT_POINTER_SIZE,
            )[k2 - PARENT_POINTER_OFFSET]);
        } else if LEAF_NODE_NUM_CELLS_OFFSET <= k2 < LEAF_NODE_HEADER_SIZE {
            assert(b[k2] == b.subrange(
                LEAF_NODE_NUM_CELLS_OFFSET as int,
                LEAF_NODE_NUM_CELLS_OFFSET + LEAF_NODE_NUM_CELLS_SIZE,
            )[k2 - LEAF_NODE_NUM_CELLS_OFFSET]);
            assert(b2[k2] == b2.subrange(
                LEAF_NODE_NUM_CELLS_OFFSET as int,
                LEAF_NODE_NUM_CELLS_OFFSET + LEAF_NODE_NUM_CELLS_SIZE,
            )[k2 - LEAF_NODE_NUM_CELLS_OFFSET]);
        } else if LEAF_NODE_HEADER_SIZE <= k2 < LEAF_NODE_HEADER_SIZE + num * LEAF_NODE_CELL_SIZE {
            assert(b.subrange(LEAF_NODE_HEADER_SIZE as int, LEAF_NODE_HEADER_SIZE + num * LEAF_NODE_CELL_SIZE) == b2.subrange(LEAF_NODE_HEADER_SIZE as int, LEAF_NODE_HEADER_SIZE + num * LEAF_NODE_CELL_SIZE));
            assert(b[k2] == b.subrange(LEAF_NODE_HEADER_SIZE as int, LEAF_NODE_HEADER_SIZE + num * LEAF_NODE_CELL_SIZE)[k2 - LEAF_NODE_HEADER_SIZE]);
            assert(b2[k2] == b2.subrange(LEAF_NODE_HEADER_SIZE as int, LEAF_NODE_HEADER_SIZE + num * LEAF_NODE_CELL_SIZE)[k2 - LEAF_NODE_HEADER_SIZE]);
        } else if k2 >= LEAF_NODE_HEADER_SIZE + num * LEAF_NODE_CELL_SIZE {
            assert(b[k2] == 0u8);
            assert(b2[k2] == 0u8);
        }
    }
    assert(b =~= b2);
}

/// Round trip for the leaf page format: the page a well-formed leaf writes
/// always parses back as a leaf, so `leaf_from_page` after `leaf_to_page`
/// succeeds and — by `leaf_from_page`'s contract — returns a node that
/// writes the very same page, byte for byte.
#[verifier::rlimit(50)]
#[verifier::spinoff_prover]
pub proof fn lemma_leaf_page_round_trip(n: LeafNode)
    requires
        n.wf(),
    ensures
        leaf_image_ok(spec_leaf_bytes(n)),
{
    lemma_leaf_geometry();
    lemma_auto_spec_u32_to_from_le_bytes();
    lemma_leaf_bytes_shape(n);
    let b = spec_leaf_bytes(n);
    let num = n.cells@.len() as int;
    assert(leaf_num_at(b) == num);
    assert forall|j: int|
        0 <= j < num implies #[trigger] leaf_key_at(b, j) == n.cells@[j].key
            && leaf_row_bytes_at(b, j) == spec_encode_row(n.cells@[j].row@) by {
        let co = LEAF_NODE_HEADER_SIZE + j * LEAF_NODE_CELL_SIZE;
        let cb = spec_cell_bytes(n.cell_views()[j]);
        assert(b.subrange(co, co + LEAF_NODE_CELL_SIZE) == cb);
        assert(n.cell_views()[j] == (n.cells@[j].key, n.cells@[j].row@));
        let r = n.cells@[j].row@;
        lemma_encode_decode(r);
        assert(co + LEAF_NODE_CELL_SIZE <= PAGE_SIZE);
        assert forall|x: int| 0 <= x < LEAF_NODE_KEY_SIZE implies b.subrange(
            co,
            co + LEAF_NODE_KEY_SIZE,
        )[x] == spec_u32_to_le_bytes(n.cells@[j].key)[x] by {
            assert(b.subrange(co, co + LEAF_NODE_KEY_SIZE)[x] == b[co + x]);
            assert(b[co + x] == b.subrange(co, co + LEAF_NODE_CELL_SIZE)[x]);
            assert(cb[x] == spec_u32_to_le_bytes(n.cells@[j].key)[x]);
        }
        assert(b.subrange(co, co + LEAF_NODE_KEY_SIZE) =~= spec_u32_to_le_bytes(n.cells@[j].key));
        assert forall|x: int| 0 <= x < ROW_SIZE implies leaf_row_bytes_at(b, j)[x]
            == spec_encode_row(r)[x] by {
            assert(leaf_row_bytes_at(b, j)[x] == b[co + LEAF_NODE_KEY_SIZE + x]);
            assert(b[co + LEAF_NODE_KEY_SIZE + x] == b.subrange(co, co + LEAF_NODE_CELL_SIZE)[
                LEAF_NODE_KEY_SIZE + x]);
            assert(cb[LEAF_NODE_KEY_SIZE + x] == spec_encode_row(r)[x]);
        }
        assert(leaf_row_bytes_at(b, j) =~= spec_encode_row(r));
    }
    assert forall|j: int| 0 <= j < num implies leaf_cell_ok(b, j) by {
        let r = n.cells@[j].row@;
        assert(r.valid());
        lemma_encode_decode(r);
        assert(leaf_key_at(b, j) == n.cells@[j].key);
        assert(leaf_row_bytes_at(b, j) == spec_encode_row(r));
        assert(spec_encode_row(r)[0] == LIVE_MARKER);
        assert(spec_decode_row(leaf_row_bytes_at(b, j)) == Some(canonical_row(r)));
        assert(canonical_row(r).id == r.id);
    }
    assert forall|j: int|
        0 <= j < leaf_num_at(b) - 1 implies #[trigger] leaf_key_at(b, j) < leaf_key_at(
        b,
        j + 1,
    ) by {
        assert(leaf_key_at(b, j) == n.cells@[j].key);
        assert(leaf_key_at(b, j + 1) == n.cells@[j + 1].key);
        assert(n.cells@[j].key < n.cells@[j + 1].key);
    }
    assert(leaf_image_ok(b));
}

} // verus!



