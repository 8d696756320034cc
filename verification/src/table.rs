//! The table: the pager, the row codec and the cursor put together to give
//! insert and full-scan select over one persistent row array.
//!
//! Rows live in fixed slots: slot `i` occupies bytes
//! `(i % ROWS_PER_PAGE) * ROW_SIZE ..+ ROW_SIZE` of page `i / ROWS_PER_PAGE`.
//! A table is well formed when the live slots are exactly a prefix: every
//! slot below `num_rows` decodes to a row and every slot from `num_rows` up
//! is unwritten. Opening scans the file image for that prefix; closing
//! flushes every resident page and hands the image back.
use vstd::prelude::*;
use vstd::arithmetic::div_mod::{lemma_fundamental_div_mod, lemma_mod_bound};
use vstd::assert_by_contradiction;
use crate::cursor::Cursor;
use crate::error::{ErrorKind, ExecError};
use crate::pager::{disk_page_view, Pager};
use crate::row::{
    canonical_row, decode_row, encode_row, lemma_encode_decode, spec_decode_row, spec_encode_row,
    Row, RowV,
};
use crate::{PAGE_SIZE, ROWS_PER_PAGE, ROW_SIZE, TABLE_MAX_PAGES, TABLE_MAX_ROWS};

verus! {

/// The page holding row slot `i`.
pub open spec fn slot_page(i: int) -> int {
    i / (ROWS_PER_PAGE as int)
}

/// The byte offset of row slot `i` within its page.
pub open spec fn slot_offset(i: int) -> int {
    (i % (ROWS_PER_PAGE as int)) * ROW_SIZE
}

/// The bytes of row slot `i` in file image `d`.
pub open spec fn image_slot_bytes(d: Seq<u8>, i: int) -> Seq<u8> {
    disk_page_view(d, slot_page(i)).subrange(slot_offset(i), slot_offset(i) + ROW_SIZE)
}

/// Whether row slot `i` of file image `d` holds a row.
pub open spec fn image_slot_live(d: Seq<u8>, i: int) -> bool {
    spec_decode_row(image_slot_bytes(d, i)) is Some
}

/// A file image this store could have written: its live slots form a
/// prefix, with nothing but unwritten slots after the first dead one.
pub open spec fn image_wellformed(d: Seq<u8>) -> bool {
    forall|i: int, j: int|
        0 <= i < j < TABLE_MAX_ROWS && #[trigger] image_slot_live(d, j)
            ==> #[trigger] image_slot_live(d, i)
}

/// The first dead slot of image `d` at or after slot `i`.
pub open spec fn first_dead_slot(d: Seq<u8>, i: int) -> int
    decreases TABLE_MAX_ROWS - i,
{
    if i < 0 || i >= TABLE_MAX_ROWS {
        TABLE_MAX_ROWS as int
    } else if !image_slot_live(d, i) {
        i
    } else {
        first_dead_slot(d, i + 1)
    }
}

/// How many rows a table opened over image `d` holds: the length of the
/// live prefix.
pub open spec fn image_num_rows(d: Seq<u8>) -> int {
    first_dead_slot(d, 0)
}

/// The rows stored in image `d`, in slot order.
pub open spec fn image_rows(d: Seq<u8>) -> Seq<RowV> {
    Seq::new(image_num_rows(d) as nat, |i: int| spec_decode_row(image_slot_bytes(d, i))->Some_0)
}

/// `first_dead_slot` finds the end of the live prefix.
proof fn lemma_first_dead_slot(d: Seq<u8>, i: int, len: int)
    requires
        0 <= i <= len <= TABLE_MAX_ROWS,
        forall|j: int| i <= j < len ==> image_slot_live(d, j),
        len < TABLE_MAX_ROWS ==> !image_slot_live(d, len),
    ensures
        first_dead_slot(d, i) == len,
    decreases len - i,
{
    if i < len {
        lemma_first_dead_slot(d, i + 1, len);
    }
}

/// The models of a sequence of rows.
pub open spec fn row_views(s: Seq<Row>) -> Seq<RowV> {
    s.map_values(|r: Row| r@)
}

/// The table: the logical row count and exclusive ownership of the pager.
#[derive(Debug)]
pub struct Table {
    /// How many rows the table holds.
    pub num_rows: usize,
    /// The page cache the rows live in.
    pub pager: Pager,
}

impl Table {
    /// The bytes of row slot `i` as the pager currently shows them.
    pub open spec fn slot_bytes(self, i: int) -> Seq<u8> {
        self.pager.page_view(slot_page(i)).subrange(slot_offset(i), slot_offset(i) + ROW_SIZE)
    }

    /// Whether row slot `i` holds a row.
    pub open spec fn slot_live(self, i: int) -> bool {
        spec_decode_row(self.slot_bytes(i)) is Some
    }

    /// Well-formedness: a sound pager, a row count within capacity, and live
    /// slots forming exactly the prefix of length `num_rows`.
    pub open spec fn wf(self) -> bool {
        &&& self.pager.wf()
        &&& self.num_rows <= TABLE_MAX_ROWS
        &&& forall|i: int| 0 <= i < self.num_rows ==> self.slot_live(i)
        &&& forall|i: int| self.num_rows <= i < TABLE_MAX_ROWS ==> !self.slot_live(i)
    }

    /// The rows the table holds, in slot order.
    pub open spec fn rows(self) -> Seq<RowV> {
        Seq::new(self.num_rows as nat, |i: int| spec_decode_row(self.slot_bytes(i))->Some_0)
    }

    /// A cursor at the first row.
    pub fn table_start(&self) -> (c: Cursor)
        ensures
            c.wf(),
            c.row_num == 0,
            c.num_rows == self.num_rows,
            c.end_of_table == (self.num_rows == 0),
    {
        Cursor::start(self.num_rows)
    }

    /// A cursor one past the last row: where the next insert goes.
    pub fn table_end(&self) -> (c: Cursor)
        ensures
            c.wf(),
            c.row_num == self.num_rows,
            c.num_rows == self.num_rows,
            c.end_of_table,
    {
        Cursor::end(self.num_rows)
    }

    /// Resolves row slot `row_num` to its page and byte offset, loading the
    /// page. A slot beyond the page capacity is rejected.
    pub fn row_slot(&mut self, row_num: usize) -> (res: Result<(usize, usize), ExecError>)
        requires
            old(self).pager.wf(),
        ensures
            final(self).num_rows == old(self).num_rows,
            final(self).pager.wf(),
            final(self).pager.same_page_views(old(self).pager),
            final(self).pager.disk@ == old(self).pager.disk@,
            final(self).pager.file_length == old(self).pager.file_length,
            row_num / ROWS_PER_PAGE >= TABLE_MAX_PAGES ==> res == Err::<
                (usize, usize),
                ExecError,
            >(ExecError { kind: ErrorKind::OutOfBounds }) && *final(self) == *old(self),
            row_num / ROWS_PER_PAGE < TABLE_MAX_PAGES ==> (res matches Ok(po) && {
                &&& po.0 == row_num / ROWS_PER_PAGE
                &&& po.1 == (row_num % ROWS_PER_PAGE) * ROW_SIZE
                &&& final(self).pager.resident(po.0 as int)
            }),
    {
        let page_num = row_num / ROWS_PER_PAGE;
        match self.pager.load_page(page_num) {
            Ok(_) => {},
            Err(e) => {
                return Err(e);
            },
        }
        let byte_offset = (row_num % ROWS_PER_PAGE) * ROW_SIZE;
        Ok((page_num, byte_offset))
    }

    /// Appends `row` at the logical end of the table. Fails with `TableFull`
    /// at capacity and with `EncodingError` for an over-width text field, in
    /// both cases leaving the table untouched; otherwise the stored rows
    /// grow by exactly that row (its text fields in trimmed form).
    pub fn insert(&mut self, row: Row) -> (res: Result<(), ExecError>)
        requires
            old(self).wf(),
        ensures
            final(self).wf(),
            old(self).num_rows >= TABLE_MAX_ROWS ==> res == Err::<(), ExecError>(
                ExecError { kind: ErrorKind::TableFull },
            ) && *final(self) == *old(self),
            old(self).num_rows < TABLE_MAX_ROWS && !row@.encodable() ==> res == Err::<
                (),
                ExecError,
            >(ExecError { kind: ErrorKind::EncodingError }) && *final(self) == *old(self),
            old(self).num_rows < TABLE_MAX_ROWS && row@.encodable() ==> {
                &&& res is Ok
                &&& final(self).num_rows == old(self).num_rows + 1
                &&& final(self).rows() == old(self).rows().push(canonical_row(row@))
            },
            old(self).num_rows < TABLE_MAX_ROWS && row@.valid() ==> final(self).rows() == old(
                self,
            ).rows().push(row@),
    {
        if self.num_rows >= TABLE_MAX_ROWS {
            return Err(ExecError { kind: ErrorKind::TableFull });
        }
        let data = match encode_row(&row) {
            Ok(d) => d,
            Err(e) => {
                return Err(e);
            },
        };
        let cursor = self.table_end();
        let idx = cursor.row_num;
        let ghost t0 = *self;
        proof {
            lemma_mod_bound(idx as int, ROWS_PER_PAGE as int);
        }
        let slot = self.row_slot(idx);
        let (page_num, byte_offset) = match slot {
            Ok(po) => po,
            Err(e) => {
                proof {
                    assert(false);
                }
                return Err(e);
            },
        };
        let ghost t1 = *self;
        proof {
            lemma_same_slots(t0, t1);
            assert(byte_offset + ROW_SIZE <= PAGE_SIZE);
        }
        let wr = self.pager.write_in_page(page_num, byte_offset, data);
        let ghost t2 = *self;
        proof {
            assert(wr is Ok);
            lemma_encode_decode(row@);
            let rp = ROWS_PER_PAGE as int;
            let rs = ROW_SIZE as int;
            assert forall|i: int|
                0 <= i < TABLE_MAX_ROWS && i != idx implies #[trigger] t2.slot_bytes(i)
                == t1.slot_bytes(i) by {
                lemma_mod_bound(i, rp);
                if slot_page(i) == slot_page(idx as int) {
                    lemma_fundamental_div_mod(i, rp);
                    lemma_fundamental_div_mod(idx as int, rp);
                    let k = i % rp;
                    let ki = (idx as int) % rp;
                    assert(k != ki);
                    if k < ki {
                        assert(k * rs + rs <= ki * rs);
                    } else {
                        assert(k * rs >= ki * rs + rs);
                    }
                    assert(t2.slot_bytes(i) =~= t1.slot_bytes(i));
                } else {
                    assert(t2.pager.pages@[slot_page(i)] == t1.pager.pages@[slot_page(i)]);
                    assert(t2.pager.page_view(slot_page(i)) == t1.pager.page_view(slot_page(i)));
                    assert(t2.slot_bytes(i) =~= t1.slot_bytes(i));
                }
            }
            assert(t2.slot_bytes(idx as int) =~= spec_encode_row(row@));
        }
        self.num_rows = idx + 1;
        proof {
            assert forall|i: int| 0 <= i < self.num_rows implies self.slot_live(i) by {
                if i < idx {
                    assert(t1.slot_live(i));
                    assert(self.slot_bytes(i) == t2.slot_bytes(i) && t2.slot_bytes(i)
                        == t1.slot_bytes(i));
                } else {
                    assert(self.slot_bytes(i) == t2.slot_bytes(idx as int));
                    assert(spec_decode_row(spec_encode_row(row@)) is Some);
                }
            }
            assert forall|i: int| self.num_rows <= i < TABLE_MAX_ROWS implies !self.slot_live(
                i,
            ) by {
                assert(!t1.slot_live(i));
                assert(self.slot_bytes(i) == t2.slot_bytes(i) && t2.slot_bytes(i)
                    == t1.slot_bytes(i));
            }
            assert forall|i: int| 0 <= i < self.num_rows implies self.slot_bytes(i)
                == t2.slot_bytes(i) by {}
            assert forall|i: int|
                0 <= i < self.num_rows implies self.rows()[i] == t0.rows().push(
                canonical_row(row@),
            )[i] by {
                assert(self.slot_bytes(i) == t2.slot_bytes(i));
                if i < idx {
                    assert(t2.slot_bytes(i) == t1.slot_bytes(i));
                    assert(t1.slot_bytes(i) == t0.slot_bytes(i));
                } else {
                    assert(spec_decode_row(spec_encode_row(row@)) == Some(canonical_row(row@)));
                }
            }
            assert(self.rows() =~= t0.rows().push(canonical_row(row@)));
            if row@.valid() {
                assert(canonical_row(row@) == row@);
            }
        }
        Ok(())
    }

    /// Reads every stored row back, in slot order, walking a cursor from the
    /// start of the table to its end. The table's contents do not change.
    pub fn select(&mut self) -> (res: Result<Vec<Row>, ExecError>)
        requires
            old(self).wf(),
        ensures
            final(self).wf(),
            final(self).num_rows == old(self).num_rows,
            final(self).rows() == old(self).rows(),
            final(self).pager.same_page_views(old(self).pager),
            res matches Ok(v) && row_views(v@) == old(self).rows(),
    {
        let mut out: Vec<Row> = Vec::new();
        let mut cursor = self.table_start();
        while !cursor.end_of_table
            invariant
                old(self).wf(),
                cursor.wf(),
                cursor.num_rows == self.num_rows,
                self.num_rows == old(self).num_rows,
                self.pager.wf(),
                forall|n: int|
                    0 <= n < TABLE_MAX_PAGES ==> #[trigger] self.pager.page_view(n) == old(
                        self,
                    ).pager.page_view(n),
                out@.len() == cursor.row_num,
                forall|k: int|
                    0 <= k < cursor.row_num ==> (#[trigger] out@[k])@ == old(self).rows()[k],
            decreases cursor.num_rows - cursor.row_num,
        {
            let i = cursor.row_num;
            let ghost before = *self;
            proof {
                lemma_same_slots(*old(self), before);
                lemma_mod_bound(i as int, ROWS_PER_PAGE as int);
            }
            let slot = self.row_slot(i);
            let (page_num, byte_offset) = match slot {
                Ok(po) => po,
                Err(e) => {
                    proof {
                        assert(false);
                    }
                    return Err(e);
                },
            };
            proof {
                assert forall|n: int|
                    0 <= n < TABLE_MAX_PAGES implies #[trigger] self.pager.page_view(n) == old(
                    self,
                ).pager.page_view(n) by {
                    assert(self.pager.page_view(n) == before.pager.page_view(n));
                }
                lemma_same_slots(*old(self), *self);
                assert(self.slot_bytes(i as int) == old(self).slot_bytes(i as int));
            }
            let bytes = self.pager.read_from_page(page_num, byte_offset, ROW_SIZE);
            proof {
                assert(bytes@ == self.slot_bytes(i as int));
            }
            match decode_row(bytes.as_slice()) {
                Ok(Some(r)) => {
                    proof {
                        assert(r@ == old(self).rows()[i as int]);
                    }
                    out.push(r);
                },
                Ok(None) => {
                    // an unwritten slot is skipped; under well-formedness no
                    // slot below the row count is unwritten
                    proof {
                        assert(old(self).slot_live(i as int));
                        assert(false);
                    }
                },
                Err(e) => {
                    proof {
                        assert(false);
                    }
                    return Err(e);
                },
            }
            cursor.advance();
        }
        proof {
            lemma_same_slots(*old(self), *self);
            assert(row_views(out@) =~= old(self).rows());
        }
        Ok(out)
    }

    /// Opens a table over the backing file's bytes, scanning for the live
    /// prefix of row slots. An image whose live slots do not form a prefix
    /// was not written by this store and is rejected as malformed.
    pub fn db_open(contents: &[u8]) -> (res: Result<Table, ExecError>)
        ensures
            res matches Ok(t) ==> {
                &&& t.wf()
                &&& t.num_rows == image_num_rows(contents@)
                &&& t.rows() == image_rows(contents@)
                &&& forall|n: int|
                    0 <= n < TABLE_MAX_PAGES ==> t.pager.page_view(n) == disk_page_view(
                        contents@,
                        n,
                    )
                &&& image_wellformed(contents@)
            },
            res is Err <==> !image_wellformed(contents@),
            res is Err ==> res == Err::<Table, ExecError>(
                ExecError { kind: ErrorKind::DecodingError },
            ),
    {
        let ghost img = contents@;
        let mut pager = Pager::open(vstd::slice::slice_to_vec(contents));
        let mut n: usize = 0;
        let mut hit_dead = false;
        while n < TABLE_MAX_ROWS && !hit_dead
            invariant
                img == contents@,
                n <= TABLE_MAX_ROWS,
                pager.wf(),
                forall|m: int|
                    0 <= m < TABLE_MAX_PAGES ==> #[trigger] pager.page_view(m) == disk_page_view(
                        img,
                        m,
                    ),
                forall|j: int| 0 <= j < n ==> image_slot_live(img, j),
                hit_dead ==> n < TABLE_MAX_ROWS && !image_slot_live(img, n as int),
            decreases TABLE_MAX_ROWS - n + (if hit_dead { 0int } else { 1int }),
        {
            let ghost before = pager;
            let live = slot_live_probe(&mut pager, n);
            proof {
                assert forall|m: int|
                    0 <= m < TABLE_MAX_PAGES implies #[trigger] pager.page_view(m)
                    == disk_page_view(img, m) by {
                    assert(pager.page_view(m) == before.page_view(m));
                }
            }
            if live {
                n = n + 1;
            } else {
                hit_dead = true;
            }
        }
        let num_rows = n;
        let mut j: usize = num_rows + 1;
        while j < TABLE_MAX_ROWS
            invariant
                img == contents@,
                num_rows < j <= TABLE_MAX_ROWS || (num_rows == TABLE_MAX_ROWS && j == num_rows
                    + 1),
                pager.wf(),
                forall|m: int|
                    0 <= m < TABLE_MAX_PAGES ==> #[trigger] pager.page_view(m) == disk_page_view(
                        img,
                        m,
                    ),
                forall|k: int| 0 <= k < num_rows ==> image_slot_live(img, k),
                num_rows < TABLE_MAX_ROWS ==> !image_slot_live(img, num_rows as int),
                forall|k: int| num_rows < k < j ==> !image_slot_live(img, k),
            decreases TABLE_MAX_ROWS - j,
        {
            let ghost before = pager;
            let live = slot_live_probe(&mut pager, j);
            proof {
                assert forall|m: int|
                    0 <= m < TABLE_MAX_PAGES implies #[trigger] pager.page_view(m)
                    == disk_page_view(img, m) by {
                    assert(pager.page_view(m) == before.page_view(m));
                }
            }
            if live {
                proof {
                    assert(!image_slot_live(img, num_rows as int));
                    assert(image_slot_live(img, j as int));
                    assert(num_rows < j < TABLE_MAX_ROWS);
                    assert_by_contradiction!(!image_wellformed(img), {
                        assert(image_slot_live(img, num_rows as int));
                    });
                }
                return Err(ExecError { kind: ErrorKind::DecodingError });
            }
            j = j + 1;
        }
        let table = Table { num_rows, pager };
        proof {
            assert forall|i: int|
                0 <= i < TABLE_MAX_ROWS implies #[trigger] table.slot_bytes(i) == image_slot_bytes(
                img,
                i,
            ) by {
                lemma_slot_page_bounds(i);
                assert(table.pager.page_view(slot_page(i)) == disk_page_view(img, slot_page(i)));
            }
            assert forall|i: int| 0 <= i < table.num_rows implies table.slot_live(i) by {
                assert(image_slot_live(img, i));
                assert(table.slot_bytes(i) == image_slot_bytes(img, i));
            }
            assert forall|i: int|
                table.num_rows <= i < TABLE_MAX_ROWS implies !table.slot_live(i) by {
                assert(!image_slot_live(img, i));
                assert(table.slot_bytes(i) == image_slot_bytes(img, i));
            }
            assert(table.wf());
            assert forall|i: int, j2: int|
                0 <= i < j2 < TABLE_MAX_ROWS && #[trigger] image_slot_live(img, j2)
                    implies #[trigger] image_slot_live(img, i) by {
                assert(j2 < num_rows);
            }
            assert(image_wellformed(img));
            lemma_first_dead_slot(img, 0, num_rows as int);
            assert(table.rows() =~= image_rows(img));
        }
        Ok(table)
    }

    /// Closes the table: flushes every resident page in ascending order and
    /// hands back the final file image, which holds exactly the table's
    /// rows. Taking the table by value, close can only happen once and no
    /// operation can follow it.
    pub fn db_close(self) -> (image: Vec<u8>)
        requires
            self.wf(),
        ensures
            forall|n: int|
                0 <= n < TABLE_MAX_PAGES ==> disk_page_view(image@, n) == self.pager.page_view(n),
            image_wellformed(image@),
            image_num_rows(image@) == self.num_rows,
            image_rows(image@) == self.rows(),
    {
        let ghost t = self;
        let image = self.pager.close();
        proof {
            lemma_persistence(t, image@);
        }
        image
    }
}

/// Row slots always fall within the pager's page capacity.
proof fn lemma_slot_page_bounds(i: int)
    requires
        0 <= i < TABLE_MAX_ROWS,
    ensures
        0 <= slot_page(i) < TABLE_MAX_PAGES,
        0 <= slot_offset(i),
        slot_offset(i) + ROW_SIZE <= PAGE_SIZE,
{
    lemma_mod_bound(i, ROWS_PER_PAGE as int);
}

/// Two table states with the same page contents and row count store the
/// same rows, and well-formedness carries over.
pub proof fn lemma_same_slots(t1: Table, t2: Table)
    requires
        t1.num_rows <= TABLE_MAX_ROWS,
        t2.num_rows == t1.num_rows,
        t2.pager.same_page_views(t1.pager),
    ensures
        forall|i: int| 0 <= i < TABLE_MAX_ROWS ==> #[trigger] t2.slot_bytes(i) == t1.slot_bytes(i),
        t2.rows() == t1.rows(),
        t1.wf() && t2.pager.wf() ==> t2.wf(),
{
    assert forall|i: int|
        0 <= i < TABLE_MAX_ROWS implies #[trigger] t2.slot_bytes(i) == t1.slot_bytes(i) by {
        lemma_slot_page_bounds(i);
        assert(t2.pager.page_view(slot_page(i)) == t1.pager.page_view(slot_page(i)));
    }
    assert(t2.rows() =~= t1.rows());
    if t1.wf() && t2.pager.wf() {
        assert forall|i: int| 0 <= i < t2.num_rows implies t2.slot_live(i) by {
            assert(t1.slot_live(i));
            assert(t2.slot_bytes(i) == t1.slot_bytes(i));
        }
        assert forall|i: int| t2.num_rows <= i < TABLE_MAX_ROWS implies !t2.slot_live(i) by {
            assert(!t1.slot_live(i));
            assert(t2.slot_bytes(i) == t1.slot_bytes(i));
        }
        assert(t2.wf());
    }
}

/// Loads the page of row slot `row_num` and tests the slot's liveness byte,
/// without changing what any page holds.
fn slot_live_probe(pager: &mut Pager, row_num: usize) -> (live: bool)
    requires
        old(pager).wf(),
        row_num < TABLE_MAX_ROWS,
    ensures
        final(pager).wf(),
        final(pager).same_page_views(*old(pager)),
        final(pager).disk@ == old(pager).disk@,
        final(pager).file_length == old(pager).file_length,
        live == (spec_decode_row(
            old(pager).page_view(slot_page(row_num as int)).subrange(
                slot_offset(row_num as int),
                slot_offset(row_num as int) + ROW_SIZE,
            ),
        ) is Some),
{
    proof {
        lemma_slot_page_bounds(row_num as int);
        lemma_mod_bound(row_num as int, ROWS_PER_PAGE as int);
    }
    let page_num = row_num / ROWS_PER_PAGE;
    let byte_offset = (row_num % ROWS_PER_PAGE) * ROW_SIZE;
    let r = pager.load_page(page_num);
    assert(r is Ok);
    let bytes = pager.read_from_page(page_num, byte_offset, ROW_SIZE);
    proof {
        assert(bytes@ == old(pager).page_view(slot_page(row_num as int)).subrange(
            slot_offset(row_num as int),
            slot_offset(row_num as int) + ROW_SIZE,
        ));
    }
    bytes[0] != 0
}

/// Persistence: a file image that shows every page exactly as a well-formed
/// table's pager does holds exactly that table's rows — what `db_close`
/// writes, a later `db_open` reads back unchanged.
pub proof fn lemma_persistence(t: Table, img: Seq<u8>)
    requires
        t.wf(),
        forall|n: int|
            0 <= n < TABLE_MAX_PAGES ==> disk_page_view(img, n) == t.pager.page_view(n),
    ensures
        image_wellformed(img),
        image_num_rows(img) == t.num_rows,
        image_rows(img) == t.rows(),
{
    assert forall|i: int|
        0 <= i < TABLE_MAX_ROWS implies #[trigger] image_slot_bytes(img, i) == t.slot_bytes(i) by {
        lemma_slot_page_bounds(i);
        assert(disk_page_view(img, slot_page(i)) == t.pager.page_view(slot_page(i)));
    }
    assert forall|i: int, j: int|
        0 <= i < j < TABLE_MAX_ROWS && #[trigger] image_slot_live(img, j) implies #[trigger] image_slot_live(
        img,
        i,
    ) by {
        assert(image_slot_bytes(img, j) == t.slot_bytes(j));
        assert(image_slot_bytes(img, i) == t.slot_bytes(i));
        assert(t.slot_live(j));
        if j >= t.num_rows {
            assert(!t.slot_live(j));
        }
        assert(t.slot_live(i));
    }
    assert forall|k: int| 0 <= k < t.num_rows implies image_slot_live(img, k) by {
        assert(t.slot_live(k));
        assert(image_slot_bytes(img, k) == t.slot_bytes(k));
    }
    if t.num_rows < TABLE_MAX_ROWS {
        assert(!t.slot_live(t.num_rows as int));
        assert(image_slot_bytes(img, t.num_rows as int) == t.slot_bytes(t.num_rows as int));
        assert(!image_slot_live(img, t.num_rows as int));
    }
    lemma_first_dead_slot(img, 0, t.num_rows as int);
    assert(image_rows(img) =~= t.rows());
}

} // verus!
