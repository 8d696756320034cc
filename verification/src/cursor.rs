//! A cursor: a transient logical position over the table's row sequence.
//! It never outlives the table state it was taken from — it carries the row
//! count it saw and must not be held across an insert.
use vstd::prelude::*;

verus! {

/// A position in the row sequence, from row 0 up to one past the last row.
pub struct Cursor {
    /// The logical row position.
    pub row_num: usize,
    /// The table's row count when the cursor was made.
    pub num_rows: usize,
    /// Whether the cursor stands one past the last row.
    pub end_of_table: bool,
}

impl Cursor {
    /// The position is within range and the end flag tells the truth.
    pub open spec fn wf(self) -> bool {
        self.row_num <= self.num_rows && self.end_of_table == (self.row_num == self.num_rows)
    }

    /// A cursor at row 0; already at the end when the table is empty.
    pub fn start(num_rows: usize) -> (c: Cursor)
        ensures
            c.wf(),
            c.row_num == 0,
            c.num_rows == num_rows,
            c.end_of_table == (num_rows == 0),
    {
        Cursor { row_num: 0, num_rows, end_of_table: num_rows == 0 }
    }

    /// A cursor one past the last row.
    pub fn end(num_rows: usize) -> (c: Cursor)
        ensures
            c.wf(),
            c.row_num == num_rows,
            c.num_rows == num_rows,
            c.end_of_table,
    {
        Cursor { row_num: num_rows, num_rows, end_of_table: true }
    }

    /// Moves to the next row, setting the end flag on reaching the count.
    pub fn advance(&mut self)
        requires
            old(self).wf(),
            !old(self).end_of_table,
        ensures
            final(self).wf(),
            final(self).row_num == old(self).row_num + 1,
            final(self).num_rows == old(self).num_rows,
            final(self).end_of_table == (old(self).row_num + 1 == old(self).num_rows),
    {
        self.row_num = self.row_num + 1;
        self.end_of_table = self.row_num == self.num_rows;
    }
}

} // verus!
