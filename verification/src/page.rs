//! One fixed-size page: a [`PAGE_SIZE`] byte buffer, the unit of file I/O
//! and caching, exclusively owned by the pager while resident.
use vstd::prelude::*;
use crate::error::ExecError;
use crate::PAGE_SIZE;

verus! {

/// A resident page's byte buffer.
#[derive(Debug)]
pub struct Page {
    /// The page's bytes; always exactly `PAGE_SIZE` of them once built.
    pub bytes: Vec<u8>,
}

impl View for Page {
    type V = Seq<u8>;

    open spec fn view(&self) -> Seq<u8> {
        self.bytes@
    }
}

impl Page {
    /// A page buffer always holds exactly one page worth of bytes.
    pub open spec fn wf(self) -> bool {
        self@.len() == PAGE_SIZE
    }

    /// Wraps one page worth of bytes.
    pub fn from_bytes(bytes: Vec<u8>) -> (p: Page)
        requires
            bytes@.len() == PAGE_SIZE,
        ensures
            p@ == bytes@,
            p.wf(),
    {
        Page { bytes }
    }

    /// Overwrites `range` of the page with `data`, which must fill the range
    /// exactly; the rest of the page is untouched.
    pub fn write(&mut self, range: core::ops::Range<usize>, data: Vec<u8>) -> (res: Result<
        (),
        ExecError,
    >)
        requires
            old(self).wf(),
            range.start <= range.end <= PAGE_SIZE,
            data@.len() == range.end - range.start,
        ensures
            final(self).wf(),
            res is Ok,
            final(self)@ == old(self)@.subrange(0, range.start as int) + data@ + old(
                self,
            )@.subrange(range.end as int, PAGE_SIZE as int),
    {
        let start = range.start;
        let len = data.len();
        let mut i: usize = 0;
        while i < len
            invariant
                i <= len,
                start + len <= PAGE_SIZE,
                data@.len() == len,
                self@.len() == PAGE_SIZE,
                forall|j: int| 0 <= j < start ==> self@[j] == old(self)@[j],
                forall|j: int| start <= j < start + i ==> self@[j] == data@[j - start],
                forall|j: int| start + i <= j < PAGE_SIZE ==> self@[j] == old(self)@[j],
            decreases len - i,
        {
            self.bytes[start + i] = data[i];
            i = i + 1;
        }
        assert(self@ =~= old(self)@.subrange(0, start as int) + data@ + old(self)@.subrange(
            start + len,
            PAGE_SIZE as int,
        ));
        Ok(())
    }

    /// A copy of the bytes at `offset .. offset + len`.
    pub fn read(&self, offset: usize, len: usize) -> (v: Vec<u8>)
        requires
            offset + len <= self@.len(),
        ensures
            v@ == self@.subrange(offset as int, offset + len),
    {
        let n: usize = self.bytes.len();
        let mut v: Vec<u8> = Vec::new();
        let mut i: usize = 0;
        while i < len
            invariant
                i <= len,
                offset + len <= n == self@.len(),
                v@ =~= self@.subrange(offset as int, offset + i),
            decreases len - i,
        {
            v.push(self.bytes[offset + i]);
            i = i + 1;
        }
        v
    }

    /// A copy of the whole page buffer.
    pub fn into_bytes(&self) -> (b: Vec<u8>)
        ensures
            b@ == self@,
    {
        let b = self.bytes.clone();
        assert(b@ =~= self.bytes@);
        b
    }
}

} // verus!
