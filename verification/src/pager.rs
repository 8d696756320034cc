//! The page cache: a bounded array of optional resident pages over a file
//! image. The embedding program reads the backing file once and hands its
//! bytes in; `close` returns the bytes to write back. Loading a page copies
//! it out of the image (short reads zero-padded, pages past the end of the
//! image all-zero); flushing copies a resident page back into the image.
use vstd::prelude::*;
use crate::error::{ErrorKind, ExecError};
use crate::page::Page;
use crate::{PAGE_SIZE, TABLE_MAX_PAGES};

verus! {

/// The bytes page `n` of file image `d` holds: the bytes at offset
/// `n * PAGE_SIZE`, zero-padded past the end of the image.
pub open spec fn disk_page_view(d: Seq<u8>, n: int) -> Seq<u8> {
    Seq::new(
        PAGE_SIZE as nat,
        |i: int|
            if n * PAGE_SIZE + i < d.len() {
                d[n * PAGE_SIZE + i]
            } else {
                0u8
            },
    )
}

/// The file image after page `n`, holding bytes `p`, is flushed into image
/// `d`: the image grows with zeros to cover the page if it must, and the
/// page's region is overwritten.
pub open spec fn spec_flush_disk(d: Seq<u8>, n: int, p: Seq<u8>) -> Seq<u8> {
    let newlen: int = if d.len() >= (n + 1) * PAGE_SIZE {
        d.len() as int
    } else {
        (n + 1) * PAGE_SIZE
    };
    Seq::new(
        newlen as nat,
        |i: int|
            if n * PAGE_SIZE <= i < (n + 1) * PAGE_SIZE {
                p[i - n * PAGE_SIZE]
            } else if i < d.len() {
                d[i]
            } else {
                0u8
            },
    )
}

/// Flushing page `n` pins that page's bytes in the image and leaves every
/// other page of the image as it was.
pub proof fn lemma_flush_disk_page_views(d: Seq<u8>, n: int, p: Seq<u8>)
    requires
        0 <= n < TABLE_MAX_PAGES,
        p.len() == PAGE_SIZE,
    ensures
        disk_page_view(spec_flush_disk(d, n, p), n) == p,
        forall|m: int|
            0 <= m < TABLE_MAX_PAGES && m != n ==> disk_page_view(spec_flush_disk(d, n, p), m)
                == disk_page_view(d, m),
{
    let d2 = spec_flush_disk(d, n, p);
    assert(disk_page_view(d2, n) =~= p);
    assert forall|m: int|
        0 <= m < TABLE_MAX_PAGES && m != n implies disk_page_view(d2, m) == disk_page_view(
        d,
        m,
    ) by {
        assert forall|i: int| 0 <= i < PAGE_SIZE implies disk_page_view(d2, m)[i]
            == disk_page_view(d, m)[i] by {
            let idx = m * PAGE_SIZE + i;
            if m < n {
                assert(idx < (m + 1) * PAGE_SIZE <= n * PAGE_SIZE);
            } else {
                assert(idx >= m * PAGE_SIZE >= (n + 1) * PAGE_SIZE);
            }
        }
        assert(disk_page_view(d2, m) =~= disk_page_view(d, m));
    }
}

/// The page cache: the file image, the file's length as recorded at open,
/// and one optional resident buffer per page slot.
#[derive(Debug)]
pub struct Pager {
    /// The in-memory file image: what was handed in at open, overwritten
    /// page by page as flushes happen.
    pub disk: Vec<u8>,
    /// The backing file's length as recorded at open.
    pub file_length: usize,
    /// The resident pages, one slot per page number.
    pub pages: Vec<Option<Page>>,
}

impl Pager {
    /// Structural soundness: a full slot array, every resident buffer of
    /// exactly one page.
    pub open spec fn wf(self) -> bool {
        &&& self.pages@.len() == TABLE_MAX_PAGES
        &&& forall|n: int|
            0 <= n < TABLE_MAX_PAGES ==> (#[trigger] self.pages@[n] matches Some(p) ==> p@.len()
                == PAGE_SIZE)
    }

    /// Whether page `n` is resident.
    pub open spec fn resident(self, n: int) -> bool {
        self.pages@[n] is Some
    }

    /// The current bytes of page `n`: the resident buffer if the page is
    /// loaded, else what loading it from the image would produce.
    pub open spec fn page_view(self, n: int) -> Seq<u8> {
        match self.pages@[n] {
            Some(p) => p@,
            None => disk_page_view(self.disk@, n),
        }
    }

    /// Every page reads the same as before: the observable state of the
    /// cache is unchanged.
    pub open spec fn same_page_views(self, other: Pager) -> bool {
        forall|n: int| 0 <= n < TABLE_MAX_PAGES ==> self.page_view(n) == other.page_view(n)
    }

    /// Opens a pager over the backing file's bytes; every slot starts empty,
    /// so every page initially reads straight from the image.
    pub fn open(contents: Vec<u8>) -> (p: Pager)
        ensures
            p.wf(),
            p.disk@ == contents@,
            p.file_length == contents@.len(),
            forall|n: int| 0 <= n < TABLE_MAX_PAGES ==> !p.resident(n),
            forall|n: int|
                0 <= n < TABLE_MAX_PAGES ==> p.page_view(n) == disk_page_view(contents@, n),
    {
        let file_length = contents.len();
        let mut pages: Vec<Option<Page>> = Vec::new();
        let mut i: usize = 0;
        while i < TABLE_MAX_PAGES
            invariant
                i <= TABLE_MAX_PAGES,
                pages@.len() == i,
                forall|n: int| 0 <= n < i ==> pages@[n] is None,
            decreases TABLE_MAX_PAGES - i,
        {
            pages.push(None);
            i = i + 1;
        }
        Pager { disk: contents, file_length, pages }
    }

    /// Makes page `page_num` resident. A page number at or past the slot
    /// capacity is rejected; otherwise the page is loaded from the image if
    /// it was not already resident, and no page's bytes change.
    pub fn load_page(&mut self, page_num: usize) -> (res: Result<(), ExecError>)
        requires
            old(self).wf(),
        ensures
            final(self).wf(),
            page_num >= TABLE_MAX_PAGES ==> res == Err::<(), ExecError>(
                ExecError { kind: ErrorKind::OutOfBounds },
            ) && *final(self) == *old(self),
            page_num < TABLE_MAX_PAGES ==> {
                &&& res is Ok
                &&& final(self).resident(page_num as int)
                &&& final(self).same_page_views(*old(self))
                &&& final(self).disk@ == old(self).disk@
                &&& final(self).file_length == old(self).file_length
                &&& forall|n: int|
                    0 <= n < TABLE_MAX_PAGES && n != page_num ==> final(self).pages@[n] == old(
                        self,
                    ).pages@[n]
            },
    {
        if page_num >= TABLE_MAX_PAGES {
            return Err(ExecError { kind: ErrorKind::OutOfBounds });
        }
        if self.pages[page_num].is_some() {
            return Ok(());
        }
        let offset = page_num * PAGE_SIZE;
        let disk_len = self.disk.len();
        let mut buf: Vec<u8> = Vec::new();
        let mut i: usize = 0;
        while i < PAGE_SIZE
            invariant
                i <= PAGE_SIZE,
                offset == page_num * PAGE_SIZE,
                page_num < TABLE_MAX_PAGES,
                disk_len == self.disk@.len(),
                *self == *old(self),
                buf@.len() == i,
                forall|j: int|
                    0 <= j < i ==> buf@[j] == disk_page_view(self.disk@, page_num as int)[j],
            decreases PAGE_SIZE - i,
        {
            let idx = offset + i;
            let b: u8 = if idx < disk_len {
                self.disk[idx]
            } else {
                0u8
            };
            buf.push(b);
            i = i + 1;
        }
        assert(buf@ =~= disk_page_view(self.disk@, page_num as int));
        self.pages[page_num] = Some(Page::from_bytes(buf));
        assert forall|n: int|
            0 <= n < TABLE_MAX_PAGES implies self.page_view(n) == old(self).page_view(n) by {}
        Ok(())
    }

    /// Writes `data` into the resident page `page_num` starting at byte
    /// `offset`; only those bytes of that page change.
    pub fn write_in_page(&mut self, page_num: usize, offset: usize, data: Vec<u8>) -> (res: Result<
        (),
        ExecError,
    >)
        requires
            old(self).wf(),
            page_num < TABLE_MAX_PAGES,
            old(self).resident(page_num as int),
            offset + data@.len() <= PAGE_SIZE,
        ensures
            final(self).wf(),
            res is Ok,
            final(self).resident(page_num as int),
            final(self).page_view(page_num as int) == old(self).page_view(
                page_num as int,
            ).subrange(0, offset as int) + data@ + old(self).page_view(page_num as int).subrange(
                offset + data@.len(),
                PAGE_SIZE as int,
            ),
            forall|n: int|
                0 <= n < TABLE_MAX_PAGES && n != page_num ==> final(self).pages@[n] == old(
                    self,
                ).pages@[n],
            final(self).disk@ == old(self).disk@,
            final(self).file_length == old(self).file_length,
    {
        let ghost len = data@.len();
        let mut slot: Option<Page> = None;
        core::mem::swap(&mut self.pages[page_num], &mut slot);
        match slot {
            Some(mut p) => {
                let end = offset + data.len();
                let r = p.write(offset..end, data);
                self.pages[page_num] = Some(p);
                assert(self.page_view(page_num as int) == old(self).page_view(
                    page_num as int,
                ).subrange(0, offset as int) + data@ + old(self).page_view(
                    page_num as int,
                ).subrange(offset + len, PAGE_SIZE as int));
                r
            },
            None => {
                assert(false);
                Err(ExecError { kind: ErrorKind::OutOfBounds })
            },
        }
    }

    /// A copy of `len` bytes of the resident page `page_num` starting at
    /// byte `offset`.
    pub fn read_from_page(&self, page_num: usize, offset: usize, len: usize) -> (v: Vec<u8>)
        requires
            self.wf(),
            page_num < TABLE_MAX_PAGES,
            self.resident(page_num as int),
            offset + len <= PAGE_SIZE,
        ensures
            v@ == self.page_view(page_num as int).subrange(offset as int, offset + len),
    {
        match &self.pages[page_num] {
            Some(p) => p.read(offset, len),
            None => {
                assert(false);
                Vec::new()
            },
        }
    }

    /// Copies the resident page `page_num` back into the file image; a page
    /// that was never loaded cannot be flushed. No page's bytes change, but
    /// the flushed page's bytes are now pinned in the image itself.
    pub fn flush(&mut self, page_num: usize) -> (res: Result<(), ExecError>)
        requires
            old(self).wf(),
            page_num < TABLE_MAX_PAGES,
        ensures
            final(self).wf(),
            !old(self).resident(page_num as int) ==> res == Err::<(), ExecError>(
                ExecError { kind: ErrorKind::FlushEmptyPage },
            ) && *final(self) == *old(self),
            old(self).resident(page_num as int) ==> {
                &&& res is Ok
                &&& final(self).pages@ == old(self).pages@
                &&& final(self).file_length == old(self).file_length
                &&& final(self).disk@ == spec_flush_disk(
                    old(self).disk@,
                    page_num as int,
                    old(self).page_view(page_num as int),
                )
                &&& final(self).same_page_views(*old(self))
                &&& disk_page_view(final(self).disk@, page_num as int) == old(self).page_view(
                    page_num as int,
                )
            },
    {
        let bytes: Vec<u8> = match &self.pages[page_num] {
            Some(p) => p.into_bytes(),
            None => {
                return Err(ExecError { kind: ErrorKind::FlushEmptyPage });
            },
        };
        let offset = page_num * PAGE_SIZE;
        let end = offset + PAGE_SIZE;
        let ghost d0 = self.disk@;
        while self.disk.len() < end
            invariant
                end == page_num * PAGE_SIZE + PAGE_SIZE,
                page_num < TABLE_MAX_PAGES,
                self.disk@.len() >= d0.len() || self.disk@ == d0,
                d0.len() <= self.disk@.len() <= if d0.len() >= end as int {
                    d0.len() as int
                } else {
                    end as int
                },
                forall|j: int| 0 <= j < d0.len() ==> self.disk@[j] == d0[j],
                forall|j: int| d0.len() <= j < self.disk@.len() ==> self.disk@[j] == 0u8,
                self.pages@ == old(self).pages@,
                self.file_length == old(self).file_length,
            decreases end - self.disk@.len(),
        {
            self.disk.push(0u8);
        }
        let mut i: usize = 0;
        while i < PAGE_SIZE
            invariant
                i <= PAGE_SIZE,
                offset == page_num * PAGE_SIZE,
                end == offset + PAGE_SIZE,
                page_num < TABLE_MAX_PAGES,
                bytes@.len() == PAGE_SIZE,
                self.disk@.len() >= end,
                self.disk@.len() == if d0.len() >= end as int {
                    d0.len() as int
                } else {
                    end as int
                },
                forall|j: int| 0 <= j < d0.len() && !(offset <= j < offset + i) ==> self.disk@[j] == d0[j],
                forall|j: int|
                    d0.len() <= j < self.disk@.len() && !(offset <= j < offset + i)
                        ==> self.disk@[j] == 0u8,
                forall|j: int| offset <= j < offset + i ==> self.disk@[j] == bytes@[j - offset],
                self.pages@ == old(self).pages@,
                self.file_length == old(self).file_length,
            decreases PAGE_SIZE - i,
        {
            self.disk[offset + i] = bytes[i];
            i = i + 1;
        }
        proof {
            assert(bytes@ == old(self).page_view(page_num as int));
            assert(self.disk@ =~= spec_flush_disk(d0, page_num as int, bytes@));
            lemma_flush_disk_page_views(d0, page_num as int, bytes@);
            assert forall|n: int|
                0 <= n < TABLE_MAX_PAGES implies self.page_view(n) == old(self).page_view(n) by {}
        }
        Ok(())
    }

    /// Flushes every resident page in ascending order, releases every slot,
    /// and hands back the final file image: every page of the image reads
    /// exactly as it did through the cache.
    pub fn close(self) -> (image: Vec<u8>)
        requires
            self.wf(),
        ensures
            forall|n: int|
                0 <= n < TABLE_MAX_PAGES ==> disk_page_view(image@, n) == self.page_view(n),
    {
        let mut pager = self;
        let mut i: usize = 0;
        while i < TABLE_MAX_PAGES
            invariant
                i <= TABLE_MAX_PAGES,
                pager.wf(),
                forall|n: int|
                    0 <= n < TABLE_MAX_PAGES ==> #[trigger] pager.page_view(n) == self.page_view(
                        n,
                    ),
                forall|n: int| 0 <= n < i ==> !(#[trigger] pager.pages@[n] is Some),
            decreases TABLE_MAX_PAGES - i,
        {
            let ghost before = pager;
            let is_res = pager.pages[i].is_some();
            if is_res {
                let r = pager.flush(i);
                assert(r is Ok);
            }
            let ghost mid = pager;
            pager.pages[i] = None;
            proof {
                assert forall|n: int|
                    0 <= n < TABLE_MAX_PAGES implies #[trigger] pager.page_view(n)
                    == self.page_view(n) by {
                    assert(before.page_view(n) == self.page_view(n));
                    assert(mid.page_view(n) == before.page_view(n));
                    if n == i {
                        if is_res {
                            assert(disk_page_view(mid.disk@, i as int) == before.page_view(
                                i as int,
                            ));
                        } else {
                            assert(mid.pages@[n] is None);
                        }
                        assert(pager.page_view(n) == disk_page_view(pager.disk@, n));
                    } else {
                        assert(pager.pages@[n] == mid.pages@[n]);
                    }
                }
                assert forall|n: int| 0 <= n < i + 1 implies !(#[trigger] pager.pages@[n]
                    is Some) by {
                    if n < i {
                        assert(!(before.pages@[n] is Some));
                        assert(mid.pages@[n] == before.pages@[n]);
                    }
                }
            }
            i = i + 1;
        }
        proof {
            assert forall|n: int|
                0 <= n < TABLE_MAX_PAGES implies disk_page_view(pager.disk@, n) == self.page_view(
                n,
            ) by {
                assert(pager.page_view(n) == self.page_view(n));
                assert(!(pager.pages@[n] is Some));
            }
        }
        pager.disk
    }
}

} // verus!
