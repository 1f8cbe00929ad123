//! The page store: bounded reads and writes, growing appends, and the
//! persisted usage counters, over a byte medium laid out as one reserved
//! header region followed by fixed-size data pages.

use vstd::prelude::*;

use crate::buf::{buf_as_slice, buf_bytes, buf_len, buf_put_slice};
use crate::disk::{read_span, store_at, MemDisk};
use crate::error::StoreError;
use crate::header::{encode_header, header_bytes, parse_header, spec_open_counters};
use crate::layout::{lemma_page_region_fits, page_offset, page_start, MAX_PAGES, PAGE_SIZE};

verus! {

/// Bytes a read of logical page `i` returns from medium `d`: the page's
/// region, short or empty where the medium ends inside or before it.
pub open spec fn page_at(d: Seq<u8>, i: int) -> Seq<u8> {
    read_span(d, page_start(i), 4096)
}

/// A page store over a byte medium it exclusively owns.
///
/// `num_pages` counts the allocated data pages; the three counters record
/// read, write and append activity. All five live in memory; the counters
/// and the page count are made durable only by `write_counters`.
pub struct FileHandle {
    disk: MemDisk,
    num_pages: usize,
    read_count: usize,
    write_count: usize,
    append_count: usize,
}

impl FileHandle {
    /// The backing medium's bytes.
    pub closed spec fn spec_disk(&self) -> Seq<u8> {
        self.disk@
    }

    pub closed spec fn spec_num_pages(&self) -> usize {
        self.num_pages
    }

    pub closed spec fn spec_read_count(&self) -> usize {
        self.read_count
    }

    pub closed spec fn spec_write_count(&self) -> usize {
        self.write_count
    }

    pub closed spec fn spec_append_count(&self) -> usize {
        self.append_count
    }

    /// Every allocated page, and the slot the next append targets, is
    /// addressable on this machine.
    pub open spec fn wf(&self) -> bool {
        self.spec_num_pages() <= MAX_PAGES
    }

    /// Opens a store over the given medium. An empty medium gets the
    /// initial all-zero header written at its start; a non-empty one has
    /// its counters recovered from the stored header, failing only on a
    /// header with four fields that do not all parse.
    pub fn new(disk: MemDisk) -> (r: Result<FileHandle, StoreError>)
        ensures
            disk@.len() == 0 ==> (r matches Ok(h) && h.wf() && h.spec_num_pages() == 0
                && h.spec_read_count() == 0 && h.spec_write_count() == 0 && h.spec_append_count()
                == 0 && h.spec_disk() == header_bytes(0, 0, 0, 0).push(0u8)),
            disk@.len() > 0 ==> (match spec_open_counters(disk@) {
                Some(c) => r matches Ok(h) && h.wf() && h.spec_disk() == disk@
                    && h.spec_read_count() == c.0 && h.spec_write_count() == c.1
                    && h.spec_append_count() == c.2 && h.spec_num_pages() == c.3,
                None => r == Err::<FileHandle, StoreError>(StoreError::MalformedNumericField),
            }),
    {
        let mut disk = disk;
        if disk.len() == 0 {
            let mut hdr = encode_header(0, 0, 0, 0);
            hdr.push(0u8);
            disk.write_at(0, hdr.as_slice());
            proof {
                assert(disk@ =~= hdr@);
            }
            Ok(
                FileHandle {
                    disk,
                    num_pages: 0,
                    read_count: 0,
                    write_count: 0,
                    append_count: 0,
                },
            )
        } else {
            let raw = disk.read_at(0, PAGE_SIZE);
            proof {
                if disk@.len() <= 4096 {
                    assert(raw@ =~= disk@);
                } else {
                    assert(raw@ =~= disk@.take(4096));
                }
            }
            match parse_header(&raw) {
                Ok((r, w, a, n)) => Ok(
                    FileHandle {
                        disk,
                        num_pages: n,
                        read_count: r,
                        write_count: w,
                        append_count: a,
                    },
                ),
                Err(e) => Err(e),
            }
        }
    }

    /// Current page count; pages `0 .. get_num_pages()` are the valid
    /// read and write targets.
    pub fn get_num_pages(&self) -> (n: usize)
        ensures
            n == self.spec_num_pages(),
    {
        self.num_pages
    }

    /// Reads recorded by this store instance.
    pub fn get_read_count(&self) -> (n: usize)
        ensures
            n == self.spec_read_count(),
    {
        self.read_count
    }

    /// Writes recorded by this store instance.
    pub fn get_write_count(&self) -> (n: usize)
        ensures
            n == self.spec_write_count(),
    {
        self.write_count
    }

    /// Appends recorded by this store instance.
    pub fn get_append_count(&self) -> (n: usize)
        ensures
            n == self.spec_append_count(),
    {
        self.append_count
    }

    /// Releases the store and surrenders its backing medium.
    pub fn into_disk(self) -> (d: MemDisk)
        ensures
            d@ == self.spec_disk(),
    {
        self.disk
    }

    /// Reads page `page_num`, appending the bytes read to `data` (the
    /// buffer is not cleared first) and counting the read. A read at or
    /// past the page count fails with `OutOfBounds` and touches nothing;
    /// a read inside the page count returns the page's bytes — short only
    /// where the medium truly ends inside the page's region.
    pub fn read_page(&mut self, page_num: usize, data: &mut bytes::BytesMut) -> (r: Result<
        usize,
        StoreError,
    >)
        requires
            old(self).wf(),
            old(self).spec_read_count() < usize::MAX,
            buf_bytes(*old(data)).len() + 4096 <= usize::MAX,
        ensures
            final(self).wf(),
            page_num >= old(self).spec_num_pages() ==> r == Err::<usize, StoreError>(
                StoreError::OutOfBounds,
            ) && *final(self) == *old(self) && buf_bytes(*final(data)) == buf_bytes(*old(data)),
            page_num < old(self).spec_num_pages() ==> ({
                let chunk = page_at(old(self).spec_disk(), page_num as int);
                r == Ok::<usize, StoreError>(chunk.len() as usize) && buf_bytes(*final(data))
                    == buf_bytes(*old(data)) + chunk && final(self).spec_disk() == old(self).spec_disk() && final(self).spec_num_pages() == old(self).spec_num_pages()
                    && final(self).spec_read_count() == old(self).spec_read_count() + 1 && final(self).spec_write_count() == old(self).spec_write_count() && final(self).spec_append_count() == old(self).spec_append_count()
            }),
    {
        if page_num >= self.num_pages {
            return Err(StoreError::OutOfBounds);
        }
        let off = page_offset(page_num);
        let chunk = self.disk.read_at(off, PAGE_SIZE);
        buf_put_slice(data, chunk.as_slice());
        self.read_count = self.read_count + 1;
        Ok(chunk.len())
    }

    /// Overwrites page `page_num` with `data` and counts the write. Fails
    /// with `OutOfBounds` at or past the page count and with
    /// `InvalidArgument` on a buffer that is not exactly one page,
    /// touching nothing in either case.
    pub fn write_page(&mut self, page_num: usize, data: &bytes::BytesMut) -> (r: Result<
        usize,
        StoreError,
    >)
        requires
            old(self).wf(),
            old(self).spec_write_count() < usize::MAX,
        ensures
            final(self).wf(),
            page_num >= old(self).spec_num_pages() ==> r == Err::<usize, StoreError>(
                StoreError::OutOfBounds,
            ) && *final(self) == *old(self),
            page_num < old(self).spec_num_pages() && buf_bytes(*data).len() != 4096 ==> r == Err::<
                usize,
                StoreError,
            >(StoreError::InvalidArgument) && *final(self) == *old(self),
            page_num < old(self).spec_num_pages() && buf_bytes(*data).len() == 4096 ==> r == Ok::<
                usize,
                StoreError,
            >(4096) && final(self).spec_disk() == store_at(
                old(self).spec_disk(),
                page_start(page_num as int),
                buf_bytes(*data),
            ) && final(self).spec_num_pages() == old(self).spec_num_pages() && final(self).spec_write_count() == old(self).spec_write_count() + 1 && final(self).spec_read_count() == old(self).spec_read_count() && final(self).spec_append_count()
                == old(self).spec_append_count(),
    {
        if page_num >= self.num_pages {
            return Err(StoreError::OutOfBounds);
        }
        if buf_len(data) != PAGE_SIZE {
            return Err(StoreError::InvalidArgument);
        }
        let off = page_offset(page_num);
        proof {
            lemma_page_region_fits(page_num as int);
        }
        self.disk.write_at(off, buf_as_slice(data));
        self.write_count = self.write_count + 1;
        Ok(PAGE_SIZE)
    }

    /// Appends `data` as the new last page: writes it one slot past the
    /// current pages, then grows the page count and counts the append.
    /// Fails only with `InvalidArgument` on a buffer that is not exactly
    /// one page, touching nothing.
    pub fn append_page(&mut self, data: &bytes::BytesMut) -> (r: Result<usize, StoreError>)
        requires
            old(self).wf(),
            old(self).spec_append_count() < usize::MAX,
            old(self).spec_num_pages() < MAX_PAGES,
        ensures
            final(self).wf(),
            buf_bytes(*data).len() != 4096 ==> r == Err::<usize, StoreError>(
                StoreError::InvalidArgument,
            ) && *final(self) == *old(self),
            buf_bytes(*data).len() == 4096 ==> r == Ok::<usize, StoreError>(4096) && final(self).spec_disk() == store_at(
                old(self).spec_disk(),
                page_start(old(self).spec_num_pages() as int),
                buf_bytes(*data),
            ) && final(self).spec_num_pages() == old(self).spec_num_pages() + 1 && final(self).spec_append_count() == old(self).spec_append_count() + 1 && final(self).spec_read_count() == old(self).spec_read_count() && final(self).spec_write_count()
                == old(self).spec_write_count(),
    {
        if buf_len(data) != PAGE_SIZE {
            return Err(StoreError::InvalidArgument);
        }
        let off = page_offset(self.num_pages);
        proof {
            lemma_page_region_fits(self.num_pages as int);
        }
        self.disk.write_at(off, buf_as_slice(data));
        self.num_pages = self.num_pages + 1;
        self.append_count = self.append_count + 1;
        Ok(PAGE_SIZE)
    }

    /// Serializes the four counters in stored order and writes them,
    /// NUL-terminated, at the start of the medium; nothing else changes.
    /// Returns the number of header bytes written.
    pub fn write_counters(&mut self) -> (r: usize)
        ensures
            r == header_bytes(
                old(self).spec_read_count() as nat,
                old(self).spec_write_count() as nat,
                old(self).spec_append_count() as nat,
                old(self).spec_num_pages() as nat,
            ).len() + 1,
            final(self).spec_disk() == store_at(
                old(self).spec_disk(),
                0,
                header_bytes(
                    old(self).spec_read_count() as nat,
                    old(self).spec_write_count() as nat,
                    old(self).spec_append_count() as nat,
                    old(self).spec_num_pages() as nat,
                ).push(0u8),
            ),
            final(self).spec_num_pages() == old(self).spec_num_pages(),
            final(self).spec_read_count() == old(self).spec_read_count(),
            final(self).spec_write_count() == old(self).spec_write_count(),
            final(self).spec_append_count() == old(self).spec_append_count(),
    {
        let mut hdr = encode_header(
            self.read_count,
            self.write_count,
            self.append_count,
            self.num_pages,
        );
        hdr.push(0u8);
        let n = hdr.len();
        self.disk.write_at(0, hdr.as_slice());
        n
    }
}

/// Law: a page just written at index `i` — by a write on an allocated page
/// or by an append on the next slot — is exactly what a read of index `i`
/// then returns.
pub proof fn lemma_written_page_reads_back(d: Seq<u8>, i: int, b: Seq<u8>)
    requires
        0 <= i,
        b.len() == 4096,
    ensures
        page_at(store_at(d, page_start(i), b), i) == b,
{
    let nd = store_at(d, page_start(i), b);
    assert(page_at(nd, i) =~= b);
}

/// Law: writing page `i` leaves every other page's bytes unchanged — any
/// later page unconditionally, and any earlier page whose region already
/// lay whole within the medium.
pub proof fn lemma_write_preserves_other_pages(d: Seq<u8>, i: int, j: int, b: Seq<u8>)
    requires
        0 <= i,
        0 <= j,
        i != j,
        b.len() == 4096,
        j < i ==> page_start(j) + 4096 <= d.len(),
    ensures
        page_at(store_at(d, page_start(i), b), j) == page_at(d, j),
{
    let nd = store_at(d, page_start(i), b);
    if j < i {
        assert((j + 2) * 4096 <= (i + 1) * 4096);
        assert(page_at(nd, j) =~= page_at(d, j));
    } else {
        assert((i + 2) * 4096 <= (j + 1) * 4096);
        assert(page_at(nd, j) =~= page_at(d, j));
    }
}

} // verus!
