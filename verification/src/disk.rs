//! The byte medium that backs a page store.
//!
//! `MemDisk` models a seekable file as a growable byte vector: a write at an
//! offset past the end zero-fills the gap (a file hole), and a read past the
//! end is short. Every operation is specified against the medium's byte
//! sequence view.

use vstd::prelude::*;

verus! {

/// Contents of a byte medium after writing `data` at offset `pos`:
/// the medium grows to cover the written region, any gap between the old
/// end and `pos` reads as zeroes, and bytes outside the written region
/// keep their old values.
pub open spec fn store_at(d: Seq<u8>, pos: int, data: Seq<u8>) -> Seq<u8> {
    let end = pos + data.len();
    let new_len = if d.len() >= end {
        d.len() as int
    } else {
        end
    };
    Seq::new(new_len as nat, |i: int| {
        if pos <= i < end {
            data[i - pos]
        } else if i < d.len() {
            d[i]
        } else {
            0u8
        }
    })
}

/// Bytes a read of `count` bytes at offset `pos` returns: the requested
/// range truncated at the end of the medium (a short read), or nothing if
/// `pos` lies at or past the end.
pub open spec fn read_span(d: Seq<u8>, pos: int, count: int) -> Seq<u8> {
    if pos >= d.len() || pos < 0 || count <= 0 {
        Seq::empty()
    } else if pos + count <= d.len() {
        d.subrange(pos, pos + count)
    } else {
        d.subrange(pos, d.len() as int)
    }
}

/// A growable in-memory byte medium with file-like read and write
/// semantics.
pub struct MemDisk {
    bytes: Vec<u8>,
}

impl View for MemDisk {
    type V = Seq<u8>;

    closed spec fn view(&self) -> Seq<u8> {
        self.bytes@
    }
}

impl MemDisk {
    /// An empty medium, as a freshly created file.
    pub fn new() -> (d: MemDisk)
        ensures
            d@ == Seq::<u8>::empty(),
    {
        MemDisk { bytes: Vec::new() }
    }

    /// A medium holding exactly the given bytes.
    pub fn from_bytes(v: Vec<u8>) -> (d: MemDisk)
        ensures
            d@ == v@,
    {
        MemDisk { bytes: v }
    }

    /// Surrenders the medium's bytes.
    pub fn into_bytes(self) -> (v: Vec<u8>)
        ensures
            v@ == self@,
    {
        self.bytes
    }

    /// Current length of the medium in bytes.
    pub fn len(&self) -> (n: usize)
        ensures
            n == self@.len(),
    {
        self.bytes.len()
    }

    /// Reads up to `count` bytes starting at `pos`; short at the end of the
    /// medium, empty past it.
    pub fn read_at(&self, pos: usize, count: usize) -> (r: Vec<u8>)
        ensures
            r@ == read_span(self@, pos as int, count as int),
    {
        let len = self.bytes.len();
        if pos >= len || count == 0 {
            let empty: Vec<u8> = Vec::new();
            assert(empty@ =~= read_span(self@, pos as int, count as int));
            return empty;
        }
        let end = if count > len - pos {
            len
        } else {
            pos + count
        };
        let mut r: Vec<u8> = Vec::new();
        let mut i: usize = pos;
        while i < end
            invariant
                pos <= i <= end <= self.bytes@.len(),
                r@ == self.bytes@.subrange(pos as int, i as int),
            decreases end - i,
        {
            let b = self.bytes[i];
            r.push(b);
            assert(self.bytes@.subrange(pos as int, i + 1 as int) =~= self.bytes@.subrange(
                pos as int,
                i as int,
            ).push(self.bytes@[i as int]));
            i = i + 1;
        }
        assert(r@ =~= read_span(self@, pos as int, count as int));
        r
    }

    /// Writes `data` at offset `pos`, growing the medium and zero-filling
    /// any gap, as a file write past the end would.
    pub fn write_at(&mut self, pos: usize, data: &[u8])
        requires
            pos + data@.len() <= usize::MAX,
        ensures
            final(self)@ == store_at(old(self)@, pos as int, data@),
    {
        let ghost target = store_at(self@, pos as int, data@);
        let end = pos + data.len();
        let old_len = self.bytes.len();
        let mut out: Vec<u8> = Vec::new();
        let mut i: usize = 0;
        while i < pos
            invariant
                0 <= i <= pos,
                out@ =~= target.subrange(0, i as int),
                target == store_at(self@, pos as int, data@),
                old_len == self.bytes@.len(),
                end == pos + data@.len(),
                i <= target.len(),
            decreases pos - i,
        {
            let b = if i < old_len {
                self.bytes[i]
            } else {
                0u8
            };
            assert(target.len() >= pos as int);
            assert(target[i as int] == b);
            out.push(b);
            assert(out@ =~= target.subrange(0, i + 1 as int));
            i = i + 1;
        }
        let mut k: usize = 0;
        while k < data.len()
            invariant
                0 <= k <= data@.len(),
                out@ =~= target.subrange(0, pos + k as int),
                target == store_at(self@, pos as int, data@),
                old_len == self.bytes@.len(),
                end == pos + data@.len(),
                end <= usize::MAX,
                pos + data@.len() <= target.len(),
            decreases data@.len() - k,
        {
            let b = data[k];
            assert(target[pos + k as int] == b);
            out.push(b);
            assert(out@ =~= target.subrange(0, pos + (k + 1) as int));
            k = k + 1;
        }
        let mut j: usize = end;
        while j < old_len
            invariant
                end <= j,
                j <= target.len(),
                old_len <= target.len(),
                out@ =~= target.subrange(0, j as int),
                target == store_at(self@, pos as int, data@),
                old_len == self.bytes@.len(),
                end == pos + data@.len(),
            decreases old_len - j,
        {
            let b = self.bytes[j];
            assert(target[j as int] == b);
            out.push(b);
            assert(out@ =~= target.subrange(0, j + 1 as int));
            j = j + 1;
        }
        assert(out@ =~= target);
        self.bytes = out;
    }
}

} // verus!
