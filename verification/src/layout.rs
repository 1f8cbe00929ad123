//! Page addressing: the fixed page size and the index-to-offset map.
//!
//! The leading page-sized region of the medium is reserved for the header,
//! so logical page `i` starts at byte offset `(i + 1) * PAGE_SIZE`.

use vstd::prelude::*;

verus! {

/// Size in bytes of every page, and of the reserved header region.
pub const PAGE_SIZE: usize = 4096;

/// Largest page count this machine can address: every page's region,
/// and the slot one past it that an append targets, must end at an
/// offset that fits in `usize`.
pub const MAX_PAGES: usize = usize::MAX / 4096 - 2;

/// Byte offset at which logical page `i` starts.
pub open spec fn page_start(i: int) -> int {
    (i + 1) * 4096
}

/// Page `i`'s whole region stays addressable in `usize` whenever
/// `i <= MAX_PAGES`.
pub proof fn lemma_page_region_fits(i: int)
    requires
        0 <= i <= MAX_PAGES as int,
    ensures
        page_start(i) + 4096 <= usize::MAX as int,
{
    let m = usize::MAX as int;
    vstd::arithmetic::div_mod::lemma_fundamental_div_mod(m, 4096);
    assert((i + 2) * 4096 <= (m / 4096) * 4096) by (nonlinear_arith)
        requires
            i + 2 <= m / 4096,
    ;
}

/// Maps a logical page index to its byte offset in the medium.
pub fn page_offset(i: usize) -> (off: usize)
    requires
        i <= MAX_PAGES,
    ensures
        off == page_start(i as int),
{
    proof {
        lemma_page_region_fits(i as int);
    }
    (i + 1) * PAGE_SIZE
}

} // verus!
