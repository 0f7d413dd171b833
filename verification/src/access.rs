//! What the checks of a range answer: whether every page is mapped, and with
//! a protection that allows the access asked for.

use vstd::prelude::*;
use crate::changes::unmapped_from;
use crate::constants::{PROT_EXEC, PROT_NONE, PROT_READ, PROT_WRITE};
use crate::regions::{entry_at, index_at, mapped, regions_wf};
use crate::types::VmmapEntry;

verus! {

/// Protection as an access check sees it: whoever may read, write or execute
/// may read.
pub open spec fn effective_prot(prot: i32) -> i32 {
    if (prot & (PROT_EXEC | PROT_READ | PROT_WRITE)) != PROT_NONE {
        prot | PROT_READ
    } else {
        prot
    }
}

/// Whether `wanted` asks for no bit outside `granted`.
pub open spec fn within(wanted: i32, granted: i32) -> bool {
    (wanted & !granted) == 0
}

/// Whether page `p` is mapped and its current protection allows `prot`.
pub open spec fn page_allows(s: Seq<VmmapEntry>, p: int, prot: i32) -> bool {
    entry_at(s, p) matches Some(e) && within(prot, effective_prot(e.prot))
}

/// Whether page `p` is mapped and `prot` stays within its maximum protection.
pub open spec fn page_admits(s: Seq<VmmapEntry>, p: int, prot: i32) -> bool {
    entry_at(s, p) matches Some(e) && within(prot, e.maxprot)
}

/// Whether the `n` pages from `start` are all mapped with a current
/// protection that allows `prot`. An empty range never is.
pub open spec fn range_allows(s: Seq<VmmapEntry>, start: int, n: int, prot: i32) -> bool {
    n > 0 && forall|p: int| start <= p < start + n ==> #[trigger] page_allows(s, p, prot)
}

/// Whether the `n` pages from `start` are all mapped and `prot` stays within
/// the maximum protection of each. An empty range never is.
pub open spec fn range_admits(s: Seq<VmmapEntry>, start: int, n: int, prot: i32) -> bool {
    n > 0 && forall|p: int| start <= p < start + n ==> #[trigger] page_admits(s, p, prot)
}

/// Whether a walk over the `n` pages from `start` gets as far as the entry
/// that holds the last of them: that entry exists, and every page of the
/// range in front of it allows `prot`.
pub open spec fn tail_reached(s: Seq<VmmapEntry>, start: int, n: int, prot: i32) -> bool {
    &&& n > 0
    &&& entry_at(s, start + n - 1) matches Some(t) && forall|p: int|
        start <= p < t.page_num ==> #[trigger] page_allows(s, p, prot)
}

/// What an access check of the `n` pages from `start` answers: the end of
/// the entry that holds the last page, where the whole range allows `prot`.
pub open spec fn addr_mapping_end(s: Seq<VmmapEntry>, start: int, n: int, prot: i32) -> Option<
    u32,
> {
    if range_allows(s, start, n, prot) {
        Some(entry_at(s, start + n - 1).unwrap().end() as u32)
    } else {
        None
    }
}

/// A page of the range that does not allow `prot`, in front of the entry
/// that holds the last page, stops the walk and fails the check.
pub proof fn lemma_walk_stopped(s: Seq<VmmapEntry>, start: int, n: int, prot: i32, q: int)
    requires
        start <= q < start + n,
        !page_allows(s, q, prot),
        entry_at(s, start + n - 1) matches Some(t) ==> q < t.page_num,
    ensures
        !tail_reached(s, start, n, prot),
        !range_allows(s, start, n, prot),
{
}

/// A page of the range that is outside the maximum protection fails the check.
pub proof fn lemma_not_admitted(s: Seq<VmmapEntry>, start: int, n: int, prot: i32, q: int)
    requires
        start <= q < start + n,
        !page_admits(s, q, prot),
    ensures
        !range_admits(s, start, n, prot),
{
}

/// While a walk over the entries that overlap `[lo, hi)` has passed the first
/// `i` of them and stands on page `current` in front of the next, that page
/// is not mapped.
pub proof fn lemma_gap_at(
    s: Seq<VmmapEntry>,
    f: Seq<VmmapEntry>,
    lo: int,
    hi: int,
    i: int,
    current: int,
)
    requires
        regions_wf(s),
        regions_wf(f),
        forall|x: VmmapEntry| #[trigger] f.contains(x) <==> s.contains(x) && x.overlaps(lo, hi),
        0 <= i <= f.len(),
        lo <= current < hi,
        forall|j: int| 0 <= j < i ==> (#[trigger] f[j]).end() <= current,
        i < f.len() ==> current < f[i].page_num,
    ensures
        !mapped(s, current),
        entry_at(s, current) is None,
{
    if mapped(s, current) {
        let k = index_at(s, current);
        let x = s[k];
        assert(s.contains(x));
        assert(x.overlaps(lo, hi));
        assert(f.contains(x));
        let j = choose|j: int| 0 <= j < f.len() && f[j] == x;
        if j < i {
            assert(f[j].end() <= current);
        } else if j > i {
            assert(f[i].end() <= f[j].page_num);
            assert(f[i].storable());
        }
    }
}

/// After a range is unmapped, a check of pages that reaches into it fails,
/// whatever was mapped and remembered before.
pub proof fn lemma_unmapped_fails(
    before: Seq<VmmapEntry>,
    after: Seq<VmmapEntry>,
    lo: int,
    hi: int,
    start: int,
    n: int,
    prot: i32,
    q: int,
)
    requires
        unmapped_from(before, after, lo, hi),
        lo <= q < hi,
        start <= q < start + n,
    ensures
        addr_mapping_end(after, start, n, prot) is None,
        !range_admits(after, start, n, prot),
{
    let m = entry_at(after, q);
    assert(!page_allows(after, q, prot));
    assert(!page_admits(after, q, prot));
}

} // verus!
