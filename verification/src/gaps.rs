//! The gaps between mapped regions, and the places in them that a search for
//! free space answers.

use vstd::prelude::*;
use vstd::arithmetic::div_mod::{lemma_fundamental_div_mod, lemma_mod_multiples_basic};
use crate::regions::mapped;
use crate::types::{PageRange, VmmapEntry};

verus! {

/// `[a, b)` is a gap of the window that starts at page `from`: a run of
/// unmapped pages that is as long as it can be. It starts at `from` or right
/// behind a mapped page, and the page behind it is mapped. So every gap lies
/// below the highest mapped page.
pub open spec fn is_gap(s: Seq<VmmapEntry>, from: int, a: int, b: int) -> bool {
    &&& from <= a < b
    &&& forall|p: int| a <= p < b ==> !#[trigger] mapped(s, p)
    &&& (a == from || mapped(s, a - 1))
    &&& mapped(s, b)
}

/// `found` is the lowest gap of the window from `from` that has `size` pages
/// or more; `None` says that no gap is that long.
pub open spec fn first_gap_of_size(
    s: Seq<VmmapEntry>,
    from: int,
    size: int,
    found: Option<PageRange>,
) -> bool {
    match found {
        Some(g) => {
            &&& is_gap(s, from, g.start as int, g.end as int)
            &&& g.end - g.start >= size
            &&& forall|a: int, b: int| #[trigger]
                is_gap(s, from, a, b) && b - a >= size ==> g.start <= a
        },
        None => forall|a: int, b: int| #[trigger] is_gap(s, from, a, b) ==> b - a < size,
    }
}

/// The least multiple of `unit` that is at least `x`.
pub open spec fn round_up(x: int, unit: int) -> int {
    ((x + unit - 1) / unit) * unit
}

/// The greatest multiple of `unit` that is at most `x`.
pub open spec fn round_down(x: int, unit: int) -> int {
    (x / unit) * unit
}

/// Whether the gap `[a, b)`, widened to multiples of `unit` on both sides,
/// has room for `num_pages` pages rounded up to a multiple of `unit`, and
/// its widened end is still a page number.
pub open spec fn gap_fits(a: int, b: int, num_pages: int, unit: int) -> bool {
    &&& round_up(b, unit) - round_down(a, unit) >= round_up(num_pages, unit)
    &&& round_up(b, unit) <= u32::MAX
}

/// The range of `num_pages` pages, rounded up to a multiple of `unit`, that
/// ends at the widened end of a gap that ends at `b`.
pub open spec fn slot_below(b: int, num_pages: int, unit: int) -> PageRange {
    PageRange {
        start: (round_up(b, unit) - round_up(num_pages, unit)) as u32,
        end: round_up(b, unit) as u32,
    }
}

/// `found` is the slot at the top of the lowest gap of the window from
/// `from` that fits; `None` says that no gap fits.
pub open spec fn first_slot(
    s: Seq<VmmapEntry>,
    from: int,
    num_pages: int,
    unit: int,
    found: Option<PageRange>,
) -> bool {
    match found {
        Some(slot) => exists|a: int, b: int|
            {
                &&& #[trigger] is_gap(s, from, a, b)
                &&& gap_fits(a, b, num_pages, unit)
                &&& slot == slot_below(b, num_pages, unit)
                &&& forall|a2: int, b2: int| #[trigger]
                    is_gap(s, from, a2, b2) && gap_fits(a2, b2, num_pages, unit) ==> a <= a2
            },
        None => forall|a: int, b: int| #[trigger]
            is_gap(s, from, a, b) ==> !gap_fits(a, b, num_pages, unit),
    }
}

/// The first page of the lowest entry, or 0 where nothing is mapped.
pub open spec fn lowest_page(s: Seq<VmmapEntry>) -> int {
    if s.len() > 0 {
        s[0].page_num as int
    } else {
        0
    }
}

/// `gaps` are the gaps of regions `s` in the window from page `from`: all of
/// them, in ascending order.
pub open spec fn gaps_of(s: Seq<VmmapEntry>, from: int, gaps: Seq<PageRange>) -> bool {
    &&& forall|k: int|
        0 <= k < gaps.len() ==> is_gap(
            s,
            from,
            (#[trigger] gaps[k]).start as int,
            gaps[k].end as int,
        )
    &&& forall|j: int, k: int|
        0 <= j < k < gaps.len() ==> (#[trigger] gaps[j]).end <= (#[trigger] gaps[k]).start
    &&& forall|a: int, b: int| #[trigger]
        is_gap(s, from, a, b) ==> exists|k: int|
            0 <= k < gaps.len() && (#[trigger] gaps[k]).start == a && gaps[k].end == b
}

/// `round_up` gives a multiple of `unit`, the least one that is not below `x`.
pub proof fn lemma_round_up(x: int, unit: int)
    requires
        0 <= x,
        0 < unit,
    ensures
        x <= round_up(x, unit) < x + unit,
        round_up(x, unit) % unit == 0,
{
    let q = (x + unit - 1) / unit;
    assert(q * unit <= x + unit - 1 < q * unit + unit) by (nonlinear_arith)
        requires
            q == (x + unit - 1) / unit,
            0 < unit,
    ;
    assert((q * unit) % unit == 0) by (nonlinear_arith)
        requires
            0 < unit,
    ;
}

/// `round_down` gives a multiple of `unit`, the greatest one that is not
/// above `x`.
pub proof fn lemma_round_down(x: int, unit: int)
    requires
        0 <= x,
        0 < unit,
    ensures
        x - unit < round_down(x, unit) <= x,
        round_down(x, unit) % unit == 0,
{
    let q = x / unit;
    assert(q * unit <= x < q * unit + unit) by (nonlinear_arith)
        requires
            q == x / unit,
            0 < unit,
    ;
    assert((q * unit) % unit == 0) by (nonlinear_arith)
        requires
            0 < unit,
    ;
}

/// The difference of two multiples of `unit` is a multiple of `unit`.
pub proof fn lemma_multiple_difference(x: int, y: int, unit: int)
    requires
        0 < unit,
        0 <= y <= x,
        x % unit == 0,
        y % unit == 0,
    ensures
        (x - y) % unit == 0,
{
    lemma_fundamental_div_mod(x, unit);
    lemma_fundamental_div_mod(y, unit);
    let k = x / unit - y / unit;
    assert(x - y == k * unit) by (nonlinear_arith)
        requires
            x == unit * (x / unit),
            y == unit * (y / unit),
            k == x / unit - y / unit,
    ;
    lemma_mod_multiples_basic(k, unit);
}

} // verus!
