//! What mapping, unmapping and a change of protection do to an address
//! space, page by page.

use vstd::prelude::*;
use crate::constants::PAGESIZE;
use crate::regions::{
    entry_at,
    index_at,
    lemma_entry_at_contains,
    lemma_entry_at_index,
    lemma_entry_at_none,
    lemma_mapped_contains,
    lemma_no_shared_page,
    lemma_same_pages,
    mapped,
    regions_wf,
};
use crate::types::VmmapEntry;

verus! {

/// What is left of entry `e` around page `p` once the pages `[lo, hi)` are
/// cut out of it, for a page `p` of `e` outside `[lo, hi)`: the part in front
/// of `lo` for a page in front of it, else the part from `hi` on.
pub open spec fn kept_part(e: VmmapEntry, lo: int, hi: int, p: int) -> VmmapEntry {
    if p < lo {
        e.slice(
            e.page_num as int,
            if e.end() < lo {
                e.end()
            } else {
                lo
            },
        )
    } else {
        e.slice(
            if e.page_num > hi {
                e.page_num as int
            } else {
                hi
            },
            e.end(),
        )
    }
}

/// The part of entry `e` on the pages `[lo, hi)`.
pub open spec fn inner_part(e: VmmapEntry, lo: int, hi: int) -> VmmapEntry {
    e.slice(
        if e.page_num > lo {
            e.page_num as int
        } else {
            lo
        },
        if e.end() < hi {
            e.end()
        } else {
            hi
        },
    )
}

/// `after` is `before` with the pages `[lo, hi)` unmapped: no page of the
/// range is mapped, and every other page is held by what is left of the
/// entry that held it.
pub open spec fn unmapped_from(
    before: Seq<VmmapEntry>,
    after: Seq<VmmapEntry>,
    lo: int,
    hi: int,
) -> bool {
    forall|p: int| #[trigger]
        entry_at(after, p) == if lo <= p < hi {
            None
        } else {
            match entry_at(before, p) {
                Some(e) => Some(kept_part(e, lo, hi, p)),
                None => None,
            }
        }
}

/// `after` is `before` with `new` mapped over whatever was on its pages:
/// every page of `new` is held by `new`, and every other page is held by
/// what is left of the entry that held it.
pub open spec fn mapped_over(
    before: Seq<VmmapEntry>,
    after: Seq<VmmapEntry>,
    new: VmmapEntry,
) -> bool {
    forall|p: int| #[trigger]
        entry_at(after, p) == if new.covers(p) {
            Some(new)
        } else {
            match entry_at(before, p) {
                Some(e) => Some(kept_part(e, new.page_num as int, new.end(), p)),
                None => None,
            }
        }
}

/// `after` is `before` with `new` added and nothing else changed.
pub open spec fn added(before: Seq<VmmapEntry>, after: Seq<VmmapEntry>, new: VmmapEntry) -> bool {
    forall|p: int| #[trigger]
        entry_at(after, p) == if new.covers(p) {
            Some(new)
        } else {
            entry_at(before, p)
        }
}

/// `after` is `before` with the protection of the pages `[lo, hi)` set to
/// `prot`: every mapped page stays mapped; a page of the range is held by
/// the part of its entry inside the range, with the new protection; every
/// other page by what is left of its entry outside the range, as it was.
pub open spec fn reprotected(
    before: Seq<VmmapEntry>,
    after: Seq<VmmapEntry>,
    lo: int,
    hi: int,
    prot: i32,
) -> bool {
    forall|p: int| #[trigger]
        entry_at(after, p) == match entry_at(before, p) {
            Some(e) => Some(
                if lo <= p < hi {
                    inner_part(e, lo, hi).with_prot(prot)
                } else {
                    kept_part(e, lo, hi, p)
                },
            ),
            None => None,
        }
}

/// What is remembered after a change to the pages `[lo, hi)`: an entry that
/// shares a page with the range is forgotten.
pub open spec fn remembered_after(cached: Option<VmmapEntry>, lo: int, hi: int) -> Option<
    VmmapEntry,
> {
    match cached {
        Some(c) => if c.overlaps(lo, hi) {
            None
        } else {
            Some(c)
        },
        None => None,
    }
}

/// Whether `x` is an entry of `before` untouched by `[lo, hi)`, or what is
/// left of one in front of `lo` or behind `hi`.
pub open spec fn carved(before: Seq<VmmapEntry>, lo: int, hi: int, x: VmmapEntry) -> bool {
    ||| before.contains(x) && !x.overlaps(lo, hi)
    ||| exists|e: VmmapEntry| #[trigger]
        before.contains(e) && e.overlaps(lo, hi) && e.page_num < lo && x == e.slice(
            e.page_num as int,
            lo,
        )
    ||| exists|e: VmmapEntry| #[trigger]
        before.contains(e) && e.overlaps(lo, hi) && hi < e.end() && x == e.slice(hi, e.end())
}

/// A whole slice of an entry is the entry.
pub proof fn lemma_slice_whole(e: VmmapEntry)
    ensures
        e.slice(e.page_num as int, e.end()) == e,
{
}

/// What is left after cutting `[lo, hi)` out shares no page with the range.
pub proof fn lemma_carved_apart(before: Seq<VmmapEntry>, lo: int, hi: int, x: VmmapEntry)
    requires
        regions_wf(before),
        0 <= lo < hi <= u32::MAX,
        carved(before, lo, hi, x),
    ensures
        !x.overlaps(lo, hi),
{
    if exists|e: VmmapEntry| #[trigger]
        before.contains(e) && e.overlaps(lo, hi) && e.page_num < lo && x == e.slice(
            e.page_num as int,
            lo,
        ) {
        let e = choose|e: VmmapEntry| #[trigger]
            before.contains(e) && e.overlaps(lo, hi) && e.page_num < lo && x == e.slice(
                e.page_num as int,
                lo,
            );
        let i = choose|i: int| 0 <= i < before.len() && before[i] == e;
        assert(before[i].storable());
    }
    if exists|e: VmmapEntry| #[trigger]
        before.contains(e) && e.overlaps(lo, hi) && hi < e.end() && x == e.slice(hi, e.end()) {
        let e = choose|e: VmmapEntry| #[trigger]
            before.contains(e) && e.overlaps(lo, hi) && hi < e.end() && x == e.slice(hi, e.end());
        let i = choose|i: int| 0 <= i < before.len() && before[i] == e;
        assert(before[i].storable());
    }
}

/// The statement of [`lemma_carved_pages`] for one page.
pub proof fn lemma_carved_page(
    before: Seq<VmmapEntry>,
    after: Seq<VmmapEntry>,
    lo: int,
    hi: int,
    p: int,
)
    requires
        regions_wf(before),
        regions_wf(after),
        0 <= lo < hi <= u32::MAX,
        forall|x: VmmapEntry| #[trigger] after.contains(x) <==> carved(before, lo, hi, x),
    ensures
        entry_at(after, p) == if lo <= p < hi {
            None
        } else {
            match entry_at(before, p) {
                Some(e) => Some(kept_part(e, lo, hi, p)),
                None => None,
            }
        },
{
    // Whatever holds `p` afterwards is part of an entry that held `p` before.
    assert forall|y: VmmapEntry| #[trigger] after.contains(y) && y.covers(p) implies !(lo <= p
        < hi) && mapped(before, p) by {
        assert(carved(before, lo, hi, y));
        if before.contains(y) && !y.overlaps(lo, hi) {
            lemma_mapped_contains(before, p);
        } else if exists|e: VmmapEntry| #[trigger]
            before.contains(e) && e.overlaps(lo, hi) && e.page_num < lo && y == e.slice(
                e.page_num as int,
                lo,
            ) {
            let e = choose|e: VmmapEntry| #[trigger]
                before.contains(e) && e.overlaps(lo, hi) && e.page_num < lo && y == e.slice(
                    e.page_num as int,
                    lo,
                );
            let i = choose|i: int| 0 <= i < before.len() && before[i] == e;
            assert(before[i].storable());
            assert(e.covers(p));
            lemma_mapped_contains(before, p);
        } else {
            let e = choose|e: VmmapEntry| #[trigger]
                before.contains(e) && e.overlaps(lo, hi) && hi < e.end() && y == e.slice(
                    hi,
                    e.end(),
                );
            let i = choose|i: int| 0 <= i < before.len() && before[i] == e;
            assert(before[i].storable());
            assert(e.covers(p));
            lemma_mapped_contains(before, p);
        }
    }
    if lo <= p < hi || !mapped(before, p) {
        lemma_entry_at_none(after, p);
    } else {
        let i = index_at(before, p);
        let e = before[i];
        assert(before.contains(e));
        assert(e.storable());
        let x = kept_part(e, lo, hi, p);
        if !e.overlaps(lo, hi) {
            lemma_slice_whole(e);
            assert(x == e);
            assert(carved(before, lo, hi, x));
        } else if p < lo {
            assert(x == e.slice(e.page_num as int, lo));
            assert(carved(before, lo, hi, x));
        } else {
            assert(x == e.slice(hi, e.end()));
            assert(carved(before, lo, hi, x));
        }
        assert(after.contains(x));
        assert(x.covers(p));
        lemma_entry_at_contains(after, x, p);
    }
}

/// Cutting `[lo, hi)` out entry by entry unmaps exactly those pages.
pub proof fn lemma_carved_pages(before: Seq<VmmapEntry>, after: Seq<VmmapEntry>, lo: int, hi: int)
    requires
        regions_wf(before),
        regions_wf(after),
        0 <= lo < hi <= u32::MAX,
        forall|x: VmmapEntry| #[trigger] after.contains(x) <==> carved(before, lo, hi, x),
    ensures
        unmapped_from(before, after, lo, hi),
{
    assert forall|p: int| #[trigger]
        entry_at(after, p) == if lo <= p < hi {
            None
        } else {
            match entry_at(before, p) {
                Some(e) => Some(kept_part(e, lo, hi, p)),
                None => None,
            }
        } by {
        lemma_carved_page(before, after, lo, hi, p);
    }
}

/// Adding an entry that shares no page with what is stored changes the pages
/// of that entry and no others.
pub proof fn lemma_added_pages(before: Seq<VmmapEntry>, after: Seq<VmmapEntry>, new: VmmapEntry)
    requires
        regions_wf(before),
        regions_wf(after),
        forall|x: VmmapEntry| #[trigger] after.contains(x) <==> before.contains(x) || x == new,
    ensures
        added(before, after, new),
{
    assert forall|p: int| #[trigger]
        entry_at(after, p) == if new.covers(p) {
            Some(new)
        } else {
            entry_at(before, p)
        } by {
        assert(after.contains(new));
        if new.covers(p) {
            lemma_entry_at_contains(after, new, p);
        } else if mapped(before, p) {
            let e = before[index_at(before, p)];
            assert(before.contains(e));
            assert(after.contains(e));
            lemma_entry_at_contains(after, e, p);
        } else {
            assert forall|y: VmmapEntry| #[trigger] after.contains(y) implies !y.covers(p) by {
                if before.contains(y) && y.covers(p) {
                    lemma_mapped_contains(before, p);
                }
            }
            lemma_entry_at_none(after, p);
        }
    }
}

/// Unmapping the pages of `new` and then adding `new` maps `new` over what
/// was there.
pub proof fn lemma_mapped_over(
    before: Seq<VmmapEntry>,
    middle: Seq<VmmapEntry>,
    after: Seq<VmmapEntry>,
    new: VmmapEntry,
)
    requires
        unmapped_from(before, middle, new.page_num as int, new.end()),
        added(middle, after, new),
    ensures
        mapped_over(before, after, new),
{
    assert forall|p: int| #[trigger]
        entry_at(after, p) == if new.covers(p) {
            Some(new)
        } else {
            match entry_at(before, p) {
                Some(e) => Some(kept_part(e, new.page_num as int, new.end(), p)),
                None => None,
            }
        } by {
        let m = entry_at(middle, p);
    }
}

/// Cutting `[lo, hi)` out and storing, for each entry `taken` out, its part
/// inside the range with the protection `prot`, sets the protection of the
/// range and leaves every page with its entry.
pub proof fn lemma_reprotected_pages(
    before: Seq<VmmapEntry>,
    middle: Seq<VmmapEntry>,
    after: Seq<VmmapEntry>,
    taken: Seq<VmmapEntry>,
    lo: int,
    hi: int,
    prot: i32,
)
    requires
        regions_wf(before),
        regions_wf(middle),
        regions_wf(after),
        0 <= lo < hi <= u32::MAX,
        unmapped_from(before, middle, lo, hi),
        forall|x: VmmapEntry| #[trigger] taken.contains(x) <==> before.contains(x) && x.overlaps(
            lo,
            hi,
        ),
        forall|x: VmmapEntry| #[trigger]
            after.contains(x) <==> middle.contains(x) || exists|j: int|
                0 <= j < taken.len() && x == inner_part(#[trigger] taken[j], lo, hi).with_prot(
                    prot,
                ),
    ensures
        reprotected(before, after, lo, hi, prot),
{
    assert forall|p: int| #[trigger]
        entry_at(after, p) == match entry_at(before, p) {
            Some(e) => Some(
                if lo <= p < hi {
                    inner_part(e, lo, hi).with_prot(prot)
                } else {
                    kept_part(e, lo, hi, p)
                },
            ),
            None => None,
        } by {
        let m = entry_at(middle, p);
        // Whatever holds `p` afterwards held it in between, or is the inner
        // part of an entry that held it before.
        assert forall|y: VmmapEntry| #[trigger] after.contains(y) && y.covers(p) implies (
        !(lo <= p < hi) && m == Some(y)) || (lo <= p < hi && mapped(before, p)) by {
            if middle.contains(y) {
                lemma_entry_at_contains(middle, y, p);
            } else {
                let j = choose|j: int|
                    0 <= j < taken.len() && y == inner_part(#[trigger] taken[j], lo, hi).with_prot(
                        prot,
                    );
                let e = taken[j];
                assert(taken.contains(e));
                let i = choose|i: int| 0 <= i < before.len() && before[i] == e;
                assert(before[i].storable());
                assert(e.covers(p));
                lemma_mapped_contains(before, p);
            }
        }
        if lo <= p < hi {
            if mapped(before, p) {
                let i = index_at(before, p);
                let e = before[i];
                assert(before.contains(e));
                assert(e.storable());
                assert(taken.contains(e));
                let j = choose|j: int| 0 <= j < taken.len() && taken[j] == e;
                let x = inner_part(e, lo, hi).with_prot(prot);
                assert(x == inner_part(taken[j], lo, hi).with_prot(prot));
                assert(after.contains(x));
                assert(x.covers(p));
                lemma_entry_at_contains(after, x, p);
            } else {
                lemma_entry_at_none(after, p);
            }
        } else {
            if m is Some {
                let x = m.unwrap();
                lemma_entry_at_contains(middle, x, p);
                assert(after.contains(x));
                lemma_entry_at_contains(after, x, p);
            } else {
                lemma_entry_at_none(after, p);
            }
        }
    }
}

/// Unmapping a range in which nothing is mapped changes nothing.
pub proof fn lemma_unmap_unmapped(
    before: Seq<VmmapEntry>,
    after: Seq<VmmapEntry>,
    lo: int,
    hi: int,
)
    requires
        regions_wf(before),
        regions_wf(after),
        lo < hi,
        unmapped_from(before, after, lo, hi),
        forall|p: int| lo <= p < hi ==> !mapped(before, p),
    ensures
        after == before,
{
    assert forall|p: int| entry_at(after, p) == entry_at(before, p) by {
        let m = entry_at(after, p);
        if lo <= p < hi {
            assert(!mapped(before, p));
        } else if mapped(before, p) {
            let i = index_at(before, p);
            let e = before[i];
            assert(0 <= i < before.len() && e.covers(p));
            assert(e.storable());
            if e.overlaps(lo, hi) {
                let q = if e.page_num > lo {
                    e.page_num as int
                } else {
                    lo
                };
                assert(before[i].covers(q));
                assert(mapped(before, q));
            }
            lemma_slice_whole(e);
        }
    }
    lemma_same_pages(after, before);
}

/// Unmapping exactly the pages of the only entry leaves nothing mapped.
pub proof fn lemma_unmap_only_entry(before: Seq<VmmapEntry>, after: Seq<VmmapEntry>)
    requires
        regions_wf(before),
        regions_wf(after),
        before.len() == 1,
        unmapped_from(before, after, before[0].page_num as int, before[0].end()),
    ensures
        after.len() == 0,
{
    if after.len() > 0 {
        let x = after[0];
        let p = x.page_num as int;
        assert(x.storable());
        lemma_entry_at_index(after, 0, p);
        let m = entry_at(after, p);
        if mapped(before, p) {
            let i = index_at(before, p);
            assert(i == 0);
        }
    }
}

/// Regions `s` with the entry at index `i` replaced by `pieces`.
pub open spec fn with_pieces(s: Seq<VmmapEntry>, i: int, pieces: Seq<VmmapEntry>) -> Seq<
    VmmapEntry,
> {
    s.subrange(0, i) + pieces + s.subrange(i + 1, s.len() as int)
}

/// Replacing an entry by pieces of it that lie apart, in ascending order,
/// leaves a well-formed sequence: a page of a piece is held by that piece,
/// the other pages of the entry are not mapped any more, and every other
/// page is held as before.
pub proof fn lemma_with_pieces(s: Seq<VmmapEntry>, i: int, pieces: Seq<VmmapEntry>)
    requires
        regions_wf(s),
        regions_wf(pieces),
        0 <= i < s.len(),
        forall|m: int|
            0 <= m < pieces.len() ==> s[i].page_num <= (#[trigger] pieces[m]).page_num
                && pieces[m].end() <= s[i].end(),
    ensures
        regions_wf(with_pieces(s, i, pieces)),
        with_pieces(s, i, pieces).len() == s.len() - 1 + pieces.len(),
        forall|p: int| #[trigger]
            entry_at(with_pieces(s, i, pieces), p) == if mapped(pieces, p) {
                entry_at(pieces, p)
            } else if s[i].covers(p) {
                None
            } else {
                entry_at(s, p)
            },
{
    let c = with_pieces(s, i, pieces);
    let k = pieces.len() as int;
    let n = s.len() as int;
    assert(c.len() == n - 1 + k);
    assert forall|j: int| 0 <= j < c.len() implies #[trigger] c[j] == if j < i {
        s[j]
    } else if j < i + k {
        pieces[j - i]
    } else {
        s[j - k + 1]
    } by {}
    assert(regions_wf(c)) by {
        assert forall|j: int| 0 <= j < c.len() implies (#[trigger] c[j]).storable() by {
            if j < i {
                assert(c[j] == s[j]);
            } else if j < i + k {
                assert(c[j] == pieces[j - i]);
            } else {
                assert(c[j] == s[j - k + 1]);
            }
        }
        assert forall|a: int, b: int| 0 <= a < b < c.len() implies (#[trigger] c[a]).end() <= (
        #[trigger] c[b]).page_num by {
            let sa = if a < i {
                a
            } else {
                a - k + 1
            };
            let sb = if b < i {
                b
            } else {
                b - k + 1
            };
            if a < i && b >= i + k {
                assert(s[sa].end() <= s[sb].page_num);
            } else if a < i && b < i {
                assert(s[sa].end() <= s[sb].page_num);
            } else if a >= i + k {
                assert(s[sa].end() <= s[sb].page_num);
            } else if a < i {
                assert(s[a].end() <= s[i].page_num);
                assert(c[b] == pieces[b - i]);
            } else if b < i + k {
                assert(pieces[a - i].end() <= pieces[b - i].page_num);
            } else {
                assert(c[a] == pieces[a - i]);
                assert(s[i].end() <= s[sb].page_num);
            }
        }
    }
    assert forall|p: int| #[trigger]
        entry_at(c, p) == if mapped(pieces, p) {
            entry_at(pieces, p)
        } else if s[i].covers(p) {
            None
        } else {
            entry_at(s, p)
        } by {
        if mapped(pieces, p) {
            let m = index_at(pieces, p);
            assert(c[i + m] == pieces[m]);
            lemma_entry_at_index(c, i + m, p);
        } else if mapped(c, p) {
            let j = index_at(c, p);
            if j < i {
                assert(c[j] == s[j]);
                lemma_entry_at_index(s, j, p);
                lemma_no_shared_page(s, j, i, p);
            } else if j < i + k {
                assert(c[j] == pieces[j - i]);
                assert(pieces[j - i].covers(p));
            } else {
                assert(c[j] == s[j - k + 1]);
                lemma_entry_at_index(s, j - k + 1, p);
                lemma_no_shared_page(s, j - k + 1, i, p);
            }
        } else if mapped(s, p) {
            let j = index_at(s, p);
            if j < i {
                assert(c[j] == s[j]);
                assert(c[j].covers(p));
            } else if j > i {
                assert(c[j + k - 1] == s[j]);
                assert(c[j + k - 1].covers(p));
            } else {
                lemma_entry_at_index(s, i, p);
            }
        }
    }
}

/// Mapping `new` strictly inside the entry at index `i` puts three entries
/// in its place: what is left in front, `new`, and what is left behind.
pub proof fn lemma_mapped_inside(
    before: Seq<VmmapEntry>,
    after: Seq<VmmapEntry>,
    i: int,
    new: VmmapEntry,
)
    requires
        regions_wf(before),
        regions_wf(after),
        0 <= i < before.len(),
        new.storable(),
        before[i].page_num < new.page_num,
        new.end() < before[i].end(),
        mapped_over(before, after, new),
    ensures
        after == with_pieces(
            before,
            i,
            seq![
                before[i].slice(before[i].page_num as int, new.page_num as int),
                new,
                before[i].slice(new.end(), before[i].end()),
            ],
        ),
        after.len() == before.len() + 2,
{
    let e = before[i];
    let lo = new.page_num as int;
    let hi = new.end();
    let left = e.slice(e.page_num as int, lo);
    let right = e.slice(hi, e.end());
    let pieces = seq![left, new, right];
    assert(e.storable());
    lemma_slice_storable(e, e.page_num as int, lo);
    lemma_slice_storable(e, hi, e.end());
    assert(regions_wf(pieces));
    lemma_with_pieces(before, i, pieces);
    let c = with_pieces(before, i, pieces);
    assert forall|p: int| entry_at(c, p) == entry_at(after, p) by {
        let x = entry_at(c, p);
        let y = entry_at(after, p);
        if left.covers(p) {
            assert(pieces[0].covers(p));
            lemma_entry_at_index(pieces, 0, p);
            lemma_entry_at_index(before, i, p);
        } else if new.covers(p) {
            assert(pieces[1].covers(p));
            lemma_entry_at_index(pieces, 1, p);
        } else if right.covers(p) {
            assert(pieces[2].covers(p));
            lemma_entry_at_index(pieces, 2, p);
            lemma_entry_at_index(before, i, p);
        } else {
            assert(!e.covers(p));
            if mapped(pieces, p) {
                let m = index_at(pieces, p);
            }
            assert(!mapped(pieces, p));
            if mapped(before, p) {
                let j = index_at(before, p);
                let other = before[j];
                assert(other.storable());
                lemma_no_shared_page(before, j, i, p);
                if j < i {
                    assert(before[j].end() <= before[i].page_num);
                } else {
                    assert(before[i].end() <= before[j].page_num);
                }
                lemma_slice_whole(other);
            }
        }
    }
    lemma_same_pages(c, after);
}

/// Setting the protection of the first `hi - lo` pages of the entry at index
/// `i`, which is longer, puts two entries in its place: the front with the
/// new protection, and what is left behind as it was.
pub proof fn lemma_reprotected_front(
    before: Seq<VmmapEntry>,
    after: Seq<VmmapEntry>,
    i: int,
    hi: int,
    prot: i32,
)
    requires
        regions_wf(before),
        regions_wf(after),
        0 <= i < before.len(),
        before[i].page_num < hi < before[i].end(),
        reprotected(before, after, before[i].page_num as int, hi, prot),
    ensures
        after == with_pieces(
            before,
            i,
            seq![
                before[i].slice(before[i].page_num as int, hi).with_prot(prot),
                before[i].slice(hi, before[i].end()),
            ],
        ),
        after.len() == before.len() + 1,
{
    let e = before[i];
    let lo = e.page_num as int;
    let front = e.slice(lo, hi).with_prot(prot);
    let back = e.slice(hi, e.end());
    let pieces = seq![front, back];
    assert(e.storable());
    lemma_slice_storable(e, lo, hi);
    lemma_slice_storable(e, hi, e.end());
    assert(regions_wf(pieces));
    lemma_with_pieces(before, i, pieces);
    let c = with_pieces(before, i, pieces);
    assert forall|p: int| entry_at(c, p) == entry_at(after, p) by {
        let x = entry_at(c, p);
        let y = entry_at(after, p);
        if front.covers(p) {
            assert(pieces[0].covers(p));
            lemma_entry_at_index(pieces, 0, p);
            lemma_entry_at_index(before, i, p);
        } else if back.covers(p) {
            assert(pieces[1].covers(p));
            lemma_entry_at_index(pieces, 1, p);
            lemma_entry_at_index(before, i, p);
        } else {
            assert(!e.covers(p));
            if mapped(pieces, p) {
                let m = index_at(pieces, p);
            }
            assert(!mapped(pieces, p));
            if mapped(before, p) {
                let j = index_at(before, p);
                let other = before[j];
                assert(other.storable());
                lemma_no_shared_page(before, j, i, p);
                if j < i {
                    assert(before[j].end() <= before[i].page_num);
                } else {
                    assert(before[i].end() <= before[j].page_num);
                }
                lemma_slice_whole(other);
            }
        }
    }
    lemma_same_pages(c, after);
}

/// A part of an entry that may be stored may be stored.
pub proof fn lemma_slice_storable(e: VmmapEntry, a: int, b: int)
    requires
        e.storable(),
        e.page_num <= a < b <= e.end(),
    ensures
        e.slice(a, b).storable(),
        e.slice(a, b).page_num == a,
        e.slice(a, b).end() == b,
{
    assert((a - e.page_num) * PAGESIZE + (b - a) * PAGESIZE <= e.npages * PAGESIZE)
        by (nonlinear_arith)
        requires
            (a - e.page_num) + (b - a) <= e.npages,
            PAGESIZE == 4096,
    ;
    assert(0 <= (a - e.page_num) * PAGESIZE) by (nonlinear_arith)
        requires
            0 <= a - e.page_num,
            PAGESIZE == 4096,
    ;
}

} // verus!
