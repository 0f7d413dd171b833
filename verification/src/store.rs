//! Verified access to the interval map, in terms of the entries it holds.
//!
//! The map is keyed by closed page intervals; an address space keeps each key
//! equal to the pages of its entry. Under that invariant the functions here
//! turn what the map's methods do into statements about the sequence of
//! stored entries.

use vstd::prelude::*;
use nodit::{Interval, NoditMap};
use crate::gaps::is_gap;
use crate::interval_map::{
    ascending,
    covered,
    map_first_key_value,
    map_gaps_trimmed,
    map_insert_strict,
    map_last_key_value,
    map_overlapping,
    map_overlaps,
    map_remove_overlapping,
    meeting_run,
    meets,
    stored,
};
use crate::regions::{
    count_below,
    deref_all,
    index_at,
    lemma_count_below,
    lemma_entry_at_index,
    mapped,
    regions_wf,
    same_spans,
};
use crate::types::{PageRange, VmmapEntry};

verus! {

/// The entries of the stored items, in order.
pub open spec fn entries_of(items: Seq<(u32, u32, VmmapEntry)>) -> Seq<VmmapEntry> {
    Seq::new(items.len(), |i: int| items[i].2)
}

/// Every item is keyed by the pages of its entry, and its entry may be stored.
pub open spec fn keyed(items: Seq<(u32, u32, VmmapEntry)>) -> bool {
    forall|i: int|
        0 <= i < items.len() ==> {
            let item = #[trigger] items[i];
            &&& item.2.storable()
            &&& item.0 == item.2.page_num
            &&& item.1 == item.2.end() - 1
        }
}

/// The invariant of the stored items: in ascending order without shared
/// pages, and keyed by their entries.
pub open spec fn items_wf(items: Seq<(u32, u32, VmmapEntry)>) -> bool {
    ascending(items) && keyed(items)
}

/// Well-formed items hold a well-formed sequence of regions.
pub proof fn lemma_items_regions(items: Seq<(u32, u32, VmmapEntry)>)
    requires
        items_wf(items),
    ensures
        regions_wf(entries_of(items)),
        entries_of(items).len() == items.len(),
{
    let r = entries_of(items);
    assert forall|i: int| 0 <= i < r.len() implies (#[trigger] r[i]).storable() by {
        assert(items[i].2.storable());
    }
    assert forall|i: int, j: int| 0 <= i < j < r.len() implies (#[trigger] r[i]).end() <= (
    #[trigger] r[j]).page_num by {
        assert(items[i].1 < items[j].0);
    }
}

/// Under the key invariant an item meets a closed interval exactly when its
/// entry overlaps the half-open range with the same pages.
pub proof fn lemma_meets_overlaps(items: Seq<(u32, u32, VmmapEntry)>, i: int, lo: u32, hi: u32)
    requires
        keyed(items),
        0 <= i < items.len(),
        lo < hi,
    ensures
        meets(items[i], lo, (hi - 1) as u32) <==> entries_of(items)[i].overlaps(
            lo as int,
            hi as int,
        ),
{
}

/// Stores `e`, which shares no page with what is stored.
pub(crate) fn store_insert(m: &mut NoditMap<u32, Interval<u32>, VmmapEntry>, e: VmmapEntry)
    requires
        items_wf(stored(*old(m))),
        e.storable(),
        forall|x: VmmapEntry| #[trigger]
            entries_of(stored(*old(m))).contains(x) ==> !x.overlaps(e.page_num as int, e.end()),
    ensures
        items_wf(stored(*final(m))),
        forall|x: VmmapEntry| #[trigger]
            entries_of(stored(*final(m))).contains(x) <==> entries_of(stored(*old(m))).contains(x)
                || x == e,
{
    let ghost s0 = stored(*m);
    let ghost r0 = entries_of(s0);
    let last: u32 = e.page_num + (e.npages - 1);
    proof {
        assert forall|i: int| 0 <= i < s0.len() implies !meets(
            #[trigger] s0[i],
            e.page_num,
            last,
        ) by {
            assert(r0[i] == s0[i].2);
            assert(r0.contains(r0[i]));
        }
    }
    let inserted = map_insert_strict(m, e.page_num, last, e);
    proof {
        assert(inserted);
        let s1 = stored(*m);
        let r1 = entries_of(s1);
        let item = (e.page_num, last, e);
        let k = choose|k: int| 0 <= k <= s0.len() && s1 == s0.insert(k, item);
        assert forall|i: int| 0 <= i < s1.len() implies {
            let t = #[trigger] s1[i];
            &&& t.2.storable()
            &&& t.0 == t.2.page_num
            &&& t.1 == t.2.end() - 1
        } by {
            if i < k {
                assert(s1[i] == s0[i]);
            } else if i > k {
                assert(s1[i] == s0[i - 1]);
            }
        }
        assert forall|x: VmmapEntry| #[trigger] r1.contains(x) <==> r0.contains(x) || x == e by {
            if r1.contains(x) {
                let i = choose|i: int| 0 <= i < r1.len() && r1[i] == x;
                if i < k {
                    assert(s1[i] == s0[i]);
                    assert(r0[i] == x);
                } else if i > k {
                    assert(s1[i] == s0[i - 1]);
                    assert(r0[i - 1] == x);
                }
            }
            if r0.contains(x) {
                let i = choose|i: int| 0 <= i < r0.len() && r0[i] == x;
                if i < k {
                    assert(s1[i] == s0[i]);
                    assert(r1[i] == x);
                } else {
                    assert(s1[i + 1] == s0[i]);
                    assert(r1[i + 1] == x);
                }
            }
            if x == e {
                assert(s1[k] == item);
                assert(r1[k] == x);
            }
        }
    }
}

/// Takes out every entry that shares a page with `[lo, hi)` and hands them
/// back in ascending order.
pub(crate) fn store_take(
    m: &mut NoditMap<u32, Interval<u32>, VmmapEntry>,
    lo: u32,
    hi: u32,
) -> (taken: Vec<VmmapEntry>)
    requires
        items_wf(stored(*old(m))),
        lo < hi,
    ensures
        items_wf(stored(*final(m))),
        regions_wf(taken@),
        forall|x: VmmapEntry| #[trigger]
            entries_of(stored(*final(m))).contains(x) <==> entries_of(stored(*old(m))).contains(x)
                && !x.overlaps(lo as int, hi as int),
        forall|x: VmmapEntry| #[trigger]
            taken@.contains(x) <==> entries_of(stored(*old(m))).contains(x) && x.overlaps(
                lo as int,
                hi as int,
            ),
{
    let ghost s0 = stored(*m);
    let ghost r0 = entries_of(s0);
    let taken = map_remove_overlapping(m, lo, hi - 1);
    proof {
        let s1 = stored(*m);
        let r1 = entries_of(s1);
        let last = (hi - 1) as u32;
        let (a, b) = choose|a: int, b: int|
            {
                &&& meeting_run(s0, lo, last, a, b)
                &&& taken@.len() == b - a
                &&& forall|i: int| 0 <= i < b - a ==> #[trigger] taken@[i] == s0[a + i].2
                &&& s1 == s0.subrange(0, a) + s0.subrange(b, s0.len() as int)
            };
        lemma_items_regions(s0);
        assert(s1.len() == s0.len() - (b - a));
        assert forall|i: int| 0 <= i < s1.len() implies #[trigger] s1[i] == s0[if i < a {
            i
        } else {
            i + (b - a)
        }] by {}
        assert(ascending(s1)) by {
            assert forall|i: int, j: int| 0 <= i < j < s1.len() implies (#[trigger] s1[i]).1 < (
            #[trigger] s1[j]).0 by {
                let i0 = if i < a {
                    i
                } else {
                    i + (b - a)
                };
                let j0 = if j < a {
                    j
                } else {
                    j + (b - a)
                };
                assert(s1[i] == s0[i0] && s1[j] == s0[j0]);
                assert(s0[i0].1 < s0[j0].0);
            }
            assert forall|i: int| 0 <= i < s1.len() implies (#[trigger] s1[i]).0 <= s1[i].1 by {
                let i0 = if i < a {
                    i
                } else {
                    i + (b - a)
                };
                assert(s1[i] == s0[i0]);
            }
        }
        assert(keyed(s1)) by {
            assert forall|i: int| 0 <= i < s1.len() implies {
                let t = #[trigger] s1[i];
                &&& t.2.storable()
                &&& t.0 == t.2.page_num
                &&& t.1 == t.2.end() - 1
            } by {
                let i0 = if i < a {
                    i
                } else {
                    i + (b - a)
                };
                assert(s1[i] == s0[i0]);
            }
        }
        assert(regions_wf(taken@)) by {
            assert forall|i: int| 0 <= i < taken@.len() implies (#[trigger] taken@[i]).storable() by {
                assert(taken@[i] == s0[a + i].2);
            }
            assert forall|i: int, j: int| 0 <= i < j < taken@.len() implies (
            #[trigger] taken@[i]).end() <= (#[trigger] taken@[j]).page_num by {
                assert(taken@[i] == s0[a + i].2);
                assert(taken@[j] == s0[a + j].2);
                assert(s0[a + i].1 < s0[a + j].0);
            }
        }
        assert forall|x: VmmapEntry| #[trigger]
            r1.contains(x) <==> r0.contains(x) && !x.overlaps(lo as int, hi as int) by {
            if r1.contains(x) {
                let i = choose|i: int| 0 <= i < r1.len() && r1[i] == x;
                let i0 = if i < a {
                    i
                } else {
                    i + (b - a)
                };
                assert(s1[i] == s0[i0]);
                assert(r0[i0] == x);
                lemma_meets_overlaps(s0, i0, lo, hi);
            }
            if r0.contains(x) && !x.overlaps(lo as int, hi as int) {
                let j = choose|j: int| 0 <= j < r0.len() && r0[j] == x;
                lemma_meets_overlaps(s0, j, lo, hi);
                assert(!meets(s0[j], lo, last));
                if j < a {
                    assert(s1[j] == s0[j]);
                    assert(r1[j] == x);
                } else {
                    assert(s1[j - (b - a)] == s0[j]);
                    assert(r1[j - (b - a)] == x);
                }
            }
        }
        assert forall|x: VmmapEntry| #[trigger]
            taken@.contains(x) <==> r0.contains(x) && x.overlaps(lo as int, hi as int) by {
            if taken@.contains(x) {
                let i = choose|i: int| 0 <= i < taken@.len() && taken@[i] == x;
                assert(taken@[i] == s0[a + i].2);
                assert(r0[a + i] == x);
                lemma_meets_overlaps(s0, a + i, lo, hi);
            }
            if r0.contains(x) && x.overlaps(lo as int, hi as int) {
                let j = choose|j: int| 0 <= j < r0.len() && r0[j] == x;
                lemma_meets_overlaps(s0, j, lo, hi);
                assert(meets(s0[j], lo, last));
                assert(taken@[j - a] == s0[a + (j - a)].2);
            }
        }
    }
    taken
}

/// Whether an entry shares a page with `[lo, hi)`.
pub(crate) fn store_overlaps(
    m: &NoditMap<u32, Interval<u32>, VmmapEntry>,
    lo: u32,
    hi: u32,
) -> (any: bool)
    requires
        items_wf(stored(*m)),
        lo < hi,
    ensures
        any == (exists|x: VmmapEntry| #[trigger]
            entries_of(stored(*m)).contains(x) && x.overlaps(lo as int, hi as int)),
{
    let any = map_overlaps(m, lo, hi - 1);
    proof {
        let s0 = stored(*m);
        let r0 = entries_of(s0);
        let last = (hi - 1) as u32;
        if any {
            let i = choose|i: int| 0 <= i < s0.len() && meets(#[trigger] s0[i], lo, last);
            lemma_meets_overlaps(s0, i, lo, hi);
            assert(r0.contains(r0[i]));
        }
        if exists|x: VmmapEntry| #[trigger] r0.contains(x) && x.overlaps(lo as int, hi as int) {
            let x = choose|x: VmmapEntry| #[trigger]
                r0.contains(x) && x.overlaps(lo as int, hi as int);
            let j = choose|j: int| 0 <= j < r0.len() && r0[j] == x;
            lemma_meets_overlaps(s0, j, lo, hi);
            assert(meets(s0[j], lo, last));
        }
    }
    any
}

/// The entries that share a page with `[lo, hi)`, in ascending order.
pub(crate) fn store_overlapping(
    m: &NoditMap<u32, Interval<u32>, VmmapEntry>,
    lo: u32,
    hi: u32,
) -> (found: Vec<&VmmapEntry>)
    requires
        items_wf(stored(*m)),
        lo < hi,
    ensures
        regions_wf(deref_all(found@)),
        forall|x: VmmapEntry| #[trigger]
            deref_all(found@).contains(x) <==> entries_of(stored(*m)).contains(x) && x.overlaps(
                lo as int,
                hi as int,
            ),
{
    let found = map_overlapping(m, lo, hi - 1);
    proof {
        let s0 = stored(*m);
        let r0 = entries_of(s0);
        let f = deref_all(found@);
        let last = (hi - 1) as u32;
        let (a, b) = choose|a: int, b: int|
            meeting_run(s0, lo, last, a, b) && found@.len() == b - a && forall|i: int|
                0 <= i < b - a ==> *(#[trigger] found@[i]) == s0[a + i].2;
        assert forall|i: int| 0 <= i < f.len() implies #[trigger] f[i] == s0[a + i].2 by {
            assert(*found@[i] == s0[a + i].2);
        }
        assert(regions_wf(f)) by {
            assert forall|i: int| 0 <= i < f.len() implies (#[trigger] f[i]).storable() by {
                assert(f[i] == s0[a + i].2);
            }
            assert forall|i: int, j: int| 0 <= i < j < f.len() implies (#[trigger] f[i]).end() <= (
            #[trigger] f[j]).page_num by {
                assert(f[i] == s0[a + i].2);
                assert(f[j] == s0[a + j].2);
                assert(s0[a + i].1 < s0[a + j].0);
            }
        }
        assert forall|x: VmmapEntry| #[trigger]
            f.contains(x) <==> r0.contains(x) && x.overlaps(lo as int, hi as int) by {
            if f.contains(x) {
                let i = choose|i: int| 0 <= i < f.len() && f[i] == x;
                assert(f[i] == s0[a + i].2);
                assert(r0[a + i] == x);
                lemma_meets_overlaps(s0, a + i, lo, hi);
            }
            if r0.contains(x) && x.overlaps(lo as int, hi as int) {
                let j = choose|j: int| 0 <= j < r0.len() && r0[j] == x;
                lemma_meets_overlaps(s0, j, lo, hi);
                assert(meets(s0[j], lo, last));
                assert(f[j - a] == s0[a + (j - a)].2);
            }
        }
    }
    found
}

/// Under the key invariant a page is held by a stored interval exactly when
/// it is mapped.
pub proof fn lemma_covered_mapped(items: Seq<(u32, u32, VmmapEntry)>, p: int)
    requires
        keyed(items),
    ensures
        covered(items, p) <==> mapped(entries_of(items), p),
{
    let r = entries_of(items);
    if covered(items, p) {
        let i = choose|i: int| 0 <= i < items.len() && (#[trigger] items[i]).0 <= p <= items[i].1;
        assert(r[i].covers(p));
    }
    if mapped(r, p) {
        let i = choose|i: int| 0 <= i < r.len() && (#[trigger] r[i]).covers(p);
        assert(items[i].0 <= p <= items[i].1);
    }
}

/// The lowest entry, if anything is stored.
pub(crate) fn store_first(m: &NoditMap<u32, Interval<u32>, VmmapEntry>) -> (first: Option<
    &VmmapEntry,
>)
    requires
        items_wf(stored(*m)),
    ensures
        match first {
            Some(e) => entries_of(stored(*m)).len() > 0 && *e == entries_of(stored(*m))[0],
            None => entries_of(stored(*m)).len() == 0,
        },
{
    match map_first_key_value(m) {
        Some(item) => Some(item.2),
        None => None,
    }
}

/// The highest entry, if anything is stored.
pub(crate) fn store_last(m: &NoditMap<u32, Interval<u32>, VmmapEntry>) -> (last: Option<
    &VmmapEntry,
>)
    requires
        items_wf(stored(*m)),
    ensures
        match last {
            Some(e) => entries_of(stored(*m)).len() > 0 && *e == entries_of(stored(*m)).last(),
            None => entries_of(stored(*m)).len() == 0,
        },
{
    match map_last_key_value(m) {
        Some(item) => Some(item.2),
        None => None,
    }
}

/// The gaps of the window from page `from` up to the highest mapped page
/// `top`, in ascending order: all of them, and nothing else.
pub(crate) fn store_gaps(
    m: &NoditMap<u32, Interval<u32>, VmmapEntry>,
    from: u32,
    top: u32,
) -> (gaps: Vec<PageRange>)
    requires
        items_wf(stored(*m)),
        from <= top,
        mapped(entries_of(stored(*m)), top as int),
        forall|p: int| p > top ==> !#[trigger] mapped(entries_of(stored(*m)), p),
    ensures
        forall|k: int|
            0 <= k < gaps@.len() ==> is_gap(
                entries_of(stored(*m)),
                from as int,
                (#[trigger] gaps@[k]).start as int,
                gaps@[k].end as int,
            ),
        forall|j: int, k: int|
            0 <= j < k < gaps@.len() ==> (#[trigger] gaps@[j]).end <= (#[trigger] gaps@[k]).start,
        forall|a: int, b: int| #[trigger]
            is_gap(entries_of(stored(*m)), from as int, a, b) ==> exists|k: int|
                0 <= k < gaps@.len() && (#[trigger] gaps@[k]).start == a && gaps@[k].end == b,
{
    let ghost items = stored(*m);
    let ghost r = entries_of(items);
    let raw = map_gaps_trimmed(m, from, top);
    proof {
        assert forall|p: int| covered(items, p) <==> #[trigger] mapped(r, p) by {
            lemma_covered_mapped(items, p);
        }
        assert forall|k: int| 0 <= k < raw@.len() implies (#[trigger] raw@[k]).1 < top by {
            assert(!covered(items, raw@[k].1 as int));
        }
    }
    let mut gaps: Vec<PageRange> = Vec::new();
    let mut i: usize = 0;
    while i < raw.len()
        invariant
            0 <= i <= raw.len(),
            gaps@.len() == i,
            forall|k: int| 0 <= k < raw@.len() ==> (#[trigger] raw@[k]).1 < top,
            forall|k: int|
                0 <= k < i ==> (#[trigger] gaps@[k]).start == raw@[k].0 && gaps@[k].end
                    == raw@[k].1 + 1,
        decreases raw.len() - i,
    {
        let pair = raw[i];
        gaps.push(PageRange { start: pair.0, end: pair.1 + 1 });
        i += 1;
    }
    proof {
        assert forall|k: int| 0 <= k < gaps@.len() implies is_gap(
            r,
            from as int,
            (#[trigger] gaps@[k]).start as int,
            gaps@[k].end as int,
        ) by {
            let g = raw@[k];
            assert(from <= g.0 <= g.1 <= top);
            assert forall|p: int| g.0 <= p < g.1 + 1 implies !#[trigger] mapped(r, p) by {
                assert(!covered(items, p));
            }
            assert(g.1 == top || covered(items, g.1 + 1));
            assert(g.0 == from || covered(items, g.0 - 1));
        }
        assert forall|j: int, k: int| 0 <= j < k < gaps@.len() implies (#[trigger] gaps@[j]).end <= (
        #[trigger] gaps@[k]).start by {
            assert(raw@[j].1 < raw@[k].0);
        }
        assert forall|a: int, b: int| #[trigger] is_gap(r, from as int, a, b) implies exists|k: int|
            0 <= k < gaps@.len() && (#[trigger] gaps@[k]).start == a && gaps@[k].end == b by {
            assert(b <= top);
            assert(!mapped(r, a));
            assert(!covered(items, a));
            let k = choose|k: int| 0 <= k < raw@.len() && (#[trigger] raw@[k]).0 <= a <= raw@[k].1;
            let g = raw@[k];
            // The run starts where the gap starts.
            if g.0 < a {
                assert(!covered(items, a - 1));
                assert(!mapped(r, a - 1));
            }
            // And it ends where the gap ends.
            if g.1 >= b {
                assert(!covered(items, b));
            }
            if g.1 + 1 < b {
                assert(!mapped(r, g.1 + 1));
                assert(!covered(items, g.1 + 1));
            }
            assert(gaps@[k].start == a && gaps@[k].end == b);
        }
    }
    gaps
}

/// `after` has the intervals of `before`, index for index.
pub open spec fn same_keys(
    before: Seq<(u32, u32, VmmapEntry)>,
    after: Seq<(u32, u32, VmmapEntry)>,
) -> bool {
    &&& after.len() == before.len()
    &&& forall|i: int|
        0 <= i < after.len() ==> (#[trigger] after[i]).0 == before[i].0 && after[i].1
            == before[i].1
}

/// Items whose values were changed in place are still well formed where
/// every value stayed on its pages and may be stored.
pub proof fn lemma_values_changed(before: Seq<(u32, u32, VmmapEntry)>)
    requires
        items_wf(before),
    ensures
        forall|after: Seq<(u32, u32, VmmapEntry)>|
            same_keys(before, after) && same_spans(entries_of(before), entries_of(after))
                ==> #[trigger] items_wf(after),
{
    assert forall|after: Seq<(u32, u32, VmmapEntry)>|
        same_keys(before, after) && same_spans(
            entries_of(before),
            entries_of(after),
        ) implies #[trigger] items_wf(after) by {
        let r0 = entries_of(before);
        let r1 = entries_of(after);
        assert forall|i: int| 0 <= i < after.len() implies {
            let item = #[trigger] after[i];
            &&& item.0 <= item.1
            &&& item.2.storable()
            &&& item.0 == item.2.page_num
            &&& item.1 == item.2.end() - 1
        } by {
            assert(r1[i] == after[i].2);
            assert(r0[i] == before[i].2);
            assert(r1[i].page_num == r0[i].page_num);
            assert(before[i].0 <= before[i].1);
        }
        assert forall|i: int, j: int| 0 <= i < j < after.len() implies (#[trigger] after[i]).1 < (
        #[trigger] after[j]).0 by {
            assert(before[i].1 < before[j].0);
        }
    }
}

/// Changing the value of the item at index `i`, which holds page `p`,
/// changes the entry of that page and nothing else.
pub proof fn lemma_value_changed(before: Seq<(u32, u32, VmmapEntry)>, p: int, i: int, v: VmmapEntry)
    requires
        items_wf(before),
        0 <= i < before.len(),
        before[i].0 <= p <= before[i].1,
    ensures
        mapped(entries_of(before), p),
        index_at(entries_of(before), p) == i,
        entries_of(before.update(i, (before[i].0, before[i].1, v))) == entries_of(before).update(
            i,
            v,
        ),
        same_keys(before, before.update(i, (before[i].0, before[i].1, v))),
{
    lemma_items_regions(before);
    let r0 = entries_of(before);
    let after = before.update(i, (before[i].0, before[i].1, v));
    assert(r0[i].covers(p));
    lemma_entry_at_index(r0, i, p);
    assert(entries_of(after) =~= r0.update(i, v));
}

/// The items that meet the pages from `first` up to the last stored page are
/// those from index `count_below` on.
pub proof fn lemma_suffix_run(items: Seq<(u32, u32, VmmapEntry)>, first: u32, a: int, b: int)
    requires
        items_wf(items),
        items.len() > 0,
        first <= items.last().1,
        meeting_run(items, first, items.last().1, a, b),
    ensures
        b == items.len(),
        a == count_below(entries_of(items), first as int),
{
    let n = items.len() as int;
    let r = entries_of(items);
    assert(meets(items[n - 1], first, items.last().1));
    assert forall|i: int| 0 <= i < a implies (#[trigger] r[i]).end() <= first by {
        assert(!meets(items[i], first, items.last().1));
        if i < n - 1 {
            assert(items[i].1 < items[n - 1].0);
        }
    }
    if a < n {
        assert(meets(items[a], first, items.last().1));
        assert(r[a].end() > first);
    }
    lemma_count_below(r, first as int, a);
}

} // verus!
