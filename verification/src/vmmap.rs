//! The address space of one cage.

use vstd::prelude::*;
use nodit::{Interval, NoditMap};
use crate::access::{
    effective_prot,
    lemma_gap_at,
    lemma_not_admitted,
    lemma_walk_stopped,
    page_admits,
    page_allows,
    tail_reached,
};
use crate::changes::{
    carved,
    inner_part,
    lemma_added_pages,
    lemma_carved_apart,
    lemma_carved_pages,
    lemma_mapped_over,
    lemma_reprotected_pages,
    remembered_after,
};
use crate::constants::{PROT_EXEC, PROT_NONE, PROT_READ, PROT_WRITE};
use crate::gaps::{
    first_gap_of_size,
    first_slot,
    gap_fits,
    gaps_of,
    is_gap,
    lemma_multiple_difference,
    lemma_round_down,
    lemma_round_up,
    round_down,
    round_up,
    slot_below,
};
use crate::interval_map::{
    map_get_at_point,
    map_get_at_point_mut,
    map_iter,
    map_iter_mut,
    map_new,
    map_overlapping,
    map_overlapping_mut,
    meeting_run,
    stored,
};
use crate::regions::{
    count_below,
    deref_all,
    entry_at,
    index_at,
    lemma_apart,
    lemma_count_below,
    lemma_entry_at_all,
    lemma_entry_at_contains,
    lemma_entry_at_index,
    mapped,
    regions_wf,
};
use crate::store::{
    entries_of,
    items_wf,
    lemma_covered_mapped,
    lemma_items_regions,
    lemma_suffix_run,
    lemma_value_changed,
    lemma_values_changed,
    same_keys,
    store_first,
    store_gaps,
    store_insert,
    store_last,
    store_overlapping,
    store_overlaps,
    store_take,
};
use crate::types::{MemoryBackingType, PageRange, VmmapEntry, VmmapError, VmmapOps};

verus! {

/// The mapped regions of one address space, with the entry that the last
/// lookup reached.
pub struct Vmmap {
    /// The regions, keyed by their pages.
    pub entries: NoditMap<u32, Interval<u32>, VmmapEntry>,
    /// A copy of the entry that the last lookup reached, if it is still
    /// stored as it was.
    pub cached_entry: Option<VmmapEntry>,
}

/// Protection as an access check sees it.
fn effective(prot: i32) -> (flags: i32)
    ensures
        flags == effective_prot(prot),
{
    if (prot & (PROT_EXEC | PROT_READ | PROT_WRITE)) != PROT_NONE {
        prot | PROT_READ
    } else {
        prot
    }
}

/// Cuts the pages `[lo, hi)` out of the stored entries: every entry that
/// shares a page with the range is taken out, and what it holds in front of
/// `lo` or behind `hi` is stored in its place. Hands back the entries taken
/// out, in ascending order.
fn carve(m: &mut NoditMap<u32, Interval<u32>, VmmapEntry>, lo: u32, hi: u32) -> (taken: Vec<
    VmmapEntry,
>)
    requires
        items_wf(stored(*old(m))),
        lo < hi,
    ensures
        items_wf(stored(*final(m))),
        regions_wf(taken@),
        forall|x: VmmapEntry| #[trigger]
            taken@.contains(x) <==> entries_of(stored(*old(m))).contains(x) && x.overlaps(
                lo as int,
                hi as int,
            ),
        forall|x: VmmapEntry| #[trigger]
            entries_of(stored(*final(m))).contains(x) <==> carved(
                entries_of(stored(*old(m))),
                lo as int,
                hi as int,
                x,
            ),
{
    let ghost r0 = entries_of(stored(*m));
    proof {
        lemma_items_regions(stored(*m));
    }
    let taken = store_take(m, lo, hi);
    let ghost r1 = entries_of(stored(*m));
    let ghost t = taken@;
    let n = taken.len();
    let ghost has_left = n > 0 && t[0].page_num < lo;
    let ghost has_right = n > 0 && hi < t[n - 1].end();
    let ghost left = t[0].slice(t[0].page_num as int, lo as int);
    let ghost right = t[n - 1].slice(hi as int, t[n - 1].end());
    if n > 0 {
        // Only the first entry can reach in front of the range, and only the
        // last one behind it: the entries lie apart and all meet the range.
        let first = taken[0];
        proof {
            assert(t.contains(first));
        }
        if first.page_num < lo {
            let piece = first.part(first.page_num, lo);
            proof {
                assert forall|x: VmmapEntry| #[trigger] r1.contains(x) implies !x.overlaps(
                    piece.page_num as int,
                    piece.end(),
                ) by {
                    lemma_apart(r0, x, first);
                }
            }
            store_insert(m, piece);
        }
        let ghost r2 = entries_of(stored(*m));
        let last = taken[n - 1];
        proof {
            assert(t.contains(last));
            assert(forall|x: VmmapEntry| #[trigger]
                r2.contains(x) <==> r1.contains(x) || (has_left && x == left));
        }
        let last_end: u32 = last.page_num + last.npages;
        if hi < last_end {
            let piece = last.part(hi, last_end);
            proof {
                assert forall|x: VmmapEntry| #[trigger] r2.contains(x) implies !x.overlaps(
                    piece.page_num as int,
                    piece.end(),
                ) by {
                    if r1.contains(x) {
                        lemma_apart(r0, x, last);
                    }
                }
            }
            store_insert(m, piece);
        }
    }
    proof {
        let r3 = entries_of(stored(*m));
        assert(forall|x: VmmapEntry| #[trigger]
            r3.contains(x) <==> r1.contains(x) || (has_left && x == left) || (has_right && x
                == right));
        assert forall|x: VmmapEntry| #[trigger]
            r3.contains(x) <==> carved(r0, lo as int, hi as int, x) by {
            if has_left {
                assert(t.contains(t[0]));
            }
            if has_right {
                assert(t.contains(t[n - 1]));
            }
            if exists|e: VmmapEntry| #[trigger]
                r0.contains(e) && e.overlaps(lo as int, hi as int) && e.page_num < lo && x
                    == e.slice(e.page_num as int, lo as int) {
                let e = choose|e: VmmapEntry| #[trigger]
                    r0.contains(e) && e.overlaps(lo as int, hi as int) && e.page_num < lo && x
                        == e.slice(e.page_num as int, lo as int);
                assert(t.contains(e));
                let j = choose|j: int| 0 <= j < t.len() && t[j] == e;
                if j > 0 {
                    assert(t[0].end() <= t[j].page_num);
                }
                assert(e == t[0]);
            }
            if exists|e: VmmapEntry| #[trigger]
                r0.contains(e) && e.overlaps(lo as int, hi as int) && hi < e.end() && x == e.slice(
                    hi as int,
                    e.end(),
                ) {
                let e = choose|e: VmmapEntry| #[trigger]
                    r0.contains(e) && e.overlaps(lo as int, hi as int) && hi < e.end() && x
                        == e.slice(hi as int, e.end());
                assert(t.contains(e));
                let j = choose|j: int| 0 <= j < t.len() && t[j] == e;
                if j < n - 1 {
                    assert(t[j].end() <= t[n - 1].page_num);
                }
                assert(e == t[n - 1]);
            }
        }
    }
    taken
}

/// The first of `gaps` with `size` pages or more is the lowest gap that long.
fn first_roomy(
    gaps: &Vec<PageRange>,
    size: u64,
    Ghost(s): Ghost<Seq<VmmapEntry>>,
    Ghost(from): Ghost<int>,
) -> (found: Option<PageRange>)
    requires
        gaps_of(s, from, gaps@),
    ensures
        first_gap_of_size(s, from, size as int, found),
{
    let mut i: usize = 0;
    while i < gaps.len()
        invariant
            0 <= i <= gaps.len(),
            gaps_of(s, from, gaps@),
            forall|k: int| 0 <= k < i ==> (#[trigger] gaps@[k]).end - gaps@[k].start < size,
        decreases gaps.len() - i,
    {
        let gap = gaps[i];
        proof {
            assert(is_gap(s, from, gaps@[i as int].start as int, gaps@[i as int].end as int));
        }
        if (gap.end - gap.start) as u64 >= size {
            proof {
                assert forall|a: int, b: int| #[trigger]
                    is_gap(s, from, a, b) && b - a >= size implies gap.start <= a by {
                    let k = choose|k: int|
                        0 <= k < gaps@.len() && (#[trigger] gaps@[k]).start == a && gaps@[k].end
                            == b;
                    if k > i {
                        assert(gaps@[i as int].end <= gaps@[k].start);
                    }
                }
            }
            return Some(gap);
        }
        i += 1;
    }
    proof {
        assert forall|a: int, b: int| #[trigger] is_gap(s, from, a, b) implies b - a < size by {
            let k = choose|k: int|
                0 <= k < gaps@.len() && (#[trigger] gaps@[k]).start == a && gaps@[k].end == b;
        }
    }
    None
}

/// The slot at the top of the first of `gaps` that fits `num_pages` pages in
/// units of `pages_per_map` pages.
fn first_fitting(
    gaps: &Vec<PageRange>,
    num_pages: u32,
    pages_per_map: u32,
    Ghost(s): Ghost<Seq<VmmapEntry>>,
    Ghost(from): Ghost<int>,
) -> (slot: Option<PageRange>)
    requires
        gaps_of(s, from, gaps@),
        pages_per_map > 0,
    ensures
        first_slot(s, from, num_pages as int, pages_per_map as int, slot),
        slot matches Some(found) ==> {
            &&& found.start % pages_per_map == 0
            &&& found.end % pages_per_map == 0
            &&& found.end - found.start >= num_pages
            &&& found.end - found.start < num_pages + pages_per_map
        },
{
    let rounded_num_pages = Vmmap::round_page_num_up_to_map_multiple(num_pages, pages_per_map);
    let ghost unit = pages_per_map as int;
    let mut i: usize = 0;
    while i < gaps.len()
        invariant
            0 <= i <= gaps.len(),
            gaps_of(s, from, gaps@),
            pages_per_map > 0,
            unit == pages_per_map,
            rounded_num_pages == round_up(num_pages as int, unit),
            forall|k: int|
                0 <= k < i ==> !gap_fits(
                    (#[trigger] gaps@[k]).start as int,
                    gaps@[k].end as int,
                    num_pages as int,
                    unit,
                ),
        decreases gaps.len() - i,
    {
        let gap = gaps[i];
        let aligned_start_page = Vmmap::trunc_page_num_down_to_map_multiple(
            gap.start,
            pages_per_map,
        );
        let aligned_end_page = Vmmap::round_page_num_up_to_map_multiple(gap.end, pages_per_map);
        proof {
            assert(is_gap(s, from, gaps@[i as int].start as int, gaps@[i as int].end as int));
            lemma_round_up(gap.end as int, unit);
            lemma_round_down(gap.start as int, unit);
            lemma_round_up(num_pages as int, unit);
        }
        let gap_size = aligned_end_page - aligned_start_page as u64;
        if gap_size >= rounded_num_pages && aligned_end_page <= u32::MAX as u64 {
            let end = aligned_end_page as u32;
            let start = (aligned_end_page - rounded_num_pages) as u32;
            let found = PageRange { start, end };
            proof {
                let a = gap.start as int;
                let b = gap.end as int;
                assert(found == slot_below(b, num_pages as int, unit));
                assert forall|a2: int, b2: int| #[trigger]
                    is_gap(s, from, a2, b2) && gap_fits(
                        a2,
                        b2,
                        num_pages as int,
                        unit,
                    ) implies a <= a2 by {
                    let k = choose|k: int|
                        0 <= k < gaps@.len() && (#[trigger] gaps@[k]).start == a2 && gaps@[k].end
                            == b2;
                    if k > i {
                        assert(gaps@[i as int].end <= gaps@[k].start);
                    }
                }
                assert(is_gap(s, from, a, b));
                lemma_multiple_difference(
                    aligned_end_page as int,
                    rounded_num_pages as int,
                    unit,
                );
            }
            return Some(found);
        }
        i += 1;
    }
    proof {
        assert forall|a: int, b: int| #[trigger] is_gap(s, from, a, b) implies !gap_fits(
            a,
            b,
            num_pages as int,
            unit,
        ) by {
            let k = choose|k: int|
                0 <= k < gaps@.len() && (#[trigger] gaps@[k]).start == a && gaps@[k].end == b;
        }
    }
    None
}

impl Vmmap {
    /// `npages` rounded up to a multiple of `pages_per_map`.
    fn round_page_num_up_to_map_multiple(npages: u32, pages_per_map: u32) -> (rounded: u64)
        requires
            pages_per_map > 0,
        ensures
            rounded == round_up(npages as int, pages_per_map as int),
    {
        let unit = pages_per_map as u64;
        let lifted: u64 = npages as u64 + unit - 1;
        let units: u64 = lifted / unit;
        assert(units * unit <= lifted) by (nonlinear_arith)
            requires
                units == lifted / unit,
                unit > 0,
        ;
        units * unit
    }

    /// `npages` rounded down to a multiple of `pages_per_map`.
    fn trunc_page_num_down_to_map_multiple(npages: u32, pages_per_map: u32) -> (rounded: u32)
        requires
            pages_per_map > 0,
        ensures
            rounded == round_down(npages as int, pages_per_map as int),
    {
        let units: u32 = npages / pages_per_map;
        assert(units * pages_per_map <= npages) by (nonlinear_arith)
            requires
                units == npages / pages_per_map,
                pages_per_map > 0,
        ;
        units * pages_per_map
    }

    /// The gaps of the window from page `from` up to the highest mapped page.
    fn gaps_from(&self, from: u32) -> (gaps: Vec<PageRange>)
        requires
            self.wf(),
        ensures
            gaps_of(self.regions(), from as int, gaps@),
    {
        let ghost r = self.regions();
        proof {
            lemma_items_regions(stored(self.entries));
        }
        match store_last(&self.entries) {
            None => {
                proof {
                    assert forall|a: int, b: int| !#[trigger] is_gap(r, from as int, a, b) by {
                        assert(!mapped(r, b));
                    }
                }
                Vec::new()
            },
            Some(last) => {
                let top: u32 = last.page_num + (last.npages - 1);
                proof {
                    let n = r.len() as int;
                    assert(r[n - 1].covers(top as int));
                    assert forall|p: int| p > top implies !#[trigger] mapped(r, p) by {
                        if mapped(r, p) {
                            let i = choose|i: int| 0 <= i < r.len() && (#[trigger] r[i]).covers(p);
                            if i < n - 1 {
                                assert(r[i].end() <= r[n - 1].page_num);
                            }
                        }
                    }
                }
                if from > top {
                    proof {
                        assert forall|a: int, b: int| !#[trigger] is_gap(r, from as int, a, b) by {
                            if is_gap(r, from as int, a, b) {
                                assert(!mapped(r, b));
                            }
                        }
                    }
                    Vec::new()
                } else {
                    store_gaps(&self.entries, from, top)
                }
            },
        }
    }

    /// An address space with nothing mapped.
    pub fn new() -> (vmmap: Self)
        ensures
            vmmap.wf(),
            vmmap.regions().len() == 0,
            vmmap.last_lookup() is None,
    {
        let vmmap = Vmmap { entries: map_new(), cached_entry: None };
        proof {
            assert(vmmap.regions().len() == 0);
        }
        vmmap
    }
}

impl VmmapOps for Vmmap {
    open spec fn wf(&self) -> bool {
        &&& items_wf(stored(self.entries))
        &&& self.cached_entry matches Some(c) ==> self.regions().contains(c)
    }

    open spec fn regions(&self) -> Seq<VmmapEntry> {
        entries_of(stored(self.entries))
    }

    open spec fn last_lookup(&self) -> Option<VmmapEntry> {
        self.cached_entry
    }

    proof fn lemma_wf(&self) {
        lemma_items_regions(stored(self.entries));
    }

    fn add_entry(&mut self, entry: VmmapEntry) {
        let ghost before = self.regions();
        proof {
            lemma_items_regions(stored(self.entries));
            assert forall|x: VmmapEntry| #[trigger] before.contains(x) implies !x.overlaps(
                entry.page_num as int,
                entry.end(),
            ) by {
                if x.overlaps(entry.page_num as int, entry.end()) {
                    let q = if x.page_num > entry.page_num {
                        x.page_num as int
                    } else {
                        entry.page_num as int
                    };
                    let i = choose|i: int| 0 <= i < before.len() && before[i] == x;
                    assert(before[i].storable());
                    assert(before[i].covers(q));
                    assert(entry.covers(q));
                    assert(mapped(before, q));
                }
            }
        }
        store_insert(&mut self.entries, entry);
        proof {
            lemma_items_regions(stored(self.entries));
            lemma_added_pages(before, self.regions(), entry);
        }
    }

    fn update(
        &mut self,
        page_num: u32,
        npages: u32,
        prot: i32,
        maxprot: i32,
        flags: i32,
        backing: MemoryBackingType,
        remove: bool,
        file_offset: i64,
        file_size: i64,
        cage_id: u64,
    ) -> (result: Result<(), VmmapError>) {
        if npages == 0 {
            return Err(VmmapError::InvalidInput);
        }
        let ghost before = self.regions();
        proof {
            lemma_items_regions(stored(self.entries));
        }
        let region_end: u32 = page_num + npages;
        match self.cached_entry {
            Some(cached) => {
                if cached.page_num < region_end && page_num < cached.page_num + cached.npages {
                    self.cached_entry = None;
                }
            },
            None => {},
        }
        let _ = carve(&mut self.entries, page_num, region_end);
        let ghost middle = self.regions();
        proof {
            lemma_items_regions(stored(self.entries));
            lemma_carved_pages(before, middle, page_num as int, region_end as int);
            if self.cached_entry is Some {
                let c = self.cached_entry.unwrap();
                assert(carved(before, page_num as int, region_end as int, c));
            }
        }
        if !remove {
            let new_entry = VmmapEntry {
                page_num,
                npages,
                prot,
                maxprot,
                flags,
                removed: false,
                file_offset,
                file_size,
                cage_id,
                backing,
            };
            proof {
                assert forall|x: VmmapEntry| #[trigger] middle.contains(x) implies !x.overlaps(
                    page_num as int,
                    region_end as int,
                ) by {
                    lemma_carved_apart(before, page_num as int, region_end as int, x);
                }
            }
            store_insert(&mut self.entries, new_entry);
            proof {
                let after = self.regions();
                lemma_items_regions(stored(self.entries));
                lemma_added_pages(middle, after, new_entry);
                lemma_mapped_over(before, middle, after, new_entry);
            }
        }
        Ok(())
    }

    fn add_entry_with_override(
        &mut self,
        page_num: u32,
        npages: u32,
        prot: i32,
        maxprot: i32,
        flags: i32,
        backing: MemoryBackingType,
        file_offset: i64,
        file_size: i64,
        cage_id: u64,
    ) -> (result: Result<(), VmmapError>) {
        self.update(
            page_num,
            npages,
            prot,
            maxprot,
            flags,
            backing,
            false,
            file_offset,
            file_size,
            cage_id,
        )
    }

    fn remove_entry(&mut self, page_num: u32, npages: u32) -> (result: Result<(), VmmapError>) {
        self.update(page_num, npages, 0, 0, 0, MemoryBackingType::Unspecified, true, 0, 0, 0)
    }

    fn change_prot(&mut self, page_num: u32, npages: u32, new_prot: i32) {
        if npages == 0 {
            return ;
        }
        let ghost before = self.regions();
        proof {
            lemma_items_regions(stored(self.entries));
        }
        let region_end: u32 = page_num + npages;
        match self.cached_entry {
            Some(cached) => {
                if cached.page_num < region_end && page_num < cached.page_num + cached.npages {
                    self.cached_entry = None;
                }
            },
            None => {},
        }
        let taken = carve(&mut self.entries, page_num, region_end);
        let ghost middle = self.regions();
        let ghost t = taken@;
        let ghost lo = page_num as int;
        let ghost hi = region_end as int;
        proof {
            lemma_items_regions(stored(self.entries));
            lemma_carved_pages(before, middle, lo, hi);
            if self.cached_entry is Some {
                let c = self.cached_entry.unwrap();
                assert(carved(before, lo, hi, c));
            }
        }
        let mut i: usize = 0;
        while i < taken.len()
            invariant
                0 <= i <= taken.len(),
                t == taken@,
                lo == page_num,
                hi == region_end,
                0 <= lo < hi <= u32::MAX,
                regions_wf(before),
                regions_wf(t),
                forall|x: VmmapEntry| #[trigger]
                    t.contains(x) <==> before.contains(x) && x.overlaps(lo, hi),
                forall|x: VmmapEntry| #[trigger] middle.contains(x) <==> carved(before, lo, hi, x),
                items_wf(stored(self.entries)),
                forall|x: VmmapEntry| #[trigger]
                    self.regions().contains(x) <==> middle.contains(x) || exists|j: int|
                        0 <= j < i && x == inner_part(#[trigger] t[j], lo, hi).with_prot(new_prot),
                self.cached_entry == remembered_after(old(self).cached_entry, lo, hi),
                self.cached_entry matches Some(c) ==> middle.contains(c),
            decreases taken.len() - i,
        {
            let entry = taken[i];
            proof {
                assert(t.contains(entry));
            }
            let start: u32 = if entry.page_num > page_num {
                entry.page_num
            } else {
                page_num
            };
            let entry_end: u32 = entry.page_num + entry.npages;
            let end: u32 = if entry_end < region_end {
                entry_end
            } else {
                region_end
            };
            let inside = entry.part(start, end);
            let piece = VmmapEntry { prot: new_prot, ..inside };
            let ghost cur = self.regions();
            proof {
                assert(piece == inner_part(t[i as int], lo, hi).with_prot(new_prot));
                assert forall|x: VmmapEntry| #[trigger] cur.contains(x) implies !x.overlaps(
                    piece.page_num as int,
                    piece.end(),
                ) by {
                    if middle.contains(x) {
                        lemma_carved_apart(before, lo, hi, x);
                    } else {
                        let j = choose|j: int|
                            0 <= j < i && x == inner_part(#[trigger] t[j], lo, hi).with_prot(
                                new_prot,
                            );
                        assert(t.contains(t[j]));
                        assert(t[j].end() <= t[i as int].page_num);
                        assert(t[j].storable());
                    }
                }
            }
            store_insert(&mut self.entries, piece);
            proof {
                let next = self.regions();
                assert forall|x: VmmapEntry| #[trigger]
                    next.contains(x) <==> middle.contains(x) || exists|j: int|
                        0 <= j < i + 1 && x == inner_part(#[trigger] t[j], lo, hi).with_prot(
                            new_prot,
                        ) by {
                    if next.contains(x) {
                        if x == piece {
                            assert(x == inner_part(t[i as int], lo, hi).with_prot(new_prot));
                        } else {
                            assert(cur.contains(x));
                        }
                    }
                    if exists|j: int|
                        0 <= j < i + 1 && x == inner_part(#[trigger] t[j], lo, hi).with_prot(
                            new_prot,
                        ) {
                        let j = choose|j: int|
                            0 <= j < i + 1 && x == inner_part(#[trigger] t[j], lo, hi).with_prot(
                                new_prot,
                            );
                        if j < i {
                            assert(cur.contains(x));
                        }
                    }
                }
            }
            i += 1;
        }
        proof {
            let after = self.regions();
            lemma_items_regions(stored(self.entries));
            lemma_reprotected_pages(before, middle, after, t, lo, hi, new_prot);
        }
    }

    fn check_existing_mapping(&self, page_num: u32, npages: u32, prot: i32) -> (ok: bool) {
        let ghost regions = self.regions();
        proof {
            lemma_items_regions(stored(self.entries));
        }
        if npages == 0 {
            return false;
        }
        if npages > u32::MAX - page_num {
            proof {
                // The range holds the last page number, which no entry holds.
                let q = u32::MAX as int;
                if entry_at(regions, q) is Some {
                    lemma_entry_at_contains(regions, entry_at(regions, q).unwrap(), q);
                }
                lemma_not_admitted(regions, page_num as int, npages as int, prot, q);
            }
            return false;
        }
        let region_end: u32 = page_num + npages;
        if !store_overlaps(&self.entries, page_num, region_end) {
            proof {
                // Nothing shares a page with the range: its first page is
                // not mapped.
                if entry_at(regions, page_num as int) is Some {
                    let e = entry_at(regions, page_num as int).unwrap();
                    lemma_entry_at_contains(regions, e, page_num as int);
                    assert(regions.contains(e) && e.overlaps(page_num as int, region_end as int));
                }
                lemma_not_admitted(
                    regions,
                    page_num as int,
                    npages as int,
                    prot,
                    page_num as int,
                );
            }
            return false;
        }
        let found = store_overlapping(&self.entries, page_num, region_end);
        let ghost f = deref_all(found@);
        let mut current: u32 = page_num;
        let mut i: usize = 0;
        proof {
            if f.len() > 0 {
                assert(f.contains(f[0]));
            }
        }
        while i < found.len()
            invariant
                regions == self.regions(),
                regions_wf(regions),
                regions_wf(f),
                f == deref_all(found@),
                forall|x: VmmapEntry| #[trigger]
                    f.contains(x) <==> regions.contains(x) && x.overlaps(
                        page_num as int,
                        region_end as int,
                    ),
                npages > 0,
                region_end == page_num + npages,
                0 <= i <= found.len(),
                page_num <= current < region_end,
                forall|p: int| page_num <= p < current ==> #[trigger] page_admits(regions, p, prot),
                forall|j: int| 0 <= j < i ==> (#[trigger] f[j]).end() <= current,
                i < f.len() ==> current < f[i as int].end(),
            decreases found.len() - i,
        {
            let entry: VmmapEntry = *found[i];
            proof {
                assert(f[i as int] == entry);
                assert(f.contains(entry));
                lemma_entry_at_all(regions, entry);
            }
            let ent_end: u32 = entry.page_num + entry.npages;
            let flags = entry.maxprot;
            if entry.page_num <= current && region_end <= ent_end {
                // The entry holds the rest of the range.
                proof {
                    assert(entry_at(regions, current as int) == Some(entry));
                    if (prot & !flags) == 0 {
                        assert forall|p: int|
                            page_num <= p < page_num + npages implies #[trigger] page_admits(
                            regions,
                            p,
                            prot,
                        ) by {
                            if p >= current {
                                assert(entry_at(regions, p) == Some(entry));
                            }
                        }
                    } else {
                        lemma_not_admitted(
                            regions,
                            page_num as int,
                            npages as int,
                            prot,
                            current as int,
                        );
                    }
                }
                return (prot & !flags) == 0;
            }
            if entry.page_num <= current && current < ent_end {
                // The entry holds the range up to its own end.
                if (prot & !flags) != 0 {
                    proof {
                        assert(entry_at(regions, current as int) == Some(entry));
                        lemma_not_admitted(
                            regions,
                            page_num as int,
                            npages as int,
                            prot,
                            current as int,
                        );
                    }
                    return false;
                }
                proof {
                    assert forall|p: int| page_num <= p < ent_end implies #[trigger] page_admits(
                        regions,
                        p,
                        prot,
                    ) by {
                        if p >= current {
                            assert(entry_at(regions, p) == Some(entry));
                        }
                    }
                    if i + 1 < f.len() {
                        assert(f[i as int].end() <= f[i + 1].page_num);
                        assert(f[i + 1].storable());
                    }
                }
                current = ent_end;
            } else {
                // The entry starts behind `current`: a hole.
                proof {
                    assert(current < entry.page_num);
                    lemma_gap_at(
                        regions,
                        f,
                        page_num as int,
                        region_end as int,
                        i as int,
                        current as int,
                    );
                    lemma_not_admitted(
                        regions,
                        page_num as int,
                        npages as int,
                        prot,
                        current as int,
                    );
                }
                return false;
            }
            i += 1;
        }
        proof {
            lemma_gap_at(regions, f, page_num as int, region_end as int, i as int, current as int);
            lemma_not_admitted(regions, page_num as int, npages as int, prot, current as int);
        }
        false
    }

    fn check_addr_mapping(&mut self, page_num: u32, npages: u32, prot: i32) -> (end: Option<u32>) {
        let ghost regions = self.regions();
        proof {
            lemma_items_regions(stored(self.entries));
        }
        if npages == 0 {
            return None;
        }
        if npages > u32::MAX - page_num {
            proof {
                let q = u32::MAX as int;
                if entry_at(regions, q) is Some {
                    lemma_entry_at_contains(regions, entry_at(regions, q).unwrap(), q);
                }
                let last = page_num + npages - 1;
                if entry_at(regions, last) is Some {
                    lemma_entry_at_contains(regions, entry_at(regions, last).unwrap(), last);
                }
                assert(!page_allows(regions, q, prot));
                lemma_walk_stopped(regions, page_num as int, npages as int, prot, q);
            }
            return None;
        }
        let region_end: u32 = page_num + npages;
        match self.cached_entry {
            Some(cached) => {
                proof {
                    lemma_entry_at_all(regions, cached);
                }
                let ent_end: u32 = cached.page_num + cached.npages;
                let flags = effective(cached.prot);
                if cached.page_num <= page_num && region_end <= ent_end {
                    if (prot & !flags) == 0 {
                        proof {
                            assert(entry_at(regions, region_end - 1) == Some(cached));
                            assert forall|p: int|
                                page_num <= p < page_num + npages implies #[trigger] page_allows(
                                regions,
                                p,
                                prot,
                            ) by {
                                assert(entry_at(regions, p) == Some(cached));
                            }
                        }
                        return Some(ent_end);
                    }
                }
            },
            None => {},
        }
        let found = store_overlapping(&self.entries, page_num, region_end);
        let ghost f = deref_all(found@);
        let mut current: u32 = page_num;
        let mut i: usize = 0;
        proof {
            if f.len() > 0 {
                assert(f.contains(f[0]));
            }
        }
        while i < found.len()
            invariant
                regions == old(self).regions(),
                regions == self.regions(),
                self.cached_entry == old(self).cached_entry,
                self.wf(),
                regions_wf(regions),
                regions_wf(f),
                f == deref_all(found@),
                forall|x: VmmapEntry| #[trigger]
                    f.contains(x) <==> regions.contains(x) && x.overlaps(
                        page_num as int,
                        region_end as int,
                    ),
                npages > 0,
                region_end == page_num + npages,
                0 <= i <= found.len(),
                page_num <= current < region_end,
                forall|p: int| page_num <= p < current ==> #[trigger] page_allows(regions, p, prot),
                forall|j: int| 0 <= j < i ==> (#[trigger] f[j]).end() <= current,
                i < f.len() ==> current < f[i as int].end(),
            decreases found.len() - i,
        {
            let entry: VmmapEntry = *found[i];
            proof {
                assert(f[i as int] == entry);
                assert(f.contains(entry));
                lemma_entry_at_all(regions, entry);
            }
            let ent_end: u32 = entry.page_num + entry.npages;
            let flags = effective(entry.prot);
            if entry.page_num <= current && region_end <= ent_end {
                self.cached_entry = Some(entry);
                proof {
                    assert(entry_at(regions, region_end - 1) == Some(entry));
                    assert(tail_reached(regions, page_num as int, npages as int, prot));
                }
                if (prot & !flags) == 0 {
                    proof {
                        assert forall|p: int|
                            page_num <= p < page_num + npages implies #[trigger] page_allows(
                            regions,
                            p,
                            prot,
                        ) by {
                            if p >= current {
                                assert(entry_at(regions, p) == Some(entry));
                            }
                        }
                    }
                    return Some(ent_end);
                }
                proof {
                    assert(entry_at(regions, current as int) == Some(entry));
                    assert(!page_allows(regions, current as int, prot));
                }
                // No later entry overlaps the range: the walk ends here.
                return None;
            } else if entry.page_num <= current && current < ent_end {
                if (prot & !flags) != 0 {
                    proof {
                        assert(entry_at(regions, current as int) == Some(entry));
                        let last = region_end - 1;
                        if entry_at(regions, last) is Some {
                            let t = entry_at(regions, last).unwrap();
                            lemma_entry_at_contains(regions, t, last);
                            lemma_apart(regions, t, entry);
                        }
                        lemma_walk_stopped(
                            regions,
                            page_num as int,
                            npages as int,
                            prot,
                            current as int,
                        );
                    }
                    return None;
                }
                proof {
                    assert forall|p: int| page_num <= p < ent_end implies #[trigger] page_allows(
                        regions,
                        p,
                        prot,
                    ) by {
                        if p >= current {
                            assert(entry_at(regions, p) == Some(entry));
                        }
                    }
                    if i + 1 < f.len() {
                        assert(f[i as int].end() <= f[i + 1].page_num);
                        assert(f[i + 1].storable());
                    }
                }
                current = ent_end;
            } else {
                proof {
                    assert(current < entry.page_num);
                    lemma_gap_at(
                        regions,
                        f,
                        page_num as int,
                        region_end as int,
                        i as int,
                        current as int,
                    );
                    let last = region_end - 1;
                    if entry_at(regions, last) is Some {
                        let t = entry_at(regions, last).unwrap();
                        lemma_entry_at_contains(regions, t, last);
                    }
                    lemma_walk_stopped(
                        regions,
                        page_num as int,
                        npages as int,
                        prot,
                        current as int,
                    );
                }
                return None;
            }
            i += 1;
        }
        proof {
            lemma_gap_at(regions, f, page_num as int, region_end as int, i as int, current as int);
            let last = region_end - 1;
            if entry_at(regions, last) is Some {
                let t = entry_at(regions, last).unwrap();
                lemma_entry_at_contains(regions, t, last);
            }
            lemma_walk_stopped(regions, page_num as int, npages as int, prot, current as int);
        }
        None
    }

    fn find_space(&self, npages: u32) -> (gap: Option<PageRange>) {
        let ghost r = self.regions();
        match store_first(&self.entries) {
            None => {
                proof {
                    assert forall|a: int, b: int| !#[trigger] is_gap(r, 0, a, b) by {
                        assert(!mapped(r, b));
                    }
                }
                None
            },
            Some(first) => {
                let start = first.page_num;
                let gaps = self.gaps_from(start);
                let desired_space: u64 = npages as u64 + 1;
                first_roomy(&gaps, desired_space, Ghost(r), Ghost(start as int))
            },
        }
    }

    fn find_space_above_hint(&self, npages: u32, hint: u32) -> (gap: Option<PageRange>) {
        let gaps = self.gaps_from(hint);
        let desired_space: u64 = npages as u64 + 1;
        first_roomy(&gaps, desired_space, Ghost(self.regions()), Ghost(hint as int))
    }

    fn find_map_space(&self, num_pages: u32, pages_per_map: u32) -> (slot: Option<PageRange>) {
        let ghost r = self.regions();
        match store_first(&self.entries) {
            None => {
                proof {
                    assert forall|a: int, b: int| !#[trigger] is_gap(r, 0, a, b) by {
                        assert(!mapped(r, b));
                    }
                }
                None
            },
            Some(first) => {
                let start = first.page_num;
                let gaps = self.gaps_from(start);
                first_fitting(&gaps, num_pages, pages_per_map, Ghost(r), Ghost(start as int))
            },
        }
    }

    fn find_map_space_with_hint(&self, num_pages: u32, pages_per_map: u32, hint: u32) -> (slot:
        Option<PageRange>) {
        let gaps = self.gaps_from(hint);
        first_fitting(&gaps, num_pages, pages_per_map, Ghost(self.regions()), Ghost(hint as int))
    }

    fn find_page(&self, page_num: u32) -> (found: Option<&VmmapEntry>) {
        let found = map_get_at_point(&self.entries, page_num);
        proof {
            let items = stored(self.entries);
            let r = self.regions();
            lemma_items_regions(items);
            lemma_covered_mapped(items, page_num as int);
            if found is Some {
                let i = choose|i: int|
                    0 <= i < items.len() && (#[trigger] items[i]).0 <= page_num <= items[i].1
                        && *found.unwrap() == items[i].2;
                assert(r[i].covers(page_num as int));
                lemma_entry_at_index(r, i, page_num as int);
            }
        }
        found
    }

    fn find_page_mut(&mut self, page_num: u32) -> (found: Option<&mut VmmapEntry>) {
        self.cached_entry = None;
        proof {
            let items = stored(self.entries);
            lemma_items_regions(items);
            lemma_covered_mapped(items, page_num as int);
            lemma_values_changed(items);
            assert forall|i: int, v: VmmapEntry|
                0 <= i < items.len() && items[i].0 <= page_num <= items[i].1 implies {
                let after = #[trigger] items.update(i, (items[i].0, items[i].1, v));
                &&& index_at(entries_of(items), page_num as int) == i
                &&& entries_of(after) == entries_of(items).update(i, v)
                &&& same_keys(items, after)
            } by {
                lemma_value_changed(items, page_num as int, i, v);
            }
        }
        map_get_at_point_mut(&mut self.entries, page_num)
    }

    fn find_page_iter(&self, page_num: u32) -> (found: Vec<&VmmapEntry>) {
        let ghost items = stored(self.entries);
        let ghost r = self.regions();
        proof {
            lemma_items_regions(items);
        }
        match store_last(&self.entries) {
            None => {
                let found: Vec<&VmmapEntry> = Vec::new();
                proof {
                    assert(deref_all(found@) =~= r.subrange(
                        count_below(r, page_num as int),
                        r.len() as int,
                    ));
                }
                found
            },
            Some(last) => {
                let top: u32 = last.page_num + (last.npages - 1);
                proof {
                    assert(r.last() == items.last().2);
                    assert(top == items.last().1);
                }
                if page_num > top {
                    let found: Vec<&VmmapEntry> = Vec::new();
                    proof {
                        assert forall|i: int| 0 <= i < r.len() implies (#[trigger] r[i]).end()
                            <= page_num by {
                            if i < r.len() - 1 {
                                assert(r[i].end() <= r[r.len() - 1].page_num);
                            }
                        }
                        lemma_count_below(r, page_num as int, r.len() as int);
                        assert(deref_all(found@) =~= r.subrange(r.len() as int, r.len() as int));
                    }
                    found
                } else {
                    let found = map_overlapping(&self.entries, page_num, top);
                    proof {
                        let (a, b) = choose|a: int, b: int|
                            meeting_run(items, page_num, top, a, b) && found@.len() == b - a
                                && forall|i: int|
                                0 <= i < b - a ==> *(#[trigger] found@[i]) == items[a + i].2;
                        lemma_suffix_run(items, page_num, a, b);
                        assert(deref_all(found@) =~= r.subrange(a, r.len() as int));
                    }
                    found
                }
            },
        }
    }

    fn find_page_iter_mut(&mut self, page_num: u32) -> (found: Vec<&mut VmmapEntry>) {
        self.cached_entry = None;
        let ghost items = stored(self.entries);
        let ghost r = self.regions();
        proof {
            lemma_items_regions(items);
            lemma_values_changed(items);
        }
        let top: Option<u32> = match store_last(&self.entries) {
            Some(last) => Some(last.page_num + (last.npages - 1)),
            None => None,
        };
        match top {
            Some(top) => {
                proof {
                    assert(r.last() == items.last().2);
                    assert(top == items.last().1);
                }
                if page_num <= top {
                    proof {
                        assert forall|a: int, b: int| #[trigger]
                            meeting_run(items, page_num, top, a, b) implies b == items.len() && a
                            == count_below(r, page_num as int) by {
                            lemma_suffix_run(items, page_num, a, b);
                        }
                    }
                    map_overlapping_mut(&mut self.entries, page_num, top)
                } else {
                    proof {
                        assert forall|i: int| 0 <= i < r.len() implies (#[trigger] r[i]).end()
                            <= page_num by {
                            if i < r.len() - 1 {
                                assert(r[i].end() <= r[r.len() - 1].page_num);
                            }
                        }
                        lemma_count_below(r, page_num as int, r.len() as int);
                    }
                    Vec::new()
                }
            },
            None => Vec::new(),
        }
    }

    fn first_entry(&self) -> (first: Option<(PageRange, &VmmapEntry)>) {
        proof {
            lemma_items_regions(stored(self.entries));
        }
        match store_first(&self.entries) {
            Some(e) => Some((PageRange { start: e.page_num, end: e.page_num + e.npages }, e)),
            None => None,
        }
    }

    fn last_entry(&self) -> (last: Option<(PageRange, &VmmapEntry)>) {
        proof {
            lemma_items_regions(stored(self.entries));
        }
        match store_last(&self.entries) {
            Some(e) => Some((PageRange { start: e.page_num, end: e.page_num + e.npages }, e)),
            None => None,
        }
    }

    fn double_ended_iter(&self) -> (all: Vec<&VmmapEntry>) {
        let all = map_iter(&self.entries);
        proof {
            assert(deref_all(all@) =~= self.regions());
        }
        all
    }

    fn double_ended_iter_mut(&mut self) -> (all: Vec<&mut VmmapEntry>) {
        self.cached_entry = None;
        proof {
            lemma_values_changed(stored(self.entries));
        }
        map_iter_mut(&mut self.entries)
    }
}

} // verus!
