//! The model of an address space: the ascending sequence of its entries, and
//! for each page the entry that holds it.

use vstd::prelude::*;
use crate::types::VmmapEntry;

verus! {

/// The invariant of a sequence of regions: every entry may be stored, and
/// each entry ends at or before the start of the next. So no two entries
/// share a page, and the sequence is in ascending order.
pub open spec fn regions_wf(s: Seq<VmmapEntry>) -> bool {
    &&& forall|i: int| 0 <= i < s.len() ==> (#[trigger] s[i]).storable()
    &&& forall|i: int, j: int|
        0 <= i < j < s.len() ==> (#[trigger] s[i]).end() <= (#[trigger] s[j]).page_num
}

/// Whether some entry holds page `p`.
pub open spec fn mapped(s: Seq<VmmapEntry>, p: int) -> bool {
    exists|i: int| 0 <= i < s.len() && (#[trigger] s[i]).covers(p)
}

/// The index of an entry that holds page `p`, where there is one.
pub open spec fn index_at(s: Seq<VmmapEntry>, p: int) -> int {
    choose|i: int| 0 <= i < s.len() && (#[trigger] s[i]).covers(p)
}

/// The entry that holds page `p`, if any.
pub open spec fn entry_at(s: Seq<VmmapEntry>, p: int) -> Option<VmmapEntry> {
    if mapped(s, p) {
        Some(s[index_at(s, p)])
    } else {
        None
    }
}

/// In a well-formed sequence the entry at an index is the one found for each
/// of its pages.
pub proof fn lemma_entry_at_index(s: Seq<VmmapEntry>, i: int, p: int)
    requires
        regions_wf(s),
        0 <= i < s.len(),
        s[i].covers(p),
    ensures
        mapped(s, p),
        index_at(s, p) == i,
        entry_at(s, p) == Some(s[i]),
{
    let j = index_at(s, p);
    assert(0 <= j < s.len() && s[j].covers(p));
    if j < i {
        assert(s[j].end() <= s[i].page_num);
    }
    if i < j {
        assert(s[i].end() <= s[j].page_num);
    }
}

/// In a well-formed sequence an entry is found for a page exactly when it is
/// stored and holds that page.
pub proof fn lemma_entry_at_contains(s: Seq<VmmapEntry>, e: VmmapEntry, p: int)
    requires
        regions_wf(s),
    ensures
        entry_at(s, p) == Some(e) <==> s.contains(e) && e.covers(p),
{
    if s.contains(e) && e.covers(p) {
        let i = choose|i: int| 0 <= i < s.len() && s[i] == e;
        lemma_entry_at_index(s, i, p);
    }
    if entry_at(s, p) == Some(e) {
        let j = index_at(s, p);
        assert(0 <= j < s.len() && s[j].covers(p));
        assert(s[j] == e);
    }
}

/// An entry that holds page `p` and is stored is the entry found for every
/// page it holds.
pub proof fn lemma_entry_at_all(s: Seq<VmmapEntry>, e: VmmapEntry)
    requires
        regions_wf(s),
        s.contains(e),
    ensures
        forall|p: int| e.covers(p) ==> #[trigger] entry_at(s, p) == Some(e),
{
    assert forall|p: int| e.covers(p) implies #[trigger] entry_at(s, p) == Some(e) by {
        lemma_entry_at_contains(s, e, p);
    }
}

/// No stored entry holds `p`: then `p` is not mapped.
pub proof fn lemma_entry_at_none(s: Seq<VmmapEntry>, p: int)
    requires
        forall|y: VmmapEntry| #[trigger] s.contains(y) ==> !y.covers(p),
    ensures
        entry_at(s, p) is None,
{
    if mapped(s, p) {
        let k = index_at(s, p);
        assert(s.contains(s[k]));
    }
}

/// A page is mapped exactly when a stored entry holds it.
pub proof fn lemma_mapped_contains(s: Seq<VmmapEntry>, p: int)
    ensures
        mapped(s, p) <==> exists|e: VmmapEntry| #[trigger] s.contains(e) && e.covers(p),
{
    if mapped(s, p) {
        let i = index_at(s, p);
        assert(s.contains(s[i]) && s[i].covers(p));
    }
    if exists|e: VmmapEntry| #[trigger] s.contains(e) && e.covers(p) {
        let e = choose|e: VmmapEntry| #[trigger] s.contains(e) && e.covers(p);
        let i = choose|i: int| 0 <= i < s.len() && s[i] == e;
        assert(s[i].covers(p));
    }
}

/// Two stored entries that share a page are the same entry.
pub proof fn lemma_shared_page(s: Seq<VmmapEntry>, x: VmmapEntry, y: VmmapEntry)
    requires
        regions_wf(s),
        s.contains(x),
        s.contains(y),
        x.overlaps(y.page_num as int, y.end()),
    ensures
        x == y,
{
    let i = choose|i: int| 0 <= i < s.len() && s[i] == x;
    let j = choose|j: int| 0 <= j < s.len() && s[j] == y;
    if i < j {
        assert(s[i].end() <= s[j].page_num);
    }
    if j < i {
        assert(s[j].end() <= s[i].page_num);
    }
}

/// Two different stored entries lie apart.
pub proof fn lemma_apart(s: Seq<VmmapEntry>, x: VmmapEntry, y: VmmapEntry)
    requires
        regions_wf(s),
        s.contains(x),
        s.contains(y),
        x != y,
    ensures
        x.end() <= y.page_num || y.end() <= x.page_num,
{
    if x.overlaps(y.page_num as int, y.end()) {
        lemma_shared_page(s, x, y);
    }
}

/// No two entries of a well-formed sequence share a page.
pub proof fn lemma_no_shared_page(s: Seq<VmmapEntry>, i: int, j: int, p: int)
    requires
        regions_wf(s),
        0 <= i < s.len(),
        0 <= j < s.len(),
        i != j,
    ensures
        !(s[i].covers(p) && s[j].covers(p)),
{
    if i < j {
        assert(s[i].end() <= s[j].page_num);
    } else {
        assert(s[j].end() <= s[i].page_num);
    }
}

/// Two well-formed sequences with the same entries are the same sequence:
/// the order is fixed by the pages.
pub proof fn lemma_same_entries(s1: Seq<VmmapEntry>, s2: Seq<VmmapEntry>)
    requires
        regions_wf(s1),
        regions_wf(s2),
        forall|x: VmmapEntry| s1.contains(x) <==> s2.contains(x),
    ensures
        s1 == s2,
    decreases s1.len(),
{
    if s1.len() == 0 {
        if s2.len() > 0 {
            assert(s2.contains(s2[0]));
        }
        assert(s1 =~= s2);
    } else {
        let a = s1.last();
        assert(s1.contains(a));
        let j = choose|j: int| 0 <= j < s2.len() && s2[j] == a;
        let b = s2.last();
        assert(s2.contains(b));
        let i = choose|i: int| 0 <= i < s1.len() && s1[i] == b;
        assert(a.storable() && b.storable());
        if j < s2.len() - 1 {
            assert(s2[j].end() <= s2[s2.len() - 1].page_num);
        }
        if i < s1.len() - 1 {
            assert(s1[i].end() <= s1[s1.len() - 1].page_num);
        }
        assert(a == b);
        let t1 = s1.drop_last();
        let t2 = s2.drop_last();
        assert forall|x: VmmapEntry| t1.contains(x) <==> t2.contains(x) by {
            if t1.contains(x) {
                let k = choose|k: int| 0 <= k < t1.len() && t1[k] == x;
                assert(s1[k] == x);
                assert(s1[k].end() <= s1[s1.len() - 1].page_num);
                assert(s1.contains(x));
                let m = choose|m: int| 0 <= m < s2.len() && s2[m] == x;
                assert(t2[m] == x);
            }
            if t2.contains(x) {
                let k = choose|k: int| 0 <= k < t2.len() && t2[k] == x;
                assert(s2[k] == x);
                assert(s2[k].end() <= s2[s2.len() - 1].page_num);
                assert(s2.contains(x));
                let m = choose|m: int| 0 <= m < s1.len() && s1[m] == x;
                assert(t1[m] == x);
            }
        }
        assert(regions_wf(t1)) by {
            assert forall|k: int| 0 <= k < t1.len() implies (#[trigger] t1[k]).storable() by {
                assert(t1[k] == s1[k]);
            }
            assert forall|k: int, m: int| 0 <= k < m < t1.len() implies (#[trigger] t1[k]).end() <= (
            #[trigger] t1[m]).page_num by {
                assert(t1[k] == s1[k] && t1[m] == s1[m]);
            }
        }
        assert(regions_wf(t2)) by {
            assert forall|k: int| 0 <= k < t2.len() implies (#[trigger] t2[k]).storable() by {
                assert(t2[k] == s2[k]);
            }
            assert forall|k: int, m: int| 0 <= k < m < t2.len() implies (#[trigger] t2[k]).end() <= (
            #[trigger] t2[m]).page_num by {
                assert(t2[k] == s2[k] && t2[m] == s2[m]);
            }
        }
        lemma_same_entries(t1, t2);
        assert(s1 =~= t1.push(a));
        assert(s2 =~= t2.push(b));
    }
}

/// Two well-formed sequences in which every page is held by the same entry
/// are the same sequence. So a statement of the entry of every page states
/// the whole sequence.
pub proof fn lemma_same_pages(s1: Seq<VmmapEntry>, s2: Seq<VmmapEntry>)
    requires
        regions_wf(s1),
        regions_wf(s2),
        forall|p: int| entry_at(s1, p) == entry_at(s2, p),
    ensures
        s1 == s2,
{
    assert forall|x: VmmapEntry| s1.contains(x) <==> s2.contains(x) by {
        if s1.contains(x) {
            let i = choose|i: int| 0 <= i < s1.len() && s1[i] == x;
            assert(s1[i].storable());
            lemma_entry_at_contains(s1, x, x.page_num as int);
            lemma_entry_at_contains(s2, x, x.page_num as int);
        }
        if s2.contains(x) {
            let i = choose|i: int| 0 <= i < s2.len() && s2[i] == x;
            assert(s2[i].storable());
            lemma_entry_at_contains(s2, x, x.page_num as int);
            lemma_entry_at_contains(s1, x, x.page_num as int);
        }
    }
    lemma_same_entries(s1, s2);
}

/// The number of entries at the front of `s` that end at or before page `p`.
/// In a well-formed sequence these are all the entries that lie below `p`.
pub open spec fn count_below(s: Seq<VmmapEntry>, p: int) -> int
    decreases s.len(),
{
    if s.len() == 0 {
        0
    } else if s[0].end() <= p {
        1 + count_below(s.drop_first(), p)
    } else {
        0
    }
}

/// `count_below` is the index at which the entries start to end above `p`.
pub proof fn lemma_count_below(s: Seq<VmmapEntry>, p: int, k: int)
    requires
        0 <= k <= s.len(),
        forall|i: int| 0 <= i < k ==> (#[trigger] s[i]).end() <= p,
        k < s.len() ==> s[k].end() > p,
    ensures
        count_below(s, p) == k,
    decreases s.len(),
{
    if s.len() > 0 && k > 0 {
        let t = s.drop_first();
        assert forall|i: int| 0 <= i < k - 1 implies (#[trigger] t[i]).end() <= p by {
            assert(t[i] == s[i + 1]);
        }
        if k - 1 < t.len() {
            assert(t[k - 1] == s[k]);
        }
        lemma_count_below(t, p, k - 1);
    }
}

/// `after` holds, index for index, an entry on the pages of the entry of
/// `before`, and every one of them may be stored: the metadata may differ.
pub open spec fn same_spans(before: Seq<VmmapEntry>, after: Seq<VmmapEntry>) -> bool {
    &&& after.len() == before.len()
    &&& forall|i: int|
        0 <= i < after.len() ==> {
            &&& (#[trigger] after[i]).page_num == before[i].page_num
            &&& after[i].npages == before[i].npages
            &&& after[i].storable()
        }
}

/// The entries that a sequence of references points to.
pub open spec fn deref_all(refs: Seq<&VmmapEntry>) -> Seq<VmmapEntry> {
    Seq::new(refs.len(), |i: int| *refs[i])
}

} // verus!
