//! The boundary to the interval map that stores the regions.
//!
//! The map itself is `nodit::NoditMap`, keyed by closed intervals of page
//! numbers. Verus cannot look inside it, so this module names what a map
//! holds ([`stored`]) and states, for each method the address space calls,
//! what that method does to it. These statements are believed, not proved:
//! they restate the documented behaviour of the map. Everything built on top
//! of them is verified.

use vstd::prelude::*;
use nodit::interval::ii;
use nodit::{Interval, NoditMap};
use crate::types::VmmapEntry;

verus! {

#[verifier::external_type_specification]
#[verifier::external_body]
#[verifier::reject_recursive_types(I)]
#[verifier::reject_recursive_types(K)]
#[verifier::reject_recursive_types(V)]
pub struct ExNoditMap<I, K, V>(NoditMap<I, K, V>);

#[verifier::external_type_specification]
#[verifier::external_body]
#[verifier::reject_recursive_types(I)]
pub struct ExInterval<I>(Interval<I>);

/// What a map holds, in the order in which it is walked: for each stored
/// interval its first page, its last page (both inclusive) and its value.
pub uninterp spec fn stored(m: NoditMap<u32, Interval<u32>, VmmapEntry>) -> Seq<
    (u32, u32, VmmapEntry),
>;

/// Whether the stored interval of `item` shares a page with `[first, last]`.
pub open spec fn meets(item: (u32, u32, VmmapEntry), first: u32, last: u32) -> bool {
    item.0 <= last && first <= item.1
}

/// Whether a stored interval holds page `p`.
pub open spec fn covered(s: Seq<(u32, u32, VmmapEntry)>, p: int) -> bool {
    exists|i: int| 0 <= i < s.len() && (#[trigger] s[i]).0 <= p <= s[i].1
}

/// The order the map keeps: every interval holds a page, and each interval
/// ends before the next one starts.
pub open spec fn ascending(s: Seq<(u32, u32, VmmapEntry)>) -> bool {
    &&& forall|i: int| 0 <= i < s.len() ==> (#[trigger] s[i]).0 <= s[i].1
    &&& forall|i: int, j: int| 0 <= i < j < s.len() ==> (#[trigger] s[i]).1 < (#[trigger] s[j]).0
}

/// The items that meet `[first, last]` are those at the indices `[a, b)`.
pub open spec fn meeting_run(
    s: Seq<(u32, u32, VmmapEntry)>,
    first: u32,
    last: u32,
    a: int,
    b: int,
) -> bool {
    &&& 0 <= a <= b <= s.len()
    &&& forall|i: int| 0 <= i < s.len() ==> (meets(#[trigger] s[i], first, last) <==> a <= i < b)
}

/// `NoditMap::new`: a new map holds nothing.
#[verifier::external_body]
pub(crate) fn map_new() -> (m: NoditMap<u32, Interval<u32>, VmmapEntry>)
    ensures
        stored(m).len() == 0,
{
    NoditMap::new()
}

/// `NoditMap::insert_strict` on the interval `[first, last]`: where a stored
/// interval meets it, nothing changes and `false` comes back; otherwise the
/// new item is added, all others stay as they were and in their order, and
/// the map is still ascending.
#[verifier::external_body]
pub(crate) fn map_insert_strict(
    m: &mut NoditMap<u32, Interval<u32>, VmmapEntry>,
    first: u32,
    last: u32,
    value: VmmapEntry,
) -> (inserted: bool)
    requires
        first <= last,
        ascending(stored(*old(m))),
    ensures
        inserted == !(exists|i: int|
            0 <= i < stored(*old(m)).len() && meets(#[trigger] stored(*old(m))[i], first, last)),
        !inserted ==> stored(*final(m)) == stored(*old(m)),
        inserted ==> ascending(stored(*final(m))) && exists|k: int|
            0 <= k <= stored(*old(m)).len() && stored(*final(m)) == stored(*old(m)).insert(
                k,
                (first, last, value),
            ),
{
    m.insert_strict(ii(first, last), value).is_ok()
}

/// `NoditMap::remove_overlapping` on `[first, last]`: the items that meet the
/// interval form one run; they leave the map and their values come back in
/// ascending order. The others stay as they were.
#[verifier::external_body]
pub(crate) fn map_remove_overlapping(
    m: &mut NoditMap<u32, Interval<u32>, VmmapEntry>,
    first: u32,
    last: u32,
) -> (removed: Vec<VmmapEntry>)
    requires
        first <= last,
        ascending(stored(*old(m))),
    ensures
        exists|a: int, b: int|
            {
                &&& meeting_run(stored(*old(m)), first, last, a, b)
                &&& removed@.len() == b - a
                &&& forall|i: int|
                    0 <= i < b - a ==> #[trigger] removed@[i] == stored(*old(m))[a + i].2
                &&& stored(*final(m)) == stored(*old(m)).subrange(0, a) + stored(*old(m)).subrange(
                    b,
                    stored(*old(m)).len() as int,
                )
            },
{
    m.remove_overlapping(ii(first, last)).map(|item| item.1).collect()
}

/// `NoditMap::overlaps` on `[first, last]`: whether a stored interval meets
/// the interval.
#[verifier::external_body]
pub(crate) fn map_overlaps(
    m: &NoditMap<u32, Interval<u32>, VmmapEntry>,
    first: u32,
    last: u32,
) -> (any: bool)
    requires
        first <= last,
        ascending(stored(*m)),
    ensures
        any == (exists|i: int|
            0 <= i < stored(*m).len() && meets(#[trigger] stored(*m)[i], first, last)),
{
    m.overlaps(ii(first, last))
}

/// `NoditMap::overlapping` on `[first, last]`: the values of the items that
/// meet the interval, in ascending order.
#[verifier::external_body]
pub(crate) fn map_overlapping(
    m: &NoditMap<u32, Interval<u32>, VmmapEntry>,
    first: u32,
    last: u32,
) -> (found: Vec<&VmmapEntry>)
    requires
        first <= last,
        ascending(stored(*m)),
    ensures
        exists|a: int, b: int|
            meeting_run(stored(*m), first, last, a, b) && found@.len() == b - a && forall|i: int|
                0 <= i < b - a ==> *(#[trigger] found@[i]) == stored(*m)[a + i].2,
{
    m.overlapping(ii(first, last)).map(|item| item.1).collect()
}

/// `NoditMap::overlapping_mut` on `[first, last]`: mutable references to the
/// values of the items that meet the interval, in ascending order. Every
/// item keeps its interval; a value handed out ends as its reference leaves
/// it, and all other values stay as they were.
#[verifier::external_body]
pub(crate) fn map_overlapping_mut(
    m: &mut NoditMap<u32, Interval<u32>, VmmapEntry>,
    first: u32,
    last: u32,
) -> (found: Vec<&mut VmmapEntry>)
    requires
        first <= last,
        ascending(stored(*old(m))),
    ensures
        stored(*final(m)).len() == stored(*old(m)).len(),
        exists|a: int, b: int|
            {
                &&& meeting_run(stored(*old(m)), first, last, a, b)
                &&& found@.len() == b - a
                &&& forall|i: int|
                    0 <= i < b - a ==> *(#[trigger] found@[i]) == stored(*old(m))[a + i].2
                &&& forall|j: int|
                    0 <= j < stored(*old(m)).len() ==> #[trigger] stored(*final(m))[j] == (
                        stored(*old(m))[j].0,
                        stored(*old(m))[j].1,
                        if a <= j < b {
                            *final(found@[j - a])
                        } else {
                            stored(*old(m))[j].2
                        },
                    )
            },
{
    m.overlapping_mut(ii(first, last)).map(|item| item.1).collect()
}

/// `NoditMap::get_at_point`: the value of the stored interval that holds
/// `point`, or `None` where no stored interval holds it.
#[verifier::external_body]
pub(crate) fn map_get_at_point(
    m: &NoditMap<u32, Interval<u32>, VmmapEntry>,
    point: u32,
) -> (found: Option<&VmmapEntry>)
    ensures
        match found {
            Some(value) => exists|i: int|
                0 <= i < stored(*m).len() && (#[trigger] stored(*m)[i]).0 <= point <= stored(
                    *m,
                )[i].1 && *value == stored(*m)[i].2,
            None => !covered(stored(*m), point as int),
        },
{
    m.get_at_point(point)
}

/// `NoditMap::get_at_point_mut`: a mutable reference to the value of the
/// stored interval that holds `point`. The intervals and all other values
/// stay as they were; the value handed out ends as its reference leaves it.
#[verifier::external_body]
pub(crate) fn map_get_at_point_mut(
    m: &mut NoditMap<u32, Interval<u32>, VmmapEntry>,
    point: u32,
) -> (found: Option<&mut VmmapEntry>)
    ensures
        match found {
            Some(value) => exists|i: int|
                {
                    &&& 0 <= i < stored(*old(m)).len()
                    &&& (#[trigger] stored(*old(m))[i]).0 <= point <= stored(*old(m))[i].1
                    &&& *value == stored(*old(m))[i].2
                    &&& stored(*final(m)) == stored(*old(m)).update(
                        i,
                        (stored(*old(m))[i].0, stored(*old(m))[i].1, *final(value)),
                    )
                },
            None => !covered(stored(*old(m)), point as int) && stored(*final(m)) == stored(
                *old(m),
            ),
        },
{
    m.get_at_point_mut(point)
}

/// `NoditMap::first_key_value`: the first item, or `None` for an empty map.
#[verifier::external_body]
pub(crate) fn map_first_key_value(m: &NoditMap<u32, Interval<u32>, VmmapEntry>) -> (found: Option<
    (u32, u32, &VmmapEntry),
>)
    ensures
        match found {
            Some(item) => stored(*m).len() > 0 && (item.0, item.1, *item.2) == stored(*m)[0],
            None => stored(*m).len() == 0,
        },
{
    m.first_key_value().map(|item| (item.0.start(), item.0.end(), item.1))
}

/// `NoditMap::last_key_value`: the last item, or `None` for an empty map.
#[verifier::external_body]
pub(crate) fn map_last_key_value(m: &NoditMap<u32, Interval<u32>, VmmapEntry>) -> (found: Option<
    (u32, u32, &VmmapEntry),
>)
    ensures
        match found {
            Some(item) => stored(*m).len() > 0 && (item.0, item.1, *item.2) == stored(*m).last(),
            None => stored(*m).len() == 0,
        },
{
    m.last_key_value().map(|item| (item.0.start(), item.0.end(), item.1))
}

/// `NoditMap::iter`: the values of all items, in ascending order.
#[verifier::external_body]
pub(crate) fn map_iter(m: &NoditMap<u32, Interval<u32>, VmmapEntry>) -> (all: Vec<&VmmapEntry>)
    ensures
        all@.len() == stored(*m).len(),
        forall|i: int| 0 <= i < all@.len() ==> *(#[trigger] all@[i]) == stored(*m)[i].2,
{
    m.iter().map(|item| item.1).collect()
}

/// `NoditMap::iter_mut`: mutable references to the values of all items, in
/// ascending order. The intervals stay as they were; each value ends as its
/// reference leaves it.
#[verifier::external_body]
pub(crate) fn map_iter_mut(m: &mut NoditMap<u32, Interval<u32>, VmmapEntry>) -> (all: Vec<
    &mut VmmapEntry,
>)
    ensures
        all@.len() == stored(*old(m)).len(),
        stored(*final(m)).len() == stored(*old(m)).len(),
        forall|i: int| 0 <= i < all@.len() ==> *(#[trigger] all@[i]) == stored(*old(m))[i].2,
        forall|i: int|
            0 <= i < all@.len() ==> #[trigger] stored(*final(m))[i] == (
                stored(*old(m))[i].0,
                stored(*old(m))[i].1,
                *final(all@[i]),
            ),
{
    m.iter_mut().map(|item| item.1).collect()
}

/// `NoditMap::gaps_trimmed` on `[first, last]`: the runs of pages of
/// `[first, last]` that no stored interval holds, as (first page, last page),
/// in ascending order. Each run is as long as it can be: it starts at `first`
/// or right after a held page, and ends at `last` or right before one. Every
/// page of `[first, last]` that is not held lies in one of them.
#[verifier::external_body]
pub(crate) fn map_gaps_trimmed(
    m: &NoditMap<u32, Interval<u32>, VmmapEntry>,
    first: u32,
    last: u32,
) -> (gaps: Vec<(u32, u32)>)
    requires
        first <= last,
        ascending(stored(*m)),
    ensures
        forall|k: int|
            0 <= k < gaps@.len() ==> first <= (#[trigger] gaps@[k]).0 <= gaps@[k].1 <= last,
        forall|k: int, p: int|
            0 <= k < gaps@.len() && (#[trigger] gaps@[k]).0 <= p <= gaps@[k].1 ==> !#[trigger] covered(
                stored(*m),
                p,
            ),
        forall|k: int|
            0 <= k < gaps@.len() ==> (#[trigger] gaps@[k]).0 == first || covered(
                stored(*m),
                gaps@[k].0 - 1,
            ),
        forall|k: int|
            0 <= k < gaps@.len() ==> (#[trigger] gaps@[k]).1 == last || covered(
                stored(*m),
                gaps@[k].1 + 1,
            ),
        forall|j: int, k: int|
            0 <= j < k < gaps@.len() ==> (#[trigger] gaps@[j]).1 < (#[trigger] gaps@[k]).0,
        forall|p: int|
            first <= p <= last && !#[trigger] covered(stored(*m), p) ==> exists|k: int|
                0 <= k < gaps@.len() && (#[trigger] gaps@[k]).0 <= p <= gaps@[k].1,
{
    m.gaps_trimmed(ii(first, last)).map(|gap| (gap.start(), gap.end())).collect()
}

} // verus!
