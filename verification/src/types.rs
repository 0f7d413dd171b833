//! The plain data of the address space: entries, page ranges and errors.

use vstd::prelude::*;
use crate::access::{addr_mapping_end, range_admits, tail_reached};
use crate::changes::{added, mapped_over, remembered_after, reprotected, unmapped_from};
use crate::constants::PAGESIZE;
use crate::gaps::{first_gap_of_size, first_slot, lowest_page};
use crate::regions::{count_below, deref_all, entry_at, index_at, mapped, regions_wf, same_spans};

verus! {

/// What stands behind a mapped region. The handles are opaque: they are
/// stored and handed back, never looked into.
#[derive(Clone, Copy, PartialEq, Eq, Structural, Debug)]
pub enum MemoryBackingType {
    /// A placeholder for calls that must pass a backing but have none to give.
    Unspecified,
    /// Anonymous memory.
    Anonymous,
    /// A shared memory segment, by its id.
    SharedMemory(u64),
    /// An open file, by its descriptor.
    FileDescriptor(u64),
}

/// One contiguous mapped region: the pages `[page_num, page_num + npages)`.
#[derive(Clone, Copy, PartialEq, Eq, Structural, Debug)]
pub struct VmmapEntry {
    /// First page of the region.
    pub page_num: u32,
    /// Number of pages.
    pub npages: u32,
    /// Current protection bits.
    pub prot: i32,
    /// The most that `prot` may ever be raised to.
    pub maxprot: i32,
    /// Mapping flags, carried through untouched.
    pub flags: i32,
    /// Marks an entry that is no longer in use.
    pub removed: bool,
    /// Offset of the first page in the backing store, in bytes.
    pub file_offset: i64,
    /// Size of the backing store.
    pub file_size: i64,
    /// The cage that owns the region.
    pub cage_id: u64,
    /// The backing store.
    pub backing: MemoryBackingType,
}

/// The half-open page range `[start, end)`.
#[derive(Clone, Copy, PartialEq, Eq, Structural, Debug)]
pub struct PageRange {
    /// First page of the range.
    pub start: u32,
    /// First page after the range.
    pub end: u32,
}

/// Why a request was turned down.
#[derive(Clone, Copy, PartialEq, Eq, Structural, Debug)]
pub enum VmmapError {
    /// The request named zero pages.
    InvalidInput,
}

impl VmmapEntry {
    /// The first page after the region.
    pub open spec fn end(&self) -> int {
        self.page_num + self.npages
    }

    /// Whether page `p` lies in the region.
    pub open spec fn covers(&self, p: int) -> bool {
        self.page_num <= p < self.end()
    }

    /// Whether the region shares a page with `[lo, hi)`.
    pub open spec fn overlaps(&self, lo: int, hi: int) -> bool {
        self.page_num < hi && lo < self.end()
    }

    /// What an entry must satisfy to be stored: it holds at least one page,
    /// its end is a page number, and the offset of its end in the backing
    /// store is a signed 64-bit number.
    pub open spec fn storable(&self) -> bool {
        &&& self.npages > 0
        &&& self.end() <= u32::MAX
        &&& self.file_offset + self.npages * PAGESIZE <= i64::MAX
    }

    /// The part of the region that lies on `[a, b)`: same metadata, the
    /// offset advanced by the pages dropped in front.
    pub open spec fn slice(&self, a: int, b: int) -> VmmapEntry {
        VmmapEntry {
            page_num: a as u32,
            npages: (b - a) as u32,
            file_offset: (self.file_offset + (a - self.page_num) * PAGESIZE) as i64,
            ..*self
        }
    }

    /// A region in use, as a mapping request describes it.
    pub open spec fn requested(
        page_num: u32,
        npages: u32,
        prot: i32,
        maxprot: i32,
        flags: i32,
        backing: MemoryBackingType,
        file_offset: i64,
        file_size: i64,
        cage_id: u64,
    ) -> VmmapEntry {
        VmmapEntry {
            page_num,
            npages,
            prot,
            maxprot,
            flags,
            removed: false,
            file_offset,
            file_size,
            cage_id,
            backing,
        }
    }

    /// The same region with its protection replaced.
    pub open spec fn with_prot(&self, prot: i32) -> VmmapEntry {
        VmmapEntry { prot, ..*self }
    }
}

/// The operations of an address space.
///
/// The state is the ascending sequence of stored entries, `regions()`, and
/// the remembered entry of the last successful lookup, `last_lookup()`.
pub trait VmmapOps {
    /// The invariant: the regions are well formed (see
    /// [`regions_wf`](crate::regions::regions_wf)), and a remembered entry is
    /// one of them.
    spec fn wf(&self) -> bool;

    /// The stored entries in ascending order.
    spec fn regions(&self) -> Seq<VmmapEntry>;

    /// The entry remembered by the last lookup that reached one.
    spec fn last_lookup(&self) -> Option<VmmapEntry>;

    /// What the invariant says of the state: no two stored entries share a
    /// page, they are in ascending order, each holds at least one page, and
    /// what is remembered is stored as it is.
    proof fn lemma_wf(&self)
        requires
            self.wf(),
        ensures
            regions_wf(self.regions()),
            self.last_lookup() matches Some(c) ==> self.regions().contains(c),
    ;

    /// Stores `entry` on pages of which none is mapped yet, and changes
    /// nothing else. To map over existing regions, use
    /// [`add_entry_with_override`](VmmapOps::add_entry_with_override).
    fn add_entry(&mut self, entry: VmmapEntry)
        requires
            old(self).wf(),
            entry.storable(),
            forall|p: int| entry.covers(p) ==> !mapped(old(self).regions(), p),
        ensures
            final(self).wf(),
            regions_wf(final(self).regions()),
            added(old(self).regions(), final(self).regions(), entry),
            final(self).last_lookup() == old(self).last_lookup(),
    ;

    /// Maps or unmaps the `npages` pages from `page_num`.
    ///
    /// A request for zero pages is turned down and changes nothing. Otherwise
    /// every entry that shares a page with the range is cut back to its pages
    /// outside the range (an entry inside the range goes altogether), a part
    /// behind the range keeping its place in the backing store. With
    /// `remove` the range is then left unmapped; without it the requested
    /// region is stored on the range. A remembered entry that shares a page
    /// with the range is forgotten.
    fn update(
        &mut self,
        page_num: u32,
        npages: u32,
        prot: i32,
        maxprot: i32,
        flags: i32,
        backing: MemoryBackingType,
        remove: bool,
        file_offset: i64,
        file_size: i64,
        cage_id: u64,
    ) -> (result: Result<(), VmmapError>)
        requires
            old(self).wf(),
            page_num + npages <= u32::MAX,
            !remove ==> file_offset + npages * PAGESIZE <= i64::MAX,
        ensures
            final(self).wf(),
            regions_wf(final(self).regions()),
            npages == 0 ==> result == Err::<(), VmmapError>(VmmapError::InvalidInput),
            npages == 0 ==> final(self).regions() == old(self).regions(),
            npages == 0 ==> final(self).last_lookup() == old(self).last_lookup(),
            npages > 0 ==> result is Ok,
            npages > 0 ==> final(self).last_lookup() == remembered_after(
                old(self).last_lookup(),
                page_num as int,
                page_num + npages,
            ),
            npages > 0 && remove ==> unmapped_from(
                old(self).regions(),
                final(self).regions(),
                page_num as int,
                page_num + npages,
            ),
            npages > 0 && !remove ==> mapped_over(
                old(self).regions(),
                final(self).regions(),
                VmmapEntry::requested(
                    page_num,
                    npages,
                    prot,
                    maxprot,
                    flags,
                    backing,
                    file_offset,
                    file_size,
                    cage_id,
                ),
            ),
    ;

    /// Maps the requested region over the `npages` pages from `page_num`,
    /// whatever was mapped there. See [`update`](VmmapOps::update).
    fn add_entry_with_override(
        &mut self,
        page_num: u32,
        npages: u32,
        prot: i32,
        maxprot: i32,
        flags: i32,
        backing: MemoryBackingType,
        file_offset: i64,
        file_size: i64,
        cage_id: u64,
    ) -> (result: Result<(), VmmapError>)
        requires
            old(self).wf(),
            page_num + npages <= u32::MAX,
            file_offset + npages * PAGESIZE <= i64::MAX,
        ensures
            final(self).wf(),
            regions_wf(final(self).regions()),
            npages == 0 ==> result == Err::<(), VmmapError>(VmmapError::InvalidInput),
            npages == 0 ==> final(self).regions() == old(self).regions(),
            npages == 0 ==> final(self).last_lookup() == old(self).last_lookup(),
            npages > 0 ==> result is Ok,
            npages > 0 ==> final(self).last_lookup() == remembered_after(
                old(self).last_lookup(),
                page_num as int,
                page_num + npages,
            ),
            npages > 0 ==> mapped_over(
                old(self).regions(),
                final(self).regions(),
                VmmapEntry::requested(
                    page_num,
                    npages,
                    prot,
                    maxprot,
                    flags,
                    backing,
                    file_offset,
                    file_size,
                    cage_id,
                ),
            ),
    ;

    /// Unmaps the `npages` pages from `page_num`. Pages of the range that
    /// were not mapped stay so: that is no error.
    /// See [`update`](VmmapOps::update).
    fn remove_entry(&mut self, page_num: u32, npages: u32) -> (result: Result<(), VmmapError>)
        requires
            old(self).wf(),
            page_num + npages <= u32::MAX,
        ensures
            final(self).wf(),
            regions_wf(final(self).regions()),
            npages == 0 ==> result == Err::<(), VmmapError>(VmmapError::InvalidInput),
            npages == 0 ==> final(self).regions() == old(self).regions(),
            npages == 0 ==> final(self).last_lookup() == old(self).last_lookup(),
            npages > 0 ==> result is Ok,
            npages > 0 ==> final(self).last_lookup() == remembered_after(
                old(self).last_lookup(),
                page_num as int,
                page_num + npages,
            ),
            npages > 0 ==> unmapped_from(
                old(self).regions(),
                final(self).regions(),
                page_num as int,
                page_num + npages,
            ),
    ;

    /// Sets the protection of the `npages` pages from `page_num` to
    /// `new_prot`, wherever they are mapped.
    ///
    /// An entry that reaches out of the range is split at the edge of the
    /// range: its part outside keeps the old protection, its part inside
    /// gets the new one. Nothing is mapped or unmapped, and backing and
    /// owner stay as they were. For zero pages nothing changes. Whether
    /// `new_prot` stays within the maximum protection is not looked at here:
    /// ask [`check_existing_mapping`](VmmapOps::check_existing_mapping) first.
    /// A remembered entry that shares a page with the range is forgotten.
    fn change_prot(&mut self, page_num: u32, npages: u32, new_prot: i32)
        requires
            old(self).wf(),
            page_num + npages <= u32::MAX,
        ensures
            final(self).wf(),
            regions_wf(final(self).regions()),
            npages == 0 ==> final(self).regions() == old(self).regions(),
            npages == 0 ==> final(self).last_lookup() == old(self).last_lookup(),
            npages > 0 ==> final(self).last_lookup() == remembered_after(
                old(self).last_lookup(),
                page_num as int,
                page_num + npages,
            ),
            npages > 0 ==> reprotected(
                old(self).regions(),
                final(self).regions(),
                page_num as int,
                page_num + npages,
                new_prot,
            ),
    ;

    /// Whether the `npages` pages from `page_num` are all mapped already and
    /// `prot` stays within the maximum protection of every entry on them.
    /// One unmapped page in the range, or an empty range, makes it `false`.
    fn check_existing_mapping(&self, page_num: u32, npages: u32, prot: i32) -> (ok: bool)
        requires
            self.wf(),
        ensures
            ok == range_admits(self.regions(), page_num as int, npages as int, prot),
    ;

    /// Checks that the `npages` pages from `page_num` are all mapped with a
    /// current protection that allows `prot`, where any of read, write and
    /// execute counts as allowing read. Answers the first page after the
    /// entry that holds the last page of the range.
    ///
    /// The answer depends on the regions alone, not on what was remembered.
    /// The entry that holds the last page is remembered whenever the walk
    /// gets as far as that entry.
    fn check_addr_mapping(&mut self, page_num: u32, npages: u32, prot: i32) -> (end: Option<u32>)
        requires
            old(self).wf(),
        ensures
            final(self).wf(),
            final(self).regions() == old(self).regions(),
            end == addr_mapping_end(old(self).regions(), page_num as int, npages as int, prot),
            final(self).last_lookup() == if tail_reached(
                old(self).regions(),
                page_num as int,
                npages as int,
                prot,
            ) {
                entry_at(old(self).regions(), page_num + npages - 1)
            } else {
                old(self).last_lookup()
            },
    ;

    /// The lowest gap between mapped pages that has room for `npages` pages
    /// and one guard page. Only gaps above the lowest mapped page count, so
    /// an address space with nothing mapped has none.
    fn find_space(&self, npages: u32) -> (gap: Option<PageRange>)
        requires
            self.wf(),
        ensures
            first_gap_of_size(self.regions(), lowest_page(self.regions()), npages + 1, gap),
    ;

    /// The lowest gap at or above page `hint` that has room for `npages`
    /// pages and one guard page. A gap that `hint` lies in counts from `hint`
    /// on. Every gap ends below a mapped page.
    fn find_space_above_hint(&self, npages: u32, hint: u32) -> (gap: Option<PageRange>)
        requires
            self.wf(),
        ensures
            first_gap_of_size(self.regions(), hint as int, npages + 1, gap),
    ;

    /// A place for `num_pages` pages in units of `pages_per_map` pages.
    ///
    /// The request is rounded up to a multiple of `pages_per_map`. A gap
    /// above the lowest mapped page fits where, with its start rounded down
    /// and its end rounded up to a multiple of `pages_per_map`, it is at
    /// least that long, and the rounded end is still a page number. The
    /// answer lies in the lowest gap that fits and ends at its rounded end.
    fn find_map_space(&self, num_pages: u32, pages_per_map: u32) -> (slot: Option<PageRange>)
        requires
            self.wf(),
            pages_per_map > 0,
        ensures
            first_slot(
                self.regions(),
                lowest_page(self.regions()),
                num_pages as int,
                pages_per_map as int,
                slot,
            ),
            slot matches Some(found) ==> {
                &&& found.start % pages_per_map == 0
                &&& found.end % pages_per_map == 0
                &&& found.end - found.start >= num_pages
                &&& found.end - found.start < num_pages + pages_per_map
            },
    ;

    /// As [`find_map_space`](VmmapOps::find_map_space), over the gaps at or
    /// above page `hint`. A gap that `hint` lies in counts from `hint` on.
    fn find_map_space_with_hint(&self, num_pages: u32, pages_per_map: u32, hint: u32) -> (slot:
        Option<PageRange>)
        requires
            self.wf(),
            pages_per_map > 0,
        ensures
            first_slot(
                self.regions(),
                hint as int,
                num_pages as int,
                pages_per_map as int,
                slot,
            ),
            slot matches Some(found) ==> {
                &&& found.start % pages_per_map == 0
                &&& found.end % pages_per_map == 0
                &&& found.end - found.start >= num_pages
                &&& found.end - found.start < num_pages + pages_per_map
            },
    ;

    /// The entry that holds page `page_num`, if the page is mapped.
    fn find_page(&self, page_num: u32) -> (found: Option<&VmmapEntry>)
        requires
            self.wf(),
        ensures
            match found {
                Some(e) => entry_at(self.regions(), page_num as int) == Some(*e),
                None => entry_at(self.regions(), page_num as int) is None,
            },
    ;

    /// The entry that holds page `page_num`, to be changed in place.
    ///
    /// The stored entry ends as the reference leaves it; nothing else
    /// changes. The address space stays well formed as long as the entry
    /// stays on its pages and may still be stored. What was remembered is
    /// forgotten.
    fn find_page_mut(&mut self, page_num: u32) -> (found: Option<&mut VmmapEntry>)
        requires
            old(self).wf(),
        ensures
            final(self).last_lookup() is None,
            match found {
                Some(e) => {
                    &&& mapped(old(self).regions(), page_num as int)
                    &&& *e == old(self).regions()[index_at(old(self).regions(), page_num as int)]
                    &&& final(self).regions() == old(self).regions().update(
                        index_at(old(self).regions(), page_num as int),
                        *final(e),
                    )
                },
                None => !mapped(old(self).regions(), page_num as int) && final(self).regions()
                    == old(self).regions(),
            },
            same_spans(old(self).regions(), final(self).regions()) ==> final(self).wf(),
    ;

    /// The entries from the one that holds or follows page `page_num` up to
    /// the last, in ascending order.
    fn find_page_iter(&self, page_num: u32) -> (found: Vec<&VmmapEntry>)
        requires
            self.wf(),
        ensures
            deref_all(found@) == self.regions().subrange(
                count_below(self.regions(), page_num as int),
                self.regions().len() as int,
            ),
    ;

    /// The entries from the one that holds or follows page `page_num` up to
    /// the last, in ascending order, to be changed in place.
    ///
    /// Each stored entry ends as its reference leaves it; the entries below
    /// stay as they were. The address space stays well formed as long as
    /// every entry stays on its pages and may still be stored. What was
    /// remembered is forgotten.
    fn find_page_iter_mut(&mut self, page_num: u32) -> (found: Vec<&mut VmmapEntry>)
        requires
            old(self).wf(),
        ensures
            final(self).last_lookup() is None,
            final(self).regions().len() == old(self).regions().len(),
            found@.len() == old(self).regions().len() - count_below(
                old(self).regions(),
                page_num as int,
            ),
            forall|i: int|
                0 <= i < found@.len() ==> *(#[trigger] found@[i]) == old(self).regions()[count_below(
                    old(self).regions(),
                    page_num as int,
                ) + i],
            forall|j: int|
                0 <= j < old(self).regions().len() ==> #[trigger] final(self).regions()[j] == if j
                    < count_below(old(self).regions(), page_num as int) {
                    old(self).regions()[j]
                } else {
                    *final(found@[j - count_below(old(self).regions(), page_num as int)])
                },
            same_spans(old(self).regions(), final(self).regions()) ==> final(self).wf(),
    ;

    /// The lowest entry with its pages, if anything is mapped.
    fn first_entry(&self) -> (first: Option<(PageRange, &VmmapEntry)>)
        requires
            self.wf(),
        ensures
            match first {
                Some(pair) => {
                    &&& self.regions().len() > 0
                    &&& *pair.1 == self.regions()[0]
                    &&& pair.0.start == pair.1.page_num
                    &&& pair.0.end == pair.1.end()
                },
                None => self.regions().len() == 0,
            },
    ;

    /// The highest entry with its pages, if anything is mapped.
    fn last_entry(&self) -> (last: Option<(PageRange, &VmmapEntry)>)
        requires
            self.wf(),
        ensures
            match last {
                Some(pair) => {
                    &&& self.regions().len() > 0
                    &&& *pair.1 == self.regions().last()
                    &&& pair.0.start == pair.1.page_num
                    &&& pair.0.end == pair.1.end()
                },
                None => self.regions().len() == 0,
            },
    ;

    /// All entries in ascending order. The vector can be walked from either
    /// end.
    fn double_ended_iter(&self) -> (all: Vec<&VmmapEntry>)
        requires
            self.wf(),
        ensures
            deref_all(all@) == self.regions(),
    ;

    /// All entries in ascending order, to be changed in place.
    ///
    /// Each stored entry ends as its reference leaves it. The address space
    /// stays well formed as long as every entry stays on its pages and may
    /// still be stored. What was remembered is forgotten.
    fn double_ended_iter_mut(&mut self) -> (all: Vec<&mut VmmapEntry>)
        requires
            old(self).wf(),
        ensures
            final(self).last_lookup() is None,
            final(self).regions().len() == old(self).regions().len(),
            all@.len() == old(self).regions().len(),
            forall|i: int| 0 <= i < all@.len() ==> *(#[trigger] all@[i]) == old(self).regions()[i],
            forall|i: int|
                #![trigger all@[i]]
                #![trigger final(self).regions()[i]]
                0 <= i < all@.len() ==> *final(all@[i]) == final(self).regions()[i],
            same_spans(old(self).regions(), final(self).regions()) ==> final(self).wf(),
    ;
}

} // verus!
