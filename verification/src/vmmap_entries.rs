//! Building and cutting entries.

use vstd::prelude::*;
use crate::constants::PAGESIZE;
use crate::types::{MemoryBackingType, VmmapEntry};

verus! {

impl VmmapEntry {
    /// Puts the fields together as given. Nothing is checked here: whether an
    /// entry may be stored is decided where it is inserted.
    pub fn new(
        page_num: u32,
        npages: u32,
        prot: i32,
        maxprot: i32,
        flags: i32,
        removed: bool,
        file_offset: i64,
        file_size: i64,
        cage_id: u64,
        backing: MemoryBackingType,
    ) -> (entry: Self)
        ensures
            entry == (VmmapEntry {
                page_num,
                npages,
                prot,
                maxprot,
                flags,
                removed,
                file_offset,
                file_size,
                cage_id,
                backing,
            }),
    {
        VmmapEntry {
            page_num,
            npages,
            prot,
            maxprot,
            flags,
            removed,
            file_offset,
            file_size,
            cage_id,
            backing,
        }
    }

    /// The part of a stored region on the pages `[start, end)`.
    pub fn part(&self, start: u32, end: u32) -> (piece: VmmapEntry)
        requires
            self.storable(),
            self.page_num <= start < end <= self.end(),
        ensures
            piece == self.slice(start as int, end as int),
            piece.storable(),
    {
        let skipped: u32 = start - self.page_num;
        assert(skipped * PAGESIZE <= self.npages * PAGESIZE) by (nonlinear_arith)
            requires
                skipped <= self.npages,
                PAGESIZE == 4096,
        ;
        assert((end - start) * PAGESIZE + skipped * PAGESIZE <= self.npages * PAGESIZE)
            by (nonlinear_arith)
            requires
                (end - start) + skipped <= self.npages,
                PAGESIZE == 4096,
        ;
        let advance: i64 = (skipped as i64) * PAGESIZE;
        VmmapEntry {
            page_num: start,
            npages: end - start,
            prot: self.prot,
            maxprot: self.maxprot,
            flags: self.flags,
            removed: self.removed,
            file_offset: self.file_offset + advance,
            file_size: self.file_size,
            cage_id: self.cage_id,
            backing: self.backing,
        }
    }
}

} // verus!
