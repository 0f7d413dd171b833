//! Virtual-address-space tracking for one cage.
//!
//! A [`Vmmap`] records which page ranges of an address space are mapped, with
//! what protection and backing. The regions live in an ordered interval map;
//! every operation is specified over the ascending sequence of stored entries
//! and over the entry that holds a given page.

pub mod access;
pub mod changes;
pub mod constants;
pub mod gaps;
pub mod interval_map;
pub mod regions;
pub mod store;
pub mod types;
pub mod vmmap;
pub mod vmmap_entries;

pub use crate::types::{MemoryBackingType, PageRange, VmmapEntry, VmmapError, VmmapOps};
pub use crate::vmmap::Vmmap;
