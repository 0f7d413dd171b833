use nodit::interval::ie;
use vmmap::constants::{PROT_EXEC, PROT_READ, PROT_WRITE};
use vmmap::{MemoryBackingType, Vmmap, VmmapEntry, VmmapOps};

fn create_invalid_vmmap_entry() -> VmmapEntry {
    // An entry of zero pages can be built but not stored.
    VmmapEntry::new(0, 0, 0, 0, 0, false, 0, 0, 1, MemoryBackingType::Anonymous)
}

fn create_default_vmmap_entry() -> VmmapEntry {
    VmmapEntry::new(0, 10, 0, 0, 0, false, 0, 0, 1, MemoryBackingType::Anonymous)
}

fn add(vmmap: &mut Vmmap, page_num: u32, npages: u32, prot: i32) {
    let entry = create_default_vmmap_entry();
    let result = vmmap.add_entry_with_override(
        page_num,
        npages,
        prot,
        PROT_READ | PROT_WRITE,
        entry.flags,
        entry.backing,
        entry.file_offset,
        entry.file_size,
        entry.cage_id,
    );
    assert!(result.is_ok());
}

fn add_initial_entry(vmmap: &mut Vmmap) {
    let mut vmmap_entry = create_default_vmmap_entry();
    vmmap_entry.page_num = 0;
    vmmap_entry.npages = 10;
    vmmap_entry.prot = PROT_READ;
    vmmap_entry.maxprot = PROT_READ | PROT_WRITE;

    let add_result = vmmap.add_entry_with_override(
        vmmap_entry.page_num,
        vmmap_entry.npages,
        vmmap_entry.prot,
        vmmap_entry.maxprot,
        vmmap_entry.flags,
        vmmap_entry.backing,
        vmmap_entry.file_offset,
        vmmap_entry.file_size,
        vmmap_entry.cage_id,
    );
    assert!(add_result.is_ok(), "Failed to add initial entry");
}

fn range_at(vmmap: &Vmmap, page_num: u32) -> Option<(u32, u32)> {
    vmmap.find_page(page_num).map(|entry| (entry.page_num, entry.npages))
}

#[test]
fn test_vmmap_new() {
    let vmmap = Vmmap::new();
    assert!(vmmap.entries.is_empty());
}

#[test]
fn test_vmmap_creation() {
    let vmmap = Vmmap::new();
    assert!(vmmap.entries.is_empty());
}

fn add_if_free(vmmap: &mut Vmmap, entry: VmmapEntry) -> bool {
    // Storing on mapped pages is not allowed: look before storing.
    let free = !vmmap.entries.overlaps(ie(entry.page_num, entry.page_num + entry.npages));
    if free {
        vmmap.add_entry(entry);
    }
    free
}

#[test]
fn tests() {
    let mut vmmap = Vmmap::new();

    // A valid entry is stored.
    let entry =
        VmmapEntry::new(0, 100, PROT_READ | PROT_WRITE, 0, 0, false, 0, 0, 0, MemoryBackingType::Anonymous);
    assert!(add_if_free(&mut vmmap, entry));
    assert_eq!(vmmap.entries.len(), 1);

    // An entry on mapped pages is not.
    let overlapping_entry =
        VmmapEntry::new(50, 150, PROT_READ, 0, 0, false, 0, 0, 0, MemoryBackingType::Anonymous);
    assert!(!add_if_free(&mut vmmap, overlapping_entry));
    assert_eq!(vmmap.entries.len(), 1);
    assert_eq!(vmmap.find_page(50), Some(&entry));

    // An entry right behind the first is.
    let adjacent_entry =
        VmmapEntry::new(100, 200, PROT_READ, 0, 0, false, 0, 0, 0, MemoryBackingType::Anonymous);
    assert!(add_if_free(&mut vmmap, adjacent_entry));
    assert_eq!(vmmap.entries.len(), 2);

    // Protection bits are carried as they are: nothing here reads them.
    let odd_prot_entry =
        VmmapEntry::new(300, 400, 0xFF, 0, 0, false, 0, 0, 0, MemoryBackingType::Anonymous);
    assert!(add_if_free(&mut vmmap, odd_prot_entry));
    assert_eq!(vmmap.entries.len(), 3);
    assert_eq!(vmmap.find_page(300).unwrap().prot, 0xFF);
}

#[test]
fn test_add_valid_vmmap_entry() {
    let mut vmmap = Vmmap::new();
    assert!(vmmap.entries.is_empty());

    // trying to add invalid entry should fail
    let invalid_vmmap_entry = create_invalid_vmmap_entry();

    let add_invalid_vmmap_entry = vmmap.add_entry_with_override(
        invalid_vmmap_entry.page_num,
        invalid_vmmap_entry.npages,
        invalid_vmmap_entry.prot,
        invalid_vmmap_entry.maxprot,
        invalid_vmmap_entry.flags,
        invalid_vmmap_entry.backing,
        invalid_vmmap_entry.file_offset,
        invalid_vmmap_entry.file_size,
        invalid_vmmap_entry.cage_id,
    );

    assert!(add_invalid_vmmap_entry.is_err());

    // add proper entry
    let vmmap_entry_0_10 = create_default_vmmap_entry();

    let add_vmmap_entry = vmmap.add_entry_with_override(
        vmmap_entry_0_10.page_num,
        vmmap_entry_0_10.npages,
        vmmap_entry_0_10.prot,
        vmmap_entry_0_10.maxprot,
        vmmap_entry_0_10.flags,
        vmmap_entry_0_10.backing,
        vmmap_entry_0_10.file_offset,
        vmmap_entry_0_10.file_size,
        vmmap_entry_0_10.cage_id,
    );

    assert!(add_vmmap_entry.is_ok());
    assert_eq!(vmmap.entries.len(), 1);
    assert_eq!(vmmap.entries.get_at_point(0), Some(&vmmap_entry_0_10));
    assert_eq!(vmmap.entries.get_at_point(10), None);
    assert!(vmmap.entries.contains_interval(ie(0, 10)));

    let mut vmmap_entry_5_10 = create_default_vmmap_entry();
    vmmap_entry_5_10.page_num = 5;
    vmmap_entry_5_10.npages = 3;

    let add_overwritten_vmmap_entry = vmmap.add_entry_with_override(
        vmmap_entry_5_10.page_num,
        vmmap_entry_5_10.npages,
        vmmap_entry_5_10.prot,
        vmmap_entry_5_10.maxprot,
        vmmap_entry_5_10.flags,
        vmmap_entry_5_10.backing,
        vmmap_entry_5_10.file_offset,
        vmmap_entry_5_10.file_size,
        vmmap_entry_5_10.cage_id,
    );

    // What is left of the first entry is cut back to its own pages; the part
    // behind the new entry keeps its place in the backing store.
    let mut vmmap_entry_0_5 = create_default_vmmap_entry();
    vmmap_entry_0_5.npages = 5;
    let mut vmmap_entry_8_10 = create_default_vmmap_entry();
    vmmap_entry_8_10.page_num = 8;
    vmmap_entry_8_10.npages = 2;
    vmmap_entry_8_10.file_offset = 8 * 4096;

    assert!(add_overwritten_vmmap_entry.is_ok());
    assert_eq!(vmmap.entries.len(), 3);
    assert_eq!(vmmap.entries.get_at_point(0), Some(&vmmap_entry_0_5));
    assert_eq!(vmmap.entries.get_at_point(5), Some(&vmmap_entry_5_10));
    assert_eq!(vmmap.entries.get_at_point(8), Some(&vmmap_entry_8_10));
    assert_eq!(vmmap.entries.get_at_point(10), None);
    // just checks to see if all values in range are allocated
    assert!(vmmap.entries.contains_interval(ie(0, 10)));
}

#[test]
fn test_remove_vmmap_entry() {
    let mut vmmap = Vmmap::new();
    let vmmap_entry = create_default_vmmap_entry();

    let add_vmmap_entry = vmmap.add_entry_with_override(
        vmmap_entry.page_num,
        vmmap_entry.npages,
        vmmap_entry.prot,
        vmmap_entry.maxprot,
        vmmap_entry.flags,
        vmmap_entry.backing,
        vmmap_entry.file_offset,
        vmmap_entry.file_size,
        vmmap_entry.cage_id,
    );
    assert!(add_vmmap_entry.is_ok());

    // removing pages that are not mapped is no error
    let remove_non_existant = vmmap.remove_entry(11, 1);
    assert!(remove_non_existant.is_ok());
}

#[test]
fn test_change_prot_within_maxprot() {
    let mut vmmap = Vmmap::new();
    add_initial_entry(&mut vmmap);

    // The new protection stays within the maximum of what is mapped there,
    // so the change may be made.
    let change_allowed = vmmap.check_existing_mapping(0, 5, PROT_READ | PROT_WRITE);
    assert!(change_allowed, "Failed to change protection within maxprot");
    vmmap.change_prot(0, 5, PROT_READ | PROT_WRITE);

    let changed_entry = vmmap.entries.get_at_point(0).unwrap();
    assert_eq!(
        changed_entry.prot,
        PROT_READ | PROT_WRITE,
        "Protection not changed as expected"
    );
    assert_eq!(changed_entry.npages, 5, "Number of pages changed unexpectedly");
}

#[test]
fn test_change_prot_beyond_maxprot() {
    let mut vmmap = Vmmap::new();
    add_initial_entry(&mut vmmap);

    // A protection beyond the maximum is caught by the check that comes
    // before a change.
    let change_allowed = vmmap.check_existing_mapping(5, 5, PROT_READ | PROT_WRITE | PROT_EXEC);
    assert!(!change_allowed, "Changing protection beyond maxprot should fail");
}

#[test]
fn test_change_prot_non_existent_range() {
    let mut vmmap = Vmmap::new();
    add_initial_entry(&mut vmmap);

    // Nothing is mapped on the range: the check that comes before a change
    // fails, and a change touches nothing.
    let change_allowed = vmmap.check_existing_mapping(20, 5, PROT_READ);
    assert!(!change_allowed, "Changing protection for non-existent range should fail");
    vmmap.change_prot(20, 5, PROT_READ);
    assert_eq!(vmmap.entries.len(), 1);
    assert_eq!(range_at(&vmmap, 0), Some((0, 10)));
    assert_eq!(vmmap.entries.get_at_point(20), None);
}

#[test]
fn test_change_prot_across_multiple_entries() {
    let mut vmmap = Vmmap::new();
    add_initial_entry(&mut vmmap);
    add(&mut vmmap, 10, 5, PROT_READ);

    let change_allowed = vmmap.check_existing_mapping(8, 4, PROT_READ | PROT_WRITE);
    assert!(change_allowed, "Failed to change protection across multiple entries");
    vmmap.change_prot(8, 4, PROT_READ | PROT_WRITE);

    // Each of the two entries is split at the edge of the range.
    assert_eq!(
        vmmap.entries.len(),
        4,
        "Unexpected number of entries after multi-entry change"
    );
    assert_eq!(
        vmmap.entries.get_at_point(8).unwrap().prot,
        PROT_READ | PROT_WRITE,
        "Protection not changed as expected for first affected entry"
    );
    assert_eq!(
        vmmap.entries.get_at_point(10).unwrap().prot,
        PROT_READ | PROT_WRITE,
        "Protection not changed as expected for second affected entry"
    );
    assert_eq!(vmmap.entries.get_at_point(7).unwrap().prot, PROT_READ);
    assert_eq!(vmmap.entries.get_at_point(12).unwrap().prot, PROT_READ);
}

#[test]
fn test_remove_entire_entry() {
    let mut vmmap = Vmmap::new();
    let vmmap_entry = create_default_vmmap_entry();

    let add_result = vmmap.add_entry_with_override(
        vmmap_entry.page_num,
        vmmap_entry.npages,
        vmmap_entry.prot,
        vmmap_entry.maxprot,
        vmmap_entry.flags,
        vmmap_entry.backing,
        vmmap_entry.file_offset,
        vmmap_entry.file_size,
        vmmap_entry.cage_id,
    );
    assert!(add_result.is_ok(), "Failed to add initial entry");

    let remove_result = vmmap.remove_entry(0, 10);
    assert!(remove_result.is_ok(), "Failed to remove entire entry");
    assert!(
        vmmap.entries.is_empty(),
        "Vmmap should be empty after removing the only entry"
    );
}

#[test]
fn test_remove_portion_of_entry() {
    let mut vmmap = Vmmap::new();
    add(&mut vmmap, 0, 10, PROT_READ);
    add(&mut vmmap, 10, 10, PROT_READ);
    add(&mut vmmap, 20, 10, PROT_READ);

    let partial_remove_result = vmmap.remove_entry(5, 10);
    assert!(partial_remove_result.is_ok(), "Failed to remove portion of entries");
    assert_eq!(vmmap.entries.len(), 3, "Expected 3 entries after partial removal");
    assert_eq!(
        vmmap.entries.get_at_point(0).unwrap().npages,
        5,
        "First entry should be truncated"
    );
    assert_eq!(
        vmmap.entries.get_at_point(15).unwrap().npages,
        5,
        "Last entry should be truncated"
    );
}

#[test]
fn test_remove_across_multiple_entries() {
    let mut vmmap = Vmmap::new();
    add(&mut vmmap, 0, 10, PROT_READ);
    add(&mut vmmap, 10, 10, PROT_READ);
    add(&mut vmmap, 20, 10, PROT_READ);

    let multi_remove_result = vmmap.remove_entry(2, 18);
    assert!(multi_remove_result.is_ok(), "Failed to remove across multiple entries");
    assert_eq!(
        vmmap.entries.len(),
        2,
        "Expected 2 entries after removal across multiple entries"
    );
    assert_eq!(
        vmmap.entries.get_at_point(0).unwrap().npages,
        2,
        "First entry should be truncated"
    );
    assert_eq!(
        vmmap.entries.get_at_point(20).unwrap().npages,
        10,
        "Last entry should remain unchanged"
    );
}

#[test]
fn test_remove_non_existent_range() {
    let mut vmmap = Vmmap::new();
    add(&mut vmmap, 0, 10, PROT_READ);

    // Unmapping is done as far as there is something to unmap.
    let non_existent_remove = vmmap.remove_entry(50, 10);
    assert!(non_existent_remove.is_ok());
    assert_eq!(vmmap.entries.len(), 1);
    assert_eq!(vmmap.entries.get_at_point(0).unwrap().npages, 10);
}

#[test]
fn test_remove_with_invalid_input() {
    let mut vmmap = Vmmap::new();
    add(&mut vmmap, 0, 10, PROT_READ);

    let invalid_remove = vmmap.remove_entry(10, 0);
    assert!(invalid_remove.is_err(), "Removing with invalid input should fail");
}

#[test]
fn test_check_existing_mapping() {
    let mut vmmap = Vmmap::new();
    add(&mut vmmap, 0, 10, PROT_READ);

    // A range inside the entry.
    assert!(vmmap.check_existing_mapping(2, 5, PROT_READ), "Should detect existing mapping");
    assert_eq!(range_at(&vmmap, 2), Some((0, 10)), "Should return correct existing mapping range");

    // A range that starts in the entry and runs out of it is not mapped as a
    // whole, though its first page is.
    assert!(!vmmap.check_existing_mapping(0, 15, PROT_READ));
    assert_eq!(range_at(&vmmap, 0), Some((0, 10)), "Should return correct existing mapping range");
    assert!(!vmmap.check_existing_mapping(5, 10, PROT_READ));
    assert_eq!(range_at(&vmmap, 5), Some((0, 10)), "Should return correct existing mapping range");

    // The very pages of the entry.
    assert!(vmmap.check_existing_mapping(0, 10, PROT_READ), "Should detect existing mapping");
    assert_eq!(range_at(&vmmap, 0), Some((0, 10)), "Should return correct existing mapping range");

    // Ranges behind the entry.
    assert!(!vmmap.check_existing_mapping(15, 5, PROT_READ), "Should not detect existing mapping");
    assert!(!vmmap.check_existing_mapping(11, 5, PROT_READ), "Should not detect existing mapping");

    add(&mut vmmap, 20, 10, PROT_READ);

    // A range over two entries and the hole between them.
    assert!(!vmmap.check_existing_mapping(5, 20, PROT_READ));
    assert_eq!(range_at(&vmmap, 5), Some((0, 10)), "Should return first overlapping mapping range");
}

#[test]
fn test_check_existing_mapping_edge_cases() {
    let mut vmmap = Vmmap::new();
    add(&mut vmmap, 0, 10, PROT_READ);
    add(&mut vmmap, 20, 10, PROT_READ);

    // From the end of one entry to the start of the next.
    assert!(
        !vmmap.check_existing_mapping(10, 10, PROT_READ),
        "Should not detect existing mapping in gap between entries"
    );

    // One unmapped page in front of an entry, or behind one.
    assert!(!vmmap.check_existing_mapping(19, 2, PROT_READ));
    assert_eq!(range_at(&vmmap, 20), Some((20, 10)), "Should return correct existing mapping range");
    assert!(!vmmap.check_existing_mapping(9, 2, PROT_READ));
    assert_eq!(range_at(&vmmap, 9), Some((0, 10)), "Should return correct existing mapping range");

    // No pages at all.
    assert!(
        !vmmap.check_existing_mapping(5, 0, PROT_READ),
        "Should not detect existing mapping for zero length"
    );

    // The first page of the first entry, the last page of the last.
    assert!(vmmap.check_existing_mapping(0, 1, PROT_READ), "Should detect existing mapping");
    assert_eq!(range_at(&vmmap, 0), Some((0, 10)), "Should return correct existing mapping range");
    assert!(vmmap.check_existing_mapping(29, 1, PROT_READ), "Should detect existing mapping");
    assert_eq!(range_at(&vmmap, 29), Some((20, 10)), "Should return correct existing mapping range");

    // Both entries and the hole.
    assert!(!vmmap.check_existing_mapping(0, 30, PROT_READ));
    assert_eq!(range_at(&vmmap, 0), Some((0, 10)), "Should return first overlapping mapping range");
}

#[test]
fn test_check_existing_mapping_empty_vmmap() {
    let vmmap = Vmmap::new();
    assert!(
        !vmmap.check_existing_mapping(0, 10, PROT_READ),
        "Should not detect existing mapping in empty Vmmap"
    );
}

#[test]
fn test_check_existing_mapping_large_values() {
    let mut vmmap = Vmmap::new();
    add(&mut vmmap, 1_000_000, 1000, PROT_READ);

    // One page too many on either side.
    assert!(!vmmap.check_existing_mapping(999_999, 1002, PROT_READ));
    assert!(vmmap.check_existing_mapping(1_000_000, 1000, PROT_READ), "Should detect existing mapping");
    assert_eq!(
        range_at(&vmmap, 1_000_000),
        Some((1_000_000, 1000)),
        "Should return correct existing mapping range"
    );

    assert!(
        !vmmap.check_existing_mapping(2_000_000, 1_000_000, PROT_READ),
        "Should not detect existing mapping for non-overlapping large range"
    );
}

#[test]
fn test_check_addr_mapping() {
    let mut vmmap = Vmmap::new();
    add(&mut vmmap, 0, 10, PROT_READ);
    add(&mut vmmap, 20, 10, PROT_READ | PROT_WRITE);

    // A page in the first entry.
    let result = vmmap.check_addr_mapping(5, 1, PROT_READ);
    assert!(result.is_some(), "Should detect mapping for address within first entry");
    assert_eq!(result.unwrap(), 10);
    assert_eq!(vmmap.cached_entry.unwrap().page_num, 0, "Should return correct start page for first entry");
    assert_eq!(vmmap.cached_entry.unwrap().npages, 10, "Should return correct number of pages for first entry");

    // A page in the second entry.
    let result = vmmap.check_addr_mapping(25, 1, PROT_READ);
    assert!(result.is_some(), "Should detect mapping for address within second entry");
    assert_eq!(result.unwrap(), 30);
    assert_eq!(vmmap.cached_entry.unwrap().page_num, 20, "Should return correct start page for second entry");
    assert_eq!(vmmap.cached_entry.unwrap().npages, 10, "Should return correct number of pages for second entry");

    // The first page of an entry.
    let result = vmmap.check_addr_mapping(20, 1, PROT_READ);
    assert!(result.is_some(), "Should detect mapping for address at start of entry");
    assert_eq!(result.unwrap(), 30);
    assert_eq!(vmmap.cached_entry.unwrap().page_num, 20, "Should return correct start page");
    assert_eq!(vmmap.cached_entry.unwrap().npages, 10, "Should return correct number of pages");

    // The last page of an entry.
    let result = vmmap.check_addr_mapping(9, 1, PROT_READ);
    assert!(result.is_some(), "Should detect mapping for address at end of entry");
    assert_eq!(result.unwrap(), 10);
    assert_eq!(vmmap.cached_entry.unwrap().page_num, 0, "Should return correct start page");
    assert_eq!(vmmap.cached_entry.unwrap().npages, 10, "Should return correct number of pages");

    // A page in the hole.
    let result = vmmap.check_addr_mapping(15, 1, PROT_READ);
    assert!(result.is_none(), "Should not detect mapping for address in gap");

    // The last page number there is.
    let result = vmmap.check_addr_mapping(u32::MAX, 1, PROT_READ);
    assert!(result.is_none(), "Should not detect mapping for address before first entry");

    // The page behind the last entry.
    let result = vmmap.check_addr_mapping(30, 1, PROT_READ);
    assert!(result.is_none(), "Should not detect mapping for address after last entry");
}

#[test]
fn test_check_addr_mapping_empty_vmmap() {
    let mut vmmap = Vmmap::new();
    let result = vmmap.check_addr_mapping(0, 1, PROT_READ);
    assert!(result.is_none(), "Should not detect mapping in empty Vmmap");
}

#[test]
fn test_check_addr_mapping_large_values() {
    let mut vmmap = Vmmap::new();
    add(&mut vmmap, 1_000_000, 1000, PROT_READ);

    let result = vmmap.check_addr_mapping(1_000_500, 1, PROT_READ);
    assert!(result.is_some(), "Should detect mapping for address within large entry");
    assert_eq!(result.unwrap(), 1_001_000);
    assert_eq!(vmmap.cached_entry.unwrap().page_num, 1_000_000, "Should return correct start page for large entry");
    assert_eq!(vmmap.cached_entry.unwrap().npages, 1000, "Should return correct number of pages for large entry");

    let result = vmmap.check_addr_mapping(999_999, 1, PROT_READ);
    assert!(result.is_none(), "Should not detect mapping for address just before large entry");

    let result = vmmap.check_addr_mapping(1_001_000, 1, PROT_READ);
    assert!(result.is_none(), "Should not detect mapping for address just after large entry");
}

#[test]
fn test_find_page_basic() {
    let mut vmmap = Vmmap::new();
    add(&mut vmmap, 0, 10, PROT_READ);

    let result = vmmap.find_page(5);
    assert!(result.is_some(), "Should find page within entry");
    assert_eq!(result.unwrap().page_num, 0, "Should return correct start page");
    assert_eq!(result.unwrap().npages, 10, "Should return correct number of pages");

    let result = vmmap.find_page(0);
    assert!(result.is_some(), "Should find first page of entry");
    assert_eq!(result.unwrap().page_num, 0, "Should return correct start page");
    assert_eq!(result.unwrap().npages, 10, "Should return correct number of pages");

    let result = vmmap.find_page(9);
    assert!(result.is_some(), "Should find last page of entry");
    assert_eq!(result.unwrap().page_num, 0, "Should return correct start page");
    assert_eq!(result.unwrap().npages, 10, "Should return correct number of pages");

    let result = vmmap.find_page(10);
    assert!(result.is_none(), "Should not find page outside entry");
}

#[test]
fn test_find_page_multiple_entries() {
    let mut vmmap = Vmmap::new();
    add(&mut vmmap, 0, 10, PROT_READ);
    add(&mut vmmap, 20, 10, PROT_READ);

    let result = vmmap.find_page(5);
    assert!(result.is_some(), "Should find page in first entry");
    assert_eq!(result.unwrap().page_num, 0, "Should return correct start page for first entry");
    assert_eq!(result.unwrap().npages, 10, "Should return correct number of pages for first entry");

    let result = vmmap.find_page(25);
    assert!(result.is_some(), "Should find page in second entry");
    assert_eq!(result.unwrap().page_num, 20, "Should return correct start page for second entry");
    assert_eq!(result.unwrap().npages, 10, "Should return correct number of pages for second entry");

    let result = vmmap.find_page(15);
    assert!(result.is_none(), "Should not find page in gap between entries");
}

#[test]
fn test_find_page_empty_vmmap() {
    let vmmap = Vmmap::new();
    let result = vmmap.find_page(0);
    assert!(result.is_none(), "Should not find page in empty Vmmap");
}

#[test]
fn test_find_page_large_values() {
    let mut vmmap = Vmmap::new();
    add(&mut vmmap, 1_000_000, 1000, PROT_READ);

    let result = vmmap.find_page(1_000_500);
    assert!(result.is_some(), "Should find page within large entry");
    assert_eq!(result.unwrap().page_num, 1_000_000, "Should return correct start page for large entry");
    assert_eq!(result.unwrap().npages, 1000, "Should return correct number of pages for large entry");

    let result = vmmap.find_page(999_999);
    assert!(result.is_none(), "Should not find page just before large entry");

    let result = vmmap.find_page(1_001_000);
    assert!(result.is_none(), "Should not find page just after large entry");
}

#[test]
fn test_find_page_mut() {
    let mut vmmap = Vmmap::new();
    add(&mut vmmap, 0, 10, PROT_READ);
    add(&mut vmmap, 20, 10, PROT_READ);

    let result = vmmap.find_page_mut(5);
    assert!(result.is_some(), "Should find page in first entry");
    if let Some(entry) = result {
        entry.prot = PROT_WRITE;
    }
    assert_eq!(
        vmmap.entries.get_at_point(5).unwrap().prot,
        PROT_WRITE,
        "Protection should be changed"
    );

    let result = vmmap.find_page_mut(15);
    assert!(result.is_none(), "Should not find page in gap between entries");

    let result = vmmap.find_page_mut(30);
    assert!(result.is_none(), "Should not find page outside of any entry");
}

#[test]
fn test_find_page_iter() {
    let mut vmmap = Vmmap::new();
    add(&mut vmmap, 0, 10, PROT_READ);
    add(&mut vmmap, 20, 10, PROT_WRITE);

    let found = vmmap.find_page_iter(0);
    let mut iter = found.iter();
    assert_eq!(iter.next().unwrap().prot, PROT_READ, "First entry should have READ protection");
    assert_eq!(iter.next().unwrap().prot, PROT_WRITE, "Second entry should have WRITE protection");
    assert!(iter.next().is_none(), "Iterator should be exhausted");

    let found = vmmap.find_page_iter(5);
    let mut iter = found.iter();
    assert_eq!(iter.next().unwrap().prot, PROT_READ, "Should start from first entry");
    assert_eq!(iter.next().unwrap().prot, PROT_WRITE, "Should continue to second entry");
    assert!(iter.next().is_none(), "Iterator should be exhausted");

    let found = vmmap.find_page_iter(15);
    let mut iter = found.iter();
    assert_eq!(iter.next().unwrap().prot, PROT_WRITE, "Should start from second entry");
    assert!(iter.next().is_none(), "Iterator should be exhausted");
}

#[test]
fn test_find_page_iter_mut() {
    let mut vmmap = Vmmap::new();
    add(&mut vmmap, 0, 10, PROT_READ);
    add(&mut vmmap, 20, 10, PROT_WRITE);

    let mut iter = vmmap.find_page_iter_mut(0).into_iter();
    if let Some(entry) = iter.next() {
        entry.prot = PROT_READ | PROT_WRITE;
    }
    if let Some(entry) = iter.next() {
        entry.prot = PROT_READ;
    }

    assert_eq!(
        vmmap.entries.get_at_point(0).unwrap().prot,
        PROT_READ | PROT_WRITE,
        "First entry should be modified"
    );
    assert_eq!(
        vmmap.entries.get_at_point(20).unwrap().prot,
        PROT_READ,
        "Second entry should be modified"
    );

    let mut iter = vmmap.find_page_iter_mut(5).into_iter();
    assert!(iter.next().is_some(), "Should return first entry");
    assert!(iter.next().is_some(), "Should return second entry");
    assert!(iter.next().is_none(), "Iterator should be exhausted");

    let mut iter = vmmap.find_page_iter_mut(15).into_iter();
    assert!(iter.next().is_some(), "Should return second entry");
    assert!(iter.next().is_none(), "Iterator should be exhausted");
}
