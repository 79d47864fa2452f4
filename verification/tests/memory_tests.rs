//! Tests of the memory subsystem: lazy physical areas, virtual areas, the
//! page table model and the address space container.

use maturin_core::constants::PAGE_SIZE;
use maturin_core::error::OSError;
use maturin_core::flags::{MMAPPROT, OpenFlags, PTEFlags, PROT_READ, PROT_WRITE};
use maturin_core::frame::FrameAllocator;
use maturin_core::memory_set::MemorySet;
use maturin_core::page_table::PageTable;
use maturin_core::pma::PmAreaLazy;
use maturin_core::time::{TimeSpec, NSEC_PER_SEC, UTIME_NOW, UTIME_OMIT};
use maturin_core::vma::VmArea;

fn rw_flags() -> PTEFlags {
    PTEFlags {
        valid: false,
        read: true,
        write: true,
        execute: false,
        user: true,
        accessed: false,
        dirty: false,
    }
}

fn make_allocator() -> FrameAllocator {
    FrameAllocator::new(16, 4096)
}

#[test]
fn lazy_pma_of_zero_pages_is_an_invalid_range() {
    match PmAreaLazy::new(0) {
        Err(e) => assert_eq!(e, OSError::PmArea_InvalidRange),
        Ok(_) => panic!("an empty physical area must be rejected"),
    }
}

#[test]
fn lazy_pma_too_large_is_out_of_memory() {
    match PmAreaLazy::new(usize::MAX / PAGE_SIZE) {
        Err(e) => assert_eq!(e, OSError::Memory_RunOutOfMemory),
        Ok(_) => panic!("an oversized physical area must be rejected"),
    }
}

#[test]
fn write_then_read_round_trips_across_a_page_boundary() {
    let mut a = make_allocator();
    let mut pma = PmAreaLazy::new(3).unwrap();
    let data: Vec<u8> = (0..200u8).collect();
    let offset = PAGE_SIZE - 100;
    let written = pma.write(offset, data.as_slice(), &mut a).unwrap();
    assert_eq!(written, 200);
    let mut out = vec![0u8; 200];
    let read = pma.read(offset, &mut out, &mut a).unwrap();
    assert_eq!(read, 200);
    assert_eq!(out, data);
}

#[test]
fn unbacked_pages_read_as_zeroes() {
    let mut a = make_allocator();
    let mut pma = PmAreaLazy::new(2).unwrap();
    let mut out = vec![7u8; 64];
    pma.read(PAGE_SIZE - 32, &mut out, &mut a).unwrap();
    assert_eq!(out, vec![0u8; 64]);
}

#[test]
fn out_of_range_access_is_rejected() {
    let mut a = make_allocator();
    let mut pma = PmAreaLazy::new(1).unwrap();
    let data = [1u8, 2, 3];
    assert_eq!(
        pma.write(PAGE_SIZE - 2, &data, &mut a),
        Err(OSError::PmArea_OutOfRange)
    );
    assert_eq!(pma.write(PAGE_SIZE, &[], &mut a), Err(OSError::PmArea_OutOfRange));
}

#[test]
fn demand_allocation_happens_exactly_once_per_page() {
    let mut a = FrameAllocator::new(0, 8);
    let mut pma = PmAreaLazy::new(2).unwrap();
    assert_eq!(pma.frame_paddr(0), None);
    let first = pma.get_frame(0, true, &mut a).unwrap().unwrap();
    let second = pma.get_frame(0, true, &mut a).unwrap().unwrap();
    assert_eq!(first, second);
    // only one frame left the allocator for the touched page
    let probe = pma.get_frame(1, true, &mut a).unwrap().unwrap();
    assert_eq!(probe, PAGE_SIZE);
}

#[test]
fn get_frame_without_alloc_leaves_the_page_unbacked() {
    let mut a = make_allocator();
    let mut pma = PmAreaLazy::new(1).unwrap();
    assert_eq!(pma.get_frame(0, false, &mut a), Ok(None));
    assert_eq!(pma.frame_paddr(0), None);
}

#[test]
fn exhausted_allocator_reports_out_of_memory() {
    let mut a = FrameAllocator::new(0, 0);
    let mut pma = PmAreaLazy::new(1).unwrap();
    assert_eq!(pma.get_frame(0, true, &mut a), Err(OSError::Memory_RunOutOfMemory));
}

#[test]
fn releasing_an_unallocated_lazy_page_is_a_tolerated_error() {
    let mut a = make_allocator();
    let mut pma = PmAreaLazy::new(3).unwrap();
    let bytes = [9u8; 8];
    pma.write(0, &bytes, &mut a).unwrap();
    pma.write(2 * PAGE_SIZE, &bytes, &mut a).unwrap();
    // the middle page was never touched
    assert_eq!(
        pma.release_frame(1),
        Err(OSError::PmAreaLazy_ReleaseNotAllocatedPage)
    );
    // allocated neighbours are untouched
    let mut out = vec![0u8; 8];
    pma.read(0, &mut out, &mut a).unwrap();
    assert_eq!(out, vec![9u8; 8]);
    pma.read(2 * PAGE_SIZE, &mut out, &mut a).unwrap();
    assert_eq!(out, vec![9u8; 8]);
    assert_eq!(pma.release_frame(0), Ok(()));
    assert_eq!(pma.release_frame(0), Err(OSError::PmAreaLazy_ReleaseNotAllocatedPage));
}

#[test]
fn vma_construction_aligns_and_checks_sizes() {
    let pma = PmAreaLazy::new(2).unwrap();
    let vma = VmArea::new(0x10_0100, 0x10_1200, rw_flags(), pma).unwrap();
    assert_eq!(vma.start, 0x10_0000);
    assert_eq!(vma.end, 0x10_2000);
    assert!(vma.contains(0x10_0000));
    assert!(vma.contains(0x10_1fff));
    assert!(!vma.contains(0x10_2000));

    let pma = PmAreaLazy::new(2).unwrap();
    match VmArea::new(0x2000, 0x2000, rw_flags(), pma) {
        Err(e) => assert_eq!(e, OSError::VmArea_InvalidRange),
        Ok(_) => panic!("an empty virtual range must be rejected"),
    }
    let pma = PmAreaLazy::new(3).unwrap();
    match VmArea::new(0x1000, 0x3000, rw_flags(), pma) {
        Err(e) => assert_eq!(e, OSError::VmArea_VmSizeNotEqualToPmSize),
        Ok(_) => panic!("a size mismatch must be rejected"),
    }
}

#[test]
fn from_delay_pma_builds_an_unbacked_area() {
    let vma = VmArea::from_delay_pma(0x4_0000, 3 * PAGE_SIZE, rw_flags()).unwrap();
    assert_eq!(vma.start, 0x4_0000);
    assert_eq!(vma.end, 0x4_0000 + 3 * PAGE_SIZE);
    assert_eq!(vma.pma.page_count(), 3);
    match VmArea::from_delay_pma(0x4_0000, 0, rw_flags()) {
        Err(e) => assert_eq!(e, OSError::PmArea_InvalidRange),
        Ok(_) => panic!("an empty area must be rejected"),
    }
}

#[test]
fn overlap_test_uses_the_aligned_closure() {
    let vma = VmArea::from_delay_pma(0x4_0000, 2 * PAGE_SIZE, rw_flags()).unwrap();
    assert!(vma.is_overlap_with(0x4_1fff, 0x4_2001));
    assert!(!vma.is_overlap_with(0x4_2000, 0x4_3000));
    assert!(vma.is_overlap_with(0x3_f000, 0x4_0001));
}

#[test]
fn map_area_installs_placeholders_for_unbacked_pages() {
    let mut a = make_allocator();
    let mut pt = PageTable::new();
    let mut vma = VmArea::from_delay_pma(0x10_0000, 2 * PAGE_SIZE, rw_flags()).unwrap();
    // back the first page only
    vma.pma.get_frame(0, true, &mut a).unwrap();
    vma.map_area(&mut pt).unwrap();
    let e0 = pt.get_entry(0x10_0000).unwrap();
    assert!(e0.is_valid());
    let e1 = pt.get_entry(0x10_1000).unwrap();
    assert!(!e1.is_valid());
    assert_eq!(e1.paddr, 0);
}

#[test]
fn page_fault_with_forbidden_access_is_denied_and_installs_nothing() {
    let mut a = make_allocator();
    let mut pt = PageTable::new();
    let mut flags = rw_flags();
    flags.write = false;
    let mut vma = VmArea::from_delay_pma(0x10_0000, PAGE_SIZE, flags).unwrap();
    vma.map_area(&mut pt).unwrap();
    let mut write_access = PTEFlags::empty();
    write_access.write = true;
    assert_eq!(
        vma.handle_page_fault(0, write_access, &mut pt, &mut a),
        Err(OSError::PageFaultHandler_AccessDenied)
    );
    // nothing was installed: the placeholder entry is still invalid
    assert!(!pt.get_entry(0x10_0000).unwrap().is_valid());
    assert_eq!(vma.pma.frame_paddr(0), None);
}

#[test]
fn page_fault_installs_the_mapping_and_refaulting_is_fatal() {
    let mut a = make_allocator();
    let mut pt = PageTable::new();
    let mut vma = VmArea::from_delay_pma(0x10_0000, 2 * PAGE_SIZE, rw_flags()).unwrap();
    vma.map_area(&mut pt).unwrap();
    let mut read_access = PTEFlags::empty();
    read_access.read = true;
    vma.handle_page_fault(PAGE_SIZE + 8, read_access, &mut pt, &mut a).unwrap();
    let e = pt.get_entry(0x10_1000).unwrap();
    assert!(e.is_valid());
    assert!(e.flags.accessed && e.flags.dirty);
    // a second fault at the now-valid page signals desynchronization
    assert_eq!(
        vma.handle_page_fault(PAGE_SIZE, read_access, &mut pt, &mut a),
        Err(OSError::PageFaultHandler_TrapAtValidPage)
    );
}

#[test]
fn manually_alloc_page_tolerates_a_valid_entry() {
    let mut a = make_allocator();
    let mut pt = PageTable::new();
    let mut vma = VmArea::from_delay_pma(0x10_0000, PAGE_SIZE, rw_flags()).unwrap();
    vma.map_area(&mut pt).unwrap();
    vma.manually_alloc_page(0, &mut pt, &mut a).unwrap();
    assert!(pt.get_entry(0x10_0000).unwrap().is_valid());
    // a second manual allocation is simply success
    vma.manually_alloc_page(0, &mut pt, &mut a).unwrap();
}

#[test]
fn fork_copy_duplicates_resident_pages_independently() {
    let mut a = make_allocator();
    let mut src = VmArea::from_delay_pma(0x20_0000, 4 * PAGE_SIZE, rw_flags()).unwrap();
    let d0 = [1u8; 16];
    let d1 = [2u8; 16];
    let d2 = [3u8; 16];
    src.pma.write(0, &d0, &mut a).unwrap();
    src.pma.write(PAGE_SIZE, &d1, &mut a).unwrap();
    src.pma.write(3 * PAGE_SIZE, &d2, &mut a).unwrap();
    let mut child = src.copy_to_new_area_with_data(&mut a).unwrap();
    assert_eq!(child.start, src.start);
    assert_eq!(child.end, src.end);
    // three resident pages, each independently owned with identical bytes
    assert!(child.pma.frame_paddr(0).is_some());
    assert!(child.pma.frame_paddr(1).is_some());
    assert!(child.pma.frame_paddr(2).is_none());
    assert!(child.pma.frame_paddr(3).is_some());
    assert_ne!(child.pma.frame_paddr(0), src.pma.frame_paddr(0));
    let mut out = vec![0u8; 16];
    child.pma.read(0, &mut out, &mut a).unwrap();
    assert_eq!(out, d0.to_vec());
    // writes to the parent after the fork do not affect the child
    src.pma.write(0, &[0xEEu8; 16], &mut a).unwrap();
    child.pma.read(0, &mut out, &mut a).unwrap();
    assert_eq!(out, d0.to_vec());
    child.pma.read(PAGE_SIZE, &mut out, &mut a).unwrap();
    assert_eq!(out, d1.to_vec());
}

#[test]
fn fork_copy_empty_shares_nothing() {
    let mut a = make_allocator();
    let mut src = VmArea::from_delay_pma(0x20_0000, 2 * PAGE_SIZE, rw_flags()).unwrap();
    src.pma.write(0, &[5u8; 4], &mut a).unwrap();
    let child = src.copy_to_new_area_empty().unwrap();
    assert!(child.pma.frame_paddr(0).is_none());
    assert!(child.pma.frame_paddr(1).is_none());
}

#[test]
fn split_partitions_range_and_frames() {
    let mut a = make_allocator();
    let mut vma = VmArea::from_delay_pma(0x30_0000, 3 * PAGE_SIZE, rw_flags()).unwrap();
    vma.pma.write(0, &[1u8; 4], &mut a).unwrap();
    vma.pma.write(2 * PAGE_SIZE, &[2u8; 4], &mut a).unwrap();
    let right = vma.split(0x30_1000);
    assert_eq!(vma.start, 0x30_0000);
    assert_eq!(vma.end, 0x30_1000);
    assert_eq!(right.start, 0x30_1000);
    assert_eq!(right.end, 0x30_3000);
    assert_eq!(vma.pma.page_count(), 1);
    assert_eq!(right.pma.page_count(), 2);
    assert!(vma.pma.frame_paddr(0).is_some());
    assert!(right.pma.frame_paddr(0).is_none());
    assert!(right.pma.frame_paddr(1).is_some());
}

#[test]
fn pma_shrink_drops_the_cut_frames() {
    let mut a = make_allocator();
    let mut pma = PmAreaLazy::new(4).unwrap();
    pma.write(0, &[7u8; 2], &mut a).unwrap();
    pma.write(3 * PAGE_SIZE, &[8u8; 2], &mut a).unwrap();
    pma.shrink_left(PAGE_SIZE).unwrap();
    assert_eq!(pma.page_count(), 3);
    assert!(pma.frame_paddr(2).is_some());
    pma.shrink_right(2 * PAGE_SIZE).unwrap();
    assert_eq!(pma.page_count(), 2);
    assert!(pma.frame_paddr(0).is_none());
}

#[test]
fn unmap_area_releases_frames_and_tolerates_unbacked_pages() {
    let mut a = make_allocator();
    let mut pt = PageTable::new();
    let mut vma = VmArea::from_delay_pma(0x40_0000, 2 * PAGE_SIZE, rw_flags()).unwrap();
    vma.pma.get_frame(0, true, &mut a).unwrap();
    vma.map_area(&mut pt).unwrap();
    vma.unmap_area(&mut pt).unwrap();
    assert!(pt.get_entry(0x40_0000).is_none());
    assert_eq!(vma.pma.frame_paddr(0), None);
    // the unbacked page's placeholder entry stays, as in a real unmap
    assert!(pt.get_entry(0x40_1000).is_some());
}

#[test]
fn modify_area_flags_touches_only_backed_pages() {
    let mut a = make_allocator();
    let mut pt = PageTable::new();
    let mut vma = VmArea::from_delay_pma(0x50_0000, 2 * PAGE_SIZE, rw_flags()).unwrap();
    vma.pma.get_frame(0, true, &mut a).unwrap();
    vma.map_area(&mut pt).unwrap();
    let mut ro = rw_flags();
    ro.write = false;
    vma.modify(ro, &mut pt).unwrap();
    let e0 = pt.get_entry(0x50_0000).unwrap();
    assert!(!e0.flags.write && e0.flags.read && e0.flags.valid);
    // the unbacked page's placeholder stays deferred and untouched
    let e1 = pt.get_entry(0x50_1000).unwrap();
    assert!(!e1.is_valid());
}

#[test]
fn msync_changes_nothing_on_a_lazy_area() {
    let mut a = make_allocator();
    let mut vma = VmArea::from_delay_pma(0x60_0000, 2 * PAGE_SIZE, rw_flags()).unwrap();
    vma.pma.write(0, &[3u8; 4], &mut a).unwrap();
    vma.msync(0x60_0000, 0x60_2000);
    let mut out = vec![0u8; 4];
    vma.pma.read(0, &mut out, &mut a).unwrap();
    assert_eq!(out, vec![3u8; 4]);
}

#[test]
fn memory_set_maps_reads_and_unmaps() {
    let mut a = make_allocator();
    let mut ms = MemorySet::new();
    let data = [1u8, 2, 3, 4];
    let base = ms.push_with_data(0x70_0000, 0x70_2000, rw_flags(), &data, &mut a).unwrap();
    assert_eq!(base, 0x70_0000);
    assert_eq!(ms.area_count(), 1);
    // an overlapping second mapping is refused
    assert_eq!(
        ms.push_with_data(0x70_1000, 0x70_3000, rw_flags(), &[], &mut a),
        Err(OSError::VmArea_InvalidRange)
    );
    // a range cutting the area in half is refused by unmap
    assert_eq!(ms.pop(0x70_0000, 0x70_1000), Err(OSError::VmArea_InvalidRange));
    // the full range unmaps cleanly
    ms.pop(0x70_0000, 0x70_2000).unwrap();
    assert_eq!(ms.area_count(), 0);
    // and the range is free again
    ms.push_with_data(0x70_1000, 0x70_2000, rw_flags(), &data, &mut a).unwrap();
}

#[test]
fn memory_set_fault_dispatch_finds_the_right_area() {
    let mut a = make_allocator();
    let mut ms = MemorySet::new();
    ms.push_with_data(0x70_0000, 0x70_1000, rw_flags(), &[], &mut a).unwrap();
    let mut read_access = PTEFlags::empty();
    read_access.read = true;
    assert_eq!(
        ms.handle_page_fault(0x90_0000, read_access, &mut a),
        Err(OSError::PageTable_PageNotMapped)
    );
    ms.handle_page_fault(0x70_0008, read_access, &mut a).unwrap();
}

#[test]
fn mmap_prot_bits_translate_to_pte_flags() {
    let prot = MMAPPROT { bits: PROT_READ | PROT_WRITE };
    let flags = prot.into_pte_flags();
    assert!(flags.user && flags.read && flags.write && !flags.execute);
    let none = MMAPPROT { bits: 0 };
    let f2 = none.into_pte_flags();
    assert!(f2.user && !f2.read && !f2.write && !f2.execute);
}

#[test]
fn open_flags_grant_read_write_permissions() {
    assert_eq!(OpenFlags { bits: 0 }.read_write(), (true, false));
    assert_eq!(OpenFlags { bits: 1 }.read_write(), (false, true));
    assert_eq!(OpenFlags { bits: 2 }.read_write(), (true, true));
}

#[test]
fn page_table_rejects_double_map_and_missing_unmap() {
    let mut pt = PageTable::new();
    let f = rw_flags();
    pt.map(0x1000, 0x8000_0000, f).unwrap();
    assert_eq!(pt.map(0x1000, 0x8000_1000, f), Err(OSError::PageTable_PageAlreadyMapped));
    assert_eq!(pt.unmap(0x2000), Err(OSError::PageTable_PageNotMapped));
    pt.unmap(0x1000).unwrap();
    assert!(pt.get_entry(0x1000).is_none());
    assert_eq!(pt.set_flags(0x1000, f), Err(OSError::PageTable_PageNotMapped));
}

#[test]
fn console_accepts_output() {
    maturin_core::console::print("");
    maturin_core::console::error_print("");
}

#[test]
fn stdio_streams_follow_their_directions() {
    let stdin = maturin_core::console::Stdin;
    let stdout = maturin_core::console::Stdout;
    let stderr = maturin_core::console::Stderr;
    let mut empty: Vec<u8> = vec![];
    assert_eq!(stdin.read(&mut empty), Some(0));
    assert_eq!(stdin.write(&vec![b'x']), None);
    let mut sink = vec![0u8; 4];
    assert_eq!(stdout.read(&mut sink), None);
    assert_eq!(stderr.read(&mut sink), None);
    assert_eq!(stdout.write(&vec![b'o', b'k', b'\n']), Some(3));
    // invalid UTF-8 is refused by the standard stream
    assert_eq!(stdout.write(&vec![0xff, 0xfe]), None);
    // but the error stream prints it as byte values
    assert_eq!(stderr.write(&vec![0xff, 0xfe]), Some(2));
}

#[test]
fn delete_key_echoes_as_rubout() {
    assert_eq!(maturin_core::console::echo_translation(127), vec![8, 32, 8]);
    assert_eq!(maturin_core::console::echo_translation(b'a'), vec![b'a']);
}

#[test]
fn time_values_add_with_carry() {
    let a = TimeSpec { tv_sec: 1, tv_nsec: 600_000_000 };
    let b = TimeSpec { tv_sec: 2, tv_nsec: 700_000_000 };
    let c = a.add(b);
    assert_eq!(c, TimeSpec { tv_sec: 4, tv_nsec: 300_000_000 });
    let d = TimeSpec { tv_sec: 0, tv_nsec: 1 }.add(TimeSpec { tv_sec: 0, tv_nsec: 2 });
    assert_eq!(d, TimeSpec { tv_sec: 0, tv_nsec: 3 });
    assert!(TimeSpec { tv_sec: 0, tv_nsec: UTIME_NOW }.should_set_to_current_time());
    assert!(TimeSpec { tv_sec: 0, tv_nsec: UTIME_OMIT }.should_left_unchanged());
    assert!(NSEC_PER_SEC == 1_000_000_000);
}
