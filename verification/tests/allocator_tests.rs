use frida_asan::allocator::Allocator;
use frida_asan::asan_rt::AsanRuntime;
use frida_asan::errors::{AsanError, AsanErrorKind, AsanErrors};
use frida_asan::options::FuzzerOptions;

fn test_options() -> FuzzerOptions {
    FuzzerOptions {
        harness: None,
        harness_function: String::from("LLVMFuzzerTestOneInput"),
        libs_to_instrument: Vec::new(),
        dont_instrument: Vec::new(),
        cmplog: false,
        asan: true,
        disable_coverage: false,
        max_allocation: 1 << 30,
        max_allocation_panics: false,
        max_total_allocation: 1 << 32,
        allocation_backtraces: false,
    }
}

fn occupied() -> Vec<(u64, u64)> {
    vec![(0x10000, 0x7fff_0000_0000)]
}

fn test_allocator() -> Allocator {
    Allocator::new(test_options(), 4096, occupied()).expect("no shadow window found")
}

#[test]
fn shadow_bit_probe_picks_first_free_window() {
    let a = test_allocator();
    assert_eq!(a.shadow_bit(), 47);
    assert_eq!(a.shadow_offset, 1u64 << 47);
    assert_eq!(a.base_mapping_addr, 1u64 << 48);
}

#[test]
fn probe_fails_without_any_window() {
    // every candidate window intersects this huge occupied range
    let a = Allocator::new(test_options(), 4096, vec![(0x1000, u64::MAX >> 1)]);
    assert!(a.is_none());
}

#[test]
fn live_allocation_is_checkable_and_fenced() {
    let mut a = test_allocator();
    let p = a.allocate(64, 8);
    assert_ne!(p, 0);
    assert!(a.check_shadow(p, 64));
    assert!(!a.check_shadow(p - 1, 1));
    assert!(!a.check_shadow(p + 64, 1));
    assert!(!a.check_shadow(p, 65));
}

#[test]
fn unaligned_sizes_are_fenced_to_the_byte() {
    let mut a = test_allocator();
    let p = a.allocate(13, 8);
    assert_ne!(p, 0);
    assert!(a.check_shadow(p, 13));
    assert!(a.check_shadow(p + 5, 8));
    assert!(!a.check_shadow(p + 13, 1));
    assert!(!a.check_shadow(p, 14));
    assert!(!a.check_shadow(p - 1, 2));
}

#[test]
fn zero_size_allocation_served_as_stub() {
    let mut a = test_allocator();
    let p = a.allocate(0, 8);
    assert_ne!(p, 0);
    let m = a.allocations.get(p).unwrap();
    assert!(m.is_malloc_zero);
    assert_eq!(m.size, 16);
    assert!(a.check_shadow(p, 1));
    assert!(a.check_shadow(p, 16));
    assert!(!a.check_shadow(p, 17));
    assert_eq!(a.get_usable_size(p), 16);
}

#[test]
fn check_shadow_of_empty_range_passes() {
    let a = test_allocator();
    assert!(a.check_shadow(0x4444, 0));
}

#[test]
fn release_poisons_but_retains_the_mapping() {
    let mut a = test_allocator();
    let mut errors = AsanErrors::new();
    let p = a.allocate(1, 8);
    assert_ne!(p, 0);
    a.release(p, &mut errors);
    assert!(errors.is_empty());
    assert!(!a.check_shadow(p, 1));
    // the record is retained, marked freed
    let m = a.allocations.get(p).unwrap();
    assert!(m.freed);
    assert!(a.is_managed(p));
}

#[test]
fn use_after_free_is_out_of_bounds_not_double_free() {
    let mut rt = AsanRuntime::new(test_allocator());
    let p = rt.allocator.allocate(1, 8);
    rt.allocator.release(p, &mut rt.errors);
    rt.on_memory_access(p, 1);
    let drained = rt.post_exec();
    assert_eq!(drained.len(), 1);
    assert_eq!(drained[0].kind(), AsanErrorKind::OutOfBounds);
}

#[test]
fn double_free_reports_once() {
    let mut a = test_allocator();
    let mut errors = AsanErrors::new();
    let p = a.allocate(16, 8);
    a.release(p, &mut errors);
    assert_eq!(errors.len(), 0);
    a.release(p, &mut errors);
    let drained = errors.drain();
    assert_eq!(drained.len(), 1);
    match &drained[0] {
        AsanError::DoubleFree { address, metadata, .. } => {
            assert_eq!(*address, p);
            assert_eq!(metadata.size, 16);
        }
        other => panic!("expected a double free, got {:?}", other.kind()),
    }
}

#[test]
fn unallocated_free_reports_once_and_null_is_ignored() {
    let mut a = test_allocator();
    let mut errors = AsanErrors::new();
    a.release(0xdeadbeef, &mut errors);
    let drained = errors.drain();
    assert_eq!(drained.len(), 1);
    match &drained[0] {
        AsanError::UnallocatedFree { address, .. } => assert_eq!(*address, 0xdeadbeef),
        other => panic!("expected an unallocated free, got {:?}", other.kind()),
    }
    a.release(0, &mut errors);
    assert!(errors.is_empty());
}

#[test]
fn release_after_reset_is_unallocated_free() {
    let mut a = test_allocator();
    let mut errors = AsanErrors::new();
    let p = a.allocate(32, 8);
    a.release(p, &mut errors);
    assert!(errors.is_empty());
    a.reset();
    a.release(p, &mut errors);
    let drained = errors.drain();
    assert_eq!(drained.len(), 1);
    assert_eq!(drained[0].kind(), AsanErrorKind::UnallocatedFree);
}

#[test]
fn reset_clears_counter_and_keeps_freed_ranges_poisoned() {
    let mut a = test_allocator();
    let mut errors = AsanErrors::new();
    let p = a.allocate(40, 8);
    let q = a.allocate(24, 8);
    a.release(p, &mut errors);
    a.reset();
    assert_eq!(a.total_allocation_size, 0);
    // the freed record left the live table; its shadow is fully poisoned
    assert!(a.allocations.get(p).is_none());
    assert!(!a.check_shadow(p, 40));
    assert!(!a.check_shadow(p, 1));
    // the leaked allocation survives the reset, live and checkable
    let mq = a.allocations.get(q).unwrap();
    assert!(!mq.freed);
    assert!(a.check_shadow(q, 24));
}

#[test]
fn released_mapping_is_reused_after_reset() {
    let mut a = test_allocator();
    let mut errors = AsanErrors::new();
    let p1 = a.allocate(100, 8);
    let raw1 = a.allocations.get(p1).unwrap().address;
    a.release(p1, &mut errors);
    a.reset();
    let p2 = a.allocate(50, 8);
    let raw2 = a.allocations.get(p2).unwrap().address;
    assert_eq!(raw1, raw2);
    assert_eq!(p1, p2);
    assert!(a.check_shadow(p2, 50));
    assert!(!a.check_shadow(p2, 51));
}

#[test]
fn max_allocation_boundary() {
    let mut opts = test_options();
    opts.max_allocation = 4096;
    let mut a = Allocator::new(opts, 4096, occupied()).unwrap();
    let p = a.allocate(4096, 8);
    assert_ne!(p, 0);
    let q = a.allocate(4097, 8);
    assert_eq!(q, 0);
}

#[test]
fn total_budget_boundary_and_reset_restores_capacity() {
    let mut opts = test_options();
    // room for exactly one 4096-byte request: 8192 rounded + 2 guard pages
    opts.max_total_allocation = 8192 + 2 * 4096;
    let mut a = Allocator::new(opts, 4096, occupied()).unwrap();
    let p = a.allocate(4096, 8);
    assert_ne!(p, 0);
    let q = a.allocate(1, 8);
    assert_eq!(q, 0);
    let mut errors = AsanErrors::new();
    a.release(p, &mut errors);
    a.reset();
    let r = a.allocate(4096, 8);
    assert_ne!(r, 0);
}

#[test]
fn shadow_mapping_stays_inside_the_reservation() {
    let a = test_allocator();
    for &addr in &[0u64, 1, 0x1000, 0x7ffe_ffff_ffff, 0xdeadbeef] {
        let s = a.map_to_shadow(addr);
        assert_ne!(s, addr);
        assert!(s >= a.shadow_offset);
        assert!(s < a.shadow_offset + (1u64 << a.shadow_bit()));
    }
}

#[test]
fn find_metadata_prefers_the_hinted_base() {
    let mut a = test_allocator();
    let p1 = a.allocate(16, 8);
    let p2 = a.allocate(16, 8);
    let raw1 = a.allocations.get(p1).unwrap().address;
    let raw2 = a.allocations.get(p2).unwrap().address;
    let m = a.find_metadata(raw1, raw1).unwrap();
    assert_eq!(m.address, raw1);
    let m2 = a.find_metadata(raw2 + 3, raw2).unwrap();
    assert_eq!(m2.address, raw2);
    let empty = test_allocator().find_metadata(raw1, 0);
    assert!(empty.is_none());
}

#[test]
fn leak_check_reports_each_live_allocation() {
    let mut a = test_allocator();
    let mut errors = AsanErrors::new();
    let p = a.allocate(8, 8);
    let q = a.allocate(8, 8);
    a.release(q, &mut errors);
    a.check_for_leaks(&mut errors);
    let drained = errors.drain();
    assert_eq!(drained.len(), 1);
    match &drained[0] {
        AsanError::Leak { address, metadata } => {
            assert_eq!(*address, a.allocations.get(p).unwrap().address);
            assert_eq!(metadata.size, 8);
        }
        other => panic!("expected a leak, got {:?}", other.kind()),
    }
}

#[test]
fn unpoisoned_existing_memory_is_accessible() {
    let mut a = test_allocator();
    let ranges = vec![(0x10000u64, 0x10100u64)];
    a.unpoison_all_existing_memory(ranges);
    assert!(a.check_shadow(0x10000, 0x100));
    assert!(a.check_shadow(0x10050, 8));
    assert!(!a.check_shadow(0x10100, 1));
}

#[test]
fn map_shadow_for_region_reports_the_shadow_range() {
    let mut a = test_allocator();
    let (start, len) = a.map_shadow_for_region(0x20000, 0x20800, false);
    assert_eq!(start, a.map_to_shadow(0x20000));
    assert_eq!(len, 0x800 / 8);
    let (_, zero_len) = a.map_shadow_for_region(0x30000, 0x30000, true);
    assert_eq!(zero_len, 0);
}

#[test]
fn backtraces_are_captured_when_configured() {
    let mut opts = test_options();
    opts.allocation_backtraces = true;
    let mut a = Allocator::new(opts, 4096, occupied()).unwrap();
    let mut errors = AsanErrors::new();
    let p = a.allocate(16, 8);
    let m = a.allocations.get(p).unwrap();
    assert!(m.allocation_site_backtrace.is_some());
    assert!(!m.allocation_site_backtrace.unwrap().is_empty());
    a.release(p, &mut errors);
    let m2 = a.allocations.get(p).unwrap();
    assert!(m2.release_site_backtrace.is_some());
    a.release(p, &mut errors);
    let drained = errors.drain();
    assert_eq!(drained.len(), 1);
    match &drained[0] {
        AsanError::DoubleFree { backtrace, .. } => assert!(!backtrace.is_empty()),
        other => panic!("expected a double free, got {:?}", other.kind()),
    }
}
