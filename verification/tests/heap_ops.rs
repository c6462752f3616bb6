use alloc_system::heap::{ModelHeap, FRESH_BYTE};
use alloc_system::layout::Layout;

#[test]
fn successful_allocations_are_aligned() {
    // Every power-of-two alignment from 1 to 2^16, against a spread of sizes.
    let mut h = ModelHeap::new();
    let mut e = 0usize;
    while e <= 16 {
        let align = 1usize << e;
        let sizes = [1usize, 2, 15, 24, 1024, 1 << 20];
        let mut s = 0;
        while s < sizes.len() {
            let l = Layout::from_size_align(sizes[s], align);
            let a = h.allocate(l);
            assert!(a != 0);
            assert_eq!(a % align, 0);
            s += 1;
        }
        e += 1;
    }
}

#[test]
fn fast_path_allocation_uses_default_primitive() {
    // size 24, alignment 8, on a MIN_ALIGN = 16 platform: fast path.
    let mut h = ModelHeap::new();
    let a = h.allocate(Layout::from_size_align(24, 8));
    assert!(a != 0);
    assert_eq!(a % 8, 0);
    assert_eq!(h.default_call_count(), 1);
    assert_eq!(h.aligned_call_count(), 0);
}

#[test]
fn slow_path_allocation_uses_aligned_primitive() {
    // size 4, alignment 4096: slow path, address aligned to 4096.
    let mut h = ModelHeap::new();
    let a = h.allocate(Layout::from_size_align(4, 4096));
    assert!(a != 0);
    assert_eq!(a % 4096, 0);
    assert_eq!(h.default_call_count(), 0);
    assert_eq!(h.aligned_call_count(), 1);
}

#[test]
fn fresh_allocation_holds_fresh_bytes() {
    let mut h = ModelHeap::new();
    let a = h.allocate(Layout::from_size_align(5, 1));
    assert!(a != 0);
    let mut i = 0;
    while i < 5 {
        assert_eq!(h.read_byte(a, i), FRESH_BYTE);
        i += 1;
    }
}

#[test]
fn allocate_zeroed_fast_path_is_all_zero() {
    let mut h = ModelHeap::new();
    let a = h.allocate_zeroed(Layout::from_size_align(32, 8));
    assert!(a != 0);
    assert_eq!(h.default_call_count(), 1);
    let mut i = 0;
    while i < 32 {
        assert_eq!(h.read_byte(a, i), 0);
        i += 1;
    }
}

#[test]
fn allocate_zeroed_slow_path_is_all_zero() {
    let mut h = ModelHeap::new();
    let a = h.allocate_zeroed(Layout::from_size_align(10, 64));
    assert!(a != 0);
    assert_eq!(a % 64, 0);
    assert_eq!(h.aligned_call_count(), 1);
    let mut i = 0;
    while i < 10 {
        assert_eq!(h.read_byte(a, i), 0);
        i += 1;
    }
}

#[test]
fn unsupported_alignment_fails_without_platform_call() {
    // One above the largest representable power of two: refused up front,
    // and the aligned primitive is never invoked.
    let mut h = ModelHeap::new();
    let a = h.allocate(Layout::from_size_align(8, 1usize << 32));
    assert_eq!(a, 0);
    assert_eq!(h.aligned_call_count(), 0);
    assert_eq!(h.default_call_count(), 0);
    let z = h.allocate_zeroed(Layout::from_size_align(8, 1usize << 32));
    assert_eq!(z, 0);
    assert_eq!(h.aligned_call_count(), 0);
    assert_eq!(h.default_call_count(), 0);
}

#[test]
fn unsupported_alignment_reallocate_fails_without_platform_call() {
    let mut h = ModelHeap::new();
    let l = Layout::from_size_align(8, 1usize << 31);
    let a = h.allocate(l);
    assert!(a != 0);
    let calls_before = h.aligned_call_count();
    let bad = Layout::from_size_align(8, 1usize << 32);
    // A reallocation that carries an unsupported alignment is refused
    // before any primitive runs; the block itself is untouched.
    let r = h.reallocate(a, bad, 16);
    assert_eq!(r, 0);
    assert_eq!(h.aligned_call_count(), calls_before);
}

#[test]
fn reallocate_native_path_preserves_prefix() {
    let mut h = ModelHeap::new();
    let l = Layout::from_size_align(20, 8);
    let a = h.allocate(l);
    assert!(a != 0);
    let mut i = 0;
    while i < 20 {
        h.write_byte(a, i, (i as u8).wrapping_mul(3).wrapping_add(1));
        i += 1;
    }
    let defaults_before = h.default_call_count();
    let r = h.reallocate(a, l, 40);
    assert!(r != 0);
    assert_eq!(r % 8, 0);
    assert_eq!(h.default_call_count(), defaults_before + 1);
    let mut i = 0;
    while i < 20 {
        assert_eq!(h.read_byte(r, i), (i as u8).wrapping_mul(3).wrapping_add(1));
        i += 1;
    }
    // the grown tail is uninitialized
    let mut i = 20;
    while i < 40 {
        assert_eq!(h.read_byte(r, i), FRESH_BYTE);
        i += 1;
    }
}

#[test]
fn reallocate_fallback_path_preserves_prefix_and_alignment() {
    let mut h = ModelHeap::new();
    let l = Layout::from_size_align(8, 64);
    let a = h.allocate(l);
    assert!(a != 0);
    let mut i = 0;
    while i < 8 {
        h.write_byte(a, i, 0x40 + i as u8);
        i += 1;
    }
    let aligned_before = h.aligned_call_count();
    let r = h.reallocate(a, l, 16);
    assert!(r != 0);
    assert_eq!(r % 64, 0);
    assert_eq!(h.aligned_call_count(), aligned_before + 1);
    let mut i = 0;
    while i < 8 {
        assert_eq!(h.read_byte(r, i), 0x40 + i as u8);
        i += 1;
    }
}

#[test]
fn reallocate_shrink_preserves_shorter_prefix() {
    let mut h = ModelHeap::new();
    let l = Layout::from_size_align(12, 32);
    let a = h.allocate(l);
    assert!(a != 0);
    let mut i = 0;
    while i < 12 {
        h.write_byte(a, i, 0x10 + i as u8);
        i += 1;
    }
    let r = h.reallocate(a, l, 4);
    assert!(r != 0);
    assert_eq!(r % 32, 0);
    let mut i = 0;
    while i < 4 {
        assert_eq!(h.read_byte(r, i), 0x10 + i as u8);
        i += 1;
    }
}

#[test]
fn failed_reallocation_leaves_old_block_untouched() {
    let mut h = ModelHeap::new();
    let l = Layout::from_size_align(12, 32);
    let a = h.allocate(l);
    assert!(a != 0);
    let mut i = 0;
    while i < 12 {
        h.write_byte(a, i, 0x77 ^ i as u8);
        i += 1;
    }
    // Arm the one-shot failure: the fallback's internal allocation fails.
    h.force_fail();
    let aligned_before = h.aligned_call_count();
    let r = h.reallocate(a, l, 24);
    assert_eq!(r, 0);
    // The primitive was invoked (and failed); the old block is intact.
    assert_eq!(h.aligned_call_count(), aligned_before + 1);
    let mut i = 0;
    while i < 12 {
        assert_eq!(h.read_byte(a, i), 0x77 ^ i as u8);
        i += 1;
    }
    // With nothing armed, the same reallocation now succeeds.
    let r2 = h.reallocate(a, l, 24);
    assert!(r2 != 0);
    let mut i = 0;
    while i < 12 {
        assert_eq!(h.read_byte(r2, i), 0x77 ^ i as u8);
        i += 1;
    }
}

#[test]
fn failed_allocation_returns_sentinel() {
    let mut h = ModelHeap::new();
    h.force_fail();
    let a = h.allocate(Layout::from_size_align(16, 8));
    assert_eq!(a, 0);
    // The failure switch is one-shot.
    let b = h.allocate(Layout::from_size_align(16, 8));
    assert!(b != 0);
    h.force_fail();
    let z = h.allocate_zeroed(Layout::from_size_align(16, 64));
    assert_eq!(z, 0);
}

#[test]
fn deallocate_leaves_other_allocations_intact() {
    let mut h = ModelHeap::new();
    let la = Layout::from_size_align(8, 8);
    let lb = Layout::from_size_align(8, 8);
    let a = h.allocate(la);
    let b = h.allocate(lb);
    assert!(a != 0 && b != 0 && a != b);
    let mut i = 0;
    while i < 8 {
        h.write_byte(a, i, 0xAA);
        h.write_byte(b, i, 0xBB);
        i += 1;
    }
    h.deallocate(a, la);
    let mut i = 0;
    while i < 8 {
        assert_eq!(h.read_byte(b, i), 0xBB);
        i += 1;
    }
    // A later allocation gets a fresh address and does not disturb `b`.
    let c = h.allocate(Layout::from_size_align(32, 16));
    assert!(c != 0 && c != a && c != b);
    let mut i = 0;
    while i < 8 {
        assert_eq!(h.read_byte(b, i), 0xBB);
        i += 1;
    }
}

#[test]
fn allocation_too_large_for_the_address_space_fails() {
    let mut h = ModelHeap::new();
    let a = h.allocate(Layout::from_size_align(usize::MAX, 1));
    assert_eq!(a, 0);
    // The default primitive was still invoked; it simply had no room.
    assert_eq!(h.default_call_count(), 1);
    // The heap remains usable.
    let b = h.allocate(Layout::from_size_align(8, 8));
    assert!(b != 0);
}

#[test]
fn zero_sized_request_with_align_one_takes_slow_path() {
    // alignment 1 exceeds size 0, so even the smallest request leaves the
    // fast path; the platform still satisfies it.
    let mut h = ModelHeap::new();
    let a = h.allocate(Layout::from_size_align(0, 1));
    assert!(a != 0);
    assert_eq!(h.aligned_call_count(), 1);
}
