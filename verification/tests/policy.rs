use alloc_system::layout::Layout;
use alloc_system::policy::{fits_default, MAX_SUPPORTED_ALIGN, MIN_ALIGN};
use alloc_system::system::{AllocPlan, ReallocPlan, System};

#[test]
fn min_align_is_sixteen() {
    assert_eq!(MIN_ALIGN, 16);
    assert_eq!(MAX_SUPPORTED_ALIGN, 1usize << 31);
}

#[test]
fn fits_default_accepts_small_alignments() {
    assert!(fits_default(24, 8));
    assert!(fits_default(16, 16));
    assert!(fits_default(1, 1));
    assert!(fits_default(1024, 4));
}

#[test]
fn fits_default_rejects_large_alignment() {
    assert!(!fits_default(4, 4096));
    assert!(!fits_default(1024, 32));
}

#[test]
fn fits_default_rejects_alignment_above_size() {
    assert!(!fits_default(8, 16));
    assert!(!fits_default(0, 1));
}

#[test]
fn alloc_plan_fast_path() {
    let l = Layout::from_size_align(24, 8);
    assert_eq!(System::alloc_plan(l), AllocPlan::Default);
}

#[test]
fn alloc_plan_slow_path() {
    let l = Layout::from_size_align(4, 4096);
    assert_eq!(System::alloc_plan(l), AllocPlan::Aligned);
}

#[test]
fn alloc_plan_alignment_above_size_is_slow_path() {
    let l = Layout::from_size_align(8, 16);
    assert_eq!(System::alloc_plan(l), AllocPlan::Aligned);
}

#[test]
fn alloc_plan_refuses_unsupported_alignment() {
    let l = Layout::from_size_align(8, 1usize << 32);
    assert_eq!(System::alloc_plan(l), AllocPlan::UnsupportedAlign);
}

#[test]
fn alloc_plan_accepts_the_bound_itself() {
    let l = Layout::from_size_align(8, 1usize << 31);
    assert_eq!(System::alloc_plan(l), AllocPlan::Aligned);
}

#[test]
fn realloc_plan_native_when_old_alignment_fits_new_size() {
    let l = Layout::from_size_align(20, 8);
    assert_eq!(System::realloc_plan(l, 40), ReallocPlan::Native);
}

#[test]
fn realloc_plan_fallback_for_large_alignment() {
    let l = Layout::from_size_align(8, 4096);
    assert_eq!(System::realloc_plan(l, 16), ReallocPlan::Fallback);
}

#[test]
fn realloc_plan_fallback_when_new_size_below_alignment() {
    let l = Layout::from_size_align(64, 16);
    assert_eq!(System::realloc_plan(l, 8), ReallocPlan::Fallback);
}

#[test]
fn realloc_plan_refuses_unsupported_alignment() {
    let l = Layout::from_size_align(8, 1usize << 32);
    assert_eq!(System::realloc_plan(l, 16), ReallocPlan::UnsupportedAlign);
}

#[test]
fn layout_carries_size_and_align() {
    let l = Layout::from_size_align(7, 2);
    assert_eq!(l.size, 7);
    assert_eq!(l.align, 2);
}
