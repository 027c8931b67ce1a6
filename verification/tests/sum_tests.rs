use blandwidth::partition::Segment;
use blandwidth::sum_engine::dispatch;
use blandwidth::sum_engine::sum;
use blandwidth::sum_engine::Dispatch;
use blandwidth::sum_engine::PrefetchMemory;
use blandwidth::sum_engine::CACHE_LINE;
use blandwidth::sum_engine::PREFETCH_DISTANCE;
use std::sync::atomic::AtomicUsize;
use std::sync::atomic::Ordering;

#[test]
fn sum_of_ones_without_prefetch() {
    let data = vec![1u8; 65536];
    let counter = AtomicUsize::new(0);
    assert_eq!(sum(PrefetchMemory::Disabled, &data, 0, 65536, 64, &counter), 1024);
}

#[test]
fn sum_of_ones_with_prefetch() {
    let data = vec![1u8; 65536];
    let counter = AtomicUsize::new(0);
    assert_eq!(sum(PrefetchMemory::Enabled, &data, 0, 65536, 64, &counter), 1024);
}

#[test]
fn prefetch_never_changes_the_sum() {
    let data: Vec<u8> = (0..20_000usize).map(|i| (i % 251) as u8).collect();
    for &(start, end, stride) in &[(0usize, 20_000usize, 64usize), (3, 19_999, 7), (100, 16_000, 4096), (15_904, 20_000, 1)] {
        let counter = AtomicUsize::new(0);
        let plain = sum(PrefetchMemory::Disabled, &data, start, end, stride, &counter);
        let warmed = sum(PrefetchMemory::Enabled, &data, start, end, stride, &counter);
        let expected: u64 = (start..end).step_by(stride).map(|i| data[i] as u64).sum();
        assert_eq!(plain, expected);
        assert_eq!(warmed, expected);
    }
}

#[test]
fn sum_visits_every_stride_below_end() {
    let data: Vec<u8> = (0..=255u8).collect();
    let counter = AtomicUsize::new(0);
    // indices 10, 74, 138, 202
    assert_eq!(sum(PrefetchMemory::Disabled, &data, 10, 256, 64, &counter), 10 + 74 + 138 + 202);
    // the end is exclusive: 128 is not visited
    assert_eq!(sum(PrefetchMemory::Disabled, &data, 0, 128, 64, &counter), 64);
    assert_eq!(sum(PrefetchMemory::Disabled, &data, 0, 129, 64, &counter), 64 + 128);
}

#[test]
fn sum_rounds_the_visit_count_up() {
    let data = vec![1u8; 1000];
    let counter = AtomicUsize::new(0);
    assert_eq!(sum(PrefetchMemory::Enabled, &data, 0, 1000, 64, &counter), 16);
    assert_eq!(sum(PrefetchMemory::Enabled, &data, 0, 1, 64, &counter), 1);
}

#[test]
fn sum_of_an_empty_range_is_zero() {
    let data = vec![1u8; 128];
    let counter = AtomicUsize::new(0);
    assert_eq!(sum(PrefetchMemory::Enabled, &data, 64, 64, 64, &counter), 0);
    assert_eq!(sum(PrefetchMemory::Disabled, &data, 100, 20, 64, &counter), 0);
    assert_eq!(sum(PrefetchMemory::Disabled, &data, 500, 400, 64, &counter), 0);
    assert_eq!(counter.load(Ordering::Relaxed), 0);
}

#[test]
fn sum_with_a_stride_wider_than_the_range() {
    let data = vec![5u8; 100];
    let counter = AtomicUsize::new(0);
    assert_eq!(sum(PrefetchMemory::Disabled, &data, 20, 100, usize::MAX, &counter), 5);
}

#[test]
fn sum_does_not_overflow_a_byte() {
    let data = vec![255u8; 4096];
    let counter = AtomicUsize::new(0);
    assert_eq!(sum(PrefetchMemory::Disabled, &data, 0, 4096, 1, &counter), 255 * 4096);
}

#[test]
fn sum_is_folded_into_the_accumulator() {
    let data = vec![2u8; 65536 + 4096];
    let counter = AtomicUsize::new(5);
    let first = sum(PrefetchMemory::Enabled, &data, 0, data.len(), CACHE_LINE, &counter);
    assert_eq!(first, 2 * 1088);
    assert_eq!(counter.load(Ordering::Relaxed), 5 + 2176);
    let second = sum(PrefetchMemory::Disabled, &data, 0, 640, CACHE_LINE, &counter);
    assert_eq!(second, 20);
    assert_eq!(counter.load(Ordering::Relaxed), 5 + 2176 + 20);
}

#[test]
fn accumulator_wraps_around() {
    let data = vec![3u8; 64];
    let counter = AtomicUsize::new(usize::MAX);
    assert_eq!(sum(PrefetchMemory::Disabled, &data, 0, 64, 64, &counter), 3);
    assert_eq!(counter.load(Ordering::Relaxed), 2);
}

#[test]
fn stride_and_lookahead_constants() {
    assert_eq!(CACHE_LINE, 64);
    assert_eq!(PREFETCH_DISTANCE, 64 * CACHE_LINE);
}

#[test]
fn single_worker_runs_inline() {
    match dispatch(65536, 1) {
        Dispatch::Inline(segment) => assert_eq!(segment, Segment { start: 0, end: 65536 }),
        other => panic!("expected an inline run, got {:?}", other),
    }
}

#[test]
fn several_workers_are_spawned() {
    match dispatch(100, 3) {
        Dispatch::Spawn(segments) => assert_eq!(
            segments,
            vec![
                Segment { start: 0, end: 33 },
                Segment { start: 33, end: 66 },
                Segment { start: 66, end: 100 },
            ]
        ),
        other => panic!("expected spawned workers, got {:?}", other),
    }
}

#[test]
fn single_worker_over_a_single_byte_runs_inline() {
    match dispatch(1, 1) {
        Dispatch::Inline(segment) => assert_eq!(segment, Segment { start: 0, end: 1 }),
        other => panic!("expected an inline run, got {:?}", other),
    }
}
