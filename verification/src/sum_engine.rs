//! The read benchmark: a strided walk over one segment that sums the bytes it
//! visits, with an optional read ahead of the walk to warm the cache.

use crate::accumulator::fold_into;
use crate::partition::is_partition;
use crate::partition::partition;
use crate::partition::valid_config;
use crate::partition::Segment;
use std::sync::atomic::AtomicUsize;
use vstd::prelude::*;

verus! {

/// Width of a cache line in bytes: the distance between two visited bytes.
pub const CACHE_LINE: usize = 64;

/// How far ahead of the walk the warming read goes: 64 cache lines.
pub const PREFETCH_DISTANCE: usize = 4096;

/// Whether the walk reads ahead of itself.
#[derive(Debug, Clone, Copy, PartialEq, Eq, Structural)]
pub enum PrefetchMemory {
    Disabled,
    Enabled,
}

/// Sum of the bytes at `start`, `start + stride`, `start + 2 * stride`, ...
/// as long as the index stays below `end`.
pub open spec fn strided_sum(data: Seq<u8>, start: int, end: int, stride: int) -> int
    decreases
        if start < end {
            end - start
        } else {
            0
        },
{
    if start >= end || stride <= 0 {
        0
    } else {
        data[start] as int + strided_sum(data, start + stride, end, stride)
    }
}

/// Number of indices that the walk from `start` to `end` visits.
pub open spec fn visit_count(start: int, end: int, stride: int) -> int {
    if start >= end || stride <= 0 {
        0
    } else {
        (end - start + stride - 1) / stride
    }
}

/// `std::hint::black_box` hands its argument back unchanged; it only keeps the
/// compiler from assuming anything about how the value is used, so a load
/// whose result goes through it is really performed.
pub assume_specification<T>[ core::hint::black_box::<T> ](dummy: T) -> (kept: T)
    ensures
        kept == dummy,
;

/// Sums every `stride`-th byte of `data` from `start` up to, not including,
/// `end`, and folds the sum into `accumulator`. With prefetching enabled each
/// visit also reads the byte `PREFETCH_DISTANCE` further on, where the buffer
/// still has one, and throws it away: the sum is the same in both modes.
///
/// The sum is kept in 64 bits, which hold it exactly as long as the walk
/// visits fewer than 2^56 bytes; a longer walk wraps around.
pub fn sum(
    prefetch: PrefetchMemory,
    data: &[u8],
    start: usize,
    end: usize,
    stride: usize,
    accumulator: &AtomicUsize,
) -> (total: u64)
    requires
        stride >= 1,
        start < end ==> end <= data@.len(),
    ensures
        total == strided_sum(data@, start as int, end as int, stride as int)
            % 0x1_0000_0000_0000_0000,
        255 * visit_count(start as int, end as int, stride as int) <= u64::MAX ==> total
            == strided_sum(data@, start as int, end as int, stride as int),
{
    let data_len: usize = data.len();
    let mut total: u64 = 0;
    let mut index: usize = start;
    let ghost mut summed: int = 0;
    while index < end
        invariant
            stride >= 1,
            data_len == data@.len(),
            start <= index,
            start < end ==> index <= end <= data@.len(),
            summed >= 0,
            total == summed % 0x1_0000_0000_0000_0000,
            summed + strided_sum(data@, index as int, end as int, stride as int) == strided_sum(
                data@,
                start as int,
                end as int,
                stride as int,
            ),
        decreases end - index,
    {
        let ghost here = index as int;
        assert(strided_sum(data@, here, end as int, stride as int) == data@[here] as int
            + strided_sum(data@, here + stride, end as int, stride as int));
        total = total.wrapping_add(data[index] as u64);
        proof {
            summed = summed + data@[here] as int;
        }
        if prefetch == PrefetchMemory::Enabled && PREFETCH_DISTANCE < data_len - index {
            let _warmed: u8 = std::hint::black_box(data[index + PREFETCH_DISTANCE]);
        }
        if end - index <= stride {
            index = end;
        } else {
            index = index + stride;
        }
        assert(strided_sum(data@, here + stride, end as int, stride as int) == strided_sum(
            data@,
            index as int,
            end as int,
            stride as int,
        ));
    }
    proof {
        lemma_sum_is_bounded(data@, start as int, end as int, stride as int);
    }
    fold_into(accumulator, #[verifier::truncate] (total as usize));
    total
}

/// A walk that has not reached `end` visits `start` and then what the walk
/// from `start + stride` visits.
pub proof fn lemma_visit_count_step(start: int, end: int, stride: int)
    requires
        stride >= 1,
        start < end,
    ensures
        visit_count(start, end, stride) == 1 + visit_count(start + stride, end, stride),
{
    let rest = end - start - 1;
    if start + stride >= end {
        assert((rest + stride) / stride == 1) by (nonlinear_arith)
            requires
                0 <= rest < stride,
        ;
    } else {
        assert((rest + stride) / stride == 1 + (rest - stride + stride) / stride)
            by (nonlinear_arith)
            requires
                0 <= rest,
                stride >= 1,
        ;
    }
}

/// A walk visits at most every byte of its range, and at least one byte of a
/// range that is not empty.
pub proof fn lemma_visit_count_bounds(start: int, end: int, stride: int)
    requires
        stride >= 1,
        start <= end,
    ensures
        0 <= visit_count(start, end, stride) <= end - start,
        start < end ==> visit_count(start, end, stride) >= 1,
{
    let span = end - start;
    assert(span >= 1 ==> 1 <= (span + stride - 1) / stride <= span) by (nonlinear_arith)
        requires
            stride >= 1,
    ;
}

/// A walk over bytes that are all 1 sums to the number of bytes it visits.
pub proof fn lemma_sum_of_ones(data: Seq<u8>, start: int, end: int, stride: int)
    requires
        stride >= 1,
        0 <= start,
        end <= data.len(),
        forall|i: int| start <= i < end ==> data[i] == 1,
    ensures
        strided_sum(data, start, end, stride) == visit_count(start, end, stride),
    decreases
        if start < end {
            end - start
        } else {
            0
        },
{
    if start < end {
        lemma_sum_of_ones(data, start + stride, end, stride);
        lemma_visit_count_step(start, end, stride);
    }
}

/// Over a range whose length is a multiple of the stride, the walk visits
/// one byte per stride.
pub proof fn lemma_visit_count_of_whole_strides(start: int, end: int, stride: int)
    requires
        stride >= 1,
        start <= end,
        (end - start) % stride == 0,
    ensures
        visit_count(start, end, stride) == (end - start) / stride,
{
    let span = end - start;
    assert(span > 0 ==> (span + stride - 1) / stride == span / stride) by (nonlinear_arith)
        requires
            stride >= 1,
            span >= 0,
            span % stride == 0,
    ;
    assert(span == 0 ==> span / stride == 0) by (nonlinear_arith)
        requires
            stride >= 1,
    ;
}

/// A walk never sums to more than 255 for each byte it visits.
pub proof fn lemma_sum_is_bounded(data: Seq<u8>, start: int, end: int, stride: int)
    requires
        stride >= 1,
    ensures
        0 <= strided_sum(data, start, end, stride) <= 255 * visit_count(start, end, stride),
    decreases
        if start < end {
            end - start
        } else {
            0
        },
{
    if start < end {
        lemma_sum_is_bounded(data, start + stride, end, stride);
        lemma_visit_count_step(start, end, stride);
    }
}

/// How a run over the whole buffer is carried out.
#[derive(Debug)]
pub enum Dispatch {
    /// One worker: the caller's own thread walks the segment, so that no
    /// thread start is counted into the time.
    Inline(Segment),
    /// Several workers: one thread for each segment.
    Spawn(Vec<Segment>),
}

/// Decides how `workers` workers go over `total` bytes. A single worker runs
/// inline over the whole buffer; more of them get one segment of the
/// partition each.
pub fn dispatch(total: usize, workers: usize) -> (plan: Dispatch)
    requires
        valid_config(total as int, workers as int),
    ensures
        workers == 1 ==> plan == Dispatch::Inline(Segment { start: 0, end: total }),
        workers > 1 ==> (plan matches Dispatch::Spawn(segments) && is_partition(
            segments@,
            total as int,
            workers as int,
        )),
{
    let segments = partition(total, workers);
    if workers == 1 {
        Dispatch::Inline(segments[0])
    } else {
        Dispatch::Spawn(segments)
    }
}

} // verus!
