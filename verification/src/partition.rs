//! Division of a buffer of `total` bytes into one contiguous segment per worker.

use vstd::prelude::*;

verus! {

/// A half-open byte range `[start, end)` of a buffer, owned by one worker.
#[derive(Clone, Copy, Debug, PartialEq, Eq, Structural)]
pub struct Segment {
    pub start: usize,
    pub end: usize,
}

impl Segment {
    /// Whether byte `offset` lies in the segment.
    pub open spec fn contains(self, offset: int) -> bool {
        self.start <= offset < self.end
    }

    /// Number of bytes in the segment.
    pub open spec fn span(self) -> int {
        self.end - self.start
    }

    /// Whether the segment is a range of a buffer of `len` bytes.
    pub open spec fn fits(self, len: int) -> bool {
        self.start <= self.end <= len
    }

    /// Whether the two segments have no byte in common because one ends
    /// where the other starts, or before.
    pub open spec fn apart_from(self, other: Segment) -> bool {
        self.end <= other.start || other.end <= self.start
    }
}

/// Why a pair of buffer size and worker count is no valid configuration.
#[derive(Clone, Copy, Debug, PartialEq, Eq, Structural)]
pub enum ConfigError {
    /// The worker count is zero.
    NoWorkers,
    /// There are more workers than bytes, so some segment would be empty.
    BufferTooSmall,
}

/// A configuration is valid when every worker gets at least one byte.
pub open spec fn valid_config(total: int, workers: int) -> bool {
    1 <= workers <= total
}

/// Bytes per worker, before the last one takes the remainder.
pub open spec fn chunk_size(total: int, workers: int) -> int {
    total / workers
}

/// First byte of worker `index`.
pub open spec fn segment_start(total: int, workers: int, index: int) -> int {
    index * chunk_size(total, workers)
}

/// One past the last byte of worker `index`; the last worker runs to the end
/// of the buffer.
pub open spec fn segment_end(total: int, workers: int, index: int) -> int {
    if index == workers - 1 {
        total
    } else {
        (index + 1) * chunk_size(total, workers)
    }
}

/// `segments` is the partition of `total` bytes among `workers` workers.
pub open spec fn is_partition(segments: Seq<Segment>, total: int, workers: int) -> bool {
    &&& segments.len() == workers
    &&& forall|i: int|
        0 <= i < workers ==> {
            &&& (#[trigger] segments[i]).start == segment_start(total, workers, i)
            &&& segments[i].end == segment_end(total, workers, i)
        }
}

/// No two segments of `segments` share a byte.
pub open spec fn pairwise_disjoint(segments: Seq<Segment>) -> bool {
    forall|i: int, j: int|
        0 <= i < segments.len() && 0 <= j < segments.len() && i != j ==> (
        #[trigger] segments[i]).apart_from(#[trigger] segments[j])
}

/// The offsets of a buffer of `total` bytes.
pub open spec fn whole_buffer(total: int) -> Set<int> {
    Set::new(|offset: int| 0 <= offset < total)
}

/// The worker whose segment holds byte `offset`.
pub open spec fn owner(total: int, workers: int, offset: int) -> int {
    let by_chunk = offset / chunk_size(total, workers);
    if by_chunk >= workers {
        workers - 1
    } else {
        by_chunk
    }
}

/// The bytes that belong to some segment of `segments`.
pub open spec fn covered(segments: Seq<Segment>) -> Set<int> {
    Set::new(
        |offset: int|
            exists|i: int| 0 <= i < segments.len() && #[trigger] segments[i].contains(offset),
    )
}

/// The first `index` chunks of a valid configuration lie inside the buffer.
proof fn lemma_chunk_bounds(total: int, workers: int, index: int)
    requires
        valid_config(total, workers),
        0 <= index <= workers,
    ensures
        chunk_size(total, workers) >= 1,
        0 <= index * chunk_size(total, workers) <= total,
        index < workers ==> (index + 1) * chunk_size(total, workers) == index * chunk_size(
            total,
            workers,
        ) + chunk_size(total, workers),
{
    let c = total / workers;
    assert(c >= 1 && c * workers <= total) by (nonlinear_arith)
        requires
            1 <= workers <= total,
            c == total / workers,
    ;
    assert(0 <= index * c <= c * workers) by (nonlinear_arith)
        requires
            0 <= index <= workers,
            c >= 1,
    ;
    assert((index + 1) * c == index * c + c) by (nonlinear_arith);
}

/// Says whether `workers` workers can share a buffer of `total` bytes, and
/// if not, why. The caller tests a configuration with this before any buffer
/// is touched, and gives up on an error: nothing below works on an invalid
/// configuration.
pub fn check_config(total: usize, workers: usize) -> (result: Result<(), ConfigError>)
    ensures
        workers == 0 <==> result == Err::<(), ConfigError>(ConfigError::NoWorkers),
        0 < workers && total < workers <==> result == Err::<(), ConfigError>(
            ConfigError::BufferTooSmall,
        ),
        valid_config(total as int, workers as int) <==> result is Ok,
{
    if workers == 0 {
        Err(ConfigError::NoWorkers)
    } else if total < workers {
        Err(ConfigError::BufferTooSmall)
    } else {
        Ok(())
    }
}

/// Splits `total` bytes among `workers` workers: each gets `total / workers`
/// bytes at consecutive offsets, and the last one also gets what is left over.
/// The segments cover the buffer exactly, and no two of them share a byte.
pub fn partition(total: usize, workers: usize) -> (segments: Vec<Segment>)
    requires
        valid_config(total as int, workers as int),
    ensures
        is_partition(segments@, total as int, workers as int),
        segments@.len() == workers,
        covered(segments@) == whole_buffer(total as int),
        pairwise_disjoint(segments@),
{
    let chunk: usize = total / workers;
    let mut segments: Vec<Segment> = Vec::new();
    let mut index: usize = 0;
    while index < workers
        invariant
            index <= workers,
            valid_config(total as int, workers as int),
            chunk == chunk_size(total as int, workers as int),
            segments@.len() == index,
            forall|i: int|
                0 <= i < index ==> {
                    &&& (#[trigger] segments@[i]).start == segment_start(
                        total as int,
                        workers as int,
                        i,
                    )
                    &&& segments@[i].end == segment_end(total as int, workers as int, i)
                },
        decreases workers - index,
    {
        proof {
            lemma_chunk_bounds(total as int, workers as int, index as int);
            lemma_chunk_bounds(total as int, workers as int, index + 1);
        }
        let start: usize = index * chunk;
        let end: usize = if index == workers - 1 {
            total
        } else {
            (index + 1) * chunk
        };
        segments.push(Segment { start, end });
        index += 1;
    }
    proof {
        lemma_partition_covers(segments@, total as int, workers as int);
        lemma_partition_is_disjoint(segments@, total as int, workers as int);
    }
    segments
}

/// The segments of a valid configuration are as many as the workers, lie one
/// after another without gap from byte 0 to byte `total`, and each holds at
/// least `total / workers` bytes.
pub proof fn lemma_partition_is_contiguous(segments: Seq<Segment>, total: int, workers: int)
    requires
        valid_config(total, workers),
        is_partition(segments, total, workers),
    ensures
        segments.len() == workers,
        segments[0].start == 0,
        segments[workers - 1].end == total,
        forall|i: int| 0 <= i < workers - 1 ==> (#[trigger] segments[i]).end == segments[i + 1].start,
        forall|i: int|
            0 <= i < workers ==> (#[trigger] segments[i]).span() >= chunk_size(total, workers) >= 1,
        forall|i: int|
            0 <= i < workers - 1 ==> (#[trigger] segments[i]).span() == chunk_size(total, workers),
        segments[workers - 1].span() == chunk_size(total, workers) + total % workers,
        forall|i: int| 0 <= i < workers ==> (#[trigger] segments[i]).fits(total),
{
    let c = chunk_size(total, workers);
    assert forall|i: int| 0 <= i < workers implies (#[trigger] segments[i]).span() >= c >= 1
        && segments[i].fits(total) && (i < workers - 1 ==> segments[i].span() == c
        && segments[i].end == segments[i + 1].start) by {
        lemma_chunk_bounds(total, workers, i);
        lemma_chunk_bounds(total, workers, i + 1);
        assert(segments[i + 1].start == segment_start(total, workers, i + 1) || i == workers - 1);
    }
    lemma_chunk_bounds(total, workers, workers - 1);
    assert((workers - 1) * c + c + total % workers == total) by (nonlinear_arith)
        requires
            workers >= 1,
            c == total / workers,
    ;
}

/// No byte belongs to two segments: of two different segments of a valid
/// configuration, the earlier one ends where the later one starts, or before.
pub proof fn lemma_partition_is_disjoint(segments: Seq<Segment>, total: int, workers: int)
    requires
        valid_config(total, workers),
        is_partition(segments, total, workers),
    ensures
        pairwise_disjoint(segments),
        forall|i: int, j: int|
            0 <= i < j < workers ==> (#[trigger] segments[i]).end <= (#[trigger] segments[j]).start,
        forall|i: int, j: int, offset: int|
            0 <= i < workers && 0 <= j < workers && #[trigger] segments[i].contains(offset)
                && #[trigger] segments[j].contains(offset) ==> i == j,
{
    let c = chunk_size(total, workers);
    assert forall|i: int, j: int| 0 <= i < j < workers implies (#[trigger] segments[i]).end <= (
    #[trigger] segments[j]).start by {
        lemma_chunk_bounds(total, workers, i);
        lemma_chunk_bounds(total, workers, j);
        assert((i + 1) * c <= j * c) by (nonlinear_arith)
            requires
                i + 1 <= j,
                c >= 1,
        ;
    }
    assert forall|i: int, j: int, offset: int|
        0 <= i < workers && 0 <= j < workers && #[trigger] segments[i].contains(offset)
            && #[trigger] segments[j].contains(offset) implies i == j by {
        if i < j {
            assert(segments[i].end <= segments[j].start);
        } else if j < i {
            assert(segments[j].end <= segments[i].start);
        }
    }
}

/// Every byte of the buffer belongs to the segment of its `owner`, and the
/// segments together hold exactly the bytes `0 .. total`.
pub proof fn lemma_partition_covers(segments: Seq<Segment>, total: int, workers: int)
    requires
        valid_config(total, workers),
        is_partition(segments, total, workers),
    ensures
        forall|offset: int|
            0 <= offset < total ==> 0 <= owner(total, workers, offset) < workers && segments[owner(
                total,
                workers,
                offset,
            )].contains(offset),
        covered(segments) == whole_buffer(total),
{
    let c = chunk_size(total, workers);
    lemma_chunk_bounds(total, workers, 0);
    assert forall|offset: int| 0 <= offset < total implies 0 <= #[trigger] owner(
        total,
        workers,
        offset,
    ) < workers && segments[owner(total, workers, offset)].contains(offset) by {
        let q = offset / c;
        assert(0 <= q && q * c <= offset < (q + 1) * c) by (nonlinear_arith)
            requires
                q == offset / c,
                c >= 1,
                offset >= 0,
        ;
        let w = owner(total, workers, offset);
        lemma_chunk_bounds(total, workers, w);
        if q >= workers {
            assert((workers - 1) * c <= q * c) by (nonlinear_arith)
                requires
                    workers - 1 <= q,
                    c >= 1,
            ;
        }
    }
    assert forall|offset: int| covered(segments).contains(offset) implies 0 <= offset < total by {
        let i = choose|i: int| 0 <= i < segments.len() && #[trigger] segments[i].contains(offset);
        lemma_chunk_bounds(total, workers, i);
        lemma_chunk_bounds(total, workers, i + 1);
    }
    assert forall|offset: int| 0 <= offset < total implies covered(segments).contains(offset) by {
        let w = owner(total, workers, offset);
        assert(segments[w].contains(offset));
    }
    assert(covered(segments) =~= whole_buffer(total));
}

} // verus!
