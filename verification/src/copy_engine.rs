//! The copy benchmark: every worker copies the bytes of its segment from the
//! source buffer to the same offsets of the destination buffer.

use crate::partition::covered;
use crate::partition::lemma_partition_is_contiguous;
use crate::partition::partition;
use crate::partition::valid_config;
use crate::partition::Segment;
use vstd::prelude::*;
use vstd::slice::slice_subrange;

verus! {

/// The buffer `before` after the bytes at the offsets in `region` have been
/// replaced by those of `source`.
pub open spec fn copy_result(source: Seq<u8>, before: Seq<u8>, region: Set<int>) -> Seq<u8> {
    Seq::new(
        before.len(),
        |offset: int|
            if region.contains(offset) {
                source[offset]
            } else {
                before[offset]
            },
    )
}

/// The offsets of one segment, as a set.
pub open spec fn offsets_of(segment: Segment) -> Set<int> {
    Set::new(|offset: int| segment.contains(offset))
}

/// Every segment of `segments` lies inside a buffer of `len` bytes.
pub open spec fn segments_fit(segments: Seq<Segment>, len: int) -> bool {
    forall|i: int| 0 <= i < segments.len() ==> (#[trigger] segments[i]).fits(len)
}

/// `[T]::copy_from_slice` overwrites the whole of `destination` with the
/// elements of `source`. It panics when the two lengths differ, which the
/// precondition rules out.
pub assume_specification<T>[ <[T]>::copy_from_slice ](destination: &mut [T], source: &[T]) where
    T: Copy,
    requires
        old(destination)@.len() == source@.len(),
    ensures
        final(destination)@ == source@,
;

/// Copies the bytes of `segment` from `source` to the same offsets of
/// `destination` and leaves every other byte of `destination` as it was.
pub fn copy_segment(source: &[u8], destination: &mut [u8], segment: Segment)
    requires
        source@.len() == old(destination)@.len(),
        segment.fits(source@.len() as int),
    ensures
        final(destination)@ == copy_result(source@, old(destination)@, offsets_of(segment)),
{
    let (_head, rest) = destination.split_at_mut(segment.start);
    let (middle, _tail) = rest.split_at_mut(segment.end - segment.start);
    let from = slice_subrange(source, segment.start, segment.end);
    middle.copy_from_slice(from);
    assert(destination@ =~= copy_result(source@, old(destination)@, offsets_of(segment)));
}

/// Adding one segment to a list adds exactly its offsets to what is covered.
proof fn lemma_covered_grows(segments: Seq<Segment>, count: int)
    requires
        0 <= count < segments.len(),
    ensures
        covered(segments.take(count + 1)) =~= covered(segments.take(count)).union(
            offsets_of(segments[count]),
        ),
{
    let shorter = segments.take(count);
    let longer = segments.take(count + 1);
    assert forall|offset: int| covered(longer).contains(offset) implies covered(shorter).union(
        offsets_of(segments[count]),
    ).contains(offset) by {
        let i = choose|i: int| 0 <= i < longer.len() && #[trigger] longer[i].contains(offset);
        if i < count {
            assert(shorter[i].contains(offset));
        }
    }
    assert forall|offset: int|
        covered(shorter).union(offsets_of(segments[count])).contains(offset) implies covered(
            longer,
        ).contains(offset) by {
        if covered(shorter).contains(offset) {
            let i = choose|i: int| 0 <= i < shorter.len() && #[trigger] shorter[i].contains(offset);
            assert(longer[i].contains(offset));
        } else {
            assert(longer[count].contains(offset));
        }
    }
}

/// Copies the bytes of every segment of `segments` from `source` to the same
/// offsets of `destination`. Bytes outside all segments stay as they were.
pub fn copy_segments(source: &[u8], destination: &mut [u8], segments: &Vec<Segment>)
    requires
        source@.len() == old(destination)@.len(),
        segments_fit(segments@, source@.len() as int),
    ensures
        final(destination)@ == copy_result(source@, old(destination)@, covered(segments@)),
{
    let mut done: usize = 0;
    assert(destination@ =~= copy_result(source@, old(destination)@, covered(segments@.take(0))));
    while done < segments.len()
        invariant
            done <= segments@.len(),
            source@.len() == old(destination)@.len(),
            segments_fit(segments@, source@.len() as int),
            destination@ == copy_result(
                source@,
                old(destination)@,
                covered(segments@.take(done as int)),
            ),
        decreases segments@.len() - done,
    {
        let segment = segments[done];
        copy_segment(source, destination, segment);
        proof {
            lemma_covered_grows(segments@, done as int);
            assert(destination@ =~= copy_result(
                source@,
                old(destination)@,
                covered(segments@.take(done + 1)),
            ));
        }
        done += 1;
    }
    assert(segments@.take(done as int) =~= segments@);
}

/// Runs the whole copy: divides the buffer among `workers` workers and copies
/// each segment in turn. The destination ends up byte for byte equal to the
/// source.
pub fn copy_partitioned(source: &[u8], destination: &mut [u8], workers: usize)
    requires
        source@.len() == old(destination)@.len(),
        valid_config(source@.len() as int, workers as int),
    ensures
        final(destination)@ == source@,
{
    let segments = partition(source.len(), workers);
    proof {
        lemma_partition_is_contiguous(segments@, source@.len() as int, workers as int);
    }
    copy_segments(source, destination, &segments);
    assert(destination@ =~= source@);
}

} // verus!
