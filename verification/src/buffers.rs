//! The small vectors that hold live positions and compiled steps.
//!
//! Nothing in this file is proved: each function hands its work to `smallvec`
//! and states what that crate does with the contents of the vector.

use crate::step::DomainPatternPart;
use smallvec::SmallVec;
use vstd::prelude::*;

verus! {

/// A generation of the matcher: positions in the step sequence, kept in a
/// `SmallVec` that stays on the stack while it holds few of them.
#[verifier::external_body]
pub struct StackVec {
    inner: SmallVec<[usize; 32]>,
}

/// The steps of a compiled pattern, kept in a `SmallVec` that stays in line
/// while the pattern is short.
#[verifier::external_body]
#[derive(Debug, PartialEq, Eq)]
pub struct StepVec<'a> {
    inner: SmallVec<[DomainPatternPart<'a>; 24]>,
}

/// The positions that a generation buffer holds, first to last.
pub uninterp spec fn positions(buf: StackVec) -> Seq<usize>;

/// The steps that a step buffer holds, first to last.
pub uninterp spec fn parts(buf: StepVec<'_>) -> Seq<DomainPatternPart<'_>>;

/// `SmallVec::new`: the buffer it makes holds nothing.
#[verifier::external_body]
pub(crate) fn new_positions() -> (buf: StackVec)
    ensures
        positions(buf) == Seq::<usize>::empty(),
{
    StackVec { inner: SmallVec::new() }
}

/// `SmallVec::push`: the position is appended and the items before it stay.
#[verifier::external_body]
pub(crate) fn push_position(buf: &mut StackVec, position: usize)
    ensures
        positions(*final(buf)) == positions(*old(buf)).push(position),
{
    buf.inner.push(position)
}

/// `SmallVec::len`: the number of items held.
#[verifier::external_body]
pub(crate) fn count_positions(buf: &StackVec) -> (n: usize)
    ensures
        n == positions(*buf).len(),
{
    buf.inner.len()
}

/// Indexing a `SmallVec`, which indexes the slice of its items. An index past
/// the end panics, so the caller must stay below the length.
#[verifier::external_body]
pub(crate) fn position_at(buf: &StackVec, index: usize) -> (position: usize)
    requires
        index < positions(*buf).len(),
    ensures
        position == positions(*buf)[index as int],
{
    buf.inner[index]
}

/// `sort` on the slice of a `SmallVec`: the same items, each as often as
/// before, in ascending order.
#[verifier::external_body]
pub(crate) fn sort_positions(buf: &mut StackVec)
    ensures
        positions(*final(buf)).to_multiset() == positions(*old(buf)).to_multiset(),
        forall|i: int, j: int|
            0 <= i <= j < positions(*final(buf)).len() ==> positions(*final(buf))[i] <= positions(
                *final(buf),
            )[j],
{
    buf.inner.sort()
}

/// `SmallVec::truncate`: the first `len` items are kept; a `len` at or past
/// the current length changes nothing.
#[verifier::external_body]
pub(crate) fn truncate_positions(buf: &mut StackVec, len: usize)
    ensures
        positions(*final(buf)) == if len < positions(*old(buf)).len() {
            positions(*old(buf)).take(len as int)
        } else {
            positions(*old(buf))
        },
{
    buf.inner.truncate(len)
}

/// `SmallVec::new`: the buffer it makes holds nothing.
#[verifier::external_body]
pub(crate) fn new_parts<'a>() -> (buf: StepVec<'a>)
    ensures
        parts(buf) == Seq::<DomainPatternPart<'a>>::empty(),
{
    StepVec { inner: SmallVec::new() }
}

/// `SmallVec::push`: the step is appended and the items before it stay.
#[verifier::external_body]
pub(crate) fn push_part<'a>(buf: &mut StepVec<'a>, part: DomainPatternPart<'a>)
    ensures
        parts(*final(buf)) == parts(*old(buf)).push(part),
{
    buf.inner.push(part)
}

/// `SmallVec::len`: the number of items held.
#[verifier::external_body]
pub(crate) fn count_parts(buf: &StepVec<'_>) -> (n: usize)
    ensures
        n == parts(*buf).len(),
{
    buf.inner.len()
}

/// Indexing a `SmallVec`, which indexes the slice of its items. An index past
/// the end panics, so the caller must stay below the length.
#[verifier::external_body]
pub(crate) fn part_at<'b, 'a>(buf: &'b StepVec<'a>, index: usize) -> (part:
    &'b DomainPatternPart<'a>)
    requires
        index < parts(*buf).len(),
    ensures
        *part == parts(*buf)[index as int],
{
    &buf.inner[index]
}

/// Assigning through an index of a `SmallVec`: the item at the index is
/// replaced and the others stay. An index past the end panics.
#[verifier::external_body]
pub(crate) fn replace_part<'a>(
    buf: &mut StepVec<'a>,
    index: usize,
    part: DomainPatternPart<'a>,
)
    requires
        index < parts(*old(buf)).len(),
    ensures
        parts(*final(buf)) == parts(*old(buf)).update(index as int, part),
{
    buf.inner[index] = part;
}

} // verus!
