//! What it means for a sequence of steps to match a sequence of labels.

use crate::step::Step;
use vstd::prelude::*;

verus! {

/// Whether a step can take the given label: a literal takes the label equal
/// to it, a wildcard takes any.
pub open spec fn takes(step: Step, label: Seq<char>) -> bool {
    match step {
        Step::Static(text) => text == label,
        Step::Wildcard(_) => true,
    }
}

/// Whether a step may be passed without taking a label.
pub open spec fn is_optional(step: Step) -> bool {
    step matches Step::Wildcard(w) && w.optional
}

/// Whether a step may take another label after its first.
pub open spec fn is_multi(step: Step) -> bool {
    step matches Step::Wildcard(w) && w.multi
}

/// The steps match the labels in such a way that the first step takes the
/// first label. What follows the first label is matched by the steps behind
/// the first, or, if the first step is `multi`, by the same steps again with
/// the first step taking the next label too.
pub open spec fn consumes(steps: Seq<Step>, labels: Seq<Seq<char>>) -> bool
    decreases labels.len(), steps.len(), 0nat,
{
    &&& steps.len() > 0
    &&& labels.len() > 0
    &&& takes(steps[0], labels[0])
    &&& (accepts(steps.skip(1), labels.skip(1)) || (is_multi(steps[0]) && consumes(
        steps,
        labels.skip(1),
    )))
}

/// The steps match the labels: the labels can be dealt out to the steps in
/// order, one label to each literal that equals it, and to each wildcard as
/// many labels in a row as its flags allow.
pub open spec fn accepts(steps: Seq<Step>, labels: Seq<Seq<char>>) -> bool
    decreases labels.len(), steps.len(), 1nat,
{
    if steps.len() == 0 {
        labels.len() == 0
    } else {
        (is_optional(steps[0]) && accepts(steps.skip(1), labels)) || consumes(steps, labels)
    }
}

/// All steps from `from` up to `to` may be passed without taking a label.
pub open spec fn skippable(steps: Seq<Step>, from: int, to: int) -> bool {
    forall|t: int| from <= t < to ==> is_optional(#[trigger] steps[t])
}

/// After the step at `i` took a label, the step at `j` can take the next one:
/// the same step again if it is `multi`, or a later step if every step between
/// the two may be passed.
pub open spec fn reaches(steps: Seq<Step>, i: int, j: int) -> bool {
    ||| j == i && is_multi(steps[i])
    ||| i < j < steps.len() && skippable(steps, i + 1, j)
}

/// After the step at `i` took a label, the pattern can end: every later step
/// may be passed.
pub open spec fn finishes(steps: Seq<Step>, i: int) -> bool {
    skippable(steps, i + 1, steps.len() as int)
}

/// With no label left, steps match exactly when all of them may be passed.
pub proof fn accepts_nothing(steps: Seq<Step>, from: int)
    requires
        0 <= from <= steps.len(),
    ensures
        accepts(steps.skip(from), Seq::<Seq<char>>::empty()) == skippable(steps, from, steps.len() as int),
    decreases steps.len() - from,
{
    let rest = steps.skip(from);
    if from < steps.len() {
        assert(rest[0] == steps[from]);
        assert(rest.skip(1) =~= steps.skip(from + 1));
        accepts_nothing(steps, from + 1);
        let none = Seq::<Seq<char>>::empty();
        assert(!consumes(rest, none));
        assert(accepts(rest, none) == (is_optional(rest[0]) && accepts(rest.skip(1), none)));
        if skippable(steps, from, steps.len() as int) {
            assert(is_optional(steps[from]));
        }
    }
}

/// With a label left, steps match exactly when some step, behind steps that
/// may all be passed, takes the first label and leads on to a match.
pub proof fn accepts_something(steps: Seq<Step>, from: int, labels: Seq<Seq<char>>)
    requires
        0 <= from <= steps.len(),
        labels.len() > 0,
    ensures
        accepts(steps.skip(from), labels) == exists|j: int|
            from <= j < steps.len() && skippable(steps, from, j) && #[trigger] consumes(
                steps.skip(j),
                labels,
            ),
    decreases steps.len() - from,
{
    let rest = steps.skip(from);
    let found = exists|j: int|
        from <= j < steps.len() && skippable(steps, from, j) && #[trigger] consumes(
            steps.skip(j),
            labels,
        );
    if from < steps.len() {
        assert(rest[0] == steps[from]);
        assert(rest.skip(1) =~= steps.skip(from + 1));
        accepts_something(steps, from + 1, labels);
        if accepts(rest, labels) {
            if consumes(rest, labels) {
                assert(skippable(steps, from, from));
            } else {
                let j = choose|j: int|
                    from + 1 <= j < steps.len() && skippable(steps, from + 1, j)
                        && #[trigger] consumes(steps.skip(j), labels);
                assert(skippable(steps, from, j));
            }
            assert(found);
        }
        if found {
            let j = choose|j: int|
                from <= j < steps.len() && skippable(steps, from, j) && #[trigger] consumes(
                    steps.skip(j),
                    labels,
                );
            if j > from {
                assert(is_optional(steps[from]));
                assert(skippable(steps, from + 1, j));
            }
        }
    }
}

} // verus!
