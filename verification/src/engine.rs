//! The matcher: all live positions of a pattern, moved on label by label.

use crate::buffers::{
    count_positions, position_at, positions, push_position, sort_positions, StackVec, StepVec,
};
use crate::compile::{count_steps, step_at, steps_of};
use crate::semantics::{
    accepts, accepts_nothing, accepts_something, consumes, finishes, is_multi, is_optional, reaches,
    skippable, takes,
};
use crate::step::{DomainPatternPart, Step};
use crate::text::same_text;
use vstd::prelude::*;

verus! {

/// Whether a generation holds the position `i`.
pub open spec fn holds(live: Seq<usize>, i: int) -> bool {
    exists|k: int| 0 <= k < live.len() && #[trigger] live[k] == i
}

/// The entry at `k` of a generation is a position whose step takes the label.
pub open spec fn fires_at(steps: Seq<Step>, live: Seq<usize>, label: Seq<char>, k: int) -> bool {
    &&& 0 <= k < live.len()
    &&& live[k] < steps.len()
    &&& takes(steps[live[k] as int], label)
}

/// The entry at `k` takes the label and hands on to the position `j`.
pub open spec fn step_to(
    steps: Seq<Step>,
    live: Seq<usize>,
    label: Seq<char>,
    k: int,
    j: int,
) -> bool {
    fires_at(steps, live, label, k) && reaches(steps, live[k] as int, j)
}

/// The entry at `k` takes the label and the pattern can end behind it.
pub open spec fn ends_at(steps: Seq<Step>, live: Seq<usize>, label: Seq<char>, k: int) -> bool {
    fires_at(steps, live, label, k) && finishes(steps, live[k] as int)
}

/// `next` is the generation that follows `live` on a label: it holds the
/// positions that some position of `live` hands on to, and no others.
pub open spec fn fed(
    steps: Seq<Step>,
    live: Seq<usize>,
    label: Seq<char>,
    next: Seq<usize>,
) -> bool {
    forall|j: int| #[trigger]
        holds(next, j) <==> exists|k: int| #[trigger] step_to(steps, live, label, k, j)
}

/// Some position of the generation takes the label and lets the pattern end.
pub open spec fn ended(steps: Seq<Step>, live: Seq<usize>, label: Seq<char>) -> bool {
    exists|k: int| #[trigger] ends_at(steps, live, label, k)
}

/// The position `i` is in the generation and the steps from it on match the
/// labels, its own step taking the first.
pub open spec fn thread_matches(
    steps: Seq<Step>,
    live: Seq<usize>,
    i: int,
    labels: Seq<Seq<char>>,
) -> bool {
    &&& holds(live, i)
    &&& 0 <= i < steps.len()
    &&& consumes(steps.skip(i), labels)
}

/// Some position of the generation leads to a match of the labels.
pub open spec fn some_thread(steps: Seq<Step>, live: Seq<usize>, labels: Seq<Seq<char>>) -> bool {
    exists|i: int| #[trigger] thread_matches(steps, live, i, labels)
}

/// What a generation and the flag of the last label say about the labels
/// still to come: with none left the flag decides, else some position must
/// lead to a match.
pub open spec fn outlook(
    steps: Seq<Step>,
    live: Seq<usize>,
    saw_last: bool,
    pending: Seq<Seq<char>>,
) -> bool {
    if pending.len() == 0 {
        saw_last
    } else {
        some_thread(steps, live, pending)
    }
}

/// `now` holds what `before` held and the positions above `lo` up to `hi`.
pub open spec fn grown(before: Seq<usize>, now: Seq<usize>, lo: int, hi: int) -> bool {
    forall|j: int| #[trigger] holds(now, j) <==> holds(before, j) || lo < j <= hi
}

/// Up to the entry `p` of the generation, `next` holds what those entries
/// hand on to.
pub open spec fn fed_upto(
    steps: Seq<Step>,
    live: Seq<usize>,
    label: Seq<char>,
    next: Seq<usize>,
    p: int,
) -> bool {
    forall|j: int| #[trigger]
        holds(next, j) <==> exists|k: int| 0 <= k < p && #[trigger] step_to(steps, live, label, k, j)
}

/// Some entry before `p` takes the label and lets the pattern end.
pub open spec fn ended_upto(steps: Seq<Step>, live: Seq<usize>, label: Seq<char>, p: int) -> bool {
    exists|k: int| 0 <= k < p && #[trigger] ends_at(steps, live, label, k)
}

/// A pushed position is held, and what was held before stays.
pub proof fn holds_after_push(live: Seq<usize>, position: usize, j: int)
    ensures
        holds(live.push(position), j) <==> holds(live, j) || j == position,
{
    let more = live.push(position);
    if holds(live, j) {
        let k = choose|k: int| 0 <= k < live.len() && #[trigger] live[k] == j;
        assert(more[k] == j);
    }
    if j == position {
        assert(more[live.len() as int] == j);
    }
    if holds(more, j) {
        let k = choose|k: int| 0 <= k < more.len() && #[trigger] more[k] == j;
        if k < live.len() {
            assert(live[k] == j);
        }
    }
}

/// Two generations with the same entries, in whatever order, hold the same
/// positions.
pub proof fn holds_same(a: Seq<usize>, b: Seq<usize>)
    requires
        a.to_multiset() == b.to_multiset(),
    ensures
        forall|i: int| holds(a, i) <==> holds(b, i),
{
    a.to_multiset_ensures();
    b.to_multiset_ensures();
    assert forall|i: int| holds(a, i) implies holds(b, i) by {
        let k = choose|k: int| 0 <= k < a.len() && #[trigger] a[k] == i;
        assert(a.contains(a[k]));
        assert(a.to_multiset().count(a[k]) > 0);
        assert(b.to_multiset().count(a[k]) > 0);
        assert(b.contains(a[k]));
        let m = choose|m: int| 0 <= m < b.len() && b[m] == a[k];
        assert(b[m] == i);
    }
    assert forall|i: int| holds(b, i) implies holds(a, i) by {
        let k = choose|k: int| 0 <= k < b.len() && #[trigger] b[k] == i;
        assert(b.contains(b[k]));
        assert(b.to_multiset().count(b[k]) > 0);
        assert(a.to_multiset().count(b[k]) > 0);
        assert(a.contains(b[k]));
        let m = choose|m: int| 0 <= m < a.len() && a[m] == b[k];
        assert(a[m] == i);
    }
}

/// Generations that hold the same positions lead to the same matches.
pub proof fn some_thread_same(
    steps: Seq<Step>,
    a: Seq<usize>,
    b: Seq<usize>,
    labels: Seq<Seq<char>>,
)
    requires
        forall|i: int| holds(a, i) <==> holds(b, i),
    ensures
        some_thread(steps, a, labels) == some_thread(steps, b, labels),
{
    if some_thread(steps, a, labels) {
        let i = choose|i: int| #[trigger] thread_matches(steps, a, i, labels);
        assert(thread_matches(steps, b, i, labels));
    }
    if some_thread(steps, b, labels) {
        let i = choose|i: int| #[trigger] thread_matches(steps, b, i, labels);
        assert(thread_matches(steps, a, i, labels));
    }
}

/// At the start only the first step is live, so the outlook on all labels is
/// that the steps match them with the first step taking the first label.
pub proof fn outlook_at_start(steps: Seq<Step>, live: Seq<usize>, labels: Seq<Seq<char>>)
    requires
        live == seq![0usize],
    ensures
        outlook(steps, live, false, labels) == consumes(steps, labels),
{
    assert(steps.skip(0) =~= steps);
    assert(live[0] == 0);
    if consumes(steps, labels) {
        assert(thread_matches(steps, live, 0, labels));
    }
    if labels.len() > 0 && some_thread(steps, live, labels) {
        let i = choose|i: int| #[trigger] thread_matches(steps, live, i, labels);
        assert(i == 0);
    }
}

/// One step of a thread: the step at `i` takes the first label, and the rest
/// is matched behind it or, for a `multi` step, by the same thread.
pub proof fn thread_unfolds(steps: Seq<Step>, i: int, label: Seq<char>, rest: Seq<Seq<char>>)
    requires
        0 <= i < steps.len(),
    ensures
        consumes(steps.skip(i), seq![label] + rest) == (takes(steps[i], label) && (accepts(
            steps.skip(i + 1),
            rest,
        ) || (is_multi(steps[i]) && consumes(steps.skip(i), rest)))),
{
    let labels = seq![label] + rest;
    assert(labels.skip(1) =~= rest);
    assert(steps.skip(i).skip(1) =~= steps.skip(i + 1));
    assert(steps.skip(i)[0] == steps[i]);
    assert(labels[0] == label);
}

/// Feeding a label to a generation keeps what the generation says of the
/// labels to come.
pub proof fn feeding_keeps_outlook(
    steps: Seq<Step>,
    live: Seq<usize>,
    label: Seq<char>,
    rest: Seq<Seq<char>>,
    next: Seq<usize>,
    saw_last: bool,
)
    requires
        fed(steps, live, label, next),
        saw_last == ended(steps, live, label),
    ensures
        some_thread(steps, live, seq![label] + rest) == outlook(steps, next, saw_last, rest),
{
    let labels = seq![label] + rest;
    if some_thread(steps, live, labels) {
        let i = choose|i: int| #[trigger] thread_matches(steps, live, i, labels);
        let k = choose|k: int| 0 <= k < live.len() && #[trigger] live[k] == i;
        thread_unfolds(steps, i, label, rest);
        assert(fires_at(steps, live, label, k));
        if rest.len() == 0 {
            assert(rest =~= Seq::<Seq<char>>::empty());
            assert(!consumes(steps.skip(i), rest));
            accepts_nothing(steps, i + 1);
            assert(ends_at(steps, live, label, k));
        } else {
            if accepts(steps.skip(i + 1), rest) {
                accepts_something(steps, i + 1, rest);
                let j = choose|j: int|
                    i + 1 <= j < steps.len() && skippable(steps, i + 1, j) && #[trigger] consumes(
                        steps.skip(j),
                        rest,
                    );
                assert(step_to(steps, live, label, k, j));
                assert(holds(next, j));
                assert(thread_matches(steps, next, j, rest));
            } else {
                assert(step_to(steps, live, label, k, i));
                assert(holds(next, i));
                assert(thread_matches(steps, next, i, rest));
            }
        }
    }
    if outlook(steps, next, saw_last, rest) {
        if rest.len() == 0 {
            let k = choose|k: int| #[trigger] ends_at(steps, live, label, k);
            let i = live[k] as int;
            assert(rest =~= Seq::<Seq<char>>::empty());
            thread_unfolds(steps, i, label, rest);
            accepts_nothing(steps, i + 1);
            assert(thread_matches(steps, live, i, labels));
        } else {
            let j = choose|j: int| #[trigger] thread_matches(steps, next, j, rest);
            let k = choose|k: int| #[trigger] step_to(steps, live, label, k, j);
            let i = live[k] as int;
            thread_unfolds(steps, i, label, rest);
            if j != i {
                accepts_something(steps, i + 1, rest);
            }
            assert(thread_matches(steps, live, i, labels));
        }
    }
}

/// Pushes the positions that follow `path` once its step took a label: the
/// next one, and those behind steps that may be passed. Returns whether the
/// end of the pattern is among them.
pub(crate) fn spread(steps: &StepVec<'_>, path: usize, next: &mut StackVec) -> (at_end: bool)
    requires
        path < steps_of(*steps).len(),
    ensures
        at_end == finishes(steps_of(*steps), path as int),
        forall|j: int| #[trigger]
            holds(positions(*final(next)), j) <==> holds(positions(*old(next)), j) || (path < j
                < steps_of(*steps).len() && skippable(steps_of(*steps), path + 1, j)),
{
    let ghost all = steps_of(*steps);
    let ghost before = positions(*next);
    let total = count_steps(steps);
    let mut next_idx = path + 1;
    if next_idx == total {
        return true;
    }
    push_position(next, next_idx);
    proof {
        assert forall|j: int| #[trigger]
            holds(positions(*next), j) <==> holds(before, j) || path < j <= next_idx by {
            holds_after_push(before, next_idx, j);
        }
    }
    loop
        invariant
            all == steps_of(*steps),
            before == positions(*old(next)),
            total == all.len(),
            path < next_idx < total,
            skippable(all, path + 1, next_idx as int),
            grown(before, positions(*next), path as int, next_idx as int),
        decreases total - next_idx,
    {
        let optional = match step_at(steps, next_idx) {
            DomainPatternPart::Wildcard(w) => w.optional,
            DomainPatternPart::Static(_) => false,
        };
        if !optional {
            proof {
                assert forall|j: int| #[trigger]
                    holds(positions(*next), j) <==> holds(before, j) || (path < j < total
                        && skippable(all, path + 1, j)) by {
                    if j > next_idx && j < total && skippable(all, path + 1, j) {
                        assert(is_optional(all[next_idx as int]));
                    }
                }
                if finishes(all, path as int) {
                    assert(is_optional(all[next_idx as int]));
                }
            }
            return false;
        }
        let jump = next_idx + 1;
        if jump == total {
            return true;
        }
        let ghost held = positions(*next);
        push_position(next, jump);
        proof {
            assert forall|j: int| #[trigger]
                holds(positions(*next), j) <==> holds(before, j) || path < j <= jump by {
                holds_after_push(held, jump, j);
            }
        }
        next_idx = jump;
    }
}

/// Feeds one label to a generation. The generation is sorted so that equal
/// positions stand together and are dealt with once; `next` receives the
/// generation that follows. Returns whether the pattern can end with this
/// label.
pub(crate) fn feed(steps: &StepVec<'_>, stack: &mut StackVec, next: &mut StackVec, label: &str) -> (saw_last:
    bool)
    requires
        positions(*old(next)).len() == 0,
    ensures
        forall|i: int| holds(positions(*final(stack)), i) <==> holds(positions(*old(stack)), i),
        fed(steps_of(*steps), positions(*final(stack)), label@, positions(*final(next))),
        saw_last == ended(steps_of(*steps), positions(*final(stack)), label@),
{
    let ghost all = steps_of(*steps);
    sort_positions(stack);
    proof {
        holds_same(positions(*stack), positions(*old(stack)));
    }
    let ghost live = positions(*stack);
    let total = count_steps(steps);
    let n = count_positions(stack);
    let mut saw_last = false;
    let mut last_path: Option<usize> = None;
    let mut p: usize = 0;
    while p < n
        invariant
            all == steps_of(*steps),
            live == positions(*stack),
            total == all.len(),
            n == live.len(),
            p <= n,
            fed_upto(all, live, label@, positions(*next), p as int),
            saw_last == ended_upto(all, live, label@, p as int),
            last_path matches Some(v) ==> exists|q: int| 0 <= q < p && #[trigger] live[q] == v,
        decreases n - p,
    {
        let path = position_at(stack, p);
        let repeated = match last_path {
            Some(v) => v == path,
            None => false,
        };
        let ghost held = positions(*next);
        let ghost saw_before = saw_last;
        if path < total && !repeated {
            last_path = Some(path);
            let part = step_at(steps, path);
            let (alive, multi) = match part {
                DomainPatternPart::Static(_) => {
                    let same = match part.literal() {
                        Some(text) => same_text(text, label),
                        None => false,
                    };
                    (same, false)
                },
                DomainPatternPart::Wildcard(w) => (true, w.multi),
            };
            assert(alive == takes(all[path as int], label@));
            assert(multi == is_multi(all[path as int]));
            if alive {
                if multi {
                    push_position(next, path);
                }
                let at_end = spread(steps, path, next);
                if at_end {
                    saw_last = true;
                }
                proof {
                    assert forall|j: int| #[trigger]
                        holds(positions(*next), j) <==> holds(held, j) || reaches(
                            all,
                            path as int,
                            j,
                        ) by {
                        if multi {
                            holds_after_push(held, path, j);
                        }
                    }
                }
            }
            proof {
                assert(fires_at(all, live, label@, p as int) == alive);
                assert forall|j: int| #[trigger]
                    holds(positions(*next), j) <==> exists|k: int|
                        0 <= k < p + 1 && #[trigger] step_to(all, live, label@, k, j) by {
                    if holds(positions(*next), j) {
                        if holds(held, j) {
                            let k = choose|k: int|
                                0 <= k < p && #[trigger] step_to(all, live, label@, k, j);
                            assert(0 <= k < p + 1 && step_to(all, live, label@, k, j));
                        } else {
                            assert(step_to(all, live, label@, p as int, j));
                        }
                    }
                    if exists|k: int| 0 <= k < p + 1 && #[trigger] step_to(all, live, label@, k, j) {
                        let k = choose|k: int|
                            0 <= k < p + 1 && #[trigger] step_to(all, live, label@, k, j);
                        if k < p {
                            assert(holds(held, j));
                        }
                    }
                }
                if saw_last {
                    if saw_before {
                        let k = choose|k: int| 0 <= k < p && #[trigger] ends_at(all, live, label@, k);
                        assert(0 <= k < p + 1 && ends_at(all, live, label@, k));
                    } else {
                        assert(ends_at(all, live, label@, p as int));
                    }
                }
                if exists|k: int| 0 <= k < p + 1 && #[trigger] ends_at(all, live, label@, k) {
                    let k = choose|k: int| 0 <= k < p + 1 && #[trigger] ends_at(all, live, label@, k);
                    if k < p {
                        assert(saw_before);
                    }
                }
                assert(live[p as int] == path);
            }
        } else {
            proof {
                // An entry past the steps takes nothing; a repeated one adds
                // what its earlier copy already added.
                let ghost twin: int = if path < total {
                    let v = last_path->0;
                    choose|q: int| 0 <= q < p && #[trigger] live[q] == v
                } else {
                    0
                };
                assert forall|j: int| #[trigger]
                    holds(positions(*next), j) <==> exists|k: int|
                        0 <= k < p + 1 && #[trigger] step_to(all, live, label@, k, j) by {
                    if holds(positions(*next), j) {
                        let k = choose|k: int|
                            0 <= k < p && #[trigger] step_to(all, live, label@, k, j);
                        assert(0 <= k < p + 1 && step_to(all, live, label@, k, j));
                    }
                    if exists|k: int| 0 <= k < p + 1 && #[trigger] step_to(all, live, label@, k, j) {
                        let k = choose|k: int|
                            0 <= k < p + 1 && #[trigger] step_to(all, live, label@, k, j);
                        if k == p {
                            assert(path < total);
                            assert(live[twin] == live[p as int]);
                            assert(step_to(all, live, label@, twin, j));
                        }
                    }
                }
                if saw_last {
                    let k = choose|k: int| 0 <= k < p && #[trigger] ends_at(all, live, label@, k);
                    assert(0 <= k < p + 1 && ends_at(all, live, label@, k));
                }
                if exists|k: int| 0 <= k < p + 1 && #[trigger] ends_at(all, live, label@, k) {
                    let k = choose|k: int| 0 <= k < p + 1 && #[trigger] ends_at(all, live, label@, k);
                    if k == p {
                        assert(path < total);
                        assert(live[twin] == live[p as int]);
                        assert(ends_at(all, live, label@, twin));
                    }
                }
                if last_path is Some {
                    let v = last_path->0;
                    let q = choose|q: int| 0 <= q < p && #[trigger] live[q] == v;
                    assert(0 <= q < p + 1 && live[q] == v);
                }
            }
        }
        p = p + 1;
    }
    proof {
        assert forall|j: int| #[trigger]
            holds(positions(*next), j) <==> exists|k: int| #[trigger]
                step_to(all, live, label@, k, j) by {
            if exists|k: int| #[trigger] step_to(all, live, label@, k, j) {
                let k = choose|k: int| #[trigger] step_to(all, live, label@, k, j);
                assert(0 <= k < p && step_to(all, live, label@, k, j));
            }
        }
        if ended(all, live, label@) {
            let k = choose|k: int| #[trigger] ends_at(all, live, label@, k);
            assert(0 <= k < p && ends_at(all, live, label@, k));
        }
    }
    saw_last
}

} // verus!
