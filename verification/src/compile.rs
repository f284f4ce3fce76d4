//! From the tokens of a pattern to its steps.

use crate::buffers::{count_parts, part_at, parts, push_part, replace_part, StepVec};
use crate::step::{DomainPatternPart, DomainPatternWildcard, Step};
use crate::text::{byte_len, has_char, same_text};
use vstd::prelude::*;

verus! {

/// The steps that a step buffer holds, each taken by its view.
pub open spec fn steps_of(buf: StepVec<'_>) -> Seq<Step> {
    parts(buf).map_values(|part: DomainPatternPart<'_>| part@)
}

/// The wildcard that a token is the shorthand of, if it is one.
pub open spec fn shorthand(token: Seq<char>) -> Option<DomainPatternWildcard> {
    if token == seq!['*'] {
        Some(DomainPatternWildcard { multi: false, optional: true })
    } else if token == seq!['+'] {
        Some(DomainPatternWildcard { multi: false, optional: false })
    } else if token == seq!['*', '*'] {
        Some(DomainPatternWildcard { multi: true, optional: true })
    } else if token == seq!['*', '*', '+'] {
        Some(DomainPatternWildcard { multi: true, optional: false })
    } else {
        None
    }
}

/// A token that holds `*` or `+` without being a shorthand cannot be compiled.
pub open spec fn is_invalid(token: Seq<char>) -> bool {
    shorthand(token) is None && (token.contains('*') || token.contains('+'))
}

/// The step that a token stands for by itself.
pub open spec fn plain_step(token: Seq<char>) -> Step {
    match shorthand(token) {
        Some(w) => Step::Wildcard(w),
        None => Step::Static(token),
    }
}

/// The steps of a pattern before any folding: one for each token.
pub open spec fn unfolded(tokens: Seq<Seq<char>>) -> Seq<Step> {
    tokens.map_values(|token: Seq<char>| plain_step(token))
}

/// Whether a wildcard that follows the steps adds no step of its own: it
/// follows a wildcard, and either both take zero or more labels, or one of
/// the two is `multi` and exactly one of them is `optional`.
pub open spec fn merges(steps: Seq<Step>, w: DomainPatternWildcard) -> bool {
    &&& steps.len() > 0
    &&& steps.last() matches Step::Wildcard(last)
    &&& {
        ||| last.multi && last.optional && w.multi && w.optional
        ||| w.optional != last.optional && (last.multi || w.multi)
    }
}

/// The steps after a wildcard is appended with folding. After a wildcard,
/// - zero or more after zero or more changes nothing;
/// - two wildcards of which one is `multi` and exactly one is `optional`
///   become a single one or more;
/// - a required wildcard after one or more turns the earlier one into exactly
///   one and itself into one or more.
/// In every other case the wildcard is appended as it is.
pub open spec fn add_wildcard(steps: Seq<Step>, w: DomainPatternWildcard) -> Seq<Step> {
    if steps.len() > 0 && steps.last() is Wildcard {
        let last = steps.last()->Wildcard_0;
        if last.multi && last.optional && w.multi && w.optional {
            steps
        } else if w.optional != last.optional && (last.multi || w.multi) {
            steps.drop_last().push(
                Step::Wildcard(DomainPatternWildcard { multi: true, optional: false }),
            )
        } else if last.multi && !w.optional && !last.optional {
            steps.drop_last().push(
                Step::Wildcard(DomainPatternWildcard { multi: false, optional: false }),
            ).push(Step::Wildcard(DomainPatternWildcard { multi: true, optional: false }))
        } else {
            steps.push(Step::Wildcard(w))
        }
    } else {
        steps.push(Step::Wildcard(w))
    }
}

/// The steps after one more token.
pub open spec fn add_token(steps: Seq<Step>, token: Seq<char>) -> Seq<Step> {
    match shorthand(token) {
        Some(w) => add_wildcard(steps, w),
        None => steps.push(Step::Static(token)),
    }
}

/// The steps of a pattern: its tokens added one by one, first to last.
pub open spec fn compiled(tokens: Seq<Seq<char>>) -> Seq<Step>
    decreases tokens.len(),
{
    if tokens.len() == 0 {
        Seq::empty()
    } else {
        add_token(compiled(tokens.drop_last()), tokens.last())
    }
}

/// By how much a token moves the running offset: by its bytes and one for the
/// separator, counted twice unless the token is a wildcard that merges into
/// the step before it.
pub open spec fn offset_step(steps: Seq<Step>, token: Seq<char>) -> nat {
    if shorthand(token) matches Some(w) && merges(steps, w) {
        byte_len(token) + 1
    } else {
        2 * (byte_len(token) + 1)
    }
}

/// The running offset after the given tokens.
pub open spec fn offset_after(tokens: Seq<Seq<char>>) -> nat
    decreases tokens.len(),
{
    if tokens.len() == 0 {
        0
    } else {
        offset_after(tokens.drop_last()) + offset_step(
            compiled(tokens.drop_last()),
            tokens.last(),
        )
    }
}

/// The index of the first token that cannot be compiled, or the number of
/// tokens if all of them can.
pub open spec fn first_invalid(tokens: Seq<Seq<char>>) -> nat
    decreases tokens.len(),
{
    if tokens.len() == 0 || is_invalid(tokens[0]) {
        0
    } else {
        1 + first_invalid(tokens.drop_first())
    }
}

/// `first_invalid` is the index before which every token is valid and at
/// which, if it is an index, the token is not.
pub proof fn first_invalid_spec(tokens: Seq<Seq<char>>)
    ensures
        first_invalid(tokens) <= tokens.len(),
        forall|i: int| 0 <= i < first_invalid(tokens) ==> !is_invalid(#[trigger] tokens[i]),
        first_invalid(tokens) < tokens.len() ==> is_invalid(tokens[first_invalid(tokens) as int]),
    decreases tokens.len(),
{
    if tokens.len() == 0 || is_invalid(tokens[0]) {
    } else {
        let rest = tokens.drop_first();
        first_invalid_spec(rest);
        assert forall|i: int| 0 <= i < first_invalid(tokens) implies !is_invalid(
            #[trigger] tokens[i],
        ) by {
            if i > 0 {
                assert(tokens[i] == rest[i - 1]);
            }
        }
        if first_invalid(tokens) < tokens.len() {
            assert(rest[first_invalid(rest) as int] == tokens[first_invalid(tokens) as int]);
        }
    }
}

/// The first invalid token is where the valid ones end.
pub proof fn first_invalid_found(tokens: Seq<Seq<char>>, k: int)
    requires
        0 <= k <= tokens.len(),
        forall|i: int| 0 <= i < k ==> !is_invalid(#[trigger] tokens[i]),
        k < tokens.len() ==> is_invalid(tokens[k]),
    ensures
        first_invalid(tokens) == k,
{
    first_invalid_spec(tokens);
    let f = first_invalid(tokens) as int;
    if f < k {
        assert(!is_invalid(tokens[f]));
    }
}

/// A pattern always compiles to at least one step.
pub proof fn compiled_not_empty(tokens: Seq<Seq<char>>)
    requires
        tokens.len() > 0,
    ensures
        compiled(tokens).len() > 0,
{
}

/// Reads a token as a wildcard shorthand.
pub(crate) fn shorthand_of(token: &str) -> (w: Option<DomainPatternWildcard>)
    ensures
        w == shorthand(token@),
{
    proof {
        reveal_strlit("*");
        reveal_strlit("+");
        reveal_strlit("**");
        reveal_strlit("**+");
        assert("*"@ =~= seq!['*']);
        assert("+"@ =~= seq!['+']);
        assert("**"@ =~= seq!['*', '*']);
        assert("**+"@ =~= seq!['*', '*', '+']);
    }
    if same_text(token, "*") {
        Some(DomainPatternWildcard { multi: false, optional: true })
    } else if same_text(token, "+") {
        Some(DomainPatternWildcard { multi: false, optional: false })
    } else if same_text(token, "**") {
        Some(DomainPatternWildcard { multi: true, optional: true })
    } else if same_text(token, "**+") {
        Some(DomainPatternWildcard { multi: true, optional: false })
    } else {
        None
    }
}

/// Whether a token that is no shorthand holds a character kept for them.
pub(crate) fn holds_wildcard_char(token: &str) -> (held: bool)
    ensures
        held == (token@.contains('*') || token@.contains('+')),
{
    has_char(token, '*') || has_char(token, '+')
}

/// Appends a wildcard to the steps, folding it into the step before it where
/// the two can be told as one or reordered. Returns whether the wildcard
/// merged into that step.
pub(crate) fn push_wildcard<'a>(steps: &mut StepVec<'a>, w: DomainPatternWildcard) -> (merged: bool)
    ensures
        steps_of(*final(steps)) == add_wildcard(steps_of(*old(steps)), w),
        merged == merges(steps_of(*old(steps)), w),
{
    let mut multi = w.multi;
    let optional = w.optional;
    let n = count_parts(steps);
    let before = if n > 0 {
        match part_at(steps, n - 1) {
            DomainPatternPart::Wildcard(last) => Some(*last),
            DomainPatternPart::Static(_) => None,
        }
    } else {
        None
    };
    proof {
        if n > 0 {
            assert(steps_of(*steps).last() == parts(*steps)[n - 1]@);
        }
    }
    if let Some(last) = before {
        if last.multi && last.optional && multi && optional {
            return true;
        }
        if optional != last.optional && (last.multi || multi) {
            replace_part(
                steps,
                n - 1,
                DomainPatternPart::Wildcard(DomainPatternWildcard { multi: true, optional: false }),
            );
            assert(steps_of(*steps) =~= add_wildcard(steps_of(*old(steps)), w));
            return true;
        }
        if last.multi && !optional && !last.optional {
            replace_part(
                steps,
                n - 1,
                DomainPatternPart::Wildcard(DomainPatternWildcard { multi: false, optional: false }),
            );
            multi = true;
        }
    }
    push_part(steps, DomainPatternPart::Wildcard(DomainPatternWildcard { multi, optional }));
    assert(steps_of(*steps) =~= add_wildcard(steps_of(*old(steps)), w));
    false
}

/// Appends a step as it is.
pub(crate) fn push_step<'a>(steps: &mut StepVec<'a>, part: DomainPatternPart<'a>)
    ensures
        steps_of(*final(steps)) == steps_of(*old(steps)).push(part@),
{
    push_part(steps, part);
    assert(steps_of(*steps) =~= steps_of(*old(steps)).push(part@));
}

/// The step at an index below the number of steps.
pub(crate) fn step_at<'b, 'a>(steps: &'b StepVec<'a>, index: usize) -> (part: &'b DomainPatternPart<'a>)
    requires
        index < steps_of(*steps).len(),
    ensures
        part@ == steps_of(*steps)[index as int],
{
    part_at(steps, index)
}

/// The number of steps.
pub(crate) fn count_steps(steps: &StepVec<'_>) -> (n: usize)
    ensures
        n == steps_of(*steps).len(),
{
    count_parts(steps)
}

} // verus!
