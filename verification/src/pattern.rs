//! Compiled patterns: how they are made and how they decide.

use crate::buffers::{new_parts, new_positions, positions, push_position, truncate_positions, StepVec};
use crate::engine::{
    feed, feeding_keeps_outlook, outlook, outlook_at_start, some_thread_same,
};
use crate::folding::folding_preserves_matching;
use crate::semantics::{consumes, is_optional};
use crate::compile::{
    compiled, count_steps, first_invalid, first_invalid_found, holds_wildcard_char, is_invalid,
    offset_after, push_step, push_wildcard, shorthand_of, step_at, steps_of, unfolded,
};
use crate::error::InvalidToken;
use crate::step::{DomainPatternPart, Step};
use crate::text::{
    byte_len, byte_len_add, byte_len_one, labels, next_token, one_filtered, tokens,
};
use std::borrow::Cow;
use vstd::prelude::*;

verus! {

/// A compiled pattern: its steps, first to last, and the separator that
/// divides both the pattern and the names it is matched against.
#[derive(Debug, PartialEq, Eq)]
pub struct DomainPattern<'a> {
    steps: StepVec<'a>,
    separator: char,
}

impl<'a> View for DomainPattern<'a> {
    type V = Seq<Step>;

    /// The steps of the pattern.
    closed spec fn view(&self) -> Seq<Step> {
        steps_of(self.steps)
    }
}

impl<'a> DomainPattern<'a> {
    /// The separator that the pattern was compiled with.
    pub closed spec fn spec_separator(&self) -> char {
        self.separator
    }

    /// A compiled pattern has at least one step.
    #[verifier::type_invariant]
    spec fn has_steps(&self) -> bool {
        steps_of(self.steps).len() > 0
    }

    /// The pattern is what compiling the text with the separator gives: its
    /// steps are those of the tokens of the text, folded.
    pub open spec fn compiled_from(&self, text: Seq<char>, separator: char) -> bool {
        &&& self@ == compiled(tokens(text, separator))
        &&& self.spec_separator() == separator
    }

    /// Compiling is a function of the text and the separator: two patterns
    /// compiled from the same text with the same separator have the same
    /// steps, and so match the same names.
    pub proof fn compiling_is_deterministic(
        &self,
        other: &DomainPattern<'_>,
        text: Seq<char>,
        separator: char,
    )
        requires
            self.compiled_from(text, separator),
            other.compiled_from(text, separator),
        ensures
            self@ == other@,
            self.spec_separator() == other.spec_separator(),
            forall|name: Seq<char>| #[trigger] self.spec_matches(name) == other.spec_matches(name),
    {
    }

    /// Folding preserves matching: the pattern matches a name exactly when
    /// the steps made of its tokens one by one, with nothing folded, would.
    /// This holds of every pattern in which folding does not turn a first
    /// step that may be passed into one that may not; what a pattern such as
    /// `**.+` gains by folding is a name of one label.
    pub proof fn matches_like_unfolded(&self, text: Seq<char>, separator: char, name: Seq<char>)
        requires
            self.compiled_from(text, separator),
            is_optional(unfolded(tokens(text, separator))[0]) ==> is_optional(self@[0]),
        ensures
            self.spec_matches(name) == consumes(
                unfolded(tokens(text, separator)),
                labels(name, separator),
            ),
    {
        folding_preserves_matching(tokens(text, separator), labels(name, separator));
    }

    /// A name without labels is matched by no pattern: neither the empty
    /// name nor one made of separators only.
    pub proof fn name_without_labels_never_matches(&self, name: Seq<char>)
        requires
            labels(name, self.spec_separator()).len() == 0,
        ensures
            !self.spec_matches(name),
    {
    }

    /// What compiling a text gives. If every token can be compiled, the
    /// pattern compiled from the text. If not, an error that holds the first
    /// token that cannot, the running offset after the tokens before it, and
    /// the text.
    pub open spec fn parse_outcome(
        text: Seq<char>,
        separator: char,
        r: Result<DomainPattern<'_>, InvalidToken<'_>>,
    ) -> bool {
        let all = tokens(text, separator);
        let k = first_invalid(all) as int;
        match r {
            Ok(p) => k == all.len() && p.compiled_from(text, separator),
            Err(e) => {
                &&& k < all.len()
                &&& e.token_text() == all[k]
                &&& e.spec_position() == offset_after(all.take(k))
                &&& e.pattern_text() == text
            },
        }
    }

    /// Whether the offsets of a text fit in a `usize`. The running offset
    /// counts every token at most twice, and one more for each separator.
    pub open spec fn offsets_fit(text: Seq<char>) -> bool {
        2 * (byte_len(text) + 1) <= usize::MAX
    }

    /// Compiles a pattern. Its tokens are the pieces between the separators;
    /// each is a wildcard shorthand or a literal, and adjacent wildcards are
    /// folded. The first token that holds `*` or `+` without being a
    /// shorthand is reported with the running offset at which it was met.
    ///
    /// The offsets must fit in a `usize`; `try_parse` tests that first.
    pub fn parse(pattern: &'a str, separator: char) -> (r: Result<
        DomainPattern<'a>,
        InvalidToken<'a>,
    >)
        requires
            Self::offsets_fit(pattern@),
        ensures
            Self::parse_outcome(pattern@, separator, r),
    {
        let mut steps = new_parts();
        let mut offset: usize = 0;
        let mut rest: &'a str = pattern;
        let ghost all = tokens(pattern@, separator);
        let ghost mut done: Seq<Seq<char>> = Seq::empty();
        assert(steps_of(steps) =~= compiled(done));
        loop
            invariant
                all == tokens(pattern@, separator),
                all == done + tokens(rest@, separator),
                steps_of(steps) == compiled(done),
                offset == offset_after(done),
                forall|i: int| 0 <= i < done.len() ==> !is_invalid(#[trigger] done[i]),
                offset + 2 * (byte_len(rest@) + 1) <= 2 * (byte_len(pattern@) + 1),
                2 * (byte_len(pattern@) + 1) <= usize::MAX,
            decreases rest@.len(),
        {
            let (part, more) = next_token(rest, separator);
            let ghost before = done;
            proof {
                assert(all[done.len() as int] == part@);
                assert(all.take(done.len() as int) =~= done);
                if let Some(tail) = more {
                    byte_len_add(part@ + seq![separator], tail@);
                    byte_len_add(part@, seq![separator]);
                    byte_len_one(separator);
                }
            }
            let position = offset;
            let width = part.len() + 1;
            offset = offset + width;
            match shorthand_of(part) {
                Some(w) => {
                    let merged = push_wildcard(&mut steps, w);
                    if !merged {
                        offset = offset + width;
                    }
                },
                None => {
                    if holds_wildcard_char(part) {
                        proof {
                            first_invalid_found(all, done.len() as int);
                        }
                        return Err(InvalidToken::new(position, part, pattern));
                    }
                    push_step(&mut steps, DomainPatternPart::Static(Cow::Borrowed(part)));
                    offset = offset + width;
                },
            }
            proof {
                done = done.push(part@);
                assert(done.drop_last() =~= before);
                assert(done.last() == part@);
            }
            match more {
                Some(tail) => {
                    proof {
                        assert(all =~= done + tokens(tail@, separator));
                    }
                    rest = tail;
                },
                None => {
                    proof {
                        assert(all =~= done);
                        first_invalid_found(all, all.len() as int);
                        assert(compiled(done).len() > 0);
                    }
                    return Ok(DomainPattern { steps, separator });
                },
            }
        }
    }

    /// Whether the pattern matches a name: the labels of the name, which are
    /// its non-empty pieces between the separators, are matched by the steps
    /// with the first step taking the first label. A name without labels is
    /// never matched, and a leading wildcard is never passed over.
    pub open spec fn spec_matches(&self, name: Seq<char>) -> bool {
        consumes(self@, labels(name, self.spec_separator()))
    }

    /// Decides whether the pattern matches a name. Every position in the
    /// steps that the labels read so far can have led to is kept in a
    /// generation; each label moves the generation on, and the answer is
    /// whether the last label could bring the pattern to its end.
    pub fn matches(&self, domain: &str) -> (matched: bool)
        ensures
            matched == self.spec_matches(domain@),
    {
        let mut stack = new_positions();
        let mut next_stack = new_positions();
        push_position(&mut stack, 0);
        let mut saw_last = false;
        let mut rest = domain;
        let ghost all = labels(domain@, self.separator);
        proof {
            assert(positions(stack) =~= seq![0usize]);
            outlook_at_start(self@, positions(stack), all);
        }
        loop
            invariant
                all == labels(domain@, self.separator),
                positions(next_stack).len() == 0,
                consumes(self@, all) == outlook(
                    self@,
                    positions(stack),
                    saw_last,
                    labels(rest@, self.separator),
                ),
            decreases rest@.len(),
        {
            let (label, more) = next_token(rest, self.separator);
            let ghost pending = match more {
                Some(tail) => labels(tail@, self.separator),
                None => Seq::empty(),
            };
            proof {
                one_filtered(label@);
                assert(labels(rest@, self.separator) =~= seq![label@].filter(
                    |t: Seq<char>| t.len() > 0,
                ) + pending);
            }
            if !label.is_empty() {
                let ghost live = positions(stack);
                saw_last = feed(&self.steps, &mut stack, &mut next_stack, label);
                proof {
                    assert(labels(rest@, self.separator) =~= seq![label@] + pending);
                    some_thread_same(self@, live, positions(stack), seq![label@] + pending);
                    feeding_keeps_outlook(
                        self@,
                        positions(stack),
                        label@,
                        pending,
                        positions(next_stack),
                        saw_last,
                    );
                }
                std::mem::swap(&mut stack, &mut next_stack);
                truncate_positions(&mut next_stack, 0);
            } else {
                proof {
                    assert(labels(rest@, self.separator) =~= pending);
                }
            }
            match more {
                Some(tail) => {
                    rest = tail;
                },
                None => {
                    return saw_last;
                },
            }
        }
    }

    /// Compiles a pattern whose offsets fit in a `usize`, and returns `None`
    /// for one so long that they do not.
    pub fn try_parse(pattern: &'a str, separator: char) -> (r: Option<
        Result<DomainPattern<'a>, InvalidToken<'a>>,
    >)
        ensures
            r is Some <==> Self::offsets_fit(pattern@),
            r matches Some(outcome) ==> Self::parse_outcome(pattern@, separator, outcome),
    {
        if pattern.as_bytes().len() > (usize::MAX - 2) / 2 {
            None
        } else {
            Some(Self::parse(pattern, separator))
        }
    }

    /// A copy of the pattern that owns the text of its literals, for use
    /// beyond the life of the string it was compiled from. Its steps and its
    /// separator are those of the pattern.
    pub fn to_owned(&self) -> (owned: DomainPattern<'static>)
        ensures
            owned@ == self@,
            owned.spec_separator() == self.spec_separator(),
            forall|name: Seq<char>| #[trigger] owned.spec_matches(name) == self.spec_matches(name),
    {
        proof {
            use_type_invariant(self);
        }
        let mut steps: StepVec<'static> = new_parts();
        let n = count_steps(&self.steps);
        let mut i: usize = 0;
        while i < n
            invariant
                n == steps_of(self.steps).len(),
                i <= n,
                steps_of(steps) == steps_of(self.steps).take(i as int),
            decreases n - i,
        {
            let part = match step_at(&self.steps, i) {
                DomainPatternPart::Static(text) => {
                    let copy = match text {
                        Cow::Borrowed(borrowed) => (*borrowed).to_owned(),
                        Cow::Owned(owned) => owned.clone(),
                    };
                    DomainPatternPart::Static(Cow::Owned(copy))
                },
                DomainPatternPart::Wildcard(w) => DomainPatternPart::Wildcard(*w),
            };
            push_step(&mut steps, part);
            i = i + 1;
            assert(steps_of(self.steps).take(i as int) =~= steps_of(self.steps).take(i - 1).push(
                steps_of(self.steps)[i - 1],
            ));
        }
        assert(steps_of(steps) =~= steps_of(self.steps));
        DomainPattern { steps, separator: self.separator }
    }

    /// The separator that the pattern was compiled with.
    pub fn separator(&self) -> (separator: char)
        ensures
            separator == self.spec_separator(),
    {
        self.separator
    }

    /// The number of steps, which is at least one.
    pub fn len(&self) -> (n: usize)
        ensures
            n == self@.len(),
            n > 0,
    {
        proof {
            use_type_invariant(self);
        }
        count_steps(&self.steps)
    }

    /// The step at an index, or `None` past the last step.
    pub fn step(&self, index: usize) -> (part: Option<&DomainPatternPart<'a>>)
        ensures
            match part {
                Some(part) => index < self@.len() && part@ == self@[index as int],
                None => index >= self@.len(),
            },
    {
        if index < count_steps(&self.steps) {
            Some(step_at(&self.steps, index))
        } else {
            None
        }
    }
}

impl<'a> Clone for DomainPattern<'a> {
    /// A copy with the same steps and separator. Borrowed literals stay
    /// borrowed.
    fn clone(&self) -> (copy: Self)
        ensures
            copy@ == self@,
            copy.spec_separator() == self.spec_separator(),
            forall|name: Seq<char>| #[trigger] copy.spec_matches(name) == self.spec_matches(name),
    {
        proof {
            use_type_invariant(self);
        }
        let mut steps: StepVec<'a> = new_parts();
        let n = count_steps(&self.steps);
        let mut i: usize = 0;
        while i < n
            invariant
                n == steps_of(self.steps).len(),
                i <= n,
                steps_of(steps) == steps_of(self.steps).take(i as int),
            decreases n - i,
        {
            let part = step_at(&self.steps, i).clone();
            push_step(&mut steps, part);
            i = i + 1;
            assert(steps_of(self.steps).take(i as int) =~= steps_of(self.steps).take(i - 1).push(
                steps_of(self.steps)[i - 1],
            ));
        }
        assert(steps_of(steps) =~= steps_of(self.steps));
        DomainPattern { steps, separator: self.separator }
    }
}

} // verus!
