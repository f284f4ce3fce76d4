//! The typed representation of one pattern segment.

use std::borrow::Cow;
use vstd::prelude::*;

verus! {

/// A wildcard segment. The two flags give four meanings:
///
/// | `multi` | `optional` | takes               |
/// |---------|------------|---------------------|
/// | no      | yes        | zero or one label   |
/// | no      | no         | exactly one label   |
/// | yes     | yes        | zero or more labels |
/// | yes     | no         | one or more labels  |
#[derive(Copy, Clone, Eq, PartialEq, Debug, Structural)]
pub struct DomainPatternWildcard {
    pub multi: bool,
    pub optional: bool,
}

/// One compiled position of a pattern.
#[derive(Eq, PartialEq, Debug)]
pub enum DomainPatternPart<'a> {
    /// A literal label that a segment of the name must equal.
    Static(Cow<'a, str>),
    /// A placeholder for any label, or for a run of labels.
    Wildcard(DomainPatternWildcard),
}

/// What a step is, apart from how its text is stored.
pub enum Step {
    Static(Seq<char>),
    Wildcard(DomainPatternWildcard),
}

impl<'a> View for DomainPatternPart<'a> {
    type V = Step;

    open spec fn view(&self) -> Step {
        match self {
            DomainPatternPart::Static(text) => Step::Static(text@),
            DomainPatternPart::Wildcard(w) => Step::Wildcard(*w),
        }
    }
}

impl<'a> Clone for DomainPatternPart<'a> {
    /// A borrowed literal stays borrowed; an owned one is copied.
    fn clone(&self) -> (copy: Self)
        ensures
            copy@ == self@,
    {
        match self {
            DomainPatternPart::Static(Cow::Borrowed(text)) => DomainPatternPart::Static(
                Cow::Borrowed(*text),
            ),
            DomainPatternPart::Static(Cow::Owned(text)) => DomainPatternPart::Static(
                Cow::Owned(text.clone()),
            ),
            DomainPatternPart::Wildcard(w) => DomainPatternPart::Wildcard(*w),
        }
    }
}

impl<'a> DomainPatternPart<'a> {
    /// The text of a literal step, or `None` for a wildcard.
    pub fn literal(&self) -> (text: Option<&str>)
        ensures
            match self@ {
                Step::Static(s) => text is Some && text->0@ == s,
                Step::Wildcard(_) => text is None,
            },
    {
        match self {
            DomainPatternPart::Static(text) => Some(
                match text {
                    Cow::Borrowed(b) => *b,
                    Cow::Owned(o) => o.as_str(),
                },
            ),
            DomainPatternPart::Wildcard(_) => None,
        }
    }
}

} // verus!
