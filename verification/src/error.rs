//! The one way in which compiling a pattern fails.

use std::borrow::Cow;
use vstd::prelude::*;
use vstd::string::*;

verus! {

/// A text as `{:?}` writes it: between double quotes, with the characters
/// that need it escaped.
pub uninterp spec fn quoted(text: Seq<char>) -> Seq<char>;

/// The decimal digit of a number below ten.
pub open spec fn digit(d: nat) -> char {
    seq!['0', '1', '2', '3', '4', '5', '6', '7', '8', '9'][d as int]
}

/// A number in decimal digits, without sign or leading zeros.
pub open spec fn decimal(n: nat) -> Seq<char>
    decreases n,
{
    if n < 10 {
        seq![digit(n)]
    } else {
        decimal(n / 10).push(digit(n % 10))
    }
}

/// `format!` with `{:?}` on a string slice: the text as `Debug` writes it.
#[verifier::external_body]
pub(crate) fn quote(text: &str) -> (out: String)
    ensures
        out@ == quoted(text@),
{
    format!("{:?}", text)
}

/// `format!` with `{}` on a `usize`: the number in decimal digits.
#[verifier::external_body]
pub(crate) fn decimal_of(n: usize) -> (out: String)
    ensures
        out@ == decimal(n as nat),
{
    format!("{}", n)
}

/// A token that is neither a wildcard shorthand nor free of `*` and `+`.
#[derive(Debug)]
pub struct InvalidToken<'a> {
    position: usize,
    unexpected_token: Cow<'a, str>,
    full_string: Cow<'a, str>,
}

impl<'a> InvalidToken<'a> {
    /// The running offset at which the token was met.
    pub closed spec fn spec_position(&self) -> usize {
        self.position
    }

    /// The characters of the offending token.
    pub closed spec fn token_text(&self) -> Seq<char> {
        self.unexpected_token@
    }

    /// The characters of the pattern that held the token.
    pub closed spec fn pattern_text(&self) -> Seq<char> {
        self.full_string@
    }

    /// The message that describes the error: the token, its offset and the
    /// pattern, the two texts quoted.
    pub open spec fn spec_message(&self) -> Seq<char> {
        "Invalid token "@ + quoted(self.token_text()) + " at position "@ + decimal(
            self.spec_position() as nat,
        ) + " in pattern "@ + quoted(self.pattern_text())
    }

    /// An error for a token of a pattern, met at the given offset.
    pub fn new(position: usize, token: &'a str, pattern: &'a str) -> (e: Self)
        ensures
            e.spec_position() == position,
            e.token_text() == token@,
            e.pattern_text() == pattern@,
    {
        InvalidToken {
            position,
            unexpected_token: Cow::Borrowed(token),
            full_string: Cow::Borrowed(pattern),
        }
    }

    #[verifier::when_used_as_spec(spec_position)]
    pub fn position(&self) -> (position: usize)
        ensures
            position == self.spec_position(),
    {
        self.position
    }

    pub fn unexpected_token(&self) -> (token: &str)
        ensures
            token@ == self.token_text(),
    {
        match &self.unexpected_token {
            Cow::Borrowed(text) => *text,
            Cow::Owned(text) => text.as_str(),
        }
    }

    /// Renders the error for a reader.
    pub fn message(&self) -> (out: String)
        ensures
            out@ == self.spec_message(),
    {
        let mut out = String::from_str("Invalid token ");
        out.append(quote(self.unexpected_token()).as_str());
        out.append(" at position ");
        out.append(decimal_of(self.position).as_str());
        out.append(" in pattern ");
        out.append(quote(self.full_string()).as_str());
        out
    }

    pub fn full_string(&self) -> (pattern: &str)
        ensures
            pattern@ == self.pattern_text(),
    {
        match &self.full_string {
            Cow::Borrowed(text) => *text,
            Cow::Owned(text) => text.as_str(),
        }
    }
}

} // verus!
