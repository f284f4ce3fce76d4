//! Cutting a string at its separators.

use vstd::prelude::*;

verus! {

/// The number of characters of `s` that stand before the first `sep`: all of
/// them if `s` holds no `sep`.
pub open spec fn head_len(s: Seq<char>, sep: char) -> nat
    decreases s.len(),
{
    if s.len() == 0 || s[0] == sep {
        0
    } else {
        1 + head_len(s.drop_first(), sep)
    }
}

/// The pieces between the separators of `s`, empty ones included. A string
/// without a separator is one piece, so the result is never empty.
pub open spec fn tokens(s: Seq<char>, sep: char) -> Seq<Seq<char>>
    decreases s.len(),
{
    let n = head_len(s, sep) as int;
    if n >= s.len() {
        seq![s]
    } else {
        seq![s.take(n)] + tokens(s.skip(n + 1), sep)
    }
}

/// The labels of a name: its pieces, without the empty ones that leading,
/// trailing and doubled separators leave.
pub open spec fn labels(s: Seq<char>, sep: char) -> Seq<Seq<char>>
    decreases s.len(),
{
    let n = head_len(s, sep) as int;
    let head = if n == 0 {
        Seq::<Seq<char>>::empty()
    } else {
        seq![s.take(n)]
    };
    if n >= s.len() {
        head
    } else {
        head + labels(s.skip(n + 1), sep)
    }
}

/// The empty text has no labels.
pub proof fn empty_text_has_no_labels(sep: char)
    ensures
        labels(Seq::<char>::empty(), sep).len() == 0,
{
}

/// `head_len` stays within the string, stops at a separator and passes none.
pub proof fn head_len_spec(s: Seq<char>, sep: char)
    ensures
        head_len(s, sep) <= s.len(),
        head_len(s, sep) < s.len() ==> s[head_len(s, sep) as int] == sep,
        !s.take(head_len(s, sep) as int).contains(sep),
        head_len(s, sep) == s.len() <==> !s.contains(sep),
    decreases s.len(),
{
    let n = head_len(s, sep) as int;
    if s.len() == 0 || s[0] == sep {
        assert(s.take(0).len() == 0);
    } else {
        let t = s.drop_first();
        head_len_spec(t, sep);
        let m = head_len(t, sep) as int;
        assert forall|i: int| 0 <= i < n implies s.take(n)[i] != sep by {
            if i > 0 {
                assert(t.take(m)[i - 1] == s[i]);
                assert(t.take(m).contains(s[i]));
            }
        }
        if n == s.len() {
            assert forall|i: int| 0 <= i < s.len() implies s[i] != sep by {
                assert(s.take(n)[i] == s[i]);
            }
        }
    }
    if n < s.len() {
        assert(s.contains(sep));
    }
}

/// A string cut at the first separator: `head_len` is the length of the part
/// before it.
pub proof fn head_len_of_cut(head: Seq<char>, sep: char, tail: Seq<char>)
    requires
        !head.contains(sep),
    ensures
        head_len(head + seq![sep] + tail, sep) == head.len(),
        (head + seq![sep] + tail).take(head.len() as int) == head,
        (head + seq![sep] + tail).skip(head.len() as int + 1) == tail,
    decreases head.len(),
{
    let s = head + seq![sep] + tail;
    assert(s.take(head.len() as int) =~= head);
    assert(s.skip(head.len() as int + 1) =~= tail);
    if head.len() > 0 {
        assert(head.contains(head[0]));
        assert(s[0] == head[0]);
        let rest = head.drop_first();
        assert forall|i: int| 0 <= i < rest.len() implies rest[i] != sep by {
            assert(head.contains(head[i + 1]));
        }
        head_len_of_cut(rest, sep, tail);
        assert(s.drop_first() =~= rest + seq![sep] + tail);
    } else {
        assert(s[0] == sep);
    }
}

/// `str::split_once` with a `char`: the parts before and after the first
/// separator, or `None` for a string that holds none.
#[verifier::external_body]
pub(crate) fn split_first<'a>(s: &'a str, sep: char) -> (cut: Option<(&'a str, &'a str)>)
    ensures
        match cut {
            Some((head, tail)) => s@ == head@ + seq![sep] + tail@ && !head@.contains(sep),
            None => !s@.contains(sep),
        },
{
    s.split_once(sep)
}

/// `==` on two string slices: whether they hold the same characters.
#[verifier::external_body]
pub(crate) fn same_text(a: &str, b: &str) -> (same: bool)
    ensures
        same == (a@ == b@),
{
    a == b
}

/// Cuts the first piece off a string. The second part is what is left behind
/// the separator, or `None` when the piece was the last one.
pub(crate) fn next_token<'a>(s: &'a str, sep: char) -> (cut: (&'a str, Option<&'a str>))
    ensures
        cut.0@ == tokens(s@, sep)[0],
        match cut.1 {
            Some(rest) => {
                &&& s@ == cut.0@ + seq![sep] + rest@
                &&& head_len(s@, sep) < s@.len()
                &&& rest@ == s@.skip(head_len(s@, sep) as int + 1)
                &&& tokens(s@, sep) == seq![cut.0@] + tokens(rest@, sep)
                &&& labels(s@, sep) == seq![cut.0@].filter(|t: Seq<char>| t.len() > 0) + labels(rest@, sep)
            },
            None => {
                &&& head_len(s@, sep) == s@.len()
                &&& tokens(s@, sep) == seq![s@]
                &&& labels(s@, sep) == seq![s@].filter(|t: Seq<char>| t.len() > 0)
            },
        },
{
    proof {
        head_len_spec(s@, sep);
    }
    match split_first(s, sep) {
        Some((head, tail)) => {
            proof {
                head_len_of_cut(head@, sep, tail@);
                one_filtered(head@);
            }
            (head, Some(tail))
        },
        None => {
            proof {
                assert(s@.take(s@.len() as int) =~= s@);
                one_filtered(s@);
            }
            (s, None)
        },
    }
}

/// Filtering a single piece keeps it unless it is empty.
pub proof fn one_filtered(t: Seq<char>)
    ensures
        seq![t].filter(|t: Seq<char>| t.len() > 0) == if t.len() == 0 {
            Seq::<Seq<char>>::empty()
        } else {
            seq![t]
        },
{
    reveal(Seq::filter);
    let one = seq![t];
    assert(one.drop_last() =~= Seq::<Seq<char>>::empty());
    assert(one.drop_last().filter(|t: Seq<char>| t.len() > 0) =~= Seq::<Seq<char>>::empty());
    assert(one.filter(|t: Seq<char>| t.len() > 0) =~= if t.len() == 0 {
        Seq::<Seq<char>>::empty()
    } else {
        seq![t]
    });
}

/// Whether a string holds a given character.
pub(crate) fn has_char(s: &str, c: char) -> (found: bool)
    ensures
        found == s@.contains(c),
{
    broadcast use vstd::string::group_string_axioms;

    let mut found = false;
    let chars = s.chars();
    for ch in it: chars
        invariant
            it.seq() == s@,
            found == exists|i: int| 0 <= i < it.index() && #[trigger] s@[i] == c,
    {
        if ch == c {
            found = true;
        }
    }
    found
}

/// The number of bytes that a text takes in UTF-8, which is what `str::len`
/// counts.
pub open spec fn byte_len(s: Seq<char>) -> nat {
    vstd::utf8::encode_utf8(s).len()
}

/// The bytes of two texts in a row are the bytes of the first and then those
/// of the second.
pub proof fn byte_len_add(a: Seq<char>, b: Seq<char>)
    ensures
        byte_len(a + b) == byte_len(a) + byte_len(b),
    decreases a.len(),
{
    if a.len() == 0 {
        assert(a + b =~= b);
    } else {
        assert((a + b).drop_first() =~= a.drop_first() + b);
        byte_len_add(a.drop_first(), b);
    }
}

/// Every character takes at least one byte.
pub proof fn byte_len_one(c: char)
    ensures
        byte_len(seq![c]) >= 1,
{
    let s = seq![c];
    assert(s.drop_first().len() == 0);
    assert(byte_len(s.drop_first()) == 0);
}

} // verus!
