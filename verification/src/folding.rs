//! Folding adjacent wildcards does not change what a pattern matches.

use crate::compile::{add_wildcard, compiled, plain_step, shorthand, unfolded};
use crate::semantics::{accepts, consumes, is_optional};
use crate::step::{DomainPatternWildcard, Step};
use vstd::prelude::*;

verus! {

/// The steps `z` match what is left of the labels behind the first `n`.
pub open spec fn suits(z: Seq<Step>, labels: Seq<Seq<char>>, n: int) -> bool {
    0 <= n <= labels.len() && accepts(z, labels.skip(n))
}

/// The steps `z` match what is left behind some number of labels from `lo`
/// to `hi`.
pub open spec fn within(z: Seq<Step>, labels: Seq<Seq<char>>, lo: int, hi: int) -> bool {
    exists|n: int| lo <= n <= hi && #[trigger] suits(z, labels, n)
}

/// The least number of labels that a wildcard takes.
pub open spec fn least(w: DomainPatternWildcard) -> int {
    if w.optional {
        0
    } else {
        1
    }
}

/// The greatest number of the given labels that a wildcard can take.
pub open spec fn most(w: DomainPatternWildcard, labels: Seq<Seq<char>>) -> int {
    if w.multi {
        labels.len() as int
    } else {
        1
    }
}

proof fn head_of(step: Step, z: Seq<Step>)
    ensures
        (seq![step] + z).len() > 0,
        (seq![step] + z)[0] == step,
        (seq![step] + z).skip(1) == z,
{
    assert((seq![step] + z).skip(1) =~= z);
}

/// A `multi` wildcard that takes the first label may take any number of
/// labels from one on.
proof fn multi_takes(w: DomainPatternWildcard, z: Seq<Step>, labels: Seq<Seq<char>>)
    requires
        w.multi,
    ensures
        consumes(seq![Step::Wildcard(w)] + z, labels) == within(z, labels, 1, labels.len() as int),
    decreases labels.len(),
{
    let s = seq![Step::Wildcard(w)] + z;
    head_of(Step::Wildcard(w), z);
    if labels.len() > 0 {
        let rest = labels.skip(1);
        multi_takes(w, z, rest);
        if consumes(s, labels) {
            if accepts(z, rest) {
                assert(suits(z, labels, 1));
            } else {
                let n = choose|n: int| 1 <= n <= rest.len() && #[trigger] suits(z, rest, n);
                assert(rest.skip(n) =~= labels.skip(n + 1));
                assert(suits(z, labels, n + 1));
            }
        }
        if within(z, labels, 1, labels.len() as int) {
            let n = choose|n: int| 1 <= n <= labels.len() && #[trigger] suits(z, labels, n);
            if n > 1 {
                assert(rest.skip(n - 1) =~= labels.skip(n));
                assert(suits(z, rest, n - 1));
            }
        }
    }
}

/// A wildcard takes some number of labels between its least and its most.
proof fn wildcard_counts(w: DomainPatternWildcard, z: Seq<Step>, labels: Seq<Seq<char>>)
    ensures
        accepts(seq![Step::Wildcard(w)] + z, labels) == within(
            z,
            labels,
            least(w),
            most(w, labels),
        ),
{
    let s = seq![Step::Wildcard(w)] + z;
    head_of(Step::Wildcard(w), z);
    assert(labels.skip(0) =~= labels);
    assert(accepts(s, labels) == ((w.optional && accepts(z, labels)) || consumes(s, labels)));
    assert(consumes(s, labels) == (labels.len() > 0 && (accepts(z, labels.skip(1)) || (w.multi
        && consumes(s, labels.skip(1))))));
    if w.multi {
        multi_takes(w, z, labels);
        if accepts(s, labels) {
            if consumes(s, labels) {
                let n = choose|n: int| 1 <= n <= labels.len() && #[trigger] suits(z, labels, n);
                assert(least(w) <= n <= most(w, labels) && suits(z, labels, n));
            } else {
                assert(suits(z, labels, 0));
            }
        }
        if within(z, labels, least(w), most(w, labels)) {
            let n = choose|n: int|
                least(w) <= n <= most(w, labels) && #[trigger] suits(z, labels, n);
            if n > 0 {
                assert(1 <= n <= labels.len() && suits(z, labels, n));
            }
        }
    } else {
        if accepts(s, labels) {
            if consumes(s, labels) {
                assert(suits(z, labels, 1));
            } else {
                assert(suits(z, labels, 0));
            }
        }
        if within(z, labels, least(w), most(w, labels)) {
            let n = choose|n: int|
                least(w) <= n <= most(w, labels) && #[trigger] suits(z, labels, n);
            assert(n == 0 || n == 1);
        }
    }
}

/// Two wildcards in a row, one of them `multi`, take any number of labels
/// from the sum of their least numbers on.
proof fn pair_counts(
    l: DomainPatternWildcard,
    w: DomainPatternWildcard,
    z: Seq<Step>,
    labels: Seq<Seq<char>>,
)
    requires
        l.multi || w.multi,
    ensures
        accepts(seq![Step::Wildcard(l), Step::Wildcard(w)] + z, labels) == within(
            z,
            labels,
            least(l) + least(w),
            labels.len() as int,
        ),
{
    let wz = seq![Step::Wildcard(w)] + z;
    let s = seq![Step::Wildcard(l), Step::Wildcard(w)] + z;
    assert(s =~= seq![Step::Wildcard(l)] + wz);
    wildcard_counts(l, wz, labels);
    if accepts(s, labels) {
        let n1 = choose|n: int| least(l) <= n <= most(l, labels) && #[trigger] suits(wz, labels, n);
        let behind = labels.skip(n1);
        wildcard_counts(w, z, behind);
        let n2 = choose|n: int| least(w) <= n <= most(w, behind) && #[trigger] suits(z, behind, n);
        assert(behind.skip(n2) =~= labels.skip(n1 + n2));
        assert(suits(z, labels, n1 + n2));
    }
    if within(z, labels, least(l) + least(w), labels.len() as int) {
        let n = choose|n: int|
            least(l) + least(w) <= n <= labels.len() && #[trigger] suits(z, labels, n);
        let n1 = if l.multi {
            n - least(w)
        } else {
            least(l)
        };
        let n2 = n - n1;
        let behind = labels.skip(n1);
        wildcard_counts(w, z, behind);
        assert(behind.skip(n2) =~= labels.skip(n));
        assert(suits(z, behind, n2));
        assert(least(w) <= n2 <= most(w, behind));
        assert(suits(wz, labels, n1));
    }
}

/// Folding a wildcard into the one before it leaves the steps in front of
/// the two as they are.
proof fn fold_is_local(d: Seq<Step>, l: DomainPatternWildcard, w: DomainPatternWildcard)
    ensures
        add_wildcard(d.push(Step::Wildcard(l)), w) == d + add_wildcard(
            seq![Step::Wildcard(l)],
            w,
        ),
{
    let one = seq![Step::Wildcard(l)];
    let all = d.push(Step::Wildcard(l));
    assert(one.last() == Step::Wildcard(l));
    assert(all.last() == Step::Wildcard(l));
    assert(one.drop_last() =~= Seq::<Step>::empty());
    assert(all.drop_last() =~= d);
    assert(add_wildcard(all, w) =~= d + add_wildcard(one, w));
}

/// A folded pair of wildcards matches what the pair matched.
proof fn pair_folds(
    l: DomainPatternWildcard,
    w: DomainPatternWildcard,
    z: Seq<Step>,
    labels: Seq<Seq<char>>,
)
    ensures
        accepts(add_wildcard(seq![Step::Wildcard(l)], w) + z, labels) == accepts(
            seq![Step::Wildcard(l), Step::Wildcard(w)] + z,
            labels,
        ),
{
    let one = seq![Step::Wildcard(l)];
    let pair = seq![Step::Wildcard(l), Step::Wildcard(w)];
    let folded = add_wildcard(one, w);
    assert(one.last() == Step::Wildcard(l));
    assert(one.drop_last() =~= Seq::<Step>::empty());
    if l.multi && l.optional && w.multi && w.optional {
        assert(folded =~= one);
        wildcard_counts(l, z, labels);
        pair_counts(l, w, z, labels);
    } else if w.optional != l.optional && (l.multi || w.multi) {
        let merged = DomainPatternWildcard { multi: true, optional: false };
        assert(folded =~= seq![Step::Wildcard(merged)]);
        wildcard_counts(merged, z, labels);
        pair_counts(l, w, z, labels);
    } else if l.multi && !w.optional && !l.optional {
        let single = DomainPatternWildcard { multi: false, optional: false };
        let merged = DomainPatternWildcard { multi: true, optional: false };
        assert(folded =~= seq![Step::Wildcard(single), Step::Wildcard(merged)]);
        pair_counts(single, merged, z, labels);
        pair_counts(l, w, z, labels);
    } else {
        assert(folded =~= pair);
    }
}

/// What a folded pair at the head of a pattern matches when its first step
/// has to take the first label: all that the pair matched in that way, and
/// no more if the fold left the first step `optional` where it was.
proof fn pair_folds_at_head(
    l: DomainPatternWildcard,
    w: DomainPatternWildcard,
    z: Seq<Step>,
    labels: Seq<Seq<char>>,
)
    ensures
        add_wildcard(seq![Step::Wildcard(l)], w).len() > 0,
        is_optional(add_wildcard(seq![Step::Wildcard(l)], w)[0]) ==> l.optional,
        consumes(seq![Step::Wildcard(l), Step::Wildcard(w)] + z, labels) ==> consumes(
            add_wildcard(seq![Step::Wildcard(l)], w) + z,
            labels,
        ),
        (l.optional ==> is_optional(add_wildcard(seq![Step::Wildcard(l)], w)[0])) ==> consumes(
            add_wildcard(seq![Step::Wildcard(l)], w) + z,
            labels,
        ) == consumes(seq![Step::Wildcard(l), Step::Wildcard(w)] + z, labels),
{
    let one = seq![Step::Wildcard(l)];
    let pair = seq![Step::Wildcard(l), Step::Wildcard(w)];
    let folded = add_wildcard(one, w);
    let wz = seq![Step::Wildcard(w)] + z;
    assert(one.last() == Step::Wildcard(l));
    assert(one.drop_last() =~= Seq::<Step>::empty());
    pair_folds(l, w, z, labels);
    assert((pair + z)[0] == Step::Wildcard(l));
    if l.multi && l.optional && w.multi && w.optional {
        assert(folded =~= one);
        assert(pair + z =~= one + wz);
        multi_takes(l, z, labels);
        multi_takes(l, wz, labels);
        if within(z, labels, 1, labels.len() as int) {
            let n = choose|n: int| 1 <= n <= labels.len() && #[trigger] suits(z, labels, n);
            let behind = labels.skip(n);
            wildcard_counts(w, z, behind);
            assert(behind.skip(0) =~= behind);
            assert(suits(z, behind, 0));
            assert(suits(wz, labels, n));
        }
        if within(wz, labels, 1, labels.len() as int) {
            let n1 = choose|n: int| 1 <= n <= labels.len() && #[trigger] suits(wz, labels, n);
            let behind = labels.skip(n1);
            wildcard_counts(w, z, behind);
            let n2 = choose|n: int|
                least(w) <= n <= most(w, behind) && #[trigger] suits(z, behind, n);
            assert(behind.skip(n2) =~= labels.skip(n1 + n2));
            assert(suits(z, labels, n1 + n2));
        }
    } else if w.optional != l.optional && (l.multi || w.multi) {
        let merged = DomainPatternWildcard { multi: true, optional: false };
        assert(folded =~= seq![Step::Wildcard(merged)]);
        assert((folded + z)[0] == Step::Wildcard(merged));
    } else if l.multi && !w.optional && !l.optional {
        let single = DomainPatternWildcard { multi: false, optional: false };
        let merged = DomainPatternWildcard { multi: true, optional: false };
        assert(folded =~= seq![Step::Wildcard(single), Step::Wildcard(merged)]);
        assert((folded + z)[0] == Step::Wildcard(single));
    } else {
        assert(folded =~= pair);
    }
}

/// Steps that match alike match alike behind any steps in front of them.
proof fn same_behind(d: Seq<Step>, x: Seq<Step>, y: Seq<Step>, labels: Seq<Seq<char>>)
    requires
        forall|m: Seq<Seq<char>>| #[trigger] accepts(x, m) == accepts(y, m),
    ensures
        accepts(d + x, labels) == accepts(d + y, labels),
        d.len() > 0 ==> consumes(d + x, labels) == consumes(d + y, labels),
    decreases labels.len(), d.len(),
{
    if d.len() == 0 {
        assert(d + x =~= x);
        assert(d + y =~= y);
    } else {
        let behind = d.skip(1);
        assert((d + x).skip(1) =~= behind + x);
        assert((d + y).skip(1) =~= behind + y);
        assert((d + x)[0] == d[0]);
        assert((d + y)[0] == d[0]);
        same_behind(behind, x, y, labels);
        if labels.len() > 0 {
            same_behind(behind, x, y, labels.skip(1));
            same_behind(d, x, y, labels.skip(1));
        }
        assert(consumes(d + x, labels) == consumes(d + y, labels));
        assert(accepts(d + x, labels) == ((is_optional(d[0]) && accepts(behind + x, labels))
            || consumes(d + x, labels)));
        assert(accepts(d + y, labels) == ((is_optional(d[0]) && accepts(behind + y, labels))
            || consumes(d + y, labels)));
    }
}

/// The whole of what folding keeps, with any steps `y` behind the pattern.
proof fn folding_holds(tokens: Seq<Seq<char>>, y: Seq<Step>, labels: Seq<Seq<char>>)
    ensures
        tokens.len() > 0 ==> compiled(tokens).len() > 0,
        tokens.len() > 0 && is_optional(compiled(tokens)[0]) ==> is_optional(unfolded(tokens)[0]),
        accepts(compiled(tokens) + y, labels) == accepts(unfolded(tokens) + y, labels),
        tokens.len() > 0 && consumes(unfolded(tokens) + y, labels) ==> consumes(
            compiled(tokens) + y,
            labels,
        ),
        tokens.len() > 0 && (is_optional(unfolded(tokens)[0]) ==> is_optional(
            compiled(tokens)[0],
        )) ==> consumes(compiled(tokens) + y, labels) == consumes(unfolded(tokens) + y, labels),
    decreases tokens.len(),
{
    let f = compiled(tokens);
    let u = unfolded(tokens);
    if tokens.len() == 0 {
        assert(u =~= f);
    } else {
        let init = tokens.drop_last();
        let t = tokens.last();
        let s = plain_step(t);
        let f0 = compiled(init);
        let u0 = unfolded(init);
        let sy = seq![s] + y;
        assert(u =~= u0.push(s));
        assert(u + y =~= u0 + sy);
        folding_holds(init, sy, labels);
        if init.len() == 0 {
            assert(f0 =~= Seq::<Step>::empty());
            assert(f =~= seq![s]);
            assert(u =~= seq![s]);
        } else {
            assert(u[0] == u0[0]);
            if shorthand(t) is Some && f0.last() is Wildcard {
                let w = shorthand(t)->0;
                let l = f0.last()->Wildcard_0;
                let d = f0.drop_last();
                let x1 = add_wildcard(seq![Step::Wildcard(l)], w);
                let x2 = seq![Step::Wildcard(l), Step::Wildcard(w)];
                assert(f0 =~= d.push(Step::Wildcard(l)));
                fold_is_local(d, l, w);
                assert(f == d + x1);
                assert(f + y =~= d + (x1 + y));
                assert(f0 + sy =~= d + (x2 + y));
                assert forall|m: Seq<Seq<char>>| #[trigger]
                    accepts(x1 + y, m) == accepts(x2 + y, m) by {
                    pair_folds(l, w, y, m);
                }
                same_behind(d, x1 + y, x2 + y, labels);
                pair_folds_at_head(l, w, y, labels);
                if d.len() > 0 {
                    assert(f[0] == f0[0]);
                } else {
                    assert(d + (x1 + y) =~= x1 + y);
                    assert(d + (x2 + y) =~= x2 + y);
                    assert(f =~= x1);
                    assert(f0[0] == Step::Wildcard(l));
                }
            } else {
                assert(f =~= f0.push(s));
                assert(f + y =~= f0 + sy);
                assert(f[0] == f0[0]);
            }
        }
    }
}

/// Folding keeps the language of a pattern: the folded steps match a sequence
/// of labels exactly when the steps made token by token do.
pub proof fn folding_keeps_language(tokens: Seq<Seq<char>>, labels: Seq<Seq<char>>)
    ensures
        accepts(compiled(tokens), labels) == accepts(unfolded(tokens), labels),
{
    let none = Seq::<Step>::empty();
    folding_holds(tokens, none, labels);
    assert(compiled(tokens) + none =~= compiled(tokens));
    assert(unfolded(tokens) + none =~= unfolded(tokens));
}

/// Folding loses no match: labels that the matcher accepts on the steps made
/// token by token, it accepts on the folded steps.
pub proof fn folding_loses_no_match(tokens: Seq<Seq<char>>, labels: Seq<Seq<char>>)
    ensures
        consumes(unfolded(tokens), labels) ==> consumes(compiled(tokens), labels),
{
    let none = Seq::<Step>::empty();
    folding_holds(tokens, none, labels);
    assert(compiled(tokens) + none =~= compiled(tokens));
    assert(unfolded(tokens) + none =~= unfolded(tokens));
    assert(tokens.len() == 0 ==> unfolded(tokens).len() == 0);
}

/// Folding preserves matching: the matcher gives the same answer on the
/// folded steps as on the steps made token by token, for every sequence of
/// labels. This holds of every pattern in which folding does not turn a
/// first step that may be passed into one that may not. The matcher never
/// passes over the first step, so for a pattern such as `**.+`, which folds
/// into `**+`, a single label is matched after folding and not before.
pub proof fn folding_preserves_matching(tokens: Seq<Seq<char>>, labels: Seq<Seq<char>>)
    requires
        tokens.len() > 0 && is_optional(unfolded(tokens)[0]) ==> is_optional(compiled(tokens)[0]),
    ensures
        consumes(compiled(tokens), labels) == consumes(unfolded(tokens), labels),
{
    let none = Seq::<Step>::empty();
    folding_holds(tokens, none, labels);
    assert(tokens.len() == 0 ==> unfolded(tokens).len() == 0);
    assert(compiled(tokens) + none =~= compiled(tokens));
    assert(unfolded(tokens) + none =~= unfolded(tokens));
}

} // verus!
