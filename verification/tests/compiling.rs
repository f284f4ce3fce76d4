use domain_pattern::{DomainPattern, DomainPatternPart, DomainPatternWildcard};

const ZERO_OR_ONE: DomainPatternWildcard = DomainPatternWildcard { multi: false, optional: true };
const EXACTLY_ONE: DomainPatternWildcard = DomainPatternWildcard { multi: false, optional: false };
const ZERO_OR_MORE: DomainPatternWildcard = DomainPatternWildcard { multi: true, optional: true };
const ONE_OR_MORE: DomainPatternWildcard = DomainPatternWildcard { multi: true, optional: false };

fn wildcards(pattern: &str) -> Vec<DomainPatternWildcard> {
    let compiled = DomainPattern::parse(pattern, '.').unwrap();
    (0..compiled.len())
        .map(|i| match compiled.step(i) {
            Some(DomainPatternPart::Wildcard(w)) => *w,
            other => panic!("no wildcard at {i}: {other:?}"),
        })
        .collect()
}

#[test]
fn shorthands_compile_to_their_flags() {
    assert_eq!(wildcards("*"), vec![ZERO_OR_ONE]);
    assert_eq!(wildcards("+"), vec![EXACTLY_ONE]);
    assert_eq!(wildcards("**"), vec![ZERO_OR_MORE]);
    assert_eq!(wildcards("**+"), vec![ONE_OR_MORE]);
}

#[test]
fn literals_keep_their_text_and_order() {
    let pattern = DomainPattern::parse("sub.domain.tld", '.').unwrap();
    assert_eq!(pattern.len(), 3);
    assert_eq!(pattern.step(0).unwrap().literal(), Some("sub"));
    assert_eq!(pattern.step(1).unwrap().literal(), Some("domain"));
    assert_eq!(pattern.step(2).unwrap().literal(), Some("tld"));
    assert!(pattern.step(3).is_none());
}

#[test]
fn empty_tokens_are_literals() {
    let pattern = DomainPattern::parse("a..b.", '.').unwrap();
    assert_eq!(pattern.len(), 4);
    assert_eq!(pattern.step(1).unwrap().literal(), Some(""));
    assert_eq!(pattern.step(3).unwrap().literal(), Some(""));
}

#[test]
fn wildcard_steps_have_no_literal() {
    let pattern = DomainPattern::parse("**.a", '.').unwrap();
    assert_eq!(pattern.step(0).unwrap().literal(), None);
    assert_eq!(pattern.step(1).unwrap().literal(), Some("a"));
}

#[test]
fn five_zero_or_more_fold_into_one() {
    assert_eq!(wildcards("**.**.**.**.**"), vec![ZERO_OR_MORE]);
}

#[test]
fn one_or_more_cascades_to_the_right() {
    assert_eq!(wildcards("**+.+.**+"), vec![EXACTLY_ONE, EXACTLY_ONE, ONE_OR_MORE]);
    assert_eq!(wildcards("**+.+"), vec![EXACTLY_ONE, ONE_OR_MORE]);
    assert_eq!(wildcards("**+.**+"), vec![EXACTLY_ONE, ONE_OR_MORE]);
}

#[test]
fn differing_optional_with_a_multi_merges() {
    for pattern in ["**.+", "**+.*", "*.**+", "+.**", "**.**+", "**+.**"] {
        assert_eq!(wildcards(pattern), vec![ONE_OR_MORE], "{pattern}");
    }
}

#[test]
fn pairs_without_a_fold_stay_apart() {
    assert_eq!(wildcards("+.*"), vec![EXACTLY_ONE, ZERO_OR_ONE]);
    assert_eq!(wildcards("*.+"), vec![ZERO_OR_ONE, EXACTLY_ONE]);
    assert_eq!(wildcards("*.*"), vec![ZERO_OR_ONE, ZERO_OR_ONE]);
    assert_eq!(wildcards("+.+"), vec![EXACTLY_ONE, EXACTLY_ONE]);
    assert_eq!(wildcards("*.**"), vec![ZERO_OR_ONE, ZERO_OR_MORE]);
    assert_eq!(wildcards("**.*"), vec![ZERO_OR_MORE, ZERO_OR_ONE]);
    assert_eq!(wildcards("+.**+"), vec![EXACTLY_ONE, ONE_OR_MORE]);
}

#[test]
fn a_literal_stops_the_folding() {
    let pattern = DomainPattern::parse("**.a.**", '.').unwrap();
    assert_eq!(pattern.len(), 3);
    let pattern = DomainPattern::parse("**.**.a.**+.+", '.').unwrap();
    assert_eq!(pattern.len(), 4);
}

#[test]
fn compiling_twice_gives_equal_patterns() {
    for text in ["nice.**.nice", "**+.+.**+", "", "a..b", "*.*.**+.x.**.**"] {
        let first = DomainPattern::parse(text, '.').unwrap();
        let second = DomainPattern::parse(text, '.').unwrap();
        assert_eq!(first, second, "{text}");
        assert_eq!(first.len(), second.len());
    }
}

#[test]
fn separator_decides_the_tokens() {
    let dotted = DomainPattern::parse("a/b.c", '.').unwrap();
    assert_eq!(dotted.len(), 2);
    assert_eq!(dotted.step(0).unwrap().literal(), Some("a/b"));
    let slashed = DomainPattern::parse("a/b.c", '/').unwrap();
    assert_eq!(slashed.len(), 2);
    assert_eq!(slashed.step(1).unwrap().literal(), Some("b.c"));
}

#[test]
fn stray_wildcard_characters_are_rejected() {
    for text in ["a*", "*a", "a+b", "***", "++", "*+", "+*", "**+x", "ok.**+.a*b.c"] {
        assert!(DomainPattern::parse(text, '.').is_err(), "{text}");
    }
}

#[test]
fn error_names_token_and_pattern() {
    let error = DomainPattern::parse("ok.x*y.z*", '.').unwrap_err();
    assert_eq!(error.unexpected_token(), "x*y");
    assert_eq!(error.full_string(), "ok.x*y.z*");
}

#[test]
fn error_at_the_first_token_has_position_zero() {
    let error = DomainPattern::parse("x*.a", '.').unwrap_err();
    assert_eq!(error.position(), 0);
}

#[test]
fn position_counts_each_kept_token_twice() {
    // `a` and `b` each move the offset by twice their two bytes, so the
    // third token is reported at 8, not at its byte offset 4.
    let error = DomainPattern::parse("a.b.c*d", '.').unwrap_err();
    assert_eq!(error.position(), 8);
    assert_ne!(error.position(), 4);
}

#[test]
fn position_counts_a_merged_wildcard_once() {
    // `**` is kept (6); the second `**` merges into it (3).
    let error = DomainPattern::parse("**.**.x*", '.').unwrap_err();
    assert_eq!(error.position(), 9);
    // `**` is kept (6); `+` merges into it (2).
    let error = DomainPattern::parse("**.+.x+y", '.').unwrap_err();
    assert_eq!(error.position(), 8);
    // `**+` is kept (8); `+` is kept behind it (4).
    let error = DomainPattern::parse("**+.+.a*", '.').unwrap_err();
    assert_eq!(error.position(), 12);
}

#[test]
fn position_counts_bytes() {
    let error = DomainPattern::parse("é.b*", '.').unwrap_err();
    assert_eq!(error.position(), 6);
}

#[test]
fn message_quotes_token_and_pattern() {
    let error = DomainPattern::parse("a.b.c*d", '.').unwrap_err();
    assert_eq!(
        error.message(),
        "Invalid token \"c*d\" at position 8 in pattern \"a.b.c*d\""
    );
    let error = DomainPattern::parse("say\"+", '.').unwrap_err();
    assert_eq!(
        error.message(),
        "Invalid token \"say\\\"+\" at position 0 in pattern \"say\\\"+\""
    );
}

#[test]
fn try_parse_compiles_what_parse_compiles() {
    let pattern = DomainPattern::try_parse("a.**.b", '.').expect("short enough").unwrap();
    assert_eq!(pattern, DomainPattern::parse("a.**.b", '.').unwrap());
    let error = DomainPattern::try_parse("a.b.c*d", '.').expect("short enough").unwrap_err();
    assert_eq!(error.position(), 8);
    assert_eq!(error.unexpected_token(), "c*d");
}
