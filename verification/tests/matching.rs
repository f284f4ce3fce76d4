use domain_pattern::{DomainPattern, DomainPatternPart, DomainPatternWildcard};

fn compile(pattern: &str) -> DomainPattern<'_> {
    DomainPattern::parse(pattern, '.').expect("failed to parse")
}

#[test]
pub fn test_algorithmic_blowup() {
    let pattern = DomainPattern::parse("*.*.*.*.*.*.*.*.*.nice", '.').expect("failed to parse");

    assert!(pattern.matches("nice.nice.nice.nice.nice.nice.nice.nice.nice.nice"))
}

#[test]
pub fn test_simple() {
    let pattern = DomainPattern::parse("nice.**.nice", '.').expect("failed to parse");
    assert!(pattern.matches("nice.nice.nice.nice"));
    assert!(pattern.matches("nice.nice.nice"));
    assert!(pattern.matches("nice.nice"));
    assert!(!pattern.matches("nice"));

    let pattern = DomainPattern::parse("nice.**+.nice", '.').expect("failed to parse");
    assert!(pattern.matches("nice.nice.nice.nice"));
    assert!(pattern.matches("nice.nice.nice"));
    assert!(!pattern.matches("nice.nice"));
    assert!(!pattern.matches("nice"));

    let pattern = DomainPattern::parse("nice.*.nice", '.').expect("failed to parse");
    assert!(!pattern.matches("nice.nice.nice.nice"));
    assert!(pattern.matches("nice.nice.nice"));
    assert!(pattern.matches("nice.nice"));
    assert!(!pattern.matches("nice"));

    let pattern = DomainPattern::parse("nice.+.nice", '.').expect("failed to parse");
    assert!(!pattern.matches("nice.nice.nice.nice"));
    assert!(pattern.matches("nice.nice.nice"));
    assert!(!pattern.matches("nice.nice"));
    assert!(!pattern.matches("nice"));

    let pattern = DomainPattern::parse("nice.nice", '.').expect("failed to parse");
    assert!(!pattern.matches("nice.nice.nice.nice"));
    assert!(!pattern.matches("nice.nice.nice"));
    assert!(pattern.matches("nice.nice"));
    assert!(!pattern.matches("nice"));

    let pattern = DomainPattern::parse("+.nice.**", '.').expect("failed to parse");
    assert!(pattern.matches("nice.nice.nice.nice"));
    assert!(pattern.matches("nice.nice.nice"));
    assert!(pattern.matches("nice.nice"));
    assert!(!pattern.matches("nice.wow"));
    assert!(!pattern.matches("nice"));

    let pattern = DomainPattern::parse("+/nice/**", '/').expect("failed to parse");
    assert!(pattern.matches("nice/nice/nice/nice"));
    assert!(pattern.matches("nice/nice/nice"));
    assert!(pattern.matches("nice/nice"));
    assert!(!pattern.matches("nice/wow"));
    assert!(!pattern.matches("nice"));

    let pattern = DomainPattern::parse("x.**.**", '.').expect("failed to parse");
    assert!(pattern.matches("x"));
    assert!(pattern.matches("x.x"));
    assert!(pattern.matches("x.x.x"));
    assert!(pattern.matches("x.x.x.x"));
    assert!(!pattern.matches("y"));

    let pattern = DomainPattern::parse("x.*.*", '.').expect("failed to parse");
    assert!(pattern.matches("x"));
    assert!(pattern.matches("x.x"));
    assert!(pattern.matches("x.x.x"));
    assert!(!pattern.matches("x.x.x.x"));
    assert!(!pattern.matches("y"));

    let pattern = DomainPattern::parse("x.*.**", '.').expect("failed to parse");
    assert!(pattern.matches("x"));
    assert!(pattern.matches("x.x"));
    assert!(pattern.matches("x.x.x"));
    assert!(pattern.matches("x.x.x.x"));
    assert!(!pattern.matches("y"));

    let pattern = DomainPattern::parse("**.**.**.**.**", '.').expect("failed to parse");
    assert_eq!(pattern.len(), 1);

    assert!(pattern.matches("x"));
    assert!(pattern.matches("x.x"));
    assert!(pattern.matches("x.x.x"));
    assert!(pattern.matches("x.x.x.x"));

    let pattern = DomainPattern::parse("**+.+.**+", '.').expect("failed to parse");
    assert!((0..2).all(|i| matches!(
        pattern.step(i),
        Some(DomainPatternPart::Wildcard(DomainPatternWildcard { multi: false, optional: false }))
    )));
}

#[test]
fn literal_pattern_matches_only_itself() {
    let pattern = compile("domain.tld");
    assert!(pattern.matches("domain.tld"));
    assert!(!pattern.matches("sub.domain.tld"));
    assert!(!pattern.matches("sub.sub.domain.tld"));
}

#[test]
fn optional_single_wildcard_takes_one_label() {
    let pattern = compile("*.domain.tld");
    assert!(pattern.matches("sub.domain.tld"));
    assert!(!pattern.matches("sub.sub.domain.tld"));
}

#[test]
fn required_single_wildcard_takes_exactly_one_label() {
    let pattern = compile("+.domain.tld");
    assert!(pattern.matches("sub.domain.tld"));
    assert!(!pattern.matches("domain.tld"));
    assert!(!pattern.matches("sub.sub.domain.tld"));
}

#[test]
fn optional_multi_wildcard_takes_any_run() {
    let pattern = compile("**.domain.tld");
    assert!(pattern.matches("sub.domain.tld"));
    assert!(pattern.matches("sub.sub.domain.tld"));
}

#[test]
fn required_multi_wildcard_takes_one_or_more() {
    let pattern = compile("**+.domain.tld");
    assert!(pattern.matches("sub.domain.tld"));
    assert!(pattern.matches("sub.sub.domain.tld"));
    assert!(!pattern.matches("domain.tld"));
}

#[test]
fn first_step_always_takes_first_label() {
    // The generation starts at the first step alone, so a wildcard that
    // leads the pattern is never passed over.
    assert!(!compile("*.domain.tld").matches("domain.tld"));
    assert!(!compile("**.domain.tld").matches("domain.tld"));
    assert!(!compile("*.*.x").matches("x"));
    assert!(compile("*.*.x").matches("a.x"));
    assert!(compile("*.*.x").matches("a.b.x"));
    assert!(compile("*").matches("a"));
    assert!(!compile("*").matches("a.b"));
}

#[test]
fn optional_wildcards_inside_may_be_passed() {
    let pattern = compile("a.*.**.*.b");
    assert!(pattern.matches("a.b"));
    assert!(pattern.matches("a.x.b"));
    assert!(pattern.matches("a.x.y.z.w.b"));
    assert!(!pattern.matches("a"));
    assert!(!pattern.matches("b"));
}

#[test]
fn zero_or_more_between_literals() {
    let pattern = compile("nice.**.nice");
    assert!(pattern.matches("nice.nice"));
    assert!(pattern.matches("nice.nice.nice"));
    assert!(pattern.matches("nice.nice.nice.nice"));
    assert!(!pattern.matches("nice"));
}

#[test]
fn one_or_more_between_literals() {
    let pattern = compile("nice.**+.nice");
    assert!(pattern.matches("nice.nice.nice"));
    assert!(pattern.matches("nice.nice.nice.nice"));
    assert!(!pattern.matches("nice.nice"));
    assert!(!pattern.matches("nice"));
}

#[test]
fn slash_separator_matches_paths() {
    let pattern = DomainPattern::parse("+/nice/**", '/').unwrap();
    assert_eq!(pattern.separator(), '/');
    assert!(pattern.matches("nice/nice"));
    assert!(pattern.matches("nice/nice/nice"));
    assert!(pattern.matches("nice/nice/nice/nice"));
    assert!(!pattern.matches("nice/wow"));
    assert!(!pattern.matches("nice"));
    // A dot is an ordinary character of a label here.
    assert!(!pattern.matches("nice.nice"));
}

#[test]
fn empty_name_never_matches() {
    for text in ["**", "*", "+", "**+", "a", "", "**.**", "a.**"] {
        let pattern = compile(text);
        assert!(!pattern.matches(""), "{text}");
        assert!(!pattern.matches("."), "{text}");
        assert!(!pattern.matches("..."), "{text}");
    }
}

#[test]
fn empty_segments_of_a_name_are_skipped() {
    let pattern = compile("nice.nice");
    assert!(pattern.matches("nice..nice"));
    assert!(pattern.matches(".nice.nice"));
    assert!(pattern.matches("nice.nice."));
    assert!(pattern.matches("..nice...nice.."));
    assert!(!pattern.matches("nice.."));
}

#[test]
fn empty_pattern_matches_nothing() {
    let pattern = compile("");
    assert_eq!(pattern.len(), 1);
    assert_eq!(pattern.step(0).and_then(|part| part.literal()), Some(""));
    assert!(!pattern.matches("a"));
    assert!(!pattern.matches(""));
    assert!(!pattern.matches("a.b"));
}

#[test]
fn earlier_end_does_not_count() {
    // Only the last label decides: the pattern was at its end after two
    // labels, yet four labels are not matched.
    let pattern = compile("a.b");
    assert!(pattern.matches("a.b"));
    assert!(!pattern.matches("a.b.a.b"));
    assert!(!pattern.matches("a.b.c"));
}

#[test]
fn labels_are_compared_exactly() {
    let pattern = compile("Nice.ünï");
    assert!(pattern.matches("Nice.ünï"));
    assert!(!pattern.matches("nice.ünï"));
    assert!(!pattern.matches("Nice.uni"));
    assert!(!pattern.matches("Nice.ünïx"));
}

#[test]
fn owned_copy_matches_like_the_pattern() {
    let owned = {
        let text = String::from("nice.**.+.nice");
        let pattern = DomainPattern::parse(&text, '.').unwrap();
        pattern.to_owned()
    };
    let pattern = compile("nice.**.+.nice");
    assert_eq!(owned, pattern);
    for name in ["nice", "nice.nice", "nice.a.nice", "nice.a.b.nice", "a.nice", ""] {
        assert_eq!(owned.matches(name), pattern.matches(name), "{name}");
    }
    assert!(owned.matches("nice.a.nice"));
    assert!(!owned.matches("nice.nice"));
}

#[test]
fn owned_copy_keeps_the_separator() {
    let pattern = DomainPattern::parse("a/+", '/').unwrap();
    let owned = pattern.to_owned();
    assert_eq!(owned.separator(), '/');
    assert!(owned.matches("a/b"));
    assert!(!owned.matches("a.b"));
}

#[test]
fn clone_matches_like_the_pattern() {
    let pattern = compile("a.**+.b");
    let copy = pattern.clone();
    assert_eq!(copy, pattern);
    assert!(copy.matches("a.x.b"));
    assert!(!copy.matches("a.b"));
}

#[test]
fn folded_patterns_match_like_their_tokens() {
    // `x.**.+` folds into `x.**+`; `x.*.**+` too.
    for text in ["x.**.+", "x.*.**+", "x.+.**", "x.**+.*", "x.**+.**", "x.**.**+"] {
        let pattern = compile(text);
        assert!(!pattern.matches("x"), "{text}");
        assert!(pattern.matches("x.a"), "{text}");
        assert!(pattern.matches("x.a.b"), "{text}");
        assert!(pattern.matches("x.a.b.c"), "{text}");
        assert!(!pattern.matches("y.a"), "{text}");
    }
    // `x.**+.+` and `x.**+.**+` take two labels or more.
    for text in ["x.**+.+", "x.**+.**+", "x.+.**+"] {
        let pattern = compile(text);
        assert!(!pattern.matches("x"), "{text}");
        assert!(!pattern.matches("x.a"), "{text}");
        assert!(pattern.matches("x.a.b"), "{text}");
        assert!(pattern.matches("x.a.b.c"), "{text}");
    }
}
