use globgroups::{
    expr, literal, ExpandGlobIter, GlobExpr, GlobGroup, GlobParseError, Literal, ParseErrorKind,
};

struct GlobTest {
    expression: &'static str,
    expected_expansions: &'static [&'static str],
}

const TEST_DATA: &[GlobTest] = &[
    GlobTest {
        expression: "foo-{bar,baz}-beat",
        expected_expansions: &["foo-bar-beat", "foo-baz-beat"],
    },
    GlobTest {
        expression: "foo-{bar,beat{nest,foop}}-baz",
        expected_expansions: &["foo-bar-baz", "foo-beatnest-baz", "foo-beatfoop-baz"],
    },
    GlobTest {
        expression: "foo{,-\\{baz{teach,wo\\,\\}}}\\\\\\{",
        expected_expansions: &["foo\\{", "foo-{bazteach\\{", "foo-{bazwo,}\\{"],
    },
    GlobTest {
        expression: "feet\\{\\\\\\}",
        expected_expansions: &["feet{\\}"],
    },
];

fn parse(text: &str) -> GlobExpr {
    text.parse().expect("Parse failure")
}

fn drain(mut it: ExpandGlobIter) -> Vec<String> {
    let mut out = Vec::new();
    while let Some(t) = it.next() {
        out.push(t);
    }
    out
}

fn expand(text: &str) -> Vec<String> {
    drain(parse(text).expand())
}

fn parse_error(text: &str) -> GlobParseError {
    match expr(text) {
        Ok(_) => panic!("parsed: {text}"),
        Err(e) => e,
    }
}

#[test]
fn test_expansion() {
    for test in TEST_DATA {
        let expanded = expand(test.expression).join("\n");
        let expected_expansions = test
            .expected_expansions
            .iter()
            .map(|s| s.to_string())
            .collect::<Vec<String>>()
            .join("\n");
        assert_eq!(expanded, expected_expansions);
    }
}

#[test]
fn test_roundtrip() {
    for test in TEST_DATA {
        assert_eq!(parse(test.expression).equivalent_expr(), test.expression);
    }
}

#[test]
fn simple_group_expands_in_order() {
    assert_eq!(expand("foo-{bar,baz}-beat"), vec!["foo-bar-beat", "foo-baz-beat"]);
}

#[test]
fn nested_group_expands_depth_first() {
    assert_eq!(
        expand("foo-{bar,beat{nest,foop}}-baz"),
        vec!["foo-bar-baz", "foo-beatnest-baz", "foo-beatfoop-baz"]
    );
}

#[test]
fn escaped_brace_and_backslash_decode() {
    assert_eq!(expand("feet\\{\\\\\\}"), vec!["feet{\\}"]);
}

#[test]
fn empty_alternative_and_nested_escapes() {
    assert_eq!(
        expand("foo{,-\\{baz{teach,wo\\,\\}}}\\\\\\{"),
        vec!["foo\\{", "foo-{bazteach\\{", "foo-{bazwo,}\\{"]
    );
}

#[test]
fn unterminated_group_is_rejected() {
    let e = parse_error("{unterminated");
    assert_eq!(e.kind(), ParseErrorKind::UnclosedGroup);
    assert_eq!(e.position(), 13);
    assert_eq!(e.found(), None);
}

#[test]
fn invalid_escape_is_rejected() {
    let e = parse_error("a\\q");
    assert_eq!(e.kind(), ParseErrorKind::InvalidEscape);
    assert_eq!(e.position(), 2);
    assert_eq!(e.found(), Some('q'));
}

#[test]
fn trailing_backslash_is_rejected() {
    let e = parse_error("ab\\");
    assert_eq!(e.kind(), ParseErrorKind::InvalidEscape);
    assert_eq!(e.position(), 3);
    assert_eq!(e.found(), None);
}

#[test]
fn stray_closing_brace_is_rejected() {
    let e = parse_error("a}b");
    assert_eq!(e.kind(), ParseErrorKind::UnexpectedChar);
    assert_eq!(e.position(), 1);
    assert_eq!(e.found(), Some('}'));
}

#[test]
fn stray_comma_at_top_level_is_rejected() {
    let e = parse_error("a,b");
    assert_eq!(e.kind(), ParseErrorKind::UnexpectedChar);
    assert_eq!(e.found(), Some(','));
}

#[test]
fn unclosed_after_alternative() {
    let e = parse_error("x{a,b");
    assert_eq!(e.kind(), ParseErrorKind::UnclosedGroup);
    assert_eq!(e.position(), 5);
}

#[test]
fn empty_pattern_is_one_empty_string() {
    assert_eq!(expand(""), vec![""]);
}

#[test]
fn empty_group_body_is_one_empty_alternative() {
    assert_eq!(expand("foo{}bar"), vec!["foobar"]);
}

#[test]
fn count_law_on_nested_groups() {
    // (1 + 2 + 1) alternatives, times 3 suffix strings
    let got = expand("p{a,{b,c},d}{x,y,z}");
    assert_eq!(got.len(), 4 * 3);
    assert_eq!(got[0], "pax");
    assert_eq!(got[3], "pbx");
    assert_eq!(got[11], "pdz");
}

#[test]
fn suffix_enumerated_for_each_alternative() {
    assert_eq!(
        expand("{a,b}{1,2}"),
        vec!["a1", "a2", "b1", "b2"]
    );
}

#[test]
fn round_trip_keeps_expansions() {
    let patterns = ["a{b,c{d,e}}f{g,}", "{}", "x\\,y{\\\\,\\}}", "plain"];
    for p in patterns {
        let first = parse(p);
        let again = parse(&first.equivalent_expr());
        assert_eq!(drain(again.expand()), drain(first.expand()));
    }
}

#[test]
fn escape_reads_back_as_literal() {
    let raw = "we{i,r}d\\text";
    let escaped = Literal::escape(raw);
    assert_eq!(escaped, "we\\{i\\,r\\}d\\\\text");
    let lit = literal(&escaped).expect("literal");
    assert_eq!(lit.text(), raw);
    assert_eq!(expand(&escaped), vec![raw]);
}

#[test]
fn literal_equivalent_expr_escapes() {
    let lit = Literal::from_text("a,b".to_string());
    assert_eq!(lit.text(), "a,b");
    assert_eq!(lit.equivalent_expr(), "a\\,b");
}

#[test]
fn literal_parse_rejects_group() {
    let err = "ab{c}".parse::<Literal>().unwrap_err();
    assert_eq!(err.cause().kind(), ParseErrorKind::UnexpectedChar);
    assert_eq!(err.cause().position(), 2);
}

#[test]
fn literal_parse_rejects_bad_escape() {
    let err = literal("a\\b").unwrap_err();
    assert_eq!(err.cause().kind(), ParseErrorKind::InvalidEscape);
}

#[test]
fn built_tree_formats_and_expands() {
    let group = GlobGroup {
        prefix: Literal::from_text("pre{".to_string()),
        children: vec![
            Literal::from_text("a".to_string()).into_expr(),
            Literal::from_text("b,".to_string()).into_expr(),
        ],
        suffix: Literal::from_text("!".to_string()).into_expr(),
    };
    let e = group.into_expr();
    assert_eq!(e.equivalent_expr(), "pre\\{{a,b\\,}!");
    assert_eq!(drain(e.expand()), vec!["pre{a!", "pre{b,!"]);
}

#[test]
fn iterator_is_fused_and_sized() {
    let e = parse("{a,b}");
    let mut it = e.expand();
    assert_eq!(it.size_hint(), (2, Some(2)));
    assert_eq!(it.next().as_deref(), Some("a"));
    assert_eq!(it.size_hint(), (1, Some(1)));
    assert_eq!(it.next().as_deref(), Some("b"));
    assert_eq!(it.next(), None);
    assert_eq!(it.next(), None);
    assert_eq!(it.size_hint(), (0, Some(0)));
}

#[test]
fn expand_all_matches_iterator() {
    let e = parse("x{1,2{3,4}}y");
    assert_eq!(e.expand_all(), drain(e.expand()));
}

#[test]
fn first_cause_is_reported() {
    let a = parse_error("a\\q");
    let b = parse_error("{");
    assert_eq!(GlobParseError::from_causes(vec![a, b]), a);
}

#[test]
fn unicode_text_positions_count_characters() {
    let e = parse_error("é\\x");
    assert_eq!(e.position(), 2);
    assert_eq!(expand("ü{ä,ö}"), vec!["üä", "üö"]);
}

#[test]
fn count_and_nth_agree_with_iteration() {
    let e = parse("a{b,c{d,e,f}}g{h,i}");
    let all = drain(e.expand());
    assert_eq!(e.count(), Some(8));
    assert_eq!(all.len(), 8);
    for (k, s) in all.iter().enumerate() {
        assert_eq!(&e.nth(k), s);
    }
    assert_eq!(e.nth(0), "abgh");
    assert_eq!(e.nth(7), "acfgi");
}

#[test]
fn count_of_literal_is_one() {
    assert_eq!(parse("abc").count(), Some(1));
}

#[test]
fn group_without_alternatives_denotes_nothing() {
    let group = GlobGroup {
        prefix: Literal::from_text("p".to_string()),
        children: Vec::new(),
        suffix: Literal::from_text("s".to_string()).into_expr(),
    };
    let e = group.into_expr();
    assert_eq!(e.count(), Some(0));
    assert_eq!(drain(e.expand()), Vec::<String>::new());
}

#[test]
fn huge_count_is_reported_as_none() {
    // 2^70 expansions
    let pattern = "{a,b}".repeat(70);
    let e = parse(&pattern);
    assert_eq!(e.count(), None);
    let mut it = e.expand();
    assert_eq!(it.size_hint().1, None);
    assert_eq!(it.next(), Some("a".repeat(70)));
    let mut second = "a".repeat(69);
    second.push('b');
    assert_eq!(it.next(), Some(second));
}

#[test]
fn empty_group_at_end_expands_to_prefix() {
    assert_eq!(expand("foo{}"), vec!["foo"]);
}

#[test]
fn literal_from_str_rejects_open_brace() {
    let err = "a{b".parse::<Literal>().unwrap_err();
    assert_eq!(err.cause().kind(), ParseErrorKind::UnexpectedChar);
    assert_eq!(err.cause().position(), 1);
    let ok = "a\\{b\\\\".parse::<Literal>().expect("literal");
    assert_eq!(ok.text(), "a{b\\");
}
