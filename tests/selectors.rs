use redaction::{Content, Segment, SelectParser, Selector};

fn s(text: &str) -> Content {
    Content::Str(text.to_string())
}

fn key(text: &str) -> Segment {
    Segment::Key(text.to_string())
}

#[test]
fn no_alternatives_match_every_path() {
    let sel = Selector::from_patterns(vec![]);
    assert!(sel.is_match(&[]));
    assert!(sel.is_match(&[s("a")]));
    assert!(sel.is_match(&[s("a"), Content::U64(3), Content::Bool(true)]));
}

#[test]
fn bare_key_is_case_sensitive_and_exact_length() {
    let sel = Selector::parse(".foo").unwrap();
    assert_eq!(sel.patterns(), &vec![vec![key("foo")]]);
    assert!(sel.is_match(&[s("foo")]));
    assert!(!sel.is_match(&[s("Foo")]));
    assert!(!sel.is_match(&[]));
    assert!(!sel.is_match(&[s("foo"), s("foo")]));
    assert!(!sel.is_match(&[Content::U64(0)]));
}

#[test]
fn wildcard_matches_keys_and_indices() {
    for text in [".*", "*"] {
        let sel = Selector::parse(text).unwrap();
        assert_eq!(sel.patterns(), &vec![vec![Segment::Wildcard]]);
        assert!(sel.is_match(&[s("anything")]));
        assert!(sel.is_match(&[Content::U64(7)]));
        assert!(!sel.is_match(&[]));
        assert!(!sel.is_match(&[s("a"), s("b")]));
    }
}

#[test]
fn index_matches_integer_view_only() {
    let sel = Selector::parse("[2]").unwrap();
    assert_eq!(sel.patterns(), &vec![vec![Segment::Index(2)]]);
    assert!(sel.is_match(&[Content::U64(2)]));
    assert!(sel.is_match(&[Content::I64(2)]));
    assert!(!sel.is_match(&[Content::U64(3)]));
    assert!(!sel.is_match(&[Content::I64(-2)]));
    assert!(!sel.is_match(&[s("2")]));
}

#[test]
fn quoted_key_decodes_escaped_quote() {
    let sel = Selector::parse("[\"a\\\"b\"]").unwrap();
    assert_eq!(sel.patterns(), &vec![vec![key("a\"b")]]);
    assert!(sel.is_match(&[s("a\"b")]));
    assert!(!sel.is_match(&[s("a\\\"b")]));
    let value = Content::Mapping(vec![(s("a\"b"), s("x")), (s("ab"), s("y"))]);
    let out = sel.redact(value, &s("***"));
    assert_eq!(out, Content::Mapping(vec![(s("a\"b"), s("***")), (s("ab"), s("y"))]));
}

#[test]
fn quoted_key_without_escape_is_verbatim() {
    let sel = Selector::parse("[\"api key.x\"]").unwrap();
    assert_eq!(sel.patterns(), &vec![vec![key("api key.x")]]);
}

#[test]
fn quoted_key_drops_other_backslashes() {
    let sel = Selector::parse("[\"a\\b\"]").unwrap();
    assert_eq!(sel.patterns(), &vec![vec![key("ab")]]);
    let sel = Selector::parse("[\"a\\\\b\"]").unwrap();
    assert_eq!(sel.patterns(), &vec![vec![key("a\\b")]]);
}

#[test]
fn unterminated_bracket_reports_column() {
    let err = Selector::parse("[1").unwrap_err();
    assert_eq!(err.column(), 3);
    assert_eq!(err.line(), 1);
}

#[test]
fn parse_errors_report_positions() {
    assert_eq!(Selector::parse("..foo").unwrap_err().column(), 2);
    assert_eq!(Selector::parse(".foo bar").unwrap_err().column(), 5);
    assert_eq!(Selector::parse("foo").unwrap_err().column(), 1);
    assert_eq!(Selector::parse("[\"abc").unwrap_err().column(), 6);
    assert_eq!(Selector::parse("[x]").unwrap_err().column(), 2);
    assert_eq!(Selector::parse("[1:x]").unwrap_err().column(), 4);
    assert_eq!(Selector::parse("[18446744073709551616]").unwrap_err().column(), 2);
    let err = Selector::parse("[\"a\nb\"]x").unwrap_err();
    assert_eq!(err.line(), 2);
    assert_eq!(err.column(), 4);
}

#[test]
fn largest_index_parses() {
    let sel = Selector::parse("[18446744073709551615]").unwrap();
    assert_eq!(sel.patterns(), &vec![vec![Segment::Index(u64::MAX)]]);
}

#[test]
fn ranges_compile_with_optional_bounds() {
    let sel = Selector::parse("[:],[1:2],[:3],[4:]").unwrap();
    assert_eq!(
        sel.patterns(),
        &vec![
            vec![Segment::Range(None, None)],
            vec![Segment::Range(Some(1), Some(2))],
            vec![Segment::Range(None, Some(3))],
            vec![Segment::Range(Some(4), None)],
        ]
    );
    assert!(sel.has_range());
    assert!(!Selector::parse(".a[0]").unwrap().has_range());
}

#[test]
fn root_path_and_lists() {
    let sel = Selector::parse(".").unwrap();
    assert_eq!(sel.patterns(), &vec![vec![]]);
    assert!(sel.is_match(&[]));
    assert!(!sel.is_match(&[s("a")]));
    let sel = Selector::parse(".a.b[0].*").unwrap();
    assert_eq!(
        sel.patterns(),
        &vec![vec![key("a"), key("b"), Segment::Index(0), Segment::Wildcard]]
    );
    let sel = Selector::parse(".a,.b").unwrap();
    assert_eq!(sel.patterns(), &vec![vec![key("a")], vec![key("b")]]);
    // every alternative must match
    assert!(!sel.is_match(&[s("a")]));
    let sel = Selector::parse(".a,*").unwrap();
    assert!(sel.is_match(&[s("a")]));
    assert!(!sel.is_match(&[s("b")]));
}

#[test]
fn redact_replaces_matching_entry_only() {
    let sel = Selector::parse(".secret").unwrap();
    let value = Content::Mapping(vec![(s("secret"), s("x")), (s("public"), s("y"))]);
    let out = sel.redact(value, &s("***"));
    assert_eq!(out, Content::Mapping(vec![(s("secret"), s("***")), (s("public"), s("y"))]));
}

#[test]
fn redact_does_not_descend_into_replacement() {
    let sel = Selector::parse(".secret").unwrap();
    let replacement = Content::Mapping(vec![(s("secret"), s("inner"))]);
    let value = Content::Mapping(vec![(s("secret"), s("x"))]);
    let out = sel.redact(value, &replacement);
    assert_eq!(
        out,
        Content::Mapping(vec![(s("secret"), Content::Mapping(vec![(s("secret"), s("inner"))]))])
    );
}

#[test]
fn redact_walks_every_container_kind() {
    let sel = Selector::parse(".*[1]").unwrap();
    let red = Content::Null;
    let value = Content::Struct(
        "S".to_string(),
        vec![
            ("a".to_string(), Content::List(vec![Content::U64(1), Content::U64(2)])),
            ("b".to_string(), Content::Tuple(vec![Content::Bool(true), Content::Char('c')])),
            (
                "c".to_string(),
                Content::TupleStruct("T".to_string(), vec![Content::Unit, Content::I64(-1)]),
            ),
            (
                "d".to_string(),
                Content::TupleVariant("E".to_string(), 3, "V".to_string(), vec![s("p"), s("q")]),
            ),
            (
                "e".to_string(),
                Content::Mapping(vec![(Content::U64(0), s("zero")), (Content::U64(1), s("one"))]),
            ),
            (
                "f".to_string(),
                Content::StructVariant("E".to_string(), 1, "W".to_string(), vec![("x".to_string(), s("keep"))]),
            ),
        ],
    );
    let out = sel.redact(value, &red);
    let expected = Content::Struct(
        "S".to_string(),
        vec![
            ("a".to_string(), Content::List(vec![Content::U64(1), Content::Null])),
            ("b".to_string(), Content::Tuple(vec![Content::Bool(true), Content::Null])),
            (
                "c".to_string(),
                Content::TupleStruct("T".to_string(), vec![Content::Unit, Content::Null]),
            ),
            (
                "d".to_string(),
                Content::TupleVariant("E".to_string(), 3, "V".to_string(), vec![s("p"), Content::Null]),
            ),
            (
                "e".to_string(),
                Content::Mapping(vec![(Content::U64(0), s("zero")), (Content::U64(1), Content::Null)]),
            ),
            (
                "f".to_string(),
                Content::StructVariant("E".to_string(), 1, "W".to_string(), vec![("x".to_string(), s("keep"))]),
            ),
        ],
    );
    assert_eq!(out, expected);
}

#[test]
fn redact_at_root_and_leaf_untouched() {
    let sel = Selector::parse(".").unwrap();
    assert_eq!(sel.redact(Content::U64(5), &s("gone")), s("gone"));
    let sel = Selector::parse(".x").unwrap();
    assert_eq!(sel.redact(Content::U64(5), &s("gone")), Content::U64(5));
    let value = Content::Struct("R".to_string(), vec![("x".to_string(), Content::I64(-4))]);
    assert_eq!(
        sel.redact(value, &Content::Bool(false)),
        Content::Struct("R".to_string(), vec![("x".to_string(), Content::Bool(false))])
    );
}

#[test]
fn parsing_twice_gives_equal_patterns() {
    let text = ".a[\"b\\\"c\"][3][1:2],*.d";
    let a = Selector::parse(text).unwrap();
    let b = Selector::parse(text).unwrap();
    assert_eq!(a.patterns(), b.patterns());
}

#[test]
fn grammar_reports_position_on_chars() {
    let chars: Vec<char> = "[1".chars().collect();
    assert_eq!(SelectParser::parse_selectors(&chars), Err(2));
    let chars: Vec<char> = ".é".chars().collect();
    assert_eq!(SelectParser::parse_selectors(&chars), Err(1));
}

#[test]
fn content_views() {
    assert_eq!(s("k").as_str(), Some("k"));
    assert_eq!(Content::U64(1).as_str(), None);
    assert_eq!(Content::I64(9).as_u64(), Some(9));
    assert_eq!(Content::I64(-9).as_u64(), None);
    assert_eq!(s("9").as_u64(), None);
    let tree = Content::Mapping(vec![(s("k"), Content::List(vec![Content::U64(1)]))]);
    assert_eq!(tree.deep_clone(), tree);
}
