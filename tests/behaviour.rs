use std::collections::HashMap;

use lit_expr::events::{log_event, EventLevel};
use lit_expr::lit_expr::{parse_number_text, LitExpr, ParseError};
use lit_expr::location::{merge_locs, Parsed};
use lit_expr::path::{Key, KnownVariable, PathList, PathSelection};

fn parse_stripped(input: &str) -> LitExpr {
    match LitExpr::parse(input) {
        Ok((rest, parsed)) => {
            assert_eq!(&input[rest..], "", "unread input after parsing {:?}", input);
            *parsed.strip_loc().node
        }
        Err(e) => panic!("Failed to parse '{}': {:?}", input, e),
    }
}

fn number(n: i64) -> LitExpr {
    LitExpr::Number(serde_json::Number::from(n))
}

fn float(f: f64) -> LitExpr {
    LitExpr::Number(serde_json::Number::from_f64(f).unwrap())
}

fn prop(k: Key, v: LitExpr) -> (Parsed<Key>, Parsed<LitExpr>) {
    (k.into_parsed(), v.into_parsed())
}

fn segments(path: &PathList) -> (Option<KnownVariable>, Vec<String>) {
    let mut var = None;
    let mut keys = Vec::new();
    let mut cur = path;
    loop {
        match cur {
            PathList::Var(v, rest) => {
                var = Some(*v.node);
                cur = &rest.node;
            }
            PathList::Key(k, rest) => {
                match &*k.node {
                    Key::Field(s) | Key::Quoted(s) => keys.push(s.clone()),
                }
                cur = &rest.node;
            }
            PathList::Empty => return (var, keys),
        }
    }
}

#[test]
fn whitespace_and_comments_are_insignificant() {
    assert_eq!(parse_stripped("{a:1}"), parse_stripped("{ a : 1 }"));
    assert_eq!(
        parse_stripped("[1,true,'x',{b:null}]"),
        parse_stripped(" [ 1 , true , 'x' , { b : null } ] ")
    );
    assert_eq!(
        parse_stripped("[1, 2]"),
        parse_stripped("[ # first\n 1, # second\n 2 # done\n ]")
    );
    assert_eq!(parse_stripped("$args.a"), parse_stripped(" $args . a "));
}

#[test]
fn whitespace_inside_strings_is_kept() {
    assert_eq!(
        parse_stripped("' a b '"),
        LitExpr::String(" a b ".to_string())
    );
}

#[test]
fn numbers_with_bare_dot() {
    assert_eq!(parse_stripped(".456"), float(0.456));
    assert_eq!(parse_stripped("123."), float(123.0));
    assert_eq!(parse_stripped("-.456"), float(-0.456));
    assert_eq!(parse_stripped("-123."), float(-123.0));
    assert_eq!(parse_stripped("- 12 . 5"), float(-12.5));
    assert_eq!(parse_stripped("0"), number(0));
    assert_eq!(parse_stripped("9223372036854775807"), number(i64::MAX));
}

#[test]
fn bare_dot_and_bare_minus_dot_fail() {
    assert_eq!(LitExpr::parse("."), Err(ParseError::NoMatch(0)));
    assert_eq!(LitExpr::parse("-."), Err(ParseError::NoMatch(0)));
    assert_eq!(LitExpr::parse(""), Err(ParseError::NoMatch(0)));
    assert_eq!(LitExpr::parse("   "), Err(ParseError::NoMatch(0)));
}

#[test]
fn malformed_number_is_fatal() {
    let huge = format!("1{}", "0".repeat(400));
    assert_eq!(LitExpr::parse(&huge), Err(ParseError::Fatal(0)));
    assert_eq!(LitExpr::parse("  0123"), Err(ParseError::Fatal(2)));
    assert_eq!(
        LitExpr::parse(&format!("[1, {}]", huge)),
        Err(ParseError::Fatal(4))
    );
}

#[test]
fn trailing_commas_are_accepted() {
    assert_eq!(parse_stripped("[1, 2,]"), parse_stripped("[1, 2]"));
    assert_eq!(
        parse_stripped("[1, 2]"),
        LitExpr::Array(vec![number(1).into_parsed(), number(2).into_parsed()])
    );
    assert_eq!(parse_stripped("{a: 1, b: 2,}"), parse_stripped("{a: 1, b: 2}"));
    assert_eq!(parse_stripped("[]"), LitExpr::Array(vec![]));
    assert_eq!(parse_stripped("{}"), LitExpr::Object(vec![]));
    assert!(LitExpr::parse("[,]").is_err());
    assert!(LitExpr::parse("[1,,]").is_err());
}

#[test]
fn key_forms_are_distinguished() {
    assert_eq!(
        parse_stripped("{a: 1}"),
        LitExpr::Object(vec![prop(Key::field("a"), number(1))])
    );
    assert_eq!(
        parse_stripped("{'a': 1}"),
        LitExpr::Object(vec![prop(Key::quoted("a"), number(1))])
    );
    assert_eq!(
        parse_stripped("{\"a\": 1}"),
        LitExpr::Object(vec![prop(Key::quoted("a"), number(1))])
    );
    assert_ne!(parse_stripped("{a: 1}"), parse_stripped("{'a': 1}"));
}

#[test]
fn duplicate_keys_last_value_wins_in_first_place() {
    assert_eq!(
        parse_stripped("{a: 1, b: 2, a: 3}"),
        LitExpr::Object(vec![
            prop(Key::field("a"), number(3)),
            prop(Key::field("b"), number(2)),
        ])
    );
    assert_eq!(
        parse_stripped("{a: 1, 'a': 2}"),
        LitExpr::Object(vec![
            prop(Key::field("a"), number(1)),
            prop(Key::quoted("a"), number(2)),
        ])
    );
}

#[test]
fn object_keeps_source_order() {
    assert_eq!(
        parse_stripped("{b: 1, a: 2}"),
        LitExpr::Object(vec![
            prop(Key::field("b"), number(1)),
            prop(Key::field("a"), number(2)),
        ])
    );
}

#[test]
fn dotted_paths() {
    for input in ["a.b.c", " a . b . c "] {
        match parse_stripped(input) {
            LitExpr::Path(p) => {
                assert_eq!(
                    segments(&p.node.path.node),
                    (None, vec!["a".to_string(), "b".to_string(), "c".to_string()])
                );
            }
            other => panic!("not a path: {:?}", other),
        }
    }
    for input in [".data", ". data"] {
        match parse_stripped(input) {
            LitExpr::Path(p) => {
                assert_eq!(segments(&p.node.path.node), (None, vec!["data".to_string()]));
            }
            other => panic!("not a path: {:?}", other),
        }
    }
}

#[test]
fn variable_paths() {
    match parse_stripped("$") {
        LitExpr::Path(p) => {
            assert_eq!(segments(&p.node.path.node), (Some(KnownVariable::Dollar), vec![]));
        }
        other => panic!("not a path: {:?}", other),
    }
    match parse_stripped("$env.HOME") {
        LitExpr::Path(p) => {
            assert_eq!(
                segments(&p.node.path.node),
                (Some(KnownVariable::Env), vec!["HOME".to_string()])
            );
        }
        other => panic!("not a path: {:?}", other),
    }
    assert_eq!(LitExpr::parse("$unknown.a"), Err(ParseError::NoMatch(0)));
}

#[test]
fn keywords_take_precedence_over_paths() {
    assert_eq!(parse_stripped("true"), LitExpr::Bool(true));
    assert_eq!(parse_stripped("null"), LitExpr::Null);
    match LitExpr::parse("trueish") {
        Ok((rest, parsed)) => {
            assert_eq!(rest, 4);
            assert_eq!(*parsed.node, LitExpr::Bool(true));
        }
        Err(e) => panic!("{:?}", e),
    }
}

#[test]
fn array_of_paths_with_spacing() {
    let expected = parse_stripped("[.a, b.c, .d.e.f]");
    for input in [
        "[.a, b.c, .d.e.f,]",
        "[ . a , b . c , . d . e . f ]",
        "[ . a , b . c , . d . e . f , ]",
    ] {
        assert_eq!(parse_stripped(input), expected);
    }
    match expected {
        LitExpr::Array(items) => {
            let counts: Vec<usize> = items
                .iter()
                .map(|item| match &*item.node {
                    LitExpr::Path(p) => segments(&p.node.path.node).1.len(),
                    other => panic!("not a path: {:?}", other),
                })
                .collect();
            assert_eq!(counts, vec![1, 2, 3]);
        }
        other => panic!("not an array: {:?}", other),
    }
}

#[test]
fn extraction_follows_source_order() {
    let (_, parsed) = LitExpr::parse("{ a: $args.a, b: $this.b }").unwrap();
    let paths = parsed.node.external_var_paths();
    let found: Vec<_> = paths.iter().map(|p| segments(&p.path.node)).collect();
    assert_eq!(
        found,
        vec![
            (Some(KnownVariable::Args), vec!["a".to_string()]),
            (Some(KnownVariable::This), vec!["b".to_string()]),
        ]
    );

    let (_, parsed) = LitExpr::parse("{ b: $this.b, a: $args.a }").unwrap();
    let paths = parsed.node.external_var_paths();
    let found: Vec<_> = paths.iter().map(|p| segments(&p.path.node)).collect();
    assert_eq!(
        found,
        vec![
            (Some(KnownVariable::This), vec!["b".to_string()]),
            (Some(KnownVariable::Args), vec!["a".to_string()]),
        ]
    );
}

#[test]
fn extraction_recurses_and_skips_primitives() {
    let (_, parsed) = LitExpr::parse("[1, 'x', {k: [.a, $]}, b.c, null]").unwrap();
    let found: Vec<_> = parsed
        .node
        .external_var_paths()
        .iter()
        .map(|p| segments(&p.path.node))
        .collect();
    assert_eq!(
        found,
        vec![
            (None, vec!["a".to_string()]),
            (Some(KnownVariable::Dollar), vec![]),
            (None, vec!["b".to_string(), "c".to_string()]),
        ]
    );
    let (_, parsed) = LitExpr::parse("'no paths'").unwrap();
    assert!(parsed.node.external_var_paths().is_empty());
}

#[test]
fn locations_span_the_literal() {
    let (rest, parsed) = LitExpr::parse(" [1, 22] ").unwrap();
    assert_eq!(rest, 9);
    assert_eq!(parsed.loc, Some((1, 8)));
    match &*parsed.node {
        LitExpr::Array(items) => {
            assert_eq!(items[0].loc, Some((2, 3)));
            assert_eq!(items[1].loc, Some((5, 7)));
        }
        other => panic!("not an array: {:?}", other),
    }
    let (_, parsed) = LitExpr::parse("- 12.5").unwrap();
    assert_eq!(parsed.loc, Some((0, 6)));
    let (_, parsed) = LitExpr::parse("'ab'").unwrap();
    assert_eq!(parsed.loc, Some((0, 4)));
    let (_, parsed) = LitExpr::parse("$args . a").unwrap();
    assert_eq!(parsed.loc, Some((0, 9)));
    let (_, parsed) = LitExpr::parse("{ a : 1 }").unwrap();
    assert_eq!(parsed.loc, Some((0, 9)));
}

#[test]
fn merge_locs_encloses_both() {
    assert_eq!(merge_locs(Some((3, 5)), Some((1, 4))), Some((1, 5)));
    assert_eq!(merge_locs(None, Some((1, 4))), Some((1, 4)));
    assert_eq!(merge_locs(Some((2, 2)), None), Some((2, 2)));
    assert_eq!(merge_locs(None, None), None);
}

#[test]
fn unread_rest_is_reported() {
    match LitExpr::parse("true false") {
        Ok((rest, parsed)) => {
            assert_eq!(rest, 5);
            assert_eq!(*parsed.node, LitExpr::Bool(true));
        }
        Err(e) => panic!("{:?}", e),
    }
}

#[test]
fn string_escapes_and_unicode() {
    assert_eq!(
        parse_stripped(r#"'it\'s'"#),
        LitExpr::String("it's".to_string())
    );
    assert_eq!(
        parse_stripped(r#""say \"hi\"""#),
        LitExpr::String("say \"hi\"".to_string())
    );
    assert_eq!(
        parse_stripped("'héllo wörld'"),
        LitExpr::String("héllo wörld".to_string())
    );
    assert_eq!(
        parse_stripped("{'clé': 1}"),
        LitExpr::Object(vec![prop(Key::quoted("clé"), number(1))])
    );
    assert!(LitExpr::parse("'unterminated").is_err());
}

#[test]
fn as_i64_reads_integers_only() {
    assert_eq!(number(42).as_i64(), Some(42));
    assert_eq!(number(-7).as_i64(), Some(-7));
    assert_eq!(float(1.5).as_i64(), None);
    assert_eq!(LitExpr::Bool(true).as_i64(), None);
    assert_eq!(LitExpr::Null.as_i64(), None);
}

#[test]
fn into_parsed_has_no_location() {
    let p = LitExpr::Null.into_parsed();
    assert_eq!(p.loc, None);
    assert_eq!(*p.node, LitExpr::Null);
    let s = PathSelection {
        path: PathList::Empty.into_parsed(),
    }
    .into_parsed();
    assert_eq!(s.loc, None);
}

#[test]
fn log_event_respects_level() {
    let mut attrs = HashMap::new();
    attrs.insert("http.request.method".to_string(), "GET".to_string());
    assert!(log_event(EventLevel::Off, "router.request", &attrs, "").is_none());
    let rec = log_event(EventLevel::Warn, "router.request", &attrs, "hello").unwrap();
    assert_eq!(rec.level, EventLevel::Warn);
    assert_eq!(rec.kind, "router.request");
    assert_eq!(rec.message, "hello");
    assert_eq!(rec.attributes.len(), 1);
    assert_eq!(EventLevel::default(), EventLevel::Off);
}

#[test]
fn leading_whitespace_moves_locations_only() {
    let (rest_a, a) = LitExpr::parse("{k: [1, .x]}").unwrap();
    let (rest_b, b) = LitExpr::parse("  \n {k: [1, .x]}").unwrap();
    assert_eq!(rest_a + 4, rest_b);
    assert_eq!(a.loc, Some((0, 12)));
    assert_eq!(b.loc, Some((4, 16)));
    match (&*a.node, &*b.node) {
        (LitExpr::Object(pa), LitExpr::Object(pb)) => {
            assert_eq!(pa[0].0.loc, Some((1, 2)));
            assert_eq!(pb[0].0.loc, Some((5, 6)));
            assert_eq!(pa[0].1.loc, Some((4, 11)));
            assert_eq!(pb[0].1.loc, Some((8, 15)));
        }
        other => panic!("not objects: {:?}", other),
    }
    assert_eq!(a.strip_loc(), b.strip_loc());
}

#[test]
fn located_values_compare_by_value() {
    assert_eq!(
        Parsed::new(LitExpr::Null, Some((0, 4))),
        Parsed::new(LitExpr::Null, None)
    );
    assert_ne!(
        Parsed::new(LitExpr::Null, Some((0, 4))),
        Parsed::new(LitExpr::Bool(true), Some((0, 4)))
    );
    let (_, a) = LitExpr::parse("[1, {k: 'v'}]").unwrap();
    let (_, b) = LitExpr::parse("  [ 1 ,{ k : 'v' } ]").unwrap();
    assert_ne!(a.loc, b.loc);
    assert_eq!(a, b);
}

#[test]
fn number_text_is_normalized() {
    let cases: [(&str, &str, usize, Option<(usize, usize)>); 7] = [
        (".456", "0.456", 4, Some((0, 4))),
        ("123.", "123.0", 4, Some((0, 4))),
        ("-.456", "-0.456", 5, Some((0, 5))),
        ("-123.", "-123.0", 5, Some((0, 5))),
        (" - 12 . 5 ", "-12.5", 9, Some((1, 9))),
        ("42,", "42", 2, Some((0, 2))),
        ("7 .x", "7.0", 3, Some((0, 3))),
    ];
    for (input, text, end, loc) in cases {
        let (e, t, l) = parse_number_text(input.as_bytes(), 0).unwrap();
        assert_eq!(String::from_utf8(t).unwrap(), text, "{:?}", input);
        assert_eq!(e, end, "{:?}", input);
        assert_eq!(l, loc, "{:?}", input);
    }
    assert!(parse_number_text(b".", 0).is_none());
    assert!(parse_number_text(b"-.", 0).is_none());
    assert!(parse_number_text(b"abc", 0).is_none());
}
