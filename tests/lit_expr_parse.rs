use lit_expr::lit_expr::LitExpr;
use lit_expr::location::Parsed;
use lit_expr::path::{Key, KnownVariable, PathList, PathSelection};

fn key_text(k: &Key) -> (u8, String) {
    match k {
        Key::Field(s) => (0, s.clone()),
        Key::Quoted(s) => (1, s.clone()),
    }
}

/// Orders the properties of every object by key, so that two objects with
/// the same properties compare equal whatever order they were written in.
fn canonical(e: LitExpr) -> LitExpr {
    match e {
        LitExpr::Object(props) => {
            let mut props: Vec<(Parsed<Key>, Parsed<LitExpr>)> = props
                .into_iter()
                .map(|(k, v)| (k, Parsed::new(canonical(*v.node), v.loc)))
                .collect();
            props.sort_by(|a, b| key_text(&a.0.node).cmp(&key_text(&b.0.node)));
            LitExpr::Object(props)
        }
        LitExpr::Array(items) => LitExpr::Array(
            items
                .into_iter()
                .map(|v| Parsed::new(canonical(*v.node), v.loc))
                .collect(),
        ),
        other => other,
    }
}

fn check_parse(input: &str, expected: LitExpr) {
    match LitExpr::parse(input) {
        Ok((rest, parsed)) => {
            assert_eq!(&input[rest..], "");
            let stripped = parsed.strip_loc();
            assert_eq!(stripped.loc, None);
            assert_eq!(canonical(*stripped.node), canonical(expected));
        }
        Err(e) => panic!("Failed to parse '{}': {:?}", input, e),
    }
}

fn number(n: i64) -> LitExpr {
    LitExpr::Number(serde_json::Number::from(n))
}

fn object(props: Vec<(Key, LitExpr)>) -> LitExpr {
    LitExpr::Object(
        props
            .into_iter()
            .map(|(k, v)| (k.into_parsed(), v.into_parsed()))
            .collect(),
    )
}

fn key_path(keys: &[&str]) -> PathList {
    let mut path = PathList::Empty;
    for k in keys.iter().rev() {
        path = PathList::Key(Key::field(k).into_parsed(), path.into_parsed());
    }
    path
}

fn path_lit(path: PathList) -> LitExpr {
    LitExpr::Path(
        PathSelection {
            path: path.into_parsed(),
        }
        .into_parsed(),
    )
}

fn var_path(var: KnownVariable, keys: &[&str]) -> PathList {
    PathList::Var(var.into_parsed(), key_path(keys).into_parsed())
}

#[test]
fn test_lit_expr_parse_primitives() {
    check_parse("'hello'", LitExpr::String("hello".to_string()));
    check_parse("\"hello\"", LitExpr::String("hello".to_string()));
    check_parse(" 'hello' ", LitExpr::String("hello".to_string()));
    check_parse(" \"hello\" ", LitExpr::String("hello".to_string()));

    check_parse("123", LitExpr::Number(serde_json::Number::from(123)));
    check_parse("-123", LitExpr::Number(serde_json::Number::from(-123)));
    check_parse(" - 123 ", LitExpr::Number(serde_json::Number::from(-123)));
    check_parse(
        "123.456",
        LitExpr::Number(serde_json::Number::from_f64(123.456).unwrap()),
    );
    check_parse(
        ".456",
        LitExpr::Number(serde_json::Number::from_f64(0.456).unwrap()),
    );
    check_parse(
        "-.456",
        LitExpr::Number(serde_json::Number::from_f64(-0.456).unwrap()),
    );
    check_parse(
        "123.",
        LitExpr::Number(serde_json::Number::from_f64(123.0).unwrap()),
    );
    check_parse(
        "-123.",
        LitExpr::Number(serde_json::Number::from_f64(-123.0).unwrap()),
    );

    check_parse("true", LitExpr::Bool(true));
    check_parse(" true ", LitExpr::Bool(true));
    check_parse("false", LitExpr::Bool(false));
    check_parse(" false ", LitExpr::Bool(false));
    check_parse("null", LitExpr::Null);
    check_parse(" null ", LitExpr::Null);
}

fn make_expected(a_key: Key, b_key: Key) -> LitExpr {
    object(vec![(a_key, number(1)), (b_key, number(2))])
}

#[test]
fn test_lit_expr_parse_objects() {
    check_parse("{a: 1}", object(vec![(Key::field("a"), number(1))]));
    check_parse("{'a': 1}", object(vec![(Key::quoted("a"), number(1))]));
    check_parse(
        "{'a': 1, 'b': 2}",
        make_expected(Key::quoted("a"), Key::quoted("b")),
    );
    check_parse(
        "{ a : 1, 'b': 2}",
        make_expected(Key::field("a"), Key::quoted("b")),
    );
    check_parse(
        "{ a : 1, b: 2}",
        make_expected(Key::field("a"), Key::field("b")),
    );
    check_parse(
        "{ \"a\" : 1, \"b\": 2 }",
        make_expected(Key::quoted("a"), Key::quoted("b")),
    );
    check_parse(
        "{ \"a\" : 1, b: 2 }",
        make_expected(Key::quoted("a"), Key::field("b")),
    );
    check_parse(
        "{ a : 1, \"b\": 2 }",
        make_expected(Key::field("a"), Key::quoted("b")),
    );
}

#[test]
fn test_lit_expr_parse_arrays() {
    check_parse(
        "[1, 2]",
        LitExpr::Array(vec![
            Parsed::new(LitExpr::Number(serde_json::Number::from(1)), None),
            Parsed::new(LitExpr::Number(serde_json::Number::from(2)), None),
        ]),
    );

    check_parse(
        "[1, true, 'three']",
        LitExpr::Array(vec![
            Parsed::new(LitExpr::Number(serde_json::Number::from(1)), None),
            Parsed::new(LitExpr::Bool(true), None),
            Parsed::new(LitExpr::String("three".to_string()), None),
        ]),
    );
}

#[test]
fn test_lit_expr_parse_paths() {
    {
        let expected = || path_lit(key_path(&["a", "b", "c"]));
        check_parse("a.b.c", expected());
        check_parse(" a . b . c ", expected());
    }

    {
        let expected = || path_lit(key_path(&["data"]));
        check_parse(".data", expected());
        check_parse(" . data ", expected());
    }

    {
        let expected = || {
            LitExpr::Array(vec![
                path_lit(key_path(&["a"])).into_parsed(),
                path_lit(key_path(&["b", "c"])).into_parsed(),
                path_lit(key_path(&["d", "e", "f"])).into_parsed(),
            ])
        };

        check_parse("[.a, b.c, .d.e.f]", expected());
        check_parse("[.a, b.c, .d.e.f,]", expected());
        check_parse("[ . a , b . c , . d . e . f ]", expected());
        check_parse("[ . a , b . c , . d . e . f , ]", expected());
        check_parse(
            r#"[
                .a,
                b.c,
                .d.e.f,
            ]"#,
            expected(),
        );
        check_parse(
            r#"[
                . a ,
                . b . c ,
                d . e . f ,
            ]"#,
            expected(),
        );
    }

    {
        let expected = || {
            object(vec![
                (
                    Key::field("a"),
                    path_lit(var_path(KnownVariable::Args, &["a"])),
                ),
                (
                    Key::field("b"),
                    path_lit(var_path(KnownVariable::This, &["b"])),
                ),
            ])
        };

        check_parse(
            r#"{
                a: $args.a,
                b: $this.b,
            }"#,
            expected(),
        );

        check_parse(
            r#"{
                b: $this.b,
                a: $args.a,
            }"#,
            expected(),
        );

        check_parse(
            r#" {
                a : $args . a ,
                b : $this . b
            ,} "#,
            expected(),
        );
    }
}
