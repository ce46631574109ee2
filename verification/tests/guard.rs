use nix_hapi::dag::{execution_waves, DagError};
use nix_hapi::derived::{resolve_derived_from_tree, DerivedFromError};
use nix_hapi::guard::is_sure_to_come_back;
use nix_hapi::json::{Json, Number};
use nix_hapi::sources::Sources;

fn json(text: &str) -> Json {
    Json::parse(text).expect("valid JSON")
}

fn sure(expression: &str) -> bool {
    is_sure_to_come_back(expression, &json(r#"{"x": 1}"#))
}

/// What a `derived-from` node with the expression gives where its only input, `x`, is `input`.
fn derive(expression: &str, input: &str) -> Result<Json, DerivedFromError> {
    let node = Json::empty_object()
        .with_member("__nixhapi", Json::String("derived-from".to_string()))
        .with_member("inputs", json(r#"{"x": ".[\"b\"]"}"#))
        .with_member("expression", Json::String(expression.to_string()));
    let crystalized = Json::empty_object().with_member("b", json(input));
    resolve_derived_from_tree(&node, &crystalized)
}

fn depends_on(expression: &str) -> Result<Vec<Vec<String>>, DagError> {
    let meta = Json::empty_object()
        .with_member("dependsOn", Json::Array(vec![Json::String(expression.to_string())]));
    let root = Json::empty_object()
        .with_member("a", Json::empty_object().with_member("__nixhapi", meta))
        .with_member("b", json(r#"{"n": 1}"#));
    execution_waves(&root, &Sources::new())
}

const REFUSED: [&str; 58] = [
    "halt",
    "1 | halt_error",
    "halt_error(3)",
    "def f: f; f",
    "repeat(1)",
    "[recurse(. + 1)]",
    "while(true; .)",
    "until(false; .)",
    "[range(1000000000000)]",
    "main",
    "env.PATH",
    r#"import "m" as $m; $m"#,
    r#"0 | strftime("%")"#,
    r#"0 | strflocaltime("%")"#,
    r#""" | strptime("%")"#,
    r#""ba" | test("(?:(a)|(b))*")"#,
    r#""ba" | match("(?:(a)|(b))*")"#,
    r#""ba" | matches("(?:(a)|(b))*"; "")"#,
    r#""ba" | scan("(?:(a)|(b))*")"#,
    r#""ba" | capture("(?:(a)|(b))*")"#,
    r#""ba" | sub("(?:(a)|(b))*"; "")"#,
    r#""ba" | gsub("(?:(a)|(b))*"; "")"#,
    r#""ba" | split_matches("(?:(a)|(b))*"; "")"#,
    "[nan, 1] | sort",
    "sort_by(.x)",
    "group_by(.x)",
    "unique",
    "unique_by(.x)",
    "add",
    "skip(1; .x)",
    "nth(1; .x)",
    "gmtime",
    "localtime",
    "mktime",
    r#""-9223372036854775808" | tonumber"#,
    "fromjson",
    "floor",
    "round",
    "ceil",
    "ilogb",
    r#""a" * 1000000000000"#,
    ".x % 2",
    ".x - 1",
    ".x -1",
    "[1] - [nan]",
    "(.x)-1",
    "-.x",
    ".x # halt",
    "reduce .y[] as $i (0; . + $i)",
    "foreach .y[] as $i (0; . + $i)",
    "walk(. + 1)",
    ".x |= . + 1",
    ".x += 1",
    ".x -= 1",
    "123456789012345 + 1",
    "1 + 1 + 1 + 1 + 1 + 1 + 1 + 1 + 1 + 1 + 1 + 1 + 1 + 1 + 1 + 1 + 1",
    r#""\(halt)""#,
    r#""\("\(halt)")""#,
];

#[test]
fn what_may_not_come_back_is_refused() {
    for expression in REFUSED {
        assert!(!sure(expression), "{expression}");
    }
}

#[test]
fn names_and_texts_are_told_from_calls() {
    for expression in [
        ".halt",
        ".x.range",
        r#".["halt"]"#,
        r#"."halt""#,
        r#"{"env": .x}"#,
        ". as $halt | $halt",
        "halting",
        "my_halt",
        r#""halt * # %""#,
        r#""a \" halt""#,
        r#""\\" "#,
        r#""\(.x) halt \(.y)""#,
        r#""\({a: [(.x)]}) halt""#,
        "",
    ] {
        assert!(sure(expression), "{expression}");
    }
    assert!(!sure(r#""\({a: [(halt)]}) ""#));
    assert!(!sure(r#""\\" | halt"#));
    assert!(!sure("(halt)"));
    assert!(!sure("halt|halt"));
}

#[test]
fn integers_of_the_input_bound_the_sums() {
    assert!(is_sure_to_come_back(".x[-1]", &json("140737488355328")));
    let sum = ".x + 1";
    for (input, expected) in [
        ("140737488355327", true),
        ("140737488355328", false),
        ("-140737488355327", true),
        ("-140737488355328", false),
        (r#"[{"a": 140737488355328}]"#, false),
        (r#"[{"a": 1.5e300}]"#, true),
        (r#""140737488355328""#, true),
    ] {
        let value = json(input);
        assert_eq!(is_sure_to_come_back(sum, &value), expected, "{input}");
        assert!(is_sure_to_come_back(".x", &value), "{input}");
    }
    assert!(is_sure_to_come_back(".x", &json("18446744073709551615")));
    assert!(!is_sure_to_come_back(".x", &json("-9223372036854775808")));
    let odd = Json::Number(Number::Float("7".to_string()));
    assert!(!is_sure_to_come_back(".x", &odd));
}

#[test]
fn what_comes_back_is_evaluated() {
    for (expression, input, output) in [
        (".x", "7", "7"),
        (".x + 1", "41", "42"),
        (".x + -43", "42", "-1"),
        ("[-1, -2][1:]", "1", "[-2]"),
        (".x[-1]", "[1, 2]", "2"),
        (r#""\(.x)-\(.x)""#, "1", r#""1-1""#),
        (r#".x + ["b"]"#, r#"["a"]"#, r#"["a", "b"]"#),
        (".x | map(. + 1)", "[1, 2]", "[2, 3]"),
        (".x | length", "[1, 2]", "2"),
        (".x | keys", r#"{"b": 1, "a": 2}"#, r#"["a", "b"]"#),
        (".x | to_entries", r#"{"a": 1}"#, r#"[{"key": "a", "value": 1}]"#),
        (".x | with_entries(.value |= tostring)", r#"{"a": 1}"#, r#"{"a": "1"}"#),
        (".x | flatten", "[1, [2, [3]]]", "[1, 2, 3]"),
        (".x | transpose", "[[1, 2], [3]]", "[[1, 3], [2, null]]"),
        (r#".x | join(",")"#, r#"["a", "b"]"#, r#""a,b""#),
        (r#".x | split(",")"#, r#""a,b""#, r#"["a", "b"]"#),
        (r#".x | split("[,;]"; "")"#, r#""a,b;c""#, r#"["a", "b", "c"]"#),
        (".x | walk(.)", "[1]", "[1]"),
        ("reduce .x[] as $i (null; $i)", "[1, 2]", "2"),
        (".x | [limit(1; .[])]", "[1, 2]", "[1]"),
        ("[..]", "1", r#"[{"x": 1}, 1]"#),
        (".x | @base64", r#""a""#, r#""YQ==""#),
        (".x | todate", "0", r#""1970-01-01T00:00:00Z""#),
        ("label $out | .x, break $out", "1", "1"),
        (".x | del(.[0])", "[1, 2]", "[2]"),
        (".y // .x", "1", "1"),
        ("if .x > 1 then .x else 0 end", "2", "2"),
        ("mkManaged(.x)", r#""v""#, r#"{"__nixhapi": "managed", "value": "v"}"#),
    ] {
        assert_eq!(derive(expression, input), Ok(json(output)), "{expression}");
    }
}

#[test]
fn a_refused_expression_is_an_error() {
    let error = depends_on("halt").unwrap_err();
    assert_eq!(
        error,
        DagError::ExpressionRefused { instance: "a".to_string(), expression: "halt".to_string() }
    );
    assert_eq!(
        error.message(),
        "dependsOn expression \"halt\" for instance \"a\" is not evaluated: it might not come back"
    );
    assert_eq!(error.copy(), error);
    assert_eq!(depends_on(".b"), Ok(vec![vec!["b".to_string()], vec!["a".to_string()]]));

    match derive("halt", "1") {
        Err(DerivedFromError::ExpressionEval { expression, source }) => {
            assert_eq!(expression, "halt");
            assert!(matches!(source, DagError::ExpressionRefused { .. }));
        }
        other => panic!("{other:?}"),
    }
}

#[test]
fn a_refused_input_path_is_an_error() {
    let node = json(
        r#"{
            "__nixhapi": "derived-from",
            "inputs": {"x": ".[\"b\"] | halt"},
            "expression": "mkManaged(.x)"
        }"#,
    );
    match resolve_derived_from_tree(&node, &json(r#"{"b": 1}"#)) {
        Err(DerivedFromError::InputPathEval { path, source }) => {
            assert_eq!(path, r#".["b"] | halt"#);
            assert!(matches!(source, DagError::ExpressionRefused { .. }));
        }
        other => panic!("{other:?}"),
    }
}
