use nix_hapi::jq_expr::{JqExpr, JqExprError, JqExprStructured};
use nix_hapi::json::Json;
use nix_hapi::sources::{Reading, Sources};

fn json(text: &str) -> Json {
    Json::parse(text).expect("valid JSON")
}

fn read(text: &str) -> JqExpr {
    JqExpr::from_json(&json(text)).expect("an expression")
}

#[test]
fn bare_string_deserializes_as_inline() {
    let expr = read(r#"".[\"a\"]""#);
    assert_eq!(expr, JqExpr::Inline(r#".["a"]"#.to_string()));
    assert_eq!(expr.resolve(&Sources::new()).unwrap(), r#".["a"]"#);
}

#[test]
fn jq_expr_object_deserializes() {
    let expr = read(r#"{"__nixhapi": "jq-expr", "value": ".foo | test(\"bar\")"}"#);
    assert_eq!(
        expr,
        JqExpr::Structured(JqExprStructured::Inline {
            value: r#".foo | test("bar")"#.to_string(),
        })
    );
    assert_eq!(expr.resolve(&Sources::new()).unwrap(), r#".foo | test("bar")"#);
}

#[test]
fn jq_file_object_deserializes() {
    let expr = read(r#"{"__nixhapi": "jq-file", "path": "/tmp/test.jq"}"#);
    assert!(matches!(expr, JqExpr::Structured(JqExprStructured::File { .. })));
}

#[test]
fn jq_file_read_error_is_descriptive() {
    let expr = JqExpr::Structured(JqExprStructured::File {
        path: "/nonexistent/path.jq".to_string(),
    });
    let sources = Sources::new().with_file(
        "/nonexistent/path.jq",
        Reading::Failure("No such file or directory (os error 2)".to_string()),
    );
    let err = expr.resolve(&sources).unwrap_err();
    assert!(err.message().contains("/nonexistent/path.jq"));
    assert_eq!(
        err,
        JqExprError::FileRead {
            path: "/nonexistent/path.jq".to_string(),
            source: "No such file or directory (os error 2)".to_string(),
        }
    );
}
