use nix_hapi::field_value::{FieldValue, FieldValueError, ResolvedFieldValue};
use nix_hapi::jq_expr::{JqExpr, JqExprStructured};
use nix_hapi::json::Json;
use nix_hapi::meta::{NixHapiMeta, ProviderSpec};
use nix_hapi::provider::{resolve_config, ProviderError};
use nix_hapi::sources::{Reading, Sources};
use nix_hapi::strmap::StrMap;

fn json(text: &str) -> Json {
    Json::parse(text).expect("valid JSON")
}

fn field(text: &str) -> FieldValue {
    FieldValue::from_json(&json(text)).expect("a field value")
}

fn sources() -> Sources {
    Sources::new()
        .with_file("/etc/secret", Reading::Text("  s3cret\n".to_string()))
        .with_file("/etc/gone", Reading::Failure("gone".to_string()))
        .with_variable("TOKEN", Reading::Text(" token ".to_string()))
        .with_variable("NONE", Reading::Failure("environment variable not found".to_string()))
}

const FORMS: [&str; 7] = [
    r#"{"__nixhapi":"managed","value":"v"}"#,
    r#"{"__nixhapi":"initial","value":"v"}"#,
    r#"{"__nixhapi":"managed-from-path","path":"/etc/secret"}"#,
    r#"{"__nixhapi":"initial-from-path","path":"/etc/secret"}"#,
    r#"{"__nixhapi":"managed-from-env","env":"TOKEN"}"#,
    r#"{"__nixhapi":"initial-from-env","env":"TOKEN"}"#,
    r#"{"__nixhapi":"unmanaged"}"#,
];

#[test]
fn field_values_are_read_back_as_they_were_written() {
    for form in FORMS {
        let value = field(form);
        assert_eq!(value.to_json().text(), form);
        assert_eq!(FieldValue::from_json(&value.to_json()), Ok(value.copy()));
    }
}

#[test]
fn field_values_resolve() {
    let expected = [
        ResolvedFieldValue::Managed("v".to_string()),
        ResolvedFieldValue::Initial("v".to_string()),
        ResolvedFieldValue::Managed("s3cret".to_string()),
        ResolvedFieldValue::Initial("s3cret".to_string()),
        ResolvedFieldValue::Managed(" token ".to_string()),
        ResolvedFieldValue::Initial(" token ".to_string()),
        ResolvedFieldValue::Unmanaged,
    ];
    for (form, value) in FORMS.iter().zip(expected) {
        assert_eq!(field(form).resolve(&sources()), Ok(value));
    }
}

#[test]
fn field_values_name_their_sources() {
    assert_eq!(field(FORMS[0]).file(), None);
    assert_eq!(field(FORMS[2]).file(), Some("/etc/secret"));
    assert_eq!(field(FORMS[2]).variable(), None);
    assert_eq!(field(FORMS[5]).variable(), Some("TOKEN"));
}

#[test]
fn a_file_that_cannot_be_read_is_an_error() {
    let value = field(r#"{"__nixhapi": "managed-from-path", "path": "/etc/gone"}"#);
    let error = value.resolve(&sources()).unwrap_err();
    assert_eq!(
        error,
        FieldValueError::PathRead { path: "/etc/gone".to_string(), source: "gone".to_string() }
    );
    assert_eq!(
        error.message(),
        r#"Failed to read field value from path "/etc/gone": gone"#
    );
}

#[test]
fn a_variable_that_is_not_set_is_an_error() {
    let value = field(r#"{"__nixhapi": "initial-from-env", "env": "NONE"}"#);
    let error = value.resolve(&sources()).unwrap_err();
    assert_eq!(
        error.message(),
        "Failed to read field value from environment variable \"NONE\": \
         environment variable not found"
    );
}

#[test]
fn malformed_field_values_are_refused() {
    for (text, message) in [
        (r#"{}"#, "expected a field value"),
        (r#""v""#, "expected a field value"),
        (r#"{"__nixhapi": "managed"}"#, r#"missing field "value""#),
        (r#"{"__nixhapi": "managed-from-env", "value": "v"}"#, r#"missing field "env""#),
        (r#"{"__nixhapi": "other"}"#, r#"unknown field value "other""#),
    ] {
        assert_eq!(FieldValue::from_json(&json(text)), Err(message.to_string()));
    }
}

#[test]
fn resolved_values_tell_their_kinds() {
    let managed = ResolvedFieldValue::Managed("m".to_string());
    let initial = ResolvedFieldValue::Initial("i".to_string());
    let unmanaged = ResolvedFieldValue::Unmanaged;
    assert_eq!((managed.value(), initial.value(), unmanaged.value()), (Some("m"), Some("i"), None));
    assert!(managed.is_managed() && !managed.is_initial() && !managed.is_unmanaged());
    assert!(!initial.is_managed() && initial.is_initial() && !initial.is_unmanaged());
    assert!(!unmanaged.is_managed() && !unmanaged.is_initial() && unmanaged.is_unmanaged());
    assert_eq!(initial.copy(), initial);
}

#[test]
fn readings_are_kept_by_name() {
    assert_eq!(sources().file("/etc/gone"), Reading::Failure("gone".to_string()));
    assert_eq!(sources().variable("TOKEN"), Reading::Text(" token ".to_string()));
    assert!(matches!(Sources::new().file("/etc/secret"), Reading::Failure(_)));
}

#[test]
fn configurations_resolve_field_by_field() {
    let raw = StrMap::new()
        .put("url".to_string(), field(FORMS[0]))
        .put("password".to_string(), field(FORMS[2]));
    let config = resolve_config(&raw, &sources()).unwrap();
    assert_eq!(config.keys(), vec!["password", "url"]);
    assert_eq!(config.get("password").and_then(|v| v.value()), Some("s3cret"));
}

#[test]
fn a_configuration_field_that_does_not_resolve_is_named() {
    let raw = StrMap::new()
        .put("url".to_string(), field(FORMS[0]))
        .put("key".to_string(), field(r#"{"__nixhapi": "managed-from-env", "env": "NONE"}"#));
    let error = resolve_config(&raw, &sources()).unwrap_err();
    assert!(matches!(&error, ProviderError::ConfigResolution { field, .. } if field == "key"));
    assert_eq!(
        error.message(),
        "Failed to resolve provider configuration field \"key\": \
         Failed to read field value from environment variable \"NONE\": \
         environment variable not found"
    );
}

#[test]
fn provider_errors_have_messages() {
    for (error, message) in [
        (
            ProviderError::MissingConfig { field: "f".to_string() },
            r#"Required provider configuration field "f" is missing"#,
        ),
        (
            ProviderError::UnmanagedConfig { field: "f".to_string() },
            r#"Provider configuration field "f" must not be Unmanaged"#,
        ),
        (
            ProviderError::ConnectionFailed("m".to_string()),
            "Failed to connect to provider: m",
        ),
        (ProviderError::OperationFailed("m".to_string()), "Provider operation failed: m"),
        (ProviderError::DesiredStateParse("m".to_string()), "Failed to parse desired state: m"),
        (ProviderError::LiveStateParse("m".to_string()), "Failed to parse live state: m"),
    ] {
        assert_eq!(error.message(), message);
    }
}

#[test]
fn expressions_are_read_back_as_they_were_written() {
    for expr in [
        JqExpr::Inline(".a".to_string()),
        JqExpr::Structured(JqExprStructured::Inline { value: ".b".to_string() }),
        JqExpr::Structured(JqExprStructured::File { path: "/c.jq".to_string() }),
    ] {
        assert_eq!(JqExpr::from_json(&expr.to_json()), Ok(expr.copy()));
    }
    assert_eq!(JqExpr::from_json(&json("1")), Err("expected a jq expression".to_string()));
    assert!(JqExpr::from_json(&json(r#"{"__nixhapi": "jq-file"}"#)).is_err());
}

#[test]
fn an_expression_in_a_file_is_trimmed() {
    let expr = JqExpr::Structured(JqExprStructured::File { path: "/c.jq".to_string() });
    assert_eq!(expr.file(), Some("/c.jq"));
    assert_eq!(JqExpr::Inline(".a".to_string()).file(), None);
    let sources = Sources::new().with_file("/c.jq", Reading::Text("\n .a.b \n".to_string()));
    assert_eq!(expr.resolve(&sources), Ok(".a.b".to_string()));
}

#[test]
fn directives_are_read_back_as_they_were_written() {
    let meta = NixHapiMeta::from_json(&json(
        r#"{
            "provider": {"type": "ldap", "url": {"__nixhapi": "managed", "value": "u"}},
            "dependsOn": [".a", {"__nixhapi": "jq-file", "path": "/c.jq"}],
            "ignore": [{"__nixhapi": "jq-expr", "value": ".x"}]
        }"#,
    ))
    .unwrap();
    assert_eq!(meta.provider.as_ref().map(|p| p.provider_type.as_str()), Some("ldap"));
    assert_eq!(meta.depends_on.len(), 2);
    assert_eq!(meta.ignore.len(), 1);
    assert_eq!(NixHapiMeta::from_json(&meta.to_json()), Ok(meta));
}

#[test]
fn directives_may_be_left_out() {
    assert_eq!(NixHapiMeta::from_json(&json("{}")), Ok(NixHapiMeta::default()));
    assert_eq!(
        NixHapiMeta::from_json(&json(r#"{"provider": null}"#)),
        Ok(NixHapiMeta::default())
    );
    assert_eq!(NixHapiMeta::from_json(&json("7")), Err("expected an object".to_string()));
    assert!(NixHapiMeta::from_json(&json(r#"{"dependsOn": ".a"}"#)).is_err());
    assert!(NixHapiMeta::from_json(&json(r#"{"ignore": [1]}"#)).is_err());
}

#[test]
fn a_provider_declaration_needs_a_type_and_field_values() {
    let spec = ProviderSpec::from_json(&json(r#"{"type": "fake"}"#)).unwrap();
    assert_eq!(spec.provider_type, "fake");
    assert_eq!(spec.config.len(), 0);
    assert_eq!(spec.to_json().text(), r#"{"type":"fake"}"#);
    assert!(ProviderSpec::from_json(&json("{}")).is_err());
    assert!(ProviderSpec::from_json(&json(r#"{"type": "fake", "url": "plain"}"#)).is_err());
}

#[test]
fn tagged_values_may_be_lists() {
    let value = || "v".to_string();
    for (text, expected) in [
        (r#"["managed", "v"]"#, FieldValue::Managed { value: value() }),
        (r#"["initial", "v"]"#, FieldValue::Initial { value: value() }),
        (r#"["managed-from-path", "v"]"#, FieldValue::ManagedFromPath { path: value() }),
        (r#"["initial-from-path", "v"]"#, FieldValue::InitialFromPath { path: value() }),
        (r#"["managed-from-env", "v"]"#, FieldValue::ManagedFromEnv { env: value() }),
        (r#"["initial-from-env", "v"]"#, FieldValue::InitialFromEnv { env: value() }),
        (r#"["unmanaged"]"#, FieldValue::Unmanaged),
        (r#"[0, "v"]"#, FieldValue::Managed { value: value() }),
        (r#"{"__nixhapi": 1, "value": "v"}"#, FieldValue::Initial { value: value() }),
        (r#"{"__nixhapi": 2}"#, FieldValue::Unmanaged),
        (r#"[3, "v"]"#, FieldValue::ManagedFromPath { path: value() }),
        (r#"[4, "v"]"#, FieldValue::InitialFromPath { path: value() }),
        (r#"[5, "v"]"#, FieldValue::ManagedFromEnv { env: value() }),
        (r#"[6, "v"]"#, FieldValue::InitialFromEnv { env: value() }),
    ] {
        assert_eq!(field(text), expected, "{text}");
    }
    for text in [
        "[]",
        r#"["managed"]"#,
        r#"["managed", 1]"#,
        r#"["managed", "v", "w"]"#,
        r#"["unmanaged", "v"]"#,
        r#"["other", "v"]"#,
        r#"[7, "v"]"#,
        r#"[-1, "v"]"#,
        r#"[null, "v"]"#,
    ] {
        assert!(FieldValue::from_json(&json(text)).is_err(), "{text}");
    }
    let file = || JqExpr::Structured(JqExprStructured::File { path: "p".to_string() });
    let inline = || JqExpr::Structured(JqExprStructured::Inline { value: ".x".to_string() });
    assert_eq!(JqExpr::from_json(&json(r#"["jq-expr", ".x"]"#)), Ok(inline()));
    assert_eq!(JqExpr::from_json(&json(r#"["jq-file", "p"]"#)), Ok(file()));
    assert_eq!(JqExpr::from_json(&json(r#"[0, ".x"]"#)), Ok(inline()));
    assert_eq!(JqExpr::from_json(&json(r#"{"__nixhapi": 1, "path": "p"}"#)), Ok(file()));
    for text in ["[]", r#"["jq-expr"]"#, r#"["jq-expr", ".x", 1]"#, r#"[2, ".x"]"#, r#"[".x"]"#] {
        assert!(JqExpr::from_json(&json(text)).is_err(), "{text}");
    }
}

#[test]
fn directives_may_be_a_list() {
    let read = |text: &str| NixHapiMeta::from_json(&json(text));
    assert_eq!(read("[null]"), Ok(NixHapiMeta::default()));
    assert_eq!(
        read(r#"[null, [".x"], [".a"]]"#),
        Ok(NixHapiMeta {
            provider: None,
            ignore: vec![JqExpr::Inline(".x".to_string())],
            depends_on: vec![JqExpr::Inline(".a".to_string())],
        })
    );
    let meta = read(r#"[{"type": "ldap", "url": ["managed", "u"]}]"#).unwrap();
    let spec = meta.provider.unwrap();
    assert_eq!(spec.provider_type, "ldap");
    assert_eq!(spec.config.get("url"), Some(&FieldValue::Managed { value: "u".to_string() }));
    for text in ["[]", "[null, null]", "[null, [], [], []]", "[[]]", "null", "7"] {
        assert!(read(text).is_err(), "{text}");
    }
}
