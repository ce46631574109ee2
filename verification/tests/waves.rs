use nix_hapi::dag::{
    declarations, evaluation_error, execution_waves, expression_files, resolve_dependency,
    topological_order, DagError, Declaration,
};
use nix_hapi::derived::{
    expression_result, input_result, read_derived_inputs, resolve_derived_from_tree,
    DerivedFromError,
};
use nix_hapi::graph::{dependency_waves, flatten_waves};
use nix_hapi::jq::JqFailure;
use nix_hapi::jq_expr::{JqExpr, JqExprError};
use nix_hapi::json::Json;
use nix_hapi::saturation::{check_derived_from_saturation, SaturationError};
use nix_hapi::sources::{Reading, Sources};
use nix_hapi::strmap::StrMap;

fn json(text: &str) -> Json {
    Json::parse(text).expect("valid JSON")
}

fn waves_of(text: &str) -> Result<Vec<Vec<String>>, DagError> {
    execution_waves(&json(text), &Sources::new())
}

fn graph(edges: &[(&str, &[&str])]) -> StrMap<Vec<String>> {
    StrMap::from_entries(
        edges
            .iter()
            .map(|(name, deps)| {
                (name.to_string(), deps.iter().map(|dep| dep.to_string()).collect())
            })
            .collect(),
    )
}

#[test]
fn a_wave_is_as_late_as_the_longest_path() {
    let edges: [(&str, &[&str]); 5] =
        [("e", &["a", "d"]), ("a", &[]), ("b", &["a"]), ("c", &["a"]), ("d", &["b", "c"])];
    let waves = dependency_waves(&graph(&edges)).unwrap();
    assert_eq!(waves, vec![vec!["a"], vec!["b", "c"], vec!["d"], vec!["e"]]);
    assert_eq!(flatten_waves(&waves), vec!["a", "b", "c", "d", "e"]);
}

#[test]
fn a_graph_with_a_cycle_has_no_waves() {
    assert_eq!(dependency_waves(&graph(&[("a", &["b"]), ("b", &["a"]), ("c", &[])])), None);
    assert_eq!(dependency_waves(&graph(&[("a", &["a"])])), None);
    assert_eq!(dependency_waves(&graph(&[])), Some(vec![]));
}

#[test]
fn names_at_one_depth_are_in_alphabetical_order() {
    let root = json(
        r#"{
            "a": {}, "b": {},
            "z": {"__nixhapi": {"dependsOn": [".a"]}},
            "c": {"__nixhapi": {"dependsOn": [".b"]}, "x": 1}
        }"#,
    );
    // An expression stands for the first instance that it equals: here `a` equals `b`.
    assert_eq!(
        topological_order(&root, &Sources::new()).unwrap(),
        vec!["a", "b", "c", "z"]
    );
}

#[test]
fn expressions_fail_in_their_ways() {
    let fails = |expression: &str| {
        let scope = Json::empty_object().with_member(
            "dependsOn",
            Json::Array(vec![Json::String(expression.to_string())]),
        );
        let root = Json::empty_object()
            .with_member("a", Json::empty_object().with_member("__nixhapi", scope));
        execution_waves(&root, &Sources::new()).unwrap_err()
    };
    assert!(matches!(fails("]"), DagError::ExpressionParse { .. }));
    assert!(matches!(fails("nothing_like_it"), DagError::ExpressionCompile { .. }));
    assert!(matches!(fails("empty"), DagError::ExpressionNoOutput { .. }));
    assert!(matches!(fails(r#"error("bad")"#), DagError::ExpressionRuntime { .. }));
    assert!(matches!(fails(".missing"), DagError::UnresolvedDependency { .. }));
    assert_eq!(
        fails("empty").message(),
        r#"dependsOn expression "empty" for instance "a" produced no output"#
    );
}

#[test]
fn failures_of_an_evaluation_are_told_apart() {
    let top = || match json(r#"{"a": {"n": 1}, "b": {"n": 2}}"#) {
        Json::Object(map) => map,
        _ => unreachable!(),
    };
    let settle = |outcome| resolve_dependency("i", ".x", &top(), outcome);
    assert_eq!(settle(Ok(json(r#"{"n": 2}"#))), Ok("b".to_string()));
    let error = settle(Ok(json("3"))).unwrap_err();
    assert_eq!(
        error.message(),
        "dependsOn expression \".x\" in instance \"i\" did not resolve to any known provider \
         instance"
    );
    for (failure, message) in [
        (
            JqFailure::Parse("m".to_string()),
            r#"dependsOn expression ".x" for instance "i" failed to parse: m"#,
        ),
        (
            JqFailure::Compile("m".to_string()),
            r#"dependsOn expression ".x" for instance "i" failed to compile: m"#,
        ),
        (
            JqFailure::Runtime("m".to_string()),
            r#"dependsOn expression ".x" for instance "i" runtime error: m"#,
        ),
        (
            JqFailure::NoOutput,
            r#"dependsOn expression ".x" for instance "i" produced no output"#,
        ),
        (
            JqFailure::Refused,
            "dependsOn expression \".x\" for instance \"i\" is not evaluated: it might not come \
             back",
        ),
    ] {
        let error = evaluation_error("i", ".x", failure);
        assert_eq!(error.message(), message);
        assert_eq!(error.copy(), error);
    }
}

#[test]
fn an_expression_may_stand_in_a_file() {
    let root = json(
        r#"{
            "a": {},
            "b": {
                "__nixhapi": {"dependsOn": [{"__nixhapi": "jq-file", "path": "/d.jq"}]},
                "x": 1
            }
        }"#,
    );
    assert_eq!(expression_files(&root), vec!["/d.jq"]);
    let sources = Sources::new().with_file("/d.jq", Reading::Text(".a\n".to_string()));
    assert_eq!(execution_waves(&root, &sources).unwrap(), vec![vec!["a"], vec!["b"]]);
    let other = Sources::new()
        .with_file("/d.jq", Reading::Text(".a\n".to_string()))
        .with_file("/other.jq", Reading::Text("]".to_string()));
    assert_eq!(execution_waves(&root, &other), execution_waves(&root, &sources));
    let gone = Sources::new().with_file("/d.jq", Reading::Failure("gone".to_string()));
    assert_eq!(
        execution_waves(&root, &gone),
        Err(DagError::ExpressionFile {
            instance: "b".to_string(),
            source: JqExprError::FileRead {
                path: "/d.jq".to_string(),
                source: "gone".to_string(),
            },
        })
    );
}

#[test]
fn an_instance_does_not_wait_for_itself() {
    let waves = waves_of(r#"{"a": {"__nixhapi": {"dependsOn": [".a"]}}}"#);
    assert_eq!(waves.unwrap(), vec![vec!["a"]]);
}

#[test]
fn declarations_are_found_in_the_order_of_the_walk() {
    let scope = json(
        r#"{
            "__nixhapi": {"dependsOn": [".b"]},
            "f": {"__nixhapi": "derived-from", "inputs": {"y": ".[\"b\"].x", "x": "odd"}},
            "g": {"__nixhapi": "managed", "value": "v"},
            "h": {"i": {"__nixhapi": "derived-from", "inputs": {"z": ".[\"c\"]"}}}
        }"#,
    );
    let top = StrMap::new().put("a".to_string(), Json::Null).put("b".to_string(), Json::Null);
    assert_eq!(
        declarations("a", &scope, &top),
        vec![
            Declaration::DependsOn(JqExpr::Inline(".b".to_string())),
            Declaration::Invalid(DagError::InvalidInputPath {
                instance: "a".to_string(),
                alias: "x".to_string(),
                path: "odd".to_string(),
            }),
            Declaration::Reference("b".to_string()),
            Declaration::Invalid(DagError::UnresolvedInputDependency {
                instance: "a".to_string(),
                alias: "z".to_string(),
                referenced: "c".to_string(),
            }),
        ]
    );
}

#[test]
fn graph_errors_have_messages() {
    let text = |s: &str| s.to_string();
    for (error, message) in [
        (
            DagError::InvalidInputPath { instance: text("i"), alias: text("x"), path: text("p") },
            "derivedFrom input \"x\" in instance \"i\" has invalid path \"p\": \
             must begin with .[\"<instance-name>\"]",
        ),
        (
            DagError::UnresolvedInputDependency {
                instance: text("i"),
                alias: text("x"),
                referenced: text("r"),
            },
            "derivedFrom input \"x\" in instance \"i\" references unknown provider instance \"r\"",
        ),
        (
            DagError::MetadataParse { instance: text("i"), message: text("m") },
            "Malformed __nixhapi metadata in instance \"i\": m",
        ),
        (DagError::Cycle, "Cycle detected in provider dependency graph"),
    ] {
        assert_eq!(error.message(), message);
    }
}

#[test]
fn an_input_that_is_null_is_not_available() {
    assert_eq!(input_result(".a", Ok(Json::Null)), Ok(None));
    assert_eq!(input_result(".a", Ok(json("0"))), Ok(Some(json("0"))));
    let error = input_result(".a", Err(JqFailure::NoOutput)).unwrap_err();
    assert_eq!(
        error.message(),
        "Failed to evaluate derivedFrom input path \".a\": \
         dependsOn expression \"try (.a) catch null\" for instance \"(derived-from)\" \
         produced no output"
    );
    assert_eq!(expression_result(".x", Ok(Json::Null)), Ok(Json::Null));
    assert!(matches!(
        expression_result(".x", Err(JqFailure::NoOutput)),
        Err(DerivedFromError::ExpressionEval { .. })
    ));
}

#[test]
fn inputs_of_a_node_are_all_strings_or_none() {
    let read = read_derived_inputs(&json(r#"{"inputs": {"b": ".y", "a": ".x"}}"#));
    assert_eq!(read.keys(), vec!["a", "b"]);
    assert_eq!(read_derived_inputs(&json(r#"{"inputs": {"b": 1}}"#)).len(), 0);
    assert_eq!(read_derived_inputs(&json("{}")).len(), 0);
}

#[test]
fn errors_in_a_derived_field_end_the_resolution() {
    let node = |path: &str, expression: &str| {
        let text = format!(
            r#"{{"f": {{"__nixhapi": "derived-from", "inputs": {{"x": "{path}"}}, "expression": "{expression}"}}}}"#
        );
        resolve_derived_from_tree(&json(&text), &json(r#"{"a": "v"}"#))
    };
    assert_eq!(
        node(".a", "mkInitial(.x)"),
        Ok(json(r#"{"f": {"__nixhapi": "initial", "value": "v"}}"#))
    );
    assert!(matches!(node("]", ".x"), Err(DerivedFromError::InputPathEval { .. })));
    assert!(matches!(node(".a", "]"), Err(DerivedFromError::ExpressionEval { .. })));
    assert!(matches!(node(".a", "error"), Err(DerivedFromError::ExpressionEval { .. })));
    assert!(node(".b.c.d", "]").is_ok());
}

#[test]
fn derived_fields_within_lists_are_resolved() {
    let desired = json(
        r#"[1, {"__nixhapi": "derived-from", "inputs": {"x": ".a"}, "expression": "[.x, .x + 1]"}]"#,
    );
    assert_eq!(
        resolve_derived_from_tree(&desired, &json(r#"{"a": 41}"#)),
        Ok(json("[1, [41, 42]]"))
    );
}

#[test]
fn computed_waves_are_saturated() {
    let root = json(
        r#"{
            "a": {},
            "b": {"f": {"__nixhapi": "derived-from", "inputs": {"x": ".[\"a\"].id"}}}
        }"#,
    );
    let waves = execution_waves(&root, &Sources::new()).unwrap();
    assert_eq!(check_derived_from_saturation(&root, &waves), Ok(()));
}

#[test]
fn inputs_that_are_not_saturated_are_named() {
    let root = json(
        r#"{"b": {"g": {"f": {"__nixhapi": "derived-from", "inputs": {"x": ".[\"a\"].id"}}}}}"#,
    );
    let wave = |name: &str| vec![name.to_string()];
    let later = check_derived_from_saturation(&root, &vec![wave("b"), wave("a")]).unwrap_err();
    assert_eq!(
        later.message(),
        "DerivedFrom at \"b.g.f\": input \"x\" references instance \"a\" which is in wave 1 \
         (same or later than owning instance in wave 0)"
    );
    let missing = check_derived_from_saturation(&root, &vec![wave("b")]).unwrap_err();
    assert_eq!(
        missing.message(),
        "DerivedFrom at \"b.g.f\": input \"x\" references unknown instance \"a\""
    );
    let odd = json(r#"{"b": {"__nixhapi": "derived-from", "inputs": {"x": "odd"}}}"#);
    let invalid = check_derived_from_saturation(&odd, &vec![wave("b")]).unwrap_err();
    assert!(matches!(invalid, SaturationError::InvalidInputPath { .. }));
    assert_eq!(
        invalid.message(),
        "DerivedFrom at \"b\": input \"x\" has invalid path \"odd\" — \
         must begin with .[\"<instance-name>\"]"
    );
}

#[test]
fn waves_without_expressions_do_not_rest_on_readings() {
    let root = json(
        r#"{
            "a": {},
            "b": {"f": {"__nixhapi": "derived-from", "inputs": {"x": ".[\"a\"].id"}}},
            "c": {"__nixhapi": {"provider": {"type": "fake"}}}
        }"#,
    );
    let read = Sources::new().with_file("/d.jq", Reading::Text(".a".to_string()));
    assert_eq!(execution_waves(&root, &read), execution_waves(&root, &Sources::new()));
    assert_eq!(execution_waves(&root, &read).unwrap(), vec![vec!["a", "c"], vec!["b"]]);
}

#[test]
fn a_derived_field_within_a_list_creates_a_dependency() {
    let root = json(
        r#"{
            "a": {"xs": [{
                "__nixhapi": "derived-from",
                "inputs": {"v": ".[\"b\"].o"},
                "expression": "mkManaged(.v)"
            }]},
            "b": {}
        }"#,
    );
    assert_eq!(execution_waves(&root, &Sources::new()).unwrap(), vec![vec!["b"], vec!["a"]]);
    let nested = json(
        r#"{
            "a": {"xs": [1, [{"y": {"__nixhapi": "derived-from", "inputs": {"v": ".[\"b\"]"}}}]]},
            "b": {}
        }"#,
    );
    assert_eq!(execution_waves(&nested, &Sources::new()).unwrap(), vec![vec!["b"], vec!["a"]]);
}

#[test]
fn derived_fields_within_lists_are_checked() {
    let root = json(
        r#"{
            "a": {},
            "b": {"xs": [{
                "__nixhapi": "derived-from",
                "inputs": {"v": ".[\"a\"].o"},
                "expression": "mkManaged(.v)"
            }]}
        }"#,
    );
    let waves = vec![vec!["a".to_string(), "b".to_string()]];
    assert_eq!(
        check_derived_from_saturation(&root, &waves),
        Err(SaturationError::InputReferencesLaterWave {
            field_path: "b.xs.0".to_string(),
            input_alias: "v".to_string(),
            referenced_instance: "a".to_string(),
            referenced_wave: 0,
            owning_wave: 0,
        })
    );
    let waves = vec![vec!["a".to_string()], vec!["b".to_string()]];
    assert_eq!(check_derived_from_saturation(&root, &waves), Ok(()));
}

#[test]
fn a_list_in_place_of_directives_is_data() {
    let root = json(
        r#"{
            "a": {"__nixhapi": [{"__nixhapi": "derived-from", "inputs": {"v": ".[\"b\"].o"}}]},
            "b": {}
        }"#,
    );
    assert_eq!(execution_waves(&root, &Sources::new()).unwrap(), vec![vec!["b"], vec!["a"]]);
}
