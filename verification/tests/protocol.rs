use nix_hapi::fake::FakeProvider;
use nix_hapi::field_value::ResolvedFieldValue;
use nix_hapi::json::Json;
use nix_hapi::meta::NixHapiMeta;
use nix_hapi::plan::{ApplyReport, ProviderPlan, ResourceChange};
use nix_hapi::provider::{Filter, Provider, ProviderError, ResolvedConfig};
use nix_hapi::provider_host::{
    dispatch, error_response, get_or_null, parse_config, read_call, reply, respond,
    success_response, HostCall, ProviderHostError,
};
use nix_hapi::strmap::StrMap;
use nix_hapi::subprocess::{
    apply_params, list_live_params, live_result, plan_params, plan_result, read_response,
    report_result, request_line, response_result, to_wire_config, wire_config, SubprocessError,
};

fn json(text: &str) -> Json {
    Json::parse(text).expect("valid JSON")
}

fn config() -> ResolvedConfig {
    StrMap::new()
        .put("url".to_string(), ResolvedFieldValue::Managed("u".to_string()))
        .put("password".to_string(), ResolvedFieldValue::Initial("p".to_string()))
        .put("note".to_string(), ResolvedFieldValue::Unmanaged)
}

/// What the host reads of the configuration that the client sends.
fn received() -> ResolvedConfig {
    StrMap::new()
        .put("url".to_string(), ResolvedFieldValue::Managed("u".to_string()))
        .put("password".to_string(), ResolvedFieldValue::Managed("p".to_string()))
}

/// Calls a provider by way of the lines that a client and a host exchange.
fn call<P: Provider>(provider: &P, method: &str, params: Json) -> Result<Json, SubprocessError> {
    let line = request_line(method, params);
    assert!(!line.contains('\n'));
    let answer = respond(provider, &line).expect("a request").expect("an answer");
    read_response(&format!("{answer}\n"))
}

#[test]
fn a_provider_is_called_over_the_wire() {
    let provider = FakeProvider::new();
    let config: ResolvedConfig = StrMap::new();

    let live = live_result(call(&provider, "list_live", list_live_params(&config)))
        .expect("list_live failed");
    assert_eq!(live, json("{}"));

    let params = plan_params(&json("{}"), &live, &NixHapiMeta::default(), &config);
    let plan = plan_result(call(&provider, "plan", params)).expect("plan failed");
    assert_eq!(plan.changes.len(), 1);
    assert!(matches!(plan.changes[0], ResourceChange::Add { .. }));

    let report = report_result(call(&provider, "apply", apply_params(&plan, &config)))
        .expect("apply failed");
    assert_eq!(report.created, vec!["fake-resource".to_string()]);
}

#[test]
fn a_request_is_a_line_of_json() {
    assert_eq!(
        request_line("list_live", list_live_params(&config())),
        r#"{"id":1,"jsonrpc":"2.0","method":"list_live","params":{"config":{"password":"p","url":"u"},"filters":[]}}"#
    );
}

#[test]
fn requests_are_understood() {
    assert_eq!(
        read_call("list_live", &list_live_params(&config())),
        Ok(HostCall::ListLive { config: received() })
    );
    let meta = || {
        NixHapiMeta::from_json(&json(r#"{"provider": {"type": "fake"}, "dependsOn": [".a"]}"#))
            .expect("directives")
    };
    let params = plan_params(&json(r#"{"d": 1}"#), &json(r#"{"l": 2}"#), &meta(), &config());
    assert_eq!(
        read_call("plan", &params),
        Ok(HostCall::Plan {
            desired: json(r#"{"d": 1}"#),
            live: json(r#"{"l": 2}"#),
            meta: meta(),
            config: received(),
        })
    );
    assert_eq!(
        read_call("plan", &json(r#"{"meta": [null]}"#)),
        Ok(HostCall::Plan {
            desired: Json::Null,
            live: Json::Null,
            meta: NixHapiMeta::default(),
            config: StrMap::new(),
        })
    );
    let plan = || ProviderPlan {
        instance_name: "i".to_string(),
        provider_type: "fake".to_string(),
        changes: vec![ResourceChange::Delete { resource_id: "r".to_string() }],
        runbook: vec![],
    };
    assert_eq!(
        read_call("apply", &apply_params(&plan(), &config())),
        Ok(HostCall::Apply { plan: plan(), config: received() })
    );
}

#[test]
fn requests_that_cannot_be_met_are_refused() {
    assert_eq!(read_call("stop", &json("{}")), Err("unknown method: stop".to_string()));
    assert!(read_call("plan", &json("{}")).is_err());
    assert!(read_call("apply", &json("{}")).is_err());
    assert_eq!(
        read_call("list_live", &json(r#"{"config": 1}"#)),
        Err("failed to parse config: expected an object".to_string())
    );
    assert_eq!(
        read_call("list_live", &json("null")),
        Ok(HostCall::ListLive { config: StrMap::new() })
    );
}

#[test]
fn the_wire_leaves_out_unmanaged_fields() {
    assert_eq!(to_wire_config(&config()).keys(), vec!["password", "url"]);
    assert_eq!(wire_config(&config()).text(), r#"{"password":"p","url":"u"}"#);
    assert_eq!(parse_config(&wire_config(&config())), Ok(received()));
}

#[test]
fn wire_fields_may_be_tagged() {
    let read = parse_config(&json(
        r#"{
            "a": {"tag": "initial", "value": "x"},
            "b": {"tag": "managed", "value": "y"},
            "c": {"value": "z"},
            "d": "w"
        }"#,
    ))
    .unwrap();
    assert_eq!(read.get("a"), Some(&ResolvedFieldValue::Initial("x".to_string())));
    assert_eq!(read.get("b"), Some(&ResolvedFieldValue::Managed("y".to_string())));
    assert_eq!(read.get("c"), Some(&ResolvedFieldValue::Managed("z".to_string())));
    assert_eq!(read.get("d"), Some(&ResolvedFieldValue::Managed("w".to_string())));
    assert_eq!(
        parse_config(&json(r#"{"a": {"tag": "initial"}}"#)),
        Err(r#"config field "a": missing "value" in wire object"#.to_string())
    );
    assert_eq!(
        parse_config(&json(r#"{"a": [1, 2]}"#)),
        Err(r#"config field "a": expected object or string, got [1,2]"#.to_string())
    );
    assert_eq!(parse_config(&Json::Null), Ok(StrMap::new()));
}

#[test]
fn responses_carry_results_and_errors() {
    let success = success_response(json("7"), json(r#"{"x": 1}"#));
    assert_eq!(success.text(), r#"{"id":7,"jsonrpc":"2.0","result":{"x":1}}"#);
    assert_eq!(response_result(&success), Ok(json(r#"{"x": 1}"#)));
    let failure = error_response(json("null"), "bad".to_string());
    assert_eq!(
        failure.text(),
        r#"{"error":{"code":-32000,"message":"bad"},"id":null,"jsonrpc":"2.0"}"#
    );
    assert_eq!(
        response_result(&failure),
        Err(SubprocessError::ProviderError("bad".to_string()))
    );
    assert_eq!(
        response_result(&json(r#"{"error": 1}"#)),
        Err(SubprocessError::ProviderError("unknown provider error".to_string()))
    );
    assert_eq!(response_result(&json("{}")), Ok(Json::Null));
    assert_eq!(get_or_null(&json(r#"{"a": 1}"#), "a"), json("1"));
    assert_eq!(get_or_null(&json(r#"{"a": 1}"#), "b"), Json::Null);
}

#[test]
fn a_response_that_is_no_json_is_an_error() {
    assert!(matches!(read_response("nonsense"), Err(SubprocessError::ResponseParse(_))));
    assert!(matches!(read_response(""), Err(SubprocessError::ResponseParse(_))));
}

#[test]
fn results_of_another_shape_are_errors() {
    assert!(matches!(
        plan_result(Ok(json("{}"))),
        Err(ProviderError::DesiredStateParse(_))
    ));
    assert!(report_result(Ok(json("{}"))).is_err());
    let gone = || SubprocessError::Communication { source: "gone".to_string() };
    let failed = ProviderError::OperationFailed(
        "Failed to communicate with provider process: gone".to_string(),
    );
    assert_eq!(plan_result(Err(gone())), Err(failed));
    assert!(live_result(Err(gone())).is_err());
    assert!(report_result(Err(gone())).is_err());
}

#[test]
fn subprocess_errors_have_messages() {
    assert_eq!(
        SubprocessError::Spawn { path: "/p".to_string(), source: "s".to_string() }.message(),
        r#"Failed to spawn provider process at "/p": s"#
    );
    assert_eq!(
        SubprocessError::ResponseParse("m".to_string()).message(),
        "Failed to parse provider response: m"
    );
    assert_eq!(
        SubprocessError::ProviderError("m".to_string()).message(),
        "Provider returned error: m"
    );
}

#[test]
fn blank_lines_are_not_answered() {
    assert_eq!(respond(&FakeProvider::new(), " \t\n"), Ok(None));
}

#[test]
fn a_line_that_is_no_json_ends_the_host() {
    let error = respond(&FakeProvider::new(), "{").unwrap_err();
    assert_eq!(
        error.message(),
        "Failed to parse JSON-RPC request: EOF while parsing an object at line 1 column 1"
    );
    assert_eq!(
        ProviderHostError::Stdin("m".to_string()).message(),
        "Failed to read from stdin: m"
    );
    assert_eq!(
        ProviderHostError::Stdout("m".to_string()).message(),
        "Failed to write to stdout: m"
    );
}

#[test]
fn a_request_without_a_method_is_answered_with_an_error() {
    assert_eq!(
        respond(&FakeProvider::new(), r#"{"id": "x"}"#),
        Ok(Some(
            r#"{"error":{"code":-32000,"message":"unknown method: "},"id":"x","jsonrpc":"2.0"}"#
                .to_string()
        ))
    );
}

/// A provider that refuses everything.
struct Refusing;

impl Provider for Refusing {
    fn provider_type(&self) -> &str {
        "refusing"
    }

    fn sensitive_config_fields(&self) -> &[&str] {
        &["password"]
    }

    fn list_live(&self, _: &ResolvedConfig, _: &[Filter]) -> Result<Json, ProviderError> {
        Err(ProviderError::ConnectionFailed("down".to_string()))
    }

    fn plan(
        &self,
        _: &Json,
        _: &Json,
        _: &NixHapiMeta,
        _: &ResolvedConfig,
    ) -> Result<ProviderPlan, ProviderError> {
        Err(ProviderError::OperationFailed("no plan".to_string()))
    }

    fn apply(&self, _: &ProviderPlan, _: &ResolvedConfig) -> Result<ApplyReport, ProviderError> {
        Err(ProviderError::OperationFailed("no apply".to_string()))
    }
}

#[test]
fn errors_of_the_provider_reach_the_client() {
    let outcome = call(&Refusing, "list_live", list_live_params(&config()));
    assert_eq!(
        live_result(outcome),
        Err(ProviderError::OperationFailed(
            "Provider returned error: Failed to connect to provider: down".to_string()
        ))
    );
    let response = dispatch(&Refusing, "list_live", &json("{}"), json("3"));
    assert_eq!(
        response,
        reply(json("3"), Err(ProviderError::ConnectionFailed("down".to_string())))
    );
    assert_eq!(reply(json("3"), Ok(json("4"))), success_response(json("3"), json("4")));
}
