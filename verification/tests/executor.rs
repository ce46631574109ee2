use nix_hapi::dag::DagError;
use nix_hapi::derived::DerivedFromError;
use nix_hapi::executor::{
    ask_provider, instance_sources, plan_instance, prepare_instance, provider_path,
    read_desired_state, reconcile_instance, split_scope, ApplyRun, ExecuteError, Goal,
    InstanceOutcome, InstanceWork, PlanRun, Prepared, ProviderCall,
};
use nix_hapi::json::Json;
use nix_hapi::meta::NixHapiMeta;
use nix_hapi::plan::{ApplyReport, FieldDiff, Plan, ProviderPlan, ResourceChange, RunbookStep};
use nix_hapi::provider::{Filter, Provider, ProviderError, ResolvedConfig};
use nix_hapi::saturation::SaturationError;
use nix_hapi::sources::{Reading, Sources};
use nix_hapi::strmap::StrMap;
use std::collections::HashMap;
use std::sync::{Arc, Mutex};

fn json(text: &str) -> Json {
    Json::parse(text).expect("valid JSON")
}

/// A minimal in-process test provider.
struct TestProvider {
    live_state: Json,
    should_error_on_plan: bool,
    should_error_on_apply: bool,
    apply_called: Arc<Mutex<Vec<String>>>,
}

impl TestProvider {
    fn ok(live_state: Json) -> Self {
        Self {
            live_state,
            should_error_on_plan: false,
            should_error_on_apply: false,
            apply_called: Arc::new(Mutex::new(Vec::new())),
        }
    }

    fn recording(apply_called: &Arc<Mutex<Vec<String>>>) -> Self {
        Self { apply_called: Arc::clone(apply_called), ..Self::ok(json("{}")) }
    }

    fn failing_plan() -> Self {
        Self { should_error_on_plan: true, ..Self::ok(json("{}")) }
    }

    fn failing_apply(apply_called: &Arc<Mutex<Vec<String>>>) -> Self {
        Self { should_error_on_apply: true, ..Self::recording(apply_called) }
    }
}

impl Provider for TestProvider {
    fn provider_type(&self) -> &str {
        "test"
    }

    fn sensitive_config_fields(&self) -> &[&str] {
        &[]
    }

    fn list_live(
        &self,
        _config: &ResolvedConfig,
        _filters: &[Filter],
    ) -> Result<Json, ProviderError> {
        Ok(self.live_state.copy())
    }

    fn plan(
        &self,
        _desired: &Json,
        _live: &Json,
        _meta: &NixHapiMeta,
        _config: &ResolvedConfig,
    ) -> Result<ProviderPlan, ProviderError> {
        if self.should_error_on_plan {
            return Err(ProviderError::OperationFailed("planned failure".to_string()));
        }
        Ok(ProviderPlan {
            instance_name: String::new(),
            provider_type: "test".to_string(),
            changes: vec![ResourceChange::Add {
                resource_id: "r".to_string(),
                fields: vec![FieldDiff {
                    field: "f".to_string(),
                    from: None,
                    to: Some("v".to_string()),
                }],
            }],
            runbook: vec![RunbookStep {
                order: 0,
                description: "add r".to_string(),
                command: "add r".to_string(),
                body: None,
                operation: json(r#"{"action": "add"}"#),
            }],
        })
    }

    fn apply(
        &self,
        plan: &ProviderPlan,
        _config: &ResolvedConfig,
    ) -> Result<ApplyReport, ProviderError> {
        self.apply_called.lock().unwrap().push(plan.instance_name.clone());
        if self.should_error_on_apply {
            return Err(ProviderError::OperationFailed("apply failure".to_string()));
        }
        Ok(ApplyReport { created: vec!["r".to_string()], modified: vec![], deleted: vec![] })
    }
}

type Providers = HashMap<String, TestProvider>;

fn one(name: &str, provider: TestProvider) -> Providers {
    [(name.to_string(), provider)].into_iter().collect()
}

fn lookup<'a>(
    providers: &'a Providers,
    name: &str,
    ready: &Prepared,
) -> Result<&'a TestProvider, ExecuteError> {
    providers.get(name).ok_or_else(|| ExecuteError::ProviderLookup {
        instance: name.to_string(),
        provider_type: ready.provider_type.clone(),
    })
}

/// Plans all instances, wave by wave.
fn execute_plan_waves(root: &Json, providers: &Providers) -> Result<Plan, ExecuteError> {
    let sources = Sources::new();
    let mut run = PlanRun::start(root, &sources)?;
    while let Some(names) = run.next_wave() {
        let outcomes = names
            .iter()
            .map(|name| {
                let ready = prepare_instance(name, root, &sources)?;
                plan_instance(name, &ready, lookup(providers, name, &ready)?)
            })
            .collect();
        run = run.finish_wave(outcomes)?;
    }
    Ok(run.plan)
}

fn apply_one(name: &str, root: &Json, providers: &Providers) -> Result<InstanceOutcome, ExecuteError> {
    let ready = prepare_instance(name, root, &Sources::new())?;
    Ok(reconcile_instance(name, &ready, lookup(providers, name, &ready)?))
}

/// Applies all instances, wave by wave.
fn execute_apply_waves(
    root: &Json,
    providers: &Providers,
) -> Result<Vec<(String, ApplyReport)>, ExecuteError> {
    let mut run = ApplyRun::start(root, &Sources::new())?;
    loop {
        let (next, wave) = run.next_wave()?;
        let Some(names) = wave else {
            return Ok(next.reports);
        };
        let outcomes = names
            .iter()
            .map(|name| {
                apply_one(name, &next.active_root, providers)
                    .unwrap_or_else(InstanceOutcome::Failed)
            })
            .collect();
        run = next.finish_wave(outcomes)?;
    }
}

const ALPHA: &str = r#"{"alpha": {"__nixhapi": {"provider": {"type": "test"}, "dependsOn": []}}}"#;

#[test]
fn plan_single_instance_produces_changes() {
    let root = json(ALPHA);
    let providers = one("alpha", TestProvider::ok(json("{}")));
    let plan = execute_plan_waves(&root, &providers).unwrap();
    assert_eq!(plan.provider_plans.len(), 1);
    assert_eq!(plan.provider_plans[0].instance_name, "alpha");
    assert!(!plan.provider_plans[0].is_empty());
}

#[test]
fn apply_single_instance_returns_report() {
    let root = json(ALPHA);
    let apply_called = Arc::new(Mutex::new(Vec::new()));
    let providers = one("alpha", TestProvider::recording(&apply_called));
    let reports = execute_apply_waves(&root, &providers).unwrap();
    assert_eq!(reports.len(), 1);
    assert_eq!(reports[0].0, "alpha");
    assert_eq!(reports[0].1.created, vec!["r".to_string()]);
    let called = apply_called.lock().unwrap();
    assert_eq!(*called, vec!["alpha"]);
}

const DIAMOND: &str = r#"{
    "a": {"__nixhapi": {"provider": {"type": "test"}, "dependsOn": []}},
    "b": {"__nixhapi": {"provider": {"type": "test"}, "dependsOn": [".[\"a\"]"]}},
    "c": {"__nixhapi": {"provider": {"type": "test"}, "dependsOn": [".[\"a\"]"]}},
    "d": {"__nixhapi": {"provider": {"type": "test"}, "dependsOn": [".[\"b\"]", ".[\"c\"]"]}}
}"#;

#[test]
fn diamond_dag_respects_wave_ordering() {
    // a → {b, c} → d
    let root = json(DIAMOND);
    let apply_called = Arc::new(Mutex::new(Vec::new()));
    let providers: Providers = ["a", "b", "c", "d"]
        .into_iter()
        .map(|name| (name.to_string(), TestProvider::recording(&apply_called)))
        .collect();
    let reports = execute_apply_waves(&root, &providers).unwrap();
    assert_eq!(reports.len(), 4);

    let called = apply_called.lock().unwrap();
    let pos = |name: &str| called.iter().position(|s| s == name).unwrap();
    // a must come before b, c, and d.
    assert!(pos("a") < pos("b"));
    assert!(pos("a") < pos("c"));
    assert!(pos("b") < pos("d"));
    assert!(pos("c") < pos("d"));
}

#[test]
fn missing_provider_declaration_returns_error() {
    // Scope without __nixhapi.provider.
    let root = json(r#"{"alpha": { "__nixhapi": {} }}"#);
    let providers = one("alpha", TestProvider::ok(json("{}")));
    let err = execute_plan_waves(&root, &providers).unwrap_err();
    assert!(
        matches!(err, ExecuteError::MissingProvider { .. }),
        "expected MissingProvider, got {err:?}"
    );
}

#[test]
fn provider_plan_error_propagated() {
    let root = json(ALPHA);
    let providers = one("alpha", TestProvider::failing_plan());
    let err = execute_plan_waves(&root, &providers).unwrap_err();
    assert!(
        matches!(err, ExecuteError::ProviderOperation { .. }),
        "expected ProviderOperation, got {err:?}"
    );
}

#[test]
fn provider_apply_error_propagated() {
    let root = json(ALPHA);
    let apply_called = Arc::new(Mutex::new(Vec::new()));
    let providers = one("alpha", TestProvider::failing_apply(&apply_called));
    let err = execute_apply_waves(&root, &providers).unwrap_err();
    assert!(
        matches!(err, ExecuteError::PartialWaveFailure { .. }),
        "expected PartialWaveFailure, got {err:?}"
    );
}

#[test]
fn malformed_metadata_returns_error() {
    // __nixhapi has an invalid shape: provider should be an object, not a number.  The walk over
    // the dependencies meets this first.
    let root = json(r#"{"alpha": {"__nixhapi": {"provider": 42}}}"#);
    let providers = one("alpha", TestProvider::ok(json("{}")));
    let err = execute_plan_waves(&root, &providers).unwrap_err();
    assert!(
        matches!(
            err,
            ExecuteError::DependencyResolution(DagError::MetadataParse { .. })
        ),
        "expected DependencyResolution(MetadataParse), got {err:?}"
    );
}

#[test]
fn a_failed_instance_does_not_lose_the_reports_of_its_wave() {
    let root = json(DIAMOND);
    let apply_called = Arc::new(Mutex::new(Vec::new()));
    let mut providers: Providers = ["a", "c", "d"]
        .into_iter()
        .map(|name| (name.to_string(), TestProvider::recording(&apply_called)))
        .collect();
    providers.insert("b".to_string(), TestProvider::failing_apply(&apply_called));
    let err = execute_apply_waves(&root, &providers).unwrap_err();
    let ExecuteError::PartialWaveFailure { errors, successful_reports } = err else {
        panic!("expected PartialWaveFailure, got {err:?}");
    };
    assert_eq!(errors.len(), 1);
    assert!(matches!(&errors[0], ExecuteError::ProviderOperation { instance, .. } if instance == "b"));
    assert_eq!(successful_reports.len(), 1);
    assert_eq!(successful_reports[0].0, "c");
    assert_eq!(*apply_called.lock().unwrap(), vec!["a", "b", "c"]);
}

#[test]
fn reports_and_plans_come_wave_after_wave() {
    let root = json(DIAMOND);
    let providers: Providers = ["a", "b", "c", "d"]
        .into_iter()
        .map(|name| (name.to_string(), TestProvider::ok(json("{}"))))
        .collect();
    let plan = execute_plan_waves(&root, &providers).unwrap();
    let planned: Vec<&str> = plan.provider_plans.iter().map(|p| p.instance_name.as_str()).collect();
    assert_eq!(planned, vec!["a", "b", "c", "d"]);
    let reports = execute_apply_waves(&root, &providers).unwrap();
    let applied: Vec<&str> = reports.iter().map(|(name, _)| name.as_str()).collect();
    assert_eq!(applied, vec!["a", "b", "c", "d"]);
}

#[test]
fn an_instance_without_a_provider_to_hand_is_looked_up_in_vain() {
    let err = execute_plan_waves(&json(ALPHA), &Providers::new()).unwrap_err();
    assert_eq!(
        err,
        ExecuteError::ProviderLookup {
            instance: "alpha".to_string(),
            provider_type: "test".to_string(),
        }
    );
}

#[test]
fn the_live_state_of_an_applied_instance_is_crystalized() {
    let run = ApplyRun::start(&json(ALPHA), &Sources::new()).unwrap();
    let (run, wave) = run.next_wave().unwrap();
    assert_eq!(wave, Some(vec!["alpha".to_string()]));
    let outcome = InstanceOutcome::Applied {
        name: "alpha".to_string(),
        report: ApplyReport::default(),
        live: Ok(json(r#"{"id": 7}"#)),
    };
    let run = run.finish_wave(vec![outcome]).unwrap();
    assert_eq!(run.crystalized, json(r#"{"alpha": {"id": 7}}"#));
    let (run, wave) = run.next_wave().unwrap();
    assert_eq!(wave, None);
    assert_eq!(run.reports, vec![("alpha".to_string(), ApplyReport::default())]);
}

#[test]
fn a_live_state_that_cannot_be_had_fails_the_instance() {
    let run = ApplyRun::start(&json(ALPHA), &Sources::new()).unwrap();
    let (run, _) = run.next_wave().unwrap();
    let outcome = InstanceOutcome::Applied {
        name: "alpha".to_string(),
        report: ApplyReport::default(),
        live: Err(ProviderError::ConnectionFailed("down".to_string())),
    };
    let err = run.finish_wave(vec![outcome]).unwrap_err();
    assert_eq!(
        err,
        ExecuteError::PartialWaveFailure {
            errors: vec![ExecuteError::ProviderOperation {
                instance: "alpha".to_string(),
                source: ProviderError::ConnectionFailed("down".to_string()),
            }],
            successful_reports: vec![],
        }
    );
}

#[test]
fn a_derived_field_that_cannot_be_evaluated_ends_the_run() {
    let root = json(
        r#"{"alpha": {
            "__nixhapi": {"provider": {"type": "test"}},
            "f": {"__nixhapi": "derived-from", "inputs": {}, "expression": "]"}
        }}"#,
    );
    let err = execute_apply_waves(&root, &one("alpha", TestProvider::ok(json("{}")))).unwrap_err();
    assert!(matches!(err, ExecuteError::DerivedFromResolution(_)), "{err:?}");
}

const CONFIGURED: &str = r#"{"alpha": {
    "__nixhapi": {"provider": {
        "type": "test",
        "key": {"__nixhapi": "managed-from-path", "path": "/key"},
        "user": {"__nixhapi": "managed-from-env", "env": "USER"}
    }},
    "data": 1
}}"#;

#[test]
fn an_instance_is_prepared_with_its_sources() {
    let root = json(CONFIGURED);
    assert_eq!(
        instance_sources("alpha", &root),
        (vec!["/key".to_string()], vec!["USER".to_string()])
    );
    let sources = Sources::new()
        .with_file("/key", Reading::Text("k\n".to_string()))
        .with_variable("USER", Reading::Text("u".to_string()));
    let ready = prepare_instance("alpha", &root, &sources).unwrap();
    assert_eq!(ready.provider_type, "test");
    assert_eq!(ready.data, json(r#"{"data": 1}"#));
    assert_eq!(ready.config.get("key").and_then(|v| v.value()), Some("k"));
    assert_eq!(ready.config.get("user").and_then(|v| v.value()), Some("u"));
    assert!(matches!(
        prepare_instance("alpha", &root, &Sources::new()),
        Err(ExecuteError::ConfigResolution { .. })
    ));
    assert!(matches!(
        prepare_instance("beta", &root, &sources),
        Err(ExecuteError::MissingInstance { .. })
    ));
}

#[test]
fn a_scope_is_split_into_directives_and_data() {
    let (meta, data) = split_scope("i", &json(r#"{"__nixhapi": {}, "b": 2, "a": 1}"#)).unwrap();
    assert_eq!(meta, NixHapiMeta::default());
    assert_eq!(data, json(r#"{"a": 1, "b": 2}"#));
    assert_eq!(
        split_scope("i", &json("7")).unwrap(),
        (NixHapiMeta::default(), Json::Null)
    );
    assert!(matches!(
        split_scope("i", &json(r#"{"__nixhapi": {"provider": {}}}"#)),
        Err(ExecuteError::MetadataParse { .. })
    ));
}

#[test]
fn the_desired_state_is_an_object() {
    assert_eq!(read_desired_state("{}"), Ok(json("{}")));
    assert_eq!(read_desired_state("[]"), Err("expected an object".to_string()));
    assert!(read_desired_state("").is_err());
}

#[test]
fn providers_are_found_by_type() {
    let providers = StrMap::new().put("fake".to_string(), "/bin/fake".to_string());
    assert_eq!(provider_path("i", "fake", &providers), Ok("/bin/fake".to_string()));
    assert_eq!(
        provider_path("i", "other", &providers),
        Err(ExecuteError::ProviderLookup {
            instance: "i".to_string(),
            provider_type: "other".to_string(),
        })
    );
}

#[test]
fn errors_of_a_run_have_messages() {
    let instance = || "i".to_string();
    let down = || ProviderError::ConnectionFailed("down".to_string());
    for (error, message) in [
        (
            ExecuteError::MissingProvider { instance: instance() },
            r#"Instance "i" is missing a __nixhapi.provider declaration"#,
        ),
        (
            ExecuteError::ConfigResolution { instance: instance(), source: down() },
            "Failed to resolve provider configuration for instance \"i\": \
             Failed to connect to provider: down",
        ),
        (
            ExecuteError::ProviderOperation { instance: instance(), source: down() },
            "Provider operation failed for instance \"i\": Failed to connect to provider: down",
        ),
        (
            ExecuteError::ProviderLookup { instance: instance(), provider_type: "t".to_string() },
            r#"Unknown provider type "t" for instance "i""#,
        ),
        (
            ExecuteError::ProviderInit { instance: instance(), message: "m".to_string() },
            r#"Failed to initialize provider for instance "i": m"#,
        ),
        (
            ExecuteError::DependencyResolution(DagError::Cycle),
            "Failed to resolve provider dependency order: \
             Cycle detected in provider dependency graph",
        ),
        (
            ExecuteError::DerivedFromResolution(DerivedFromError::ExpressionEval {
                expression: ".x".to_string(),
                source: DagError::Cycle,
            }),
            "Failed to resolve derivedFrom fields between waves: \
             Failed to evaluate derivedFrom expression \".x\": \
             Cycle detected in provider dependency graph",
        ),
        (
            ExecuteError::MetadataParse { instance: instance(), message: "m".to_string() },
            r#"Malformed __nixhapi metadata in instance "i": m"#,
        ),
        (
            ExecuteError::MissingInstance { instance: instance() },
            r#"Instance "i" not found in root"#,
        ),
        (
            ExecuteError::SaturationCheck(SaturationError::InputReferencesMissingInstance {
                field_path: "f".to_string(),
                input_alias: "x".to_string(),
                referenced_instance: "r".to_string(),
            }),
            "DerivedFrom saturation check failed: \
             DerivedFrom at \"f\": input \"x\" references unknown instance \"r\"",
        ),
        (
            ExecuteError::PartialWaveFailure { errors: vec![], successful_reports: vec![] },
            "Partial wave failure: [listing] (successful reports still collected)",
        ),
    ] {
        assert_eq!(error.message("[listing]"), message);
    }
}

#[test]
fn a_plan_without_changes_is_not_applied() {
    let ready = prepare_instance("alpha", &json(ALPHA), &Sources::new()).unwrap();
    let apply_called = Arc::new(Mutex::new(Vec::new()));
    let provider = TestProvider::failing_apply(&apply_called);
    let nothing = ProviderPlan {
        instance_name: "alpha".to_string(),
        provider_type: "test".to_string(),
        changes: vec![],
        runbook: vec![],
    };
    let work = InstanceWork::Planned(nothing);
    assert_eq!(work.next_call(Goal::Plan), None);
    assert_eq!(work.next_call(Goal::Apply), Some(ProviderCall::ListLive));
    let answer = ask_provider(Goal::Apply, &work, &ready, &provider).unwrap();
    assert_eq!(
        work.advance(Goal::Apply, "alpha", answer),
        InstanceWork::Observed(ApplyReport::default(), Ok(json("{}")))
    );
    assert!(apply_called.lock().unwrap().is_empty());
}

#[test]
fn planning_asks_for_the_live_state_and_the_plan_only() {
    let ready = prepare_instance("alpha", &json(ALPHA), &Sources::new()).unwrap();
    let apply_called = Arc::new(Mutex::new(Vec::new()));
    let provider = TestProvider::recording(&apply_called);
    let mut work = InstanceWork::Begun;
    let mut calls = Vec::new();
    while let Some(call) = work.next_call(Goal::Plan) {
        calls.push(call);
        let answer = ask_provider(Goal::Plan, &work, &ready, &provider).unwrap();
        work = work.advance(Goal::Plan, "alpha", answer);
    }
    assert_eq!(calls, vec![ProviderCall::ListLive, ProviderCall::Plan]);
    assert!(matches!(work, InstanceWork::Planned(plan) if plan.instance_name == "alpha"));
    assert!(apply_called.lock().unwrap().is_empty());
}

#[test]
fn applying_asks_in_order() {
    let ready = prepare_instance("alpha", &json(ALPHA), &Sources::new()).unwrap();
    let apply_called = Arc::new(Mutex::new(Vec::new()));
    let provider = TestProvider::recording(&apply_called);
    let mut work = InstanceWork::Begun;
    let mut calls = Vec::new();
    while let Some(call) = work.next_call(Goal::Apply) {
        calls.push(call);
        let answer = ask_provider(Goal::Apply, &work, &ready, &provider).unwrap();
        work = work.advance(Goal::Apply, "alpha", answer);
    }
    assert_eq!(
        calls,
        vec![
            ProviderCall::ListLive,
            ProviderCall::Plan,
            ProviderCall::Apply,
            ProviderCall::ListLive
        ]
    );
    assert_eq!(apply_called.lock().unwrap().len(), 1);
}

#[test]
fn an_instance_is_planned_applied_and_observed_under_its_name() {
    let ready = prepare_instance("alpha", &json(ALPHA), &Sources::new()).unwrap();
    let apply_called = Arc::new(Mutex::new(Vec::new()));
    let outcome = reconcile_instance("alpha", &ready, &TestProvider::recording(&apply_called));
    assert_eq!(
        outcome,
        InstanceOutcome::Applied {
            name: "alpha".to_string(),
            report: ApplyReport {
                created: vec!["r".to_string()],
                modified: vec![],
                deleted: vec![],
            },
            live: Ok(json("{}")),
        }
    );
    let failed = reconcile_instance("alpha", &ready, &TestProvider::failing_plan());
    assert!(matches!(failed, InstanceOutcome::Failed(ExecuteError::ProviderOperation { .. })));
}

#[test]
fn a_wave_is_handed_out_after_those_before_have_ended() {
    let root = json(DIAMOND);
    let through = |name: &str| InstanceOutcome::Applied {
        name: name.to_string(),
        report: ApplyReport::default(),
        live: Ok(Json::String(name.to_string())),
    };
    let run = ApplyRun::start(&root, &Sources::new()).unwrap();
    let (run, wave) = run.next_wave().unwrap();
    assert_eq!(wave.unwrap(), vec!["a"]);
    let (run, wave) = run.finish_wave(vec![through("a")]).unwrap().next_wave().unwrap();
    assert_eq!(wave.unwrap(), vec!["b", "c"]);
    assert_eq!(run.crystalized, json(r#"{"a": "a"}"#));
    let run = run.finish_wave(vec![through("b"), through("c")]).unwrap();
    let (run, wave) = run.next_wave().unwrap();
    assert_eq!(wave.unwrap(), vec!["d"]);
    let (run, wave) = run.finish_wave(vec![through("d")]).unwrap().next_wave().unwrap();
    assert_eq!(wave, None);
    let names: Vec<&str> = run.reports.iter().map(|(name, _)| name.as_str()).collect();
    assert_eq!(names, vec!["a", "b", "c", "d"]);
    assert_eq!(run.crystalized, json(r#"{"a": "a", "b": "b", "c": "c", "d": "d"}"#));
}
