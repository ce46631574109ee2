use nix_hapi::executor::{
    prepare_instance, reconcile_instance, ApplyRun, ExecuteError, InstanceOutcome,
};
use nix_hapi::fake::FakeProvider;
use nix_hapi::json::Json;
use nix_hapi::meta::NixHapiMeta;
use nix_hapi::plan::{ApplyReport, ProviderPlan};
use nix_hapi::provider::{Filter, Provider, ProviderError, ResolvedConfig};
use nix_hapi::sources::Sources;
use std::collections::HashMap;
use std::sync::{Arc, Mutex};

fn json(text: &str) -> Json {
    Json::parse(text).expect("valid JSON")
}

/// The value at the end of a path of keys.
fn at<'a>(value: &'a Json, path: &[&str]) -> &'a Json {
    let mut here = value;
    for key in path {
        here = here.get(key).expect("member");
    }
    here
}

/// A fake provider that keeps the desired state of each plan it makes.
struct SnapshotProvider {
    fake: FakeProvider,
    snapshots: Option<Arc<Mutex<Vec<Json>>>>,
}

impl Provider for SnapshotProvider {
    fn provider_type(&self) -> &str {
        self.fake.provider_type()
    }

    fn sensitive_config_fields(&self) -> &[&str] {
        self.fake.sensitive_config_fields()
    }

    fn list_live(
        &self,
        config: &ResolvedConfig,
        filters: &[Filter],
    ) -> Result<Json, ProviderError> {
        self.fake.list_live(config, filters)
    }

    fn plan(
        &self,
        desired: &Json,
        live: &Json,
        meta: &NixHapiMeta,
        config: &ResolvedConfig,
    ) -> Result<ProviderPlan, ProviderError> {
        if let Some(snapshots) = &self.snapshots {
            snapshots.lock().unwrap().push(desired.copy());
        }
        self.fake.plan(desired, live, meta, config)
    }

    fn apply(
        &self,
        plan: &ProviderPlan,
        config: &ResolvedConfig,
    ) -> Result<ApplyReport, ProviderError> {
        self.fake.apply(plan, config)
    }
}

type LiveStates = HashMap<&'static str, Json>;
type Snapshots = HashMap<&'static str, Arc<Mutex<Vec<Json>>>>;

/// Gives a fake provider with the live state and the snapshot list of the instance.
fn resolve(
    instance: &str,
    provider_type: &str,
    live_states: &LiveStates,
    snapshots: &Snapshots,
) -> Result<SnapshotProvider, ExecuteError> {
    match provider_type {
        "fake" => {
            let live = live_states.get(instance).map_or_else(|| json("{}"), |live| live.copy());
            Ok(SnapshotProvider {
                fake: FakeProvider::with_live_state(live),
                snapshots: snapshots.get(instance).map(Arc::clone),
            })
        }
        other => Err(ExecuteError::ProviderLookup {
            instance: instance.to_string(),
            provider_type: other.to_string(),
        }),
    }
}

fn apply_one(
    name: &str,
    root: &Json,
    live_states: &LiveStates,
    snapshots: &Snapshots,
) -> Result<InstanceOutcome, ExecuteError> {
    let ready = prepare_instance(name, root, &Sources::new())?;
    let provider = resolve(name, &ready.provider_type, live_states, snapshots)?;
    Ok(reconcile_instance(name, &ready, &provider))
}

/// Applies all instances, wave by wave.
fn execute_apply_waves(
    root: &Json,
    live_states: &LiveStates,
    snapshots: &Snapshots,
) -> Result<Vec<(String, ApplyReport)>, ExecuteError> {
    let mut run = ApplyRun::start(root, &Sources::new())?;
    loop {
        let (next, wave) = run.next_wave()?;
        let Some(names) = wave else {
            return Ok(next.reports);
        };
        let outcomes = names
            .iter()
            .map(|name| {
                apply_one(name, &next.active_root, live_states, snapshots)
                    .unwrap_or_else(InstanceOutcome::Failed)
            })
            .collect();
        run = next.finish_wave(outcomes)?;
    }
}

/// Single-hop derivedFrom: instance `b` reads a value assigned by instance `a`'s API (returned
/// via `list_live` after apply).
///
/// ```text
/// wave 0: a  (list_live returns {"user_id": "uid-42"})
/// wave 1: b  (DerivedFrom reads .["a"].user_id → resolved to "uid-42")
/// ```
#[test]
fn single_hop_derived_from_resolved_before_wave1() {
    let b_snapshots: Arc<Mutex<Vec<Json>>> = Arc::new(Mutex::new(Vec::new()));
    let live_states = HashMap::from([("a", json(r#"{"user_id": "uid-42"}"#))]);
    let snapshot_map = HashMap::from([("b", Arc::clone(&b_snapshots))]);

    let root = json(r#"{
        "a": {
            "__nixhapi": {
                "provider": {"type": "fake", "delayMs": {"__nixhapi": "managed", "value": "0"}}
            }
        },
        "b": {
            "__nixhapi": {
                "provider": {"type": "fake", "delayMs": {"__nixhapi": "managed", "value": "0"}},
                "dependsOn": [".[\"a\"]"]
            },
            "userId": {
                "__nixhapi": "derived-from",
                "inputs": {"uid": ".[\"a\"].user_id"},
                "expression": "mkManaged(.uid)"
            }
        }
    }"#);

    execute_apply_waves(&root, &live_states, &snapshot_map)
        .expect("execute_apply_waves should succeed");

    let snaps = b_snapshots.lock().unwrap();
    assert_eq!(snaps.len(), 1, "b's plan should have been called once");
    let desired = &snaps[0];
    // The DerivedFrom should have been resolved to a managed FieldValue.
    assert_eq!(
        *at(desired, &["userId", "__nixhapi"]),
        json(r#""managed""#),
        "DerivedFrom must be resolved before b's plan is called"
    );
    assert_eq!(
        *at(desired, &["userId", "value"]),
        json(r#""uid-42""#),
        "Resolved value must come from a's live state"
    );
}

/// Multi-hop chain: a → b → c, each hop reading the previous instance's API-assigned value.
///
/// ```text
/// wave 0: a  (live: {"id": "a-1"})
/// wave 1: b  (DerivedFrom reads a's id; live: {"id": "b-2"})
/// wave 2: c  (DerivedFrom reads b's id)
/// ```
#[test]
fn chained_derived_from_resolved_across_waves() {
    let c_snapshots: Arc<Mutex<Vec<Json>>> = Arc::new(Mutex::new(Vec::new()));
    let live_states =
        HashMap::from([("a", json(r#"{"id": "a-1"}"#)), ("b", json(r#"{"id": "b-2"}"#))]);
    let snapshot_map = HashMap::from([("c", Arc::clone(&c_snapshots))]);

    let root = json(r#"{
        "a": {
            "__nixhapi": {
                "provider": {"type": "fake", "delayMs": {"__nixhapi": "managed", "value": "0"}}
            }
        },
        "b": {
            "__nixhapi": {
                "provider": {"type": "fake", "delayMs": {"__nixhapi": "managed", "value": "0"}},
                "dependsOn": [".[\"a\"]"]
            },
            "fromA": {
                "__nixhapi": "derived-from",
                "inputs": {"aid": ".[\"a\"].id"},
                "expression": "mkManaged(.aid)"
            }
        },
        "c": {
            "__nixhapi": {
                "provider": {"type": "fake", "delayMs": {"__nixhapi": "managed", "value": "0"}},
                "dependsOn": [".[\"b\"]"]
            },
            "fromB": {
                "__nixhapi": "derived-from",
                "inputs": {"bid": ".[\"b\"].id"},
                "expression": "mkManaged(.bid)"
            }
        }
    }"#);

    execute_apply_waves(&root, &live_states, &snapshot_map)
        .expect("chained derivedFrom should succeed");

    let snaps = c_snapshots.lock().unwrap();
    assert_eq!(snaps.len(), 1);
    let desired = &snaps[0];
    assert_eq!(*at(desired, &["fromB", "__nixhapi"]), json(r#""managed""#));
    assert_eq!(*at(desired, &["fromB", "value"]), json(r#""b-2""#));
}

/// Diamond pattern with derivedFrom: two independent branches both read from the root instance,
/// then a sink reads from both branches.
///
/// ```text
/// wave 0: a  (live: {"uid": "user-1"})
/// wave 1: b  (DerivedFrom reads a.uid; live: {"team": "eng"})
///         c  (DerivedFrom reads a.uid; live: {"dept": "rd"})
/// wave 2: d  (DerivedFrom reads b.team and c.dept)
/// ```
#[test]
fn diamond_derived_from_resolved_across_waves() {
    let d_snapshots: Arc<Mutex<Vec<Json>>> = Arc::new(Mutex::new(Vec::new()));
    let live_states = HashMap::from([
        ("a", json(r#"{"uid": "user-1"}"#)),
        ("b", json(r#"{"team": "eng"}"#)),
        ("c", json(r#"{"dept": "rd"}"#)),
    ]);
    let snapshot_map = HashMap::from([("d", Arc::clone(&d_snapshots))]);

    let root = json(r#"{
        "a": {
            "__nixhapi": {
                "provider": {"type": "fake", "delayMs": {"__nixhapi": "managed", "value": "0"}}
            }
        },
        "b": {
            "__nixhapi": {
                "provider": {"type": "fake", "delayMs": {"__nixhapi": "managed", "value": "0"}},
                "dependsOn": [".[\"a\"]"]
            },
            "uid": {
                "__nixhapi": "derived-from",
                "inputs": {"uid": ".[\"a\"].uid"},
                "expression": "mkManaged(.uid)"
            }
        },
        "c": {
            "__nixhapi": {
                "provider": {"type": "fake", "delayMs": {"__nixhapi": "managed", "value": "0"}},
                "dependsOn": [".[\"a\"]"]
            },
            "uid": {
                "__nixhapi": "derived-from",
                "inputs": {"uid": ".[\"a\"].uid"},
                "expression": "mkManaged(.uid)"
            }
        },
        "d": {
            "__nixhapi": {
                "provider": {"type": "fake", "delayMs": {"__nixhapi": "managed", "value": "0"}},
                "dependsOn": [".[\"b\"]", ".[\"c\"]"]
            },
            "team": {
                "__nixhapi": "derived-from",
                "inputs": {"t": ".[\"b\"].team"},
                "expression": "mkManaged(.t)"
            },
            "dept": {
                "__nixhapi": "derived-from",
                "inputs": {"d": ".[\"c\"].dept"},
                "expression": "mkManaged(.d)"
            }
        }
    }"#);

    execute_apply_waves(&root, &live_states, &snapshot_map)
        .expect("diamond derivedFrom should succeed");

    let snaps = d_snapshots.lock().unwrap();
    assert_eq!(snaps.len(), 1);
    let desired = &snaps[0];
    assert_eq!(*at(desired, &["team", "__nixhapi"]), json(r#""managed""#));
    assert_eq!(*at(desired, &["team", "value"]), json(r#""eng""#));
    assert_eq!(*at(desired, &["dept", "__nixhapi"]), json(r#""managed""#));
    assert_eq!(*at(desired, &["dept", "value"]), json(r#""rd""#));
}

/// A derived field within a list makes its instance wait, too.
#[test]
fn derived_from_within_a_list_is_resolved_across_waves() {
    let a_snapshots: Arc<Mutex<Vec<Json>>> = Arc::new(Mutex::new(Vec::new()));
    let live_states = HashMap::from([("b", json(r#"{"o": "out"}"#))]);
    let snapshot_map = HashMap::from([("a", Arc::clone(&a_snapshots))]);
    let root = json(r#"{
        "a": {
            "__nixhapi": {"provider": {"type": "fake"}},
            "xs": [{
                "__nixhapi": "derived-from",
                "inputs": {"v": ".[\"b\"].o"},
                "expression": "mkManaged(.v)"
            }]
        },
        "b": {"__nixhapi": {"provider": {"type": "fake"}}}
    }"#);
    let reports = execute_apply_waves(&root, &live_states, &snapshot_map).expect("a run");
    let names: Vec<&str> = reports.iter().map(|(name, _)| name.as_str()).collect();
    assert_eq!(names, vec!["b", "a"]);
    assert_eq!(
        a_snapshots.lock().unwrap()[0],
        json(r#"{"xs": [{"__nixhapi": "managed", "value": "out"}]}"#)
    );
}
