use nix_hapi::dag::execution_waves;
use nix_hapi::executor::{
    ask_provider, prepare_instance, ApplyRun, ExecuteError, Goal, InstanceOutcome, InstanceWork,
    ProviderCall,
};
use nix_hapi::fake::{ApplyRecord, FakeProvider};
use nix_hapi::json::Json;
use nix_hapi::plan::ApplyReport;
use nix_hapi::sources::Sources;
use std::collections::HashSet;
use std::sync::{Arc, Mutex};
use std::time::{Duration, Instant};

/// Builds a diamond dependency graph with four instances:
///
/// ```text
/// wave 0:  a
///          │
/// wave 1:  b   c   (both depend on a)
///           \ /
/// wave 2:    d     (depends on b and c)
/// ```
///
/// Each instance uses the fake provider and takes `delay_ms` milliseconds to apply.
fn diamond_dag_json(delay_ms: u64) -> Json {
    let scope = |depends_on: &str| {
        let text = format!(
            r#"{{"__nixhapi": {{
                "provider": {{
                    "type": "fake",
                    "delayMs": {{"__nixhapi": "managed", "value": "{delay_ms}"}}
                }},
                "dependsOn": {depends_on}
            }}}}"#
        );
        Json::parse(&text).expect("valid JSON")
    };
    Json::empty_object()
        .with_member("a", scope("[]"))
        .with_member("b", scope(r#"[".a"]"#))
        .with_member("c", scope(r#"[".a"]"#))
        .with_member("d", scope(r#"[".b", ".c"]"#))
}

type Records = Arc<Mutex<Vec<ApplyRecord>>>;

/// Plans and applies one instance with the fake provider, and records when it was applied, in
/// nanoseconds since `clock`.
async fn apply_one(
    name: String,
    root: Arc<Json>,
    records: Records,
    clock: Instant,
) -> Result<InstanceOutcome, ExecuteError> {
    let ready = prepare_instance(&name, &root, &Sources::new())?;
    if ready.provider_type != "fake" {
        return Err(ExecuteError::ProviderLookup {
            instance: name,
            provider_type: ready.provider_type,
        });
    }
    let provider = FakeProvider::new();
    let mut work = InstanceWork::Begun;
    loop {
        if let (Some(ProviderCall::Apply), InstanceWork::Planned(plan)) =
            (work.next_call(Goal::Apply), &work)
        {
            let started_at = clock.elapsed().as_nanos() as u64;
            tokio::time::sleep(Duration::from_millis(FakeProvider::delay_ms(&ready.config))).await;
            let finished_at = clock.elapsed().as_nanos() as u64;
            records.lock().unwrap().push(FakeProvider::record(plan, started_at, finished_at));
        }
        match ask_provider(Goal::Apply, &work, &ready, &provider) {
            Some(answer) => work = work.advance(Goal::Apply, &name, answer),
            None => break,
        }
    }
    match work {
        InstanceWork::Observed(report, live) => Ok(InstanceOutcome::Applied { name, report, live }),
        InstanceWork::Failed(error) => Err(error),
        _ => unreachable!(),
    }
}

/// Applies all instances wave by wave, those of one wave in parallel.
fn execute_apply_waves(
    root: &Json,
    records: &Records,
) -> Result<Vec<(String, ApplyReport)>, ExecuteError> {
    let runtime =
        tokio::runtime::Builder::new_multi_thread().enable_time().build().expect("runtime");
    let clock = Instant::now();
    let mut run = ApplyRun::start(root, &Sources::new())?;
    loop {
        let (next, wave) = run.next_wave()?;
        let Some(names) = wave else {
            return Ok(next.reports);
        };
        let active_root = Arc::new(next.active_root.copy());
        let tasks: Vec<_> = names
            .into_iter()
            .map(|name| {
                let root = Arc::clone(&active_root);
                runtime.spawn(apply_one(name, root, Arc::clone(records), clock))
            })
            .collect();
        let outcomes = tasks
            .into_iter()
            .map(|task| {
                let outcome = runtime.block_on(task).expect("task");
                outcome.unwrap_or_else(InstanceOutcome::Failed)
            })
            .collect();
        run = next.finish_wave(outcomes)?;
    }
}

#[test]
fn wave_structure_is_correct() {
    let top_level = diamond_dag_json(0);
    let waves = execution_waves(&top_level, &Sources::new()).unwrap();
    assert_eq!(
        waves,
        vec![
            vec!["a".to_string()],
            vec!["b".to_string(), "c".to_string()],
            vec!["d".to_string()],
        ]
    );
}

#[test]
fn all_providers_apply() {
    let records: Records = Arc::new(Mutex::new(Vec::new()));
    let top_level = diamond_dag_json(0);
    execute_apply_waves(&top_level, &records).unwrap();

    let locked = records.lock().unwrap();
    let names: HashSet<&str> = locked.iter().map(|r| r.instance_name.as_str()).collect();
    assert!(names.contains("a"), "a must have applied");
    assert!(names.contains("b"), "b must have applied");
    assert!(names.contains("c"), "c must have applied");
    assert!(names.contains("d"), "d must have applied");
}

#[test]
fn wave1_runs_in_parallel() {
    let records: Records = Arc::new(Mutex::new(Vec::new()));
    // 50 ms each; if sequential they would not overlap.
    let top_level = diamond_dag_json(50);
    execute_apply_waves(&top_level, &records).unwrap();

    let locked = records.lock().unwrap();
    let b = locked.iter().find(|r| r.instance_name == "b").expect("b must exist");
    let c = locked.iter().find(|r| r.instance_name == "c").expect("c must exist");
    assert!(b.overlaps_with(c), "b and c must overlap (ran in parallel within wave 1)");
}

#[test]
fn wave2_waits_for_wave1() {
    let records: Records = Arc::new(Mutex::new(Vec::new()));
    let top_level = diamond_dag_json(20);
    execute_apply_waves(&top_level, &records).unwrap();

    let locked = records.lock().unwrap();
    let b = locked.iter().find(|r| r.instance_name == "b").expect("b must exist");
    let c = locked.iter().find(|r| r.instance_name == "c").expect("c must exist");
    let d = locked.iter().find(|r| r.instance_name == "d").expect("d must exist");
    assert!(d.started_at >= b.finished_at, "d must not start before b finishes");
    assert!(d.started_at >= c.finished_at, "d must not start before c finishes");
}

fn record(started_at: u64, finished_at: u64) -> ApplyRecord {
    ApplyRecord { instance_name: "i".to_string(), started_at, finished_at }
}

#[test]
fn intervals_overlap_where_they_share_a_moment() {
    assert!(record(0, 2).overlaps_with(&record(1, 3)));
    assert!(record(1, 3).overlaps_with(&record(0, 2)));
    assert!(record(0, 4).overlaps_with(&record(1, 2)));
    assert!(!record(0, 1).overlaps_with(&record(1, 2)));
    assert!(!record(1, 2).overlaps_with(&record(0, 1)));
}

#[test]
fn the_delay_is_a_number_or_none() {
    let delay = |value: &str| {
        let text = format!(
            r#"{{"a": {{"__nixhapi": {{"provider": {{
                "type": "fake", "delayMs": {{"__nixhapi": "managed", "value": "{value}"}}
            }}}}}}}}"#
        );
        let root = Json::parse(&text).expect("valid JSON");
        let ready = prepare_instance("a", &root, &Sources::new()).expect("an instance");
        FakeProvider::delay_ms(&ready.config)
    };
    assert_eq!(delay("15"), 15);
    assert_eq!(delay("soon"), 0);
}
