use nix_hapi::json::Json;
use nix_hapi::order::{reverse, stable_sort};
use nix_hapi::plan::{ApplyReport, FieldDiff, Plan, ProviderPlan, ResourceChange, RunbookStep};
use nix_hapi::report::{apply_report_text, plan_text, provider_plan_text, reports_text};

fn json(text: &str) -> Json {
    Json::parse(text).expect("valid JSON")
}

fn field(name: &str, from: Option<&str>, to: Option<&str>) -> FieldDiff {
    FieldDiff {
        field: name.to_string(),
        from: from.map(str::to_string),
        to: to.map(str::to_string),
    }
}

fn step(order: u32, description: &str, body: Option<&str>) -> RunbookStep {
    RunbookStep {
        order,
        description: description.to_string(),
        command: format!("run {description}"),
        body: body.map(str::to_string),
        operation: json(r#"{"n": 1}"#),
    }
}

fn changes() -> Vec<ResourceChange> {
    vec![
        ResourceChange::Add {
            resource_id: "a".to_string(),
            fields: vec![field("x", None, Some("1")), field("y", None, None)],
        },
        ResourceChange::Modify {
            resource_id: "b".to_string(),
            field_changes: vec![field("x", Some("1"), Some("2")), field("y", None, None)],
        },
        ResourceChange::Delete { resource_id: "c".to_string() },
    ]
}

fn provider_plan(name: &str, changes: Vec<ResourceChange>, runbook: Vec<RunbookStep>) -> ProviderPlan {
    ProviderPlan {
        instance_name: name.to_string(),
        provider_type: "fake".to_string(),
        changes,
        runbook,
    }
}

#[test]
fn changes_name_their_resource() {
    let ids: Vec<String> = changes().iter().map(|c| c.resource_id().to_string()).collect();
    assert_eq!(ids, vec!["a", "b", "c"]);
}

#[test]
fn a_plan_is_empty_without_changes() {
    assert!(provider_plan("i", vec![], vec![step(1, "s", None)]).is_empty());
    assert!(!provider_plan("i", changes(), vec![]).is_empty());
    assert!(Plan::default().is_empty());
    let empty = || provider_plan("i", vec![], vec![]);
    assert!(Plan { provider_plans: vec![empty(), empty()] }.is_empty());
    let one = provider_plan("i", changes(), vec![]);
    assert!(!Plan { provider_plans: vec![empty(), one] }.is_empty());
}

#[test]
fn steps_come_in_execution_order() {
    let plan = Plan {
        provider_plans: vec![
            provider_plan("i", vec![], vec![step(2, "i2", None), step(1, "i1", None)]),
            provider_plan("j", vec![], vec![step(1, "j1", None), step(0, "j0", None)]),
        ],
    };
    let steps: Vec<(&str, &str)> =
        plan.ordered_steps().into_iter().map(|(s, i)| (s.description.as_str(), i)).collect();
    assert_eq!(steps, vec![("j0", "j"), ("i1", "i"), ("j1", "j"), ("i2", "i")]);
}

#[test]
fn sorting_keeps_the_order_of_equal_keys() {
    let keys = vec![1, 0, 1, 0];
    assert_eq!(stable_sort(vec!['a', 'b', 'c', 'd'], &keys, false), vec!['b', 'd', 'a', 'c']);
    assert_eq!(stable_sort(vec!['a', 'b', 'c', 'd'], &keys, true), vec!['a', 'c', 'b', 'd']);
    assert_eq!(reverse(vec![1, 2, 3]), vec![3, 2, 1]);
}

#[test]
fn plans_are_read_back_as_they_were_written() {
    let plan = provider_plan("i", changes(), vec![step(7, "s", Some("b")), step(8, "t", None)]);
    let text = plan.to_json().text();
    assert_eq!(ProviderPlan::from_json(&json(&text)), Ok(plan));
}

#[test]
fn the_forms_of_a_plan() {
    let [add, modify, delete] = changes().try_into().unwrap_or_else(|_| panic!("three changes"));
    assert_eq!(
        add.to_json().text(),
        r#"{"Add":{"fields":[{"field":"x","from":null,"to":"1"},{"field":"y","from":null,"to":null}],"resource_id":"a"}}"#
    );
    assert_eq!(
        modify.to_json().text(),
        r#"{"Modify":{"field_changes":[{"field":"x","from":"1","to":"2"},{"field":"y","from":null,"to":null}],"resource_id":"b"}}"#
    );
    assert_eq!(delete.to_json().text(), r#"{"Delete":{"resource_id":"c"}}"#);
    assert_eq!(
        step(7, "s", None).to_json().text(),
        r#"{"body":null,"command":"run s","description":"s","operation":{"n":1},"order":7}"#
    );
    assert_eq!(
        provider_plan("i", vec![], vec![]).to_json().text(),
        r#"{"changes":[],"instance_name":"i","provider_type":"fake","runbook":[]}"#
    );
}

#[test]
fn malformed_plans_are_refused() {
    assert!(ResourceChange::from_json(&json(r#"{"Add": {"resource_id": "a"}}"#)).is_err());
    assert!(ResourceChange::from_json(&json(r#"{"Move": {"resource_id": "a"}}"#)).is_err());
    assert!(ResourceChange::from_json(&json(r#"{}"#)).is_err());
    assert!(FieldDiff::from_json(&json(r#"{"from": "1"}"#)).is_err());
    assert!(FieldDiff::from_json(&json(r#"{"field": "x", "to": 1}"#)).is_err());
    assert_eq!(FieldDiff::from_json(&json(r#"{"field": "x"}"#)), Ok(field("x", None, None)));
    let steps = r#"{"order": 4294967296, "description": "", "command": "", "operation": null}"#;
    assert!(RunbookStep::from_json(&json(steps)).is_err());
    assert!(ProviderPlan::from_json(&json("null")).is_err());
    assert!(ApplyReport::from_json(&json(r#"{"created": [], "modified": []}"#)).is_err());
}

#[test]
fn reports_are_read_back_as_they_were_written() {
    let report = ApplyReport {
        created: vec!["a".to_string()],
        modified: vec![],
        deleted: vec!["b".to_string(), "c".to_string()],
    };
    assert_eq!(
        report.to_json().text(),
        r#"{"created":["a"],"deleted":["b","c"],"modified":[]}"#
    );
    assert_eq!(ApplyReport::from_json(&report.to_json()), Ok(report.copy()));
    let nothing = ApplyReport::default();
    assert!(nothing.created.is_empty() && nothing.modified.is_empty() && nothing.deleted.is_empty());
}

const SHOWN: &str = "=== i (fake) ===

+ a
    x: → 1
    y: → <removed>
~ b
    x: 1 → 2
    y: <absent> → <removed>
- c

1 to add, 1 to modify, 1 to delete

";

#[test]
fn a_provider_plan_is_shown() {
    assert_eq!(provider_plan_text(&provider_plan("i", changes(), vec![])), SHOWN);
}

#[test]
fn a_plan_is_shown_with_its_runbook() {
    let runbook = vec![step(2, "second", Some("l1\nl2\n")), step(1, "first", None)];
    let plan = Plan { provider_plans: vec![provider_plan("i", changes(), runbook)] };
    let runbook_text = "
--- Runbook (in execution order) ---

first (i)
  run first

second (i)
  run second
  l1
  l2

";
    assert_eq!(plan_text(&plan), format!("{SHOWN}{runbook_text}"));
}

#[test]
fn a_plan_without_changes_is_shown_as_such() {
    let plan = Plan { provider_plans: vec![provider_plan("i", vec![], vec![step(1, "s", None)])] };
    assert_eq!(plan_text(&plan), "No changes.\n");
    assert_eq!(plan_text(&Plan::default()), "No changes.\n");
}

#[test]
fn reports_are_shown() {
    let report =
        |n: usize| ApplyReport { created: vec!["r".to_string(); n], modified: vec![], deleted: vec![] };
    assert_eq!(apply_report_text("i", &report(12)), "i: created 12, modified 0, deleted 0\n");
    assert_eq!(
        reports_text(&vec![("i".to_string(), report(1)), ("j".to_string(), report(0))]),
        "i: created 1, modified 0, deleted 0\nj: created 0, modified 0, deleted 0\n"
    );
    assert_eq!(reports_text(&vec![("i".to_string(), report(0))]), "No changes.\n");
    assert_eq!(reports_text(&vec![]), "No changes.\n");
}
