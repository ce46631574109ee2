//! What is shown to the operator: plans with their runbook, and reports.

use crate::executor::report_views;
use crate::order::stably_sorted;
use crate::plan::{
    all_steps, step_orders, step_views, ApplyReport, ApplyReportView, FieldDiff, FieldDiffView,
    Plan, ProviderPlan, ProviderPlanView, ResourceChange, ResourceChangeView, RunbookStep,
    RunbookStepView,
};
use crate::text::{decimal, decimal_text, lines, lines_of};
use crate::views::views;
use vstd::prelude::*;

verus! {

/// What stands for the value that a field gets.
pub open spec fn shown_to(diff: FieldDiffView) -> Seq<char> {
    match diff.to {
        Some(text) => text,
        None => "<removed>"@,
    }
}

/// What stands for the value that a field has.
pub open spec fn shown_from(diff: FieldDiffView) -> Seq<char> {
    match diff.from {
        Some(text) => text,
        None => "<absent>"@,
    }
}

/// The line of a field of a new resource.
pub open spec fn added_line(diff: FieldDiffView) -> Seq<char> {
    "    "@ + diff.field + ": → "@ + shown_to(diff) + "\n"@
}

/// The line of a field that changes.
pub open spec fn changed_line(diff: FieldDiffView) -> Seq<char> {
    "    "@ + diff.field + ": "@ + shown_from(diff) + " → "@ + shown_to(diff) + "\n"@
}

/// The lines of the first `n` fields of a new resource.
pub open spec fn added_lines(diffs: Seq<FieldDiffView>, n: int) -> Seq<char>
    decreases n,
{
    if n <= 0 {
        Seq::empty()
    } else {
        added_lines(diffs, n - 1) + added_line(diffs[n - 1])
    }
}

/// The lines of the first `n` fields that change.
pub open spec fn changed_lines(diffs: Seq<FieldDiffView>, n: int) -> Seq<char>
    decreases n,
{
    if n <= 0 {
        Seq::empty()
    } else {
        changed_lines(diffs, n - 1) + changed_line(diffs[n - 1])
    }
}

/// The lines of a change.
pub open spec fn change_text(change: ResourceChangeView) -> Seq<char> {
    match change {
        ResourceChangeView::Add { resource_id, fields } => "+ "@ + resource_id + "\n"@
            + added_lines(fields, fields.len() as int),
        ResourceChangeView::Modify { resource_id, field_changes } => "~ "@ + resource_id + "\n"@
            + changed_lines(field_changes, field_changes.len() as int),
        ResourceChangeView::Delete { resource_id } => "- "@ + resource_id + "\n"@,
    }
}

/// The lines of the first `n` changes.
pub open spec fn changes_text(changes: Seq<ResourceChangeView>, n: int) -> Seq<char>
    decreases n,
{
    if n <= 0 {
        Seq::empty()
    } else {
        changes_text(changes, n - 1) + change_text(changes[n - 1])
    }
}

/// How many of the first `n` changes add a resource.
pub open spec fn count_added(changes: Seq<ResourceChangeView>, n: int) -> nat
    decreases n,
{
    if n <= 0 {
        0
    } else {
        count_added(changes, n - 1) + if changes[n - 1] is Add {
            1nat
        } else {
            0nat
        }
    }
}

/// How many of the first `n` changes modify a resource.
pub open spec fn count_modified(changes: Seq<ResourceChangeView>, n: int) -> nat
    decreases n,
{
    if n <= 0 {
        0
    } else {
        count_modified(changes, n - 1) + if changes[n - 1] is Modify {
            1nat
        } else {
            0nat
        }
    }
}

/// How many of the first `n` changes delete a resource.
pub open spec fn count_deleted(changes: Seq<ResourceChangeView>, n: int) -> nat
    decreases n,
{
    if n <= 0 {
        0
    } else {
        count_deleted(changes, n - 1) + if changes[n - 1] is Delete {
            1nat
        } else {
            0nat
        }
    }
}

/// The text of one provider's plan: a heading, the changes and how many there are of each kind.
pub open spec fn provider_plan_shown(plan: ProviderPlanView) -> Seq<char> {
    let n = plan.changes.len() as int;
    "=== "@ + plan.instance_name + " ("@ + plan.provider_type + ") ===\n\n"@ + changes_text(
        plan.changes,
        n,
    ) + "\n"@ + decimal(count_added(plan.changes, n)) + " to add, "@ + decimal(
        count_modified(plan.changes, n),
    ) + " to modify, "@ + decimal(count_deleted(plan.changes, n)) + " to delete\n\n"@
}

/// The texts of the first `n` providers' plans.
pub open spec fn provider_plans_shown(plans: Seq<ProviderPlanView>, n: int) -> Seq<char>
    decreases n,
{
    if n <= 0 {
        Seq::empty()
    } else {
        provider_plans_shown(plans, n - 1) + provider_plan_shown(plans[n - 1])
    }
}

/// The first `n` lines, indented.
pub open spec fn indented(lines: Seq<Seq<char>>, n: int) -> Seq<char>
    decreases n,
{
    if n <= 0 {
        Seq::empty()
    } else {
        indented(lines, n - 1) + "  "@ + lines[n - 1] + "\n"@
    }
}

/// The text of a step: its description with the instance, its command and its body.
pub open spec fn step_shown(step: (RunbookStepView, Seq<char>)) -> Seq<char> {
    let (step, instance) = step;
    step.description + " ("@ + instance + ")\n  "@ + step.command + "\n"@ + (match step.body {
        Some(body) => indented(lines_of(body), lines_of(body).len() as int),
        None => Seq::empty(),
    }) + "\n"@
}

/// The texts of the first `n` steps.
pub open spec fn steps_shown(steps: Seq<(RunbookStepView, Seq<char>)>, n: int) -> Seq<char>
    decreases n,
{
    if n <= 0 {
        Seq::empty()
    } else {
        steps_shown(steps, n - 1) + step_shown(steps[n - 1])
    }
}

/// That `text` shows the plan: that there are no changes, or the plans of all providers and then
/// the runbook in execution order.
pub open spec fn shows_plan(plan: Seq<ProviderPlanView>, text: Seq<char>) -> bool {
    if forall|i: int| 0 <= i < plan.len() ==> (#[trigger] plan[i]).changes.len() == 0 {
        text == "No changes.\n"@
    } else {
        let listed = all_steps(plan, plan.len() as int);
        exists|steps: Seq<(RunbookStepView, Seq<char>)>| #[trigger]
            stably_sorted(listed, step_orders(listed), false, steps) && text
                == provider_plans_shown(plan, plan.len() as int)
                + "\n--- Runbook (in execution order) ---\n\n"@ + steps_shown(
                steps,
                steps.len() as int,
            )
    }
}

fn show_to(diff: &FieldDiff) -> (text: &str)
    ensures
        text@ == shown_to(diff@),
{
    match &diff.to {
        Some(text) => text.as_str(),
        None => "<removed>",
    }
}

fn show_from(diff: &FieldDiff) -> (text: &str)
    ensures
        text@ == shown_from(diff@),
{
    match &diff.from {
        Some(text) => text.as_str(),
        None => "<absent>",
    }
}

fn show_added(diffs: &Vec<FieldDiff>) -> (text: String)
    ensures
        text@ == added_lines(views(diffs@), diffs@.len() as int),
{
    let ghost all = views(diffs@);
    let mut text = String::new();
    let mut i: usize = 0;
    assert(text@ =~= Seq::empty());
    while i < diffs.len()
        invariant
            i <= diffs@.len(),
            all == views(diffs@),
            text@ == added_lines(all, i as int),
        decreases diffs.len() - i,
    {
        let line = "    ".to_owned().concat(diffs[i].field.as_str()).concat(": → ").concat(
            show_to(&diffs[i]),
        ).concat("\n");
        assert(all[i as int] == diffs@[i as int]@);
        text = text.concat(line.as_str());
        i = i + 1;
    }
    text
}

fn show_changed(diffs: &Vec<FieldDiff>) -> (text: String)
    ensures
        text@ == changed_lines(views(diffs@), diffs@.len() as int),
{
    let ghost all = views(diffs@);
    let mut text = String::new();
    let mut i: usize = 0;
    assert(text@ =~= Seq::empty());
    while i < diffs.len()
        invariant
            i <= diffs@.len(),
            all == views(diffs@),
            text@ == changed_lines(all, i as int),
        decreases diffs.len() - i,
    {
        let line = "    ".to_owned().concat(diffs[i].field.as_str()).concat(": ").concat(
            show_from(&diffs[i]),
        ).concat(" → ").concat(show_to(&diffs[i])).concat("\n");
        assert(all[i as int] == diffs@[i as int]@);
        text = text.concat(line.as_str());
        i = i + 1;
    }
    text
}

fn show_change(change: &ResourceChange) -> (text: String)
    ensures
        text@ == change_text(change@),
{
    match change {
        ResourceChange::Add { resource_id, fields } => {
            "+ ".to_owned().concat(resource_id.as_str()).concat("\n").concat(
                show_added(fields).as_str(),
            )
        }
        ResourceChange::Modify { resource_id, field_changes } => {
            "~ ".to_owned().concat(resource_id.as_str()).concat("\n").concat(
                show_changed(field_changes).as_str(),
            )
        }
        ResourceChange::Delete { resource_id } => {
            "- ".to_owned().concat(resource_id.as_str()).concat("\n")
        }
    }
}

/// The text of one provider's plan.
pub fn provider_plan_text(plan: &ProviderPlan) -> (text: String)
    ensures
        text@ == provider_plan_shown(plan@),
{
    let ghost all = plan@.changes;
    let mut changes = String::new();
    let mut added: usize = 0;
    let mut modified: usize = 0;
    let mut deleted: usize = 0;
    let mut i: usize = 0;
    assert(changes@ =~= Seq::empty());
    while i < plan.changes.len()
        invariant
            i <= plan.changes.len(),
            all == plan@.changes,
            changes@ == changes_text(all, i as int),
            added == count_added(all, i as int),
            modified == count_modified(all, i as int),
            deleted == count_deleted(all, i as int),
            added <= i,
            modified <= i,
            deleted <= i,
        decreases plan.changes.len() - i,
    {
        let change = &plan.changes[i];
        assert(all[i as int] == change@);
        match change {
            ResourceChange::Add { .. } => {
                added = added + 1;
            }
            ResourceChange::Modify { .. } => {
                modified = modified + 1;
            }
            ResourceChange::Delete { .. } => {
                deleted = deleted + 1;
            }
        }
        changes = changes.concat(show_change(change).as_str());
        i = i + 1;
    }
    "=== ".to_owned().concat(plan.instance_name.as_str()).concat(" (").concat(
        plan.provider_type.as_str(),
    ).concat(") ===\n\n").concat(changes.as_str()).concat("\n").concat(
        decimal_text(added).as_str(),
    ).concat(" to add, ").concat(decimal_text(modified).as_str()).concat(" to modify, ").concat(
        decimal_text(deleted).as_str(),
    ).concat(" to delete\n\n")
}

fn indent(lines: &Vec<String>) -> (text: String)
    ensures
        text@ == indented(views(lines@), lines@.len() as int),
{
    let ghost all = views(lines@);
    let mut text = String::new();
    let mut i: usize = 0;
    assert(text@ =~= Seq::empty());
    while i < lines.len()
        invariant
            i <= lines@.len(),
            all == views(lines@),
            text@ == indented(all, i as int),
        decreases lines.len() - i,
    {
        assert(all[i as int] == lines@[i as int]@);
        text = text.concat("  ").concat(lines[i].as_str()).concat("\n");
        i = i + 1;
    }
    text
}

fn show_step(step: &RunbookStep, instance: &str) -> (text: String)
    ensures
        text@ == step_shown((step@, instance@)),
{
    let body = match &step.body {
        Some(body) => {
            let split = lines(body.as_str());
            indent(&split)
        }
        None => String::new(),
    };
    assert(step@.body is None ==> body@ =~= Seq::empty());
    step.description.clone().concat(" (").concat(instance).concat(")\n  ").concat(
        step.command.as_str(),
    ).concat("\n").concat(body.as_str()).concat("\n")
}

/// What is shown of a plan.
pub fn plan_text(plan: &Plan) -> (text: String)
    ensures
        shows_plan(plan@, text@),
{
    if plan.is_empty() {
        return "No changes.\n".to_owned();
    }
    let ghost all = plan@;
    let mut text = String::new();
    let mut i: usize = 0;
    assert(text@ =~= Seq::empty());
    while i < plan.provider_plans.len()
        invariant
            i <= plan.provider_plans@.len(),
            all == plan@,
            text@ == provider_plans_shown(all, i as int),
        decreases plan.provider_plans.len() - i,
    {
        assert(all[i as int] == plan.provider_plans@[i as int]@);
        text = text.concat(provider_plan_text(&plan.provider_plans[i]).as_str());
        i = i + 1;
    }
    let steps = plan.ordered_steps();
    let ghost ordered = step_views(steps@);
    let mut runbook = String::new();
    let mut k: usize = 0;
    assert(runbook@ =~= Seq::empty());
    while k < steps.len()
        invariant
            k <= steps@.len(),
            ordered == step_views(steps@),
            runbook@ == steps_shown(ordered, k as int),
        decreases steps.len() - k,
    {
        let (step, instance) = steps[k];
        assert(ordered[k as int] == (step@, instance@));
        runbook = runbook.concat(show_step(step, instance).as_str());
        k = k + 1;
    }
    text.concat("\n--- Runbook (in execution order) ---\n\n").concat(runbook.as_str())
}

/// The line of a report.
pub open spec fn report_line(report: (Seq<char>, ApplyReportView)) -> Seq<char> {
    let (instance, report) = report;
    instance + ": created "@ + decimal(report.created.len()) + ", modified "@ + decimal(
        report.modified.len(),
    ) + ", deleted "@ + decimal(report.deleted.len()) + "\n"@
}

/// The lines of the first `n` reports.
pub open spec fn report_lines(reports: Seq<(Seq<char>, ApplyReportView)>, n: int) -> Seq<char>
    decreases n,
{
    if n <= 0 {
        Seq::empty()
    } else {
        report_lines(reports, n - 1) + report_line(reports[n - 1])
    }
}

/// A report of something having been done.
pub open spec fn reports_change(report: ApplyReportView) -> bool {
    report.created.len() > 0 || report.modified.len() > 0 || report.deleted.len() > 0
}

/// What is shown of reports: that there were no changes, or a line for each instance.
pub open spec fn reports_shown(reports: Seq<(Seq<char>, ApplyReportView)>) -> Seq<char> {
    if exists|i: int| 0 <= i < reports.len() && reports_change((#[trigger] reports[i]).1) {
        report_lines(reports, reports.len() as int)
    } else {
        "No changes.\n"@
    }
}

/// The line of a report.
pub fn apply_report_text(instance: &str, report: &ApplyReport) -> (text: String)
    ensures
        text@ == report_line((instance@, report@)),
{
    instance.to_owned().concat(": created ").concat(
        decimal_text(report.created.len()).as_str(),
    ).concat(", modified ").concat(decimal_text(report.modified.len()).as_str()).concat(
        ", deleted ",
    ).concat(decimal_text(report.deleted.len()).as_str()).concat("\n")
}

/// What is shown of reports.
pub fn reports_text(reports: &Vec<(String, ApplyReport)>) -> (text: String)
    ensures
        text@ == reports_shown(report_views(reports@)),
{
    let ghost all = report_views(reports@);
    let mut text = String::new();
    let mut changed = false;
    let mut i: usize = 0;
    assert(text@ =~= Seq::empty());
    while i < reports.len()
        invariant
            i <= reports@.len(),
            all == report_views(reports@),
            text@ == report_lines(all, i as int),
            changed == exists|k: int|
                0 <= k < i && reports_change((#[trigger] all[k]).1),
        decreases reports.len() - i,
    {
        let report = &reports[i].1;
        assert(all[i as int] == (reports@[i as int].0@, report@));
        if report.created.len() > 0 || report.modified.len() > 0 || report.deleted.len() > 0 {
            changed = true;
            assert(reports_change(all[i as int].1));
        }
        text = text.concat(apply_report_text(reports[i].0.as_str(), report).as_str());
        i = i + 1;
    }
    if changed {
        text
    } else {
        "No changes.\n".to_owned()
    }
}

} // verus!
