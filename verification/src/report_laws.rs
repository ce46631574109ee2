//! What the texts for plans and reports tell.

use crate::order::{comes_before, is_stable_order, reordered, stably_sorted};
use crate::plan::{
    all_steps, named_steps, step_orders, ApplyReportView, FieldDiffView, ProviderPlanView,
    ResourceChangeView, RunbookStepView,
};
use crate::report::{
    added_lines, change_text, changed_lines, changes_text, count_added, count_deleted,
    count_modified, indented, provider_plan_shown, provider_plans_shown, report_line, report_lines,
    reports_change, reports_shown, shows_plan, step_shown, steps_shown,
};
use crate::text::{decimal, digit, digits_value, joined, lines_of};
use crate::text_laws::{all_digits, law_digits_count_by_place};
use vstd::prelude::*;

verus! {

/// That `text` is the decimal numeral of `n`: digits that stand for it, without leading zeros.
pub open spec fn is_numeral(text: Seq<char>, n: nat) -> bool {
    &&& text.len() > 0
    &&& all_digits(text)
    &&& digits_value(text) == Some(n as int)
    &&& text.len() > 1 ==> text[0] != '0'
}

/// A number has one numeral.
proof fn lemma_numeral_is_decimal(text: Seq<char>, n: nat)
    requires
        is_numeral(text, n),
    ensures
        text == decimal(n),
    decreases text.len(),
{
    let high = text.drop_last();
    let last = text.last();
    assert(text =~= high.push(last));
    assert('0' <= text[text.len() - 1] <= '9');
    assert(all_digits(high)) by {
        assert forall|i: int| 0 <= i < high.len() implies '0' <= #[trigger] high[i] <= '9' by {
            assert(high[i] == text[i]);
        }
    }
    law_digits_count_by_place(high, last);
    let low = (last as int - '0' as int) as nat;
    assert(digit(low) == last);
    if high.len() == 0 {
        assert(high =~= Seq::empty());
        assert(n == low);
        assert(text =~= seq![digit(n)]);
    } else {
        let front = digits_value(high)->0;
        lemma_front_positive(high);
        assert(n == front * 10 + low);
        assert(n / 10 == front && n % 10 == low);
        assert(high[0] == text[0]);
        assert(is_numeral(high, front as nat));
        lemma_numeral_is_decimal(high, front as nat);
    }
}

/// Digits that do not begin with a zero stand for a positive number.
proof fn lemma_front_positive(digits: Seq<char>)
    requires
        digits.len() > 0,
        all_digits(digits),
        digits[0] != '0',
    ensures
        digits_value(digits) is Some,
        digits_value(digits)->0 > 0,
    decreases digits.len(),
{
    let high = digits.drop_last();
    let last = digits.last();
    assert(digits =~= high.push(last));
    assert('0' <= digits[digits.len() - 1] <= '9');
    assert(all_digits(high)) by {
        assert forall|i: int| 0 <= i < high.len() implies '0' <= #[trigger] high[i] <= '9' by {
            assert(high[i] == digits[i]);
        }
    }
    law_digits_count_by_place(high, last);
    if high.len() > 0 {
        assert(high[0] == digits[0]);
        lemma_front_positive(high);
    } else {
        assert(high =~= Seq::empty());
    }
}

/// The line of a report tells the instance, and how many resources were created, modified and
/// deleted, as numerals of the lengths of these lists.
pub proof fn law_report_line_tells_the_counts(
    instance: Seq<char>,
    report: ApplyReportView,
    created: Seq<char>,
    modified: Seq<char>,
    deleted: Seq<char>,
)
    requires
        is_numeral(created, report.created.len()),
        is_numeral(modified, report.modified.len()),
        is_numeral(deleted, report.deleted.len()),
    ensures
        report_line((instance, report)) == instance + ": created "@ + created + ", modified "@
            + modified + ", deleted "@ + deleted + "\n"@,
{
    lemma_numeral_is_decimal(created, report.created.len());
    lemma_numeral_is_decimal(modified, report.modified.len());
    lemma_numeral_is_decimal(deleted, report.deleted.len());
}

/// Where something was done, there is one line for every report, in order, whether it tells of
/// anything done or not; where nothing was done, that is told.
pub proof fn law_every_report_has_its_line(reports: Seq<(Seq<char>, ApplyReportView)>)
    ensures
        (exists|i: int|
            0 <= i < reports.len() && ((#[trigger] reports[i]).1.created.len() > 0
                || reports[i].1.modified.len() > 0 || reports[i].1.deleted.len() > 0))
            ==> reports_shown(reports) == joined(
            Seq::new(reports.len(), |i: int| report_line(reports[i])),
            Seq::empty(),
        ),
        (forall|i: int|
            0 <= i < reports.len() ==> (#[trigger] reports[i]).1.created.len() == 0
                && reports[i].1.modified.len() == 0 && reports[i].1.deleted.len() == 0)
            ==> reports_shown(reports) == "No changes.\n"@,
{
    lemma_lines_joined(reports, reports.len() as int);
    if exists|i: int|
        0 <= i < reports.len() && ((#[trigger] reports[i]).1.created.len() > 0
            || reports[i].1.modified.len() > 0 || reports[i].1.deleted.len() > 0) {
        let i = choose|i: int|
            0 <= i < reports.len() && ((#[trigger] reports[i]).1.created.len() > 0
                || reports[i].1.modified.len() > 0 || reports[i].1.deleted.len() > 0);
        assert(reports_change(reports[i].1));
    }
}

proof fn lemma_joined_push(parts: Seq<Seq<char>>, last: Seq<char>)
    ensures
        joined(parts.push(last), Seq::empty()) == joined(parts, Seq::empty()) + last,
{
    let all = parts.push(last);
    assert(all.drop_last() =~= parts);
    assert(joined(all, Seq::empty()) =~= joined(parts, Seq::empty()) + last);
}

proof fn lemma_lines_joined(reports: Seq<(Seq<char>, ApplyReportView)>, n: int)
    requires
        0 <= n <= reports.len(),
    ensures
        report_lines(reports, n) == joined(
            Seq::new(n as nat, |i: int| report_line(reports[i])),
            Seq::empty(),
        ),
    decreases n,
{
    let parts = Seq::new(n as nat, |i: int| report_line(reports[i]));
    if n > 0 {
        lemma_lines_joined(reports, n - 1);
        let before = Seq::new((n - 1) as nat, |i: int| report_line(reports[i]));
        lemma_joined_push(before, report_line(reports[n - 1]));
        assert(parts =~= before.push(report_line(reports[n - 1])));
    } else {
        assert(parts =~= Seq::empty());
    }
}

/// A new resource is shown under a plus sign, with a line for every field: its name and the value
/// that it gets.
pub proof fn law_added_resource_is_shown(resource_id: Seq<char>, fields: Seq<FieldDiffView>)
    requires
        forall|i: int| 0 <= i < fields.len() ==> (#[trigger] fields[i]).to is Some,
    ensures
        change_text(ResourceChangeView::Add { resource_id, fields }) == "+ "@ + resource_id + "\n"@
            + joined(
            Seq::new(
                fields.len(),
                |i: int| "    "@ + fields[i].field + ": → "@ + fields[i].to->0 + "\n"@,
            ),
            Seq::empty(),
        ),
{
    lemma_added_joined(fields, fields.len() as int);
}

proof fn lemma_added_joined(fields: Seq<FieldDiffView>, n: int)
    requires
        0 <= n <= fields.len(),
        forall|i: int| 0 <= i < fields.len() ==> (#[trigger] fields[i]).to is Some,
    ensures
        added_lines(fields, n) == joined(
            Seq::new(
                n as nat,
                |i: int| "    "@ + fields[i].field + ": → "@ + fields[i].to->0 + "\n"@,
            ),
            Seq::empty(),
        ),
    decreases n,
{
    let line = |i: int| "    "@ + fields[i].field + ": → "@ + fields[i].to->0 + "\n"@;
    let parts = Seq::new(n as nat, line);
    if n > 0 {
        lemma_added_joined(fields, n - 1);
        let before = Seq::new((n - 1) as nat, line);
        lemma_joined_push(before, line(n - 1));
        assert(parts =~= before.push(line(n - 1)));
        assert(fields[n - 1].to is Some);
    } else {
        assert(parts =~= Seq::empty());
    }
}

/// A modified resource is shown under a tilde, with a line for every field: its name, the value
/// that it had, or that it had none, and the value that it gets, or that it is removed.
pub proof fn law_modified_resource_is_shown(resource_id: Seq<char>, fields: Seq<FieldDiffView>)
    ensures
        change_text(ResourceChangeView::Modify { resource_id, field_changes: fields }) == "~ "@
            + resource_id + "\n"@ + joined(
            Seq::new(fields.len(), |i: int| field_line(fields[i])),
            Seq::empty(),
        ),
{
    lemma_changed_joined(fields, fields.len() as int);
}

/// The line that tells of a field of a modified resource.
pub open spec fn field_line(diff: FieldDiffView) -> Seq<char> {
    "    "@ + diff.field + ": "@ + (if diff.from is Some {
        diff.from->0
    } else {
        "<absent>"@
    }) + " → "@ + (if diff.to is Some {
        diff.to->0
    } else {
        "<removed>"@
    }) + "\n"@
}

proof fn lemma_changed_joined(fields: Seq<FieldDiffView>, n: int)
    requires
        0 <= n <= fields.len(),
    ensures
        changed_lines(fields, n) == joined(
            Seq::new(n as nat, |i: int| field_line(fields[i])),
            Seq::empty(),
        ),
    decreases n,
{
    let parts = Seq::new(n as nat, |i: int| field_line(fields[i]));
    if n > 0 {
        lemma_changed_joined(fields, n - 1);
        let before = Seq::new((n - 1) as nat, |i: int| field_line(fields[i]));
        lemma_joined_push(before, field_line(fields[n - 1]));
        assert(parts =~= before.push(field_line(fields[n - 1])));
    } else {
        assert(parts =~= Seq::empty());
    }
}

/// A deleted resource is shown under a minus sign, and nothing else is.
pub proof fn law_deleted_resource_is_shown(resource_id: Seq<char>)
    ensures
        change_text(ResourceChangeView::Delete { resource_id }) == "- "@ + resource_id + "\n"@,
{
}

/// How many changes are of the kind that `picks` tells.
pub open spec fn how_many(
    changes: Seq<ResourceChangeView>,
    picks: spec_fn(ResourceChangeView) -> bool,
) -> nat {
    changes.filter(picks).len()
}

proof fn lemma_counts(changes: Seq<ResourceChangeView>, n: int)
    requires
        0 <= n <= changes.len(),
    ensures
        count_added(changes, n) == how_many(
            changes.take(n),
            |change: ResourceChangeView| change is Add,
        ),
        count_modified(changes, n) == how_many(
            changes.take(n),
            |change: ResourceChangeView| change is Modify,
        ),
        count_deleted(changes, n) == how_many(
            changes.take(n),
            |change: ResourceChangeView| change is Delete,
        ),
    decreases n,
{
    reveal(Seq::filter);
    if n > 0 {
        lemma_counts(changes, n - 1);
        assert(changes.take(n).drop_last() =~= changes.take(n - 1));
    } else {
        assert(changes.take(0) =~= Seq::empty());
    }
}

/// The text of one provider's plan tells the instance and the type of the provider, every change
/// in order, and as numerals how many changes add, modify and delete a resource.
pub proof fn law_plan_text_tells_every_change(
    plan: ProviderPlanView,
    added: Seq<char>,
    modified: Seq<char>,
    deleted: Seq<char>,
)
    requires
        is_numeral(added, how_many(plan.changes, |change: ResourceChangeView| change is Add)),
        is_numeral(modified, how_many(plan.changes, |change: ResourceChangeView| change is Modify)),
        is_numeral(deleted, how_many(plan.changes, |change: ResourceChangeView| change is Delete)),
    ensures
        provider_plan_shown(plan) == "=== "@ + plan.instance_name + " ("@ + plan.provider_type
            + ") ===\n\n"@ + joined(
            Seq::new(plan.changes.len(), |i: int| change_text(plan.changes[i])),
            Seq::empty(),
        ) + "\n"@ + added + " to add, "@ + modified + " to modify, "@ + deleted
            + " to delete\n\n"@,
{
    let n = plan.changes.len() as int;
    lemma_counts(plan.changes, n);
    assert(plan.changes.take(n) =~= plan.changes);
    lemma_changes_joined(plan.changes, n);
    lemma_numeral_is_decimal(added, count_added(plan.changes, n));
    lemma_numeral_is_decimal(modified, count_modified(plan.changes, n));
    lemma_numeral_is_decimal(deleted, count_deleted(plan.changes, n));
}

proof fn lemma_changes_joined(changes: Seq<ResourceChangeView>, n: int)
    requires
        0 <= n <= changes.len(),
    ensures
        changes_text(changes, n) == joined(
            Seq::new(n as nat, |i: int| change_text(changes[i])),
            Seq::empty(),
        ),
    decreases n,
{
    let parts = Seq::new(n as nat, |i: int| change_text(changes[i]));
    if n > 0 {
        lemma_changes_joined(changes, n - 1);
        let before = Seq::new((n - 1) as nat, |i: int| change_text(changes[i]));
        lemma_joined_push(before, change_text(changes[n - 1]));
        assert(parts =~= before.push(change_text(changes[n - 1])));
    } else {
        assert(parts =~= Seq::empty());
    }
}

/// A step is shown with its description and its instance, its command, and the lines of its body,
/// the latter two indented.
pub proof fn law_step_is_shown(step: RunbookStepView, instance: Seq<char>)
    ensures
        step_shown((step, instance)) == step.description + " ("@ + instance + ")\n  "@
            + step.command + "\n"@ + (if step.body is Some {
            joined(
                Seq::new(
                    lines_of(step.body->0).len(),
                    |i: int| "  "@ + lines_of(step.body->0)[i] + "\n"@,
                ),
                Seq::empty(),
            )
        } else {
            Seq::empty()
        }) + "\n"@,
{
    if step.body is Some {
        let lines = lines_of(step.body->0);
        lemma_indented_joined(lines, lines.len() as int);
    }
}

proof fn lemma_indented_joined(lines: Seq<Seq<char>>, n: int)
    requires
        0 <= n <= lines.len(),
    ensures
        indented(lines, n) == joined(
            Seq::new(n as nat, |i: int| "  "@ + lines[i] + "\n"@),
            Seq::empty(),
        ),
    decreases n,
{
    let parts = Seq::new(n as nat, |i: int| "  "@ + lines[i] + "\n"@);
    if n > 0 {
        lemma_indented_joined(lines, n - 1);
        let before = Seq::new((n - 1) as nat, |i: int| "  "@ + lines[i] + "\n"@);
        lemma_joined_push(before, "  "@ + lines[n - 1] + "\n"@);
        assert(parts =~= before.push("  "@ + lines[n - 1] + "\n"@));
        assert(indented(lines, n) =~= indented(lines, n - 1) + ("  "@ + lines[n - 1] + "\n"@));
    } else {
        assert(parts =~= Seq::empty());
    }
}

/// That a step stands in the runbook of the instance that is named with it.
pub open spec fn is_step_of(
    plans: Seq<ProviderPlanView>,
    step: (RunbookStepView, Seq<char>),
) -> bool {
    exists|i: int, k: int|
        0 <= i < plans.len() && 0 <= k < plans[i].runbook.len() && step == (
            #[trigger] plans[i].runbook[k],
            plans[i].instance_name,
        )
}

/// That the steps are those of all plans, each with the name of its instance, in execution order.
pub open spec fn in_execution_order(
    plans: Seq<ProviderPlanView>,
    steps: Seq<(RunbookStepView, Seq<char>)>,
) -> bool {
    &&& forall|i: int, k: int|
        0 <= i < plans.len() && 0 <= k < plans[i].runbook.len() ==> steps.contains(
            (#[trigger] plans[i].runbook[k], plans[i].instance_name),
        )
    &&& forall|s: int|
        0 <= s < steps.len() ==> is_step_of(plans, #[trigger] steps[s])
    &&& forall|s: int, t: int|
        0 <= s < t < steps.len() ==> (#[trigger] steps[s]).0.order <= (#[trigger] steps[t]).0.order
    &&& steps.len() == step_count(plans, plans.len() as int)
}

/// How many steps the first `n` plans have.
pub open spec fn step_count(plans: Seq<ProviderPlanView>, n: int) -> nat
    decreases n,
{
    if n <= 0 {
        0
    } else {
        step_count(plans, n - 1) + plans[n - 1].runbook.len()
    }
}

/// The steps of a plan are those of the runbooks of all its instances, each with the name of its
/// instance and each as often as it is listed, by ascending order.
pub proof fn law_steps_are_in_execution_order(
    plans: Seq<ProviderPlanView>,
    steps: Seq<(RunbookStepView, Seq<char>)>,
)
    requires
        stably_sorted(
            all_steps(plans, plans.len() as int),
            step_orders(all_steps(plans, plans.len() as int)),
            false,
            steps,
        ),
    ensures
        in_execution_order(plans, steps),
{
    let n = plans.len() as int;
    let listed = all_steps(plans, n);
    let keys = step_orders(listed);
    let perm = choose|perm: Seq<int>| #[trigger]
        is_stable_order(keys, false, perm) && steps == reordered(listed, perm);
    lemma_steps_counted(plans, n);
    assert forall|i: int, k: int|
        0 <= i < plans.len() && 0 <= k < plans[i].runbook.len() implies steps.contains(
        (#[trigger] plans[i].runbook[k], plans[i].instance_name),
    ) by {
        let at = lemma_step_listed(plans, n, i, k);
        assert(perm.contains(at));
        let p = choose|p: int| 0 <= p < perm.len() && perm[p] == at;
        assert(steps[p] == listed[at]);
    }
    assert forall|s: int| 0 <= s < steps.len() implies is_step_of(plans, #[trigger] steps[s]) by {
        let (i, k) = lemma_step_origin(plans, n, perm[s]);
        assert(steps[s] == (plans[i].runbook[k], plans[i].instance_name));
    }
    assert forall|s: int, t: int| 0 <= s < t < steps.len() implies (#[trigger] steps[s]).0.order
        <= (#[trigger] steps[t]).0.order by {
        assert(comes_before(keys, false, perm[s], perm[t]));
        assert(keys[perm[s]] == steps[s].0.order && keys[perm[t]] == steps[t].0.order);
    }
}

proof fn lemma_steps_counted(plans: Seq<ProviderPlanView>, n: int)
    requires
        0 <= n <= plans.len(),
    ensures
        all_steps(plans, n).len() == step_count(plans, n),
    decreases n,
{
    if n > 0 {
        lemma_steps_counted(plans, n - 1);
    }
}

proof fn lemma_step_listed(plans: Seq<ProviderPlanView>, n: int, i: int, k: int) -> (at: int)
    requires
        0 <= i < n <= plans.len(),
        0 <= k < plans[i].runbook.len(),
    ensures
        0 <= at < all_steps(plans, n).len(),
        all_steps(plans, n)[at] == (plans[i].runbook[k], plans[i].instance_name),
    decreases n,
{
    let before = all_steps(plans, n - 1);
    let last = named_steps(plans[n - 1]);
    if i == n - 1 {
        assert((before + last)[before.len() + k] == last[k]);
        before.len() + k
    } else {
        let at = lemma_step_listed(plans, n - 1, i, k);
        assert((before + last)[at] == before[at]);
        at
    }
}

proof fn lemma_step_origin(plans: Seq<ProviderPlanView>, n: int, at: int) -> (origin: (int, int))
    requires
        0 <= n <= plans.len(),
        0 <= at < all_steps(plans, n).len(),
    ensures
        0 <= origin.0 < n,
        0 <= origin.1 < plans[origin.0].runbook.len(),
        all_steps(plans, n)[at] == (
            plans[origin.0].runbook[origin.1],
            plans[origin.0].instance_name,
        ),
    decreases n,
{
    let before = all_steps(plans, n - 1);
    let last = named_steps(plans[n - 1]);
    if at < before.len() {
        assert((before + last)[at] == before[at]);
        lemma_step_origin(plans, n - 1, at)
    } else {
        assert((before + last)[at] == last[at - before.len()]);
        (n - 1, at - before.len())
    }
}

/// A plan without any changes is shown as such.  Of any other, the texts of the plans of all
/// instances are shown in order, and after them all steps in execution order.
pub proof fn law_plan_is_shown_whole(plan: Seq<ProviderPlanView>, text: Seq<char>)
    requires
        shows_plan(plan, text),
    ensures
        (forall|i: int| 0 <= i < plan.len() ==> (#[trigger] plan[i]).changes.len() == 0) ==> text
            == "No changes.\n"@,
        (exists|i: int| 0 <= i < plan.len() && (#[trigger] plan[i]).changes.len() > 0) ==> exists|
            steps: Seq<(RunbookStepView, Seq<char>)>,
        | #[trigger]
            in_execution_order(plan, steps) && text == joined(
                Seq::new(plan.len(), |i: int| provider_plan_shown(plan[i])),
                Seq::empty(),
            ) + "\n--- Runbook (in execution order) ---\n\n"@ + joined(
                Seq::new(steps.len(), |i: int| step_shown(steps[i])),
                Seq::empty(),
            ),
{
    if exists|i: int| 0 <= i < plan.len() && (#[trigger] plan[i]).changes.len() > 0 {
        let n = plan.len() as int;
        let listed = all_steps(plan, n);
        let steps = choose|steps: Seq<(RunbookStepView, Seq<char>)>| #[trigger]
            stably_sorted(listed, step_orders(listed), false, steps) && text
                == provider_plans_shown(plan, n) + "\n--- Runbook (in execution order) ---\n\n"@
                + steps_shown(steps, steps.len() as int);
        law_steps_are_in_execution_order(plan, steps);
        lemma_plans_joined(plan, n);
        lemma_steps_joined(steps, steps.len() as int);
    }
}

proof fn lemma_plans_joined(plans: Seq<ProviderPlanView>, n: int)
    requires
        0 <= n <= plans.len(),
    ensures
        provider_plans_shown(plans, n) == joined(
            Seq::new(n as nat, |i: int| provider_plan_shown(plans[i])),
            Seq::empty(),
        ),
    decreases n,
{
    let parts = Seq::new(n as nat, |i: int| provider_plan_shown(plans[i]));
    if n > 0 {
        lemma_plans_joined(plans, n - 1);
        let before = Seq::new((n - 1) as nat, |i: int| provider_plan_shown(plans[i]));
        lemma_joined_push(before, provider_plan_shown(plans[n - 1]));
        assert(parts =~= before.push(provider_plan_shown(plans[n - 1])));
    } else {
        assert(parts =~= Seq::empty());
    }
}

proof fn lemma_steps_joined(steps: Seq<(RunbookStepView, Seq<char>)>, n: int)
    requires
        0 <= n <= steps.len(),
    ensures
        steps_shown(steps, n) == joined(
            Seq::new(n as nat, |i: int| step_shown(steps[i])),
            Seq::empty(),
        ),
    decreases n,
{
    let parts = Seq::new(n as nat, |i: int| step_shown(steps[i]));
    if n > 0 {
        lemma_steps_joined(steps, n - 1);
        let before = Seq::new((n - 1) as nat, |i: int| step_shown(steps[i]));
        lemma_joined_push(before, step_shown(steps[n - 1]));
        assert(parts =~= before.push(step_shown(steps[n - 1])));
    } else {
        assert(parts =~= Seq::empty());
    }
}

} // verus!
