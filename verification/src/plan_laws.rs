//! What plans and reports mean, over the JSON that they are read from.

use crate::json::{member, member_text, members, needed_texts, texts_from, JsonView, NumberView};
use crate::plan::{
    change_from, changes_from, diffs_from, field_diff_from, needed_changes, needed_diffs,
    needed_steps, plan_from, report_from, step_from, steps_from, ApplyReportView, FieldDiffView,
    ProviderPlanView, ResourceChangeView, RunbookStepView,
};
use vstd::prelude::*;

verus! {

/// That the member `key` is a list of strings, which are these texts.
pub open spec fn lists_texts(value: JsonView, key: Seq<char>, texts: Seq<Seq<char>>) -> bool {
    &&& member(value, key) is Some
    &&& member(value, key)->0 is Array
    &&& member(value, key)->0->Array_0.len() == texts.len()
    &&& forall|i: int|
        0 <= i < texts.len() ==> #[trigger] member(value, key)->0->Array_0[i] == JsonView::String(
            texts[i],
        )
}

proof fn lemma_texts_read(items: Seq<JsonView>, n: int)
    requires
        0 <= n <= items.len(),
    ensures
        match texts_from(items, n) {
            Ok(texts) => texts.len() == n && forall|i: int|
                0 <= i < n ==> #[trigger] items[i] == JsonView::String(texts[i]),
            Err(_) => exists|i: int| 0 <= i < n && !(#[trigger] items[i] is String),
        },
    decreases n,
{
    if n > 0 {
        lemma_texts_read(items, n - 1);
        if texts_from(items, n) is Err && texts_from(items, n - 1) is Ok {
            assert(!(items[n - 1] is String));
        }
    }
}

proof fn lemma_texts_listed(value: JsonView, key: Seq<char>, texts: Seq<Seq<char>>)
    ensures
        needed_texts(value, key) == Ok::<Seq<Seq<char>>, Seq<char>>(texts)
            <==> lists_texts(value, key, texts),
{
    if member(value, key) is Some && member(value, key)->0 is Array {
        let items = member(value, key)->0->Array_0;
        lemma_texts_read(items, items.len() as int);
        let read = texts_from(items, items.len() as int);
        if lists_texts(value, key, texts) {
            assert forall|i: int| 0 <= i < items.len() implies #[trigger] items[i] is String by {
                assert(member(value, key)->0->Array_0[i] == JsonView::String(texts[i]));
            }
            assert(read is Ok);
            assert(read->Ok_0 =~= texts) by {
                assert forall|i: int| 0 <= i < texts.len() implies #[trigger] read->Ok_0[i]
                    == texts[i] by {
                    assert(items[i] == JsonView::String(texts[i]));
                }
            }
        }
    }
}

/// A report is read from its three lists by their names.
pub proof fn law_report_is_read_by_name(value: JsonView, report: ApplyReportView)
    ensures
        report_from(value) == Ok::<ApplyReportView, Seq<char>>(report) <==> lists_texts(
            value,
            "created"@,
            report.created,
        ) && lists_texts(value, "modified"@, report.modified) && lists_texts(
            value,
            "deleted"@,
            report.deleted,
        ),
{
    lemma_texts_listed(value, "created"@, report.created);
    lemma_texts_listed(value, "modified"@, report.modified);
    lemma_texts_listed(value, "deleted"@, report.deleted);
}

/// That the member `key` is a text, or missing or null for none.
pub open spec fn may_say(value: JsonView, key: Seq<char>, text: Option<Seq<char>>) -> bool {
    match text {
        Some(text) => member(value, key) == Some(JsonView::String(text)),
        None => member(value, key) is None || member(value, key) == Some(JsonView::Null),
    }
}

/// A field change is read from its members by their names.
pub proof fn law_field_change_is_read_by_name(value: JsonView, diff: FieldDiffView)
    ensures
        field_diff_from(value) == Ok::<FieldDiffView, Seq<char>>(diff) <==> member_text(
            value,
            "field"@,
        ) == Some(diff.field) && may_say(value, "from"@, diff.from) && may_say(
            value,
            "to"@,
            diff.to,
        ),
{
}

/// That the member `key` is a list of field changes, which are these.
pub open spec fn lists_diffs(value: JsonView, key: Seq<char>, diffs: Seq<FieldDiffView>) -> bool {
    &&& member(value, key) is Some
    &&& member(value, key)->0 is Array
    &&& member(value, key)->0->Array_0.len() == diffs.len()
    &&& forall|i: int|
        0 <= i < diffs.len() ==> field_diff_from(#[trigger] member(value, key)->0->Array_0[i])
            == Ok::<FieldDiffView, Seq<char>>(diffs[i])
}

proof fn lemma_diffs_read(items: Seq<JsonView>, n: int)
    requires
        0 <= n <= items.len(),
    ensures
        match diffs_from(items, n) {
            Ok(diffs) => diffs.len() == n && forall|i: int|
                0 <= i < n ==> field_diff_from(#[trigger] items[i]) == Ok::<
                    FieldDiffView,
                    Seq<char>,
                >(diffs[i]),
            Err(_) => exists|i: int| 0 <= i < n && field_diff_from(#[trigger] items[i]) is Err,
        },
    decreases n,
{
    if n > 0 {
        lemma_diffs_read(items, n - 1);
        if diffs_from(items, n) is Err && diffs_from(items, n - 1) is Ok {
            assert(field_diff_from(items[n - 1]) is Err);
        }
    }
}

proof fn lemma_diffs_listed(value: JsonView, key: Seq<char>, diffs: Seq<FieldDiffView>)
    ensures
        needed_diffs(value, key) == Ok::<Seq<FieldDiffView>, Seq<char>>(diffs) <==> lists_diffs(
            value,
            key,
            diffs,
        ),
{
    if member(value, key) is Some && member(value, key)->0 is Array {
        let items = member(value, key)->0->Array_0;
        lemma_diffs_read(items, items.len() as int);
        let read = diffs_from(items, items.len() as int);
        if lists_diffs(value, key, diffs) {
            assert forall|i: int| 0 <= i < items.len() implies field_diff_from(#[trigger] items[i])
                is Ok by {
                assert(field_diff_from(member(value, key)->0->Array_0[i]) is Ok);
            }
            assert(read is Ok);
            assert(read->Ok_0 =~= diffs) by {
                assert forall|i: int| 0 <= i < diffs.len() implies #[trigger] read->Ok_0[i]
                    == diffs[i] by {
                    assert(field_diff_from(items[i]) == Ok::<FieldDiffView, Seq<char>>(diffs[i]));
                }
            }
        }
    }
}

/// A change is read from an object whose only member names its kind: what is added with its
/// fields, what is modified with its field changes, and what is deleted.
pub proof fn law_change_is_read_by_kind(value: JsonView, change: ResourceChangeView)
    ensures
        change_from(value) == Ok::<ResourceChangeView, Seq<char>>(change) <==> members(value).len()
            == 1 && match change {
            ResourceChangeView::Add { resource_id, fields } => members(value)[0].0 == "Add"@
                && member_text(members(value)[0].1, "resource_id"@) == Some(resource_id)
                && lists_diffs(members(value)[0].1, "fields"@, fields),
            ResourceChangeView::Modify { resource_id, field_changes } => members(value)[0].0
                == "Modify"@ && member_text(members(value)[0].1, "resource_id"@) == Some(resource_id)
                && lists_diffs(members(value)[0].1, "field_changes"@, field_changes),
            ResourceChangeView::Delete { resource_id } => members(value)[0].0 == "Delete"@
                && member_text(members(value)[0].1, "resource_id"@) == Some(resource_id),
        },
{
    reveal_strlit("Add");
    reveal_strlit("Modify");
    reveal_strlit("Delete");
    assert("Add"@.len() == 3 && "Modify"@.len() == 6 && "Delete"@.len() == 6);
    assert("Modify"@[0] == 'M' && "Delete"@[0] == 'D');
    if members(value).len() == 1 {
        let content = members(value)[0].1;
        match change {
            ResourceChangeView::Add { resource_id, fields } => {
                lemma_diffs_listed(content, "fields"@, fields);
            },
            ResourceChangeView::Modify { resource_id, field_changes } => {
                lemma_diffs_listed(content, "field_changes"@, field_changes);
            },
            ResourceChangeView::Delete { resource_id } => {},
        }
    }
}

/// A step is read from its members by their names.
pub proof fn law_step_is_read_by_name(value: JsonView, step: RunbookStepView)
    ensures
        step_from(value) == Ok::<RunbookStepView, Seq<char>>(step) <==> member(value, "order"@)
            == Some(JsonView::Number(NumberView::PosInt(step.order as u64))) && member_text(
            value,
            "description"@,
        ) == Some(step.description) && member_text(value, "command"@) == Some(step.command)
            && may_say(value, "body"@, step.body) && member(value, "operation"@) == Some(
            step.operation,
        ),
{
}

/// That the member `key` is a list of changes, which are these.
pub open spec fn lists_changes(
    value: JsonView,
    key: Seq<char>,
    changes: Seq<ResourceChangeView>,
) -> bool {
    &&& member(value, key) is Some
    &&& member(value, key)->0 is Array
    &&& member(value, key)->0->Array_0.len() == changes.len()
    &&& forall|i: int|
        0 <= i < changes.len() ==> change_from(#[trigger] member(value, key)->0->Array_0[i])
            == Ok::<ResourceChangeView, Seq<char>>(changes[i])
}

proof fn lemma_changes_read(items: Seq<JsonView>, n: int)
    requires
        0 <= n <= items.len(),
    ensures
        match changes_from(items, n) {
            Ok(changes) => changes.len() == n && forall|i: int|
                0 <= i < n ==> change_from(#[trigger] items[i]) == Ok::<
                    ResourceChangeView,
                    Seq<char>,
                >(changes[i]),
            Err(_) => exists|i: int| 0 <= i < n && change_from(#[trigger] items[i]) is Err,
        },
    decreases n,
{
    if n > 0 {
        lemma_changes_read(items, n - 1);
        if changes_from(items, n) is Err && changes_from(items, n - 1) is Ok {
            assert(change_from(items[n - 1]) is Err);
        }
    }
}

proof fn lemma_changes_listed(value: JsonView, key: Seq<char>, changes: Seq<ResourceChangeView>)
    ensures
        needed_changes(value, key) == Ok::<Seq<ResourceChangeView>, Seq<char>>(changes)
            <==> lists_changes(value, key, changes),
{
    if member(value, key) is Some && member(value, key)->0 is Array {
        let items = member(value, key)->0->Array_0;
        lemma_changes_read(items, items.len() as int);
        let read = changes_from(items, items.len() as int);
        if lists_changes(value, key, changes) {
            assert forall|i: int| 0 <= i < items.len() implies change_from(#[trigger] items[i])
                is Ok by {
                assert(change_from(member(value, key)->0->Array_0[i]) is Ok);
            }
            assert(read is Ok);
            assert(read->Ok_0 =~= changes) by {
                assert forall|i: int| 0 <= i < changes.len() implies #[trigger] read->Ok_0[i]
                    == changes[i] by {
                    assert(change_from(items[i]) == Ok::<ResourceChangeView, Seq<char>>(
                        changes[i],
                    ));
                }
            }
        }
    }
}

/// That the member `key` is a list of steps, which are these.
pub open spec fn lists_steps(value: JsonView, key: Seq<char>, steps: Seq<RunbookStepView>) -> bool {
    &&& member(value, key) is Some
    &&& member(value, key)->0 is Array
    &&& member(value, key)->0->Array_0.len() == steps.len()
    &&& forall|i: int|
        0 <= i < steps.len() ==> step_from(#[trigger] member(value, key)->0->Array_0[i]) == Ok::<
            RunbookStepView,
            Seq<char>,
        >(steps[i])
}

proof fn lemma_steps_read(items: Seq<JsonView>, n: int)
    requires
        0 <= n <= items.len(),
    ensures
        match steps_from(items, n) {
            Ok(steps) => steps.len() == n && forall|i: int|
                0 <= i < n ==> step_from(#[trigger] items[i]) == Ok::<RunbookStepView, Seq<char>>(
                    steps[i],
                ),
            Err(_) => exists|i: int| 0 <= i < n && step_from(#[trigger] items[i]) is Err,
        },
    decreases n,
{
    if n > 0 {
        lemma_steps_read(items, n - 1);
        if steps_from(items, n) is Err && steps_from(items, n - 1) is Ok {
            assert(step_from(items[n - 1]) is Err);
        }
    }
}

proof fn lemma_steps_listed(value: JsonView, key: Seq<char>, steps: Seq<RunbookStepView>)
    ensures
        needed_steps(value, key) == Ok::<Seq<RunbookStepView>, Seq<char>>(steps) <==> lists_steps(
            value,
            key,
            steps,
        ),
{
    if member(value, key) is Some && member(value, key)->0 is Array {
        let items = member(value, key)->0->Array_0;
        lemma_steps_read(items, items.len() as int);
        let read = steps_from(items, items.len() as int);
        if lists_steps(value, key, steps) {
            assert forall|i: int| 0 <= i < items.len() implies step_from(#[trigger] items[i])
                is Ok by {
                assert(step_from(member(value, key)->0->Array_0[i]) is Ok);
            }
            assert(read is Ok);
            assert(read->Ok_0 =~= steps) by {
                assert forall|i: int| 0 <= i < steps.len() implies #[trigger] read->Ok_0[i]
                    == steps[i] by {
                    assert(step_from(items[i]) == Ok::<RunbookStepView, Seq<char>>(steps[i]));
                }
            }
        }
    }
}

/// A plan is read from its members by their names.
pub proof fn law_plan_is_read_by_name(value: JsonView, plan: ProviderPlanView)
    ensures
        plan_from(value) == Ok::<ProviderPlanView, Seq<char>>(plan) <==> member_text(
            value,
            "instance_name"@,
        ) == Some(plan.instance_name) && member_text(value, "provider_type"@) == Some(
            plan.provider_type,
        ) && lists_changes(value, "changes"@, plan.changes) && lists_steps(
            value,
            "runbook"@,
            plan.runbook,
        ),
{
    lemma_changes_listed(value, "changes"@, plan.changes);
    lemma_steps_listed(value, "runbook"@, plan.runbook);
}

/// A change is about the resource that it names, whatever its kind is.
pub proof fn law_change_is_about_its_resource(value: JsonView, change: ResourceChangeView)
    requires
        change_from(value) == Ok::<ResourceChangeView, Seq<char>>(change),
    ensures
        member_text(members(value)[0].1, "resource_id"@) == Some(change.id()),
{
    law_change_is_read_by_kind(value, change);
}

} // verus!
