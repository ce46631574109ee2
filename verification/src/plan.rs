//! Plans: what a provider would change, and the runbook that does it.

use crate::json::{
    lemma_array_view, lemma_texts_round_trip, member, members, need_items, need_text, need_texts,
    needed_items, needed_text, needed_texts, optional_json, optional_text, read_optional_text,
    texts_json, write_optional, write_texts, Json, JsonView, Number, NumberView,
};
use crate::order::{is_stable_order, reordered, stable_sort, stably_sorted};
use crate::strmap::{lemma_lookups_put, put};
use crate::text::{copy_texts, text_eq};
use crate::views::{lemma_views_push, option_view, result_view, views};
use vstd::prelude::*;

verus! {

/// A change to a single field within a resource.
#[derive(Debug, PartialEq)]
pub struct FieldDiff {
    pub field: String,
    /// Current live value; `None` if the field does not exist yet.
    pub from: Option<String>,
    /// Desired value; `None` if the field is being removed.
    pub to: Option<String>,
}

/// What a [`FieldDiff`] stands for.
pub struct FieldDiffView {
    pub field: Seq<char>,
    pub from: Option<Seq<char>>,
    pub to: Option<Seq<char>>,
}

impl View for FieldDiff {
    type V = FieldDiffView;

    open spec fn view(&self) -> FieldDiffView {
        FieldDiffView {
            field: self.field@,
            from: option_view(self.from),
            to: option_view(self.to),
        }
    }
}

/// A change to a single resource.
#[derive(Debug, PartialEq)]
pub enum ResourceChange {
    Add { resource_id: String, fields: Vec<FieldDiff> },
    Modify { resource_id: String, field_changes: Vec<FieldDiff> },
    Delete { resource_id: String },
}

/// What a [`ResourceChange`] stands for.
pub enum ResourceChangeView {
    Add { resource_id: Seq<char>, fields: Seq<FieldDiffView> },
    Modify { resource_id: Seq<char>, field_changes: Seq<FieldDiffView> },
    Delete { resource_id: Seq<char> },
}

impl View for ResourceChange {
    type V = ResourceChangeView;

    open spec fn view(&self) -> ResourceChangeView {
        match self {
            ResourceChange::Add { resource_id, fields } => ResourceChangeView::Add {
                resource_id: resource_id@,
                fields: views(fields@),
            },
            ResourceChange::Modify { resource_id, field_changes } => ResourceChangeView::Modify {
                resource_id: resource_id@,
                field_changes: views(field_changes@),
            },
            ResourceChange::Delete { resource_id } => ResourceChangeView::Delete {
                resource_id: resource_id@,
            },
        }
    }
}

impl ResourceChangeView {
    /// The resource that is changed.
    pub open spec fn id(self) -> Seq<char> {
        match self {
            ResourceChangeView::Add { resource_id, .. } => resource_id,
            ResourceChangeView::Modify { resource_id, .. } => resource_id,
            ResourceChangeView::Delete { resource_id } => resource_id,
        }
    }
}

impl ResourceChange {
    /// The resource that is changed.
    pub fn resource_id(&self) -> (id: &str)
        ensures
            id@ == self@.id(),
    {
        match self {
            ResourceChange::Add { resource_id, .. } => resource_id.as_str(),
            ResourceChange::Modify { resource_id, .. } => resource_id.as_str(),
            ResourceChange::Delete { resource_id } => resource_id.as_str(),
        }
    }
}

/// A single step in the execution runbook.
#[derive(Debug, PartialEq)]
pub struct RunbookStep {
    /// Execution order.  Steps with lower order run before steps with higher order.  Steps with
    /// equal order may eventually run concurrently.
    pub order: u32,
    /// Human-readable label shown in plan output.
    pub description: String,
    /// The command or request line shown to the operator, with all sensitive values replaced by
    /// `***`.
    pub command: String,
    /// Body or payload (e.g. an LDIF block) shown in plan output, if any.
    pub body: Option<String>,
    /// Machine-executable representation of the operation, opaque to the core.  The provider
    /// writes its own operation type here and reads it again during `apply`.
    pub operation: Json,
}

/// What a [`RunbookStep`] stands for.
pub struct RunbookStepView {
    pub order: u32,
    pub description: Seq<char>,
    pub command: Seq<char>,
    pub body: Option<Seq<char>>,
    pub operation: JsonView,
}

impl View for RunbookStep {
    type V = RunbookStepView;

    open spec fn view(&self) -> RunbookStepView {
        RunbookStepView {
            order: self.order,
            description: self.description@,
            command: self.command@,
            body: option_view(self.body),
            operation: self.operation@,
        }
    }
}

/// The complete plan for one provider instance.
#[derive(Debug, PartialEq)]
pub struct ProviderPlan {
    pub instance_name: String,
    pub provider_type: String,
    pub changes: Vec<ResourceChange>,
    pub runbook: Vec<RunbookStep>,
}

/// What a [`ProviderPlan`] stands for.
pub struct ProviderPlanView {
    pub instance_name: Seq<char>,
    pub provider_type: Seq<char>,
    pub changes: Seq<ResourceChangeView>,
    pub runbook: Seq<RunbookStepView>,
}

impl View for ProviderPlan {
    type V = ProviderPlanView;

    open spec fn view(&self) -> ProviderPlanView {
        ProviderPlanView {
            instance_name: self.instance_name@,
            provider_type: self.provider_type@,
            changes: views(self.changes@),
            runbook: views(self.runbook@),
        }
    }
}

impl ProviderPlan {
    /// Whether the plan changes nothing.
    pub fn is_empty(&self) -> (empty: bool)
        ensures
            empty == (self@.changes.len() == 0),
    {
        self.changes.len() == 0
    }
}

/// Summary of changes applied by a provider.
#[derive(Debug, PartialEq)]
pub struct ApplyReport {
    pub created: Vec<String>,
    pub modified: Vec<String>,
    pub deleted: Vec<String>,
}

/// What an [`ApplyReport`] stands for.
pub struct ApplyReportView {
    pub created: Seq<Seq<char>>,
    pub modified: Seq<Seq<char>>,
    pub deleted: Seq<Seq<char>>,
}

impl View for ApplyReport {
    type V = ApplyReportView;

    open spec fn view(&self) -> ApplyReportView {
        ApplyReportView {
            created: views(self.created@),
            modified: views(self.modified@),
            deleted: views(self.deleted@),
        }
    }
}

/// The report of nothing having been done.
pub open spec fn no_report() -> ApplyReportView {
    ApplyReportView { created: Seq::empty(), modified: Seq::empty(), deleted: Seq::empty() }
}

impl Default for ApplyReport {
    fn default() -> (report: ApplyReport)
        ensures
            report@ == no_report(),
    {
        let report = ApplyReport {
            created: Vec::new(),
            modified: Vec::new(),
            deleted: Vec::new(),
        };
        assert(report@.created =~= Seq::empty());
        assert(report@.modified =~= Seq::empty());
        assert(report@.deleted =~= Seq::empty());
        report
    }
}

/// The unified plan across all provider instances.
#[derive(Debug, PartialEq)]
pub struct Plan {
    pub provider_plans: Vec<ProviderPlan>,
}

impl View for Plan {
    type V = Seq<ProviderPlanView>;

    open spec fn view(&self) -> Seq<ProviderPlanView> {
        views(self.provider_plans@)
    }
}

impl Default for Plan {
    fn default() -> (plan: Plan)
        ensures
            plan@ == Seq::<ProviderPlanView>::empty(),
    {
        let plan = Plan { provider_plans: Vec::new() };
        assert(plan@ =~= Seq::empty());
        plan
    }
}

/// The steps of a runbook with the instance that they belong to.
pub open spec fn named_steps(plan: ProviderPlanView) -> Seq<(RunbookStepView, Seq<char>)> {
    plan.runbook.map_values(|step: RunbookStepView| (step, plan.instance_name))
}

/// The steps of the first `n` provider plans, one plan after the other.
pub open spec fn all_steps(plans: Seq<ProviderPlanView>, n: int) -> Seq<
    (RunbookStepView, Seq<char>),
>
    decreases n,
{
    if n <= 0 {
        Seq::empty()
    } else {
        all_steps(plans, n - 1) + named_steps(plans[n - 1])
    }
}

/// The order of each step.
pub open spec fn step_orders(steps: Seq<(RunbookStepView, Seq<char>)>) -> Seq<usize> {
    steps.map_values(|step: (RunbookStepView, Seq<char>)| step.0.order as usize)
}

/// What a list of steps with their instances stands for.
pub open spec fn step_views(steps: Seq<(&RunbookStep, &str)>) -> Seq<
    (RunbookStepView, Seq<char>),
> {
    steps.map_values(|step: (&RunbookStep, &str)| (step.0@, step.1@))
}

impl Plan {
    /// All runbook steps across all providers, in execution order: by their order, and among
    /// steps of equal order as the plans list them.
    pub fn ordered_steps(&self) -> (steps: Vec<(&RunbookStep, &str)>)
        ensures
            stably_sorted(
                all_steps(self@, self@.len() as int),
                step_orders(all_steps(self@, self@.len() as int)),
                false,
                step_views(steps@),
            ),
    {
        let mut steps: Vec<(&RunbookStep, &str)> = Vec::new();
        let mut orders: Vec<usize> = Vec::new();
        let mut i: usize = 0;
        assert(step_views(steps@) =~= Seq::empty());
        assert(orders@ =~= step_orders(step_views(steps@)));
        while i < self.provider_plans.len()
            invariant
                i <= self.provider_plans@.len(),
                step_views(steps@) == all_steps(self@, i as int),
                orders@ == step_orders(step_views(steps@)),
            decreases self.provider_plans.len() - i,
        {
            let plan = &self.provider_plans[i];
            let ghost before = step_views(steps@);
            let ghost named = named_steps(plan@);
            let mut k: usize = 0;
            assert(before + named.take(0) =~= before);
            while k < plan.runbook.len()
                invariant
                    k <= plan.runbook@.len(),
                    named == named_steps(plan@),
                    step_views(steps@) == before + named.take(k as int),
                    orders@ == step_orders(step_views(steps@)),
                decreases plan.runbook.len() - k,
            {
                let step = &plan.runbook[k];
                let ghost so_far = step_views(steps@);
                steps.push((step, plan.instance_name.as_str()));
                orders.push(step.order as usize);
                proof {
                    assert(step_views(steps@) =~= so_far.push((step@, plan.instance_name@)));
                    assert(named[k as int] == (step@, plan.instance_name@));
                    assert(step_views(steps@) =~= before + named.take(k + 1));
                    assert(orders@ =~= step_orders(step_views(steps@)));
                }
                k = k + 1;
            }
            assert(named.take(k as int) =~= named);
            i = i + 1;
        }
        let ghost listed = steps@;
        let sorted = stable_sort(steps, &orders, false);
        proof {
            let perm = choose|perm: Seq<int>| #[trigger]
                is_stable_order(orders@, false, perm) && sorted@ == reordered(listed, perm);
            assert(step_views(sorted@) =~= reordered(step_views(listed), perm));
        }
        sorted
    }

    /// Whether no provider plan changes anything.
    pub fn is_empty(&self) -> (empty: bool)
        ensures
            empty == forall|i: int| 0 <= i < self@.len() ==> (#[trigger] self@[i]).changes.len() == 0,
    {
        let mut i: usize = 0;
        while i < self.provider_plans.len()
            invariant
                i <= self.provider_plans@.len(),
                forall|k: int| 0 <= k < i ==> (#[trigger] self@[k]).changes.len() == 0,
            decreases self.provider_plans.len() - i,
        {
            if !self.provider_plans[i].is_empty() {
                assert(self@[i as int].changes.len() != 0);
                return false;
            }
            i = i + 1;
        }
        true
    }
}

/// The field change that a JSON value is read as.
pub open spec fn field_diff_from(value: JsonView) -> Result<FieldDiffView, Seq<char>> {
    match needed_text(value, "field"@) {
        Err(message) => Err(message),
        Ok(field) => match optional_text(value, "from"@) {
            Err(message) => Err(message),
            Ok(from) => match optional_text(value, "to"@) {
                Err(message) => Err(message),
                Ok(to) => Ok(FieldDiffView { field, from, to }),
            },
        },
    }
}

/// The JSON form of a field change.
pub open spec fn field_diff_json(diff: FieldDiffView) -> JsonView {
    JsonView::Object(
        put(
            put(
                put(Seq::empty(), "field"@, JsonView::String(diff.field)),
                "from"@,
                optional_json(diff.from),
            ),
            "to"@,
            optional_json(diff.to),
        ),
    )
}

impl FieldDiff {
    /// Reads a field change from its JSON form.
    pub fn from_json(value: &Json) -> (diff: Result<FieldDiff, String>)
        ensures
            result_view(diff) == field_diff_from(value@),
    {
        let field = match need_text(value, "field") {
            Ok(field) => field,
            Err(message) => {
                return Err(message);
            }
        };
        let from = match read_optional_text(value, "from") {
            Ok(from) => from,
            Err(message) => {
                return Err(message);
            }
        };
        let to = match read_optional_text(value, "to") {
            Ok(to) => to,
            Err(message) => {
                return Err(message);
            }
        };
        Ok(FieldDiff { field, from, to })
    }

    /// The JSON form of this field change.
    pub fn to_json(&self) -> (value: Json)
        ensures
            value@ == field_diff_json(self@),
    {
        Json::empty_object().with_member("field", Json::String(self.field.clone())).with_member(
            "from",
            write_optional(&self.from),
        ).with_member("to", write_optional(&self.to))
    }
}

/// A field change is read back from its JSON form as it was written.
pub proof fn law_field_diff_round_trip(diff: FieldDiffView)
    ensures
        field_diff_from(field_diff_json(diff)) == Ok::<FieldDiffView, Seq<char>>(diff),
{
    let first = put(
        Seq::<(Seq<char>, JsonView)>::empty(),
        "field"@,
        JsonView::String(diff.field),
    );
    let second = put(first, "from"@, optional_json(diff.from));
    lemma_lookups_put(
        Seq::<(Seq<char>, JsonView)>::empty(),
        "field"@,
        JsonView::String(diff.field),
    );
    lemma_lookups_put(first, "from"@, optional_json(diff.from));
    lemma_lookups_put(second, "to"@, optional_json(diff.to));
    reveal_strlit("field");
    reveal_strlit("from");
    reveal_strlit("to");
    assert("field"@.len() == 5 && "from"@.len() == 4 && "to"@.len() == 2);
}

/// The field changes that the first `n` items are read as, or the message for the first item that is
/// none.
pub open spec fn diffs_from(items: Seq<JsonView>, n: int) -> Result<Seq<FieldDiffView>, Seq<char>>
    decreases n,
{
    if n <= 0 {
        Ok(Seq::empty())
    } else {
        match diffs_from(items, n - 1) {
            Err(message) => Err(message),
            Ok(read) => match field_diff_from(items[n - 1]) {
                Ok(item) => Ok(read.push(item)),
                Err(message) => Err(message),
            },
        }
    }
}

/// The field changes of a member that has to be a list.
pub open spec fn needed_diffs(value: JsonView, key: Seq<char>) -> Result<
    Seq<FieldDiffView>,
    Seq<char>,
> {
    match needed_items(value, key) {
        Ok(items) => diffs_from(items, items.len() as int),
        Err(message) => Err(message),
    }
}

proof fn lemma_diffs_stop(items: Seq<JsonView>, n: int, m: int)
    requires
        0 <= n <= m,
        diffs_from(items, n) is Err,
    ensures
        diffs_from(items, m) == diffs_from(items, n),
    decreases m - n,
{
    if n < m {
        lemma_diffs_stop(items, n, m - 1);
    }
}

fn need_diffs(value: &Json, key: &str) -> (read: Result<Vec<FieldDiff>, String>)
    ensures
        match read {
            Ok(read) => needed_diffs(value@, key@) == Ok::<Seq<FieldDiffView>, Seq<char>>(
                views(read@),
            ),
            Err(message) => needed_diffs(value@, key@) == Err::<Seq<FieldDiffView>, Seq<char>>(
                message@,
            ),
        },
{
    let items = match need_items(value, key) {
        Ok(items) => items,
        Err(message) => {
            return Err(message);
        }
    };
    let ghost all = views(items@);
    let mut read: Vec<FieldDiff> = Vec::new();
    let mut i: usize = 0;
    assert(views(read@) =~= Seq::empty());
    while i < items.len()
        invariant
            i <= items@.len(),
            all == views(items@),
            needed_diffs(value@, key@) == diffs_from(all, all.len() as int),
            diffs_from(all, i as int) == Ok::<Seq<FieldDiffView>, Seq<char>>(views(read@)),
        decreases items.len() - i,
    {
        match FieldDiff::from_json(&items[i]) {
            Ok(item) => {
                proof {
                    lemma_views_push(read@, item);
                }
                read.push(item);
            }
            Err(message) => {
                proof {
                    lemma_diffs_stop(all, i + 1, all.len() as int);
                }
                return Err(message);
            }
        }
        i = i + 1;
    }
    Ok(read)
}

/// The JSON forms of field changes, in order.
pub open spec fn diffs_json(items: Seq<FieldDiffView>) -> JsonView {
    JsonView::Array(items.map_values(|item: FieldDiffView| field_diff_json(item)))
}

fn write_diffs(given: &Vec<FieldDiff>) -> (value: Json)
    ensures
        value@ == diffs_json(views(given@)),
{
    let mut items: Vec<Json> = Vec::new();
    let mut i: usize = 0;
    while i < given.len()
        invariant
            i <= given@.len(),
            items@.len() == i,
            forall|k: int| 0 <= k < i ==> (#[trigger] items@[k])@ == field_diff_json(given@[k]@),
        decreases given.len() - i,
    {
        items.push(given[i].to_json());
        i = i + 1;
    }
    proof {
        lemma_array_view(items);
        assert(views(items@) =~= views(given@).map_values(|item: FieldDiffView| field_diff_json(item)));
    }
    Json::Array(items)
}

proof fn lemma_diffs_round_trip(items: Seq<FieldDiffView>, n: int)
    requires
        0 <= n <= items.len(),
    ensures
        diffs_from(diffs_json(items)->Array_0, n) == Ok::<Seq<FieldDiffView>, Seq<char>>(items.take(n)),
    decreases n,
{
    if n <= 0 {
        assert(items.take(0) =~= Seq::empty());
    } else {
        lemma_diffs_round_trip(items, n - 1);
        law_field_diff_round_trip(items[n - 1]);
        assert(diffs_json(items)->Array_0[n - 1] == field_diff_json(items[n - 1]));
        assert(items.take(n - 1).push(items[n - 1]) =~= items.take(n));
    }
}

/// The change that a JSON value is read as: an object with one member, named after the kind of
/// the change.
pub open spec fn change_from(value: JsonView) -> Result<ResourceChangeView, Seq<char>> {
    if members(value).len() != 1 {
        Err("expected a resource change"@)
    } else {
        let (kind, content) = members(value)[0];
        match needed_text(content, "resource_id"@) {
            Err(message) => Err(message),
            Ok(resource_id) => if kind == "Add"@ {
                match needed_diffs(content, "fields"@) {
                    Ok(fields) => Ok(ResourceChangeView::Add { resource_id, fields }),
                    Err(message) => Err(message),
                }
            } else if kind == "Modify"@ {
                match needed_diffs(content, "field_changes"@) {
                    Ok(field_changes) => Ok(
                        ResourceChangeView::Modify { resource_id, field_changes },
                    ),
                    Err(message) => Err(message),
                }
            } else if kind == "Delete"@ {
                Ok(ResourceChangeView::Delete { resource_id })
            } else {
                Err("expected a resource change"@)
            },
        }
    }
}

/// The object that names a resource.
pub open spec fn resource_json(resource_id: Seq<char>) -> Seq<(Seq<char>, JsonView)> {
    put(Seq::empty(), "resource_id"@, JsonView::String(resource_id))
}

/// The JSON form of a change.
pub open spec fn change_json(change: ResourceChangeView) -> JsonView {
    let (kind, content) = match change {
        ResourceChangeView::Add { resource_id, fields } => (
            "Add"@,
            put(resource_json(resource_id), "fields"@, diffs_json(fields)),
        ),
        ResourceChangeView::Modify { resource_id, field_changes } => (
            "Modify"@,
            put(resource_json(resource_id), "field_changes"@, diffs_json(field_changes)),
        ),
        ResourceChangeView::Delete { resource_id } => ("Delete"@, resource_json(resource_id)),
    };
    JsonView::Object(put(Seq::empty(), kind, JsonView::Object(content)))
}

fn write_resource(resource_id: &String) -> (value: Json)
    ensures
        value@ == JsonView::Object(resource_json(resource_id@)),
{
    Json::empty_object().with_member("resource_id", Json::String(resource_id.clone()))
}

impl ResourceChange {
    /// Reads a change from its JSON form.
    pub fn from_json(value: &Json) -> (change: Result<ResourceChange, String>)
        ensures
            result_view(change) == change_from(value@),
    {
        let map = match value.as_object() {
            Some(map) => map,
            None => {
                return Err("expected a resource change".to_owned());
            }
        };
        if map.len() != 1 {
            return Err("expected a resource change".to_owned());
        }
        let kind = map.key_at(0);
        let content = map.value_at(0);
        assert(members(value@)[0] == (kind@, content@));
        let resource_id = match need_text(content, "resource_id") {
            Ok(resource_id) => resource_id,
            Err(message) => {
                return Err(message);
            }
        };
        if text_eq(kind, "Add") {
            match need_diffs(content, "fields") {
                Ok(fields) => Ok(ResourceChange::Add { resource_id, fields }),
                Err(message) => Err(message),
            }
        } else if text_eq(kind, "Modify") {
            match need_diffs(content, "field_changes") {
                Ok(field_changes) => Ok(ResourceChange::Modify { resource_id, field_changes }),
                Err(message) => Err(message),
            }
        } else if text_eq(kind, "Delete") {
            Ok(ResourceChange::Delete { resource_id })
        } else {
            Err("expected a resource change".to_owned())
        }
    }

    /// The JSON form of this change.
    pub fn to_json(&self) -> (value: Json)
        ensures
            value@ == change_json(self@),
    {
        match self {
            ResourceChange::Add { resource_id, fields } => {
                let content = write_resource(resource_id).with_member(
                    "fields",
                    write_diffs(fields),
                );
                Json::empty_object().with_member("Add", content)
            }
            ResourceChange::Modify { resource_id, field_changes } => {
                let content = write_resource(resource_id).with_member(
                    "field_changes",
                    write_diffs(field_changes),
                );
                Json::empty_object().with_member("Modify", content)
            }
            ResourceChange::Delete { resource_id } => Json::empty_object().with_member(
                "Delete",
                write_resource(resource_id),
            ),
        }
    }
}

/// A change is read back from its JSON form as it was written.
pub proof fn law_resource_change_round_trip(change: ResourceChangeView)
    ensures
        change_from(change_json(change)) == Ok::<ResourceChangeView, Seq<char>>(change),
{
    reveal_strlit("Add");
    reveal_strlit("Modify");
    reveal_strlit("Delete");
    reveal_strlit("resource_id");
    reveal_strlit("fields");
    reveal_strlit("field_changes");
    assert("Add"@.len() == 3 && "Modify"@.len() == 6 && "Delete"@.len() == 6);
    assert("Modify"@[0] != "Delete"@[0]);
    assert("resource_id"@.len() == 11 && "fields"@.len() == 6 && "field_changes"@.len() == 13);
    let empty = Seq::<(Seq<char>, JsonView)>::empty();
    let resource = resource_json(change.id());
    lemma_lookups_put(empty, "resource_id"@, JsonView::String(change.id()));
    match change {
        ResourceChangeView::Add { resource_id, fields } => {
            lemma_lookups_put(resource, "fields"@, diffs_json(fields));
            lemma_diffs_round_trip(fields, fields.len() as int);
            assert(fields.take(fields.len() as int) =~= fields);
        },
        ResourceChangeView::Modify { resource_id, field_changes } => {
            lemma_lookups_put(resource, "field_changes"@, diffs_json(field_changes));
            lemma_diffs_round_trip(field_changes, field_changes.len() as int);
            assert(field_changes.take(field_changes.len() as int) =~= field_changes);
        },
        ResourceChangeView::Delete { .. } => {},
    }
}

/// The changes that the first `n` items are read as, or the message for the first item that is
/// none.
pub open spec fn changes_from(items: Seq<JsonView>, n: int) -> Result<Seq<ResourceChangeView>, Seq<char>>
    decreases n,
{
    if n <= 0 {
        Ok(Seq::empty())
    } else {
        match changes_from(items, n - 1) {
            Err(message) => Err(message),
            Ok(read) => match change_from(items[n - 1]) {
                Ok(item) => Ok(read.push(item)),
                Err(message) => Err(message),
            },
        }
    }
}

/// The changes of a member that has to be a list.
pub open spec fn needed_changes(value: JsonView, key: Seq<char>) -> Result<
    Seq<ResourceChangeView>,
    Seq<char>,
> {
    match needed_items(value, key) {
        Ok(items) => changes_from(items, items.len() as int),
        Err(message) => Err(message),
    }
}

proof fn lemma_changes_stop(items: Seq<JsonView>, n: int, m: int)
    requires
        0 <= n <= m,
        changes_from(items, n) is Err,
    ensures
        changes_from(items, m) == changes_from(items, n),
    decreases m - n,
{
    if n < m {
        lemma_changes_stop(items, n, m - 1);
    }
}

fn need_changes(value: &Json, key: &str) -> (read: Result<Vec<ResourceChange>, String>)
    ensures
        match read {
            Ok(read) => needed_changes(value@, key@) == Ok::<Seq<ResourceChangeView>, Seq<char>>(
                views(read@),
            ),
            Err(message) => needed_changes(value@, key@) == Err::<Seq<ResourceChangeView>, Seq<char>>(
                message@,
            ),
        },
{
    let items = match need_items(value, key) {
        Ok(items) => items,
        Err(message) => {
            return Err(message);
        }
    };
    let ghost all = views(items@);
    let mut read: Vec<ResourceChange> = Vec::new();
    let mut i: usize = 0;
    assert(views(read@) =~= Seq::empty());
    while i < items.len()
        invariant
            i <= items@.len(),
            all == views(items@),
            needed_changes(value@, key@) == changes_from(all, all.len() as int),
            changes_from(all, i as int) == Ok::<Seq<ResourceChangeView>, Seq<char>>(views(read@)),
        decreases items.len() - i,
    {
        match ResourceChange::from_json(&items[i]) {
            Ok(item) => {
                proof {
                    lemma_views_push(read@, item);
                }
                read.push(item);
            }
            Err(message) => {
                proof {
                    lemma_changes_stop(all, i + 1, all.len() as int);
                }
                return Err(message);
            }
        }
        i = i + 1;
    }
    Ok(read)
}

/// The JSON forms of changes, in order.
pub open spec fn changes_json(items: Seq<ResourceChangeView>) -> JsonView {
    JsonView::Array(items.map_values(|item: ResourceChangeView| change_json(item)))
}

fn write_changes(given: &Vec<ResourceChange>) -> (value: Json)
    ensures
        value@ == changes_json(views(given@)),
{
    let mut items: Vec<Json> = Vec::new();
    let mut i: usize = 0;
    while i < given.len()
        invariant
            i <= given@.len(),
            items@.len() == i,
            forall|k: int| 0 <= k < i ==> (#[trigger] items@[k])@ == change_json(given@[k]@),
        decreases given.len() - i,
    {
        items.push(given[i].to_json());
        i = i + 1;
    }
    proof {
        lemma_array_view(items);
        assert(views(items@) =~= views(given@).map_values(|item: ResourceChangeView| change_json(item)));
    }
    Json::Array(items)
}

proof fn lemma_changes_round_trip(items: Seq<ResourceChangeView>, n: int)
    requires
        0 <= n <= items.len(),
    ensures
        changes_from(changes_json(items)->Array_0, n) == Ok::<Seq<ResourceChangeView>, Seq<char>>(items.take(n)),
    decreases n,
{
    if n <= 0 {
        assert(items.take(0) =~= Seq::empty());
    } else {
        lemma_changes_round_trip(items, n - 1);
        law_resource_change_round_trip(items[n - 1]);
        assert(changes_json(items)->Array_0[n - 1] == change_json(items[n - 1]));
        assert(items.take(n - 1).push(items[n - 1]) =~= items.take(n));
    }
}

/// The number of a member that has to be an integer of 32 bits.
pub open spec fn needed_u32(value: JsonView, key: Seq<char>) -> Result<u32, Seq<char>> {
    match member(value, key) {
        Some(JsonView::Number(NumberView::PosInt(n))) => if n <= u32::MAX {
            Ok(n as u32)
        } else {
            Err("expected a number of 32 bits"@)
        },
        _ => Err("expected a number of 32 bits"@),
    }
}

fn need_u32(value: &Json, key: &str) -> (number: Result<u32, String>)
    ensures
        match number {
            Ok(n) => needed_u32(value@, key@) == Ok::<u32, Seq<char>>(n),
            Err(message) => needed_u32(value@, key@) == Err::<u32, Seq<char>>(message@),
        },
{
    match value.get(key) {
        Some(Json::Number(Number::PosInt(n))) => if *n <= u32::MAX as u64 {
            Ok(*n as u32)
        } else {
            Err("expected a number of 32 bits".to_owned())
        },
        _ => Err("expected a number of 32 bits".to_owned()),
    }
}

/// The step that a JSON value is read as.
pub open spec fn step_from(value: JsonView) -> Result<RunbookStepView, Seq<char>> {
    match needed_u32(value, "order"@) {
        Err(message) => Err(message),
        Ok(order) => match needed_text(value, "description"@) {
            Err(message) => Err(message),
            Ok(description) => match needed_text(value, "command"@) {
                Err(message) => Err(message),
                Ok(command) => match optional_text(value, "body"@) {
                    Err(message) => Err(message),
                    Ok(body) => match member(value, "operation"@) {
                        None => Err("missing operation"@),
                        Some(operation) => Ok(
                            RunbookStepView { order, description, command, body, operation },
                        ),
                    },
                },
            },
        },
    }
}

/// The JSON form of a step.
pub open spec fn step_json(step: RunbookStepView) -> JsonView {
    JsonView::Object(
        put(
            put(
                put(
                    put(
                        put(
                            Seq::empty(),
                            "order"@,
                            JsonView::Number(NumberView::PosInt(step.order as u64)),
                        ),
                        "description"@,
                        JsonView::String(step.description),
                    ),
                    "command"@,
                    JsonView::String(step.command),
                ),
                "body"@,
                optional_json(step.body),
            ),
            "operation"@,
            step.operation,
        ),
    )
}

impl RunbookStep {
    /// Reads a step from its JSON form.
    pub fn from_json(value: &Json) -> (step: Result<RunbookStep, String>)
        ensures
            result_view(step) == step_from(value@),
    {
        let order = match need_u32(value, "order") {
            Ok(order) => order,
            Err(message) => {
                return Err(message);
            }
        };
        let description = match need_text(value, "description") {
            Ok(description) => description,
            Err(message) => {
                return Err(message);
            }
        };
        let command = match need_text(value, "command") {
            Ok(command) => command,
            Err(message) => {
                return Err(message);
            }
        };
        let body = match read_optional_text(value, "body") {
            Ok(body) => body,
            Err(message) => {
                return Err(message);
            }
        };
        match value.get("operation") {
            None => Err("missing operation".to_owned()),
            Some(operation) => Ok(
                RunbookStep { order, description, command, body, operation: operation.copy() },
            ),
        }
    }

    /// The JSON form of this step.
    pub fn to_json(&self) -> (value: Json)
        ensures
            value@ == step_json(self@),
    {
        Json::empty_object().with_member(
            "order",
            Json::Number(Number::PosInt(self.order as u64)),
        ).with_member("description", Json::String(self.description.clone())).with_member(
            "command",
            Json::String(self.command.clone()),
        ).with_member("body", write_optional(&self.body)).with_member(
            "operation",
            self.operation.copy(),
        )
    }
}

/// A step is read back from its JSON form as it was written.
pub proof fn law_runbook_step_round_trip(step: RunbookStepView)
    ensures
        step_from(step_json(step)) == Ok::<RunbookStepView, Seq<char>>(step),
{
    reveal_strlit("order");
    reveal_strlit("description");
    reveal_strlit("command");
    reveal_strlit("body");
    reveal_strlit("operation");
    assert("order"@.len() == 5 && "description"@.len() == 11 && "command"@.len() == 7);
    assert("body"@.len() == 4 && "operation"@.len() == 9);
    let empty = Seq::<(Seq<char>, JsonView)>::empty();
    let order = JsonView::Number(NumberView::PosInt(step.order as u64));
    let first = put(empty, "order"@, order);
    let second = put(first, "description"@, JsonView::String(step.description));
    let third = put(second, "command"@, JsonView::String(step.command));
    let fourth = put(third, "body"@, optional_json(step.body));
    lemma_lookups_put(empty, "order"@, order);
    lemma_lookups_put(first, "description"@, JsonView::String(step.description));
    lemma_lookups_put(second, "command"@, JsonView::String(step.command));
    lemma_lookups_put(third, "body"@, optional_json(step.body));
    lemma_lookups_put(fourth, "operation"@, step.operation);
}

/// The steps that the first `n` items are read as, or the message for the first item that is
/// none.
pub open spec fn steps_from(items: Seq<JsonView>, n: int) -> Result<Seq<RunbookStepView>, Seq<char>>
    decreases n,
{
    if n <= 0 {
        Ok(Seq::empty())
    } else {
        match steps_from(items, n - 1) {
            Err(message) => Err(message),
            Ok(read) => match step_from(items[n - 1]) {
                Ok(item) => Ok(read.push(item)),
                Err(message) => Err(message),
            },
        }
    }
}

/// The steps of a member that has to be a list.
pub open spec fn needed_steps(value: JsonView, key: Seq<char>) -> Result<
    Seq<RunbookStepView>,
    Seq<char>,
> {
    match needed_items(value, key) {
        Ok(items) => steps_from(items, items.len() as int),
        Err(message) => Err(message),
    }
}

proof fn lemma_steps_stop(items: Seq<JsonView>, n: int, m: int)
    requires
        0 <= n <= m,
        steps_from(items, n) is Err,
    ensures
        steps_from(items, m) == steps_from(items, n),
    decreases m - n,
{
    if n < m {
        lemma_steps_stop(items, n, m - 1);
    }
}

fn need_steps(value: &Json, key: &str) -> (read: Result<Vec<RunbookStep>, String>)
    ensures
        match read {
            Ok(read) => needed_steps(value@, key@) == Ok::<Seq<RunbookStepView>, Seq<char>>(
                views(read@),
            ),
            Err(message) => needed_steps(value@, key@) == Err::<Seq<RunbookStepView>, Seq<char>>(
                message@,
            ),
        },
{
    let items = match need_items(value, key) {
        Ok(items) => items,
        Err(message) => {
            return Err(message);
        }
    };
    let ghost all = views(items@);
    let mut read: Vec<RunbookStep> = Vec::new();
    let mut i: usize = 0;
    assert(views(read@) =~= Seq::empty());
    while i < items.len()
        invariant
            i <= items@.len(),
            all == views(items@),
            needed_steps(value@, key@) == steps_from(all, all.len() as int),
            steps_from(all, i as int) == Ok::<Seq<RunbookStepView>, Seq<char>>(views(read@)),
        decreases items.len() - i,
    {
        match RunbookStep::from_json(&items[i]) {
            Ok(item) => {
                proof {
                    lemma_views_push(read@, item);
                }
                read.push(item);
            }
            Err(message) => {
                proof {
                    lemma_steps_stop(all, i + 1, all.len() as int);
                }
                return Err(message);
            }
        }
        i = i + 1;
    }
    Ok(read)
}

/// The JSON forms of steps, in order.
pub open spec fn steps_json(items: Seq<RunbookStepView>) -> JsonView {
    JsonView::Array(items.map_values(|item: RunbookStepView| step_json(item)))
}

fn write_steps(given: &Vec<RunbookStep>) -> (value: Json)
    ensures
        value@ == steps_json(views(given@)),
{
    let mut items: Vec<Json> = Vec::new();
    let mut i: usize = 0;
    while i < given.len()
        invariant
            i <= given@.len(),
            items@.len() == i,
            forall|k: int| 0 <= k < i ==> (#[trigger] items@[k])@ == step_json(given@[k]@),
        decreases given.len() - i,
    {
        items.push(given[i].to_json());
        i = i + 1;
    }
    proof {
        lemma_array_view(items);
        assert(views(items@) =~= views(given@).map_values(|item: RunbookStepView| step_json(item)));
    }
    Json::Array(items)
}

proof fn lemma_steps_round_trip(items: Seq<RunbookStepView>, n: int)
    requires
        0 <= n <= items.len(),
    ensures
        steps_from(steps_json(items)->Array_0, n) == Ok::<Seq<RunbookStepView>, Seq<char>>(items.take(n)),
    decreases n,
{
    if n <= 0 {
        assert(items.take(0) =~= Seq::empty());
    } else {
        lemma_steps_round_trip(items, n - 1);
        law_runbook_step_round_trip(items[n - 1]);
        assert(steps_json(items)->Array_0[n - 1] == step_json(items[n - 1]));
        assert(items.take(n - 1).push(items[n - 1]) =~= items.take(n));
    }
}

/// The provider plan that a JSON value is read as.
pub open spec fn plan_from(value: JsonView) -> Result<ProviderPlanView, Seq<char>> {
    match needed_text(value, "instance_name"@) {
        Err(message) => Err(message),
        Ok(instance_name) => match needed_text(value, "provider_type"@) {
            Err(message) => Err(message),
            Ok(provider_type) => match needed_changes(value, "changes"@) {
                Err(message) => Err(message),
                Ok(changes) => match needed_steps(value, "runbook"@) {
                    Err(message) => Err(message),
                    Ok(runbook) => Ok(
                        ProviderPlanView { instance_name, provider_type, changes, runbook },
                    ),
                },
            },
        },
    }
}

/// The JSON form of a provider plan.
pub open spec fn plan_json(plan: ProviderPlanView) -> JsonView {
    JsonView::Object(
        put(
            put(
                put(
                    put(Seq::empty(), "instance_name"@, JsonView::String(plan.instance_name)),
                    "provider_type"@,
                    JsonView::String(plan.provider_type),
                ),
                "changes"@,
                changes_json(plan.changes),
            ),
            "runbook"@,
            steps_json(plan.runbook),
        ),
    )
}

impl ProviderPlan {
    /// Reads a provider plan from its JSON form.
    pub fn from_json(value: &Json) -> (plan: Result<ProviderPlan, String>)
        ensures
            result_view(plan) == plan_from(value@),
    {
        let instance_name = match need_text(value, "instance_name") {
            Ok(instance_name) => instance_name,
            Err(message) => {
                return Err(message);
            }
        };
        let provider_type = match need_text(value, "provider_type") {
            Ok(provider_type) => provider_type,
            Err(message) => {
                return Err(message);
            }
        };
        let changes = match need_changes(value, "changes") {
            Ok(changes) => changes,
            Err(message) => {
                return Err(message);
            }
        };
        let runbook = match need_steps(value, "runbook") {
            Ok(runbook) => runbook,
            Err(message) => {
                return Err(message);
            }
        };
        Ok(ProviderPlan { instance_name, provider_type, changes, runbook })
    }

    /// The JSON form of this plan.
    pub fn to_json(&self) -> (value: Json)
        ensures
            value@ == plan_json(self@),
    {
        Json::empty_object().with_member(
            "instance_name",
            Json::String(self.instance_name.clone()),
        ).with_member("provider_type", Json::String(self.provider_type.clone())).with_member(
            "changes",
            write_changes(&self.changes),
        ).with_member("runbook", write_steps(&self.runbook))
    }
}

/// A provider plan is read back from its JSON form as it was written.
pub proof fn law_plan_round_trip(plan: ProviderPlanView)
    ensures
        plan_from(plan_json(plan)) == Ok::<ProviderPlanView, Seq<char>>(plan),
{
    reveal_strlit("instance_name");
    reveal_strlit("provider_type");
    reveal_strlit("changes");
    reveal_strlit("runbook");
    assert("instance_name"@.len() == 13 && "provider_type"@.len() == 13);
    assert("instance_name"@[0] != "provider_type"@[0]);
    assert("changes"@.len() == 7 && "runbook"@.len() == 7);
    assert("changes"@[0] != "runbook"@[0]);
    let empty = Seq::<(Seq<char>, JsonView)>::empty();
    let first = put(empty, "instance_name"@, JsonView::String(plan.instance_name));
    let second = put(first, "provider_type"@, JsonView::String(plan.provider_type));
    let third = put(second, "changes"@, changes_json(plan.changes));
    lemma_lookups_put(empty, "instance_name"@, JsonView::String(plan.instance_name));
    lemma_lookups_put(first, "provider_type"@, JsonView::String(plan.provider_type));
    lemma_lookups_put(second, "changes"@, changes_json(plan.changes));
    lemma_lookups_put(third, "runbook"@, steps_json(plan.runbook));
    lemma_changes_round_trip(plan.changes, plan.changes.len() as int);
    lemma_steps_round_trip(plan.runbook, plan.runbook.len() as int);
    assert(plan.changes.take(plan.changes.len() as int) =~= plan.changes);
    assert(plan.runbook.take(plan.runbook.len() as int) =~= plan.runbook);
}

/// The report that a JSON value is read as.
pub open spec fn report_from(value: JsonView) -> Result<ApplyReportView, Seq<char>> {
    match needed_texts(value, "created"@) {
        Err(message) => Err(message),
        Ok(created) => match needed_texts(value, "modified"@) {
            Err(message) => Err(message),
            Ok(modified) => match needed_texts(value, "deleted"@) {
                Err(message) => Err(message),
                Ok(deleted) => Ok(ApplyReportView { created, modified, deleted }),
            },
        },
    }
}

/// The JSON form of a report.
pub open spec fn report_json(report: ApplyReportView) -> JsonView {
    JsonView::Object(
        put(
            put(
                put(Seq::empty(), "created"@, texts_json(report.created)),
                "modified"@,
                texts_json(report.modified),
            ),
            "deleted"@,
            texts_json(report.deleted),
        ),
    )
}

impl ApplyReport {
    /// Reads a report from its JSON form.
    pub fn from_json(value: &Json) -> (report: Result<ApplyReport, String>)
        ensures
            result_view(report) == report_from(value@),
    {
        let created = match need_texts(value, "created") {
            Ok(created) => created,
            Err(message) => {
                return Err(message);
            }
        };
        let modified = match need_texts(value, "modified") {
            Ok(modified) => modified,
            Err(message) => {
                return Err(message);
            }
        };
        let deleted = match need_texts(value, "deleted") {
            Ok(deleted) => deleted,
            Err(message) => {
                return Err(message);
            }
        };
        Ok(ApplyReport { created, modified, deleted })
    }

    /// The JSON form of this report.
    pub fn to_json(&self) -> (value: Json)
        ensures
            value@ == report_json(self@),
    {
        Json::empty_object().with_member("created", write_texts(&self.created)).with_member(
            "modified",
            write_texts(&self.modified),
        ).with_member("deleted", write_texts(&self.deleted))
    }

    /// A copy of this report.
    pub fn copy(&self) -> (copy: ApplyReport)
        ensures
            copy@ == self@,
    {
        ApplyReport {
            created: copy_texts(&self.created),
            modified: copy_texts(&self.modified),
            deleted: copy_texts(&self.deleted),
        }
    }
}

/// A report is read back from its JSON form as it was written.
pub proof fn law_report_round_trip(report: ApplyReportView)
    ensures
        report_from(report_json(report)) == Ok::<ApplyReportView, Seq<char>>(report),
{
    reveal_strlit("created");
    reveal_strlit("modified");
    reveal_strlit("deleted");
    assert("created"@.len() == 7 && "modified"@.len() == 8 && "deleted"@.len() == 7);
    assert("created"@[0] != "deleted"@[0]);
    let empty = Seq::<(Seq<char>, JsonView)>::empty();
    let first = put(empty, "created"@, texts_json(report.created));
    let second = put(first, "modified"@, texts_json(report.modified));
    lemma_lookups_put(empty, "created"@, texts_json(report.created));
    lemma_lookups_put(first, "modified"@, texts_json(report.modified));
    lemma_lookups_put(second, "deleted"@, texts_json(report.deleted));
    lemma_texts_round_trip(report.created, report.created.len() as int);
    lemma_texts_round_trip(report.modified, report.modified.len() as int);
    lemma_texts_round_trip(report.deleted, report.deleted.len() as int);
    assert(report.created.take(report.created.len() as int) =~= report.created);
    assert(report.modified.take(report.modified.len() as int) =~= report.modified);
    assert(report.deleted.take(report.deleted.len() as int) =~= report.deleted);
}

} // verus!
