//! A fake provider for testing wave ordering and parallel execution.
//!
//! [`FakeProvider`] always plans one synthetic change, so that it is always applied, and reports
//! it.  How long applying it is to take stands in its configuration; the driver waits that long
//! and keeps an [`ApplyRecord`], so that overlap and sequencing can be looked at.

use crate::field_value::{value_text, ResolvedFieldValueView};
use crate::json::{Json, JsonView};
use crate::meta::NixHapiMeta;
use crate::plan::{
    ApplyReport, ApplyReportView, FieldDiff, FieldDiffView, ProviderPlan, ProviderPlanView,
    ResourceChange, ResourceChangeView, RunbookStep, RunbookStepView,
};
use crate::provider::{Filter, Provider, ProviderError, ResolvedConfig};
use crate::strmap::{entry_views, lemma_views_lookup, lookup, put};
use crate::text::{parse_u64, parsed_u64};
use crate::views::views;
use vstd::prelude::*;

verus! {

/// Timing record of one application, in ticks of one clock.
#[derive(Debug, PartialEq)]
pub struct ApplyRecord {
    pub instance_name: String,
    pub started_at: u64,
    pub finished_at: u64,
}

/// The half-open intervals `[start, end)` of two records overlap.
pub open spec fn overlap(a: ApplyRecord, b: ApplyRecord) -> bool {
    a.started_at < b.finished_at && b.started_at < a.finished_at
}

impl ApplyRecord {
    /// Whether this record's execution interval overlaps with that of `other`.
    pub fn overlaps_with(&self, other: &ApplyRecord) -> (overlapping: bool)
        ensures
            overlapping == overlap(*self, *other),
    {
        self.started_at < other.finished_at && other.started_at < self.finished_at
    }
}

/// Overlap is mutual.
pub proof fn law_overlap_is_mutual(a: ApplyRecord, b: ApplyRecord)
    ensures
        overlap(a, b) == overlap(b, a),
{
}

/// Two records with time in them overlap exactly if there is a moment that lies in both.
pub proof fn law_overlap_shares_a_moment(a: ApplyRecord, b: ApplyRecord)
    requires
        a.started_at < a.finished_at,
        b.started_at < b.finished_at,
    ensures
        overlap(a, b) <==> exists|t: u64|
            a.started_at <= t < a.finished_at && #[trigger] in_interval(b, t),
{
    if overlap(a, b) {
        let t = if a.started_at < b.started_at {
            b.started_at
        } else {
            a.started_at
        };
        assert(in_interval(b, t));
    }
}

/// The moment lies in the record's interval.
pub open spec fn in_interval(record: ApplyRecord, t: u64) -> bool {
    record.started_at <= t < record.finished_at
}

/// A provider that always has one thing to add.  Suitable only for tests.
#[derive(Debug, PartialEq)]
pub struct FakeProvider {
    /// What it says the live state is.
    pub live_state: Json,
}

/// The plan that the fake provider makes: one resource to add, in one step.
pub open spec fn fake_plan() -> ProviderPlanView {
    ProviderPlanView {
        instance_name: Seq::empty(),
        provider_type: "fake"@,
        changes: seq![
            ResourceChangeView::Add {
                resource_id: "fake-resource"@,
                fields: seq![
                    FieldDiffView { field: "synthetic"@, from: None, to: Some("true"@) },
                ],
            },
        ],
        runbook: seq![
            RunbookStepView {
                order: 0,
                description: "Create fake resource"@,
                command: "fake-add fake-resource"@,
                body: None,
                operation: JsonView::Object(
                    put(
                        put(Seq::empty(), "action"@, JsonView::String("add"@)),
                        "id"@,
                        JsonView::String("fake-resource"@),
                    ),
                ),
            },
        ],
    }
}

/// The report that the fake provider gives.
pub open spec fn fake_report() -> ApplyReportView {
    ApplyReportView {
        created: seq!["fake-resource"@],
        modified: Seq::empty(),
        deleted: Seq::empty(),
    }
}

/// How long applying is to take, in milliseconds: the number in the field `delayMs`, and zero
/// where there is none.
pub open spec fn delay(config: Seq<(Seq<char>, ResolvedFieldValueView)>) -> u64 {
    match lookup(config, "delayMs"@) {
        Some(value) => match value_text(value) {
            Some(text) => match parsed_u64(text) {
                Some(n) => n,
                None => 0,
            },
            None => 0,
        },
        None => 0,
    }
}

impl FakeProvider {
    /// A provider with an empty live state.
    pub fn new() -> (provider: FakeProvider)
        ensures
            provider.live_state@ == JsonView::Object(Seq::empty()),
    {
        FakeProvider { live_state: Json::empty_object() }
    }

    /// A provider with the given live state.
    pub fn with_live_state(live_state: Json) -> (provider: FakeProvider)
        ensures
            provider.live_state == live_state,
    {
        FakeProvider { live_state }
    }

    /// How long applying is to take, in milliseconds.
    pub fn delay_ms(config: &ResolvedConfig) -> (ms: u64)
        ensures
            ms == delay(entry_views(config@)),
    {
        proof {
            lemma_views_lookup(config@, "delayMs"@);
        }
        match config.get("delayMs") {
            Some(value) => match value.value() {
                Some(text) => match parse_u64(text) {
                    Some(n) => n,
                    None => 0,
                },
                None => 0,
            },
            None => 0,
        }
    }

    /// The record of one application.
    pub fn record(plan: &ProviderPlan, started_at: u64, finished_at: u64) -> (record: ApplyRecord)
        ensures
            record.instance_name@ == plan@.instance_name,
            record.started_at == started_at,
            record.finished_at == finished_at,
    {
        ApplyRecord { instance_name: plan.instance_name.clone(), started_at, finished_at }
    }
}

impl Provider for FakeProvider {
    fn provider_type(&self) -> (name: &str)
        ensures
            name@ == "fake"@,
    {
        "fake"
    }

    fn sensitive_config_fields(&self) -> (fields: &[&str])
        ensures
            fields@.len() == 0,
    {
        &[]
    }

    fn list_live(&self, config: &ResolvedConfig, filters: &[Filter]) -> (live: Result<
        Json,
        ProviderError,
    >)
        ensures
            live matches Ok(live) && live@ == self.live_state@,
    {
        Ok(self.live_state.copy())
    }

    fn plan(
        &self,
        desired: &Json,
        live: &Json,
        meta: &NixHapiMeta,
        config: &ResolvedConfig,
    ) -> (plan: Result<ProviderPlan, ProviderError>)
        ensures
            plan matches Ok(plan) && plan@ == fake_plan(),
    {
        let mut fields: Vec<FieldDiff> = Vec::new();
        fields.push(
            FieldDiff { field: "synthetic".to_owned(), from: None, to: Some("true".to_owned()) },
        );
        let mut changes: Vec<ResourceChange> = Vec::new();
        changes.push(ResourceChange::Add { resource_id: "fake-resource".to_owned(), fields });
        let operation = Json::empty_object().with_member(
            "action",
            Json::String("add".to_owned()),
        ).with_member("id", Json::String("fake-resource".to_owned()));
        let mut runbook: Vec<RunbookStep> = Vec::new();
        runbook.push(
            RunbookStep {
                order: 0,
                description: "Create fake resource".to_owned(),
                command: "fake-add fake-resource".to_owned(),
                body: None,
                operation,
            },
        );
        let plan = ProviderPlan {
            instance_name: String::new(),
            provider_type: "fake".to_owned(),
            changes,
            runbook,
        };
        proof {
            assert(plan@.instance_name =~= Seq::empty());
            assert(views(fields@) =~= fake_plan().changes[0]->Add_fields);
            assert(plan@.changes =~= fake_plan().changes);
            assert(plan@.runbook =~= fake_plan().runbook);
        }
        Ok(plan)
    }

    fn apply(&self, plan: &ProviderPlan, config: &ResolvedConfig) -> (report: Result<
        ApplyReport,
        ProviderError,
    >)
        ensures
            report matches Ok(report) && report@ == fake_report(),
    {
        let mut created: Vec<String> = Vec::new();
        created.push("fake-resource".to_owned());
        let report = ApplyReport { created, modified: Vec::new(), deleted: Vec::new() };
        proof {
            assert(report@.created =~= fake_report().created);
            assert(report@.modified =~= Seq::empty());
            assert(report@.deleted =~= Seq::empty());
        }
        Ok(report)
    }
}

} // verus!
