//! What the work on instances is for: what a provider is given, and what becomes of its answers.

use crate::dag::{may_have_waves, DagErrorView};
use crate::derived::{tree_settles, DerivedFromErrorView};
use crate::derived_laws::{at_path, free_path, law_every_node_is_resolved_in_place};
use crate::executor::{
    apply_after_wave, apply_begins, apply_wave, call_after, config_files, config_variables,
    data_members, desired_state, errors_of, law_planning_only_plans, may_end, may_plan,
    may_reconcile, outcome_of, plan_after_wave, plan_begins, plan_wave, plans_of, prepared,
    scope_data, scope_meta, stepped, successes_of, worked, ApplyRunView, ExecuteError, ExecuteErrorView,
    Goal, InstanceOutcomeView, InstanceWork, PlanRunView, Prepared, PreparedView, ProviderAnswer,
};
use crate::field_value::{
    resolved, FieldValueErrorView, FieldValueView, ResolvedFieldValueView,
};
use crate::json::{member, parsed_json, Json, JsonView};
use crate::meta::{meta_from, NixHapiMetaView};
use crate::meta_laws::law_config_is_resolved_field_by_field;
use crate::plan::{ApplyReport, ProviderPlan, ProviderPlanView};
use crate::provider::{config_resolved, Filter, Provider, ProviderError, ProviderErrorView};
use crate::sources::SourcesView;
use crate::strmap::{lemma_lookup_push, lookup};
use crate::views::result_view;
use vstd::prelude::*;

verus! {

proof fn lemma_data_lookup(entries: Seq<(Seq<char>, JsonView)>, n: int, key: Seq<char>)
    requires
        0 <= n <= entries.len(),
    ensures
        lookup(data_members(entries, n), key) == if key == "__nixhapi"@ {
            None
        } else {
            lookup(entries.take(n), key)
        },
    decreases n,
{
    if n > 0 {
        lemma_data_lookup(entries, n - 1, key);
        assert(entries.take(n) =~= entries.take(n - 1).push(entries[n - 1]));
        lemma_lookup_push(entries.take(n - 1), entries[n - 1], key);
        lemma_lookup_push(data_members(entries, n - 1), entries[n - 1], key);
    } else {
        assert(entries.take(0) =~= Seq::empty());
    }
}

/// The data of a scope has exactly the members of the scope other than `__nixhapi`, whatever their
/// values are.
pub proof fn law_data_is_the_scope_without_directives(
    entries: Seq<(Seq<char>, JsonView)>,
    key: Seq<char>,
)
    ensures
        scope_data(JsonView::Object(entries)) is Object,
        member(scope_data(JsonView::Object(entries)), key) == if key == "__nixhapi"@ {
            None
        } else {
            lookup(entries, key)
        },
{
    assert(entries.take(entries.len() as int) =~= entries);
    lemma_data_lookup(entries, entries.len() as int, key);
}

/// The members of the data stand in the order in which they stand in the scope.
pub proof fn law_data_keeps_the_order(entries: Seq<(Seq<char>, JsonView)>, n: int) -> (at: Seq<int>)
    requires
        0 <= n <= entries.len(),
    ensures
        at.len() == data_members(entries, n).len(),
        forall|i: int, j: int| 0 <= i < j < at.len() ==> #[trigger] at[i] < #[trigger] at[j],
        forall|i: int|
            0 <= i < at.len() ==> 0 <= #[trigger] at[i] < n && data_members(entries, n)[i]
                == entries[at[i]],
    decreases n,
{
    if n <= 0 {
        Seq::empty()
    } else {
        let before = law_data_keeps_the_order(entries, n - 1);
        if entries[n - 1].0 == "__nixhapi"@ {
            before
        } else {
            before.push(n - 1)
        }
    }
}

/// The directives of a scope are what its `__nixhapi` member is read as, where that is an object;
/// a scope without such a member has none.
pub proof fn law_directives_are_those_of_the_scope(
    instance: Seq<char>,
    entries: Seq<(Seq<char>, JsonView)>,
)
    ensures
        match lookup(entries, "__nixhapi"@) {
            Some(JsonView::Object(block)) => match meta_from(JsonView::Object(block)) {
                Ok(meta) => scope_meta(instance, JsonView::Object(entries)) == Ok::<
                    NixHapiMetaView,
                    ExecuteErrorView,
                >(meta),
                Err(message) => scope_meta(instance, JsonView::Object(entries)) == Err::<
                    NixHapiMetaView,
                    ExecuteErrorView,
                >(ExecuteErrorView::MetadataParse { instance, message }),
            },
            _ => scope_meta(instance, JsonView::Object(entries)) matches Ok(meta) && meta.provider
                is None && meta.ignore.len() == 0 && meta.depends_on.len() == 0,
        },
{
}

/// An instance is prepared from its own scope: its provider and the directives are those that are
/// declared there, the configuration is resolved field by field, and the data is the scope
/// without the directives.
pub proof fn law_instance_is_prepared_from_its_scope(
    instance: Seq<char>,
    root: JsonView,
    sources: SourcesView,
    ready: PreparedView,
    key: Seq<char>,
)
    requires
        prepared(instance, root, sources) == Ok::<PreparedView, ExecuteErrorView>(ready),
    ensures
        member(root, instance) is Some,
        member(root, instance)->0 is Object,
        member(member(root, instance)->0, "__nixhapi"@) is Some,
        meta_from(member(member(root, instance)->0, "__nixhapi"@)->0) == Ok::<
            NixHapiMetaView,
            Seq<char>,
        >(ready.meta),
        ready.data is Object,
        member(ready.data, key) == if key == "__nixhapi"@ {
            None
        } else {
            member(member(root, instance)->0, key)
        },
        ready.meta.provider is Some,
        ready.provider_type == ready.meta.provider->0.provider_type,
        ({
            let raw = ready.meta.provider->0.config;
            ready.config.len() == raw.len() && forall|k: int|
                0 <= k < raw.len() ==> (#[trigger] ready.config[k]).0 == raw[k].0 && resolved(
                    raw[k].1,
                    sources,
                ) == Ok::<ResolvedFieldValueView, FieldValueErrorView>(ready.config[k].1)
        }),
{
    let scope = member(root, instance)->0;
    let raw = ready.meta.provider->0.config;
    law_data_is_the_scope_without_directives(scope->Object_0, key);
    law_config_is_resolved_field_by_field(raw, sources, raw.len() as int);
}

/// An instance cannot be prepared only where it is missing, its directives cannot be read, it
/// declares no provider, or a field of the configuration cannot be resolved; the error tells
/// which.
pub proof fn law_unprepared_instance_is_told_why(
    instance: Seq<char>,
    root: JsonView,
    sources: SourcesView,
)
    ensures
        member(root, instance) is None ==> prepared(instance, root, sources) == Err::<
            PreparedView,
            ExecuteErrorView,
        >(ExecuteErrorView::MissingInstance { instance }),
        prepared(instance, root, sources) matches Err(error) ==> match error {
            ExecuteErrorView::MissingInstance { instance: told } => told == instance && member(
                root,
                instance,
            ) is None,
            ExecuteErrorView::MetadataParse { instance: told, message } => told == instance
                && meta_from(member(member(root, instance)->0, "__nixhapi"@)->0) == Err::<
                NixHapiMetaView,
                Seq<char>,
            >(message),
            ExecuteErrorView::MissingProvider { instance: told } => told == instance && !(member(
                member(root, instance)->0,
                "__nixhapi"@,
            ) is Some && meta_from(member(member(root, instance)->0, "__nixhapi"@)->0) is Ok
                && member(member(root, instance)->0, "__nixhapi"@)->0 is Object && meta_from(
                member(member(root, instance)->0, "__nixhapi"@)->0,
            )->Ok_0.provider is Some),
            ExecuteErrorView::ConfigResolution { instance: told, source } => told == instance && {
                let raw = meta_from(
                    member(member(root, instance)->0, "__nixhapi"@)->0,
                )->Ok_0.provider->0.config;
                source is ConfigResolution && exists|k: int|
                    0 <= k < raw.len() && (#[trigger] raw[k]).0 == source->ConfigResolution_field
                        && resolved(raw[k].1, sources) == Err::<
                        ResolvedFieldValueView,
                        FieldValueErrorView,
                    >(source->ConfigResolution_source)
            },
            _ => false,
        },
{
    if let Some(scope) = member(root, instance) {
        if let Ok(meta) = scope_meta(instance, scope) {
            if let Some(spec) = meta.provider {
                law_config_is_resolved_field_by_field(
                    spec.config,
                    sources,
                    spec.config.len() as int,
                );
                if config_resolved(spec.config, sources, spec.config.len() as int) is Err {
                    let raw = spec.config;
                    let k = choose|k: int|
                        0 <= k < raw.len() && resolved((#[trigger] raw[k]).1, sources) is Err
                            && config_resolved(raw, sources, raw.len() as int)->Err_0 == (
                        ProviderErrorView::ConfigResolution {
                            field: raw[k].0,
                            source: resolved(raw[k].1, sources)->Err_0,
                        });
                    assert(raw[k].0 == raw[k].0);
                }
            }
        }
    }
}

/// The files and variables that are to be read for a configuration are those that its fields name,
/// all of them and no others.
pub proof fn law_config_sources_are_those_named(
    config: Seq<(Seq<char>, FieldValueView)>,
    n: int,
    name: Seq<char>,
)
    requires
        0 <= n <= config.len(),
    ensures
        config_files(config, n).contains(name) <==> exists|k: int|
            0 <= k < n && ((#[trigger] config[k]).1 == (FieldValueView::ManagedFromPath {
                path: name,
            }) || config[k].1 == (FieldValueView::InitialFromPath { path: name })),
        config_variables(config, n).contains(name) <==> exists|k: int|
            0 <= k < n && ((#[trigger] config[k]).1 == (FieldValueView::ManagedFromEnv { env: name })
                || config[k].1 == (FieldValueView::InitialFromEnv { env: name })),
    decreases n,
{
    if n > 0 {
        law_config_sources_are_those_named(config, n - 1, name);
        let last = config[n - 1].1;
        let files = config_files(config, n);
        let old_files = config_files(config, n - 1);
        let variables = config_variables(config, n);
        let old_variables = config_variables(config, n - 1);
        if old_files.contains(name) {
            let i = choose|i: int| 0 <= i < old_files.len() && old_files[i] == name;
            assert(files[i] == name);
        }
        if old_variables.contains(name) {
            let i = choose|i: int| 0 <= i < old_variables.len() && old_variables[i] == name;
            assert(variables[i] == name);
        }
        if last == (FieldValueView::ManagedFromPath { path: name }) || last == (
        FieldValueView::InitialFromPath { path: name }) {
            assert(files[files.len() - 1] == name);
        }
        if last == (FieldValueView::ManagedFromEnv { env: name }) || last == (
        FieldValueView::InitialFromEnv { env: name }) {
            assert(variables[variables.len() - 1] == name);
        }
        if files.contains(name) && !old_files.contains(name) {
            let i = choose|i: int| 0 <= i < files.len() && files[i] == name;
            if i < old_files.len() {
                assert(old_files[i] == name);
            }
            assert(config[n - 1].1 == last);
        }
        if variables.contains(name) && !old_variables.contains(name) {
            let i = choose|i: int| 0 <= i < variables.len() && variables[i] == name;
            if i < old_variables.len() {
                assert(old_variables[i] == name);
            }
            assert(config[n - 1].1 == last);
        }
    }
}

/// The desired state is the JSON object that the text holds; any other text is refused.
pub proof fn law_desired_state_is_an_object(text: Seq<char>)
    ensures
        match parsed_json(text) {
            Ok(JsonView::Object(entries)) => desired_state(text) == Ok::<JsonView, Seq<char>>(
                JsonView::Object(entries),
            ),
            Ok(_) => desired_state(text) is Err,
            Err(message) => desired_state(text) == Err::<JsonView, Seq<char>>(message),
        },
{
}

/// That an instance came through: its plan was applied and its live state was had afterwards.
pub open spec fn succeeded(outcome: InstanceOutcomeView) -> bool {
    outcome is Applied && outcome->Applied_live is Ok
}

/// The error of an instance that did not come through: its own, or that its live state could not
/// be had.
pub open spec fn error_of(outcome: InstanceOutcomeView) -> ExecuteErrorView {
    match outcome {
        InstanceOutcomeView::Failed(error) => error,
        InstanceOutcomeView::Applied { name, live, .. } => ExecuteErrorView::ProviderOperation {
            instance: name,
            source: live->Err_0,
        },
    }
}

proof fn lemma_told(outcomes: Seq<InstanceOutcomeView>, n: int, i: int)
    requires
        0 <= i < n <= outcomes.len(),
    ensures
        succeeded(outcomes[i]) ==> successes_of(outcomes, n).contains(
            (outcomes[i]->Applied_name, outcomes[i]->Applied_report),
        ),
        !succeeded(outcomes[i]) ==> errors_of(outcomes, n).contains(error_of(outcomes[i])),
    decreases n,
{
    let errors = errors_of(outcomes, n);
    let reports = successes_of(outcomes, n);
    if i == n - 1 {
        if succeeded(outcomes[i]) {
            assert(reports[reports.len() - 1] == (
                outcomes[i]->Applied_name,
                outcomes[i]->Applied_report,
            ));
        } else {
            assert(errors[errors.len() - 1] == error_of(outcomes[i]));
        }
    } else {
        lemma_told(outcomes, n - 1, i);
        let old_errors = errors_of(outcomes, n - 1);
        let old_reports = successes_of(outcomes, n - 1);
        if succeeded(outcomes[i]) {
            let entry = (outcomes[i]->Applied_name, outcomes[i]->Applied_report);
            let k = choose|k: int| 0 <= k < old_reports.len() && old_reports[k] == entry;
            assert(reports[k] == entry);
        } else {
            let error = error_of(outcomes[i]);
            let k = choose|k: int| 0 <= k < old_errors.len() && old_errors[k] == error;
            assert(errors[k] == error);
        }
    }
}

proof fn lemma_counted(outcomes: Seq<InstanceOutcomeView>, n: int)
    requires
        0 <= n <= outcomes.len(),
    ensures
        errors_of(outcomes, n).len() + successes_of(outcomes, n).len() == n,
        errors_of(outcomes, n).len() == 0 <==> forall|i: int|
            0 <= i < n ==> succeeded(#[trigger] outcomes[i]),
    decreases n,
{
    if n > 0 {
        lemma_counted(outcomes, n - 1);
        if errors_of(outcomes, n).len() == 0 {
            assert(succeeded(outcomes[n - 1]));
        }
    }
}

/// A wave of which every instance came through lets the run go on; a wave of which any did not
/// ends it, and then the error of each that did not and the report of each that did are told, one
/// for each instance.
pub proof fn law_a_wave_tells_of_every_instance(
    run: ApplyRunView,
    outcomes: Seq<InstanceOutcomeView>,
    i: int,
)
    requires
        0 <= i < outcomes.len(),
    ensures
        apply_after_wave(run, outcomes) is Ok <==> forall|k: int|
            0 <= k < outcomes.len() ==> succeeded(#[trigger] outcomes[k]),
        match apply_after_wave(run, outcomes) {
            Ok(after) => after.waves == run.waves && after.done == run.done + 1
                && after.active_root == run.active_root && after.reports.len() == run.reports.len()
                + outcomes.len() && after.reports.contains(
                (outcomes[i]->Applied_name, outcomes[i]->Applied_report),
            ),
            Err(error) => error is PartialWaveFailure
                && error->PartialWaveFailure_errors.len()
                + error->PartialWaveFailure_successful_reports.len() == outcomes.len() && if succeeded(
                outcomes[i],
            ) {
                error->PartialWaveFailure_successful_reports.contains(
                    (outcomes[i]->Applied_name, outcomes[i]->Applied_report),
                )
            } else {
                error->PartialWaveFailure_errors.contains(error_of(outcomes[i]))
            },
        },
{
    let n = outcomes.len() as int;
    lemma_counted(outcomes, n);
    lemma_told(outcomes, n, i);
    if apply_after_wave(run, outcomes) is Ok {
        assert(succeeded(outcomes[i]));
        let added = successes_of(outcomes, n);
        let entry = (outcomes[i]->Applied_name, outcomes[i]->Applied_report);
        let k = choose|k: int| 0 <= k < added.len() && added[k] == entry;
        assert((run.reports + added)[run.reports.len() + k] == entry);
    }
}

proof fn lemma_planned(outcomes: Seq<Result<ProviderPlanView, ExecuteErrorView>>, n: int)
    requires
        0 <= n <= outcomes.len(),
    ensures
        match plans_of(outcomes, n) {
            Ok(plans) => plans.len() == n && forall|k: int|
                0 <= k < n ==> (#[trigger] outcomes[k]) == Ok::<ProviderPlanView, ExecuteErrorView>(
                    plans[k],
                ),
            Err(error) => exists|k: int|
                0 <= k < n && (#[trigger] outcomes[k]) == Err::<ProviderPlanView, ExecuteErrorView>(
                    error,
                ) && forall|j: int| 0 <= j < k ==> (#[trigger] outcomes[j]) is Ok,
        },
    decreases n,
{
    if n > 0 {
        lemma_planned(outcomes, n - 1);
        if plans_of(outcomes, n - 1) is Ok && outcomes[n - 1] is Err {
            assert(outcomes[n - 1] == Err::<ProviderPlanView, ExecuteErrorView>(
                outcomes[n - 1]->Err_0,
            ));
        }
    }
}

/// A wave of which every instance was planned adds its plans, in the order of the wave, behind
/// those before; otherwise the run ends with the first error.
pub proof fn law_a_wave_adds_its_plans(
    run: PlanRunView,
    outcomes: Seq<Result<ProviderPlanView, ExecuteErrorView>>,
)
    ensures
        match plan_after_wave(run, outcomes) {
            Ok(after) => after.waves == run.waves && after.done == run.done + 1 && after.plan.len()
                == run.plan.len() + outcomes.len() && (forall|k: int|
                0 <= k < run.plan.len() ==> #[trigger] after.plan[k] == run.plan[k]) && (forall|
                k: int,
            |
                0 <= k < outcomes.len() ==> (#[trigger] outcomes[k]) == Ok::<
                    ProviderPlanView,
                    ExecuteErrorView,
                >(after.plan[run.plan.len() + k])),
            Err(error) => exists|k: int|
                0 <= k < outcomes.len() && (#[trigger] outcomes[k]) == Err::<
                    ProviderPlanView,
                    ExecuteErrorView,
                >(error) && forall|j: int| 0 <= j < k ==> (#[trigger] outcomes[j]) is Ok,
        },
{
    lemma_planned(outcomes, outcomes.len() as int);
}

/// Before a wave is handed out, every node of the active root that is not under a field value is
/// resolved in its place against what is crystalized by then; the wave is the one that is due.
pub proof fn law_fields_are_resolved_before_the_wave(
    run: ApplyRunView,
    ready: ApplyRunView,
    names: Seq<Seq<char>>,
    path: Seq<int>,
)
    requires
        apply_wave(
            run,
            Ok::<(ApplyRunView, Option<Seq<Seq<char>>>), ExecuteErrorView>((ready, Some(names))),
        ),
        free_path(run.active_root, path),
    ensures
        0 <= run.done ==> run.done < run.waves.len() && names == run.waves[run.done],
        ready.waves == run.waves,
        ready.done == run.done,
        ready.crystalized == run.crystalized,
        ready.reports == run.reports,
        at_path(run.active_root, path) is Some,
        at_path(ready.active_root, path) is Some,
        tree_settles(
            at_path(run.active_root, path)->0,
            run.crystalized,
            Ok::<JsonView, DerivedFromErrorView>(at_path(ready.active_root, path)->0),
        ),
{
    law_every_node_is_resolved_in_place(run.active_root, run.crystalized, ready.active_root, path);
}

/// That the provider may list the live state so, without filters.
pub open spec fn lists<P: Provider + ?Sized>(
    provider: &P,
    ready: Prepared,
    live: Result<Json, ProviderError>,
) -> bool {
    exists|filters: &[Filter]| #[trigger]
        call_ensures(P::list_live, (provider, &ready.config, filters), live) && filters@.len() == 0
}

/// That the provider may plan so, from the data of the instance and a live state that it listed.
pub open spec fn plans_from<P: Provider + ?Sized>(
    provider: &P,
    ready: Prepared,
    live: Json,
    plan: Result<ProviderPlan, ProviderError>,
) -> bool {
    &&& lists(provider, ready, Ok::<Json, ProviderError>(live))
    &&& call_ensures(P::plan, (provider, &ready.data, &live, &ready.meta, &ready.config), plan)
}

/// The plan of an instance is the one that its provider gave for the data of the instance and the
/// live state that it listed, with the instance's name and nothing else changed; where planning
/// fails, the provider failed, and its error is told with the name of the instance.
pub proof fn law_plan_is_that_of_the_provider<P: Provider + ?Sized>(
    instance: Seq<char>,
    ready: Prepared,
    provider: &P,
    outcome: Result<ProviderPlanView, ExecuteErrorView>,
)
    requires
        may_plan(instance, ready, provider, outcome),
    ensures
        match outcome {
            Ok(plan) => exists|live: Json, given: ProviderPlan| #[trigger]
                plans_from(provider, ready, live, Ok::<ProviderPlan, ProviderError>(given)) && plan
                    == (ProviderPlanView {
                    instance_name: instance,
                    provider_type: given@.provider_type,
                    changes: given@.changes,
                    runbook: given@.runbook,
                }),
            Err(error) => exists|source: ProviderError| #[trigger]
                provider_failed(provider, ready, source) && error == (
                ExecuteErrorView::ProviderOperation { instance, source: source@ }),
        },
{
    let end = choose|end: InstanceWork| #[trigger]
        may_end(Goal::Plan, instance, ready, provider, end) && match end {
            InstanceWork::Planned(plan) => outcome == Ok::<ProviderPlanView, ExecuteErrorView>(
                plan@,
            ),
            InstanceWork::Failed(error) => outcome == Err::<ProviderPlanView, ExecuteErrorView>(
                error@,
            ),
            _ => false,
        };
    let (works, answers) = choose|works: Seq<InstanceWork>, answers: Seq<ProviderAnswer>| #[trigger]
        worked(Goal::Plan, instance, ready, provider, works, answers) && works.last() == end;
    let n = answers.len() as int;
    law_planning_only_plans(instance, ready, provider, works, answers, n);
    law_planning_only_plans(instance, ready, provider, works, answers, n - 1);
    lemma_step(Goal::Plan, instance, ready, provider, works, answers, 0);
    if n >= 2 {
        law_planning_only_plans(instance, ready, provider, works, answers, 1);
        lemma_step(Goal::Plan, instance, ready, provider, works, answers, 1);
        if n >= 3 {
            law_planning_only_plans(instance, ready, provider, works, answers, 2);
            lemma_step(Goal::Plan, instance, ready, provider, works, answers, 2);
        }
        let live = works[1]->Listed_0;
        assert(lists(provider, ready, Ok::<Json, ProviderError>(live)));
        match answers[1]->Plan_0 {
            Ok(given) => {
                assert(plans_from(provider, ready, live, Ok::<ProviderPlan, ProviderError>(given)));
            },
            Err(source) => {
                assert(plans_from(provider, ready, live, Err::<ProviderPlan, ProviderError>(source)));
                assert(provider_failed(provider, ready, source));
            },
        }
    } else {
        let source = answers[0]->Live_0->Err_0;
        assert(lists(provider, ready, Err::<Json, ProviderError>(source)));
        assert(provider_failed(provider, ready, source));
    }
}

/// That the provider may fail so when the instance is planned.
pub open spec fn provider_failed<P: Provider + ?Sized>(
    provider: &P,
    ready: Prepared,
    source: ProviderError,
) -> bool {
    ||| lists(provider, ready, Err::<Json, ProviderError>(source))
    ||| exists|live: Json| #[trigger]
        plans_from(provider, ready, live, Err::<ProviderPlan, ProviderError>(source))
}

proof fn lemma_step<P: Provider + ?Sized>(
    goal: Goal,
    instance: Seq<char>,
    ready: Prepared,
    provider: &P,
    works: Seq<InstanceWork>,
    answers: Seq<ProviderAnswer>,
    k: int,
)
    requires
        worked(goal, instance, ready, provider, works, answers),
        0 <= k < answers.len(),
    ensures
        stepped(goal, instance, ready, provider, works[k], answers[k], works[k + 1]),
        k == 0 ==> works[0] is Begun,
        call_after(goal, works[k]) is Some,
{
    let answer = answers[k];
}

/// The live state that is kept of an instance that was applied is one that its provider listed
/// afterwards.
pub proof fn law_live_state_is_that_of_the_provider<P: Provider + ?Sized>(
    instance: Seq<char>,
    ready: Prepared,
    provider: &P,
    outcome: InstanceOutcomeView,
)
    requires
        may_reconcile(instance, ready, provider, outcome),
    ensures
        outcome matches InstanceOutcomeView::Applied { live, .. } ==> exists|
            seen: Result<Json, ProviderError>,
        | #[trigger] lists(provider, ready, seen) && live == result_view(seen),
        outcome matches InstanceOutcomeView::Failed(error) ==> error matches
            ExecuteErrorView::ProviderOperation { instance: told, source } ==> told == instance,
        outcome matches InstanceOutcomeView::Failed(error) ==> error is ProviderOperation,
{
    let end = choose|end: InstanceWork| #[trigger]
        may_end(Goal::Apply, instance, ready, provider, end) && outcome_of(instance, end) == Some(
            outcome,
        );
    let (works, answers) = choose|works: Seq<InstanceWork>, answers: Seq<ProviderAnswer>| #[trigger]
        worked(Goal::Apply, instance, ready, provider, works, answers) && works.last() == end;
    let n = answers.len() as int;
    lemma_step(Goal::Apply, instance, ready, provider, works, answers, n - 1);
    if let InstanceWork::Observed(report, seen) = end {
        assert(lists(provider, ready, seen));
    }
}

/// A run begins with the waves of the instances, with nothing done and the tree as it is; it does
/// not begin only where there are no waves, and with the error that tells why.
pub proof fn law_runs_begin_where_there_are_waves(
    root: JsonView,
    sources: SourcesView,
    planning: Result<PlanRunView, ExecuteErrorView>,
    applying: Result<ApplyRunView, ExecuteErrorView>,
)
    requires
        plan_begins(root, sources, planning),
        apply_begins(root, sources, applying),
    ensures
        match planning {
            Ok(run) => may_have_waves(
                root,
                sources,
                Ok::<Seq<Seq<Seq<char>>>, DagErrorView>(run.waves),
            ) && run.done == 0 && run.plan.len() == 0,
            Err(error) => error is DependencyResolution && may_have_waves(
                root,
                sources,
                Err::<Seq<Seq<Seq<char>>>, DagErrorView>(error->DependencyResolution_0),
            ),
        },
        match applying {
            Ok(run) => may_have_waves(
                root,
                sources,
                Ok::<Seq<Seq<Seq<char>>>, DagErrorView>(run.waves),
            ) && run.done == 0 && run.reports.len() == 0 && run.active_root == root
                && run.crystalized is Object && run.crystalized->Object_0.len() == 0,
            Err(error) => error is DependencyResolution && may_have_waves(
                root,
                sources,
                Err::<Seq<Seq<Seq<char>>>, DagErrorView>(error->DependencyResolution_0),
            ),
        },
{
}

/// The wave that is due is the one after those that are done, and none is due once all are.
pub proof fn law_waves_are_due_in_order(run: PlanRunView)
    requires
        0 <= run.done,
    ensures
        run.done < run.waves.len() ==> plan_wave(run) == Some(run.waves[run.done]),
        run.done >= run.waves.len() ==> plan_wave(run) is None,
{
}

/// An applying run ends before its waves are done only where a node of the tree cannot be resolved,
/// and then with the error of that resolution.
pub proof fn law_applying_stops_only_for_a_field(
    run: ApplyRunView,
    next: Result<(ApplyRunView, Option<Seq<Seq<char>>>), ExecuteErrorView>,
)
    requires
        0 <= run.done,
        apply_wave(run, next),
    ensures
        match next {
            Ok((_, names)) => names is Some <==> run.done < run.waves.len(),
            Err(error) => run.done < run.waves.len() && error is DerivedFromResolution
                && tree_settles(
                run.active_root,
                run.crystalized,
                Err::<JsonView, DerivedFromErrorView>(error->DerivedFromResolution_0),
            ),
        },
{
}

/// An instance whose plan was applied counts as applied, with its report and whatever came of
/// asking for its live state again, even where that failed; one that failed before counts as
/// failed, with its error.
pub proof fn law_applied_instances_count_as_applied(
    instance: Seq<char>,
    report: ApplyReport,
    live: Result<Json, ProviderError>,
    error: ExecuteError,
)
    ensures
        outcome_of(instance, InstanceWork::Observed(report, live)) == Some(
            InstanceOutcomeView::Applied {
                name: instance,
                report: report@,
                live: result_view(live),
            },
        ),
        outcome_of(instance, InstanceWork::Failed(error)) == Some(
            InstanceOutcomeView::Failed(error@),
        ),
{
}

} // verus!
