//! Wave-parallel execution of provider instances.
//!
//! The decisions of the plan and apply loops stand here, so that tests and front-ends of any
//! kind can drive reconciliation: [`PlanRun`] and [`ApplyRun`] say which instances are to be
//! worked on next and what follows from what came of them; [`InstanceWork`] says what the provider
//! of one instance is to be asked next, and [`plan_instance`] and [`reconcile_instance`] ask it.
//! The driver runs the instances of a wave in parallel and looks up providers.

use crate::dag::{
    collected, execution_waves, instance_named, law_graph_of_instances, may_have_waves,
    waves_follow, DagError, DagErrorView,
};
use crate::derived::{
    resolve_derived_from_tree, tree_settles, DerivedFromError, DerivedFromErrorView,
};
use crate::field_value::{
    field_file, field_variable, law_field_value_needs_its_source, FieldValueView,
    ResolvedFieldValueView,
};
use crate::graph::{
    before_wave, depends, in_order, in_wave, is_waves, law_order_complete, sorted, wave_views,
};
use crate::json::{lemma_object_view, member, members, parsed_json, Json, JsonView};
use crate::meta::{meta_from, no_meta, NixHapiMeta, NixHapiMetaView};
use crate::order::reverse;
use crate::plan::{no_report, ApplyReport, ApplyReportView, Plan, ProviderPlan, ProviderPlanView};
use crate::provider::{
    config_resolved, resolve_config, Filter, Provider, ProviderError, ProviderErrorView,
    ResolvedConfig,
};
use crate::saturation::{
    check_derived_from_saturation, instance_nodes, law_execution_waves_are_saturated,
    law_saturated_inputs_come_earlier, lemma_wave_index, lemma_wave_index_found, wave_index,
    SaturationError, SaturationErrorView,
};
use crate::sources::{reading_of, Sources, SourcesView};
use crate::strmap::{
    ascending, entry_views, has_key, keys_of, lemma_lookups_put, lemma_put_last,
    lemma_views_lookup, lemma_views_put, lookup, put, StrMap,
};
use crate::text::{copy_texts, quote, quoted, text_eq, text_lt, text_lt_irreflexive};
use crate::views::{lemma_views_push, result_view, views};
use vstd::pervasive::unreached;
use vstd::prelude::*;

verus! {

/// Why a run ended.
#[derive(Debug, PartialEq)]
pub enum ExecuteError {
    /// The instance has no `__nixhapi.provider` declaration.
    MissingProvider { instance: String },
    ConfigResolution { instance: String, source: ProviderError },
    ProviderOperation { instance: String, source: ProviderError },
    ProviderLookup { instance: String, provider_type: String },
    ProviderInit { instance: String, message: String },
    DependencyResolution(DagError),
    DerivedFromResolution(DerivedFromError),
    MetadataParse { instance: String, message: String },
    MissingInstance { instance: String },
    SaturationCheck(SaturationError),
    /// Some instances of a wave failed; the reports of the others were still collected.
    PartialWaveFailure {
        errors: Vec<ExecuteError>,
        successful_reports: Vec<(String, ApplyReport)>,
    },
}

/// What an [`ExecuteError`] stands for.
pub enum ExecuteErrorView {
    MissingProvider { instance: Seq<char> },
    ConfigResolution { instance: Seq<char>, source: ProviderErrorView },
    ProviderOperation { instance: Seq<char>, source: ProviderErrorView },
    ProviderLookup { instance: Seq<char>, provider_type: Seq<char> },
    ProviderInit { instance: Seq<char>, message: Seq<char> },
    DependencyResolution(DagErrorView),
    DerivedFromResolution(DerivedFromErrorView),
    MetadataParse { instance: Seq<char>, message: Seq<char> },
    MissingInstance { instance: Seq<char> },
    SaturationCheck(SaturationErrorView),
    PartialWaveFailure {
        errors: Seq<ExecuteErrorView>,
        successful_reports: Seq<(Seq<char>, ApplyReportView)>,
    },
}

/// What a list of reports by instance stands for.
pub open spec fn report_views(reports: Seq<(String, ApplyReport)>) -> Seq<
    (Seq<char>, ApplyReportView),
> {
    reports.map_values(|r: (String, ApplyReport)| (r.0@, r.1@))
}

impl View for ExecuteError {
    type V = ExecuteErrorView;

    open spec fn view(&self) -> ExecuteErrorView
        decreases self,
    {
        match self {
            ExecuteError::MissingProvider { instance } => ExecuteErrorView::MissingProvider {
                instance: instance@,
            },
            ExecuteError::ConfigResolution { instance, source } =>
                ExecuteErrorView::ConfigResolution { instance: instance@, source: source@ },
            ExecuteError::ProviderOperation { instance, source } =>
                ExecuteErrorView::ProviderOperation { instance: instance@, source: source@ },
            ExecuteError::ProviderLookup { instance, provider_type } =>
                ExecuteErrorView::ProviderLookup {
                    instance: instance@,
                    provider_type: provider_type@,
                },
            ExecuteError::ProviderInit { instance, message } => ExecuteErrorView::ProviderInit {
                instance: instance@,
                message: message@,
            },
            ExecuteError::DependencyResolution(error) => ExecuteErrorView::DependencyResolution(
                error@,
            ),
            ExecuteError::DerivedFromResolution(error) =>
                ExecuteErrorView::DerivedFromResolution(error@),
            ExecuteError::MetadataParse { instance, message } => ExecuteErrorView::MetadataParse {
                instance: instance@,
                message: message@,
            },
            ExecuteError::MissingInstance { instance } => ExecuteErrorView::MissingInstance {
                instance: instance@,
            },
            ExecuteError::SaturationCheck(error) => ExecuteErrorView::SaturationCheck(error@),
            ExecuteError::PartialWaveFailure { errors, successful_reports } =>
                ExecuteErrorView::PartialWaveFailure {
                    errors: Seq::new(
                        errors@.len(),
                        |i: int|
                            if 0 <= i < errors@.len() {
                                errors@[i].view()
                            } else {
                                ExecuteErrorView::DependencyResolution(DagErrorView::Cycle)
                            },
                    ),
                    successful_reports: report_views(successful_reports@),
                },
        }
    }
}

/// A partial failure stands for the views of its errors.
proof fn lemma_partial_failure(
    errors: Vec<ExecuteError>,
    successful_reports: Vec<(String, ApplyReport)>,
)
    ensures
        (ExecuteError::PartialWaveFailure { errors, successful_reports })@ == (
        ExecuteErrorView::PartialWaveFailure {
            errors: views(errors@),
            successful_reports: report_views(successful_reports@),
        }),
{
    reveal_with_fuel(<ExecuteError as View>::view, 2);
    assert((ExecuteError::PartialWaveFailure {
        errors,
        successful_reports,
    })@->PartialWaveFailure_errors =~= views(errors@));
}

impl ExecuteErrorView {
    /// The message of this error, where `listing` shows the errors of a partial failure.
    pub open spec fn message(self, listing: Seq<char>) -> Seq<char> {
        match self {
            ExecuteErrorView::MissingProvider { instance } => "Instance "@ + quoted(instance)
                + " is missing a __nixhapi.provider declaration"@,
            ExecuteErrorView::ConfigResolution { instance, source } =>
                "Failed to resolve provider configuration for instance "@
                + quoted(instance) + ": "@ + source.message(),
            ExecuteErrorView::ProviderOperation { instance, source } =>
                "Provider operation failed for instance "@
                + quoted(instance) + ": "@ + source.message(),
            ExecuteErrorView::ProviderLookup { instance, provider_type } =>
                "Unknown provider type "@
                + quoted(provider_type) + " for instance "@ + quoted(instance),
            ExecuteErrorView::ProviderInit { instance, message } =>
                "Failed to initialize provider for instance "@
                + quoted(instance) + ": "@ + message,
            ExecuteErrorView::DependencyResolution(error) =>
                "Failed to resolve provider dependency order: "@
                + error.message(),
            ExecuteErrorView::DerivedFromResolution(error) =>
                "Failed to resolve derivedFrom fields between waves: "@
                + error.message(),
            ExecuteErrorView::MetadataParse { instance, message } =>
                "Malformed __nixhapi metadata in instance "@
                + quoted(instance) + ": "@ + message,
            ExecuteErrorView::MissingInstance { instance } => "Instance "@ + quoted(instance)
                + " not found in root"@,
            ExecuteErrorView::SaturationCheck(error) => "DerivedFrom saturation check failed: "@
                + error.message(),
            ExecuteErrorView::PartialWaveFailure { .. } => "Partial wave failure: "@ + listing
                + " (successful reports still collected)"@,
        }
    }
}

impl ExecuteError {
    /// The message of this error, where `listing` shows the errors of a partial failure.
    pub fn message(&self, listing: &str) -> (message: String)
        ensures
            message@ == self@.message(listing@),
    {
        match self {
            ExecuteError::MissingProvider { instance } => {
                "Instance ".to_owned()
                    .concat(quote(instance.as_str()).as_str())
                    .concat(" is missing a __nixhapi.provider declaration")
            }
            ExecuteError::ConfigResolution { instance, source } => {
                "Failed to resolve provider configuration for instance ".to_owned()
                    .concat(quote(instance.as_str()).as_str())
                    .concat(": ")
                    .concat(source.message().as_str())
            }
            ExecuteError::ProviderOperation { instance, source } => {
                "Provider operation failed for instance ".to_owned()
                    .concat(quote(instance.as_str()).as_str())
                    .concat(": ")
                    .concat(source.message().as_str())
            }
            ExecuteError::ProviderLookup { instance, provider_type } => {
                "Unknown provider type ".to_owned()
                    .concat(quote(provider_type.as_str()).as_str())
                    .concat(" for instance ")
                    .concat(quote(instance.as_str()).as_str())
            }
            ExecuteError::ProviderInit { instance, message } => {
                "Failed to initialize provider for instance ".to_owned()
                    .concat(quote(instance.as_str()).as_str())
                    .concat(": ")
                    .concat(message.as_str())
            }
            ExecuteError::DependencyResolution(error) => {
                "Failed to resolve provider dependency order: ".to_owned()
                    .concat(error.message().as_str())
            }
            ExecuteError::DerivedFromResolution(error) => {
                "Failed to resolve derivedFrom fields between waves: ".to_owned()
                    .concat(error.message().as_str())
            }
            ExecuteError::MetadataParse { instance, message } => {
                "Malformed __nixhapi metadata in instance ".to_owned()
                    .concat(quote(instance.as_str()).as_str())
                    .concat(": ")
                    .concat(message.as_str())
            }
            ExecuteError::MissingInstance { instance } => {
                "Instance ".to_owned()
                    .concat(quote(instance.as_str()).as_str())
                    .concat(" not found in root")
            }
            ExecuteError::SaturationCheck(error) => {
                "DerivedFrom saturation check failed: ".to_owned().concat(error.message().as_str())
            }
            ExecuteError::PartialWaveFailure { .. } => {
                "Partial wave failure: ".to_owned()
                    .concat(listing)
                    .concat(" (successful reports still collected)")
            }
        }
    }
}

/// The first `n` members without `__nixhapi`.
pub open spec fn data_members(entries: Seq<(Seq<char>, JsonView)>, n: int) -> Seq<
    (Seq<char>, JsonView),
>
    decreases n,
{
    if n <= 0 {
        Seq::empty()
    } else {
        let before = data_members(entries, n - 1);
        if entries[n - 1].0 == "__nixhapi"@ {
            before
        } else {
            before.push(entries[n - 1])
        }
    }
}

/// The data that a provider receives: the scope without its `__nixhapi` member.
pub open spec fn scope_data(scope: JsonView) -> JsonView {
    match scope {
        JsonView::Object(entries) => JsonView::Object(data_members(entries, entries.len() as int)),
        _ => JsonView::Null,
    }
}

/// The directives of a scope: none unless `__nixhapi` is an object.
pub open spec fn scope_meta(instance: Seq<char>, scope: JsonView) -> Result<
    NixHapiMetaView,
    ExecuteErrorView,
> {
    match member(scope, "__nixhapi"@) {
        Some(JsonView::Object(entries)) => match meta_from(JsonView::Object(entries)) {
            Ok(meta) => Ok(meta),
            Err(message) => Err(ExecuteErrorView::MetadataParse { instance, message }),
        },
        _ => Ok(no_meta()),
    }
}

/// The members that stay all have keys among those that were there.
proof fn lemma_data_keys(entries: Seq<(Seq<char>, JsonView)>, n: int, key: Seq<char>)
    requires
        0 <= n <= entries.len(),
        forall|k: int| 0 <= k < n ==> text_lt((#[trigger] entries[k]).0, key),
    ensures
        forall|k: int|
            0 <= k < data_members(entries, n).len() ==> text_lt(
                (#[trigger] data_members(entries, n)[k]).0,
                key,
            ),
    decreases n,
{
    if n > 0 {
        lemma_data_keys(entries, n - 1, key);
        let before = data_members(entries, n - 1);
        let all = data_members(entries, n);
        assert forall|k: int| 0 <= k < all.len() implies text_lt((#[trigger] all[k]).0, key) by {
            if k < before.len() {
                assert(all[k] == before[k]);
            } else {
                assert(all[k] == entries[n - 1]);
            }
        }
    }
}

/// Splits a top-level scope value into its `__nixhapi` directives and the remaining data subtree
/// that the provider receives.
pub fn split_scope(instance_name: &str, scope: &Json) -> (split: Result<
    (NixHapiMeta, Json),
    ExecuteError,
>)
    ensures
        match split {
            Ok((meta, data)) => scope_meta(instance_name@, scope@) == Ok::<
                NixHapiMetaView,
                ExecuteErrorView,
            >(meta@) && data@ == scope_data(scope@),
            Err(error) => scope_meta(instance_name@, scope@) == Err::<
                NixHapiMetaView,
                ExecuteErrorView,
            >(error@),
        },
{
    let meta = match scope.get("__nixhapi") {
        Some(value) => match value {
            Json::Object(_) => match NixHapiMeta::from_json(value) {
                Ok(meta) => meta,
                Err(message) => {
                    return Err(
                        ExecuteError::MetadataParse {
                            instance: instance_name.to_owned(),
                            message,
                        },
                    );
                }
            },
            _ => NixHapiMeta::default(),
        },
        None => NixHapiMeta::default(),
    };
    let map = match scope.as_object() {
        Some(map) => map,
        None => {
            return Ok((meta, Json::Null));
        }
    };
    let ghost entries = entry_views(map@);
    let mut data: StrMap<Json> = StrMap::new();
    assert(entry_views(data@) =~= Seq::empty());
    let mut i: usize = 0;
    while i < map.len()
        invariant
            i <= map@.len(),
            entries == entry_views(map@),
            entry_views(data@) == data_members(entries, i as int),
        decreases map@.len() - i,
    {
        let key = map.key_at(i);
        assert(entries[i as int] == (key@, map@[i as int].1@));
        assert(ascending(map@));
        if !text_eq(key, "__nixhapi") {
            let value = map.value_at(i).copy();
            proof {
                lemma_views_put(data@, key@, value);
                assert forall|k: int| 0 <= k < i implies text_lt((#[trigger] entries[k]).0, key@) by {
                    assert(text_lt(map@[k].0, map@[i as int].0));
                }
                lemma_data_keys(entries, i as int, key@);
                lemma_put_last(entry_views(data@), key@, value@);
            }
            data = data.put(key.to_owned(), value);
        }
        i = i + 1;
    }
    proof {
        lemma_object_view(data);
    }
    Ok((meta, Json::Object(data)))
}

/// What is needed to work on an instance: its directives, its data, and its provider with the
/// resolved configuration.
#[derive(Debug, PartialEq)]
pub struct Prepared {
    pub meta: NixHapiMeta,
    pub data: Json,
    pub provider_type: String,
    pub config: ResolvedConfig,
}

/// What a [`Prepared`] stands for.
pub struct PreparedView {
    pub meta: NixHapiMetaView,
    pub data: JsonView,
    pub provider_type: Seq<char>,
    pub config: Seq<(Seq<char>, ResolvedFieldValueView)>,
}

impl View for Prepared {
    type V = PreparedView;

    open spec fn view(&self) -> PreparedView {
        PreparedView {
            meta: self.meta@,
            data: self.data@,
            provider_type: self.provider_type@,
            config: entry_views(self.config@),
        }
    }
}

/// What is needed to work on an instance.
pub open spec fn prepared(instance: Seq<char>, root: JsonView, sources: SourcesView) -> Result<
    PreparedView,
    ExecuteErrorView,
> {
    match member(root, instance) {
        None => Err(ExecuteErrorView::MissingInstance { instance }),
        Some(scope) => match scope_meta(instance, scope) {
            Err(error) => Err(error),
            Ok(meta) => match meta.provider {
                None => Err(ExecuteErrorView::MissingProvider { instance }),
                Some(spec) => match config_resolved(
                    spec.config,
                    sources,
                    spec.config.len() as int,
                ) {
                    Err(source) => Err(ExecuteErrorView::ConfigResolution { instance, source }),
                    Ok(config) => Ok(
                        PreparedView {
                            meta,
                            data: scope_data(scope),
                            provider_type: spec.provider_type,
                            config,
                        },
                    ),
                },
            },
        },
    }
}

/// Prepares the work on an instance: finds its scope, reads its directives and resolves the
/// configuration of its provider.
pub fn prepare_instance(instance_name: &str, root: &Json, sources: &Sources) -> (ready: Result<
    Prepared,
    ExecuteError,
>)
    ensures
        result_view(ready) == prepared(instance_name@, root@, sources@),
{
    let scope = match root.get(instance_name) {
        Some(scope) => scope,
        None => {
            return Err(ExecuteError::MissingInstance { instance: instance_name.to_owned() });
        }
    };
    let (meta, data) = match split_scope(instance_name, scope) {
        Ok(split) => split,
        Err(error) => {
            return Err(error);
        }
    };
    let (provider_type, config) = match &meta.provider {
        None => {
            return Err(ExecuteError::MissingProvider { instance: instance_name.to_owned() });
        }
        Some(spec) => match resolve_config(&spec.config, sources) {
            Err(source) => {
                return Err(
                    ExecuteError::ConfigResolution { instance: instance_name.to_owned(), source },
                );
            }
            Ok(config) => (spec.provider_type.clone(), config),
        },
    };
    Ok(Prepared { meta, data, provider_type, config })
}

/// The files that the first `n` configuration fields are to be read from.
pub open spec fn config_files(config: Seq<(Seq<char>, FieldValueView)>, n: int) -> Seq<Seq<char>>
    decreases n,
{
    if n <= 0 {
        Seq::empty()
    } else {
        match field_file(config[n - 1].1) {
            Some(path) => config_files(config, n - 1).push(path),
            None => config_files(config, n - 1),
        }
    }
}

/// The environment variables that the first `n` configuration fields are to be read from.
pub open spec fn config_variables(
    config: Seq<(Seq<char>, FieldValueView)>,
    n: int,
) -> Seq<Seq<char>>
    decreases n,
{
    if n <= 0 {
        Seq::empty()
    } else {
        match field_variable(config[n - 1].1) {
            Some(env) => config_variables(config, n - 1).push(env),
            None => config_variables(config, n - 1),
        }
    }
}

/// The raw provider configuration of an instance; empty where there is none.
pub open spec fn raw_config(instance: Seq<char>, root: JsonView) -> Seq<
    (Seq<char>, FieldValueView),
> {
    match member(root, instance) {
        None => Seq::empty(),
        Some(scope) => match scope_meta(instance, scope) {
            Err(_) => Seq::empty(),
            Ok(meta) => match meta.provider {
                None => Seq::empty(),
                Some(spec) => spec.config,
            },
        },
    }
}

/// The files and the environment variables from which the provider configuration of an instance
/// is to be read.
pub fn instance_sources(instance_name: &str, root: &Json) -> (needed: (Vec<String>, Vec<String>))
    ensures
        ({
            let config = raw_config(instance_name@, root@);
            &&& views(needed.0@) == config_files(config, config.len() as int)
            &&& views(needed.1@) == config_variables(config, config.len() as int)
        }),
{
    let mut files: Vec<String> = Vec::new();
    let mut variables: Vec<String> = Vec::new();
    assert(views(files@) =~= Seq::empty());
    assert(views(variables@) =~= Seq::empty());
    if let Some(scope) = root.get(instance_name) {
        if let Ok((meta, _)) = split_scope(instance_name, scope) {
            if let Some(spec) = &meta.provider {
                let ghost config = entry_views(spec.config@);
                let mut i: usize = 0;
                while i < spec.config.len()
                    invariant
                        i <= spec.config@.len(),
                        config == entry_views(spec.config@),
                        views(files@) == config_files(config, i as int),
                        views(variables@) == config_variables(config, i as int),
                    decreases spec.config@.len() - i,
                {
                    let field = spec.config.value_at(i);
                    assert(config[i as int].1 == field@);
                    if let Some(path) = field.file() {
                        let path = path.to_owned();
                        proof {
                            lemma_views_push(files@, path);
                        }
                        files.push(path);
                    }
                    if let Some(env) = field.variable() {
                        let env = env.to_owned();
                        proof {
                            lemma_views_push(variables@, env);
                        }
                        variables.push(env);
                    }
                    i = i + 1;
                }
            }
        }
    }
    (files, variables)
}

/// Two readings agree on the given files and variables.
pub open spec fn sources_agree(
    a: SourcesView,
    b: SourcesView,
    files: Seq<Seq<char>>,
    variables: Seq<Seq<char>>,
) -> bool {
    &&& forall|k: int|
        0 <= k < files.len() ==> reading_of(a.files, #[trigger] files[k]) == reading_of(
            b.files,
            files[k],
        )
    &&& forall|k: int|
        0 <= k < variables.len() ==> reading_of(a.variables, #[trigger] variables[k])
            == reading_of(b.variables, variables[k])
}

proof fn lemma_config_agrees(
    config: Seq<(Seq<char>, FieldValueView)>,
    a: SourcesView,
    b: SourcesView,
    n: int,
)
    requires
        0 <= n <= config.len(),
        sources_agree(a, b, config_files(config, n), config_variables(config, n)),
    ensures
        config_resolved(config, a, n) == config_resolved(config, b, n),
    decreases n,
{
    if n > 0 {
        let files = config_files(config, n);
        let variables = config_variables(config, n);
        let field = config[n - 1].1;
        assert(sources_agree(a, b, config_files(config, n - 1), config_variables(config, n - 1)))
            by {
            let fewer = config_files(config, n - 1);
            assert forall|k: int| 0 <= k < fewer.len() implies reading_of(
                a.files,
                #[trigger] fewer[k],
            ) == reading_of(b.files, fewer[k]) by {
                assert(files[k] == fewer[k]);
            }
            let less = config_variables(config, n - 1);
            assert forall|k: int| 0 <= k < less.len() implies reading_of(
                a.variables,
                #[trigger] less[k],
            ) == reading_of(b.variables, less[k]) by {
                assert(variables[k] == less[k]);
            }
        }
        lemma_config_agrees(config, a, b, n - 1);
        if let Some(path) = field_file(field) {
            assert(files[files.len() - 1] == path);
        }
        if let Some(env) = field_variable(field) {
            assert(variables[variables.len() - 1] == env);
        }
        law_field_value_needs_its_source(field, a, b);
    }
}

/// Preparing an instance needs no other readings than those of the sources of its provider
/// configuration.
pub proof fn law_preparation_needs_its_sources(
    instance: Seq<char>,
    root: JsonView,
    a: SourcesView,
    b: SourcesView,
)
    requires
        ({
            let config = raw_config(instance, root);
            sources_agree(
                a,
                b,
                config_files(config, config.len() as int),
                config_variables(config, config.len() as int),
            )
        }),
    ensures
        prepared(instance, root, a) == prepared(instance, root, b),
{
    let config = raw_config(instance, root);
    lemma_config_agrees(config, a, b, config.len() as int);
}

/// The path of the binary for a provider type, or the error where none is configured.
pub fn provider_path(instance_name: &str, provider_type: &str, providers: &StrMap<String>) -> (
    path: Result<String, ExecuteError>)
    ensures
        match path {
            Ok(path) => lookup(entry_views(providers@), provider_type@) == Some(path@),
            Err(error) => lookup(entry_views(providers@), provider_type@) is None && error@ == (
            ExecuteErrorView::ProviderLookup {
                instance: instance_name@,
                provider_type: provider_type@,
            }),
        },
{
    proof {
        lemma_views_lookup(providers@, provider_type@);
    }
    match providers.get(provider_type) {
        Some(path) => Ok(path.clone()),
        None => Err(
            ExecuteError::ProviderLookup {
                instance: instance_name.to_owned(),
                provider_type: provider_type.to_owned(),
            },
        ),
    }
}

/// The desired state that a text holds: a JSON object.
pub open spec fn desired_state(text: Seq<char>) -> Result<JsonView, Seq<char>> {
    match parsed_json(text) {
        Err(message) => Err(message),
        Ok(value) => if value is Object {
            Ok(value)
        } else {
            Err("expected an object"@)
        },
    }
}

/// Reads the desired state, which has to be a JSON object.
pub fn read_desired_state(text: &str) -> (root: Result<Json, String>)
    ensures
        result_view(root) == desired_state(text@),
{
    match Json::parse(text) {
        Err(message) => Err(message),
        Ok(value) => if value.as_object().is_some() {
            Ok(value)
        } else {
            Err("expected an object".to_owned())
        },
    }
}

/// What the work on an instance is for.
#[derive(Debug, Clone, Copy, PartialEq, Eq, Structural)]
pub enum Goal {
    /// A plan, and nothing else.
    Plan,
    /// A plan, its application, and the live state afterwards.
    Apply,
}

/// What a provider can be asked.
#[derive(Debug, Clone, Copy, PartialEq, Eq, Structural)]
pub enum ProviderCall {
    ListLive,
    Plan,
    Apply,
}

/// What a provider answered.
#[derive(Debug, PartialEq)]
pub enum ProviderAnswer {
    Live(Result<Json, ProviderError>),
    Plan(Result<ProviderPlan, ProviderError>),
    Report(Result<ApplyReport, ProviderError>),
}

/// How far the work on an instance has come.
#[derive(Debug, PartialEq)]
pub enum InstanceWork {
    /// Nothing was asked yet.
    Begun,
    /// The live state is known.
    Listed(Json),
    /// The plan is known.
    Planned(ProviderPlan),
    /// The plan was applied.
    Applied(ApplyReport),
    /// The live state was asked for again.
    Observed(ApplyReport, Result<Json, ProviderError>),
    /// The provider failed.
    Failed(ExecuteError),
}

/// What the provider is to be asked next; nothing where the work has come to its end.  Planning
/// ends with the plan, and a plan without changes is not handed to the provider.
pub open spec fn call_after(goal: Goal, work: InstanceWork) -> Option<ProviderCall> {
    match work {
        InstanceWork::Begun => Some(ProviderCall::ListLive),
        InstanceWork::Listed(_) => Some(ProviderCall::Plan),
        InstanceWork::Planned(plan) => match goal {
            Goal::Plan => None,
            Goal::Apply => if plan@.changes.len() == 0 {
                Some(ProviderCall::ListLive)
            } else {
                Some(ProviderCall::Apply)
            },
        },
        InstanceWork::Applied(_) => Some(ProviderCall::ListLive),
        InstanceWork::Observed(_, _) => None,
        InstanceWork::Failed(_) => None,
    }
}

/// That `answer` is one to `call`.
pub open spec fn fits(call: ProviderCall, answer: ProviderAnswer) -> bool {
    match call {
        ProviderCall::ListLive => answer is Live,
        ProviderCall::Plan => answer is Plan,
        ProviderCall::Apply => answer is Report,
    }
}

/// That the work on `instance` has failed for the reason that its provider gave.
pub open spec fn has_failed(
    instance: Seq<char>,
    source: ProviderErrorView,
    next: InstanceWork,
) -> bool {
    next matches InstanceWork::Failed(error) && error@ == (ExecuteErrorView::ProviderOperation {
        instance,
        source,
    })
}

/// That the work on `instance` goes on as `next` after an answer.  A plan goes by the name of its
/// instance, and without an application the report is empty.
pub open spec fn follows(
    instance: Seq<char>,
    work: InstanceWork,
    answer: ProviderAnswer,
    next: InstanceWork,
) -> bool {
    match (work, answer) {
        (InstanceWork::Begun, ProviderAnswer::Live(Ok(live))) => next == InstanceWork::Listed(live),
        (InstanceWork::Begun, ProviderAnswer::Live(Err(source))) => has_failed(
            instance,
            source@,
            next,
        ),
        (InstanceWork::Listed(_), ProviderAnswer::Plan(Ok(given))) => next matches
            InstanceWork::Planned(plan) && plan@ == (ProviderPlanView {
            instance_name: instance,
            ..given@
        }),
        (InstanceWork::Listed(_), ProviderAnswer::Plan(Err(source))) => has_failed(
            instance,
            source@,
            next,
        ),
        (InstanceWork::Planned(_), ProviderAnswer::Report(Ok(report))) => next
            == InstanceWork::Applied(report),
        (InstanceWork::Planned(_), ProviderAnswer::Report(Err(source))) => has_failed(
            instance,
            source@,
            next,
        ),
        (InstanceWork::Planned(_), ProviderAnswer::Live(live)) => next matches
            InstanceWork::Observed(report, seen) && report@ == no_report() && seen == live,
        (InstanceWork::Applied(report), ProviderAnswer::Live(live)) => next
            == InstanceWork::Observed(report, live),
        _ => false,
    }
}

/// The failure of an instance for the reason that its provider gave.
fn failure(instance_name: &str, source: ProviderError) -> (work: InstanceWork)
    ensures
        has_failed(instance_name@, source@, work),
{
    InstanceWork::Failed(
        ExecuteError::ProviderOperation { instance: instance_name.to_owned(), source },
    )
}

impl InstanceWork {
    /// What the provider is to be asked next; nothing where the work has come to its end.
    pub fn next_call(&self, goal: Goal) -> (call: Option<ProviderCall>)
        ensures
            call == call_after(goal, *self),
            goal == Goal::Plan ==> call != Some(ProviderCall::Apply),
            goal == Goal::Apply ==> (*self matches InstanceWork::Planned(plan)
                && plan@.changes.len() == 0 ==> call == Some(ProviderCall::ListLive)),
    {
        match self {
            InstanceWork::Begun => Some(ProviderCall::ListLive),
            InstanceWork::Listed(_) => Some(ProviderCall::Plan),
            InstanceWork::Planned(plan) => match goal {
                Goal::Plan => None,
                Goal::Apply => if plan.is_empty() {
                    Some(ProviderCall::ListLive)
                } else {
                    Some(ProviderCall::Apply)
                },
            },
            InstanceWork::Applied(_) => Some(ProviderCall::ListLive),
            InstanceWork::Observed(_, _) => None,
            InstanceWork::Failed(_) => None,
        }
    }

    /// The work after the answer to the call that was due.
    pub fn advance(self, goal: Goal, instance_name: &str, answer: ProviderAnswer) -> (next:
        InstanceWork)
        requires
            call_after(goal, self) matches Some(call) && fits(call, answer),
        ensures
            follows(instance_name@, self, answer, next),
    {
        match (self, answer) {
            (InstanceWork::Begun, ProviderAnswer::Live(Ok(live))) => InstanceWork::Listed(live),
            (InstanceWork::Listed(_), ProviderAnswer::Plan(Ok(given))) => InstanceWork::Planned(
                ProviderPlan {
                    instance_name: instance_name.to_owned(),
                    provider_type: given.provider_type,
                    changes: given.changes,
                    runbook: given.runbook,
                },
            ),
            (InstanceWork::Planned(_), ProviderAnswer::Report(Ok(report))) => InstanceWork::Applied(
                report,
            ),
            (InstanceWork::Planned(_), ProviderAnswer::Live(live)) => InstanceWork::Observed(
                ApplyReport::default(),
                live,
            ),
            (InstanceWork::Applied(report), ProviderAnswer::Live(live)) => InstanceWork::Observed(
                report,
                live,
            ),
            (_, ProviderAnswer::Live(Err(source))) => failure(instance_name, source),
            (_, ProviderAnswer::Plan(Err(source))) => failure(instance_name, source),
            (_, ProviderAnswer::Report(Err(source))) => failure(instance_name, source),
            (work, _) => work,
        }
    }
}

/// That the provider may give `answer` when it is asked `call` at this point of the work: the
/// live state without filters, the plan with the live state that is known, the application of the
/// plan that is known.
pub open spec fn may_reply<P: Provider + ?Sized>(
    call: ProviderCall,
    work: InstanceWork,
    ready: Prepared,
    provider: &P,
    answer: ProviderAnswer,
) -> bool {
    match call {
        ProviderCall::ListLive => answer matches ProviderAnswer::Live(live) && exists|
            filters: &[Filter],
        | #[trigger]
            call_ensures(P::list_live, (provider, &ready.config, filters), live) && filters@.len()
                == 0,
        ProviderCall::Plan => {
            &&& work matches InstanceWork::Listed(live)
            &&& answer matches ProviderAnswer::Plan(plan)
            &&& call_ensures(
                P::plan,
                (provider, &ready.data, &live, &ready.meta, &ready.config),
                plan,
            )
        },
        ProviderCall::Apply => {
            &&& work matches InstanceWork::Planned(plan)
            &&& answer matches ProviderAnswer::Report(report)
            &&& call_ensures(P::apply, (provider, &plan, &ready.config), report)
        },
    }
}

/// Asks the provider what is due.
pub fn ask_provider<P: Provider + ?Sized>(
    goal: Goal,
    work: &InstanceWork,
    ready: &Prepared,
    provider: &P,
) -> (answer: Option<ProviderAnswer>)
    ensures
        match call_after(goal, *work) {
            Some(call) => answer matches Some(given) && fits(call, given) && may_reply(
                call,
                *work,
                *ready,
                provider,
                given,
            ),
            None => answer is None,
        },
{
    match (work.next_call(goal), work) {
        (Some(ProviderCall::ListLive), _) => {
            let filters: [Filter; 0] = [];
            Some(ProviderAnswer::Live(provider.list_live(&ready.config, &filters)))
        }
        (Some(ProviderCall::Plan), InstanceWork::Listed(live)) => Some(
            ProviderAnswer::Plan(provider.plan(&ready.data, live, &ready.meta, &ready.config)),
        ),
        (Some(ProviderCall::Apply), InstanceWork::Planned(plan)) => Some(
            ProviderAnswer::Report(provider.apply(plan, &ready.config)),
        ),
        _ => None,
    }
}

/// One step of the work on an instance: the provider is asked what is due, and the work goes on
/// with its answer.
pub open spec fn stepped<P: Provider + ?Sized>(
    goal: Goal,
    instance: Seq<char>,
    ready: Prepared,
    provider: &P,
    work: InstanceWork,
    answer: ProviderAnswer,
    next: InstanceWork,
) -> bool {
    &&& call_after(goal, work) matches Some(call)
    &&& fits(call, answer)
    &&& may_reply(call, work, ready, provider, answer)
    &&& follows(instance, work, answer, next)
}

/// The course of the work on an instance, from its beginning: each state follows from the one
/// before by the answer to the call that was due.
pub open spec fn worked<P: Provider + ?Sized>(
    goal: Goal,
    instance: Seq<char>,
    ready: Prepared,
    provider: &P,
    works: Seq<InstanceWork>,
    answers: Seq<ProviderAnswer>,
) -> bool {
    &&& works.len() == answers.len() + 1
    &&& works[0] == InstanceWork::Begun
    &&& forall|k: int|
        0 <= k < answers.len() ==> stepped(
            goal,
            instance,
            ready,
            provider,
            works[k],
            #[trigger] answers[k],
            works[k + 1],
        )
}

/// That the work on an instance may end as `end`.
pub open spec fn may_end<P: Provider + ?Sized>(
    goal: Goal,
    instance: Seq<char>,
    ready: Prepared,
    provider: &P,
    end: InstanceWork,
) -> bool {
    &&& call_after(goal, end) is None
    &&& exists|works: Seq<InstanceWork>, answers: Seq<ProviderAnswer>| #[trigger]
        worked(goal, instance, ready, provider, works, answers) && works.last() == end
}

/// How many calls may still come.
pub open spec fn calls_left(work: InstanceWork) -> nat {
    match work {
        InstanceWork::Begun => 4,
        InstanceWork::Listed(_) => 3,
        InstanceWork::Planned(_) => 2,
        InstanceWork::Applied(_) => 1,
        InstanceWork::Observed(_, _) => 0,
        InstanceWork::Failed(_) => 0,
    }
}

/// Works on an instance up to the end, asking the provider whatever is due.
fn work_on<P: Provider + ?Sized>(
    goal: Goal,
    instance_name: &str,
    ready: &Prepared,
    provider: &P,
) -> (end: InstanceWork)
    ensures
        may_end(goal, instance_name@, *ready, provider, end),
{
    let mut work = InstanceWork::Begun;
    let ghost mut works: Seq<InstanceWork> = seq![work];
    let ghost mut answers: Seq<ProviderAnswer> = Seq::empty();
    loop
        invariant
            worked(goal, instance_name@, *ready, provider, works, answers),
            works.last() == work,
        decreases calls_left(work),
    {
        match ask_provider(goal, &work, ready, provider) {
            None => {
                return work;
            }
            Some(answer) => {
                let ghost before = work;
                let ghost given = answer;
                work = work.advance(goal, instance_name, answer);
                proof {
                    let longer = works.push(work);
                    let more = answers.push(given);
                    assert forall|k: int| 0 <= k < more.len() implies stepped(
                        goal,
                        instance_name@,
                        *ready,
                        provider,
                        longer[k],
                        #[trigger] more[k],
                        longer[k + 1],
                    ) by {
                        if k < answers.len() {
                            assert(more[k] == answers[k]);
                        }
                    }
                    works = longer;
                    answers = more;
                }
            }
        }
    }
}

/// That planning an instance may give `outcome`.
pub open spec fn may_plan<P: Provider + ?Sized>(
    instance: Seq<char>,
    ready: Prepared,
    provider: &P,
    outcome: Result<ProviderPlanView, ExecuteErrorView>,
) -> bool {
    exists|end: InstanceWork| #[trigger]
        may_end(Goal::Plan, instance, ready, provider, end) && match end {
            InstanceWork::Planned(plan) => outcome == Ok::<ProviderPlanView, ExecuteErrorView>(
                plan@,
            ),
            InstanceWork::Failed(error) => outcome == Err::<ProviderPlanView, ExecuteErrorView>(
                error@,
            ),
            _ => false,
        }
}

/// Asks the provider for the live state of an instance and for the plan that follows from it.
pub fn plan_instance<P: Provider + ?Sized>(
    instance_name: &str,
    ready: &Prepared,
    provider: &P,
) -> (plan: Result<ProviderPlan, ExecuteError>)
    ensures
        may_plan(instance_name@, *ready, provider, result_view(plan)),
{
    let end = work_on(Goal::Plan, instance_name, ready, provider);
    proof {
        lemma_end(Goal::Plan, instance_name@, *ready, provider, end);
    }
    match end {
        InstanceWork::Planned(plan) => Ok(plan),
        InstanceWork::Failed(error) => Err(error),
        _ => unreached(),
    }
}

/// What came of one instance of a wave.
#[derive(Debug, PartialEq)]
pub enum InstanceOutcome {
    /// The plan was applied, and the live state was asked for again.
    Applied { name: String, report: ApplyReport, live: Result<Json, ProviderError> },
    /// The instance failed before.
    Failed(ExecuteError),
}

/// What an [`InstanceOutcome`] stands for.
pub enum InstanceOutcomeView {
    Applied {
        name: Seq<char>,
        report: ApplyReportView,
        live: Result<JsonView, ProviderErrorView>,
    },
    Failed(ExecuteErrorView),
}

impl View for InstanceOutcome {
    type V = InstanceOutcomeView;

    open spec fn view(&self) -> InstanceOutcomeView {
        match self {
            InstanceOutcome::Applied { name, report, live } => InstanceOutcomeView::Applied {
                name: name@,
                report: report@,
                live: result_view(*live),
            },
            InstanceOutcome::Failed(error) => InstanceOutcomeView::Failed(error@),
        }
    }
}

/// What came of an instance, by the end of the work on it.
pub open spec fn outcome_of(instance: Seq<char>, end: InstanceWork) -> Option<InstanceOutcomeView> {
    match end {
        InstanceWork::Observed(report, live) => Some(
            InstanceOutcomeView::Applied {
                name: instance,
                report: report@,
                live: result_view(live),
            },
        ),
        InstanceWork::Failed(error) => Some(InstanceOutcomeView::Failed(error@)),
        _ => None,
    }
}

/// That `outcome` may come of an instance that is planned, applied and observed.
pub open spec fn may_reconcile<P: Provider + ?Sized>(
    instance: Seq<char>,
    ready: Prepared,
    provider: &P,
    outcome: InstanceOutcomeView,
) -> bool {
    exists|end: InstanceWork| #[trigger]
        may_end(Goal::Apply, instance, ready, provider, end) && outcome_of(instance, end) == Some(
            outcome,
        )
}

/// Plans an instance, applies the plan unless it is without changes, and asks for the live state
/// afterwards.
pub fn reconcile_instance<P: Provider + ?Sized>(
    instance_name: &str,
    ready: &Prepared,
    provider: &P,
) -> (outcome: InstanceOutcome)
    ensures
        may_reconcile(instance_name@, *ready, provider, outcome@),
{
    let end = work_on(Goal::Apply, instance_name, ready, provider);
    proof {
        lemma_end(Goal::Apply, instance_name@, *ready, provider, end);
    }
    match end {
        InstanceWork::Observed(report, live) => {
            InstanceOutcome::Applied { name: instance_name.to_owned(), report, live }
        }
        InstanceWork::Failed(error) => InstanceOutcome::Failed(error),
        _ => unreached(),
    }
}

/// Planning ends with a plan or a failure, applying with an observation or a failure.
proof fn lemma_end<P: Provider + ?Sized>(
    goal: Goal,
    instance: Seq<char>,
    ready: Prepared,
    provider: &P,
    end: InstanceWork,
)
    requires
        may_end(goal, instance, ready, provider, end),
    ensures
        match goal {
            Goal::Plan => end is Planned || end is Failed,
            Goal::Apply => end is Observed || end is Failed,
        },
{
    let (works, answers) = choose|works: Seq<InstanceWork>, answers: Seq<ProviderAnswer>| #[trigger]
        worked(goal, instance, ready, provider, works, answers) && works.last() == end;
    if goal == Goal::Plan {
        law_planning_only_plans(instance, ready, provider, works, answers, answers.len() as int);
    }
}

/// Planning never has a plan applied: at any point of it the provider is asked for the live
/// state or for the plan, once each, and nothing is asked once there is a plan.
pub proof fn law_planning_only_plans<P: Provider + ?Sized>(
    instance: Seq<char>,
    ready: Prepared,
    provider: &P,
    works: Seq<InstanceWork>,
    answers: Seq<ProviderAnswer>,
    k: int,
)
    requires
        worked(Goal::Plan, instance, ready, provider, works, answers),
        0 <= k < works.len(),
    ensures
        call_after(Goal::Plan, works[k]) != Some(ProviderCall::Apply),
        call_after(Goal::Plan, works[k]) == (if k == 0 {
            Some(ProviderCall::ListLive)
        } else if k == 1 && works[k] is Listed {
            Some(ProviderCall::Plan)
        } else {
            None
        }),
        works[k] is Begun || works[k] is Listed || works[k] is Planned || works[k] is Failed,
    decreases k,
{
    if k > 0 {
        law_planning_only_plans(instance, ready, provider, works, answers, k - 1);
        assert(stepped(
            Goal::Plan,
            instance,
            ready,
            provider,
            works[k - 1],
            answers[k - 1],
            works[k - 1 + 1],
        ));
    }
}

/// The calls for an instance that is applied come in order: the live state, the plan, its
/// application where it has changes, and the live state again.  A plan without changes leads
/// straight to the observation, with the empty report.
pub proof fn law_applying_asks_in_order<P: Provider + ?Sized>(
    instance: Seq<char>,
    ready: Prepared,
    provider: &P,
    works: Seq<InstanceWork>,
    answers: Seq<ProviderAnswer>,
    k: int,
)
    requires
        worked(Goal::Apply, instance, ready, provider, works, answers),
        0 <= k < works.len(),
    ensures
        works[k] is Begun <==> k == 0,
        works[k] is Listed ==> k == 1,
        works[k] is Planned ==> k == 2,
        works[k] is Applied ==> k == 3 && works[2] is Planned
            && works[2]->Planned_0@.changes.len() > 0,
        call_after(Goal::Apply, works[k]) == Some(ProviderCall::Apply) ==> k == 2,
        works[k] matches InstanceWork::Observed(report, _) ==> works[2] is Planned && {
            let changes = works[2]->Planned_0@.changes.len();
            &&& k == (if changes == 0 { 3int } else { 4int })
            &&& changes == 0 ==> report@ == no_report()
            &&& changes > 0 ==> answers[2] == ProviderAnswer::Report(
                Ok::<ApplyReport, ProviderError>(report),
            )
        },
    decreases k,
{
    if k > 0 {
        law_applying_asks_in_order(instance, ready, provider, works, answers, k - 1);
        assert(stepped(
            Goal::Apply,
            instance,
            ready,
            provider,
            works[k - 1],
            answers[k - 1],
            works[k - 1 + 1],
        ));
        if works[k - 1] is Applied {
            assert(stepped(
                Goal::Apply,
                instance,
                ready,
                provider,
                works[2],
                answers[2],
                works[3],
            ));
        }
    }
}

/// A plan without changes is not handed to the provider: no call of the work on its instance is
/// an application, the live state is asked for right after the plan, and the report is empty.
pub proof fn law_plan_without_changes_is_not_applied<P: Provider + ?Sized>(
    instance: Seq<char>,
    ready: Prepared,
    provider: &P,
    works: Seq<InstanceWork>,
    answers: Seq<ProviderAnswer>,
    plan: ProviderPlan,
    k: int,
)
    requires
        worked(Goal::Apply, instance, ready, provider, works, answers),
        works.contains(InstanceWork::Planned(plan)),
        plan@.changes.len() == 0,
        0 <= k < works.len(),
    ensures
        works[2] == InstanceWork::Planned(plan),
        call_after(Goal::Apply, works[2]) == Some(ProviderCall::ListLive),
        call_after(Goal::Apply, works[k]) != Some(ProviderCall::Apply),
        works[k] matches InstanceWork::Observed(report, _) ==> report@ == no_report(),
{
    let at = choose|at: int| 0 <= at < works.len() && works[at] == InstanceWork::Planned(plan);
    law_applying_asks_in_order(instance, ready, provider, works, answers, at);
    law_applying_asks_in_order(instance, ready, provider, works, answers, k);
}

/// The plan of an instance goes by the instance's name, whatever name the provider gave it.
pub proof fn law_plan_names_its_instance<P: Provider + ?Sized>(
    instance: Seq<char>,
    ready: Prepared,
    provider: &P,
    outcome: Result<ProviderPlanView, ExecuteErrorView>,
)
    requires
        may_plan(instance, ready, provider, outcome),
    ensures
        outcome matches Ok(plan) ==> plan.instance_name == instance,
{
    let end = choose|end: InstanceWork| #[trigger]
        may_end(Goal::Plan, instance, ready, provider, end) && match end {
            InstanceWork::Planned(plan) => outcome == Ok::<ProviderPlanView, ExecuteErrorView>(
                plan@,
            ),
            InstanceWork::Failed(error) => outcome == Err::<ProviderPlanView, ExecuteErrorView>(
                error@,
            ),
            _ => false,
        };
    let (works, answers) = choose|works: Seq<InstanceWork>, answers: Seq<ProviderAnswer>| #[trigger]
        worked(Goal::Plan, instance, ready, provider, works, answers) && works.last() == end;
    let n = answers.len() as int;
    if end is Planned {
        law_planning_only_plans(instance, ready, provider, works, answers, n - 1);
        assert(stepped(
            Goal::Plan,
            instance,
            ready,
            provider,
            works[n - 1],
            answers[n - 1],
            works[n - 1 + 1],
        ));
    }
}

/// What comes of an instance goes by the instance's name.
pub proof fn law_outcome_names_its_instance<P: Provider + ?Sized>(
    instance: Seq<char>,
    ready: Prepared,
    provider: &P,
    outcome: InstanceOutcomeView,
)
    requires
        may_reconcile(instance, ready, provider, outcome),
    ensures
        outcome matches InstanceOutcomeView::Applied { name, .. } ==> name == instance,
{
}

/// That `report` may come of applying a plan: the empty one where it has no changes.
pub open spec fn may_report<P: Provider + ?Sized>(
    plan: ProviderPlan,
    ready: Prepared,
    provider: &P,
    report: ApplyReportView,
) -> bool {
    if plan@.changes.len() == 0 {
        report == no_report()
    } else {
        exists|given: ApplyReport|
            report == given@ && #[trigger] call_ensures(
                P::apply,
                (provider, &plan, &ready.config),
                Ok::<ApplyReport, ProviderError>(given),
            )
    }
}

/// The report of an instance that came through is the one that the provider gave when the plan
/// was applied, or the empty one where the plan had no changes.
pub proof fn law_report_is_that_of_apply<P: Provider + ?Sized>(
    instance: Seq<char>,
    ready: Prepared,
    provider: &P,
    outcome: InstanceOutcomeView,
)
    requires
        may_reconcile(instance, ready, provider, outcome),
    ensures
        outcome matches InstanceOutcomeView::Applied { report, .. } ==> exists|
            works: Seq<InstanceWork>,
            answers: Seq<ProviderAnswer>,
        | #[trigger]
            worked(Goal::Apply, instance, ready, provider, works, answers) && works.len() > 3
                && works[2] is Planned && may_report(
                works[2]->Planned_0,
                ready,
                provider,
                report,
            ),
{
    let end = choose|end: InstanceWork| #[trigger]
        may_end(Goal::Apply, instance, ready, provider, end) && outcome_of(instance, end) == Some(
            outcome,
        );
    let (works, answers) = choose|works: Seq<InstanceWork>, answers: Seq<ProviderAnswer>| #[trigger]
        worked(Goal::Apply, instance, ready, provider, works, answers) && works.last() == end;
    if let InstanceWork::Observed(report, live) = end {
        law_applying_asks_in_order(
            instance,
            ready,
            provider,
            works,
            answers,
            answers.len() as int,
        );
        assert(stepped(
            Goal::Apply,
            instance,
            ready,
            provider,
            works[2],
            answers[2],
            works[3],
        ));
        let plan = works[2]->Planned_0;
        if plan@.changes.len() > 0 {
            assert(call_ensures(
                P::apply,
                (provider, &plan, &ready.config),
                Ok::<ApplyReport, ProviderError>(report),
            ));
        }
        assert(worked(Goal::Apply, instance, ready, provider, works, answers));
    }
}

/// A run that plans all instances, wave by wave.
#[derive(Debug, PartialEq)]
pub struct PlanRun {
    /// The waves of instances.
    pub waves: Vec<Vec<String>>,
    /// How many waves are planned.
    pub done: usize,
    /// The plans so far.
    pub plan: Plan,
}

/// What a [`PlanRun`] stands for.
pub struct PlanRunView {
    pub waves: Seq<Seq<Seq<char>>>,
    pub done: int,
    pub plan: Seq<ProviderPlanView>,
}

impl View for PlanRun {
    type V = PlanRunView;

    open spec fn view(&self) -> PlanRunView {
        PlanRunView { waves: wave_views(self.waves@), done: self.done as int, plan: self.plan@ }
    }
}

/// The waves of a tree that passed the check of its `derived-from` inputs, or why it has none.
pub open spec fn may_start(
    root: JsonView,
    sources: SourcesView,
    waves: Result<Seq<Seq<Seq<char>>>, ExecuteErrorView>,
) -> bool {
    match waves {
        Ok(waves) => may_have_waves(
            root,
            sources,
            Ok::<Seq<Seq<Seq<char>>>, DagErrorView>(waves),
        ),
        Err(ExecuteErrorView::DependencyResolution(error)) => may_have_waves(
            root,
            sources,
            Err::<Seq<Seq<Seq<char>>>, DagErrorView>(error),
        ),
        Err(_) => false,
    }
}

/// The waves of a tree, checked.  The check never fails on waves that were computed for the
/// tree.
fn checked_waves(root: &Json, sources: &Sources) -> (waves: Result<Vec<Vec<String>>, ExecuteError>)
    ensures
        may_start(
            root@,
            sources@,
            match waves {
                Ok(waves) => Ok(wave_views(waves@)),
                Err(error) => Err(error@),
            },
        ),
{
    match execution_waves(root, sources) {
        Err(error) => Err(ExecuteError::DependencyResolution(error)),
        Ok(waves) => {
            proof {
                law_execution_waves_are_saturated(root@, sources@, wave_views(waves@));
            }
            match check_derived_from_saturation(root, &waves) {
                Ok(_) => Ok(waves),
                Err(error) => Err(ExecuteError::SaturationCheck(error)),
            }
        }
    }
}

/// The plans up to the first error.
pub open spec fn plans_of(
    outcomes: Seq<Result<ProviderPlanView, ExecuteErrorView>>,
    n: int,
) -> Result<Seq<ProviderPlanView>, ExecuteErrorView>
    decreases n,
{
    if n <= 0 {
        Ok(Seq::empty())
    } else {
        match plans_of(outcomes, n - 1) {
            Err(error) => Err(error),
            Ok(plans) => match outcomes[n - 1] {
                Ok(plan) => Ok(plans.push(plan)),
                Err(error) => Err(error),
            },
        }
    }
}

/// What a list of results of planning stands for.
pub open spec fn planned_views(outcomes: Seq<Result<ProviderPlan, ExecuteError>>) -> Seq<
    Result<ProviderPlanView, ExecuteErrorView>,
> {
    outcomes.map_values(|outcome: Result<ProviderPlan, ExecuteError>| result_view(outcome))
}

proof fn lemma_plans_stop(
    outcomes: Seq<Result<ProviderPlanView, ExecuteErrorView>>,
    n: int,
    m: int,
)
    requires
        0 <= n <= m,
        plans_of(outcomes, n) is Err,
    ensures
        plans_of(outcomes, m) == plans_of(outcomes, n),
    decreases m - n,
{
    if n < m {
        lemma_plans_stop(outcomes, n, m - 1);
    }
}

/// That `run` may be the beginning of a run over the instances in `root`.
pub open spec fn plan_begins(
    root: JsonView,
    sources: SourcesView,
    run: Result<PlanRunView, ExecuteErrorView>,
) -> bool {
    match run {
        Ok(run) => {
            &&& may_start(root, sources, Ok::<Seq<Seq<Seq<char>>>, ExecuteErrorView>(run.waves))
            &&& run.done == 0
            &&& run.plan.len() == 0
        },
        Err(error) => may_start(
            root,
            sources,
            Err::<Seq<Seq<Seq<char>>>, ExecuteErrorView>(error),
        ),
    }
}

/// The instances to be planned next.
pub open spec fn plan_wave(run: PlanRunView) -> Option<Seq<Seq<char>>> {
    if run.done < run.waves.len() {
        Some(run.waves[run.done])
    } else {
        None
    }
}

/// The run after a wave: the plans follow those of the waves before, or the first error ends the
/// run.
pub open spec fn plan_after_wave(
    run: PlanRunView,
    outcomes: Seq<Result<ProviderPlanView, ExecuteErrorView>>,
) -> Result<PlanRunView, ExecuteErrorView> {
    match plans_of(outcomes, outcomes.len() as int) {
        Ok(plans) => Ok(
            PlanRunView { waves: run.waves, done: run.done + 1, plan: run.plan + plans },
        ),
        Err(error) => Err(error),
    }
}

impl PlanRun {
    /// Begins a run over the instances in `root`.
    pub fn start(root: &Json, sources: &Sources) -> (run: Result<PlanRun, ExecuteError>)
        ensures
            plan_begins(root@, sources@, result_view(run)),
    {
        match checked_waves(root, sources) {
            Ok(waves) => Ok(PlanRun { waves, done: 0, plan: Plan::default() }),
            Err(error) => Err(error),
        }
    }

    /// The instances to be planned next, in parallel; none when all waves are planned.
    pub fn next_wave(&self) -> (names: Option<Vec<String>>)
        ensures
            match names {
                Some(names) => plan_wave(self@) == Some(views(names@)),
                None => plan_wave(self@) is None,
            },
    {
        if self.done < self.waves.len() {
            Some(copy_texts(&self.waves[self.done]))
        } else {
            None
        }
    }

    /// Ends a wave with what came of each of its instances, in their order: their plans follow
    /// those of the waves before.  The first error ends the run.
    pub fn finish_wave(self, outcomes: Vec<Result<ProviderPlan, ExecuteError>>) -> (run: Result<
        PlanRun,
        ExecuteError,
    >)
        requires
            plan_wave(self@) matches Some(names) && plans_of_wave(
                planned_views(outcomes@),
                names,
            ),
        ensures
            result_view(run) == plan_after_wave(self@, planned_views(outcomes@)),
    {
        assert(self.done < self.waves.len());
        let done = self.done + 1;
        let ghost given = outcomes@;
        let ghost all = planned_views(outcomes@);
        let ghost start = self@.plan;
        let mut plans = self.plan.provider_plans;
        let ghost mut taken: Seq<ProviderPlanView> = Seq::empty();
        assert(start + taken =~= start);
        let mut rest = reverse(outcomes);
        while rest.len() > 0
            invariant
                given == outcomes@,
                all == planned_views(given),
                rest@.len() <= given.len(),
                forall|i: int|
                    0 <= i < rest@.len() ==> #[trigger] rest@[i] == given[given.len() - 1 - i],
                plans_of(all, all.len() - rest@.len()) == Ok::<
                    Seq<ProviderPlanView>,
                    ExecuteErrorView,
                >(taken),
                views(plans@) == start + taken,
            decreases rest.len(),
        {
            let ghost n = all.len() - rest@.len();
            assert(rest@[rest@.len() - 1] == given[n]);
            assert(all[n] == result_view(given[n]));
            match rest.pop() {
                Some(Ok(plan)) => {
                    proof {
                        lemma_views_push(plans@, plan);
                        assert((start + taken).push(plan@) =~= start + taken.push(plan@));
                        taken = taken.push(plan@);
                    }
                    plans.push(plan);
                }
                Some(Err(error)) => {
                    proof {
                        lemma_plans_stop(all, n + 1, all.len() as int);
                    }
                    return Err(error);
                }
                None => {}
            }
        }
        Ok(PlanRun { waves: self.waves, done, plan: Plan { provider_plans: plans } })
    }
}

/// A run that applies all instances, wave by wave.
#[derive(Debug, PartialEq)]
pub struct ApplyRun {
    /// The waves of instances.
    pub waves: Vec<Vec<String>>,
    /// How many waves are applied.
    pub done: usize,
    /// The desired state, in which `derived-from` fields are resolved between waves.
    pub active_root: Json,
    /// The live state after its apply, by instance.
    pub crystalized: Json,
    /// The reports so far.
    pub reports: Vec<(String, ApplyReport)>,
}

/// What an [`ApplyRun`] stands for.
pub struct ApplyRunView {
    pub waves: Seq<Seq<Seq<char>>>,
    pub done: int,
    pub active_root: JsonView,
    pub crystalized: JsonView,
    pub reports: Seq<(Seq<char>, ApplyReportView)>,
}

impl View for ApplyRun {
    type V = ApplyRunView;

    open spec fn view(&self) -> ApplyRunView {
        ApplyRunView {
            waves: wave_views(self.waves@),
            done: self.done as int,
            active_root: self.active_root@,
            crystalized: self.crystalized@,
            reports: report_views(self.reports@),
        }
    }
}

/// The errors among the first `n` outcomes.
pub open spec fn errors_of(outcomes: Seq<InstanceOutcomeView>, n: int) -> Seq<ExecuteErrorView>
    decreases n,
{
    if n <= 0 {
        Seq::empty()
    } else {
        let before = errors_of(outcomes, n - 1);
        match outcomes[n - 1] {
            InstanceOutcomeView::Failed(error) => before.push(error),
            InstanceOutcomeView::Applied { name, live: Err(source), .. } => before.push(
                ExecuteErrorView::ProviderOperation { instance: name, source },
            ),
            InstanceOutcomeView::Applied { live: Ok(_), .. } => before,
        }
    }
}

/// The reports of the instances among the first `n` that came through.
pub open spec fn successes_of(outcomes: Seq<InstanceOutcomeView>, n: int) -> Seq<
    (Seq<char>, ApplyReportView),
>
    decreases n,
{
    if n <= 0 {
        Seq::empty()
    } else {
        let before = successes_of(outcomes, n - 1);
        match outcomes[n - 1] {
            InstanceOutcomeView::Applied { name, report, live: Ok(_) } => before.push(
                (name, report),
            ),
            _ => before,
        }
    }
}

/// The crystalized tree with the live states of the instances among the first `n` that came
/// through.
pub open spec fn crystalized_with(
    crystalized: JsonView,
    outcomes: Seq<InstanceOutcomeView>,
    n: int,
) -> JsonView
    decreases n,
{
    if n <= 0 {
        crystalized
    } else {
        let before = crystalized_with(crystalized, outcomes, n - 1);
        match outcomes[n - 1] {
            InstanceOutcomeView::Applied { name, live: Ok(live), .. } => match before {
                JsonView::Object(entries) => JsonView::Object(put(entries, name, live)),
                other => other,
            },
            _ => before,
        }
    }
}

/// That `run` may be the beginning of a run over the instances in `root`.
pub open spec fn apply_begins(
    root: JsonView,
    sources: SourcesView,
    run: Result<ApplyRunView, ExecuteErrorView>,
) -> bool {
    match run {
        Ok(run) => {
            &&& may_start(root, sources, Ok::<Seq<Seq<Seq<char>>>, ExecuteErrorView>(run.waves))
            &&& run.done == 0
            &&& run.active_root == root
            &&& run.crystalized == JsonView::Object(Seq::empty())
            &&& run.reports.len() == 0
        },
        Err(error) => may_start(
            root,
            sources,
            Err::<Seq<Seq<Seq<char>>>, ExecuteErrorView>(error),
        ),
    }
}

/// That `next` may be the run before its next wave, with the instances to be applied then: in
/// the active root, the `derived-from` fields whose inputs are crystalized are resolved.
pub open spec fn apply_wave(
    run: ApplyRunView,
    next: Result<(ApplyRunView, Option<Seq<Seq<char>>>), ExecuteErrorView>,
) -> bool {
    match next {
        Ok((ready, Some(names))) => {
            &&& run.done < run.waves.len()
            &&& names == run.waves[run.done]
            &&& tree_settles(
                run.active_root,
                run.crystalized,
                Ok::<JsonView, DerivedFromErrorView>(ready.active_root),
            )
            &&& ready == (ApplyRunView { active_root: ready.active_root, ..run })
        },
        Ok((ready, None)) => run.done >= run.waves.len() && ready == run,
        Err(error) => {
            &&& run.done < run.waves.len()
            &&& error matches ExecuteErrorView::DerivedFromResolution(source) && tree_settles(
                run.active_root,
                run.crystalized,
                Err::<JsonView, DerivedFromErrorView>(source),
            )
        },
    }
}

/// The run after a wave: the live states of the instances that came through are crystalized and
/// their reports are kept; if any failed, the run ends with all errors and the other reports.
pub open spec fn apply_after_wave(
    run: ApplyRunView,
    outcomes: Seq<InstanceOutcomeView>,
) -> Result<ApplyRunView, ExecuteErrorView> {
    let n = outcomes.len() as int;
    if errors_of(outcomes, n).len() == 0 {
        Ok(
            ApplyRunView {
                done: run.done + 1,
                crystalized: crystalized_with(run.crystalized, outcomes, n),
                reports: run.reports + successes_of(outcomes, n),
                ..run
            },
        )
    } else {
        Err(
            ExecuteErrorView::PartialWaveFailure {
                errors: errors_of(outcomes, n),
                successful_reports: successes_of(outcomes, n),
            },
        )
    }
}

impl ApplyRun {
    /// Begins a run over the instances in `root`.
    pub fn start(root: &Json, sources: &Sources) -> (run: Result<ApplyRun, ExecuteError>)
        ensures
            apply_begins(root@, sources@, result_view(run)),
    {
        match checked_waves(root, sources) {
            Ok(waves) => Ok(
                ApplyRun {
                    waves,
                    done: 0,
                    active_root: root.copy(),
                    crystalized: Json::empty_object(),
                    reports: Vec::new(),
                },
            ),
            Err(error) => Err(error),
        }
    }

    /// The instances to be applied next, in parallel, against the active root; none when all
    /// waves are applied.  Before a wave, every `derived-from` field whose inputs are crystalized
    /// by now is resolved in the active root.
    pub fn next_wave(self) -> (next: Result<(ApplyRun, Option<Vec<String>>), ExecuteError>)
        ensures
            apply_wave(
                self@,
                match next {
                    Ok((run, Some(names))) => Ok((run@, Some(views(names@)))),
                    Ok((run, None)) => Ok((run@, None)),
                    Err(error) => Err(error@),
                },
            ),
    {
        if self.done >= self.waves.len() {
            return Ok((self, None));
        }
        match resolve_derived_from_tree(&self.active_root, &self.crystalized) {
            Err(error) => Err(ExecuteError::DerivedFromResolution(error)),
            Ok(active_root) => {
                let names = copy_texts(&self.waves[self.done]);
                let run = ApplyRun {
                    waves: self.waves,
                    done: self.done,
                    active_root,
                    crystalized: self.crystalized,
                    reports: self.reports,
                };
                Ok((run, Some(names)))
            }
        }
    }

    /// Ends a wave with what came of each of its instances, in their order: the live states of
    /// those that came through are crystalized and their reports are kept.  If any failed, the run ends with all their
    /// errors and the reports of the others.
    pub fn finish_wave(self, outcomes: Vec<InstanceOutcome>) -> (run: Result<
        ApplyRun,
        ExecuteError,
    >)
        requires
            self@.done < self@.waves.len(),
            outcomes_of_wave(views(outcomes@), self@.waves[self@.done]),
        ensures
            result_view(run) == apply_after_wave(self@, views(outcomes@)),
    {
        assert(self.done < self.waves.len());
        let done = self.done + 1;
        let ghost given = outcomes@;
        let ghost all = views(outcomes@);
        let ghost tree = self@.crystalized;
        let mut crystalized = self.crystalized;
        let mut errors: Vec<ExecuteError> = Vec::new();
        let mut successes: Vec<(String, ApplyReport)> = Vec::new();
        assert(views(errors@) =~= Seq::empty());
        assert(report_views(successes@) =~= Seq::empty());
        let mut rest = reverse(outcomes);
        while rest.len() > 0
            invariant
                given == outcomes@,
                all == views(given),
                rest@.len() <= given.len(),
                forall|i: int|
                    0 <= i < rest@.len() ==> #[trigger] rest@[i] == given[given.len() - 1 - i],
                views(errors@) == errors_of(all, all.len() - rest@.len()),
                report_views(successes@) == successes_of(all, all.len() - rest@.len()),
                crystalized@ == crystalized_with(tree, all, all.len() - rest@.len()),
            decreases rest.len(),
        {
            let ghost n = all.len() - rest@.len();
            assert(rest@[rest@.len() - 1] == given[n]);
            assert(all[n] == given[n]@);
            match rest.pop() {
                Some(InstanceOutcome::Applied { name, report, live }) => match live {
                    Ok(live) => {
                        crystalized = crystalized.with_member(name.as_str(), live);
                        let ghost before = report_views(successes@);
                        let ghost added = (name@, report@);
                        successes.push((name, report));
                        assert(report_views(successes@) =~= before.push(added));
                    }
                    Err(source) => {
                        let error = ExecuteError::ProviderOperation { instance: name, source };
                        proof {
                            lemma_views_push(errors@, error);
                        }
                        errors.push(error);
                    }
                },
                Some(InstanceOutcome::Failed(error)) => {
                    proof {
                        lemma_views_push(errors@, error);
                    }
                    errors.push(error);
                }
                None => {}
            }
        }
        if errors.len() > 0 {
            proof {
                lemma_partial_failure(errors, successes);
            }
            return Err(
                ExecuteError::PartialWaveFailure { errors, successful_reports: successes },
            );
        }
        let mut reports = self.reports;
        let ghost before = report_views(reports@);
        let ghost added = report_views(successes@);
        reports.append(&mut successes);
        assert(report_views(reports@) =~= before + added);
        Ok(
            ApplyRun {
                waves: self.waves,
                done,
                active_root: self.active_root,
                crystalized,
                reports,
            },
        )
    }
}

/// The names under which reports were made.
pub open spec fn report_names(reports: Seq<(Seq<char>, ApplyReportView)>) -> Seq<Seq<char>> {
    reports.map_values(|r: (Seq<char>, ApplyReportView)| r.0)
}

/// The outcomes are those of the instances of a wave, in their order: each that was applied goes
/// by its name.
pub open spec fn outcomes_of_wave(
    outcomes: Seq<InstanceOutcomeView>,
    wave: Seq<Seq<char>>,
) -> bool {
    &&& outcomes.len() == wave.len()
    &&& forall|i: int|
        0 <= i < outcomes.len() ==> ((#[trigger] outcomes[i]) matches
            InstanceOutcomeView::Applied { name, .. } ==> name == wave[i])
}

proof fn lemma_successes_named(
    outcomes: Seq<InstanceOutcomeView>,
    wave: Seq<Seq<char>>,
    n: int,
)
    requires
        outcomes_of_wave(outcomes, wave),
        0 <= n <= outcomes.len(),
        errors_of(outcomes, n).len() == 0,
    ensures
        report_names(successes_of(outcomes, n)) == wave.take(n),
    decreases n,
{
    if n <= 0 {
        assert(wave.take(0) =~= Seq::empty());
        assert(report_names(successes_of(outcomes, n)) =~= Seq::empty());
    } else {
        lemma_successes_named(outcomes, wave, n - 1);
        let before = successes_of(outcomes, n - 1);
        let all = successes_of(outcomes, n);
        assert(outcomes[n - 1] matches InstanceOutcomeView::Applied { name, .. } ==> name == wave[n
            - 1]);
        assert(all == before.push(all.last()));
        assert(report_names(all) =~= report_names(before).push(wave[n - 1]));
        assert(wave.take(n) =~= wave.take(n - 1).push(wave[n - 1]));
    }
}

/// The reports come in the order of the waves: where they did so for the waves before, they do
/// so after one more wave.
pub proof fn law_reports_follow_waves(
    waves: Seq<Seq<Seq<char>>>,
    done: int,
    reports: Seq<(Seq<char>, ApplyReportView)>,
    outcomes: Seq<InstanceOutcomeView>,
)
    requires
        0 <= done < waves.len(),
        report_names(reports) == in_order(waves.take(done)),
        outcomes_of_wave(outcomes, waves[done]),
        errors_of(outcomes, outcomes.len() as int).len() == 0,
    ensures
        report_names(reports + successes_of(outcomes, outcomes.len() as int)) == in_order(
            waves.take(done + 1),
        ),
{
    let added = successes_of(outcomes, outcomes.len() as int);
    lemma_successes_named(outcomes, waves[done], outcomes.len() as int);
    assert(waves[done].take(outcomes.len() as int) =~= waves[done]);
    assert(waves.take(done + 1).drop_last() =~= waves.take(done));
    assert(waves.take(done + 1).last() == waves[done]);
    assert(report_names(reports + added) =~= report_names(reports) + report_names(added));
}

/// The names under which plans were made.
pub open spec fn plan_names(plans: Seq<ProviderPlanView>) -> Seq<Seq<char>> {
    plans.map_values(|plan: ProviderPlanView| plan.instance_name)
}

proof fn lemma_plans_named(
    outcomes: Seq<Result<ProviderPlanView, ExecuteErrorView>>,
    wave: Seq<Seq<char>>,
    n: int,
)
    requires
        0 <= n <= outcomes.len(),
        outcomes.len() == wave.len(),
        forall|i: int|
            0 <= i < outcomes.len() ==> ((#[trigger] outcomes[i]) matches Ok(plan)
                ==> plan.instance_name == wave[i]),
        plans_of(outcomes, n) is Ok,
    ensures
        plan_names(plans_of(outcomes, n)->Ok_0) == wave.take(n),
    decreases n,
{
    if n <= 0 {
        assert(wave.take(0) =~= Seq::empty());
        assert(plan_names(plans_of(outcomes, n)->Ok_0) =~= Seq::empty());
    } else {
        lemma_plans_named(outcomes, wave, n - 1);
        let before = plans_of(outcomes, n - 1)->Ok_0;
        let all = plans_of(outcomes, n)->Ok_0;
        assert(outcomes[n - 1] is Ok);
        assert(plan_names(all) =~= plan_names(before).push(wave[n - 1]));
        assert(wave.take(n) =~= wave.take(n - 1).push(wave[n - 1]));
    }
}

/// The plans come in the order of the waves: where they did so for the waves before, they do so
/// after one more wave.
pub proof fn law_plans_follow_waves(
    waves: Seq<Seq<Seq<char>>>,
    done: int,
    plans: Seq<ProviderPlanView>,
    outcomes: Seq<Result<ProviderPlanView, ExecuteErrorView>>,
)
    requires
        0 <= done < waves.len(),
        plan_names(plans) == in_order(waves.take(done)),
        plans_of_wave(outcomes, waves[done]),
        plans_of(outcomes, outcomes.len() as int) is Ok,
    ensures
        plan_names(plans + plans_of(outcomes, outcomes.len() as int)->Ok_0) == in_order(
            waves.take(done + 1),
        ),
{
    let added = plans_of(outcomes, outcomes.len() as int)->Ok_0;
    lemma_plans_named(outcomes, waves[done], outcomes.len() as int);
    assert(waves[done].take(outcomes.len() as int) =~= waves[done]);
    assert(waves.take(done + 1).drop_last() =~= waves.take(done));
    assert(waves.take(done + 1).last() == waves[done]);
    assert(plan_names(plans + added) =~= plan_names(plans) + plan_names(added));
}

/// The instance came through with its live state.
pub open spec fn came_through(outcome: InstanceOutcomeView, name: Seq<char>) -> bool {
    outcome matches InstanceOutcomeView::Applied { name: own, live: Ok(_), .. } && own == name
}

/// After a wave, the crystalized tree holds the live state of every instance that came through,
/// and of every other instance what it held before.
pub proof fn law_crystalized_holds_live_state(
    entries: Seq<(Seq<char>, JsonView)>,
    outcomes: Seq<InstanceOutcomeView>,
    n: int,
    name: Seq<char>,
)
    requires
        0 <= n <= outcomes.len(),
    ensures
        crystalized_with(JsonView::Object(entries), outcomes, n) is Object,
        (forall|i: int| 0 <= i < n ==> !came_through(#[trigger] outcomes[i], name)) ==> member(
            crystalized_with(JsonView::Object(entries), outcomes, n),
            name,
        ) == lookup(entries, name),
        forall|k: int|
            0 <= k < n && came_through(#[trigger] outcomes[k], name) && (forall|j: int|
                k < j < n ==> !came_through(#[trigger] outcomes[j], name)) ==> member(
                crystalized_with(JsonView::Object(entries), outcomes, n),
                name,
            ) == Some(outcomes[k]->Applied_live->Ok_0),
    decreases n,
{
    if n > 0 {
        law_crystalized_holds_live_state(entries, outcomes, n - 1, name);
        let before = crystalized_with(JsonView::Object(entries), outcomes, n - 1);
        match outcomes[n - 1] {
            InstanceOutcomeView::Applied { name: own, live: Ok(live), .. } => {
                lemma_lookups_put(before->Object_0, own, live);
            },
            _ => {},
        }
        assert forall|k: int|
            0 <= k < n && came_through(#[trigger] outcomes[k], name) && (forall|j: int|
                k < j < n ==> !came_through(#[trigger] outcomes[j], name)) implies member(
            crystalized_with(JsonView::Object(entries), outcomes, n),
            name,
        ) == Some(outcomes[k]->Applied_live->Ok_0) by {
            if k < n - 1 {
                assert(!came_through(outcomes[n - 1], name));
            }
        }
    }
}

/// The outcomes of the first `n` waves are those of a run in which no instance failed.
pub open spec fn waves_came_through(
    waves: Seq<Seq<Seq<char>>>,
    outcomes: Seq<Seq<InstanceOutcomeView>>,
    n: int,
) -> bool {
    &&& 0 <= n <= waves.len()
    &&& n <= outcomes.len()
    &&& forall|w: int|
        0 <= w < n ==> outcomes_of_wave(#[trigger] outcomes[w], waves[w]) && errors_of(
            outcomes[w],
            outcomes[w].len() as int,
        ).len() == 0
}

/// The reports of a run after `n` waves.
pub open spec fn reports_after(outcomes: Seq<Seq<InstanceOutcomeView>>, n: int) -> Seq<
    (Seq<char>, ApplyReportView),
>
    decreases n,
{
    if n <= 0 {
        Seq::empty()
    } else {
        reports_after(outcomes, n - 1) + successes_of(
            outcomes[n - 1],
            outcomes[n - 1].len() as int,
        )
    }
}

/// The crystalized tree of a run after `n` waves.
pub open spec fn crystalized_after(outcomes: Seq<Seq<InstanceOutcomeView>>, n: int) -> JsonView
    decreases n,
{
    if n <= 0 {
        JsonView::Object(Seq::empty())
    } else {
        crystalized_with(
            crystalized_after(outcomes, n - 1),
            outcomes[n - 1],
            outcomes[n - 1].len() as int,
        )
    }
}

/// The reports of a run in which no instance failed come in topological order.
pub proof fn law_run_reports_in_order(
    waves: Seq<Seq<Seq<char>>>,
    outcomes: Seq<Seq<InstanceOutcomeView>>,
    n: int,
)
    requires
        waves_came_through(waves, outcomes, n),
    ensures
        report_names(reports_after(outcomes, n)) == in_order(waves.take(n)),
    decreases n,
{
    if n <= 0 {
        assert(waves.take(0) =~= Seq::empty());
        assert(report_names(reports_after(outcomes, 0)) =~= Seq::empty());
    } else {
        law_run_reports_in_order(waves, outcomes, n - 1);
        assert(outcomes_of_wave(outcomes[n - 1], waves[n - 1]));
        law_reports_follow_waves(
            waves,
            n - 1,
            reports_after(outcomes, n - 1),
            outcomes[n - 1],
        );
    }
}

/// The plans of the first `n` waves are those of a run in which no instance failed.
pub open spec fn waves_planned(
    waves: Seq<Seq<Seq<char>>>,
    outcomes: Seq<Seq<Result<ProviderPlanView, ExecuteErrorView>>>,
    n: int,
) -> bool {
    &&& 0 <= n <= waves.len()
    &&& n <= outcomes.len()
    &&& forall|w: int|
        0 <= w < n ==> plans_of_wave(#[trigger] outcomes[w], waves[w]) && plans_of(
            outcomes[w],
            outcomes[w].len() as int,
        ) is Ok
}

/// The outcomes are those of the instances of the wave, in their order.
pub open spec fn plans_of_wave(
    outcomes: Seq<Result<ProviderPlanView, ExecuteErrorView>>,
    wave: Seq<Seq<char>>,
) -> bool {
    &&& outcomes.len() == wave.len()
    &&& forall|i: int|
        0 <= i < outcomes.len() ==> ((#[trigger] outcomes[i]) matches Ok(plan)
            ==> plan.instance_name == wave[i])
}

/// The plans of a run after `n` waves.
pub open spec fn plans_after(
    outcomes: Seq<Seq<Result<ProviderPlanView, ExecuteErrorView>>>,
    n: int,
) -> Seq<ProviderPlanView>
    decreases n,
{
    if n <= 0 {
        Seq::empty()
    } else {
        plans_after(outcomes, n - 1) + plans_of(
            outcomes[n - 1],
            outcomes[n - 1].len() as int,
        )->Ok_0
    }
}

/// The plans of a run in which no instance failed come in topological order.
pub proof fn law_run_plans_in_order(
    waves: Seq<Seq<Seq<char>>>,
    outcomes: Seq<Seq<Result<ProviderPlanView, ExecuteErrorView>>>,
    n: int,
)
    requires
        waves_planned(waves, outcomes, n),
    ensures
        plan_names(plans_after(outcomes, n)) == in_order(waves.take(n)),
    decreases n,
{
    if n <= 0 {
        assert(waves.take(0) =~= Seq::empty());
        assert(plan_names(plans_after(outcomes, 0)) =~= Seq::empty());
    } else {
        law_run_plans_in_order(waves, outcomes, n - 1);
        assert(plans_of_wave(outcomes[n - 1], waves[n - 1]));
        law_plans_follow_waves(waves, n - 1, plans_after(outcomes, n - 1), outcomes[n - 1]);
    }
}

/// Without an error every instance came through.
proof fn lemma_all_came_through(outcomes: Seq<InstanceOutcomeView>, n: int, i: int)
    requires
        0 <= i < n <= outcomes.len(),
        errors_of(outcomes, n).len() == 0,
    ensures
        outcomes[i] matches InstanceOutcomeView::Applied { live: Ok(_), .. },
    decreases n,
{
    if i < n - 1 {
        lemma_all_came_through(outcomes, n - 1, i);
    }
}

/// The `i`-th instance of the wave `v` is crystalized after the wave, if no other instance of
/// the wave has its name.
proof fn lemma_crystalized_by_wave(
    waves: Seq<Seq<Seq<char>>>,
    outcomes: Seq<Seq<InstanceOutcomeView>>,
    v: int,
    i: int,
)
    requires
        waves_came_through(waves, outcomes, v + 1),
        0 <= v < waves.len(),
        0 <= i < waves[v].len(),
        sorted(waves[v]),
        crystalized_after(outcomes, v) is Object,
    ensures
        member(crystalized_after(outcomes, v + 1), waves[v][i]) == Some(
            outcomes[v][i]->Applied_live->Ok_0,
        ),
{
    let name = waves[v][i];
    let own = outcomes[v];
    let n = own.len() as int;
    assert(outcomes_of_wave(outcomes[v], waves[v]));
    lemma_all_came_through(own, n, i);
    law_crystalized_holds_live_state(crystalized_after(outcomes, v)->Object_0, own, n, name);
    assert(came_through(own[i], name));
    assert forall|j: int| i < j < n implies !came_through(#[trigger] own[j], name) by {
        lemma_all_came_through(own, n, j);
        text_lt_irreflexive(name);
        assert(text_lt(waves[v][i], waves[v][j]));
    }
}

proof fn lemma_crystalized_object(outcomes: Seq<Seq<InstanceOutcomeView>>, n: int)
    ensures
        crystalized_after(outcomes, n) is Object,
    decreases n,
{
    if n > 0 {
        lemma_crystalized_object(outcomes, n - 1);
        law_crystalized_holds_live_state(
            crystalized_after(outcomes, n - 1)->Object_0,
            outcomes[n - 1],
            outcomes[n - 1].len() as int,
            Seq::empty(),
        );
    }
}

/// After `n` waves without a failure, the crystalized tree holds the live state that each
/// instance of these waves reported after it was applied.
pub proof fn law_applied_instances_are_crystalized(
    root: JsonView,
    sources: SourcesView,
    waves: Seq<Seq<Seq<char>>>,
    outcomes: Seq<Seq<InstanceOutcomeView>>,
    n: int,
    v: int,
    i: int,
)
    requires
        may_have_waves(root, sources, Ok::<Seq<Seq<Seq<char>>>, DagErrorView>(waves)),
        waves_came_through(waves, outcomes, n),
        0 <= v < n,
        0 <= i < waves[v].len(),
    ensures
        outcomes[v][i] matches InstanceOutcomeView::Applied { live: Ok(live), .. } && member(
            crystalized_after(outcomes, n),
            waves[v][i],
        ) == Some(live),
    decreases n,
{
    let edges = lemma_waves_of_graph(root, sources, waves);
    let name = waves[v][i];
    assert(outcomes_of_wave(outcomes[v], waves[v]));
    lemma_all_came_through(outcomes[v], outcomes[v].len() as int, i);
    lemma_crystalized_object(outcomes, n - 1);
    if v == n - 1 {
        assert(waves[v].len() > 0 && sorted(waves[v]));
        lemma_crystalized_by_wave(waves, outcomes, v, i);
    } else {
        law_applied_instances_are_crystalized(root, sources, waves, outcomes, n - 1, v, i);
        let last = outcomes[n - 1];
        assert(outcomes_of_wave(outcomes[n - 1], waves[n - 1]));
        assert forall|j: int| 0 <= j < last.len() implies !came_through(
            #[trigger] last[j],
            name,
        ) by {
            if came_through(last[j], name) {
                assert(waves[n - 1][j] == name);
                assert(in_wave(waves, name, n - 1));
                assert(in_wave(waves, name, v));
            }
        }
        law_crystalized_holds_live_state(
            crystalized_after(outcomes, n - 1)->Object_0,
            last,
            last.len() as int,
            name,
        );
    }
}

/// The graph of which the waves are.
proof fn lemma_waves_of_graph(
    root: JsonView,
    sources: SourcesView,
    waves: Seq<Seq<Seq<char>>>,
) -> (edges: Seq<(Seq<char>, Seq<Seq<char>>)>)
    requires
        may_have_waves(root, sources, Ok::<Seq<Seq<Seq<char>>>, DagErrorView>(waves)),
    ensures
        collected(root, sources, Ok::<Seq<(Seq<char>, Seq<Seq<char>>)>, DagErrorView>(edges)),
        is_waves(edges, waves),
{
    let outcome = Ok::<Seq<Seq<Seq<char>>>, DagErrorView>(waves);
    let found = choose|found: Result<Seq<(Seq<char>, Seq<Seq<char>>)>, DagErrorView>| #[trigger]
        collected(root, sources, found) && waves_follow(found, outcome);
    found->Ok_0
}

/// When the wave of an instance comes and no instance failed before, the live state of every
/// other instance that its `derived-from` fields refer to is crystalized.
pub proof fn law_inputs_are_crystalized(
    root: JsonView,
    sources: SourcesView,
    waves: Seq<Seq<Seq<char>>>,
    outcomes: Seq<Seq<InstanceOutcomeView>>,
    n: int,
    j: int,
    k: int,
)
    requires
        may_have_waves(root, sources, Ok::<Seq<Seq<Seq<char>>>, DagErrorView>(waves)),
        waves_came_through(waves, outcomes, n),
        0 <= j < instance_nodes(members(root), members(root).len() as int).len(),
        0 <= k < instance_nodes(members(root), members(root).len() as int)[j].inputs.len(),
        in_wave(
            waves,
            instance_nodes(members(root), members(root).len() as int)[j].owning_instance,
            n,
        ),
    ensures
        ({
            let node = instance_nodes(members(root), members(root).len() as int)[j];
            instance_named(node.inputs[k].1) matches Some(name) && (name == node.owning_instance
                || member(crystalized_after(outcomes, n), name) is Some)
        }),
{
    let node = instance_nodes(members(root), members(root).len() as int)[j];
    let edges = lemma_waves_of_graph(root, sources, waves);
    law_execution_waves_are_saturated(root, sources, waves);
    law_saturated_inputs_come_earlier(root, waves, j, k);
    let name = instance_named(node.inputs[k].1)->0;
    if name != node.owning_instance {
        lemma_wave_index(waves, node.owning_instance, n);
        lemma_wave_index_found(waves, name);
        let v = wave_index(waves, name)->0;
        let i = choose|i: int| 0 <= i < waves[v].len() && waves[v][i] == name;
        law_applied_instances_are_crystalized(root, sources, waves, outcomes, n, v, i);
    }
}

/// The states of a planning run: from its beginning, each follows from the one before by the end
/// of a wave with the given outcomes.
pub open spec fn plan_trace(
    root: JsonView,
    sources: SourcesView,
    runs: Seq<PlanRunView>,
    outcomes: Seq<Seq<Result<ProviderPlanView, ExecuteErrorView>>>,
) -> bool {
    &&& runs.len() == outcomes.len() + 1
    &&& plan_begins(root, sources, Ok::<PlanRunView, ExecuteErrorView>(runs[0]))
    &&& forall|w: int|
        0 <= w < outcomes.len() ==> plan_steps(runs[w], #[trigger] outcomes[w], runs[w + 1])
}

/// One wave of a planning run: it is handed out, and it ends with the outcomes of its instances.
pub open spec fn plan_steps(
    run: PlanRunView,
    outcomes: Seq<Result<ProviderPlanView, ExecuteErrorView>>,
    after: PlanRunView,
) -> bool {
    &&& plan_wave(run) matches Some(names)
    &&& plans_of_wave(outcomes, names)
    &&& plan_after_wave(run, outcomes) == Ok::<PlanRunView, ExecuteErrorView>(after)
}

/// After `n` waves a planning run holds the plans of these waves, and the wave that comes next is
/// the one after them.
pub proof fn law_plan_run_follows_its_outcomes(
    root: JsonView,
    sources: SourcesView,
    runs: Seq<PlanRunView>,
    outcomes: Seq<Seq<Result<ProviderPlanView, ExecuteErrorView>>>,
    n: int,
)
    requires
        plan_trace(root, sources, runs, outcomes),
        0 <= n <= outcomes.len(),
    ensures
        runs[n].waves == runs[0].waves,
        runs[n].done == n,
        n <= runs[0].waves.len(),
        runs[n].plan == plans_after(outcomes, n),
        waves_planned(runs[0].waves, outcomes, n),
    decreases n,
{
    if n > 0 {
        law_plan_run_follows_its_outcomes(root, sources, runs, outcomes, n - 1);
        assert(plan_steps(runs[n - 1], outcomes[n - 1], runs[n - 1 + 1]));
    } else {
        assert(runs[0].plan =~= Seq::empty());
    }
}

/// A planning run that has come to its end holds one plan for each instance, in topological
/// order, each under the name of its instance.
pub proof fn law_complete_plan_run(
    root: JsonView,
    sources: SourcesView,
    runs: Seq<PlanRunView>,
    outcomes: Seq<Seq<Result<ProviderPlanView, ExecuteErrorView>>>,
    name: Seq<char>,
)
    requires
        plan_trace(root, sources, runs, outcomes),
        plan_wave(runs.last()) is None,
    ensures
        plan_names(runs.last().plan) == in_order(runs[0].waves),
        in_order(runs[0].waves).no_duplicates(),
        in_order(runs[0].waves).contains(name) <==> has_key(members(root), name),
{
    let waves = runs[0].waves;
    let n = outcomes.len() as int;
    law_plan_run_follows_its_outcomes(root, sources, runs, outcomes, n);
    law_run_plans_in_order(waves, outcomes, n);
    assert(waves.take(n) =~= waves);
    lemma_instances_in_order(root, sources, waves, name);
}

/// The waves of a tree, one after the other, hold every instance once.
proof fn lemma_instances_in_order(
    root: JsonView,
    sources: SourcesView,
    waves: Seq<Seq<Seq<char>>>,
    name: Seq<char>,
)
    requires
        may_have_waves(root, sources, Ok::<Seq<Seq<Seq<char>>>, DagErrorView>(waves)),
    ensures
        in_order(waves).no_duplicates(),
        in_order(waves).contains(name) <==> has_key(members(root), name),
{
    let edges = lemma_waves_of_graph(root, sources, waves);
    let top = members(root);
    law_order_complete(edges, waves, name);
    law_graph_of_instances(root, sources, edges);
    assert(keys_of(edges).len() == edges.len() && keys_of(top).len() == top.len());
    if has_key(edges, name) {
        let i = choose|i: int| 0 <= i < edges.len() && (#[trigger] edges[i]).0 == name;
        assert(keys_of(edges)[i] == keys_of(top)[i]);
        assert(top[i].0 == name);
    }
    if has_key(top, name) {
        let i = choose|i: int| 0 <= i < top.len() && (#[trigger] top[i]).0 == name;
        assert(keys_of(edges)[i] == keys_of(top)[i]);
        assert(edges[i].0 == name);
    }
}

/// The states of an applying run: from its beginning, each follows from the one before by the
/// handing out of a wave and its end with the given outcomes.
pub open spec fn apply_trace(
    root: JsonView,
    sources: SourcesView,
    runs: Seq<ApplyRunView>,
    outcomes: Seq<Seq<InstanceOutcomeView>>,
) -> bool {
    &&& runs.len() == outcomes.len() + 1
    &&& apply_begins(root, sources, Ok::<ApplyRunView, ExecuteErrorView>(runs[0]))
    &&& forall|w: int|
        0 <= w < outcomes.len() ==> apply_steps(runs[w], #[trigger] outcomes[w], runs[w + 1])
}

/// One wave of an applying run: it is handed out, and it ends with the outcomes of its instances.
pub open spec fn apply_steps(
    run: ApplyRunView,
    outcomes: Seq<InstanceOutcomeView>,
    after: ApplyRunView,
) -> bool {
    exists|ready: ApplyRunView, names: Seq<Seq<char>>| #[trigger]
        apply_wave(
            run,
            Ok::<(ApplyRunView, Option<Seq<Seq<char>>>), ExecuteErrorView>((ready, Some(names))),
        ) && outcomes_of_wave(outcomes, names) && apply_after_wave(ready, outcomes) == Ok::<
            ApplyRunView,
            ExecuteErrorView,
        >(after)
}

/// After `n` waves an applying run holds the reports and the live states of these waves, no
/// instance of them failed, and the wave that comes next is the one after them.
pub proof fn law_apply_run_follows_its_outcomes(
    root: JsonView,
    sources: SourcesView,
    runs: Seq<ApplyRunView>,
    outcomes: Seq<Seq<InstanceOutcomeView>>,
    n: int,
)
    requires
        apply_trace(root, sources, runs, outcomes),
        0 <= n <= outcomes.len(),
    ensures
        runs[n].waves == runs[0].waves,
        runs[n].done == n,
        n <= runs[0].waves.len(),
        runs[n].reports == reports_after(outcomes, n),
        runs[n].crystalized == crystalized_after(outcomes, n),
        waves_came_through(runs[0].waves, outcomes, n),
    decreases n,
{
    if n > 0 {
        law_apply_run_follows_its_outcomes(root, sources, runs, outcomes, n - 1);
        assert(apply_steps(runs[n - 1], outcomes[n - 1], runs[n - 1 + 1]));
    } else {
        assert(runs[0].reports =~= Seq::empty());
    }
}

/// An applying run that has come to its end holds one report for each instance, in topological
/// order.
pub proof fn law_complete_apply_run(
    root: JsonView,
    sources: SourcesView,
    runs: Seq<ApplyRunView>,
    outcomes: Seq<Seq<InstanceOutcomeView>>,
    name: Seq<char>,
)
    requires
        apply_trace(root, sources, runs, outcomes),
        runs.last().done >= runs.last().waves.len(),
    ensures
        report_names(runs.last().reports) == in_order(runs[0].waves),
        in_order(runs[0].waves).no_duplicates(),
        in_order(runs[0].waves).contains(name) <==> has_key(members(root), name),
{
    let waves = runs[0].waves;
    let n = outcomes.len() as int;
    law_apply_run_follows_its_outcomes(root, sources, runs, outcomes, n);
    law_run_reports_in_order(waves, outcomes, n);
    assert(waves.take(n) =~= waves);
    lemma_instances_in_order(root, sources, waves, name);
}

/// The reports of a wave are those with which its instances came through, at their places.
proof fn lemma_successes_at(outcomes: Seq<InstanceOutcomeView>, n: int, i: int)
    requires
        0 <= i < n <= outcomes.len(),
        errors_of(outcomes, n).len() == 0,
    ensures
        successes_of(outcomes, n).len() == n,
        successes_of(outcomes, n)[i] == (
            outcomes[i]->Applied_name,
            outcomes[i]->Applied_report,
        ),
    decreases n,
{
    lemma_all_came_through(outcomes, n, n - 1);
    assert(successes_of(outcomes, 0).len() == 0);
    if n > 1 {
        lemma_successes_at(outcomes, n - 1, if i < n - 1 { i } else { 0 });
    }
}

/// The report that a run keeps of an instance is the one with which it came through: that of the
/// `i`-th instance of wave `w` stands after the reports of the waves before, at place `i`.
pub proof fn law_reports_are_those_of_the_instances(
    outcomes: Seq<Seq<InstanceOutcomeView>>,
    n: int,
    w: int,
    i: int,
)
    requires
        0 <= w < n <= outcomes.len(),
        0 <= i < outcomes[w].len(),
        errors_of(outcomes[w], outcomes[w].len() as int).len() == 0,
    ensures
        ({
            let place = reports_after(outcomes, w).len() + i;
            &&& place < reports_after(outcomes, n).len()
            &&& outcomes[w][i] matches InstanceOutcomeView::Applied { name, report, .. }
                && reports_after(outcomes, n)[place] == (name, report)
        }),
    decreases n,
{
    lemma_all_came_through(outcomes[w], outcomes[w].len() as int, i);
    if w == n - 1 {
        lemma_successes_at(outcomes[w], outcomes[w].len() as int, i);
    } else {
        law_reports_are_those_of_the_instances(outcomes, n - 1, w, i);
    }
}

/// Waves come one after the other: when an applying run hands out a wave, every instance that one
/// of it depends on belongs to a wave that has ended, with the outcomes of its instances.
pub proof fn law_dependencies_are_applied_first(
    root: JsonView,
    sources: SourcesView,
    runs: Seq<ApplyRunView>,
    outcomes: Seq<Seq<InstanceOutcomeView>>,
    ready: ApplyRunView,
    names: Seq<Seq<char>>,
    edges: Seq<(Seq<char>, Seq<Seq<char>>)>,
    name: Seq<char>,
    dependency: Seq<char>,
)
    requires
        apply_trace(root, sources, runs, outcomes),
        apply_wave(
            runs.last(),
            Ok::<(ApplyRunView, Option<Seq<Seq<char>>>), ExecuteErrorView>((ready, Some(names))),
        ),
        is_waves(edges, runs[0].waves),
        names.contains(name),
        depends(edges, name, dependency),
    ensures
        names == runs[0].waves[outcomes.len() as int],
        exists|w: int|
            0 <= w < outcomes.len() && #[trigger] in_wave(runs[0].waves, dependency, w),
{
    let n = outcomes.len() as int;
    law_apply_run_follows_its_outcomes(root, sources, runs, outcomes, n);
    assert(in_wave(runs[0].waves, name, n));
    assert(before_wave(runs[0].waves, dependency, n));
}

/// Waves come one after the other: when a planning run hands out a wave, every instance that one
/// of it depends on belongs to a wave that is planned.
pub proof fn law_dependencies_are_planned_first(
    root: JsonView,
    sources: SourcesView,
    runs: Seq<PlanRunView>,
    outcomes: Seq<Seq<Result<ProviderPlanView, ExecuteErrorView>>>,
    names: Seq<Seq<char>>,
    edges: Seq<(Seq<char>, Seq<Seq<char>>)>,
    name: Seq<char>,
    dependency: Seq<char>,
)
    requires
        plan_trace(root, sources, runs, outcomes),
        plan_wave(runs.last()) == Some(names),
        is_waves(edges, runs[0].waves),
        names.contains(name),
        depends(edges, name, dependency),
    ensures
        names == runs[0].waves[outcomes.len() as int],
        exists|w: int|
            0 <= w < outcomes.len() && #[trigger] in_wave(runs[0].waves, dependency, w),
{
    let n = outcomes.len() as int;
    law_plan_run_follows_its_outcomes(root, sources, runs, outcomes, n);
    assert(in_wave(runs[0].waves, name, n));
    assert(before_wave(runs[0].waves, dependency, n));
}

/// A wave begins only after the waves before it have ended: when an applying run hands out a
/// wave, there is an outcome for each instance of each wave before, and each of them came through.
pub proof fn law_waves_are_applied_one_after_the_other(
    root: JsonView,
    sources: SourcesView,
    runs: Seq<ApplyRunView>,
    outcomes: Seq<Seq<InstanceOutcomeView>>,
    ready: ApplyRunView,
    names: Seq<Seq<char>>,
    w: int,
    i: int,
)
    requires
        apply_trace(root, sources, runs, outcomes),
        apply_wave(
            runs.last(),
            Ok::<(ApplyRunView, Option<Seq<Seq<char>>>), ExecuteErrorView>((ready, Some(names))),
        ),
        0 <= w < outcomes.len(),
        0 <= i < runs[0].waves[w].len(),
    ensures
        names == runs[0].waves[outcomes.len() as int],
        outcomes[w].len() == runs[0].waves[w].len(),
        came_through(outcomes[w][i], runs[0].waves[w][i]),
{
    let n = outcomes.len() as int;
    law_apply_run_follows_its_outcomes(root, sources, runs, outcomes, n);
    assert(outcomes_of_wave(outcomes[w], runs[0].waves[w]));
    lemma_all_came_through(outcomes[w], outcomes[w].len() as int, i);
}

proof fn lemma_all_planned(
    outcomes: Seq<Result<ProviderPlanView, ExecuteErrorView>>,
    n: int,
    i: int,
)
    requires
        0 <= i < n <= outcomes.len(),
        plans_of(outcomes, n) is Ok,
    ensures
        outcomes[i] is Ok,
    decreases n,
{
    if i < n - 1 {
        lemma_all_planned(outcomes, n - 1, i);
    }
}

/// A wave begins only after the waves before it have ended: when a planning run hands out a wave,
/// there is a plan for each instance of each wave before, under its name.
pub proof fn law_waves_are_planned_one_after_the_other(
    root: JsonView,
    sources: SourcesView,
    runs: Seq<PlanRunView>,
    outcomes: Seq<Seq<Result<ProviderPlanView, ExecuteErrorView>>>,
    names: Seq<Seq<char>>,
    w: int,
    i: int,
)
    requires
        plan_trace(root, sources, runs, outcomes),
        plan_wave(runs.last()) == Some(names),
        0 <= w < outcomes.len(),
        0 <= i < runs[0].waves[w].len(),
    ensures
        names == runs[0].waves[outcomes.len() as int],
        outcomes[w].len() == runs[0].waves[w].len(),
        outcomes[w][i] matches Ok(plan) && plan.instance_name == runs[0].waves[w][i],
{
    let n = outcomes.len() as int;
    law_plan_run_follows_its_outcomes(root, sources, runs, outcomes, n);
    assert(plans_of_wave(outcomes[w], runs[0].waves[w]));
    lemma_all_planned(outcomes[w], outcomes[w].len() as int, i);
}

/// A plan without changes has the empty report in the place of its instance.
pub proof fn law_plan_without_changes_reports_nothing<P: Provider + ?Sized>(
    instance: Seq<char>,
    ready: Prepared,
    provider: &P,
    works: Seq<InstanceWork>,
    answers: Seq<ProviderAnswer>,
    plan: ProviderPlan,
    outcomes: Seq<Seq<InstanceOutcomeView>>,
    n: int,
    w: int,
    i: int,
)
    requires
        worked(Goal::Apply, instance, ready, provider, works, answers),
        works.contains(InstanceWork::Planned(plan)),
        plan@.changes.len() == 0,
        0 <= w < n <= outcomes.len(),
        0 <= i < outcomes[w].len(),
        outcome_of(instance, works.last()) == Some(outcomes[w][i]),
        errors_of(outcomes[w], outcomes[w].len() as int).len() == 0,
    ensures
        ({
            let place = reports_after(outcomes, w).len() + i;
            &&& place < reports_after(outcomes, n).len()
            &&& reports_after(outcomes, n)[place] == (instance, no_report())
        }),
{
    law_plan_without_changes_is_not_applied(
        instance,
        ready,
        provider,
        works,
        answers,
        plan,
        works.len() - 1,
    );
    law_reports_are_those_of_the_instances(outcomes, n, w, i);
}

} // verus!
