//! Client side of the JSON-RPC 2.0 protocol: the requests that are sent to a provider binary and
//! the responses that come back.

use crate::field_value::{value_text, ResolvedFieldValueView};
use crate::json::{
    get_text, json_text, lemma_array_view, lemma_object_view, member, member_text, nesting,
    parsed_json, plain, reads_as, Json, JsonView, Number, NumberView,
};
use crate::meta::{law_meta_round_trip, meta_json, NixHapiMeta, NixHapiMetaView};
use crate::plan::{
    law_plan_round_trip, plan_from, plan_json, report_from, ApplyReport, ApplyReportView,
    ProviderPlan, ProviderPlanView,
};
use crate::provider::{ProviderError, ProviderErrorView, ResolvedConfig};
use crate::provider_host::{
    call_asked, config_from_wire, error_json, error_object, get_or_null, member_or_null,
    response_frame, success_json, wire_fields, HostCallView,
};
use crate::strmap::{
    ascending, entry_views, lemma_lookups_put, lemma_put_last, lemma_views_put, lookup, put, StrMap,
};
use crate::text::{quote, quoted, text_lt, trim_end, trimmed_end};
use crate::views::{result_view, views};
use vstd::prelude::*;

verus! {

/// Why a provider process gave no result.
#[derive(Debug, PartialEq)]
pub enum SubprocessError {
    Spawn { path: String, source: String },
    Communication { source: String },
    ResponseParse(String),
    ProviderError(String),
}

/// What a [`SubprocessError`] stands for.
pub enum SubprocessErrorView {
    Spawn { path: Seq<char>, source: Seq<char> },
    Communication { source: Seq<char> },
    ResponseParse(Seq<char>),
    ProviderError(Seq<char>),
}

impl View for SubprocessError {
    type V = SubprocessErrorView;

    open spec fn view(&self) -> SubprocessErrorView {
        match self {
            SubprocessError::Spawn { path, source } => SubprocessErrorView::Spawn {
                path: path@,
                source: source@,
            },
            SubprocessError::Communication { source } => SubprocessErrorView::Communication {
                source: source@,
            },
            SubprocessError::ResponseParse(message) => SubprocessErrorView::ResponseParse(
                message@,
            ),
            SubprocessError::ProviderError(message) => SubprocessErrorView::ProviderError(
                message@,
            ),
        }
    }
}

impl SubprocessErrorView {
    /// The message of this error.
    pub open spec fn message(self) -> Seq<char> {
        match self {
            SubprocessErrorView::Spawn { path, source } =>
                "Failed to spawn provider process at "@ + quoted(path) + ": "@ + source,
            SubprocessErrorView::Communication { source } =>
                "Failed to communicate with provider process: "@ + source,
            SubprocessErrorView::ResponseParse(message) =>
                "Failed to parse provider response: "@ + message,
            SubprocessErrorView::ProviderError(message) => "Provider returned error: "@ + message,
        }
    }
}

impl SubprocessError {
    /// The message of this error.
    pub fn message(&self) -> (message: String)
        ensures
            message@ == self@.message(),
    {
        match self {
            SubprocessError::Spawn { path, source } => {
                "Failed to spawn provider process at ".to_owned().concat(
                    quote(path.as_str()).as_str(),
                ).concat(": ").concat(source.as_str())
            }
            SubprocessError::Communication { source } => {
                "Failed to communicate with provider process: ".to_owned().concat(
                    source.as_str(),
                )
            }
            SubprocessError::ResponseParse(message) => {
                "Failed to parse provider response: ".to_owned().concat(message.as_str())
            }
            SubprocessError::ProviderError(message) => {
                "Provider returned error: ".to_owned().concat(message.as_str())
            }
        }
    }
}

/// The request that calls `method`.
pub open spec fn request_json(method: Seq<char>, params: JsonView) -> JsonView {
    JsonView::Object(
        put(
            put(
                put(
                    put(Seq::empty(), "jsonrpc"@, JsonView::String("2.0"@)),
                    "method"@,
                    JsonView::String(method),
                ),
                "params"@,
                params,
            ),
            "id"@,
            JsonView::Number(NumberView::PosInt(1)),
        ),
    )
}

/// The line of text that calls `method`.
pub fn request_line(method: &str, params: Json) -> (line: String)
    ensures
        line@ == json_text(request_json(method@, params@)),
        !line@.contains('\n'),
        plain(request_json(method@, params@), nesting()) ==> reads_as(
            line@,
            request_json(method@, params@),
        ),
{
    let request = Json::empty_object().with_member(
        "jsonrpc",
        Json::String("2.0".to_owned()),
    ).with_member("method", Json::String(method.to_owned())).with_member(
        "params",
        params,
    ).with_member("id", Json::Number(Number::PosInt(1)));
    request.text()
}

/// The result that a response carries, or its error.
pub open spec fn response_outcome(response: JsonView) -> Result<JsonView, SubprocessErrorView> {
    match member(response, "error"@) {
        Some(error) => Err(
            SubprocessErrorView::ProviderError(
                match member_text(error, "message"@) {
                    Some(message) => message,
                    None => "unknown provider error"@,
                },
            ),
        ),
        None => Ok(member_or_null(response, "result"@)),
    }
}

/// What a line of response carries.
pub open spec fn line_outcome(line: Seq<char>) -> Result<JsonView, SubprocessErrorView> {
    match parsed_json(trimmed_end(line)) {
        Err(message) => Err(SubprocessErrorView::ResponseParse(message)),
        Ok(response) => response_outcome(response),
    }
}

/// The result that a response carries, or its error.
pub fn response_result(response: &Json) -> (outcome: Result<Json, SubprocessError>)
    ensures
        result_view(outcome) == response_outcome(response@),
{
    match response.get("error") {
        Some(error) => {
            let message = match get_text(error, "message") {
                Some(message) => message,
                None => "unknown provider error".to_owned(),
            };
            Err(SubprocessError::ProviderError(message))
        }
        None => Ok(get_or_null(response, "result")),
    }
}

/// What a line of response carries; white space at its end is not part of it.
pub fn read_response(line: &str) -> (outcome: Result<Json, SubprocessError>)
    ensures
        result_view(outcome) == line_outcome(line@),
{
    match Json::parse(trim_end(line).as_str()) {
        Err(message) => Err(SubprocessError::ResponseParse(message)),
        Ok(response) => response_result(&response),
    }
}

/// The texts of the first `n` configuration fields, without those that are not managed.
pub open spec fn wire_texts(
    config: Seq<(Seq<char>, ResolvedFieldValueView)>,
    n: int,
) -> Seq<(Seq<char>, Seq<char>)>
    decreases n,
{
    if n <= 0 {
        Seq::empty()
    } else {
        let before = wire_texts(config, n - 1);
        match value_text(config[n - 1].1) {
            Some(text) => before.push((config[n - 1].0, text)),
            None => before,
        }
    }
}

/// The configuration as an object of strings, as the wire carries it.
pub open spec fn wire_config_json(config: Seq<(Seq<char>, ResolvedFieldValueView)>) -> JsonView {
    JsonView::Object(
        wire_texts(config, config.len() as int).map_values(
            |e: (Seq<char>, Seq<char>)| (e.0, JsonView::String(e.1)),
        ),
    )
}

/// The keys of wire fields are among those of the configuration.
proof fn lemma_wire_keys(
    config: Seq<(Seq<char>, ResolvedFieldValueView)>,
    n: int,
    key: Seq<char>,
)
    requires
        0 <= n <= config.len(),
        forall|k: int| 0 <= k < n ==> text_lt((#[trigger] config[k]).0, key),
    ensures
        forall|k: int|
            0 <= k < wire_texts(config, n).len() ==> text_lt(
                (#[trigger] wire_texts(config, n)[k]).0,
                key,
            ),
    decreases n,
{
    if n > 0 {
        lemma_wire_keys(config, n - 1, key);
        let before = wire_texts(config, n - 1);
        let all = wire_texts(config, n);
        assert forall|k: int| 0 <= k < all.len() implies text_lt((#[trigger] all[k]).0, key) by {
            if k < before.len() {
                assert(all[k] == before[k]);
            } else {
                assert(all[k].0 == config[n - 1].0);
            }
        }
    }
}

/// The texts of a configuration for the wire protocol, without fields that are not managed.
pub fn to_wire_config(config: &ResolvedConfig) -> (texts: StrMap<String>)
    ensures
        entry_views(texts@) == wire_texts(entry_views(config@), config@.len() as int),
        ascending(texts@),
{
    let ghost fields = entry_views(config@);
    let mut texts: StrMap<String> = StrMap::new();
    assert(entry_views(texts@) =~= Seq::empty());
    let mut i: usize = 0;
    while i < config.len()
        invariant
            i <= config@.len(),
            fields == entry_views(config@),
            entry_views(texts@) == wire_texts(fields, i as int),
            ascending(texts@),
        decreases config@.len() - i,
    {
        let key = config.key_at(i);
        assert(fields[i as int] == (key@, config@[i as int].1@));
        assert(ascending(config@));
        if let Some(text) = config.value_at(i).value() {
            let text = text.to_owned();
            proof {
                lemma_views_put(texts@, key@, text);
                assert forall|k: int| 0 <= k < i implies text_lt((#[trigger] fields[k]).0, key@) by {
                    assert(text_lt(config@[k].0, config@[i as int].0));
                }
                lemma_wire_keys(fields, i as int, key@);
                lemma_put_last(entry_views(texts@), key@, text@);
            }
            texts = texts.put(key.to_owned(), text);
        }
        i = i + 1;
    }
    texts
}

/// The configuration as the wire carries it.
pub fn wire_config(config: &ResolvedConfig) -> (value: Json)
    ensures
        value@ == wire_config_json(entry_views(config@)),
{
    let texts = to_wire_config(config);
    let ghost named = entry_views(texts@);
    let ghost wired = named.map_values(|e: (Seq<char>, Seq<char>)| (e.0, JsonView::String(e.1)));
    let mut map: StrMap<Json> = StrMap::new();
    assert(entry_views(map@) =~= wired.take(0));
    let mut i: usize = 0;
    while i < texts.len()
        invariant
            i <= texts@.len(),
            named == entry_views(texts@),
            wired == named.map_values(
                |e: (Seq<char>, Seq<char>)| (e.0, JsonView::String(e.1)),
            ),
            entry_views(map@) == wired.take(i as int),
        decreases texts@.len() - i,
    {
        let key = texts.key_at(i);
        let value = Json::String(texts.value_at(i).clone());
        proof {
            assert(ascending(texts@));
            lemma_views_put(map@, key@, value);
            assert forall|k: int| 0 <= k < i implies text_lt(
                (#[trigger] wired.take(i as int)[k]).0,
                key@,
            ) by {
                assert(text_lt(texts@[k].0, texts@[i as int].0));
            }
            lemma_put_last(wired.take(i as int), key@, value@);
            assert(wired.take(i as int).push((key@, value@)) =~= wired.take(i + 1));
        }
        map = map.put(key.to_owned(), value);
        i = i + 1;
    }
    proof {
        lemma_object_view(map);
        assert(wired.take(i as int) =~= wired);
    }
    Json::Object(map)
}

/// The parameters of a `list_live` request.
pub open spec fn list_live_params_json(
    config: Seq<(Seq<char>, ResolvedFieldValueView)>,
) -> JsonView {
    JsonView::Object(
        put(
            put(Seq::empty(), "config"@, wire_config_json(config)),
            "filters"@,
            JsonView::Array(Seq::empty()),
        ),
    )
}

/// The parameters of a `list_live` request.
pub fn list_live_params(config: &ResolvedConfig) -> (params: Json)
    ensures
        params@ == list_live_params_json(entry_views(config@)),
{
    let filters: Vec<Json> = Vec::new();
    proof {
        lemma_array_view(filters);
        assert(views(filters@) =~= Seq::empty());
    }
    Json::empty_object().with_member("config", wire_config(config)).with_member(
        "filters",
        Json::Array(filters),
    )
}

/// The parameters of a `plan` request.
pub open spec fn plan_params_json(
    desired: JsonView,
    live: JsonView,
    meta: NixHapiMetaView,
    config: Seq<(Seq<char>, ResolvedFieldValueView)>,
) -> JsonView {
    JsonView::Object(
        put(
            put(
                put(put(Seq::empty(), "desired"@, desired), "live"@, live),
                "meta"@,
                meta_json(meta),
            ),
            "config"@,
            wire_config_json(config),
        ),
    )
}

/// The parameters of a `plan` request.
pub fn plan_params(desired: &Json, live: &Json, meta: &NixHapiMeta, config: &ResolvedConfig) -> (
    params: Json)
    ensures
        params@ == plan_params_json(desired@, live@, meta@, entry_views(config@)),
{
    Json::empty_object().with_member("desired", desired.copy()).with_member(
        "live",
        live.copy(),
    ).with_member("meta", meta.to_json()).with_member("config", wire_config(config))
}

/// The parameters of an `apply` request.
pub open spec fn apply_params_json(
    plan: ProviderPlanView,
    config: Seq<(Seq<char>, ResolvedFieldValueView)>,
) -> JsonView {
    JsonView::Object(
        put(
            put(Seq::empty(), "plan"@, plan_json(plan)),
            "config"@,
            wire_config_json(config),
        ),
    )
}

/// The parameters of an `apply` request.
pub fn apply_params(plan: &ProviderPlan, config: &ResolvedConfig) -> (params: Json)
    ensures
        params@ == apply_params_json(plan@, entry_views(config@)),
{
    Json::empty_object().with_member("plan", plan.to_json()).with_member(
        "config",
        wire_config(config),
    )
}

/// A failed call is a failed operation of the provider.
pub open spec fn live_given(outcome: Result<JsonView, SubprocessErrorView>) -> Result<
    JsonView,
    ProviderErrorView,
> {
    match outcome {
        Ok(value) => Ok(value),
        Err(error) => Err(ProviderErrorView::OperationFailed(error.message())),
    }
}

/// What a `list_live` call gives.
pub fn live_result(outcome: Result<Json, SubprocessError>) -> (live: Result<Json, ProviderError>)
    ensures
        result_view(live) == live_given(result_view(outcome)),
{
    match outcome {
        Ok(value) => Ok(value),
        Err(error) => Err(ProviderError::OperationFailed(error.message())),
    }
}

/// What a `plan` call gives: the plan in its result.
pub open spec fn plan_given(outcome: Result<JsonView, SubprocessErrorView>) -> Result<
    ProviderPlanView,
    ProviderErrorView,
> {
    match live_given(outcome) {
        Err(error) => Err(error),
        Ok(value) => match plan_from(value) {
            Ok(plan) => Ok(plan),
            Err(message) => Err(ProviderErrorView::DesiredStateParse(message)),
        },
    }
}

/// What a `plan` call gives: the plan in its result.
pub fn plan_result(outcome: Result<Json, SubprocessError>) -> (plan: Result<
    ProviderPlan,
    ProviderError,
>)
    ensures
        result_view(plan) == plan_given(result_view(outcome)),
{
    match live_result(outcome) {
        Err(error) => Err(error),
        Ok(value) => match ProviderPlan::from_json(&value) {
            Ok(plan) => Ok(plan),
            Err(message) => Err(ProviderError::DesiredStateParse(message)),
        },
    }
}

/// What an `apply` call gives: the report in its result.
pub open spec fn report_given(outcome: Result<JsonView, SubprocessErrorView>) -> Result<
    ApplyReportView,
    ProviderErrorView,
> {
    match live_given(outcome) {
        Err(error) => Err(error),
        Ok(value) => match report_from(value) {
            Ok(report) => Ok(report),
            Err(message) => Err(ProviderErrorView::DesiredStateParse(message)),
        },
    }
}

/// What an `apply` call gives: the report in its result.
pub fn report_result(outcome: Result<Json, SubprocessError>) -> (report: Result<
    ApplyReport,
    ProviderError,
>)
    ensures
        result_view(report) == report_given(result_view(outcome)),
{
    match live_result(outcome) {
        Err(error) => Err(error),
        Ok(value) => match ApplyReport::from_json(&value) {
            Ok(report) => Ok(report),
            Err(message) => Err(ProviderError::DesiredStateParse(message)),
        },
    }
}

proof fn lemma_response_names()
    ensures
        "jsonrpc"@ != "error"@,
        "id"@ != "error"@,
        "result"@ != "error"@,
        "code"@ != "message"@,
{
    reveal_strlit("jsonrpc");
    reveal_strlit("id");
    reveal_strlit("error");
    reveal_strlit("result");
    reveal_strlit("code");
    reveal_strlit("message");
    assert("jsonrpc"@.len() == 7 && "id"@.len() == 2 && "error"@.len() == 5);
    assert("result"@.len() == 6 && "code"@.len() == 4 && "message"@.len() == 7);
}

/// A request carries its method and parameters to the host.
pub proof fn law_request_carries_its_call(method: Seq<char>, params: JsonView)
    ensures
        member_text(request_json(method, params), "method"@) == Some(method),
        member_or_null(request_json(method, params), "params"@) == params,
        member_or_null(request_json(method, params), "id"@) == JsonView::Number(
            NumberView::PosInt(1),
        ),
{
    reveal_strlit("jsonrpc");
    reveal_strlit("method");
    reveal_strlit("params");
    reveal_strlit("id");
    assert("params"@.len() == 6 && "method"@.len() == 6 && "id"@.len() == 2);
    assert("params"@[0] == 'p' && "method"@[0] == 'm');
    let none = Seq::<(Seq<char>, JsonView)>::empty();
    let versioned = put(none, "jsonrpc"@, JsonView::String("2.0"@));
    let named = put(versioned, "method"@, JsonView::String(method));
    let called = put(named, "params"@, params);
    lemma_lookups_put(versioned, "method"@, JsonView::String(method));
    lemma_lookups_put(named, "params"@, params);
    lemma_lookups_put(called, "id"@, JsonView::Number(NumberView::PosInt(1)));
}

/// The result that a host puts into a response is the result that the client takes out of it.
pub proof fn law_result_survives_response(id: JsonView, result: JsonView)
    ensures
        response_outcome(success_json(id, result)) == Ok::<JsonView, SubprocessErrorView>(result),
{
    lemma_response_names();
    let empty = Seq::<(Seq<char>, JsonView)>::empty();
    let first = put(empty, "jsonrpc"@, JsonView::String("2.0"@));
    lemma_lookups_put(empty, "jsonrpc"@, JsonView::String("2.0"@));
    lemma_lookups_put(first, "id"@, id);
    lemma_lookups_put(response_frame(id), "result"@, result);
}

/// The message that a host puts into an error response is the message that the client reports.
pub proof fn law_error_survives_response(id: JsonView, message: Seq<char>)
    ensures
        response_outcome(error_json(id, message)) == Err::<JsonView, SubprocessErrorView>(
            SubprocessErrorView::ProviderError(message),
        ),
{
    lemma_response_names();
    let empty = Seq::<(Seq<char>, JsonView)>::empty();
    let code = JsonView::Number(NumberView::NegInt(-32000i64));
    lemma_lookups_put(response_frame(id), "error"@, error_object(message));
    lemma_lookups_put(put(empty, "code"@, code), "message"@, JsonView::String(message));
}

/// The configuration that reaches the provider: every field that is managed or initial, as
/// managed.
pub open spec fn managed_config(
    config: Seq<(Seq<char>, ResolvedFieldValueView)>,
) -> Seq<(Seq<char>, ResolvedFieldValueView)> {
    wire_texts(config, config.len() as int).map_values(
        |e: (Seq<char>, Seq<char>)| (e.0, ResolvedFieldValueView::Managed(e.1)),
    )
}

/// The configuration that a host reads from the wire is the one that the client put there, with
/// every field managed.
pub proof fn law_config_survives_wire(config: Seq<(Seq<char>, ResolvedFieldValueView)>)
    ensures
        config_from_wire(wire_config_json(config)) == Ok::<
            Seq<(Seq<char>, ResolvedFieldValueView)>,
            Seq<char>,
        >(managed_config(config)),
{
    let texts = wire_texts(config, config.len() as int);
    let entries = texts.map_values(|e: (Seq<char>, Seq<char>)| (e.0, JsonView::String(e.1)));
    lemma_wire_fields(config, texts.len() as int);
    assert(managed_config(config).take(texts.len() as int) =~= managed_config(config));
    assert(wire_config_json(config) == JsonView::Object(entries));
}

proof fn lemma_wire_fields(config: Seq<(Seq<char>, ResolvedFieldValueView)>, n: int)
    requires
        0 <= n <= wire_texts(config, config.len() as int).len(),
    ensures
        wire_fields(wire_config_json(config)->Object_0, n) == Ok::<
            Seq<(Seq<char>, ResolvedFieldValueView)>,
            Seq<char>,
        >(managed_config(config).take(n)),
    decreases n,
{
    let all = managed_config(config);
    if n <= 0 {
        assert(all.take(0) =~= Seq::empty());
    } else {
        lemma_wire_fields(config, n - 1);
        let texts = wire_texts(config, config.len() as int);
        assert(wire_config_json(config)->Object_0[n - 1] == (
            texts[n - 1].0,
            JsonView::String(texts[n - 1].1),
        ));
        assert(all.take(n - 1).push(all[n - 1]) =~= all.take(n));
    }
}

proof fn lemma_request_names()
    ensures
        "list_live"@ != "plan"@,
        "list_live"@ != "apply"@,
        "plan"@ != "apply"@,
        "config"@ != "filters"@,
        "config"@ != "plan"@,
        "config"@ != "desired"@,
        "config"@ != "live"@,
        "config"@ != "meta"@,
        "meta"@ != "desired"@,
        "meta"@ != "live"@,
        "live"@ != "desired"@,
{
    reveal_strlit("list_live");
    reveal_strlit("plan");
    reveal_strlit("apply");
    reveal_strlit("config");
    reveal_strlit("filters");
    reveal_strlit("desired");
    reveal_strlit("live");
    reveal_strlit("meta");
    assert("list_live"@.len() == 9 && "plan"@.len() == 4 && "apply"@.len() == 5);
    assert("config"@.len() == 6 && "filters"@.len() == 7 && "desired"@.len() == 7);
    assert("live"@.len() == 4 && "meta"@.len() == 4);
    assert("live"@[0] != "meta"@[0]);
}

/// A `list_live` request reaches the provider with the client's configuration.
pub proof fn law_list_live_request_is_understood(
    config: Seq<(Seq<char>, ResolvedFieldValueView)>,
)
    ensures
        call_asked("list_live"@, list_live_params_json(config)) == Ok::<HostCallView, Seq<char>>(
            HostCallView::ListLive { config: managed_config(config) },
        ),
{
    lemma_request_names();
    let empty = Seq::<(Seq<char>, JsonView)>::empty();
    let first = put(empty, "config"@, wire_config_json(config));
    lemma_lookups_put(empty, "config"@, wire_config_json(config));
    lemma_lookups_put(first, "filters"@, JsonView::Array(Seq::empty()));
    law_config_survives_wire(config);
}

/// A `plan` request reaches the provider with the desired state, the live state, the directives
/// and the client's configuration.
pub proof fn law_plan_request_is_understood(
    desired: JsonView,
    live: JsonView,
    meta: NixHapiMetaView,
    config: Seq<(Seq<char>, ResolvedFieldValueView)>,
)
    requires
        meta.provider matches Some(spec) ==> ascending(spec.config) && lookup(
            spec.config,
            "type"@,
        ) is None,
    ensures
        call_asked("plan"@, plan_params_json(desired, live, meta, config)) == Ok::<
            HostCallView,
            Seq<char>,
        >(HostCallView::Plan { desired, live, meta, config: managed_config(config) }),
{
    lemma_request_names();
    let empty = Seq::<(Seq<char>, JsonView)>::empty();
    let first = put(empty, "desired"@, desired);
    let second = put(first, "live"@, live);
    let third = put(second, "meta"@, meta_json(meta));
    lemma_lookups_put(empty, "desired"@, desired);
    lemma_lookups_put(first, "live"@, live);
    lemma_lookups_put(second, "meta"@, meta_json(meta));
    lemma_lookups_put(third, "config"@, wire_config_json(config));
    law_config_survives_wire(config);
    law_meta_round_trip(meta);
}

/// An `apply` request reaches the provider with the plan and the client's configuration.
pub proof fn law_apply_request_is_understood(
    plan: ProviderPlanView,
    config: Seq<(Seq<char>, ResolvedFieldValueView)>,
)
    ensures
        call_asked("apply"@, apply_params_json(plan, config)) == Ok::<HostCallView, Seq<char>>(
            HostCallView::Apply { plan, config: managed_config(config) },
        ),
{
    lemma_request_names();
    let empty = Seq::<(Seq<char>, JsonView)>::empty();
    let first = put(empty, "plan"@, plan_json(plan));
    lemma_lookups_put(empty, "plan"@, plan_json(plan));
    lemma_lookups_put(first, "config"@, wire_config_json(config));
    law_config_survives_wire(config);
    law_plan_round_trip(plan);
}

} // verus!
