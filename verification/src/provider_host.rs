//! Server side of the JSON-RPC 2.0 protocol for provider binaries.
//!
//! A provider binary reads newline-delimited JSON-RPC requests from stdin, hands each line to
//! [`respond`] together with its [`Provider`], and writes the response to stdout.

use crate::field_value::{ResolvedFieldValue, ResolvedFieldValueView};
use crate::json::{
    get_text, json_text, member, member_text, nesting, parsed_json, plain, reads_as, Json, JsonView,
    Number, NumberView,
};
use crate::meta::{meta_from, NixHapiMeta, NixHapiMetaView};
use crate::plan::{
    plan_from, plan_json, report_json, ApplyReport, ApplyReportView, ProviderPlan, ProviderPlanView,
};
use crate::provider::{Filter, Provider, ProviderError, ProviderErrorView, ResolvedConfig};
use crate::strmap::{ascending, entry_views, lemma_put_last, lemma_views_put, put, StrMap};
use crate::text::{quote, quoted, text_eq, text_lt, trim, trimmed};
use crate::views::result_view;
use vstd::prelude::*;

verus! {

/// Why the host gave up.
#[derive(Debug, PartialEq)]
pub enum ProviderHostError {
    Stdin(String),
    Stdout(String),
    RequestParse(String),
}

/// What a [`ProviderHostError`] stands for.
pub enum ProviderHostErrorView {
    Stdin(Seq<char>),
    Stdout(Seq<char>),
    RequestParse(Seq<char>),
}

impl View for ProviderHostError {
    type V = ProviderHostErrorView;

    open spec fn view(&self) -> ProviderHostErrorView {
        match self {
            ProviderHostError::Stdin(message) => ProviderHostErrorView::Stdin(message@),
            ProviderHostError::Stdout(message) => ProviderHostErrorView::Stdout(message@),
            ProviderHostError::RequestParse(message) => ProviderHostErrorView::RequestParse(
                message@,
            ),
        }
    }
}

impl ProviderHostErrorView {
    /// The message of this error.
    pub open spec fn message(self) -> Seq<char> {
        match self {
            ProviderHostErrorView::Stdin(message) => "Failed to read from stdin: "@ + message,
            ProviderHostErrorView::Stdout(message) => "Failed to write to stdout: "@ + message,
            ProviderHostErrorView::RequestParse(message) =>
                "Failed to parse JSON-RPC request: "@ + message,
        }
    }
}

impl ProviderHostError {
    /// The message of this error.
    pub fn message(&self) -> (message: String)
        ensures
            message@ == self@.message(),
    {
        match self {
            ProviderHostError::Stdin(message) => {
                "Failed to read from stdin: ".to_owned().concat(message.as_str())
            }
            ProviderHostError::Stdout(message) => {
                "Failed to write to stdout: ".to_owned().concat(message.as_str())
            }
            ProviderHostError::RequestParse(message) => {
                "Failed to parse JSON-RPC request: ".to_owned().concat(message.as_str())
            }
        }
    }
}

/// The member `key`, or null.
pub open spec fn member_or_null(value: JsonView, key: Seq<char>) -> JsonView {
    match member(value, key) {
        Some(inner) => inner,
        None => JsonView::Null,
    }
}

/// The member `key`, or null.
pub fn get_or_null(value: &Json, key: &str) -> (inner: Json)
    ensures
        inner@ == member_or_null(value@, key@),
{
    match value.get(key) {
        Some(inner) => inner.copy(),
        None => Json::Null,
    }
}

/// The configuration field that a wire value stands for: an object with a tag and a value, or a
/// plain string.  Without a tag, and with any other than `initial`, a field is managed.
pub open spec fn wire_field(key: Seq<char>, value: JsonView) -> Result<
    ResolvedFieldValueView,
    Seq<char>,
> {
    match value {
        JsonView::Object(_) => match member_text(value, "value"@) {
            None => Err("config field "@ + quoted(key) + ": missing \"value\" in wire object"@),
            Some(text) => if member_text(value, "tag"@) == Some("initial"@) {
                Ok(ResolvedFieldValueView::Initial(text))
            } else {
                Ok(ResolvedFieldValueView::Managed(text))
            },
        },
        JsonView::String(text) => Ok(ResolvedFieldValueView::Managed(text)),
        other => Err(
            "config field "@ + quoted(key) + ": expected object or string, got "@ + json_text(
                other,
            ),
        ),
    }
}

/// The configuration that the first `n` wire fields stand for, or the message for the first of
/// them that stands for none.
pub open spec fn wire_fields(entries: Seq<(Seq<char>, JsonView)>, n: int) -> Result<
    Seq<(Seq<char>, ResolvedFieldValueView)>,
    Seq<char>,
>
    decreases n,
{
    if n <= 0 {
        Ok(Seq::empty())
    } else {
        match wire_fields(entries, n - 1) {
            Err(message) => Err(message),
            Ok(read) => match wire_field(entries[n - 1].0, entries[n - 1].1) {
                Ok(field) => Ok(read.push((entries[n - 1].0, field))),
                Err(message) => Err(message),
            },
        }
    }
}

/// The configuration that a wire value stands for.
pub open spec fn config_from_wire(value: JsonView) -> Result<
    Seq<(Seq<char>, ResolvedFieldValueView)>,
    Seq<char>,
> {
    match value {
        JsonView::Null => Ok(Seq::empty()),
        JsonView::Object(entries) => wire_fields(entries, entries.len() as int),
        _ => Err("failed to parse config: expected an object"@),
    }
}

proof fn lemma_wire_fields_stop(entries: Seq<(Seq<char>, JsonView)>, n: int, m: int)
    requires
        0 <= n <= m,
        wire_fields(entries, n) is Err,
    ensures
        wire_fields(entries, m) == wire_fields(entries, n),
    decreases m - n,
{
    if n < m {
        lemma_wire_fields_stop(entries, n, m - 1);
    }
}

/// The configuration field that a wire value stands for.
fn parse_field(key: &str, value: &Json) -> (field: Result<ResolvedFieldValue, String>)
    ensures
        result_view(field) == wire_field(key@, value@),
{
    match value {
        Json::Object(_) => match get_text(value, "value") {
            None => Err(
                "config field ".to_owned().concat(quote(key).as_str()).concat(
                    ": missing \"value\" in wire object",
                ),
            ),
            Some(text) => match get_text(value, "tag") {
                Some(tag) => if text_eq(tag.as_str(), "initial") {
                    Ok(ResolvedFieldValue::Initial(text))
                } else {
                    Ok(ResolvedFieldValue::Managed(text))
                },
                None => Ok(ResolvedFieldValue::Managed(text)),
            },
        },
        Json::String(text) => Ok(ResolvedFieldValue::Managed(text.clone())),
        other => Err(
            "config field ".to_owned().concat(quote(key).as_str()).concat(
                ": expected object or string, got ",
            ).concat(other.text().as_str()),
        ),
    }
}

/// Reads the wire format of a configuration.
///
/// It carries `{"tag": "managed"|"initial", "value": "..."}` per field; plain string values are
/// managed.
pub fn parse_config(value: &Json) -> (config: Result<ResolvedConfig, String>)
    ensures
        match config {
            Ok(config) => config_from_wire(value@) == Ok::<
                Seq<(Seq<char>, ResolvedFieldValueView)>,
                Seq<char>,
            >(entry_views(config@)),
            Err(message) => config_from_wire(value@) == Err::<
                Seq<(Seq<char>, ResolvedFieldValueView)>,
                Seq<char>,
            >(message@),
        },
{
    let mut config: ResolvedConfig = StrMap::new();
    assert(entry_views(config@) =~= Seq::empty());
    if value.is_null() {
        return Ok(config);
    }
    let map = match value.as_object() {
        Some(map) => map,
        None => {
            return Err("failed to parse config: expected an object".to_owned());
        }
    };
    let ghost entries = entry_views(map@);
    let mut i: usize = 0;
    while i < map.len()
        invariant
            i <= map@.len(),
            entries == entry_views(map@),
            value@ == JsonView::Object(entries),
            entry_views(config@).len() == i,
            forall|k: int| 0 <= k < i ==> (#[trigger] entry_views(config@)[k]).0 == entries[k].0,
            wire_fields(entries, i as int) == Ok::<
                Seq<(Seq<char>, ResolvedFieldValueView)>,
                Seq<char>,
            >(entry_views(config@)),
        decreases map@.len() - i,
    {
        let key = map.key_at(i);
        assert(entries[i as int] == (key@, map@[i as int].1@));
        assert(ascending(map@));
        match parse_field(key, map.value_at(i)) {
            Ok(field) => {
                let ghost before = entry_views(config@);
                proof {
                    lemma_views_put(config@, key@, field);
                    assert forall|k: int| 0 <= k < before.len() implies text_lt(
                        (#[trigger] before[k]).0,
                        key@,
                    ) by {
                        assert(text_lt(map@[k].0, map@[i as int].0));
                        assert(entries[k].0 == map@[k].0);
                    }
                    lemma_put_last(before, key@, field@);
                }
                config = config.put(key.to_owned(), field);
            }
            Err(message) => {
                proof {
                    lemma_wire_fields_stop(entries, i + 1, entries.len() as int);
                }
                return Err(message);
            }
        }
        i = i + 1;
    }
    Ok(config)
}

/// What every response holds besides its result or error.
pub open spec fn response_frame(id: JsonView) -> Seq<(Seq<char>, JsonView)> {
    put(put(Seq::empty(), "jsonrpc"@, JsonView::String("2.0"@)), "id"@, id)
}

/// The response that carries a result.
pub open spec fn success_json(id: JsonView, result: JsonView) -> JsonView {
    JsonView::Object(put(response_frame(id), "result"@, result))
}

/// The error object in a response.
pub open spec fn error_object(message: Seq<char>) -> JsonView {
    JsonView::Object(
        put(
            put(Seq::empty(), "code"@, JsonView::Number(NumberView::NegInt(-32000i64))),
            "message"@,
            JsonView::String(message),
        ),
    )
}

/// The response that carries an error.
pub open spec fn error_json(id: JsonView, message: Seq<char>) -> JsonView {
    JsonView::Object(put(response_frame(id), "error"@, error_object(message)))
}

/// The response that carries a result.
pub fn success_response(id: Json, result: Json) -> (response: Json)
    ensures
        response@ == success_json(id@, result@),
{
    Json::empty_object().with_member("jsonrpc", Json::String("2.0".to_owned())).with_member(
        "id",
        id,
    ).with_member("result", result)
}

/// The response that carries an error.
pub fn error_response(id: Json, message: String) -> (response: Json)
    ensures
        response@ == error_json(id@, message@),
{
    let error = Json::empty_object().with_member(
        "code",
        Json::Number(Number::NegInt(-32000)),
    ).with_member("message", Json::String(message));
    Json::empty_object().with_member("jsonrpc", Json::String("2.0".to_owned())).with_member(
        "id",
        id,
    ).with_member("error", error)
}

/// What a request asks of the provider.
#[derive(Debug, PartialEq)]
pub enum HostCall {
    ListLive { config: ResolvedConfig },
    Plan { desired: Json, live: Json, meta: NixHapiMeta, config: ResolvedConfig },
    Apply { plan: ProviderPlan, config: ResolvedConfig },
}

/// What a [`HostCall`] stands for.
pub enum HostCallView {
    ListLive { config: Seq<(Seq<char>, ResolvedFieldValueView)> },
    Plan {
        desired: JsonView,
        live: JsonView,
        meta: NixHapiMetaView,
        config: Seq<(Seq<char>, ResolvedFieldValueView)>,
    },
    Apply { plan: ProviderPlanView, config: Seq<(Seq<char>, ResolvedFieldValueView)> },
}

impl View for HostCall {
    type V = HostCallView;

    open spec fn view(&self) -> HostCallView {
        match self {
            HostCall::ListLive { config } => HostCallView::ListLive {
                config: entry_views(config@),
            },
            HostCall::Plan { desired, live, meta, config } => HostCallView::Plan {
                desired: desired@,
                live: live@,
                meta: meta@,
                config: entry_views(config@),
            },
            HostCall::Apply { plan, config } => HostCallView::Apply {
                plan: plan@,
                config: entry_views(config@),
            },
        }
    }
}

/// What a request asks of the provider, or the message for one that cannot be met: the
/// configuration is read first, then the directives or the plan.
pub open spec fn call_asked(method: Seq<char>, params: JsonView) -> Result<
    HostCallView,
    Seq<char>,
> {
    if method != "list_live"@ && method != "plan"@ && method != "apply"@ {
        Err("unknown method: "@ + method)
    } else {
        match config_from_wire(member_or_null(params, "config"@)) {
            Err(message) => Err(message),
            Ok(config) => if method == "list_live"@ {
                Ok(HostCallView::ListLive { config })
            } else if method == "plan"@ {
                match meta_from(member_or_null(params, "meta"@)) {
                    Err(message) => Err(message),
                    Ok(meta) => Ok(
                        HostCallView::Plan {
                            desired: member_or_null(params, "desired"@),
                            live: member_or_null(params, "live"@),
                            meta,
                            config,
                        },
                    ),
                }
            } else {
                match plan_from(member_or_null(params, "plan"@)) {
                    Err(message) => Err(message),
                    Ok(plan) => Ok(HostCallView::Apply { plan, config }),
                }
            },
        }
    }
}

/// What a request asks of the provider, or the message for one that cannot be met.
pub fn read_call(method: &str, params: &Json) -> (call: Result<HostCall, String>)
    ensures
        result_view(call) == call_asked(method@, params@),
{
    let listing = text_eq(method, "list_live");
    let planning = text_eq(method, "plan");
    let applying = text_eq(method, "apply");
    if !listing && !planning && !applying {
        return Err("unknown method: ".to_owned().concat(method));
    }
    let config = match parse_config(&get_or_null(params, "config")) {
        Ok(config) => config,
        Err(message) => {
            return Err(message);
        }
    };
    if listing {
        Ok(HostCall::ListLive { config })
    } else if planning {
        match NixHapiMeta::from_json(&get_or_null(params, "meta")) {
            Err(message) => Err(message),
            Ok(meta) => Ok(
                HostCall::Plan {
                    desired: get_or_null(params, "desired"),
                    live: get_or_null(params, "live"),
                    meta,
                    config,
                },
            ),
        }
    } else {
        match ProviderPlan::from_json(&get_or_null(params, "plan")) {
            Err(message) => Err(message),
            Ok(plan) => Ok(HostCall::Apply { plan, config }),
        }
    }
}

/// The response to what the provider did, whose result was turned into JSON.
pub open spec fn provider_reply(
    id: JsonView,
    outcome: Result<JsonView, ProviderErrorView>,
) -> JsonView {
    match outcome {
        Ok(result) => success_json(id, result),
        Err(error) => error_json(id, error.message()),
    }
}

/// The response to what the provider did, whose result was turned into JSON.
pub fn reply(id: Json, outcome: Result<Json, ProviderError>) -> (response: Json)
    ensures
        response@ == provider_reply(id@, result_view(outcome)),
{
    match outcome {
        Ok(result) => success_response(id, result),
        Err(error) => error_response(id, error.message()),
    }
}

/// The plan that a provider made, as a JSON result.
pub open spec fn plan_result(outcome: Result<ProviderPlanView, ProviderErrorView>) -> Result<
    JsonView,
    ProviderErrorView,
> {
    match outcome {
        Ok(plan) => Ok(plan_json(plan)),
        Err(error) => Err(error),
    }
}

/// The report that a provider gave, as a JSON result.
pub open spec fn report_result(outcome: Result<ApplyReportView, ProviderErrorView>) -> Result<
    JsonView,
    ProviderErrorView,
> {
    match outcome {
        Ok(report) => Ok(report_json(report)),
        Err(error) => Err(error),
    }
}

/// That `response` may answer the request: a request that cannot be met is answered with an
/// error; any other goes to the provider with what the request holds, and whatever the provider
/// returns is the answer.
pub open spec fn answers<P: Provider + ?Sized>(
    provider: &P,
    method: Seq<char>,
    params: JsonView,
    id: JsonView,
    response: JsonView,
) -> bool {
    match call_asked(method, params) {
        Err(message) => response == error_json(id, message),
        Ok(HostCallView::ListLive { config }) => exists|
            given: &ResolvedConfig,
            filters: &[Filter],
            out: Result<Json, ProviderError>,
        | #[trigger]
            call_ensures(P::list_live, (provider, given, filters), out) && entry_views(given@)
                == config && filters@.len() == 0 && response == provider_reply(
                id,
                result_view(out),
            ),
        Ok(HostCallView::Plan { desired, live, meta, config }) => exists|
            given_desired: &Json,
            given_live: &Json,
            given_meta: &NixHapiMeta,
            given: &ResolvedConfig,
            out: Result<ProviderPlan, ProviderError>,
        | #[trigger]
            call_ensures(
                P::plan,
                (provider, given_desired, given_live, given_meta, given),
                out,
            ) && given_desired@ == desired && given_live@ == live && given_meta@ == meta
                && entry_views(given@) == config && response == provider_reply(
                id,
                plan_result(result_view(out)),
            ),
        Ok(HostCallView::Apply { plan, config }) => exists|
            given_plan: &ProviderPlan,
            given: &ResolvedConfig,
            out: Result<ApplyReport, ProviderError>,
        | #[trigger]
            call_ensures(P::apply, (provider, given_plan, given), out) && given_plan@ == plan
                && entry_views(given@) == config && response == provider_reply(
                id,
                report_result(result_view(out)),
            ),
    }
}

/// Answers one request.
pub fn dispatch<P: Provider + ?Sized>(provider: &P, method: &str, params: &Json, id: Json) -> (
    response: Json)
    ensures
        answers(provider, method@, params@, id@, response@),
{
    match read_call(method, params) {
        Err(message) => error_response(id, message),
        Ok(HostCall::ListLive { config }) => {
            let filters: [Filter; 0] = [];
            let out = provider.list_live(&config, &filters);
            reply(id, out)
        }
        Ok(HostCall::Plan { desired, live, meta, config }) => {
            let out = provider.plan(&desired, &live, &meta, &config);
            let result = match &out {
                Ok(plan) => success_response(id, plan.to_json()),
                Err(error) => error_response(id, error.message()),
            };
            result
        }
        Ok(HostCall::Apply { plan, config }) => {
            let out = provider.apply(&plan, &config);
            let result = match &out {
                Ok(report) => success_response(id, report.to_json()),
                Err(error) => error_response(id, error.message()),
            };
            result
        }
    }
}

/// Answers one line of input: nothing for a blank line, an error for one that is no JSON, and
/// otherwise the response in one line.
pub fn respond<P: Provider + ?Sized>(provider: &P, line: &str) -> (answer: Result<
    Option<String>,
    ProviderHostError,
>)
    ensures
        match answer {
            Ok(None) => trimmed(line@).len() == 0,
            Ok(Some(text)) => {
                &&& trimmed(line@).len() > 0
                &&& !text@.contains('\n')
                &&& parsed_json(line@) matches Ok(request) && exists|response: JsonView|
                    text@ == #[trigger] json_text(response) && answers(
                        provider,
                        match member_text(request, "method"@) {
                            Some(method) => method,
                            None => Seq::empty(),
                        },
                        member_or_null(request, "params"@),
                        member_or_null(request, "id"@),
                        response,
                    ) && (plain(response, nesting()) ==> reads_as(text@, response))
            },
            Err(error) => {
                &&& trimmed(line@).len() > 0
                &&& parsed_json(line@) matches Err(message) && error@
                    == ProviderHostErrorView::RequestParse(message)
            },
        },
{
    let stripped = trim(line);
    if stripped.as_str().unicode_len() == 0 {
        return Ok(None);
    }
    match Json::parse(line) {
        Err(message) => Err(ProviderHostError::RequestParse(message)),
        Ok(request) => {
            let id = get_or_null(&request, "id");
            let method = match get_text(&request, "method") {
                Some(method) => method,
                None => String::new(),
            };
            let params = get_or_null(&request, "params");
            let response = dispatch(provider, method.as_str(), &params, id);
            let text = response.text();
            assert(method@ =~= match member_text(request@, "method"@) {
                Some(method) => method,
                None => Seq::empty(),
            });
            assert(text@ == json_text(response@));
            Ok(Some(text))
        }
    }
}

} // verus!
