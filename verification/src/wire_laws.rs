//! What travels between the two sides of the provider protocol.

use crate::field_value::{value_text, ResolvedFieldValueView};
use crate::json::{member, member_text, parsed_json, Json, JsonView, NumberView};
use crate::meta::{meta_from, meta_json, NixHapiMeta, NixHapiMetaView};
use crate::plan::{
    law_plan_round_trip, law_report_round_trip, plan_from, plan_json, report_from, report_json,
    ApplyReport, ApplyReportView, ProviderPlan, ProviderPlanView,
};
use crate::provider::{Filter, Provider, ProviderError, ProviderErrorView, ResolvedConfig};
use crate::provider_host::{
    answers, call_asked, config_from_wire, error_json, error_object, member_or_null, plan_result,
    provider_reply, report_result, response_frame, success_json, wire_field, wire_fields,
    HostCallView,
};
use crate::strmap::{
    ascending, entry_views, lemma_lookup_push, lemma_lookups_put, lemma_not_before, lookup, put,
};
use crate::subprocess::{
    apply_params_json, line_outcome, list_live_params_json, live_given, plan_given, plan_params_json,
    report_given, request_json, response_outcome, wire_config_json, wire_texts, SubprocessErrorView,
};
use crate::text::is_white;
use crate::text_laws::{all_white, law_trimming_the_end_takes_white_space_off};
use crate::views::result_view;
use vstd::prelude::*;

verus! {

/// A request is one of version 2.0 that holds the method, the parameters and an identifier, and
/// nothing else.
pub proof fn law_request_holds_its_call(method: Seq<char>, params: JsonView, key: Seq<char>)
    ensures
        member(request_json(method, params), key) == if key == "jsonrpc"@ {
            Some(JsonView::String("2.0"@))
        } else if key == "method"@ {
            Some(JsonView::String(method))
        } else if key == "params"@ {
            Some(params)
        } else if key == "id"@ {
            Some(JsonView::Number(NumberView::PosInt(1)))
        } else {
            None
        },
{
    reveal_strlit("jsonrpc");
    reveal_strlit("method");
    reveal_strlit("params");
    reveal_strlit("id");
    assert("params"@.len() == 6 && "method"@.len() == 6 && "id"@.len() == 2 && "jsonrpc"@.len() == 7);
    assert("params"@[0] == 'p' && "method"@[0] == 'm');
    let none = Seq::<(Seq<char>, JsonView)>::empty();
    let versioned = put(none, "jsonrpc"@, JsonView::String("2.0"@));
    let named = put(versioned, "method"@, JsonView::String(method));
    let called = put(named, "params"@, params);
    lemma_lookups_put(none, "jsonrpc"@, JsonView::String("2.0"@));
    lemma_lookups_put(versioned, "method"@, JsonView::String(method));
    lemma_lookups_put(named, "params"@, params);
    lemma_lookups_put(called, "id"@, JsonView::Number(NumberView::PosInt(1)));
}

proof fn lemma_texts_lookup(
    config: Seq<(Seq<char>, ResolvedFieldValueView)>,
    n: int,
    key: Seq<char>,
)
    requires
        ascending(config),
        0 <= n <= config.len(),
    ensures
        lookup(wire_texts(config, n), key) == match lookup(config.take(n), key) {
            Some(value) => value_text(value),
            None => None,
        },
    decreases n,
{
    if n > 0 {
        lemma_texts_lookup(config, n - 1, key);
        assert(config.take(n) =~= config.take(n - 1).push(config[n - 1]));
        lemma_lookup_push(config.take(n - 1), config[n - 1], key);
        lemma_not_before(config, n - 1);
        if value_text(config[n - 1].1) is Some {
            lemma_lookup_push(
                wire_texts(config, n - 1),
                (config[n - 1].0, value_text(config[n - 1].1)->0),
                key,
            );
        }
    } else {
        assert(config.take(0) =~= Seq::empty());
    }
}

proof fn lemma_strings_lookup(texts: Seq<(Seq<char>, Seq<char>)>, key: Seq<char>)
    ensures
        lookup(
            texts.map_values(|e: (Seq<char>, Seq<char>)| (e.0, JsonView::String(e.1))),
            key,
        ) == match lookup(texts, key) {
            Some(text) => Some(JsonView::String(text)),
            None => None,
        },
    decreases texts.len(),
{
    let mapped = texts.map_values(|e: (Seq<char>, Seq<char>)| (e.0, JsonView::String(e.1)));
    if texts.len() > 0 {
        let rest = texts.drop_first();
        lemma_strings_lookup(rest, key);
        assert(mapped.drop_first() =~= rest.map_values(
            |e: (Seq<char>, Seq<char>)| (e.0, JsonView::String(e.1)),
        ));
    }
}

/// On the wire a configuration is an object that holds the text of every field that is managed or
/// initial, under the field's name, and nothing for any other name.
pub proof fn law_wire_config_holds_the_texts(
    config: Seq<(Seq<char>, ResolvedFieldValueView)>,
    key: Seq<char>,
)
    requires
        ascending(config),
    ensures
        wire_config_json(config) is Object,
        match lookup(config, key) {
            Some(ResolvedFieldValueView::Managed(text)) => member(wire_config_json(config), key)
                == Some(JsonView::String(text)),
            Some(ResolvedFieldValueView::Initial(text)) => member(wire_config_json(config), key)
                == Some(JsonView::String(text)),
            _ => member(wire_config_json(config), key) is None,
        },
{
    let n = config.len() as int;
    assert(config.take(n) =~= config);
    lemma_texts_lookup(config, n, key);
    lemma_strings_lookup(wire_texts(config, n), key);
}

/// The parameters of each request hold what the call is about under its own name.
pub proof fn law_parameters_hold_what_is_sent(
    desired: JsonView,
    live: JsonView,
    meta: NixHapiMetaView,
    plan: ProviderPlanView,
    config: Seq<(Seq<char>, ResolvedFieldValueView)>,
)
    ensures
        member(list_live_params_json(config), "config"@) == Some(wire_config_json(config)),
        member(list_live_params_json(config), "filters"@) == Some(JsonView::Array(Seq::empty())),
        member(plan_params_json(desired, live, meta, config), "desired"@) == Some(desired),
        member(plan_params_json(desired, live, meta, config), "live"@) == Some(live),
        member(plan_params_json(desired, live, meta, config), "meta"@) == Some(
            meta_json(meta),
        ),
        member(plan_params_json(desired, live, meta, config), "config"@) == Some(
            wire_config_json(config),
        ),
        member(apply_params_json(plan, config), "plan"@) == Some(plan_json(plan)),
        member(apply_params_json(plan, config), "config"@) == Some(wire_config_json(config)),
{
    reveal_strlit("plan");
    reveal_strlit("config");
    reveal_strlit("filters");
    reveal_strlit("desired");
    reveal_strlit("live");
    reveal_strlit("meta");
    assert("config"@.len() == 6 && "filters"@.len() == 7 && "desired"@.len() == 7);
    assert("live"@.len() == 4 && "meta"@.len() == 4 && "plan"@.len() == 4);
    assert("live"@[0] == 'l' && "meta"@[0] == 'm');
    let wired = wire_config_json(config);
    let none = Seq::<(Seq<char>, JsonView)>::empty();
    lemma_lookups_put(none, "config"@, wired);
    lemma_lookups_put(put(none, "config"@, wired), "filters"@, JsonView::Array(Seq::empty()));
    let first = put(none, "desired"@, desired);
    let second = put(first, "live"@, live);
    let third = put(second, "meta"@, meta_json(meta));
    lemma_lookups_put(none, "desired"@, desired);
    lemma_lookups_put(first, "live"@, live);
    lemma_lookups_put(second, "meta"@, meta_json(meta));
    lemma_lookups_put(third, "config"@, wired);
    lemma_lookups_put(none, "plan"@, plan_json(plan));
    lemma_lookups_put(put(none, "plan"@, plan_json(plan)), "config"@, wired);
}

/// A response with an error is a failure with the error's message, whatever else it holds; any
/// other is a success with its result, or null where it has none.
pub proof fn law_error_decides_the_response(response: JsonView, message: Seq<char>)
    ensures
        member(response, "error"@) is Some && member_text(member(response, "error"@)->0, "message"@)
            == Some(message) ==> response_outcome(response) == Err::<JsonView, SubprocessErrorView>(
            SubprocessErrorView::ProviderError(message),
        ),
        member(response, "error"@) is Some && member_text(member(response, "error"@)->0, "message"@)
            is None ==> response_outcome(response) == Err::<JsonView, SubprocessErrorView>(
            SubprocessErrorView::ProviderError("unknown provider error"@),
        ),
        member(response, "error"@) is None ==> response_outcome(response) is Ok,
        member(response, "error"@) is None && member(response, "result"@) is Some
            ==> response_outcome(response)->Ok_0 == member(response, "result"@)->0,
        member(response, "error"@) is None && member(response, "result"@) is None
            ==> response_outcome(response)->Ok_0 == JsonView::Null,
{
}

/// A success carries the identifier of its request and the result, and no error; a failure carries
/// the identifier and an error with its code and message, and no result.
pub proof fn law_responses_carry_the_identifier(
    id: JsonView,
    result: JsonView,
    message: Seq<char>,
)
    ensures
        member(success_json(id, result), "jsonrpc"@) == Some(JsonView::String("2.0"@)),
        member(success_json(id, result), "id"@) == Some(id),
        member(success_json(id, result), "result"@) == Some(result),
        member(success_json(id, result), "error"@) is None,
        member(error_json(id, message), "jsonrpc"@) == Some(JsonView::String("2.0"@)),
        member(error_json(id, message), "id"@) == Some(id),
        member(error_json(id, message), "result"@) is None,
        member(error_json(id, message), "error"@) is Some,
        member_text(member(error_json(id, message), "error"@)->0, "message"@) == Some(message),
        member(member(error_json(id, message), "error"@)->0, "code"@) == Some(
            JsonView::Number(NumberView::NegInt(-32000i64)),
        ),
{
    reveal_strlit("jsonrpc");
    reveal_strlit("id");
    reveal_strlit("error");
    reveal_strlit("result");
    reveal_strlit("code");
    reveal_strlit("message");
    assert("jsonrpc"@.len() == 7 && "id"@.len() == 2 && "error"@.len() == 5);
    assert("result"@.len() == 6 && "code"@.len() == 4 && "message"@.len() == 7);
    let none = Seq::<(Seq<char>, JsonView)>::empty();
    let code = JsonView::Number(NumberView::NegInt(-32000i64));
    lemma_lookups_put(none, "jsonrpc"@, JsonView::String("2.0"@));
    lemma_lookups_put(put(none, "jsonrpc"@, JsonView::String("2.0"@)), "id"@, id);
    lemma_lookups_put(response_frame(id), "result"@, result);
    lemma_lookups_put(response_frame(id), "error"@, error_object(message));
    lemma_lookups_put(none, "code"@, code);
    lemma_lookups_put(put(none, "code"@, code), "message"@, JsonView::String(message));
}

/// Every answer to a request carries the identifier of the request, and either a result or an
/// error.
pub proof fn law_answers_carry_the_identifier<P: Provider + ?Sized>(
    provider: &P,
    method: Seq<char>,
    params: JsonView,
    id: JsonView,
    response: JsonView,
)
    requires
        answers(provider, method, params, id, response),
    ensures
        member(response, "id"@) == Some(id),
        member(response, "result"@) is Some <==> member(response, "error"@) is None,
        call_asked(method, params) is Err ==> member(response, "error"@) is Some && member_text(
            member(response, "error"@)->0,
            "message"@,
        ) == Some(call_asked(method, params)->Err_0),
{
    assert forall|result: JsonView| true implies member(
        #[trigger] success_json(id, result),
        "id"@,
    ) == Some(id) && member(success_json(id, result), "result"@) is Some && member(
        success_json(id, result),
        "error"@,
    ) is None by {
        law_responses_carry_the_identifier(id, result, Seq::empty());
    }
    assert forall|message: Seq<char>| true implies member(
        #[trigger] error_json(id, message),
        "id"@,
    ) == Some(id) && member(error_json(id, message), "result"@) is None && member(
        error_json(id, message),
        "error"@,
    ) is Some && member_text(member(error_json(id, message), "error"@)->0, "message"@) == Some(
        message,
    ) by {
        law_responses_carry_the_identifier(id, JsonView::Null, message);
    }
}

/// On the host's side a configuration field that is a string is managed; one that is an object has
/// its text under `value`, and is initial where its tag says so and managed otherwise; anything
/// else is refused.
pub proof fn law_wire_fields_are_read(key: Seq<char>, value: JsonView, text: Seq<char>)
    ensures
        value == JsonView::String(text) ==> wire_field(key, value) == Ok::<
            ResolvedFieldValueView,
            Seq<char>,
        >(ResolvedFieldValueView::Managed(text)),
        value is Object && member_text(value, "value"@) == Some(text) && member_text(value, "tag"@)
            == Some("initial"@) ==> wire_field(key, value) == Ok::<
            ResolvedFieldValueView,
            Seq<char>,
        >(ResolvedFieldValueView::Initial(text)),
        value is Object && member_text(value, "value"@) == Some(text) && member_text(value, "tag"@)
            != Some("initial"@) ==> wire_field(key, value) == Ok::<
            ResolvedFieldValueView,
            Seq<char>,
        >(ResolvedFieldValueView::Managed(text)),
        value is Object && member_text(value, "value"@) is None ==> wire_field(key, value) is Err,
        !(value is Object) && !(value is String) ==> wire_field(key, value) is Err,
{
}

/// On the host's side a configuration is read field by field under the same names, and none is
/// read where one of its fields is refused; without one there are no fields.
pub proof fn law_wire_config_is_read_field_by_field(entries: Seq<(Seq<char>, JsonView)>, n: int)
    requires
        0 <= n <= entries.len(),
    ensures
        config_from_wire(JsonView::Null) == Ok::<
            Seq<(Seq<char>, ResolvedFieldValueView)>,
            Seq<char>,
        >(Seq::empty()),
        config_from_wire(JsonView::Object(entries)) == wire_fields(entries, entries.len() as int),
        match wire_fields(entries, n) {
            Ok(config) => config.len() == n && forall|k: int|
                0 <= k < n ==> (#[trigger] config[k]).0 == entries[k].0 && wire_field(
                    entries[k].0,
                    entries[k].1,
                ) == Ok::<ResolvedFieldValueView, Seq<char>>(config[k].1),
            Err(message) => exists|k: int|
                0 <= k < n && wire_field((#[trigger] entries[k]).0, entries[k].1) == Err::<
                    ResolvedFieldValueView,
                    Seq<char>,
                >(message),
        },
    decreases n,
{
    if n > 0 {
        law_wire_config_is_read_field_by_field(entries, n - 1);
        if wire_fields(entries, n - 1) is Ok && wire_field(entries[n - 1].0, entries[n - 1].1)
            is Err {
            let message = wire_field(entries[n - 1].0, entries[n - 1].1)->Err_0;
            assert(wire_field(entries[n - 1].0, entries[n - 1].1) == Err::<
                ResolvedFieldValueView,
                Seq<char>,
            >(message));
        }
    }
}

/// A request that is understood calls what its method names with what its parameters hold under
/// their names; only these three methods are understood.
pub proof fn law_calls_are_read_from_the_parameters(
    method: Seq<char>,
    params: JsonView,
    call: HostCallView,
)
    requires
        call_asked(method, params) == Ok::<HostCallView, Seq<char>>(call),
    ensures
        match call {
            HostCallView::ListLive { config } => method == "list_live"@ && config_from_wire(
                member_or_null(params, "config"@),
            ) == Ok::<Seq<(Seq<char>, ResolvedFieldValueView)>, Seq<char>>(config),
            HostCallView::Plan { desired, live, meta, config } => method == "plan"@ && desired
                == member_or_null(params, "desired"@) && live == member_or_null(params, "live"@)
                && meta_from(member_or_null(params, "meta"@)) == Ok::<NixHapiMetaView, Seq<char>>(
                meta,
            ) && config_from_wire(member_or_null(params, "config"@)) == Ok::<
                Seq<(Seq<char>, ResolvedFieldValueView)>,
                Seq<char>,
            >(config),
            HostCallView::Apply { plan, config } => method == "apply"@ && plan_from(
                member_or_null(params, "plan"@),
            ) == Ok::<ProviderPlanView, Seq<char>>(plan) && config_from_wire(
                member_or_null(params, "config"@),
            ) == Ok::<Seq<(Seq<char>, ResolvedFieldValueView)>, Seq<char>>(config),
        },
{
}

/// A request whose method is one of the three and whose parameters can be read is understood.
pub proof fn law_readable_requests_are_understood(params: JsonView)
    requires
        config_from_wire(member_or_null(params, "config"@)) is Ok,
    ensures
        call_asked("list_live"@, params) matches Ok(call) && call is ListLive,
        meta_from(member_or_null(params, "meta"@)) is Ok ==> call_asked("plan"@, params) is Ok
            && call_asked("plan"@, params)->Ok_0 is Plan,
        plan_from(member_or_null(params, "plan"@)) is Ok ==> call_asked("apply"@, params) is Ok
            && call_asked("apply"@, params)->Ok_0 is Apply,
{
    reveal_strlit("list_live");
    reveal_strlit("plan");
    reveal_strlit("apply");
    assert("list_live"@.len() == 9 && "plan"@.len() == 4 && "apply"@.len() == 5);
}

/// What a call gives is what its response carries: the live state as it is, the plan or the report
/// that it is read as; a failed call is a failed operation with the message of the failure.
pub proof fn law_results_are_those_of_the_response(
    value: JsonView,
    plan: ProviderPlanView,
    report: ApplyReportView,
    error: SubprocessErrorView,
)
    ensures
        live_given(Ok::<JsonView, SubprocessErrorView>(value)) == Ok::<JsonView, ProviderErrorView>(
            value,
        ),
        plan_from(value) == Ok::<ProviderPlanView, Seq<char>>(plan) ==> plan_given(
            Ok::<JsonView, SubprocessErrorView>(value),
        ) == Ok::<ProviderPlanView, ProviderErrorView>(plan),
        plan_from(value) is Err ==> plan_given(Ok::<JsonView, SubprocessErrorView>(value)) is Err,
        report_from(value) == Ok::<ApplyReportView, Seq<char>>(report) ==> report_given(
            Ok::<JsonView, SubprocessErrorView>(value),
        ) == Ok::<ApplyReportView, ProviderErrorView>(report),
        report_from(value) is Err ==> report_given(Ok::<JsonView, SubprocessErrorView>(value)) is Err,
        live_given(Err::<JsonView, SubprocessErrorView>(error)) == Err::<
            JsonView,
            ProviderErrorView,
        >(ProviderErrorView::OperationFailed(error.message())),
        plan_given(Err::<JsonView, SubprocessErrorView>(error)) == Err::<
            ProviderPlanView,
            ProviderErrorView,
        >(ProviderErrorView::OperationFailed(error.message())),
        report_given(Err::<JsonView, SubprocessErrorView>(error)) == Err::<
            ApplyReportView,
            ProviderErrorView,
        >(ProviderErrorView::OperationFailed(error.message())),
{
}

/// That a response carries what the provider returned: the result, or an error with the message of
/// the provider's error.
pub open spec fn carries(
    response: JsonView,
    result: JsonView,
    failure: Option<ProviderErrorView>,
) -> bool {
    match failure {
        None => member(response, "result"@) == Some(result) && member(response, "error"@) is None,
        Some(error) => member(response, "error"@) is Some && member_text(
            member(response, "error"@)->0,
            "message"@,
        ) == Some(error.message()) && member(response, "result"@) is None,
    }
}

/// The answer to a request for the live state is the state that the provider listed for the
/// configuration of the request, or its error.
pub proof fn law_listing_is_answered_with_the_live_state<P: Provider + ?Sized>(
    provider: &P,
    method: Seq<char>,
    params: JsonView,
    id: JsonView,
    response: JsonView,
    config: Seq<(Seq<char>, ResolvedFieldValueView)>,
)
    requires
        answers(provider, method, params, id, response),
        call_asked(method, params) == Ok::<HostCallView, Seq<char>>(
            HostCallView::ListLive { config },
        ),
    ensures
        exists|given: &ResolvedConfig, filters: &[Filter], out: Result<Json, ProviderError>|
            #[trigger] call_ensures(P::list_live, (provider, given, filters), out) && entry_views(
                given@,
            ) == config && filters@.len() == 0 && match out {
                Ok(live) => carries(response, live@, None),
                Err(error) => carries(response, JsonView::Null, Some(error@)),
            },
{
    let (given, filters, out) = choose|
        given: &ResolvedConfig,
        filters: &[Filter],
        out: Result<Json, ProviderError>,
    | #[trigger]
        call_ensures(P::list_live, (provider, given, filters), out) && entry_views(given@) == config
            && filters@.len() == 0 && response == provider_reply(id, result_view(out));
    match out {
        Ok(live) => law_responses_carry_the_identifier(id, live@, Seq::empty()),
        Err(error) => law_responses_carry_the_identifier(id, JsonView::Null, error@.message()),
    }
    assert(call_ensures(P::list_live, (provider, given, filters), out));
}

/// The answer to a request for a plan is read as the plan that the provider made for what the
/// request holds, or is the provider's error.
pub proof fn law_planning_is_answered_with_the_plan<P: Provider + ?Sized>(
    provider: &P,
    method: Seq<char>,
    params: JsonView,
    id: JsonView,
    response: JsonView,
    desired: JsonView,
    live: JsonView,
    meta: NixHapiMetaView,
    config: Seq<(Seq<char>, ResolvedFieldValueView)>,
)
    requires
        answers(provider, method, params, id, response),
        call_asked(method, params) == Ok::<HostCallView, Seq<char>>(
            HostCallView::Plan { desired, live, meta, config },
        ),
    ensures
        exists|
            given_desired: &Json,
            given_live: &Json,
            given_meta: &NixHapiMeta,
            given: &ResolvedConfig,
            out: Result<ProviderPlan, ProviderError>,
        | #[trigger]
            call_ensures(
                P::plan,
                (provider, given_desired, given_live, given_meta, given),
                out,
            ) && given_desired@ == desired && given_live@ == live && given_meta@ == meta
                && entry_views(given@) == config && match out {
                Ok(plan) => member(response, "result"@) is Some && plan_from(
                    member(response, "result"@)->0,
                ) == Ok::<ProviderPlanView, Seq<char>>(plan@),
                Err(error) => carries(response, JsonView::Null, Some(error@)),
            },
{
    let (given_desired, given_live, given_meta, given, out) = choose|
        given_desired: &Json,
        given_live: &Json,
        given_meta: &NixHapiMeta,
        given: &ResolvedConfig,
        out: Result<ProviderPlan, ProviderError>,
    | #[trigger]
        call_ensures(P::plan, (provider, given_desired, given_live, given_meta, given), out)
            && given_desired@ == desired && given_live@ == live && given_meta@ == meta
            && entry_views(given@) == config && response == provider_reply(
            id,
            plan_result(result_view(out)),
        );
    match out {
        Ok(plan) => {
            law_responses_carry_the_identifier(id, plan_json(plan@), Seq::empty());
            law_plan_round_trip(plan@);
        },
        Err(error) => law_responses_carry_the_identifier(id, JsonView::Null, error@.message()),
    }
    assert(call_ensures(P::plan, (provider, given_desired, given_live, given_meta, given), out));
}

/// The answer to a request to apply a plan is read as the report that the provider gave for that
/// plan, or is the provider's error.
pub proof fn law_applying_is_answered_with_the_report<P: Provider + ?Sized>(
    provider: &P,
    method: Seq<char>,
    params: JsonView,
    id: JsonView,
    response: JsonView,
    plan: ProviderPlanView,
    config: Seq<(Seq<char>, ResolvedFieldValueView)>,
)
    requires
        answers(provider, method, params, id, response),
        call_asked(method, params) == Ok::<HostCallView, Seq<char>>(
            HostCallView::Apply { plan, config },
        ),
    ensures
        exists|
            given_plan: &ProviderPlan,
            given: &ResolvedConfig,
            out: Result<ApplyReport, ProviderError>,
        | #[trigger]
            call_ensures(P::apply, (provider, given_plan, given), out) && given_plan@ == plan
                && entry_views(given@) == config && match out {
                Ok(report) => member(response, "result"@) is Some && report_from(
                    member(response, "result"@)->0,
                ) == Ok::<ApplyReportView, Seq<char>>(report@),
                Err(error) => carries(response, JsonView::Null, Some(error@)),
            },
{
    let (given_plan, given, out) = choose|
        given_plan: &ProviderPlan,
        given: &ResolvedConfig,
        out: Result<ApplyReport, ProviderError>,
    | #[trigger]
        call_ensures(P::apply, (provider, given_plan, given), out) && given_plan@ == plan
            && entry_views(given@) == config && response == provider_reply(
            id,
            report_result(result_view(out)),
        );
    match out {
        Ok(report) => {
            law_responses_carry_the_identifier(id, report_json(report@), Seq::empty());
            law_report_round_trip(report@);
        },
        Err(error) => law_responses_carry_the_identifier(id, JsonView::Null, error@.message()),
    }
    assert(call_ensures(P::apply, (provider, given_plan, given), out));
}

/// A line of response carries what the JSON in it carries, whatever white space follows that; a
/// line that holds no JSON is a failure to read it, with the reason.
pub proof fn law_line_carries_its_response(text: Seq<char>, white: Seq<char>)
    requires
        all_white(white),
        text.len() == 0 || !is_white(text.last()),
    ensures
        match parsed_json(text) {
            Ok(response) => line_outcome(text + white) == response_outcome(response),
            Err(message) => line_outcome(text + white) == Err::<JsonView, SubprocessErrorView>(
                SubprocessErrorView::ResponseParse(message),
            ),
        },
{
    law_trimming_the_end_takes_white_space_off(text, white);
}

} // verus!
