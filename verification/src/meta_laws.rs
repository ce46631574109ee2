//! What directives, field values and provider configurations mean, over the JSON that they are
//! written as.

use crate::field_value::{
    field_value_from, field_value_json, lemma_names_differ, resolved, FieldValueErrorView,
    FieldValueView, ResolvedFieldValueView,
};
use crate::jq_expr::{jq_expr_from, jq_expr_json, JqExprStructuredView, JqExprView};
use crate::json::{lemma_tagged, member, member_text, tagged, JsonView, NumberView};
use crate::meta::{
    config_from, expr_list, exprs_from, exprs_json, listed_meta, meta_from, meta_json,
    provider_json, NixHapiMetaView,
};
use crate::provider::{config_resolved, ProviderErrorView};
use crate::sources::{ReadingView, SourcesView};
use crate::strmap::{
    ascending, has_key, lemma_lookup, lemma_lookup_push, lemma_lookup_put, lemma_lookups_put,
    lemma_not_before, lookup, put,
};
use crate::text::trimmed;
use vstd::prelude::*;

verus! {

/// That a JSON object writes down a field value of the given kind with one text under `key`.
pub open spec fn writes_field(
    value: JsonView,
    kind: Seq<char>,
    key: Seq<char>,
    text: Seq<char>,
) -> bool {
    &&& value is Object
    &&& member_text(value, "__nixhapi"@) == Some(kind)
    &&& member_text(value, key) == Some(text)
}

/// A field value that holds its text is read and resolves to that text, whatever the sources are:
/// managed or initial as it is written; one that is not managed resolves to no text.
pub proof fn law_literal_fields_resolve_to_their_text(
    value: JsonView,
    text: Seq<char>,
    sources: SourcesView,
)
    ensures
        writes_field(value, "managed"@, "value"@, text) ==> field_value_from(value) is Ok
            && resolved(field_value_from(value)->Ok_0, sources) == Ok::<ResolvedFieldValueView, FieldValueErrorView>(
            ResolvedFieldValueView::Managed(text),
        ),
        writes_field(value, "initial"@, "value"@, text) ==> field_value_from(value) is Ok
            && resolved(field_value_from(value)->Ok_0, sources) == Ok::<ResolvedFieldValueView, FieldValueErrorView>(
            ResolvedFieldValueView::Initial(text),
        ),
        value is Object && member_text(value, "__nixhapi"@) == Some("unmanaged"@)
            ==> field_value_from(value) is Ok
            && resolved(field_value_from(value)->Ok_0, sources) == Ok::<
            ResolvedFieldValueView,
            FieldValueErrorView,
        >(ResolvedFieldValueView::Unmanaged),
{
    lemma_names_differ();
}

/// A field value that names a file resolves to what the file holds, without the white space around
/// it; where the file could not be read, that is the error, and it names the file.
pub proof fn law_file_fields_resolve_to_the_file(
    value: JsonView,
    path: Seq<char>,
    sources: SourcesView,
    content: Seq<char>,
    failure: Seq<char>,
)
    ensures
        writes_field(value, "managed-from-path"@, "path"@, path) && lookup(sources.files, path)
            == Some(ReadingView::Text(content)) ==> field_value_from(value) is Ok
            && resolved(field_value_from(value)->Ok_0, sources) == Ok::<ResolvedFieldValueView, FieldValueErrorView>(
            ResolvedFieldValueView::Managed(trimmed(content)),
        ),
        writes_field(value, "initial-from-path"@, "path"@, path) && lookup(sources.files, path)
            == Some(ReadingView::Text(content)) ==> field_value_from(value) is Ok
            && resolved(field_value_from(value)->Ok_0, sources) == Ok::<ResolvedFieldValueView, FieldValueErrorView>(
            ResolvedFieldValueView::Initial(trimmed(content)),
        ),
        (writes_field(value, "managed-from-path"@, "path"@, path) || writes_field(
            value,
            "initial-from-path"@,
            "path"@,
            path,
        )) && lookup(sources.files, path) == Some(ReadingView::Failure(failure))
            ==> field_value_from(value) is Ok
            && resolved(field_value_from(value)->Ok_0, sources) == Err::<
            ResolvedFieldValueView,
            FieldValueErrorView,
        >(FieldValueErrorView::PathRead { path, source: failure }),
        (writes_field(value, "managed-from-path"@, "path"@, path) || writes_field(
            value,
            "initial-from-path"@,
            "path"@,
            path,
        )) && lookup(sources.files, path) is None ==> field_value_from(value) is Ok
            && resolved(field_value_from(value)->Ok_0, sources) is Err,
{
    lemma_names_differ();
}

/// A field value that names an environment variable resolves to what the variable holds, as it
/// stands; where the variable could not be read, that is the error, and it names the variable.
pub proof fn law_variable_fields_resolve_to_the_variable(
    value: JsonView,
    env: Seq<char>,
    sources: SourcesView,
    content: Seq<char>,
    failure: Seq<char>,
)
    ensures
        writes_field(value, "managed-from-env"@, "env"@, env) && lookup(sources.variables, env)
            == Some(ReadingView::Text(content)) ==> field_value_from(value) is Ok
            && resolved(field_value_from(value)->Ok_0, sources) == Ok::<ResolvedFieldValueView, FieldValueErrorView>(
            ResolvedFieldValueView::Managed(content),
        ),
        writes_field(value, "initial-from-env"@, "env"@, env) && lookup(sources.variables, env)
            == Some(ReadingView::Text(content)) ==> field_value_from(value) is Ok
            && resolved(field_value_from(value)->Ok_0, sources) == Ok::<ResolvedFieldValueView, FieldValueErrorView>(
            ResolvedFieldValueView::Initial(content),
        ),
        (writes_field(value, "managed-from-env"@, "env"@, env) || writes_field(
            value,
            "initial-from-env"@,
            "env"@,
            env,
        )) && lookup(sources.variables, env) == Some(ReadingView::Failure(failure))
            ==> field_value_from(value) is Ok
            && resolved(field_value_from(value)->Ok_0, sources) == Err::<
            ResolvedFieldValueView,
            FieldValueErrorView,
        >(FieldValueErrorView::EnvRead { env, source: failure }),
        (writes_field(value, "managed-from-env"@, "env"@, env) || writes_field(
            value,
            "initial-from-env"@,
            "env"@,
            env,
        )) && lookup(sources.variables, env) is None ==> field_value_from(value) is Ok
            && resolved(field_value_from(value)->Ok_0, sources) is Err,
{
    lemma_names_differ();
}

/// That the expressions are those of the list at `key` of an object, item by item, or none where
/// there is no such member.
pub open spec fn are_listed(
    exprs: Seq<JqExprView>,
    entries: Seq<(Seq<char>, JsonView)>,
    key: Seq<char>,
) -> bool {
    match lookup(entries, key) {
        None => exprs.len() == 0,
        Some(JsonView::Array(items)) => exprs.len() == items.len() && forall|k: int|
            0 <= k < items.len() ==> jq_expr_from(#[trigger] items[k]) == Ok::<
                JqExprView,
                Seq<char>,
            >(exprs[k]),
        Some(_) => false,
    }
}

proof fn lemma_expressions_listed(items: Seq<JsonView>, n: int)
    requires
        0 <= n <= items.len(),
        exprs_from(items, n) is Ok,
    ensures
        exprs_from(items, n)->Ok_0.len() == n,
        forall|k: int|
            0 <= k < n ==> jq_expr_from(#[trigger] items[k]) == Ok::<JqExprView, Seq<char>>(
                exprs_from(items, n)->Ok_0[k],
            ),
    decreases n,
{
    if n > 0 {
        lemma_expressions_listed(items, n - 1);
    }
}

proof fn lemma_config_read(entries: Seq<(Seq<char>, JsonView)>, n: int, key: Seq<char>)
    requires
        ascending(entries),
        0 <= n <= entries.len(),
        config_from(entries, n) is Ok,
    ensures
        ({
            let config = config_from(entries, n)->Ok_0;
            if key == "type"@ {
                lookup(config, key) is None
            } else {
                match lookup(entries.take(n), key) {
                    None => lookup(config, key) is None,
                    Some(value) => field_value_from(value) is Ok && lookup(config, key) == Some(
                        field_value_from(value)->Ok_0,
                    ),
                }
            }
        }),
    decreases n,
{
    if n > 0 {
        lemma_config_read(entries, n - 1, key);
        let before = config_from(entries, n - 1)->Ok_0;
        assert(entries.take(n) =~= entries.take(n - 1).push(entries[n - 1]));
        lemma_lookup_push(entries.take(n - 1), entries[n - 1], key);
        lemma_not_before(entries, n - 1);
        if entries[n - 1].0 != "type"@ {
            lemma_lookup_put(
                before,
                entries[n - 1].0,
                field_value_from(entries[n - 1].1)->Ok_0,
                key,
            );
        }
    } else {
        assert(entries.take(0) =~= Seq::empty());
    }
}

/// Directives are read member by member: the expressions of `dependsOn` and of `ignore` are those
/// of the two lists; the provider is of the type that stands in its declaration, and its
/// configuration has a field for each of the other members there and no others.
pub proof fn law_directives_are_read_by_name(
    entries: Seq<(Seq<char>, JsonView)>,
    meta: NixHapiMetaView,
    key: Seq<char>,
)
    requires
        meta_from(JsonView::Object(entries)) == Ok::<NixHapiMetaView, Seq<char>>(meta),
    ensures
        are_listed(meta.depends_on, entries, "dependsOn"@),
        are_listed(meta.ignore, entries, "ignore"@),
        match lookup(entries, "provider"@) {
            None => meta.provider is None,
            Some(JsonView::Null) => meta.provider is None,
            Some(JsonView::Object(declared)) => meta.provider is Some && lookup(declared, "type"@)
                == Some(JsonView::String(meta.provider->0.provider_type)) && (ascending(declared)
                ==> if key == "type"@ || !has_key(declared, key) {
                lookup(meta.provider->0.config, key) is None
            } else {
                field_value_from(lookup(declared, key)->0) is Ok && lookup(
                    meta.provider->0.config,
                    key,
                ) == Some(field_value_from(lookup(declared, key)->0)->Ok_0)
            }),
            Some(_) => true,
        },
{
    let value = JsonView::Object(entries);
    if let Some(JsonView::Array(items)) = lookup(entries, "dependsOn"@) {
        assert(expr_list(value, "dependsOn"@) is Ok);
        lemma_expressions_listed(items, items.len() as int);
    }
    if let Some(JsonView::Array(items)) = lookup(entries, "ignore"@) {
        assert(expr_list(value, "ignore"@) is Ok);
        lemma_expressions_listed(items, items.len() as int);
    }
    if let Some(JsonView::Object(declared)) = lookup(entries, "provider"@) {
        if ascending(declared) {
            assert(declared.take(declared.len() as int) =~= declared);
            lemma_config_read(declared, declared.len() as int, key);
            lemma_lookup(declared, key);
        }
    }
}

/// A configuration is resolved field by field under the same names, and fails only where a field
/// of it does, with the name and the error of that field.
pub proof fn law_config_is_resolved_field_by_field(
    raw: Seq<(Seq<char>, FieldValueView)>,
    sources: SourcesView,
    n: int,
)
    requires
        0 <= n <= raw.len(),
    ensures
        match config_resolved(raw, sources, n) {
            Ok(config) => config.len() == n && forall|k: int|
                0 <= k < n ==> (#[trigger] config[k]).0 == raw[k].0 && resolved(raw[k].1, sources)
                    == Ok::<ResolvedFieldValueView, FieldValueErrorView>(config[k].1),
            Err(error) => exists|k: int|
                0 <= k < n && resolved((#[trigger] raw[k]).1, sources) is Err && error == (
                ProviderErrorView::ConfigResolution {
                    field: raw[k].0,
                    source: resolved(raw[k].1, sources)->Err_0,
                }),
        },
    decreases n,
{
    if n > 0 {
        law_config_is_resolved_field_by_field(raw, sources, n - 1);
        if config_resolved(raw, sources, n - 1) is Ok {
            if resolved(raw[n - 1].1, sources) is Err {
                assert(resolved(raw[n - 1].1, sources) is Err);
            }
        }
    }
}

/// That a member is missing or a list of expressions.
pub open spec fn may_be_listed(entries: Seq<(Seq<char>, JsonView)>, key: Seq<char>) -> bool {
    match lookup(entries, key) {
        None => true,
        Some(JsonView::Array(items)) => forall|k: int|
            0 <= k < items.len() ==> jq_expr_from(#[trigger] items[k]) is Ok,
        Some(_) => false,
    }
}

/// That a member is missing, null or the declaration of a provider: an object with its type, a
/// string, whose other members are field values.
pub open spec fn may_be_provider(entries: Seq<(Seq<char>, JsonView)>) -> bool {
    match lookup(entries, "provider"@) {
        None => true,
        Some(JsonView::Null) => true,
        Some(JsonView::Object(declared)) => lookup(declared, "type"@) is Some && lookup(
            declared,
            "type"@,
        )->0 is String && forall|k: int|
            0 <= k < declared.len() ==> (#[trigger] declared[k]).0 == "type"@ || field_value_from(
                declared[k].1,
            ) is Ok,
        Some(_) => false,
    }
}

/// Directives whose three members are each missing or well formed can be read, whatever other
/// members there are; no others can.
pub proof fn law_well_formed_directives_can_be_read(entries: Seq<(Seq<char>, JsonView)>)
    ensures
        meta_from(JsonView::Object(entries)) is Ok <==> may_be_listed(entries, "dependsOn"@)
            && may_be_listed(entries, "ignore"@) && may_be_provider(entries),
{
    if let Some(JsonView::Array(items)) = lookup(entries, "dependsOn"@) {
        lemma_list_readable(items, items.len() as int);
    }
    if let Some(JsonView::Array(items)) = lookup(entries, "ignore"@) {
        lemma_list_readable(items, items.len() as int);
    }
    if let Some(JsonView::Object(declared)) = lookup(entries, "provider"@) {
        lemma_config_readable(declared, declared.len() as int);
    }
}

proof fn lemma_list_readable(items: Seq<JsonView>, n: int)
    requires
        0 <= n <= items.len(),
    ensures
        exprs_from(items, n) is Ok <==> forall|k: int|
            0 <= k < n ==> jq_expr_from(#[trigger] items[k]) is Ok,
    decreases n,
{
    if n > 0 {
        lemma_list_readable(items, n - 1);
        if exprs_from(items, n - 1) is Ok {
            assert(jq_expr_from(items[n - 1]) is Ok <==> exprs_from(items, n) is Ok);
        }
    }
}

proof fn lemma_config_readable(entries: Seq<(Seq<char>, JsonView)>, n: int)
    requires
        0 <= n <= entries.len(),
    ensures
        config_from(entries, n) is Ok <==> forall|k: int|
            0 <= k < n ==> (#[trigger] entries[k]).0 == "type"@ || field_value_from(entries[k].1)
                is Ok,
    decreases n,
{
    if n > 0 {
        lemma_config_readable(entries, n - 1);
        if config_from(entries, n - 1) is Ok {
            let last = entries[n - 1];
            assert((last.0 == "type"@ || field_value_from(last.1) is Ok) <==> config_from(
                entries,
                n,
            ) is Ok);
        }
    }
}

/// An object with a tag of text is read as a field value only where the tag is one of those of
/// field values and the text that belongs to it is there.
pub proof fn law_other_objects_are_no_field_values(value: JsonView, field: FieldValueView)
    requires
        value is Object,
        member_text(value, "__nixhapi"@) is Some,
        field_value_from(value) == Ok::<FieldValueView, Seq<char>>(field),
    ensures
        match field {
            FieldValueView::Managed { value: text } => writes_field(
                value,
                "managed"@,
                "value"@,
                text,
            ),
            FieldValueView::Initial { value: text } => writes_field(
                value,
                "initial"@,
                "value"@,
                text,
            ),
            FieldValueView::Unmanaged => member_text(value, "__nixhapi"@) == Some("unmanaged"@),
            FieldValueView::ManagedFromPath { path } => writes_field(
                value,
                "managed-from-path"@,
                "path"@,
                path,
            ),
            FieldValueView::InitialFromPath { path } => writes_field(
                value,
                "initial-from-path"@,
                "path"@,
                path,
            ),
            FieldValueView::ManagedFromEnv { env } => writes_field(
                value,
                "managed-from-env"@,
                "env"@,
                env,
            ),
            FieldValueView::InitialFromEnv { env } => writes_field(
                value,
                "initial-from-env"@,
                "env"@,
                env,
            ),
        },
{
    lemma_names_differ();
}

/// Neither a string nor a number, a truth value or null is a field value.
pub proof fn law_scalars_are_no_field_values(value: JsonView)
    requires
        !(value is Object),
        !(value is Array),
    ensures
        field_value_from(value) is Err,
{
}

/// An object with a tag of text is read as an expression only where the tag is one of those of
/// expressions and the text that belongs to it is there.
pub proof fn law_other_objects_are_no_expressions(value: JsonView, expr: JqExprView)
    requires
        value is Object,
        member_text(value, "__nixhapi"@) is Some,
        jq_expr_from(value) == Ok::<JqExprView, Seq<char>>(expr),
    ensures
        match expr {
            JqExprView::Inline(_) => false,
            JqExprView::Structured(JqExprStructuredView::Inline { value: text }) => writes_field(
                value,
                "jq-expr"@,
                "value"@,
                text,
            ),
            JqExprView::Structured(JqExprStructuredView::File { path }) => writes_field(
                value,
                "jq-file"@,
                "path"@,
                path,
            ),
        },
{
}

/// The tags of field values by their numbers, with the key of the text that belongs to each; the
/// third has none.
pub open spec fn numbered_field(n: int) -> (Seq<char>, Seq<char>) {
    if n == 0 {
        ("managed"@, "value"@)
    } else if n == 1 {
        ("initial"@, "value"@)
    } else if n == 2 {
        ("unmanaged"@, ""@)
    } else if n == 3 {
        ("managed-from-path"@, "path"@)
    } else if n == 4 {
        ("initial-from-path"@, "path"@)
    } else if n == 5 {
        ("managed-from-env"@, "env"@)
    } else {
        ("initial-from-env"@, "env"@)
    }
}

/// A list of a tag and a text is read as the object that has them as members, and the number of a
/// tag is read as the tag.
pub proof fn law_listed_field_is_that_of_the_object(n: u64, text: Seq<char>)
    requires
        n <= 6,
    ensures
        ({
            let (tag, key) = numbered_field(n as int);
            let number = JsonView::Number(NumberView::PosInt(n));
            if n == 2 {
                field_value_from(JsonView::Array(seq![JsonView::String(tag)])) == Ok::<
                    FieldValueView,
                    Seq<char>,
                >(FieldValueView::Unmanaged) && field_value_from(JsonView::Array(seq![number]))
                    == Ok::<FieldValueView, Seq<char>>(FieldValueView::Unmanaged)
            } else {
                let listed = JsonView::Array(seq![JsonView::String(tag), JsonView::String(text)]);
                field_value_from(listed) is Ok && field_value_from(listed) == field_value_from(
                    tagged(tag, key, text),
                ) && field_value_from(JsonView::Array(seq![number, JsonView::String(text)]))
                    == field_value_from(listed)
            }
        }),
{
    lemma_names_differ();
    let (tag, key) = numbered_field(n as int);
    if n != 2 {
        lemma_tagged(tag, key, text);
    }
}

/// A list of a tag and a text is read as the expression that the object with them as members is
/// read as, and the number of a tag is read as the tag.
pub proof fn law_listed_expression_is_that_of_the_object(text: Seq<char>)
    ensures
        jq_expr_from(
            JsonView::Array(seq![JsonView::String("jq-expr"@), JsonView::String(text)]),
        ) == jq_expr_from(tagged("jq-expr"@, "value"@, text)),
        jq_expr_from(
            JsonView::Array(seq![JsonView::String("jq-file"@), JsonView::String(text)]),
        ) == jq_expr_from(tagged("jq-file"@, "path"@, text)),
        jq_expr_from(
            JsonView::Array(
                seq![JsonView::Number(NumberView::PosInt(0)), JsonView::String(text)],
            ),
        ) == jq_expr_from(tagged("jq-expr"@, "value"@, text)),
        jq_expr_from(
            JsonView::Array(
                seq![JsonView::Number(NumberView::PosInt(1)), JsonView::String(text)],
            ),
        ) == jq_expr_from(tagged("jq-file"@, "path"@, text)),
        jq_expr_from(tagged("jq-expr"@, "value"@, text)) is Ok,
        jq_expr_from(tagged("jq-file"@, "path"@, text)) is Ok,
{
    lemma_names_differ();
    lemma_tagged("jq-expr"@, "value"@, text);
    lemma_tagged("jq-file"@, "path"@, text);
    reveal_strlit("jq-expr");
    reveal_strlit("jq-file");
    assert("jq-expr"@[3] != "jq-file"@[3]);
}

/// Directives that are given as a list are those of the object with the first item as its
/// provider, the second as what is ignored and the third as the dependencies, of which the last
/// two may be missing.
pub proof fn law_listed_directives_are_those_of_the_object(
    provider: JsonView,
    ignore: JsonView,
    depends_on: JsonView,
    entries: Seq<(Seq<char>, JsonView)>,
)
    requires
        lookup(entries, "provider"@) == Some(provider),
    ensures
        lookup(entries, "ignore"@) == Some(ignore) && lookup(entries, "dependsOn"@) == Some(
            depends_on,
        ) ==> meta_from(JsonView::Array(seq![provider, ignore, depends_on])) == meta_from(
            JsonView::Object(entries),
        ),
        lookup(entries, "ignore"@) == Some(ignore) && lookup(entries, "dependsOn"@) is None
            ==> meta_from(JsonView::Array(seq![provider, ignore])) == meta_from(
            JsonView::Object(entries),
        ),
        lookup(entries, "ignore"@) is None && lookup(entries, "dependsOn"@) is None ==> meta_from(
            JsonView::Array(seq![provider]),
        ) == meta_from(JsonView::Object(entries)),
{
    reveal_strlit("provider");
    reveal_strlit("ignore");
    reveal_strlit("dependsOn");
    assert("provider"@.len() == 8 && "ignore"@.len() == 6 && "dependsOn"@.len() == 9);
    let none = Seq::<(Seq<char>, JsonView)>::empty();
    let first = put(none, "provider"@, provider);
    let second = put(first, "ignore"@, ignore);
    lemma_lookups_put(none, "provider"@, provider);
    lemma_lookups_put(first, "ignore"@, ignore);
    lemma_lookups_put(second, "dependsOn"@, depends_on);
    assert(listed_meta(seq![provider, ignore, depends_on]) == put(
        second,
        "dependsOn"@,
        depends_on,
    ));
    assert(listed_meta(seq![provider, ignore]) == second);
    assert(listed_meta(seq![provider]) == first);
}

/// A field value is written as an object with its tag and the text that belongs to it.
pub proof fn law_field_values_are_written_with_their_tags(field: FieldValueView)
    ensures
        match field {
            FieldValueView::Managed { value } => writes_field(
                field_value_json(field),
                "managed"@,
                "value"@,
                value,
            ),
            FieldValueView::Initial { value } => writes_field(
                field_value_json(field),
                "initial"@,
                "value"@,
                value,
            ),
            FieldValueView::Unmanaged => field_value_json(field) is Object && member_text(
                field_value_json(field),
                "__nixhapi"@,
            ) == Some("unmanaged"@),
            FieldValueView::ManagedFromPath { path } => writes_field(
                field_value_json(field),
                "managed-from-path"@,
                "path"@,
                path,
            ),
            FieldValueView::InitialFromPath { path } => writes_field(
                field_value_json(field),
                "initial-from-path"@,
                "path"@,
                path,
            ),
            FieldValueView::ManagedFromEnv { env } => writes_field(
                field_value_json(field),
                "managed-from-env"@,
                "env"@,
                env,
            ),
            FieldValueView::InitialFromEnv { env } => writes_field(
                field_value_json(field),
                "initial-from-env"@,
                "env"@,
                env,
            ),
        },
{
    lemma_names_differ();
    let none = Seq::<(Seq<char>, JsonView)>::empty();
    match field {
        FieldValueView::Managed { value } => lemma_tagged("managed"@, "value"@, value),
        FieldValueView::Initial { value } => lemma_tagged("initial"@, "value"@, value),
        FieldValueView::Unmanaged => lemma_lookups_put(
            none,
            "__nixhapi"@,
            JsonView::String("unmanaged"@),
        ),
        FieldValueView::ManagedFromPath { path } => lemma_tagged(
            "managed-from-path"@,
            "path"@,
            path,
        ),
        FieldValueView::InitialFromPath { path } => lemma_tagged(
            "initial-from-path"@,
            "path"@,
            path,
        ),
        FieldValueView::ManagedFromEnv { env } => lemma_tagged("managed-from-env"@, "env"@, env),
        FieldValueView::InitialFromEnv { env } => lemma_tagged("initial-from-env"@, "env"@, env),
    }
}

/// An inline expression is written as a string, any other as an object with its tag and the text
/// that belongs to it.
pub proof fn law_expressions_are_written_with_their_tags(text: Seq<char>)
    ensures
        jq_expr_json(JqExprView::Inline(text)) == JsonView::String(text),
        writes_field(
            jq_expr_json(JqExprView::Structured(JqExprStructuredView::Inline { value: text })),
            "jq-expr"@,
            "value"@,
            text,
        ),
        writes_field(
            jq_expr_json(JqExprView::Structured(JqExprStructuredView::File { path: text })),
            "jq-file"@,
            "path"@,
            text,
        ),
{
    lemma_names_differ();
    lemma_tagged("jq-expr"@, "value"@, text);
    lemma_tagged("jq-file"@, "path"@, text);
}

/// Directives are written as an object with the two lists of expressions and the declaration of
/// the provider, or null, under their names, and nothing else.
pub proof fn law_directives_are_written_by_name(meta: NixHapiMetaView, key: Seq<char>)
    ensures
        meta_json(meta) is Object,
        member(meta_json(meta), "provider"@) == Some(
            match meta.provider {
                Some(spec) => provider_json(spec),
                None => JsonView::Null,
            },
        ),
        is_list_of(member(meta_json(meta), "ignore"@), meta.ignore),
        is_list_of(member(meta_json(meta), "dependsOn"@), meta.depends_on),
        key != "provider"@ && key != "ignore"@ && key != "dependsOn"@ ==> member(
            meta_json(meta),
            key,
        ) is None,
{
    reveal_strlit("provider");
    reveal_strlit("ignore");
    reveal_strlit("dependsOn");
    assert("provider"@.len() == 8 && "ignore"@.len() == 6 && "dependsOn"@.len() == 9);
    let provider = match meta.provider {
        Some(spec) => provider_json(spec),
        None => JsonView::Null,
    };
    let none = Seq::<(Seq<char>, JsonView)>::empty();
    let first = put(none, "provider"@, provider);
    let second = put(first, "ignore"@, exprs_json(meta.ignore));
    lemma_lookups_put(none, "provider"@, provider);
    lemma_lookups_put(first, "ignore"@, exprs_json(meta.ignore));
    lemma_lookups_put(second, "dependsOn"@, exprs_json(meta.depends_on));
}

/// That a member is the list of the given expressions.
pub open spec fn is_list_of(value: Option<JsonView>, exprs: Seq<JqExprView>) -> bool {
    &&& value is Some
    &&& value->0 is Array
    &&& value->0->Array_0.len() == exprs.len()
    &&& forall|i: int|
        0 <= i < exprs.len() ==> #[trigger] value->0->Array_0[i] == jq_expr_json(exprs[i])
}

} // verus!
