//! Directives from the `__nixhapi` key of a scope.

use crate::field_value::{
    field_value_from, field_value_json, law_field_value_round_trip, FieldValue, FieldValueView,
};
use crate::jq_expr::{jq_expr_from, jq_expr_json, law_expression_round_trip, JqExpr, JqExprView};
use crate::json::{
    lemma_array_view, lemma_object_view, member, members, need_text, needed_text, Json, JsonView,
};
use crate::strmap::{
    ascending, entry_views, lemma_lookup_at, lemma_lookup_push, lemma_lookup_put, lemma_not_before,
    lemma_put_ascending, lemma_same_lookups, lemma_views_put, lookup, put, StrMap,
};
use crate::text::text_eq;
use crate::views::{lemma_views_push, result_view, views};
use vstd::prelude::*;

verus! {

/// Directives that modify reconciliation behaviour for the enclosing scope.  The reconciler
/// strips them before it passes the subtree to the provider.
#[derive(Debug, PartialEq)]
pub struct NixHapiMeta {
    /// Provider declaration for the top-level scope.
    pub provider: Option<ProviderSpec>,
    /// jq filter expressions exempting resources from ownership.  Resources for which any
    /// expression evaluates to truthy are not deleted when absent from the desired state.
    pub ignore: Vec<JqExpr>,
    /// jq expressions that each evaluate to a provider-instance subtree that must be fully
    /// applied before this instance begins.  They are evaluated against the complete top-level
    /// JSON value.
    pub depends_on: Vec<JqExpr>,
}

/// Provider type and its connection and authentication configuration, all expressed as field
/// values so that credentials can come from paths or environment variables.
#[derive(Debug, PartialEq)]
pub struct ProviderSpec {
    /// Provider type identifier (e.g. `"ldap"`).
    pub provider_type: String,
    /// Provider-specific configuration fields.
    pub config: StrMap<FieldValue>,
}

/// What a [`NixHapiMeta`] stands for.
pub struct NixHapiMetaView {
    pub provider: Option<ProviderSpecView>,
    pub ignore: Seq<JqExprView>,
    pub depends_on: Seq<JqExprView>,
}

/// What a [`ProviderSpec`] stands for.
pub struct ProviderSpecView {
    pub provider_type: Seq<char>,
    pub config: Seq<(Seq<char>, FieldValueView)>,
}

impl View for ProviderSpec {
    type V = ProviderSpecView;

    open spec fn view(&self) -> ProviderSpecView {
        ProviderSpecView {
            provider_type: self.provider_type@,
            config: entry_views(self.config@),
        }
    }
}

impl View for NixHapiMeta {
    type V = NixHapiMetaView;

    open spec fn view(&self) -> NixHapiMetaView {
        NixHapiMetaView {
            provider: match self.provider {
                Some(spec) => Some(spec@),
                None => None,
            },
            ignore: views(self.ignore@),
            depends_on: views(self.depends_on@),
        }
    }
}

/// No directives.
pub open spec fn no_meta() -> NixHapiMetaView {
    NixHapiMetaView { provider: None, ignore: Seq::empty(), depends_on: Seq::empty() }
}

impl Default for NixHapiMeta {
    fn default() -> (meta: NixHapiMeta)
        ensures
            meta@ == no_meta(),
    {
        let meta = NixHapiMeta { provider: None, ignore: Vec::new(), depends_on: Vec::new() };
        assert(meta@.ignore =~= Seq::empty());
        assert(meta@.depends_on =~= Seq::empty());
        meta
    }
}

/// The expressions that the first `n` items are read as, or the message for the first item that
/// is none.
pub open spec fn exprs_from(items: Seq<JsonView>, n: int) -> Result<Seq<JqExprView>, Seq<char>>
    decreases n,
{
    if n <= 0 {
        Ok(Seq::empty())
    } else {
        match exprs_from(items, n - 1) {
            Err(message) => Err(message),
            Ok(read) => match jq_expr_from(items[n - 1]) {
                Ok(expr) => Ok(read.push(expr)),
                Err(message) => Err(message),
            },
        }
    }
}

/// The expressions of the list at `key`; none where there is no such member.
pub open spec fn expr_list(value: JsonView, key: Seq<char>) -> Result<Seq<JqExprView>, Seq<char>> {
    match member(value, key) {
        None => Ok(Seq::empty()),
        Some(JsonView::Array(items)) => exprs_from(items, items.len() as int),
        Some(_) => Err("expected a list of jq expressions"@),
    }
}

/// The field values that the first `n` members are read as, without the provider's type, or the
/// message for the first member that is none.
pub open spec fn config_from(entries: Seq<(Seq<char>, JsonView)>, n: int) -> Result<
    Seq<(Seq<char>, FieldValueView)>,
    Seq<char>,
>
    decreases n,
{
    if n <= 0 {
        Ok(Seq::empty())
    } else {
        match config_from(entries, n - 1) {
            Err(message) => Err(message),
            Ok(read) => if entries[n - 1].0 == "type"@ {
                Ok(read)
            } else {
                match field_value_from(entries[n - 1].1) {
                    Ok(field) => Ok(put(read, entries[n - 1].0, field)),
                    Err(message) => Err(message),
                }
            },
        }
    }
}

/// The provider declaration that a JSON value is read as: an object with the type, a string,
/// and field values.
pub open spec fn provider_from(value: JsonView) -> Result<ProviderSpecView, Seq<char>> {
    match needed_text(value, "type"@) {
        Err(message) => Err(message),
        Ok(provider_type) => match config_from(members(value), members(value).len() as int) {
            Err(message) => Err(message),
            Ok(config) => Ok(ProviderSpecView { provider_type, config }),
        },
    }
}

/// The provider declaration of a meta block; none where the member is missing or null.
pub open spec fn declared_provider(value: JsonView) -> Result<
    Option<ProviderSpecView>,
    Seq<char>,
> {
    match member(value, "provider"@) {
        None => Ok(None),
        Some(JsonView::Null) => Ok(None),
        Some(inner) => match provider_from(inner) {
            Ok(spec) => Ok(Some(spec)),
            Err(message) => Err(message),
        },
    }
}

/// The members of directives that are given as a list: the provider, what is ignored and the
/// dependencies, of which the last two may be missing.
pub open spec fn listed_meta(items: Seq<JsonView>) -> Seq<(Seq<char>, JsonView)> {
    let first = put(Seq::empty(), "provider"@, items[0]);
    let second = if items.len() > 1 {
        put(first, "ignore"@, items[1])
    } else {
        first
    };
    if items.len() > 2 {
        put(second, "dependsOn"@, items[2])
    } else {
        second
    }
}

/// The directives that a JSON value is read as: an object, in which members of other names are
/// passed over, or a list.
pub open spec fn meta_from(value: JsonView) -> Result<NixHapiMetaView, Seq<char>> {
    match value {
        JsonView::Object(_) => named_meta(value),
        JsonView::Array(items) => if 1 <= items.len() <= 3 {
            named_meta(JsonView::Object(listed_meta(items)))
        } else {
            Err("expected one to three items"@)
        },
        _ => Err("expected an object"@),
    }
}

/// The directives that an object is read as.
pub open spec fn named_meta(value: JsonView) -> Result<NixHapiMetaView, Seq<char>> {
    match expr_list(value, "dependsOn"@) {
        Err(message) => Err(message),
        Ok(depends_on) => match expr_list(value, "ignore"@) {
            Err(message) => Err(message),
            Ok(ignore) => match declared_provider(value) {
                Err(message) => Err(message),
                Ok(provider) => Ok(NixHapiMetaView { provider, ignore, depends_on }),
            },
        },
    }
}

/// The JSON forms of expressions, in order.
pub open spec fn exprs_json(exprs: Seq<JqExprView>) -> JsonView {
    JsonView::Array(exprs.map_values(|expr: JqExprView| jq_expr_json(expr)))
}

/// The members of a provider declaration after the first `n` configuration fields.
pub open spec fn config_json(spec: ProviderSpecView, n: int) -> Seq<(Seq<char>, JsonView)>
    decreases n,
{
    if n <= 0 {
        put(Seq::empty(), "type"@, JsonView::String(spec.provider_type))
    } else {
        put(config_json(spec, n - 1), spec.config[n - 1].0, field_value_json(spec.config[n - 1].1))
    }
}

/// The JSON form of a provider declaration: its type among its configuration fields.
pub open spec fn provider_json(spec: ProviderSpecView) -> JsonView {
    JsonView::Object(config_json(spec, spec.config.len() as int))
}

/// The JSON form of the directives.
pub open spec fn meta_json(meta: NixHapiMetaView) -> JsonView {
    let provider = match meta.provider {
        Some(spec) => provider_json(spec),
        None => JsonView::Null,
    };
    JsonView::Object(
        put(
            put(
                put(Seq::empty(), "provider"@, provider),
                "ignore"@,
                exprs_json(meta.ignore),
            ),
            "dependsOn"@,
            exprs_json(meta.depends_on),
        ),
    )
}

/// Reads the list of expressions at `key`.
fn read_exprs(value: &Json, key: &str) -> (exprs: Result<Vec<JqExpr>, String>)
    ensures
        match exprs {
            Ok(exprs) => expr_list(value@, key@) == Ok::<Seq<JqExprView>, Seq<char>>(views(exprs@)),
            Err(message) => expr_list(value@, key@) == Err::<Seq<JqExprView>, Seq<char>>(message@),
        },
{
    match value.get(key) {
        None => {
            let exprs: Vec<JqExpr> = Vec::new();
            assert(views(exprs@) =~= Seq::empty());
            Ok(exprs)
        }
        Some(Json::Array(items)) => {
            proof {
                lemma_array_view(*items);
            }
            let mut exprs: Vec<JqExpr> = Vec::new();
            let mut i: usize = 0;
            assert(views(exprs@) =~= Seq::empty());
            while i < items.len()
                invariant
                    i <= items@.len(),
                    expr_list(value@, key@) == exprs_from(views(items@), items@.len() as int),
                    exprs_from(views(items@), i as int) == Ok::<Seq<JqExprView>, Seq<char>>(
                        views(exprs@),
                    ),
                decreases items.len() - i,
            {
                match JqExpr::from_json(&items[i]) {
                    Ok(expr) => {
                        proof {
                            lemma_views_push(exprs@, expr);
                        }
                        exprs.push(expr);
                    }
                    Err(message) => {
                        proof {
                            lemma_exprs_stop(views(items@), i + 1, items@.len() as int);
                        }
                        return Err(message);
                    }
                }
                i = i + 1;
            }
            Ok(exprs)
        }
        Some(_) => Err("expected a list of jq expressions".to_owned()),
    }
}

/// A message for the first `n` items is the message for more of them.
proof fn lemma_exprs_stop(items: Seq<JsonView>, n: int, m: int)
    requires
        0 <= n <= m,
        exprs_from(items, n) is Err,
    ensures
        exprs_from(items, m) == exprs_from(items, n),
    decreases m - n,
{
    if n < m {
        lemma_exprs_stop(items, n, m - 1);
    }
}

/// A message for the first `n` members is the message for more of them.
proof fn lemma_config_stop(entries: Seq<(Seq<char>, JsonView)>, n: int, m: int)
    requires
        0 <= n <= m,
        config_from(entries, n) is Err,
    ensures
        config_from(entries, m) == config_from(entries, n),
    decreases m - n,
{
    if n < m {
        lemma_config_stop(entries, n, m - 1);
    }
}

/// Writes expressions in order.
fn write_exprs(exprs: &Vec<JqExpr>) -> (value: Json)
    ensures
        value@ == exprs_json(views(exprs@)),
{
    let mut items: Vec<Json> = Vec::new();
    let mut i: usize = 0;
    while i < exprs.len()
        invariant
            i <= exprs@.len(),
            items@.len() == i,
            forall|k: int| 0 <= k < i ==> (#[trigger] items@[k])@ == jq_expr_json(exprs@[k]@),
        decreases exprs.len() - i,
    {
        items.push(exprs[i].to_json());
        i = i + 1;
    }
    proof {
        lemma_array_view(items);
        assert(views(items@) =~= views(exprs@).map_values(|expr: JqExprView| jq_expr_json(expr)));
    }
    Json::Array(items)
}

impl ProviderSpec {
    /// Reads a provider declaration from its JSON form.
    pub fn from_json(value: &Json) -> (spec: Result<ProviderSpec, String>)
        ensures
            result_view(spec) == provider_from(value@),
    {
        let provider_type = match need_text(value, "type") {
            Ok(text) => text,
            Err(message) => {
                return Err(message);
            }
        };
        let mut config: StrMap<FieldValue> = StrMap::new();
        assert(entry_views(config@) =~= Seq::empty());
        if let Some(map) = value.as_object() {
            let ghost entries = entry_views(map@);
            let mut i: usize = 0;
            while i < map.len()
                invariant
                    i <= map@.len(),
                    entries == entry_views(map@),
                    members(value@) == entries,
                    needed_text(value@, "type"@) == Ok::<Seq<char>, Seq<char>>(provider_type@),
                    config_from(entries, i as int) == Ok::<
                        Seq<(Seq<char>, FieldValueView)>,
                        Seq<char>,
                    >(entry_views(config@)),
                decreases map@.len() - i,
            {
                let key = map.key_at(i);
                if !text_eq(key, "type") {
                    match FieldValue::from_json(map.value_at(i)) {
                        Ok(field) => {
                            proof {
                                lemma_views_put(config@, key@, field);
                            }
                            config = config.put(key.to_owned(), field);
                        }
                        Err(message) => {
                            proof {
                                lemma_config_stop(entries, i + 1, entries.len() as int);
                            }
                            return Err(message);
                        }
                    }
                }
                i = i + 1;
            }
        }
        Ok(ProviderSpec { provider_type, config })
    }

    /// The JSON form of this declaration.
    pub fn to_json(&self) -> (value: Json)
        ensures
            value@ == provider_json(self@),
    {
        let mut value = Json::empty_object().with_member(
            "type",
            Json::String(self.provider_type.clone()),
        );
        let mut i: usize = 0;
        while i < self.config.len()
            invariant
                i <= self.config@.len(),
                value@ == JsonView::Object(config_json(self@, i as int)),
            decreases self.config@.len() - i,
        {
            value = value.with_member(self.config.key_at(i), self.config.value_at(i).to_json());
            i = i + 1;
        }
        value
    }
}

impl NixHapiMeta {
    /// Reads the directives from their JSON form.
    pub fn from_json(value: &Json) -> (meta: Result<NixHapiMeta, String>)
        ensures
            result_view(meta) == meta_from(value@),
    {
        match value {
            Json::Object(map) => {
                proof {
                    lemma_object_view(*map);
                }
                NixHapiMeta::from_members(value)
            }
            Json::Array(items) => {
                proof {
                    lemma_array_view(*items);
                }
                if items.len() < 1 || items.len() > 3 {
                    return Err("expected one to three items".to_owned());
                }
                assert(views(items@)[0] == items@[0]@);
                let mut named = Json::empty_object().with_member("provider", items[0].copy());
                if items.len() > 1 {
                    assert(views(items@)[1] == items@[1]@);
                    named = named.with_member("ignore", items[1].copy());
                }
                if items.len() > 2 {
                    assert(views(items@)[2] == items@[2]@);
                    named = named.with_member("dependsOn", items[2].copy());
                }
                NixHapiMeta::from_members(&named)
            }
            _ => Err("expected an object".to_owned()),
        }
    }

    /// Reads the directives from an object.
    fn from_members(value: &Json) -> (meta: Result<NixHapiMeta, String>)
        ensures
            result_view(meta) == named_meta(value@),
    {
        let depends_on = match read_exprs(value, "dependsOn") {
            Ok(exprs) => exprs,
            Err(message) => {
                return Err(message);
            }
        };
        let ignore = match read_exprs(value, "ignore") {
            Ok(exprs) => exprs,
            Err(message) => {
                return Err(message);
            }
        };
        let provider = match value.get("provider") {
            None => None,
            Some(Json::Null) => None,
            Some(inner) => match ProviderSpec::from_json(inner) {
                Ok(spec) => Some(spec),
                Err(message) => {
                    return Err(message);
                }
            },
        };
        Ok(NixHapiMeta { provider, ignore, depends_on })
    }

    /// The JSON form of these directives.
    pub fn to_json(&self) -> (value: Json)
        ensures
            value@ == meta_json(self@),
    {
        let provider = match &self.provider {
            Some(spec) => spec.to_json(),
            None => Json::Null,
        };
        Json::empty_object().with_member("provider", provider).with_member(
            "ignore",
            write_exprs(&self.ignore),
        ).with_member("dependsOn", write_exprs(&self.depends_on))
    }
}

/// A list of expressions is read back as it was written.
proof fn lemma_exprs_round_trip(exprs: Seq<JqExprView>, n: int)
    requires
        0 <= n <= exprs.len(),
    ensures
        exprs_from(exprs_json(exprs)->Array_0, n) == Ok::<Seq<JqExprView>, Seq<char>>(
            exprs.take(n),
        ),
    decreases n,
{
    let items = exprs_json(exprs)->Array_0;
    if n <= 0 {
        assert(exprs.take(0) =~= Seq::empty());
    } else {
        lemma_exprs_round_trip(exprs, n - 1);
        law_expression_round_trip(exprs[n - 1]);
        assert(items[n - 1] == jq_expr_json(exprs[n - 1]));
        assert(exprs.take(n - 1).push(exprs[n - 1]) =~= exprs.take(n));
    }
}

/// What a written provider declaration holds for each key.
proof fn lemma_config_json(spec: ProviderSpecView, n: int, key: Seq<char>)
    requires
        0 <= n <= spec.config.len(),
        ascending(spec.config),
        lookup(spec.config, "type"@) is None,
    ensures
        ascending(config_json(spec, n)),
        lookup(config_json(spec, n), key) == if key == "type"@ {
            Some(JsonView::String(spec.provider_type))
        } else {
            match lookup(spec.config.take(n), key) {
                Some(field) => Some(field_value_json(field)),
                None => None,
            }
        },
    decreases n,
{
    let empty = Seq::<(Seq<char>, JsonView)>::empty();
    if n <= 0 {
        lemma_lookup_put(empty, "type"@, JsonView::String(spec.provider_type), key);
        lemma_put_ascending(empty, "type"@, JsonView::String(spec.provider_type));
    } else {
        let (last, field) = spec.config[n - 1];
        let before = config_json(spec, n - 1);
        lemma_config_json(spec, n - 1, key);
        lemma_put_ascending(before, last, field_value_json(field));
        lemma_lookup_put(before, last, field_value_json(field), key);
        lemma_lookup_at(spec.config, n - 1);
        assert(spec.config.take(n) =~= spec.config.take(n - 1).push((last, field)));
        lemma_lookup_push(spec.config.take(n - 1), (last, field), key);
        if last == key {
            lemma_not_before(spec.config, n - 1);
        }
    }
}

/// What is read from the first `n` members of a written provider declaration.
proof fn lemma_config_from(spec: ProviderSpecView, entries: Seq<(Seq<char>, JsonView)>, n: int)
    requires
        ascending(spec.config),
        lookup(spec.config, "type"@) is None,
        ascending(entries),
        forall|key: Seq<char>| #[trigger]
            lookup(entries, key) == if key == "type"@ {
                Some(JsonView::String(spec.provider_type))
            } else {
                match lookup(spec.config, key) {
                    Some(field) => Some(field_value_json(field)),
                    None => None,
                }
            },
        0 <= n <= entries.len(),
    ensures
        config_from(entries, n) matches Ok(read) && ascending(read) && forall|key: Seq<char>| #[trigger]
            lookup(read, key) == if lookup(entries.take(n), key) is Some {
                lookup(spec.config, key)
            } else {
                None
            },
    decreases n,
{
    if n <= 0 {
        assert(entries.take(0) =~= Seq::empty());
    } else {
        lemma_config_from(spec, entries, n - 1);
        let read = config_from(entries, n - 1)->Ok_0;
        let (last, value) = entries[n - 1];
        lemma_lookup_at(entries, n - 1);
        lemma_not_before(entries, n - 1);
        assert(entries.take(n) =~= entries.take(n - 1).push((last, value)));
        assert forall|key: Seq<char>| true implies (#[trigger] lookup(entries.take(n), key) is Some
            <==> lookup(entries.take(n - 1), key) is Some || key == last) by {
            lemma_lookup_push(entries.take(n - 1), (last, value), key);
        }
        if last != "type"@ {
            let field = lookup(spec.config, last)->0;
            law_field_value_round_trip(field);
            lemma_put_ascending(read, last, field);
            let after = put(read, last, field);
            assert(config_from(entries, n) == Ok::<Seq<(Seq<char>, FieldValueView)>, Seq<char>>(
                after,
            ));
            assert forall|key: Seq<char>| #[trigger] lookup(after, key) == if lookup(
                entries.take(n),
                key,
            ) is Some {
                lookup(spec.config, key)
            } else {
                None
            } by {
                lemma_lookup_put(read, last, field, key);
                assert(lookup(read, key) == if lookup(entries.take(n - 1), key) is Some {
                    lookup(spec.config, key)
                } else {
                    None
                });
            }
        } else {
            assert forall|key: Seq<char>| #[trigger] lookup(read, key) == if lookup(
                entries.take(n),
                key,
            ) is Some {
                lookup(spec.config, key)
            } else {
                None
            } by {
                assert(lookup(entries.take(n), key) is Some <==> lookup(entries.take(n - 1), key)
                    is Some || key == last);
            }
        }
    }
}

/// A provider declaration is read back from its JSON form as it was written, unless a
/// configuration field takes the name of its type.
pub proof fn law_provider_round_trip(spec: ProviderSpecView)
    requires
        ascending(spec.config),
        lookup(spec.config, "type"@) is None,
    ensures
        provider_from(provider_json(spec)) == Ok::<ProviderSpecView, Seq<char>>(spec),
{
    let n = spec.config.len() as int;
    let entries = config_json(spec, n);
    assert(spec.config.take(n) =~= spec.config);
    assert forall|key: Seq<char>| #[trigger] lookup(entries, key) == if key == "type"@ {
        Some(JsonView::String(spec.provider_type))
    } else {
        match lookup(spec.config, key) {
            Some(field) => Some(field_value_json(field)),
            None => None,
        }
    } by {
        lemma_config_json(spec, n, key);
    }
    lemma_config_json(spec, n, "type"@);
    lemma_config_from(spec, entries, entries.len() as int);
    assert(entries.take(entries.len() as int) =~= entries);
    let read = config_from(entries, entries.len() as int)->Ok_0;
    assert forall|key: Seq<char>| #[trigger] lookup(read, key) == lookup(spec.config, key) by {
        assert(lookup(entries, key) == lookup(entries, key));
    }
    lemma_same_lookups(read, spec.config);
}

/// Directives are read back from their JSON form as they were written.
pub proof fn law_meta_round_trip(meta: NixHapiMetaView)
    requires
        meta.provider matches Some(spec) ==> ascending(spec.config) && lookup(
            spec.config,
            "type"@,
        ) is None,
    ensures
        meta_from(meta_json(meta)) == Ok::<NixHapiMetaView, Seq<char>>(meta),
{
    let provider = match meta.provider {
        Some(spec) => provider_json(spec),
        None => JsonView::Null,
    };
    let value = meta_json(meta);
    let first = put(Seq::<(Seq<char>, JsonView)>::empty(), "provider"@, provider);
    let second = put(first, "ignore"@, exprs_json(meta.ignore));
    reveal_strlit("provider");
    reveal_strlit("ignore");
    reveal_strlit("dependsOn");
    assert("provider"@.len() == 8 && "ignore"@.len() == 6 && "dependsOn"@.len() == 9);
    assert forall|key: Seq<char>| true implies #[trigger] member(value, key) == if key
        == "dependsOn"@ {
        Some(exprs_json(meta.depends_on))
    } else if key == "ignore"@ {
        Some(exprs_json(meta.ignore))
    } else if key == "provider"@ {
        Some(provider)
    } else {
        None
    } by {
        lemma_lookup_put(second, "dependsOn"@, exprs_json(meta.depends_on), key);
        lemma_lookup_put(first, "ignore"@, exprs_json(meta.ignore), key);
        lemma_lookup_put(Seq::<(Seq<char>, JsonView)>::empty(), "provider"@, provider, key);
    }
    lemma_exprs_round_trip(meta.ignore, meta.ignore.len() as int);
    lemma_exprs_round_trip(meta.depends_on, meta.depends_on.len() as int);
    assert(meta.ignore.take(meta.ignore.len() as int) =~= meta.ignore);
    assert(meta.depends_on.take(meta.depends_on.len() as int) =~= meta.depends_on);
    if let Some(spec) = meta.provider {
        law_provider_round_trip(spec);
    }
    assert(expr_list(value, "dependsOn"@) == Ok::<Seq<JqExprView>, Seq<char>>(meta.depends_on));
    assert(expr_list(value, "ignore"@) == Ok::<Seq<JqExprView>, Seq<char>>(meta.ignore));
}

} // verus!
