//! Comparison of the desired with the live state of an LDAP directory.

use crate::field_value::{
    resolved, value_text, FieldValue, FieldValueError, FieldValueErrorView, FieldValueView,
    ResolvedFieldValue, ResolvedFieldValueView,
};
use crate::ignore::{any_matches, is_ignored, pattern_matches, IgnorePattern};
use crate::ldap::{
    GroupEntry, GroupEntryView, LdapDesiredState, LdapDesiredStateView, LdapLiveState,
    LdapLiveStateView, LiveEntry, UserEntry, UserEntryView,
};
use crate::order::{
    comes_before, is_stable_order, law_sorting_keeps_a_selection, law_stable_order_unique, picked,
    reordered, stable_sort, stably_sorted,
};
use crate::plan::{FieldDiff, FieldDiffView, ResourceChange, ResourceChangeView};
use crate::sources::{Sources, SourcesView};
use crate::strmap::{
    ascending, entry_views, has_key, lemma_lists_lookup, lemma_lists_put, lemma_lookup_at,
    lemma_lookup_push, lemma_lookup_put, lemma_lookups_put, lemma_not_before, lemma_put_ascending,
    lemma_views_lookup, lemma_views_put, list_views, lookup, put, StrMap,
};
use crate::text::{chars_of, copy_texts, join, joined, quote, quoted, text_eq, text_lt, text_lt_irreflexive};
use crate::views::{lemma_views_add, lemma_views_push, option_view, result_view, views};
use vstd::prelude::*;

verus! {

/// Why the states could not be compared.
#[derive(Debug, PartialEq)]
pub enum ReconcileError {
    FieldResolution { entry: String, field: String, source: FieldValueError },
}

/// What a [`ReconcileError`] stands for.
pub enum ReconcileErrorView {
    FieldResolution { entry: Seq<char>, field: Seq<char>, source: FieldValueErrorView },
}

impl View for ReconcileError {
    type V = ReconcileErrorView;

    open spec fn view(&self) -> ReconcileErrorView {
        match self {
            ReconcileError::FieldResolution { entry, field, source } =>
                ReconcileErrorView::FieldResolution {
                    entry: entry@,
                    field: field@,
                    source: source@,
                },
        }
    }
}

impl ReconcileErrorView {
    /// The message of this error.
    pub open spec fn message(self) -> Seq<char> {
        match self {
            ReconcileErrorView::FieldResolution { entry, field, source } =>
                "Failed to resolve field "@ + quoted(field) + " for "@ + quoted(entry) + ": "@
                + source.message(),
        }
    }
}

impl ReconcileError {
    /// The message of this error.
    pub fn message(&self) -> (message: String)
        ensures
            message@ == self@.message(),
    {
        match self {
            ReconcileError::FieldResolution { entry, field, source } => {
                "Failed to resolve field ".to_owned().concat(
                    quote(field.as_str()).as_str(),
                ).concat(" for ").concat(quote(entry.as_str()).as_str()).concat(": ").concat(
                    source.message().as_str(),
                )
            }
        }
    }
}

/// How an attribute is brought in line.
#[derive(Debug, PartialEq, Eq, Structural)]
pub enum AttrModOp {
    Add,
    Replace,
}

/// A modification of one attribute.
#[derive(Debug, PartialEq)]
pub struct AttrMod {
    pub attr: String,
    pub op: AttrModOp,
    pub values: Vec<String>,
}

/// What an [`AttrMod`] stands for.
pub struct AttrModView {
    pub attr: Seq<char>,
    pub op: AttrModOp,
    pub values: Seq<Seq<char>>,
}

impl View for AttrMod {
    type V = AttrModView;

    open spec fn view(&self) -> AttrModView {
        AttrModView { attr: self.attr@, op: self.op, values: views(self.values@) }
    }
}

/// The full set of changes the LDAP provider needs to make, separated by operation type so that
/// the runbook generator can order them correctly.
#[derive(Debug, PartialEq)]
pub struct LdapDiff {
    pub resource_changes: Vec<ResourceChange>,
    /// Entries to add: name and attributes.  Parents come before children.
    pub to_add: Vec<(String, StrMap<Vec<String>>)>,
    /// Entries to modify: name and modifications.
    pub to_modify: Vec<(String, Vec<AttrMod>)>,
    /// Names of entries to delete, deepest first.
    pub to_delete: Vec<String>,
}

/// What an [`LdapDiff`] stands for.
pub struct LdapDiffView {
    pub resource_changes: Seq<ResourceChangeView>,
    pub to_add: Seq<(Seq<char>, Seq<(Seq<char>, Seq<Seq<char>>)>)>,
    pub to_modify: Seq<(Seq<char>, Seq<AttrModView>)>,
    pub to_delete: Seq<Seq<char>>,
}

impl View for LdapDiff {
    type V = LdapDiffView;

    open spec fn view(&self) -> LdapDiffView {
        LdapDiffView {
            resource_changes: views(self.resource_changes@),
            to_add: add_views(self.to_add@),
            to_modify: modify_views(self.to_modify@),
            to_delete: views(self.to_delete@),
        }
    }
}

/// The name of a user's entry.
pub open spec fn user_name(uid: Seq<char>, base_dn: Seq<char>) -> Seq<char> {
    "uid="@ + uid + ",ou=users,"@ + base_dn
}

/// The name of a group's entry.
pub open spec fn group_name(cn: Seq<char>, base_dn: Seq<char>) -> Seq<char> {
    "cn="@ + cn + ",ou=groups,"@ + base_dn
}

/// The name of a user's entry.
pub fn user_dn(uid: &str, base_dn: &str) -> (dn: String)
    ensures
        dn@ == user_name(uid@, base_dn@),
{
    "uid=".to_owned().concat(uid).concat(",ou=users,").concat(base_dn)
}

/// The name of a group's entry.
pub fn group_dn(cn: &str, base_dn: &str) -> (dn: String)
    ensures
        dn@ == group_name(cn@, base_dn@),
{
    "cn=".to_owned().concat(cn).concat(",ou=groups,").concat(base_dn)
}

/// The name of the entry that holds the users.
pub fn ou_users_dn(base_dn: &str) -> (dn: String)
    ensures
        dn@ == "ou=users,"@ + base_dn@,
{
    "ou=users,".to_owned().concat(base_dn)
}

/// The name of the entry that holds the groups.
pub fn ou_groups_dn(base_dn: &str) -> (dn: String)
    ensures
        dn@ == "ou=groups,"@ + base_dn@,
{
    "ou=groups,".to_owned().concat(base_dn)
}

/// How many commas there are.
pub open spec fn commas(text: Seq<char>) -> nat
    decreases text.len(),
{
    if text.len() == 0 {
        0
    } else {
        commas(text.drop_last()) + if text.last() == ',' {
            1nat
        } else {
            0nat
        }
    }
}

/// How deep an entry stands under the root: how many commas there are in its name.
fn dn_depth(dn: &str) -> (depth: usize)
    ensures
        depth == commas(dn@),
{
    let chars = chars_of(dn);
    let mut count: usize = 0;
    let mut i: usize = 0;
    assert(chars@.take(0) =~= Seq::empty());
    while i < chars.len()
        invariant
            i <= chars.len(),
            count <= i,
            count == commas(chars@.take(i as int)),
        decreases chars.len() - i,
    {
        assert(chars@.take(i + 1).drop_last() =~= chars@.take(i as int));
        assert(chars@.take(i + 1).last() == chars@[i as int]);
        if chars[i] == ',' {
            count = count + 1;
        }
        i = i + 1;
    }
    assert(chars@.take(i as int) =~= chars@);
    count
}

/// The field values of a user by attribute, in the order in which they are resolved.
pub open spec fn user_fields(user: UserEntryView) -> Seq<(Seq<char>, FieldValueView)> {
    let always = seq![
        ("cn"@, user.cn),
        ("mail"@, user.mail),
        ("userPassword"@, user.user_password),
    ];
    let shell = match user.login_shell {
        Some(field) => always.push(("loginShell"@, field)),
        None => always,
    };
    let described = match user.description {
        Some(field) => shell.push(("description"@, field)),
        None => shell,
    };
    described + user.extra_fields
}

/// What the first `n` fields of an entry resolve to, or the error for the first of them that
/// does not.  Of several fields for one attribute the last holds.
pub open spec fn fields_resolved(
    entry: Seq<char>,
    fields: Seq<(Seq<char>, FieldValueView)>,
    sources: SourcesView,
    n: int,
) -> Result<Seq<(Seq<char>, ResolvedFieldValueView)>, ReconcileErrorView>
    decreases n,
{
    if n <= 0 {
        Ok(Seq::empty())
    } else {
        match fields_resolved(entry, fields, sources, n - 1) {
            Err(error) => Err(error),
            Ok(attrs) => match resolved(fields[n - 1].1, sources) {
                Ok(value) => Ok(put(attrs, fields[n - 1].0, value)),
                Err(source) => Err(
                    ReconcileErrorView::FieldResolution { entry, field: fields[n - 1].0, source },
                ),
            },
        }
    }
}

proof fn lemma_fields_stop(
    entry: Seq<char>,
    fields: Seq<(Seq<char>, FieldValueView)>,
    sources: SourcesView,
    n: int,
    m: int,
)
    requires
        0 <= n <= m,
        fields_resolved(entry, fields, sources, n) is Err,
    ensures
        fields_resolved(entry, fields, sources, m) == fields_resolved(entry, fields, sources, n),
    decreases m - n,
{
    if n < m {
        lemma_fields_stop(entry, fields, sources, n, m - 1);
    }
}

/// Resolves one more field of an entry.
fn resolve_field(
    entry: &str,
    attr: &str,
    field: &FieldValue,
    sources: &Sources,
    attrs: StrMap<ResolvedFieldValue>,
    Ghost(fields): Ghost<Seq<(Seq<char>, FieldValueView)>>,
    Ghost(n): Ghost<int>,
) -> (more: Result<StrMap<ResolvedFieldValue>, ReconcileError>)
    requires
        0 <= n < fields.len(),
        fields[n] == (attr@, field@),
        fields_resolved(entry@, fields, sources@, n) == Ok::<
            Seq<(Seq<char>, ResolvedFieldValueView)>,
            ReconcileErrorView,
        >(entry_views(attrs@)),
    ensures
        match more {
            Ok(attrs) => fields_resolved(entry@, fields, sources@, n + 1) == Ok::<
                Seq<(Seq<char>, ResolvedFieldValueView)>,
                ReconcileErrorView,
            >(entry_views(attrs@)),
            Err(error) => fields_resolved(entry@, fields, sources@, fields.len() as int) == Err::<
                Seq<(Seq<char>, ResolvedFieldValueView)>,
                ReconcileErrorView,
            >(error@),
        },
{
    match field.resolve(sources) {
        Ok(value) => {
            proof {
                lemma_views_put(attrs@, attr@, value);
            }
            Ok(attrs.put(attr.to_owned(), value))
        }
        Err(source) => {
            proof {
                assert(fields_resolved(entry@, fields, sources@, n + 1) is Err);
                lemma_fields_stop(entry@, fields, sources@, n + 1, fields.len() as int);
            }
            Err(
                ReconcileError::FieldResolution {
                    entry: entry.to_owned(),
                    field: attr.to_owned(),
                    source,
                },
            )
        }
    }
}

/// The view of what the fields of an entry resolve to.
pub open spec fn attrs_view(
    attrs: Result<StrMap<ResolvedFieldValue>, ReconcileError>,
) -> Result<Seq<(Seq<char>, ResolvedFieldValueView)>, ReconcileErrorView> {
    match attrs {
        Ok(attrs) => Ok(entry_views(attrs@)),
        Err(error) => Err(error@),
    }
}

/// Resolves the attributes of a user.
pub fn resolve_user(uid: &str, user: &UserEntry, sources: &Sources) -> (attrs: Result<
    StrMap<ResolvedFieldValue>,
    ReconcileError,
>)
    ensures
        attrs_view(attrs) == fields_resolved(
            uid@,
            user_fields(user@),
            sources@,
            user_fields(user@).len() as int,
        ),
{
    let ghost fields = user_fields(user@);
    let ghost mut n: int = 0;
    let attrs: StrMap<ResolvedFieldValue> = StrMap::new();
    assert(entry_views(attrs@) =~= Seq::empty());
    let attrs = match resolve_field(uid, "cn", &user.cn, sources, attrs, Ghost(fields), Ghost(0)) {
        Ok(attrs) => attrs,
        Err(error) => {
            return Err(error);
        }
    };
    let attrs = match resolve_field(
        uid,
        "mail",
        &user.mail,
        sources,
        attrs,
        Ghost(fields),
        Ghost(1),
    ) {
        Ok(attrs) => attrs,
        Err(error) => {
            return Err(error);
        }
    };
    let mut attrs = match resolve_field(
        uid,
        "userPassword",
        &user.user_password,
        sources,
        attrs,
        Ghost(fields),
        Ghost(2),
    ) {
        Ok(attrs) => attrs,
        Err(error) => {
            return Err(error);
        }
    };
    proof {
        n = 3;
    }
    if let Some(field) = &user.login_shell {
        attrs = match resolve_field(
            uid,
            "loginShell",
            field,
            sources,
            attrs,
            Ghost(fields),
            Ghost(n),
        ) {
            Ok(attrs) => attrs,
            Err(error) => {
                return Err(error);
            }
        };
        proof {
            n = n + 1;
        }
    }
    if let Some(field) = &user.description {
        attrs = match resolve_field(
            uid,
            "description",
            field,
            sources,
            attrs,
            Ghost(fields),
            Ghost(n),
        ) {
            Ok(attrs) => attrs,
            Err(error) => {
                return Err(error);
            }
        };
        proof {
            n = n + 1;
        }
    }
    let ghost first = n;
    let ghost extra = entry_views(user.extra_fields@);
    let mut i: usize = 0;
    while i < user.extra_fields.len()
        invariant
            i <= user.extra_fields@.len(),
            extra == entry_views(user.extra_fields@),
            fields == user_fields(user@),
            fields.len() == first + extra.len(),
            0 <= first,
            forall|k: int| 0 <= k < extra.len() ==> fields[first + k] == #[trigger] extra[k],
            fields_resolved(uid@, fields, sources@, first + i) == Ok::<
                Seq<(Seq<char>, ResolvedFieldValueView)>,
                ReconcileErrorView,
            >(entry_views(attrs@)),
        decreases user.extra_fields@.len() - i,
    {
        let attr = user.extra_fields.key_at(i);
        let field = user.extra_fields.value_at(i);
        assert(extra[i as int] == (attr@, field@));
        attrs = match resolve_field(
            uid,
            attr,
            field,
            sources,
            attrs,
            Ghost(fields),
            Ghost(first + i),
        ) {
            Ok(attrs) => attrs,
            Err(error) => {
                return Err(error);
            }
        };
        i = i + 1;
    }
    Ok(attrs)
}

/// What is to be done about one attribute, given its live values: nothing if it is not managed,
/// if it is initial and there, or if it is managed and holds the one value; otherwise that value
/// is added where there is none, and replaces what is there.
pub open spec fn attr_mod(
    attr: Seq<char>,
    value: ResolvedFieldValueView,
    live: Option<Seq<Seq<char>>>,
) -> Option<AttrModView> {
    match value {
        ResolvedFieldValueView::Unmanaged => None,
        ResolvedFieldValueView::Initial(text) => if live is Some {
            None
        } else {
            Some(AttrModView { attr, op: AttrModOp::Add, values: seq![text] })
        },
        ResolvedFieldValueView::Managed(text) => match live {
            None => Some(AttrModView { attr, op: AttrModOp::Add, values: seq![text] }),
            Some(values) => if holds_only(values, text) {
                None
            } else {
                Some(AttrModView { attr, op: AttrModOp::Replace, values: seq![text] })
            },
        },
    }
}

/// As sets, the values are the same.
pub open spec fn same_values(a: Seq<Seq<char>>, b: Seq<Seq<char>>) -> bool {
    (forall|i: int| 0 <= i < a.len() ==> b.contains(#[trigger] a[i])) && (forall|i: int|
        0 <= i < b.len() ==> a.contains(#[trigger] b[i]))
}

/// What is to be done about an attribute that is to hold the given values: nothing if it holds
/// them as a set; otherwise they are added where there is none, and replace what is there.
pub open spec fn values_mod(
    attr: Seq<char>,
    values: Seq<Seq<char>>,
    live: Option<Seq<Seq<char>>>,
) -> Option<AttrModView> {
    match live {
        None => Some(AttrModView { attr, op: AttrModOp::Add, values }),
        Some(there) => if same_values(there, values) {
            None
        } else {
            Some(AttrModView { attr, op: AttrModOp::Replace, values })
        },
    }
}

/// What is wanted of an attribute.
pub enum Wanted {
    /// To be treated as the field says.
    Field(ResolvedFieldValueView),
    /// To hold these values.
    Values(Seq<Seq<char>>),
}

/// What is to be done about one attribute of which something is wanted.
pub open spec fn wanted_mod(
    attr: Seq<char>,
    wanted: Wanted,
    live: Option<Seq<Seq<char>>>,
) -> Option<AttrModView> {
    match wanted {
        Wanted::Field(value) => attr_mod(attr, value, live),
        Wanted::Values(values) => values_mod(attr, values, live),
    }
}

/// What is wanted of the attributes of an entry that is made of fields.
pub open spec fn field_wants(attrs: Seq<(Seq<char>, ResolvedFieldValueView)>) -> Seq<
    (Seq<char>, Wanted),
> {
    attrs.map_values(|e: (Seq<char>, ResolvedFieldValueView)| (e.0, Wanted::Field(e.1)))
}

/// As a set, the values are the one text.
pub open spec fn holds_only(values: Seq<Seq<char>>, text: Seq<char>) -> bool {
    values.len() > 0 && forall|i: int| 0 <= i < values.len() ==> #[trigger] values[i] == text
}

/// The modifications for the first `n` attributes.
pub open spec fn mods_of(
    wanted: Seq<(Seq<char>, Wanted)>,
    live: Seq<(Seq<char>, Seq<Seq<char>>)>,
    n: int,
) -> Seq<AttrModView>
    decreases n,
{
    if n <= 0 {
        Seq::empty()
    } else {
        let before = mods_of(wanted, live, n - 1);
        match wanted_mod(wanted[n - 1].0, wanted[n - 1].1, lookup(live, wanted[n - 1].0)) {
            Some(modification) => before.push(modification),
            None => before,
        }
    }
}

/// Whether the values are, as a set, the one text.
fn only_holds(values: &Vec<String>, text: &str) -> (only: bool)
    ensures
        only == holds_only(views(values@), text@),
{
    let mut i: usize = 0;
    while i < values.len()
        invariant
            i <= values@.len(),
            forall|k: int| 0 <= k < i ==> #[trigger] views(values@)[k] == text@,
        decreases values.len() - i,
    {
        if !text_eq(values[i].as_str(), text) {
            assert(views(values@)[i as int] != text@);
            return false;
        }
        i = i + 1;
    }
    values.len() > 0
}

/// Whether every one of the texts is among the values.
fn all_among(texts: &Vec<String>, values: &Vec<String>) -> (all: bool)
    ensures
        all == forall|i: int|
            0 <= i < views(texts@).len() ==> views(values@).contains(#[trigger] views(texts@)[i]),
{
    let mut i: usize = 0;
    while i < texts.len()
        invariant
            i <= texts@.len(),
            forall|k: int|
                0 <= k < i ==> views(values@).contains(#[trigger] views(texts@)[k]),
        decreases texts.len() - i,
    {
        let mut found = false;
        let mut k: usize = 0;
        while k < values.len()
            invariant
                i < texts@.len(),
                k <= values@.len(),
                found ==> views(values@).contains(texts@[i as int]@),
                !found ==> forall|j: int| 0 <= j < k ==> #[trigger] views(values@)[j] != texts@[i as int]@,
            decreases values.len() - k,
        {
            if text_eq(values[k].as_str(), texts[i].as_str()) {
                assert(views(values@)[k as int] == texts@[i as int]@);
                found = true;
            }
            k = k + 1;
        }
        if !found {
            assert(views(texts@)[i as int] == texts@[i as int]@);
            return false;
        }
        i = i + 1;
    }
    true
}

/// What is to be done about an attribute that is to hold the given values.
fn modify_values(attr: &str, values: &Vec<String>, live: Option<&Vec<String>>) -> (modification:
    Option<AttrMod>)
    ensures
        option_view(modification) == values_mod(
            attr@,
            views(values@),
            match live {
                Some(there) => Some(views(there@)),
                None => None,
            },
        ),
{
    match live {
        None => Some(
            AttrMod { attr: attr.to_owned(), op: AttrModOp::Add, values: copy_texts(values) },
        ),
        Some(there) => if all_among(there, values) && all_among(values, there) {
            None
        } else {
            Some(
                AttrMod {
                    attr: attr.to_owned(),
                    op: AttrModOp::Replace,
                    values: copy_texts(values),
                },
            )
        },
    }
}

/// What is to be done about an attribute that is to be treated as the field says.
fn modify_field(attr: &str, value: &ResolvedFieldValue, live: Option<&Vec<String>>) -> (
    modification: Option<AttrMod>)
    ensures
        option_view(modification) == attr_mod(
            attr@,
            value@,
            match live {
                Some(there) => Some(views(there@)),
                None => None,
            },
        ),
{
    match value {
        ResolvedFieldValue::Unmanaged => None,
        ResolvedFieldValue::Initial(text) => match live {
            Some(_) => None,
            None => Some(
                AttrMod { attr: attr.to_owned(), op: AttrModOp::Add, values: one_text(text) },
            ),
        },
        ResolvedFieldValue::Managed(text) => match live {
            None => Some(
                AttrMod { attr: attr.to_owned(), op: AttrModOp::Add, values: one_text(text) },
            ),
            Some(values) => if only_holds(values, text.as_str()) {
                None
            } else {
                Some(
                    AttrMod {
                        attr: attr.to_owned(),
                        op: AttrModOp::Replace,
                        values: one_text(text),
                    },
                )
            },
        },
    }
}

fn one_text(text: &String) -> (list: Vec<String>)
    ensures
        views(list@) == seq![text@],
{
    let mut list: Vec<String> = Vec::new();
    list.push(text.clone());
    assert(views(list@) =~= seq![text@]);
    list
}

/// Computes the attribute modifications needed to bring a live entry in line, in the order of
/// the attributes' names.
pub fn diff_attrs(attrs: &StrMap<ResolvedFieldValue>, live: &StrMap<Vec<String>>) -> (mods: Vec<
    AttrMod,
>)
    ensures
        views(mods@) == mods_of(
            field_wants(entry_views(attrs@)),
            list_views(live@),
            attrs@.len() as int,
        ),
{
    let ghost wanted = field_wants(entry_views(attrs@));
    let ghost there = list_views(live@);
    let mut mods: Vec<AttrMod> = Vec::new();
    assert(views(mods@) =~= Seq::empty());
    let mut i: usize = 0;
    while i < attrs.len()
        invariant
            i <= attrs@.len(),
            wanted == field_wants(entry_views(attrs@)),
            there == list_views(live@),
            views(mods@) == mods_of(wanted, there, i as int),
        decreases attrs@.len() - i,
    {
        let attr = attrs.key_at(i);
        assert(wanted[i as int] == (attr@, Wanted::Field(attrs@[i as int].1@)));
        proof {
            lemma_lists_lookup(live@, attr@);
        }
        let modification = modify_field(attr, attrs.value_at(i), live.get(attr));
        match modification {
            Some(modification) => {
                proof {
                    lemma_views_push(mods@, modification);
                }
                mods.push(modification);
            }
            None => {}
        }
        i = i + 1;
    }
    mods
}

/// The attributes that have a value, each with its one value.
pub open spec fn attr_values(
    attrs: Seq<(Seq<char>, ResolvedFieldValueView)>,
    n: int,
) -> Seq<(Seq<char>, Seq<Seq<char>>)>
    decreases n,
{
    if n <= 0 {
        Seq::empty()
    } else {
        let before = attr_values(attrs, n - 1);
        match value_text(attrs[n - 1].1) {
            Some(text) => put(before, attrs[n - 1].0, seq![text]),
            None => before,
        }
    }
}

/// The entries with the given list for `key`, unless there is one.
pub open spec fn put_if_absent(
    entries: Seq<(Seq<char>, Seq<Seq<char>>)>,
    key: Seq<char>,
    list: Seq<Seq<char>>,
) -> Seq<(Seq<char>, Seq<Seq<char>>)> {
    if lookup(entries, key) is Some {
        entries
    } else {
        put(entries, key, list)
    }
}

/// The attributes that a new user gets: those with a value, and unless they are among them, the
/// object classes and the identifier.
pub open spec fn new_user_attrs(
    attrs: Seq<(Seq<char>, ResolvedFieldValueView)>,
    uid: Seq<char>,
) -> Seq<(Seq<char>, Seq<Seq<char>>)> {
    put_if_absent(
        put_if_absent(
            attr_values(attrs, attrs.len() as int),
            "objectClass"@,
            seq!["inetOrgPerson"@, "organizationalPerson"@, "person"@],
        ),
        "uid"@,
        seq![uid],
    )
}

fn resolved_to_attr_map(attrs: &StrMap<ResolvedFieldValue>) -> (map: StrMap<Vec<String>>)
    ensures
        list_views(map@) == attr_values(entry_views(attrs@), attrs@.len() as int),
{
    let ghost wanted = entry_views(attrs@);
    let mut map: StrMap<Vec<String>> = StrMap::new();
    assert(list_views(map@) =~= Seq::empty());
    let mut i: usize = 0;
    while i < attrs.len()
        invariant
            i <= attrs@.len(),
            wanted == entry_views(attrs@),
            list_views(map@) == attr_values(wanted, i as int),
        decreases attrs@.len() - i,
    {
        let attr = attrs.key_at(i);
        assert(wanted[i as int] == (attr@, attrs@[i as int].1@));
        if let Some(text) = attrs.value_at(i).value() {
            let list = one_text(&text.to_owned());
            proof {
                lemma_lists_put(map@, attr@, list);
            }
            map = map.put(attr.to_owned(), list);
        }
        i = i + 1;
    }
    map
}

fn with_user_object_classes(attrs: StrMap<Vec<String>>, uid: &str) -> (map: StrMap<Vec<String>>)
    ensures
        list_views(map@) == put_if_absent(
            put_if_absent(
                list_views(attrs@),
                "objectClass"@,
                seq!["inetOrgPerson"@, "organizationalPerson"@, "person"@],
            ),
            "uid"@,
            seq![uid@],
        ),
{
    let mut map = attrs;
    proof {
        lemma_lists_lookup(map@, "objectClass"@);
    }
    if map.get("objectClass").is_none() {
        let mut classes: Vec<String> = Vec::new();
        classes.push("inetOrgPerson".to_owned());
        classes.push("organizationalPerson".to_owned());
        classes.push("person".to_owned());
        proof {
            assert(views(classes@) =~= seq!["inetOrgPerson"@, "organizationalPerson"@, "person"@]);
            lemma_lists_put(map@, "objectClass"@, classes);
        }
        map = map.put("objectClass".to_owned(), classes);
    }
    proof {
        lemma_lists_lookup(map@, "uid"@);
    }
    if map.get("uid").is_none() {
        let list = one_text(&uid.to_owned());
        proof {
            lemma_lists_put(map@, "uid"@, list);
        }
        map = map.put("uid".to_owned(), list);
    }
    map
}

/// The names of a group's members; a placeholder where there is none, since a group needs one.
pub open spec fn member_names(members: Seq<Seq<char>>, base_dn: Seq<char>) -> Seq<Seq<char>> {
    if members.len() == 0 {
        seq!["uid=placeholder,ou=users,"@ + base_dn]
    } else {
        members.map_values(|uid: Seq<char>| user_name(uid, base_dn))
    }
}

/// The attributes of a group.
pub open spec fn group_attrs(
    description: ResolvedFieldValueView,
    members: Seq<Seq<char>>,
    cn: Seq<char>,
    base_dn: Seq<char>,
) -> Seq<(Seq<char>, Seq<Seq<char>>)> {
    let named = put(
        put(Seq::empty(), "objectClass"@, seq!["groupOfNames"@]),
        "cn"@,
        seq![cn],
    );
    let described = match value_text(description) {
        Some(text) => put(named, "description"@, seq![text]),
        None => named,
    };
    put(described, "member"@, member_names(members, base_dn))
}

fn group_to_attr_map(
    description: &ResolvedFieldValue,
    members: &Vec<String>,
    cn: &str,
    base_dn: &str,
) -> (map: StrMap<Vec<String>>)
    ensures
        list_views(map@) == group_attrs(description@, views(members@), cn@, base_dn@),
{
    let map: StrMap<Vec<String>> = StrMap::new();
    assert(list_views(map@) =~= Seq::empty());
    let class = one_text(&"groupOfNames".to_owned());
    let name = one_text(&cn.to_owned());
    proof {
        lemma_lists_put(map@, "objectClass"@, class);
    }
    let map = map.put("objectClass".to_owned(), class);
    proof {
        lemma_lists_put(map@, "cn"@, name);
    }
    let mut map = map.put("cn".to_owned(), name);
    if let Some(text) = description.value() {
        let list = one_text(&text.to_owned());
        proof {
            lemma_lists_put(map@, "description"@, list);
        }
        map = map.put("description".to_owned(), list);
    }
    let mut names: Vec<String> = Vec::new();
    if members.len() == 0 {
        names.push("uid=placeholder,ou=users,".to_owned().concat(base_dn));
        assert(views(names@) =~= member_names(views(members@), base_dn@));
    } else {
        let mut i: usize = 0;
        while i < members.len()
            invariant
                i <= members@.len(),
                names@.len() == i,
                forall|k: int|
                    0 <= k < i ==> (#[trigger] names@[k])@ == user_name(members@[k]@, base_dn@),
            decreases members.len() - i,
        {
            names.push(user_dn(members[i].as_str(), base_dn));
            i = i + 1;
        }
        assert(views(names@) =~= member_names(views(members@), base_dn@));
    }
    proof {
        lemma_lists_put(map@, "member"@, names);
    }
    map.put("member".to_owned(), names)
}

/// What adding an entry shows: each attribute with all its values.
pub open spec fn added_fields(attrs: Seq<(Seq<char>, Seq<Seq<char>>)>) -> Seq<FieldDiffView> {
    attrs.map_values(
        |e: (Seq<char>, Seq<Seq<char>>)|
            FieldDiffView { field: e.0, from: None, to: Some(joined(e.1, "; "@)) },
    )
}

fn show_added(attrs: &StrMap<Vec<String>>) -> (fields: Vec<FieldDiff>)
    ensures
        views(fields@) == added_fields(list_views(attrs@)),
{
    let ghost lists = list_views(attrs@);
    let mut fields: Vec<FieldDiff> = Vec::new();
    let mut i: usize = 0;
    while i < attrs.len()
        invariant
            i <= attrs@.len(),
            lists == list_views(attrs@),
            fields@.len() == i,
            forall|k: int| 0 <= k < i ==> (#[trigger] fields@[k])@ == added_fields(lists)[k],
        decreases attrs@.len() - i,
    {
        let ghost before = fields@;
        let field = FieldDiff {
            field: attrs.key_at(i).to_owned(),
            from: None,
            to: Some(join(attrs.value_at(i), "; ")),
        };
        assert(lists[i as int] == (attrs@[i as int].0, views(attrs@[i as int].1@)));
        assert(field@ == added_fields(lists)[i as int]);
        fields.push(field);
        i = i + 1;
    }
    assert(views(fields@) =~= added_fields(lists));
    fields
}

/// What one modification shows: the values before and after.
pub open spec fn modified_field(
    modification: AttrModView,
    live: Seq<(Seq<char>, Seq<Seq<char>>)>,
) -> FieldDiffView {
    FieldDiffView {
        field: modification.attr,
        from: match lookup(live, modification.attr) {
            Some(values) => Some(joined(values, "; "@)),
            None => None,
        },
        to: Some(joined(modification.values, "; "@)),
    }
}

/// What modifications show.
pub open spec fn modified_fields(
    mods: Seq<AttrModView>,
    live: Seq<(Seq<char>, Seq<Seq<char>>)>,
) -> Seq<FieldDiffView> {
    mods.map_values(|modification: AttrModView| modified_field(modification, live))
}

fn show_modified(mods: &Vec<AttrMod>, live: &StrMap<Vec<String>>) -> (fields: Vec<FieldDiff>)
    ensures
        views(fields@) == modified_fields(views(mods@), list_views(live@)),
{
    let ghost there = list_views(live@);
    let mut fields: Vec<FieldDiff> = Vec::new();
    let mut i: usize = 0;
    while i < mods.len()
        invariant
            i <= mods@.len(),
            there == list_views(live@),
            fields@.len() == i,
            forall|k: int|
                0 <= k < i ==> (#[trigger] fields@[k])@ == modified_field(mods@[k]@, there),
        decreases mods.len() - i,
    {
        let modification = &mods[i];
        proof {
            lemma_lists_lookup(live@, modification.attr@);
        }
        let from = match live.get(modification.attr.as_str()) {
            Some(values) => Some(join(values, "; ")),
            None => None,
        };
        let field = FieldDiff {
            field: modification.attr.clone(),
            from,
            to: Some(join(&modification.values, "; ")),
        };
        assert(field@ == modified_field(modification@, there));
        fields.push(field);
        i = i + 1;
    }
    assert(views(fields@) =~= modified_fields(views(mods@), there));
    fields
}

/// What was found so far: the changes, the entries to add and the entries to modify.
#[derive(Debug, PartialEq)]
pub struct Found {
    pub changes: Vec<ResourceChange>,
    pub to_add: Vec<(String, StrMap<Vec<String>>)>,
    pub to_modify: Vec<(String, Vec<AttrMod>)>,
}

/// What a [`Found`] stands for.
pub struct FoundView {
    pub changes: Seq<ResourceChangeView>,
    pub to_add: Seq<(Seq<char>, Seq<(Seq<char>, Seq<Seq<char>>)>)>,
    pub to_modify: Seq<(Seq<char>, Seq<AttrModView>)>,
}

/// What entries to add stand for.
pub open spec fn add_views(entries: Seq<(String, StrMap<Vec<String>>)>) -> Seq<
    (Seq<char>, Seq<(Seq<char>, Seq<Seq<char>>)>),
> {
    entries.map_values(|e: (String, StrMap<Vec<String>>)| (e.0@, list_views(e.1@)))
}

/// What entries to modify stand for.
pub open spec fn modify_views(entries: Seq<(String, Vec<AttrMod>)>) -> Seq<
    (Seq<char>, Seq<AttrModView>),
> {
    entries.map_values(|e: (String, Vec<AttrMod>)| (e.0@, views(e.1@)))
}

impl View for Found {
    type V = FoundView;

    open spec fn view(&self) -> FoundView {
        FoundView {
            changes: views(self.changes@),
            to_add: add_views(self.to_add@),
            to_modify: modify_views(self.to_modify@),
        }
    }
}

/// What is found with one more entry: it is added where it is not there, and modified where
/// anything is to be modified.
pub open spec fn found_with(
    found: FoundView,
    dn: Seq<char>,
    new_attrs: Seq<(Seq<char>, Seq<Seq<char>>)>,
    wanted: Seq<(Seq<char>, Wanted)>,
    live: Option<Seq<(Seq<char>, Seq<Seq<char>>)>>,
) -> FoundView {
    match live {
        None => FoundView {
            changes: found.changes.push(
                ResourceChangeView::Add { resource_id: dn, fields: added_fields(new_attrs) },
            ),
            to_add: found.to_add.push((dn, new_attrs)),
            to_modify: found.to_modify,
        },
        Some(live) => {
            let mods = mods_of(wanted, live, wanted.len() as int);
            if mods.len() == 0 {
                found
            } else {
                FoundView {
                    changes: found.changes.push(
                        ResourceChangeView::Modify {
                            resource_id: dn,
                            field_changes: modified_fields(mods, live),
                        },
                    ),
                    to_add: found.to_add,
                    to_modify: found.to_modify.push((dn, mods)),
                }
            }
        },
    }
}

/// Adds an entry to what is found, given the modifications where it is there.
fn find_entry(
    found: Found,
    dn: String,
    new_attrs: StrMap<Vec<String>>,
    live: Option<&LiveEntry>,
    mods: Vec<AttrMod>,
    Ghost(wanted): Ghost<Seq<(Seq<char>, Wanted)>>,
) -> (more: Found)
    requires
        live matches Some(entry) ==> views(mods@) == mods_of(wanted, entry@, wanted.len() as int),
    ensures
        more@ == found_with(
            found@,
            dn@,
            list_views(new_attrs@),
            wanted,
            match live {
                Some(entry) => Some(entry@),
                None => None,
            },
        ),
{
    let ghost before = found@;
    let mut changes = found.changes;
    let mut to_add = found.to_add;
    let mut to_modify = found.to_modify;
    match live {
        None => {
            let change = ResourceChange::Add {
                resource_id: dn.clone(),
                fields: show_added(&new_attrs),
            };
            proof {
                lemma_views_push(changes@, change);
            }
            changes.push(change);
            let ghost added = (dn@, list_views(new_attrs@));
            to_add.push((dn, new_attrs));
            assert(add_views(to_add@) =~= before.to_add.push(added));
        }
        Some(entry) => {
            if mods.len() > 0 {
                let change = ResourceChange::Modify {
                    resource_id: dn.clone(),
                    field_changes: show_modified(&mods, &entry.attrs),
                };
                proof {
                    lemma_views_push(changes@, change);
                }
                changes.push(change);
                let ghost added = (dn@, views(mods@));
                to_modify.push((dn, mods));
                assert(modify_views(to_modify@) =~= before.to_modify.push(added));
            }
        }
    }
    Found { changes, to_add, to_modify }
}

/// What is found among the first `n` users.
pub open spec fn users_found(
    users: Seq<(Seq<char>, UserEntryView)>,
    live: Seq<(Seq<char>, Seq<(Seq<char>, Seq<Seq<char>>)>)>,
    base_dn: Seq<char>,
    sources: SourcesView,
    n: int,
) -> Result<FoundView, ReconcileErrorView>
    decreases n,
{
    if n <= 0 {
        Ok(FoundView { changes: Seq::empty(), to_add: Seq::empty(), to_modify: Seq::empty() })
    } else {
        let (uid, user) = users[n - 1];
        let fields = user_fields(user);
        match users_found(users, live, base_dn, sources, n - 1) {
            Err(error) => Err(error),
            Ok(found) => match fields_resolved(uid, fields, sources, fields.len() as int) {
                Err(error) => Err(error),
                Ok(attrs) => Ok(
                    found_with(
                        found,
                        user_name(uid, base_dn),
                        new_user_attrs(attrs, uid),
                        field_wants(attrs),
                        lookup(live, uid),
                    ),
                ),
            },
        }
    }
}

/// What is wanted of the attributes of a group: the description is treated as its field says,
/// every other attribute is to hold its values.
pub open spec fn group_wants(
    attrs: Seq<(Seq<char>, Seq<Seq<char>>)>,
    description: ResolvedFieldValueView,
) -> Seq<(Seq<char>, Wanted)> {
    attrs.map_values(
        |e: (Seq<char>, Seq<Seq<char>>)|
            (
                e.0,
                if e.0 == "description"@ {
                    Wanted::Field(description)
                } else {
                    Wanted::Values(e.1)
                },
            ),
    )
}

/// What is found among the first `n` groups, after what was found among the users.
pub open spec fn groups_found(
    among_users: FoundView,
    groups: Seq<(Seq<char>, GroupEntryView)>,
    live: Seq<(Seq<char>, Seq<(Seq<char>, Seq<Seq<char>>)>)>,
    base_dn: Seq<char>,
    sources: SourcesView,
    n: int,
) -> Result<FoundView, ReconcileErrorView>
    decreases n,
{
    if n <= 0 {
        Ok(among_users)
    } else {
        let (cn, group) = groups[n - 1];
        match groups_found(among_users, groups, live, base_dn, sources, n - 1) {
            Err(error) => Err(error),
            Ok(found) => match resolved(group.description, sources) {
                Err(source) => Err(
                    ReconcileErrorView::FieldResolution {
                        entry: cn,
                        field: "description"@,
                        source,
                    },
                ),
                Ok(description) => {
                    let attrs = group_attrs(description, group.members, cn, base_dn);
                    Ok(
                        found_with(
                            found,
                            group_name(cn, base_dn),
                            attrs,
                            group_wants(attrs, description),
                            lookup(live, cn),
                        ),
                    )
                },
            },
        }
    }
}

/// What is found among all users and groups.
pub open spec fn entries_found(
    desired: LdapDesiredStateView,
    live: LdapLiveStateView,
    base_dn: Seq<char>,
    sources: SourcesView,
) -> Result<FoundView, ReconcileErrorView> {
    match users_found(desired.users, live.users, base_dn, sources, desired.users.len() as int) {
        Err(error) => Err(error),
        Ok(found) => groups_found(
            found,
            desired.groups,
            live.groups,
            base_dn,
            sources,
            desired.groups.len() as int,
        ),
    }
}

proof fn lemma_users_stop(
    users: Seq<(Seq<char>, UserEntryView)>,
    live: Seq<(Seq<char>, Seq<(Seq<char>, Seq<Seq<char>>)>)>,
    base_dn: Seq<char>,
    sources: SourcesView,
    n: int,
    m: int,
)
    requires
        0 <= n <= m,
        users_found(users, live, base_dn, sources, n) is Err,
    ensures
        users_found(users, live, base_dn, sources, m) == users_found(
            users,
            live,
            base_dn,
            sources,
            n,
        ),
    decreases m - n,
{
    if n < m {
        lemma_users_stop(users, live, base_dn, sources, n, m - 1);
    }
}

proof fn lemma_groups_stop(
    among_users: FoundView,
    groups: Seq<(Seq<char>, GroupEntryView)>,
    live: Seq<(Seq<char>, Seq<(Seq<char>, Seq<Seq<char>>)>)>,
    base_dn: Seq<char>,
    sources: SourcesView,
    n: int,
    m: int,
)
    requires
        0 <= n <= m,
        groups_found(among_users, groups, live, base_dn, sources, n) is Err,
    ensures
        groups_found(among_users, groups, live, base_dn, sources, m) == groups_found(
            among_users,
            groups,
            live,
            base_dn,
            sources,
            n,
        ),
    decreases m - n,
{
    if n < m {
        lemma_groups_stop(among_users, groups, live, base_dn, sources, n, m - 1);
    }
}

/// The view of what was found.
pub open spec fn found_view(found: Result<Found, ReconcileError>) -> Result<
    FoundView,
    ReconcileErrorView,
> {
    match found {
        Ok(found) => Ok(found@),
        Err(error) => Err(error@),
    }
}

fn find_users(
    users: &StrMap<UserEntry>,
    live: &StrMap<LiveEntry>,
    base_dn: &str,
    sources: &Sources,
) -> (found: Result<Found, ReconcileError>)
    ensures
        found_view(found) == users_found(
            entry_views(users@),
            entry_views(live@),
            base_dn@,
            sources@,
            users@.len() as int,
        ),
{
    let ghost wanted = entry_views(users@);
    let ghost there = entry_views(live@);
    let mut found = Found { changes: Vec::new(), to_add: Vec::new(), to_modify: Vec::new() };
    assert(found@.changes =~= Seq::empty());
    assert(found@.to_add =~= Seq::empty());
    assert(found@.to_modify =~= Seq::empty());
    let mut i: usize = 0;
    while i < users.len()
        invariant
            i <= users@.len(),
            wanted == entry_views(users@),
            there == entry_views(live@),
            users_found(wanted, there, base_dn@, sources@, i as int) == Ok::<
                FoundView,
                ReconcileErrorView,
            >(found@),
        decreases users@.len() - i,
    {
        let uid = users.key_at(i);
        assert(wanted[i as int] == (uid@, users@[i as int].1@));
        match resolve_user(uid, users.value_at(i), sources) {
            Err(error) => {
                proof {
                    lemma_users_stop(
                        wanted,
                        there,
                        base_dn@,
                        sources@,
                        i + 1,
                        wanted.len() as int,
                    );
                }
                return Err(error);
            }
            Ok(attrs) => {
                let new_attrs = with_user_object_classes(resolved_to_attr_map(&attrs), uid);
                proof {
                    lemma_views_lookup(live@, uid@);
                }
                let entry = live.get(uid);
                let mods = match entry {
                    Some(entry) => diff_attrs(&attrs, &entry.attrs),
                    None => Vec::new(),
                };
                found = find_entry(
                    found,
                    user_dn(uid, base_dn),
                    new_attrs,
                    entry,
                    mods,
                    Ghost(field_wants(entry_views(attrs@))),
                );
            }
        }
        i = i + 1;
    }
    Ok(found)
}

/// Computes the attribute modifications needed to bring a live group in line, in the order of
/// the attributes' names.
fn diff_group(
    attrs: &StrMap<Vec<String>>,
    description: &ResolvedFieldValue,
    live: &StrMap<Vec<String>>,
) -> (mods: Vec<AttrMod>)
    ensures
        views(mods@) == mods_of(
            group_wants(list_views(attrs@), description@),
            list_views(live@),
            attrs@.len() as int,
        ),
{
    let ghost wanted = group_wants(list_views(attrs@), description@);
    let ghost there = list_views(live@);
    let mut mods: Vec<AttrMod> = Vec::new();
    assert(views(mods@) =~= Seq::empty());
    let mut i: usize = 0;
    while i < attrs.len()
        invariant
            i <= attrs@.len(),
            wanted == group_wants(list_views(attrs@), description@),
            there == list_views(live@),
            views(mods@) == mods_of(wanted, there, i as int),
        decreases attrs@.len() - i,
    {
        let attr = attrs.key_at(i);
        assert(list_views(attrs@)[i as int] == (attr@, views(attrs@[i as int].1@)));
        proof {
            lemma_lists_lookup(live@, attr@);
        }
        let modification = if text_eq(attr, "description") {
            modify_field(attr, description, live.get(attr))
        } else {
            modify_values(attr, attrs.value_at(i), live.get(attr))
        };
        match modification {
            Some(modification) => {
                proof {
                    lemma_views_push(mods@, modification);
                }
                mods.push(modification);
            }
            None => {}
        }
        i = i + 1;
    }
    mods
}

fn find_groups(
    among_users: Found,
    groups: &StrMap<GroupEntry>,
    live: &StrMap<LiveEntry>,
    base_dn: &str,
    sources: &Sources,
) -> (found: Result<Found, ReconcileError>)
    ensures
        found_view(found) == groups_found(
            among_users@,
            entry_views(groups@),
            entry_views(live@),
            base_dn@,
            sources@,
            groups@.len() as int,
        ),
{
    let ghost start = among_users@;
    let ghost wanted = entry_views(groups@);
    let ghost there = entry_views(live@);
    let mut found = among_users;
    let mut i: usize = 0;
    while i < groups.len()
        invariant
            i <= groups@.len(),
            start == among_users@,
            wanted == entry_views(groups@),
            there == entry_views(live@),
            groups_found(start, wanted, there, base_dn@, sources@, i as int) == Ok::<
                FoundView,
                ReconcileErrorView,
            >(found@),
        decreases groups@.len() - i,
    {
        let cn = groups.key_at(i);
        let group = groups.value_at(i);
        assert(wanted[i as int] == (cn@, group@));
        match group.description.resolve(sources) {
            Err(source) => {
                proof {
                    assert(groups_found(
                        start,
                        wanted,
                        there,
                        base_dn@,
                        sources@,
                        i + 1,
                    ) is Err);
                    lemma_groups_stop(
                        start,
                        wanted,
                        there,
                        base_dn@,
                        sources@,
                        i + 1,
                        wanted.len() as int,
                    );
                }
                return Err(
                    ReconcileError::FieldResolution {
                        entry: cn.to_owned(),
                        field: "description".to_owned(),
                        source,
                    },
                );
            }
            Ok(description) => {
                let attrs = group_to_attr_map(&description, &group.members, cn, base_dn);
                proof {
                    lemma_views_lookup(live@, cn@);
                }
                let entry = live.get(cn);
                let mods = match entry {
                    Some(entry) => diff_group(&attrs, &description, &entry.attrs),
                    None => Vec::new(),
                };
                let ghost wanted = group_wants(list_views(attrs@), description@);
                found = find_entry(
                    found,
                    group_dn(cn, base_dn),
                    attrs,
                    entry,
                    mods,
                    Ghost(wanted),
                );
            }
        }
        i = i + 1;
    }
    Ok(found)
}

/// The keys among the first `n` live entries for which nothing is wanted.
pub open spec fn absent<V, W>(
    live: Seq<(Seq<char>, V)>,
    wanted: Seq<(Seq<char>, W)>,
    n: int,
) -> Seq<Seq<char>>
    decreases n,
{
    if n <= 0 {
        Seq::empty()
    } else {
        let before = absent(live, wanted, n - 1);
        if lookup(wanted, live[n - 1].0) is Some {
            before
        } else {
            before.push(live[n - 1].0)
        }
    }
}

/// The names of the live entries that are not desired, users before groups.
pub open spec fn undesired(
    desired: LdapDesiredStateView,
    live: LdapLiveStateView,
    base_dn: Seq<char>,
) -> Seq<Seq<char>> {
    absent(live.users, desired.users, live.users.len() as int).map_values(
        |uid: Seq<char>| user_name(uid, base_dn),
    ) + absent(live.groups, desired.groups, live.groups.len() as int).map_values(
        |cn: Seq<char>| group_name(cn, base_dn),
    )
}

/// The names among the first `n` that no pattern matches.
pub open spec fn not_ignored(
    names: Seq<Seq<char>>,
    patterns: Seq<IgnorePattern>,
    n: int,
) -> Seq<Seq<char>>
    decreases n,
{
    if n <= 0 {
        Seq::empty()
    } else {
        let before = not_ignored(names, patterns, n - 1);
        if any_matches(patterns, names[n - 1]) {
            before
        } else {
            before.push(names[n - 1])
        }
    }
}

/// The names of the entries to delete, in no particular order: those that are there, not desired
/// and not ignored.
pub open spec fn doomed(
    desired: LdapDesiredStateView,
    live: LdapLiveStateView,
    base_dn: Seq<char>,
    patterns: Seq<IgnorePattern>,
) -> Seq<Seq<char>> {
    let names = undesired(desired, live, base_dn);
    not_ignored(names, patterns, names.len() as int)
}

/// How deep each entry stands.
pub open spec fn depths(names: Seq<Seq<char>>) -> Seq<usize> {
    names.map_values(|dn: Seq<char>| commas(dn) as usize)
}

/// How deep each entry to add stands.
pub open spec fn add_depths(
    entries: Seq<(Seq<char>, Seq<(Seq<char>, Seq<Seq<char>>)>)>,
) -> Seq<usize> {
    entries.map_values(
        |e: (Seq<char>, Seq<(Seq<char>, Seq<Seq<char>>)>)| commas(e.0) as usize,
    )
}

/// The changes that delete entries.
pub open spec fn deletions(names: Seq<Seq<char>>) -> Seq<ResourceChangeView> {
    names.map_values(|dn: Seq<char>| ResourceChangeView::Delete { resource_id: dn })
}

/// The names of the users that are there and not desired.
fn doom_users(
    live: &StrMap<LiveEntry>,
    wanted: &StrMap<UserEntry>,
    base_dn: &str,
) -> (names: Vec<String>)
    ensures
        views(names@) == absent(
            entry_views(live@),
            entry_views(wanted@),
            live@.len() as int,
        ).map_values(|uid: Seq<char>| user_name(uid, base_dn@)),
{
    let ghost there = entry_views(live@);
    let ghost kept = entry_views(wanted@);
    let mut names: Vec<String> = Vec::new();
    let mut i: usize = 0;
    assert(views(names@) =~= absent(there, kept, 0).map_values(
        |uid: Seq<char>| user_name(uid, base_dn@),
    ));
    while i < live.len()
        invariant
            i <= live@.len(),
            there == entry_views(live@),
            kept == entry_views(wanted@),
            views(names@) == absent(there, kept, i as int).map_values(
                |uid: Seq<char>| user_name(uid, base_dn@),
            ),
        decreases live@.len() - i,
    {
        let uid = live.key_at(i);
        assert(there[i as int].0 == uid@);
        proof {
            lemma_views_lookup(wanted@, uid@);
        }
        if wanted.get(uid).is_none() {
            let dn = user_dn(uid, base_dn);
            let ghost before = absent(there, kept, i as int);
            proof {
                lemma_views_push(names@, dn);
            }
            names.push(dn);
            assert(views(names@) =~= before.push(uid@).map_values(
                |uid: Seq<char>| user_name(uid, base_dn@),
            ));
        }
        i = i + 1;
    }
    names
}

/// The names of the groups that are there and not desired.
fn doom_groups(
    live: &StrMap<LiveEntry>,
    wanted: &StrMap<GroupEntry>,
    base_dn: &str,
) -> (names: Vec<String>)
    ensures
        views(names@) == absent(
            entry_views(live@),
            entry_views(wanted@),
            live@.len() as int,
        ).map_values(|cn: Seq<char>| group_name(cn, base_dn@)),
{
    let ghost there = entry_views(live@);
    let ghost kept = entry_views(wanted@);
    let mut names: Vec<String> = Vec::new();
    let mut i: usize = 0;
    assert(views(names@) =~= absent(there, kept, 0).map_values(
        |cn: Seq<char>| group_name(cn, base_dn@),
    ));
    while i < live.len()
        invariant
            i <= live@.len(),
            there == entry_views(live@),
            kept == entry_views(wanted@),
            views(names@) == absent(there, kept, i as int).map_values(
                |cn: Seq<char>| group_name(cn, base_dn@),
            ),
        decreases live@.len() - i,
    {
        let cn = live.key_at(i);
        assert(there[i as int].0 == cn@);
        proof {
            lemma_views_lookup(wanted@, cn@);
        }
        if wanted.get(cn).is_none() {
            let dn = group_dn(cn, base_dn);
            let ghost before = absent(there, kept, i as int);
            proof {
                lemma_views_push(names@, dn);
            }
            names.push(dn);
            assert(views(names@) =~= before.push(cn@).map_values(
                |cn: Seq<char>| group_name(cn, base_dn@),
            ));
        }
        i = i + 1;
    }
    names
}

/// The names of the entries to delete, deepest first.
fn find_doomed(
    desired: &LdapDesiredState,
    live: &LdapLiveState,
    base_dn: &str,
    ignore_patterns: &Vec<IgnorePattern>,
) -> (sorted: Vec<String>)
    ensures
        stably_sorted(
            doomed(desired@, live@, base_dn@, ignore_patterns@),
            depths(doomed(desired@, live@, base_dn@, ignore_patterns@)),
            true,
            views(sorted@),
        ),
{
    let mut candidates = doom_users(&live.users, &desired.users, base_dn);
    let mut groups = doom_groups(&live.groups, &desired.groups, base_dn);
    proof {
        lemma_views_add(candidates@, groups@);
    }
    candidates.append(&mut groups);
    let ghost all = views(candidates@);
    assert(all == undesired(desired@, live@, base_dn@));
    let mut names: Vec<String> = Vec::new();
    let mut keys: Vec<usize> = Vec::new();
    let mut i: usize = 0;
    assert(views(names@) =~= Seq::empty());
    assert(keys@ =~= depths(views(names@)));
    while i < candidates.len()
        invariant
            i <= candidates@.len(),
            all == views(candidates@),
            views(names@) == not_ignored(all, ignore_patterns@, i as int),
            keys@ == depths(views(names@)),
        decreases candidates.len() - i,
    {
        let name = candidates[i].as_str();
        assert(all[i as int] == name@);
        if !is_ignored(name, ignore_patterns) {
            let ghost before = views(names@);
            let kept = name.to_owned();
            proof {
                lemma_views_push(names@, kept);
            }
            keys.push(dn_depth(name));
            names.push(kept);
            assert(keys@ =~= depths(views(names@)));
        }
        i = i + 1;
    }
    let ghost listed = names@;
    let sorted = stable_sort(names, &keys, true);
    proof {
        let perm = choose|perm: Seq<int>| #[trigger]
            is_stable_order(keys@, true, perm) && sorted@ == reordered(listed, perm);
        assert(views(sorted@) =~= reordered(views(listed), perm));
    }
    sorted
}

/// The entries to add, parents before children.
fn sort_added(to_add: Vec<(String, StrMap<Vec<String>>)>) -> (sorted: Vec<
    (String, StrMap<Vec<String>>),
>)
    ensures
        stably_sorted(
            add_views(to_add@),
            add_depths(add_views(to_add@)),
            false,
            add_views(sorted@),
        ),
{
    let ghost listed = to_add@;
    let mut keys: Vec<usize> = Vec::new();
    let mut i: usize = 0;
    while i < to_add.len()
        invariant
            i <= to_add@.len(),
            keys@.len() == i,
            forall|k: int| 0 <= k < i ==> #[trigger] keys@[k] == commas(to_add@[k].0@),
        decreases to_add.len() - i,
    {
        keys.push(dn_depth(to_add[i].0.as_str()));
        i = i + 1;
    }
    assert(keys@ =~= add_depths(add_views(to_add@)));
    let sorted = stable_sort(to_add, &keys, false);
    proof {
        let perm = choose|perm: Seq<int>| #[trigger]
            is_stable_order(keys@, false, perm) && sorted@ == reordered(listed, perm);
        assert(add_views(sorted@) =~= reordered(add_views(listed), perm));
    }
    sorted
}

/// What comes of a comparison: the first field that does not resolve; or the changes that were
/// found, with the entries to add in the order of their depth, and the names of the entries to
/// delete, deepest first.
pub open spec fn is_diff(
    desired: LdapDesiredStateView,
    live: LdapLiveStateView,
    base_dn: Seq<char>,
    patterns: Seq<IgnorePattern>,
    sources: SourcesView,
    outcome: Result<LdapDiffView, ReconcileErrorView>,
) -> bool {
    match outcome {
        Err(error) => entries_found(desired, live, base_dn, sources) == Err::<
            FoundView,
            ReconcileErrorView,
        >(error),
        Ok(diff) => entries_found(desired, live, base_dn, sources) matches Ok(found) && {
            let names = doomed(desired, live, base_dn, patterns);
            &&& stably_sorted(names, depths(names), true, diff.to_delete)
            &&& stably_sorted(found.to_add, add_depths(found.to_add), false, diff.to_add)
            &&& diff.to_modify == found.to_modify
            &&& diff.resource_changes == found.changes + deletions(diff.to_delete)
        },
    }
}

/// Resolves and compares `desired` with `live`: users and groups that are not there are added,
/// those that differ are modified, and those that are not desired are deleted unless a pattern
/// exempts them.
pub fn diff(
    desired: &LdapDesiredState,
    live: &LdapLiveState,
    base_dn: &str,
    ignore_patterns: &Vec<IgnorePattern>,
    sources: &Sources,
) -> (diff: Result<LdapDiff, ReconcileError>)
    ensures
        is_diff(
            desired@,
            live@,
            base_dn@,
            ignore_patterns@,
            sources@,
            result_view(diff),
        ),
{
    let found = match find_users(&desired.users, &live.users, base_dn, sources) {
        Ok(found) => found,
        Err(error) => {
            return Err(error);
        }
    };
    let found = match find_groups(found, &desired.groups, &live.groups, base_dn, sources) {
        Ok(found) => found,
        Err(error) => {
            return Err(error);
        }
    };
    let ghost seen = found@;
    let to_delete = find_doomed(desired, live, base_dn, ignore_patterns);
    let ghost gone = deletions(views(to_delete@));
    let mut resource_changes = found.changes;
    let mut i: usize = 0;
    assert(seen.changes + gone.take(0) =~= seen.changes);
    while i < to_delete.len()
        invariant
            i <= to_delete@.len(),
            gone == deletions(views(to_delete@)),
            views(resource_changes@) == seen.changes + gone.take(i as int),
        decreases to_delete.len() - i,
    {
        let change = ResourceChange::Delete { resource_id: to_delete[i].clone() };
        proof {
            lemma_views_push(resource_changes@, change);
            assert(gone[i as int] == change@);
            assert((seen.changes + gone.take(i as int)).push(change@) =~= seen.changes
                + gone.take(i + 1));
        }
        resource_changes.push(change);
        i = i + 1;
    }
    assert(gone.take(i as int) =~= gone);
    let to_add = sort_added(found.to_add);
    Ok(LdapDiff { resource_changes, to_add, to_modify: found.to_modify, to_delete })
}

/// The attributes of an entry after the first `n` modifications: each leaves its values.
pub open spec fn modified(
    live: Seq<(Seq<char>, Seq<Seq<char>>)>,
    mods: Seq<AttrModView>,
    n: int,
) -> Seq<(Seq<char>, Seq<Seq<char>>)>
    decreases n,
{
    if n <= 0 {
        live
    } else {
        put(modified(live, mods, n - 1), mods[n - 1].attr, mods[n - 1].values)
    }
}

/// What the modifications for the first `n` attributes leave of each attribute.
pub(crate) proof fn lemma_modified(
    wanted: Seq<(Seq<char>, Wanted)>,
    live: Seq<(Seq<char>, Seq<Seq<char>>)>,
    n: int,
    key: Seq<char>,
)
    requires
        ascending(wanted),
        0 <= n <= wanted.len(),
    ensures
        ({
            let mods = mods_of(wanted, live, n);
            lookup(modified(live, mods, mods.len() as int), key) == match lookup(
                wanted.take(n),
                key,
            ) {
                None => lookup(live, key),
                Some(value) => match wanted_mod(key, value, lookup(live, key)) {
                    Some(modification) => Some(modification.values),
                    None => lookup(live, key),
                },
            }
        }),
    decreases n,
{
    if n <= 0 {
        assert(wanted.take(0) =~= Seq::empty());
    } else {
        lemma_modified(wanted, live, n - 1, key);
        let (attr, value) = wanted[n - 1];
        let before = mods_of(wanted, live, n - 1);
        let mods = mods_of(wanted, live, n);
        assert(wanted.take(n) =~= wanted.take(n - 1).push((attr, value)));
        lemma_lookup_push(wanted.take(n - 1), (attr, value), key);
        lemma_not_before(wanted, n - 1);
        if let Some(modification) = wanted_mod(attr, value, lookup(live, attr)) {
            assert(mods == before.push(modification));
            lemma_modified_prefix(live, before, mods, before.len() as int);
            lemma_lookup_put(
                modified(live, before, before.len() as int),
                attr,
                modification.values,
                key,
            );
        }
    }
}

proof fn lemma_modified_prefix(
    live: Seq<(Seq<char>, Seq<Seq<char>>)>,
    a: Seq<AttrModView>,
    b: Seq<AttrModView>,
    n: int,
)
    requires
        0 <= n <= a.len(),
        n <= b.len(),
        forall|i: int| 0 <= i < n ==> #[trigger] a[i] == b[i],
    ensures
        modified(live, a, n) == modified(live, b, n),
    decreases n,
{
    if n > 0 {
        lemma_modified_prefix(live, a, b, n - 1);
        assert(a[n - 1] == b[n - 1]);
    }
}

/// The modifications bring an entry in line: once they are made, nothing is left to modify.
pub proof fn law_modifications_converge(
    wanted: Seq<(Seq<char>, Wanted)>,
    live: Seq<(Seq<char>, Seq<Seq<char>>)>,
)
    requires
        ascending(wanted),
    ensures
        ({
            let mods = mods_of(wanted, live, wanted.len() as int);
            let after = modified(live, mods, mods.len() as int);
            mods_of(wanted, after, wanted.len() as int).len() == 0
        }),
{
    let mods = mods_of(wanted, live, wanted.len() as int);
    let after = modified(live, mods, mods.len() as int);
    assert(wanted.take(wanted.len() as int) =~= wanted);
    assert forall|i: int| 0 <= i < wanted.len() implies wanted_mod(
        (#[trigger] wanted[i]).0,
        wanted[i].1,
        lookup(after, wanted[i].0),
    ) is None by {
        lemma_modified(wanted, live, wanted.len() as int, wanted[i].0);
        lemma_lookup_at(wanted, i);
    }
    lemma_no_mods(wanted, after, wanted.len() as int);
}

proof fn lemma_no_mods(
    wanted: Seq<(Seq<char>, Wanted)>,
    live: Seq<(Seq<char>, Seq<Seq<char>>)>,
    n: int,
)
    requires
        0 <= n <= wanted.len(),
        forall|i: int|
            0 <= i < wanted.len() ==> wanted_mod(
                (#[trigger] wanted[i]).0,
                wanted[i].1,
                lookup(live, wanted[i].0),
            ) is None,
    ensures
        mods_of(wanted, live, n).len() == 0,
    decreases n,
{
    if n > 0 {
        lemma_no_mods(wanted, live, n - 1);
        assert(wanted_mod(wanted[n - 1].0, wanted[n - 1].1, lookup(live, wanted[n - 1].0)) is None);
    }
}

/// The value of a field that has one stands in the attributes of a new entry.
proof fn lemma_attr_values(attrs: Seq<(Seq<char>, ResolvedFieldValueView)>, n: int, i: int)
    requires
        ascending(attrs),
        0 <= i < n <= attrs.len(),
    ensures
        value_text(attrs[i].1) matches Some(text) ==> lookup(attr_values(attrs, n), attrs[i].0)
            == Some(seq![text]),
    decreases n,
{
    let before = attr_values(attrs, n - 1);
    if value_text(attrs[n - 1].1) is Some {
        lemma_lookups_put(before, attrs[n - 1].0, seq![value_text(attrs[n - 1].1)->0]);
    }
    if i < n - 1 {
        lemma_attr_values(attrs, n - 1, i);
        text_lt_irreflexive(attrs[i].0);
        assert(text_lt(attrs[i].0, attrs[n - 1].0));
    }
}

/// A user's entry that was added is in line: there is nothing to modify.
pub proof fn law_added_user_is_in_line(
    attrs: Seq<(Seq<char>, ResolvedFieldValueView)>,
    uid: Seq<char>,
)
    requires
        ascending(attrs),
    ensures
        mods_of(field_wants(attrs), new_user_attrs(attrs, uid), attrs.len() as int).len() == 0,
{
    let values = attr_values(attrs, attrs.len() as int);
    let classes = seq!["inetOrgPerson"@, "organizationalPerson"@, "person"@];
    let added = new_user_attrs(attrs, uid);
    lemma_lookups_put(values, "objectClass"@, classes);
    lemma_lookups_put(put_if_absent(values, "objectClass"@, classes), "uid"@, seq![uid]);
    let wanted = field_wants(attrs);
    assert forall|i: int| 0 <= i < wanted.len() implies wanted_mod(
        (#[trigger] wanted[i]).0,
        wanted[i].1,
        lookup(added, wanted[i].0),
    ) is None by {
        lemma_attr_values(attrs, attrs.len() as int, i);
        if value_text(attrs[i].1) is Some {
            let text = value_text(attrs[i].1)->0;
            assert(lookup(added, attrs[i].0) == Some(seq![text]));
            assert(holds_only(seq![text], text));
        }
    }
    lemma_no_mods(wanted, added, attrs.len() as int);
}

pub(crate) proof fn lemma_group_ascending(
    description: ResolvedFieldValueView,
    members: Seq<Seq<char>>,
    cn: Seq<char>,
    base_dn: Seq<char>,
)
    ensures
        ascending(group_attrs(description, members, cn, base_dn)),
{
    let none = Seq::<(Seq<char>, Seq<Seq<char>>)>::empty();
    let classed = put(none, "objectClass"@, seq!["groupOfNames"@]);
    let named = put(classed, "cn"@, seq![cn]);
    let described = match value_text(description) {
        Some(text) => put(named, "description"@, seq![text]),
        None => named,
    };
    lemma_put_ascending(none, "objectClass"@, seq!["groupOfNames"@]);
    lemma_put_ascending(classed, "cn"@, seq![cn]);
    if let Some(text) = value_text(description) {
        lemma_put_ascending(named, "description"@, seq![text]);
    }
    lemma_put_ascending(described, "member"@, member_names(members, base_dn));
}

/// Where a group has a description, the attribute holds it alone.
proof fn lemma_group_description(
    description: ResolvedFieldValueView,
    members: Seq<Seq<char>>,
    cn: Seq<char>,
    base_dn: Seq<char>,
)
    ensures
        lookup(group_attrs(description, members, cn, base_dn), "description"@) == match value_text(
            description,
        ) {
            Some(text) => Some(seq![text]),
            None => None,
        },
{
    reveal_strlit("objectClass");
    reveal_strlit("cn");
    reveal_strlit("description");
    reveal_strlit("member");
    assert("objectClass"@.len() == 11 && "description"@.len() == 11 && "member"@.len() == 6);
    assert("objectClass"@[0] == 'o' && "description"@[0] == 'd' && "cn"@.len() == 2);
    let none = Seq::<(Seq<char>, Seq<Seq<char>>)>::empty();
    let classed = put(none, "objectClass"@, seq!["groupOfNames"@]);
    let named = put(classed, "cn"@, seq![cn]);
    let described = match value_text(description) {
        Some(text) => put(named, "description"@, seq![text]),
        None => named,
    };
    lemma_lookups_put(none, "objectClass"@, seq!["groupOfNames"@]);
    lemma_lookups_put(classed, "cn"@, seq![cn]);
    if let Some(text) = value_text(description) {
        lemma_lookups_put(named, "description"@, seq![text]);
    }
    lemma_lookups_put(described, "member"@, member_names(members, base_dn));
}

/// A group's entry that was added is in line: there is nothing to modify.
pub proof fn law_added_group_is_in_line(
    description: ResolvedFieldValueView,
    members: Seq<Seq<char>>,
    cn: Seq<char>,
    base_dn: Seq<char>,
)
    ensures
        ({
            let attrs = group_attrs(description, members, cn, base_dn);
            mods_of(group_wants(attrs, description), attrs, attrs.len() as int).len() == 0
        }),
{
    let attrs = group_attrs(description, members, cn, base_dn);
    let wanted = group_wants(attrs, description);
    lemma_group_ascending(description, members, cn, base_dn);
    lemma_group_description(description, members, cn, base_dn);
    assert forall|i: int| 0 <= i < wanted.len() implies wanted_mod(
        (#[trigger] wanted[i]).0,
        wanted[i].1,
        lookup(attrs, wanted[i].0),
    ) is None by {
        lemma_lookup_at(attrs, i);
        let values = attrs[i].1;
        if attrs[i].0 == "description"@ {
            assert(holds_only(values, values[0]));
        } else {
            assert(same_values(values, values));
        }
    }
    lemma_no_mods(wanted, attrs, attrs.len() as int);
}

/// An attribute is touched only if it is managed and not in line, or initial and not there.
pub proof fn law_untouched_attributes(
    wanted: Seq<(Seq<char>, Wanted)>,
    live: Seq<(Seq<char>, Seq<Seq<char>>)>,
    key: Seq<char>,
)
    requires
        ascending(wanted),
        match lookup(wanted, key) {
            None => true,
            Some(Wanted::Field(ResolvedFieldValueView::Unmanaged)) => true,
            Some(Wanted::Field(ResolvedFieldValueView::Initial(_))) => lookup(live, key) is Some,
            Some(Wanted::Field(ResolvedFieldValueView::Managed(text))) => lookup(
                live,
                key,
            ) matches Some(there) && holds_only(there, text),
            Some(Wanted::Values(values)) => lookup(live, key) matches Some(there) && same_values(
                there,
                values,
            ),
        },
    ensures
        ({
            let mods = mods_of(wanted, live, wanted.len() as int);
            lookup(modified(live, mods, mods.len() as int), key) == lookup(live, key)
        }),
{
    assert(wanted.take(wanted.len() as int) =~= wanted);
    lemma_modified(wanted, live, wanted.len() as int, key);
}

/// An entry is deleted only if it is there, is not desired and no pattern matches its name.
pub proof fn law_deletes_only_undesired(
    desired: LdapDesiredStateView,
    live: LdapLiveStateView,
    base_dn: Seq<char>,
    patterns: Seq<IgnorePattern>,
    i: int,
)
    requires
        0 <= i < doomed(desired, live, base_dn, patterns).len(),
    ensures
        ({
            let dn = doomed(desired, live, base_dn, patterns)[i];
            &&& !any_matches(patterns, dn)
            &&& {
                ||| exists|uid: Seq<char>|
                    dn == #[trigger] user_name(uid, base_dn) && has_key(live.users, uid)
                        && lookup(desired.users, uid) is None
                ||| exists|cn: Seq<char>|
                    dn == #[trigger] group_name(cn, base_dn) && has_key(live.groups, cn)
                        && lookup(desired.groups, cn) is None
            }
        }),
{
    let names = undesired(desired, live, base_dn);
    let dn = doomed(desired, live, base_dn, patterns)[i];
    let j = lemma_not_ignored(names, patterns, names.len() as int, i);
    let users = absent(live.users, desired.users, live.users.len() as int);
    let groups = absent(live.groups, desired.groups, live.groups.len() as int);
    if j < users.len() {
        lemma_absent(live.users, desired.users, live.users.len() as int, j);
        assert(dn == user_name(users[j], base_dn));
    } else {
        lemma_absent(live.groups, desired.groups, live.groups.len() as int, j - users.len());
        assert(dn == group_name(groups[j - users.len()], base_dn));
    }
}

proof fn lemma_not_ignored(
    names: Seq<Seq<char>>,
    patterns: Seq<IgnorePattern>,
    n: int,
    i: int,
) -> (j: int)
    requires
        0 <= n <= names.len(),
        0 <= i < not_ignored(names, patterns, n).len(),
    ensures
        0 <= j < n,
        not_ignored(names, patterns, n)[i] == names[j],
        !any_matches(patterns, names[j]),
    decreases n,
{
    let before = not_ignored(names, patterns, n - 1);
    if i < before.len() {
        lemma_not_ignored(names, patterns, n - 1, i)
    } else {
        n - 1
    }
}

proof fn lemma_absent<V, W>(
    live: Seq<(Seq<char>, V)>,
    wanted: Seq<(Seq<char>, W)>,
    n: int,
    i: int,
)
    requires
        0 <= n <= live.len(),
        0 <= i < absent(live, wanted, n).len(),
    ensures
        has_key(live, absent(live, wanted, n)[i]),
        lookup(wanted, absent(live, wanted, n)[i]) is None,
    decreases n,
{
    let before = absent(live, wanted, n - 1);
    if i < before.len() {
        lemma_absent(live, wanted, n - 1, i);
    } else {
        assert(live[n - 1].0 == absent(live, wanted, n)[i]);
    }
}

/// Entries are deleted deepest first: none comes before one that stands deeper.
pub proof fn law_deletes_deepest_first(names: Seq<Seq<char>>, sorted: Seq<Seq<char>>, i: int, j: int)
    requires
        stably_sorted(names, depths(names), true, sorted),
        0 <= i < j < sorted.len(),
    ensures
        depths(sorted)[i] >= depths(sorted)[j],
{
    let keys = depths(names);
    let perm = choose|perm: Seq<int>| #[trigger]
        is_stable_order(keys, true, perm) && sorted == reordered(names, perm);
    assert(comes_before(keys, true, perm[i], perm[j]));
}

/// Entries are added parents first: none comes before one that stands higher.
pub proof fn law_adds_parents_first(
    entries: Seq<(Seq<char>, Seq<(Seq<char>, Seq<Seq<char>>)>)>,
    sorted: Seq<(Seq<char>, Seq<(Seq<char>, Seq<Seq<char>>)>)>,
    i: int,
    j: int,
)
    requires
        stably_sorted(entries, add_depths(entries), false, sorted),
        0 <= i < j < sorted.len(),
    ensures
        add_depths(sorted)[i] <= add_depths(sorted)[j],
{
    let keys = add_depths(entries);
    let perm = choose|perm: Seq<int>| #[trigger]
        is_stable_order(keys, false, perm) && sorted == reordered(entries, perm);
    assert(comes_before(keys, false, perm[i], perm[j]));
}

pub(crate) proof fn lemma_fields_ascending(
    entry: Seq<char>,
    fields: Seq<(Seq<char>, FieldValueView)>,
    sources: SourcesView,
    n: int,
)
    ensures
        fields_resolved(entry, fields, sources, n) matches Ok(attrs) ==> ascending(attrs),
    decreases n,
{
    if n > 0 {
        lemma_fields_ascending(entry, fields, sources, n - 1);
        if let Ok(attrs) = fields_resolved(entry, fields, sources, n - 1) {
            if let Ok(value) = resolved(fields[n - 1].1, sources) {
                lemma_put_ascending(attrs, fields[n - 1].0, value);
            }
        }
    }
}

/// What an entry holds once what was found of it is done: the new attributes if it was not
/// there, and what was there with the modifications made.
pub open spec fn entry_after(
    new_attrs: Seq<(Seq<char>, Seq<Seq<char>>)>,
    wanted: Seq<(Seq<char>, Wanted)>,
    live: Option<Seq<(Seq<char>, Seq<Seq<char>>)>>,
) -> Seq<(Seq<char>, Seq<Seq<char>>)> {
    match live {
        None => new_attrs,
        Some(live) => {
            let mods = mods_of(wanted, live, wanted.len() as int);
            modified(live, mods, mods.len() as int)
        },
    }
}

/// The entry of the user is as it is once what was found of it is done.
pub open spec fn user_reconciled(
    uid: Seq<char>,
    user: UserEntryView,
    live: LdapLiveStateView,
    after: LdapLiveStateView,
    sources: SourcesView,
) -> bool {
    fields_resolved(uid, user_fields(user), sources, user_fields(user).len() as int) matches Ok(
        attrs,
    ) ==> lookup(after.users, uid) == Some(
        entry_after(new_user_attrs(attrs, uid), field_wants(attrs), lookup(live.users, uid)),
    )
}

/// The entry of the group is as it is once what was found of it is done.
pub open spec fn group_reconciled(
    cn: Seq<char>,
    group: GroupEntryView,
    live: LdapLiveStateView,
    after: LdapLiveStateView,
    base_dn: Seq<char>,
    sources: SourcesView,
) -> bool {
    resolved(group.description, sources) matches Ok(description) ==> {
        let attrs = group_attrs(description, group.members, cn, base_dn);
        lookup(after.groups, cn) == Some(
            entry_after(attrs, group_wants(attrs, description), lookup(live.groups, cn)),
        )
    }
}

/// The state `after` is what becomes of `live` once everything that was found is done: entries
/// are added, modified and deleted.
pub open spec fn reconciled(
    desired: LdapDesiredStateView,
    live: LdapLiveStateView,
    after: LdapLiveStateView,
    base_dn: Seq<char>,
    patterns: Seq<IgnorePattern>,
    sources: SourcesView,
) -> bool {
    &&& forall|i: int|
        0 <= i < desired.users.len() ==> user_reconciled(
            (#[trigger] desired.users[i]).0,
            desired.users[i].1,
            live,
            after,
            sources,
        )
    &&& forall|i: int|
        0 <= i < desired.groups.len() ==> group_reconciled(
            (#[trigger] desired.groups[i]).0,
            desired.groups[i].1,
            live,
            after,
            base_dn,
            sources,
        )
    &&& forall|uid: Seq<char>|
        has_key(after.users, uid) && lookup(desired.users, uid) is None ==> any_matches(
            patterns,
            #[trigger] user_name(uid, base_dn),
        )
    &&& forall|cn: Seq<char>|
        has_key(after.groups, cn) && lookup(desired.groups, cn) is None ==> any_matches(
            patterns,
            #[trigger] group_name(cn, base_dn),
        )
}

/// Nothing was found.
pub open spec fn nothing_found() -> FoundView {
    FoundView { changes: Seq::empty(), to_add: Seq::empty(), to_modify: Seq::empty() }
}

proof fn lemma_users_in_line(
    desired: LdapDesiredStateView,
    live: LdapLiveStateView,
    after: LdapLiveStateView,
    base_dn: Seq<char>,
    patterns: Seq<IgnorePattern>,
    sources: SourcesView,
    n: int,
)
    requires
        0 <= n <= desired.users.len(),
        reconciled(desired, live, after, base_dn, patterns, sources),
    ensures
        users_found(desired.users, after.users, base_dn, sources, n) matches Ok(found) ==> found
            == nothing_found(),
    decreases n,
{
    if n > 0 {
        lemma_users_in_line(desired, live, after, base_dn, patterns, sources, n - 1);
        let (uid, user) = desired.users[n - 1];
        let fields = user_fields(user);
        assert(user_reconciled(desired.users[n - 1].0, desired.users[n - 1].1, live, after, sources));
        lemma_fields_ascending(uid, fields, sources, fields.len() as int);
        if let Ok(attrs) = fields_resolved(uid, fields, sources, fields.len() as int) {
            match lookup(live.users, uid) {
                None => law_added_user_is_in_line(attrs, uid),
                Some(there) => {
                    let wanted = field_wants(attrs);
                    assert forall|i: int, j: int| 0 <= i < j < wanted.len() implies text_lt(
                        (#[trigger] wanted[i]).0,
                        (#[trigger] wanted[j]).0,
                    ) by {
                        assert(text_lt(attrs[i].0, attrs[j].0));
                    }
                    law_modifications_converge(wanted, there);
                },
            }
        }
    }
}

proof fn lemma_groups_in_line(
    desired: LdapDesiredStateView,
    live: LdapLiveStateView,
    after: LdapLiveStateView,
    base_dn: Seq<char>,
    patterns: Seq<IgnorePattern>,
    sources: SourcesView,
    n: int,
)
    requires
        0 <= n <= desired.groups.len(),
        reconciled(desired, live, after, base_dn, patterns, sources),
    ensures
        groups_found(nothing_found(), desired.groups, after.groups, base_dn, sources, n) matches Ok(
            found,
        ) ==> found == nothing_found(),
    decreases n,
{
    if n > 0 {
        lemma_groups_in_line(desired, live, after, base_dn, patterns, sources, n - 1);
        let (cn, group) = desired.groups[n - 1];
        assert(group_reconciled(
            desired.groups[n - 1].0,
            desired.groups[n - 1].1,
            live,
            after,
            base_dn,
            sources,
        ));
        if let Ok(description) = resolved(group.description, sources) {
            let attrs = group_attrs(description, group.members, cn, base_dn);
            let wanted = group_wants(attrs, description);
            lemma_group_ascending(description, group.members, cn, base_dn);
            assert forall|i: int, j: int| 0 <= i < j < wanted.len() implies text_lt(
                (#[trigger] wanted[i]).0,
                (#[trigger] wanted[j]).0,
            ) by {
                assert(text_lt(attrs[i].0, attrs[j].0));
            }
            match lookup(live.groups, cn) {
                None => law_added_group_is_in_line(description, group.members, cn, base_dn),
                Some(there) => law_modifications_converge(wanted, there),
            }
        }
    }
}

/// Reconciling is stable: once everything that was found is done, a second comparison finds
/// nothing to add, to modify or to delete.
pub proof fn law_reconciled_state_is_stable(
    desired: LdapDesiredStateView,
    live: LdapLiveStateView,
    after: LdapLiveStateView,
    base_dn: Seq<char>,
    patterns: Seq<IgnorePattern>,
    sources: SourcesView,
    again: Result<LdapDiffView, ReconcileErrorView>,
)
    requires
        entries_found(desired, live, base_dn, sources) is Ok,
        reconciled(desired, live, after, base_dn, patterns, sources),
        is_diff(desired, after, base_dn, patterns, sources, again),
    ensures
        again matches Ok(diff) && diff.resource_changes.len() == 0 && diff.to_add.len() == 0
            && diff.to_modify.len() == 0 && diff.to_delete.len() == 0,
{
    let users = desired.users.len() as int;
    let groups = desired.groups.len() as int;
    lemma_users_in_line(desired, live, after, base_dn, patterns, sources, users);
    lemma_users_resolve(desired.users, live.users, after.users, base_dn, sources, users);
    lemma_groups_in_line(desired, live, after, base_dn, patterns, sources, groups);
    let found = users_found(desired.users, live.users, base_dn, sources, users)->Ok_0;
    lemma_groups_resolve(
        found,
        nothing_found(),
        desired.groups,
        live.groups,
        after.groups,
        base_dn,
        sources,
        groups,
    );
    if doomed(desired, after, base_dn, patterns).len() > 0 {
        law_deletes_only_undesired(desired, after, base_dn, patterns, 0);
    }
}

/// Whether the users' fields resolve does not rest on what is there.
proof fn lemma_users_resolve(
    users: Seq<(Seq<char>, UserEntryView)>,
    a: Seq<(Seq<char>, Seq<(Seq<char>, Seq<Seq<char>>)>)>,
    b: Seq<(Seq<char>, Seq<(Seq<char>, Seq<Seq<char>>)>)>,
    base_dn: Seq<char>,
    sources: SourcesView,
    n: int,
)
    requires
        users_found(users, a, base_dn, sources, n) is Ok,
    ensures
        users_found(users, b, base_dn, sources, n) is Ok,
    decreases n,
{
    if n > 0 {
        lemma_users_resolve(users, a, b, base_dn, sources, n - 1);
    }
}

/// Whether the groups' fields resolve does not rest on what is there.
proof fn lemma_groups_resolve(
    x: FoundView,
    y: FoundView,
    groups: Seq<(Seq<char>, GroupEntryView)>,
    a: Seq<(Seq<char>, Seq<(Seq<char>, Seq<Seq<char>>)>)>,
    b: Seq<(Seq<char>, Seq<(Seq<char>, Seq<Seq<char>>)>)>,
    base_dn: Seq<char>,
    sources: SourcesView,
    n: int,
)
    requires
        groups_found(x, groups, a, base_dn, sources, n) is Ok,
    ensures
        groups_found(y, groups, b, base_dn, sources, n) is Ok,
    decreases n,
{
    if n > 0 {
        lemma_groups_resolve(x, y, groups, a, b, base_dn, sources, n - 1);
    }
}

/// The names that no pattern matches are those that are picked for it.
proof fn lemma_not_ignored_picked(names: Seq<Seq<char>>, patterns: Seq<IgnorePattern>, n: int)
    requires
        0 <= n <= names.len(),
    ensures
        not_ignored(names, patterns, n) == picked(
            names,
            names.map_values(|dn: Seq<char>| !any_matches(patterns, dn)),
            n,
        ),
    decreases n,
{
    if n > 0 {
        lemma_not_ignored_picked(names, patterns, n - 1);
    }
}

proof fn lemma_picked_depths(names: Seq<Seq<char>>, keep: Seq<bool>, n: int)
    requires
        0 <= n <= names.len(),
    ensures
        picked(depths(names), keep, n) == depths(picked(names, keep, n)),
    decreases n,
{
    if n > 0 {
        lemma_picked_depths(names, keep, n - 1);
        let before = picked(names, keep, n - 1);
        assert(depths(before.push(names[n - 1])) =~= depths(before).push(depths(names)[n - 1]));
    } else {
        assert(depths(Seq::empty()) =~= Seq::empty());
    }
}

/// Patterns of two lists match what a pattern of either matches.
proof fn lemma_either_matches(p: Seq<IgnorePattern>, q: Seq<IgnorePattern>, dn: Seq<char>)
    ensures
        any_matches(p + q, dn) == (any_matches(p, dn) || any_matches(q, dn)),
{
    if any_matches(p, dn) {
        let i = choose|i: int| 0 <= i < p.len() && pattern_matches((#[trigger] p[i])@, dn);
        assert((p + q)[i] == p[i]);
    }
    if any_matches(q, dn) {
        let i = choose|i: int| 0 <= i < q.len() && pattern_matches((#[trigger] q[i])@, dn);
        assert((p + q)[p.len() + i] == q[i]);
    }
    if any_matches(p + q, dn) {
        let i = choose|i: int|
            0 <= i < (p + q).len() && pattern_matches((#[trigger] (p + q)[i])@, dn);
        if i < p.len() {
            assert((p + q)[i] == p[i]);
        } else {
            assert((p + q)[i] == q[i - p.len()]);
        }
    }
}

/// Ignoring by two lists is ignoring by one and then by the other.
proof fn lemma_ignored_in_turn(
    names: Seq<Seq<char>>,
    p: Seq<IgnorePattern>,
    q: Seq<IgnorePattern>,
    n: int,
)
    requires
        0 <= n <= names.len(),
    ensures
        ({
            let some = not_ignored(names, p, n);
            not_ignored(names, p + q, n) == not_ignored(some, q, some.len() as int)
        }),
    decreases n,
{
    if n > 0 {
        lemma_ignored_in_turn(names, p, q, n - 1);
        lemma_either_matches(p, q, names[n - 1]);
        let before = not_ignored(names, p, n - 1);
        let some = not_ignored(names, p, n);
        if !any_matches(p, names[n - 1]) {
            lemma_not_ignored_prefix(before, some, q, before.len() as int);
        }
    }
}

proof fn lemma_not_ignored_prefix(
    a: Seq<Seq<char>>,
    b: Seq<Seq<char>>,
    patterns: Seq<IgnorePattern>,
    n: int,
)
    requires
        0 <= n <= a.len(),
        n <= b.len(),
        forall|i: int| 0 <= i < n ==> #[trigger] a[i] == b[i],
    ensures
        not_ignored(a, patterns, n) == not_ignored(b, patterns, n),
    decreases n,
{
    if n > 0 {
        lemma_not_ignored_prefix(a, b, patterns, n - 1);
        assert(a[n - 1] == b[n - 1]);
    }
}

/// More patterns only spare entries: what is added and modified stays, and the entries that are
/// deleted are those that were without the additional patterns, apart from those that one of
/// these matches, in the same order.
pub proof fn law_patterns_only_spare(
    desired: LdapDesiredStateView,
    live: LdapLiveStateView,
    base_dn: Seq<char>,
    p: Seq<IgnorePattern>,
    q: Seq<IgnorePattern>,
    sources: SourcesView,
    a: LdapDiffView,
    b: LdapDiffView,
)
    requires
        is_diff(desired, live, base_dn, p, sources, Ok::<LdapDiffView, ReconcileErrorView>(a)),
        is_diff(desired, live, base_dn, p + q, sources, Ok::<LdapDiffView, ReconcileErrorView>(b)),
    ensures
        b.to_add == a.to_add,
        b.to_modify == a.to_modify,
        b.to_delete == not_ignored(a.to_delete, q, a.to_delete.len() as int),
{
    let found = entries_found(desired, live, base_dn, sources)->Ok_0;
    law_stable_order_unique(found.to_add, add_depths(found.to_add), false, a.to_add, b.to_add);
    let all = undesired(desired, live, base_dn);
    let names = doomed(desired, live, base_dn, p);
    let fewer = doomed(desired, live, base_dn, p + q);
    lemma_ignored_in_turn(all, p, q, all.len() as int);
    let spared = |dn: Seq<char>| !any_matches(q, dn);
    law_sorting_keeps_a_selection(names, depths(names), true, a.to_delete, spared);
    lemma_not_ignored_picked(names, q, names.len() as int);
    lemma_not_ignored_picked(a.to_delete, q, a.to_delete.len() as int);
    lemma_picked_depths(names, names.map_values(spared), names.len() as int);
    law_stable_order_unique(
        fewer,
        depths(fewer),
        true,
        b.to_delete,
        not_ignored(a.to_delete, q, a.to_delete.len() as int),
    );
}

} // verus!
