//! What the comparison of an LDAP directory with the desired state is for: every entry that is
//! wanted comes to be there as it is wanted, and every other one goes.

use crate::field_value::{
    resolved, value_text, FieldValueErrorView, FieldValueView, ResolvedFieldValueView,
};
use crate::ignore::{pattern_matches, IgnorePattern};
use crate::ldap::{GroupEntryView, LdapDesiredStateView, LdapLiveStateView, UserEntryView};
use crate::order::{is_stable_order, reordered, stably_sorted};
use crate::plan::{FieldDiffView, ResourceChangeView};
use crate::reconcile::{
    absent, add_depths, attr_values, commas, deletions, depths, doomed, entries_found, field_wants,
    fields_resolved, found_with, group_attrs, group_name, group_wants, groups_found, is_diff,
    law_adds_parents_first, law_deletes_deepest_first, law_deletes_only_undesired,
    lemma_fields_ascending, lemma_group_ascending, lemma_modified, member_names, modified, mods_of,
    new_user_attrs, not_ignored, put_if_absent, undesired, user_fields, user_name, users_found,
    AttrModOp, AttrModView, FoundView, LdapDiffView, ReconcileErrorView, Wanted,
};
use crate::sources::SourcesView;
use crate::strmap::{
    ascending, has_key, lemma_lookup, lemma_lookup_at, lemma_lookup_push, lemma_lookup_put,
    lemma_lookups_put, lemma_not_before, lookup, put,
};
use crate::text::{joined, text_lt};
use vstd::prelude::*;

verus! {

/// No pattern matches the name.
pub open spec fn unmatched(patterns: Seq<IgnorePattern>, dn: Seq<char>) -> bool {
    forall|i: int| 0 <= i < patterns.len() ==> !pattern_matches((#[trigger] patterns[i])@, dn)
}

/// Sorting keeps the items.
proof fn lemma_sorted_contains<T>(
    items: Seq<T>,
    keys: Seq<usize>,
    descending: bool,
    sorted: Seq<T>,
    x: T,
)
    requires
        stably_sorted(items, keys, descending, sorted),
        items.len() == keys.len(),
    ensures
        items.contains(x) <==> sorted.contains(x),
        sorted.len() == items.len(),
{
    let perm = choose|perm: Seq<int>| #[trigger]
        is_stable_order(keys, descending, perm) && sorted == reordered(items, perm);
    if items.contains(x) {
        let i = choose|i: int| 0 <= i < items.len() && items[i] == x;
        assert(perm.contains(i));
        let j = choose|j: int| 0 <= j < perm.len() && perm[j] == i;
        assert(sorted[j] == x);
    }
    if sorted.contains(x) {
        let j = choose|j: int| 0 <= j < sorted.len() && sorted[j] == x;
        assert(items[perm[j]] == x);
    }
}

/// A key that is there and not wanted is among those that are to go.
proof fn lemma_absent_found<V, W>(
    live: Seq<(Seq<char>, V)>,
    wanted: Seq<(Seq<char>, W)>,
    n: int,
    i: int,
) -> (at: int)
    requires
        0 <= i < n <= live.len(),
        lookup(wanted, live[i].0) is None,
    ensures
        0 <= at < absent(live, wanted, n).len(),
        absent(live, wanted, n)[at] == live[i].0,
    decreases n,
{
    if i == n - 1 {
        absent(live, wanted, n).len() - 1
    } else {
        lemma_absent_found(live, wanted, n - 1, i)
    }
}

/// A name that no pattern matches is among those that are not ignored.
proof fn lemma_not_ignored_found(
    names: Seq<Seq<char>>,
    patterns: Seq<IgnorePattern>,
    n: int,
    i: int,
)
    requires
        0 <= i < n <= names.len(),
        unmatched(patterns, names[i]),
    ensures
        not_ignored(names, patterns, n).contains(names[i]),
    decreases n,
{
    let all = not_ignored(names, patterns, n);
    let before = not_ignored(names, patterns, n - 1);
    if i == n - 1 {
        assert(all[all.len() - 1] == names[i]);
    } else {
        lemma_not_ignored_found(names, patterns, n - 1, i);
        let j = choose|j: int| 0 <= j < before.len() && before[j] == names[i];
        assert(all[j] == names[i]);
    }
}

/// Every user that is there, is not desired and is matched by no pattern is deleted, and so is
/// every such group.
pub proof fn law_undesired_entries_are_deleted(
    desired: LdapDesiredStateView,
    live: LdapLiveStateView,
    base_dn: Seq<char>,
    patterns: Seq<IgnorePattern>,
    sources: SourcesView,
    diff: LdapDiffView,
    name: Seq<char>,
)
    requires
        is_diff(desired, live, base_dn, patterns, sources, Ok::<LdapDiffView, ReconcileErrorView>(
            diff,
        )),
    ensures
        has_key(live.users, name) && !has_key(desired.users, name) && unmatched(
            patterns,
            "uid="@ + name + ",ou=users,"@ + base_dn,
        ) ==> diff.to_delete.contains("uid="@ + name + ",ou=users,"@ + base_dn),
        has_key(live.groups, name) && !has_key(desired.groups, name) && unmatched(
            patterns,
            "cn="@ + name + ",ou=groups,"@ + base_dn,
        ) ==> diff.to_delete.contains("cn="@ + name + ",ou=groups,"@ + base_dn),
{
    let names = undesired(desired, live, base_dn);
    let gone = doomed(desired, live, base_dn, patterns);
    let users = absent(live.users, desired.users, live.users.len() as int);
    let groups = absent(live.groups, desired.groups, live.groups.len() as int);
    lemma_lookup(desired.users, name);
    lemma_lookup(desired.groups, name);
    let user = "uid="@ + name + ",ou=users,"@ + base_dn;
    let group = "cn="@ + name + ",ou=groups,"@ + base_dn;
    if has_key(live.users, name) && !has_key(desired.users, name) && unmatched(patterns, user) {
        let i = choose|i: int| 0 <= i < live.users.len() && (#[trigger] live.users[i]).0 == name;
        let at = lemma_absent_found(live.users, desired.users, live.users.len() as int, i);
        assert(names[at] == user);
        lemma_not_ignored_found(names, patterns, names.len() as int, at);
        lemma_sorted_contains(gone, depths(gone), true, diff.to_delete, user);
    }
    if has_key(live.groups, name) && !has_key(desired.groups, name) && unmatched(patterns, group) {
        let i = choose|i: int| 0 <= i < live.groups.len() && (#[trigger] live.groups[i]).0 == name;
        let at = lemma_absent_found(live.groups, desired.groups, live.groups.len() as int, i);
        assert(names[users.len() + at] == group);
        lemma_not_ignored_found(names, patterns, names.len() as int, users.len() + at);
        lemma_sorted_contains(gone, depths(gone), true, diff.to_delete, group);
    }
}

/// Every entry that is deleted is there, is not desired and is matched by no pattern.
pub proof fn law_deleted_entries_are_undesired(
    desired: LdapDesiredStateView,
    live: LdapLiveStateView,
    base_dn: Seq<char>,
    patterns: Seq<IgnorePattern>,
    sources: SourcesView,
    diff: LdapDiffView,
    dn: Seq<char>,
)
    requires
        is_diff(desired, live, base_dn, patterns, sources, Ok::<LdapDiffView, ReconcileErrorView>(
            diff,
        )),
        diff.to_delete.contains(dn),
    ensures
        unmatched(patterns, dn),
        (exists|i: int|
            0 <= i < live.users.len() && !has_key(desired.users, (#[trigger] live.users[i]).0) && dn
                == "uid="@ + live.users[i].0 + ",ou=users,"@ + base_dn) || (exists|i: int|
            0 <= i < live.groups.len() && !has_key(desired.groups, (#[trigger] live.groups[i]).0)
                && dn == "cn="@ + live.groups[i].0 + ",ou=groups,"@ + base_dn),
{
    let gone = doomed(desired, live, base_dn, patterns);
    lemma_sorted_contains(gone, depths(gone), true, diff.to_delete, dn);
    let k = choose|k: int| 0 <= k < gone.len() && gone[k] == dn;
    law_deletes_only_undesired(desired, live, base_dn, patterns, k);
    if exists|uid: Seq<char>|
        dn == #[trigger] user_name(uid, base_dn) && has_key(live.users, uid) && lookup(
            desired.users,
            uid,
        ) is None {
        let uid = choose|uid: Seq<char>|
            dn == #[trigger] user_name(uid, base_dn) && has_key(live.users, uid) && lookup(
                desired.users,
                uid,
            ) is None;
        lemma_lookup(desired.users, uid);
        let i = choose|i: int| 0 <= i < live.users.len() && (#[trigger] live.users[i]).0 == uid;
        assert(!has_key(desired.users, live.users[i].0));
    } else {
        let cn = choose|cn: Seq<char>|
            dn == #[trigger] group_name(cn, base_dn) && has_key(live.groups, cn) && lookup(
                desired.groups,
                cn,
            ) is None;
        lemma_lookup(desired.groups, cn);
        let i = choose|i: int| 0 <= i < live.groups.len() && (#[trigger] live.groups[i]).0 == cn;
        assert(!has_key(desired.groups, live.groups[i].0));
    }
}

/// The field that says what a user's attribute is to hold: one of the additional fields, or else
/// the field that is named for it.
pub open spec fn field_for(user: UserEntryView, attr: Seq<char>) -> Option<FieldValueView> {
    if has_key(user.extra_fields, attr) {
        lookup(user.extra_fields, attr)
    } else if attr == "cn"@ {
        Some(user.cn)
    } else if attr == "mail"@ {
        Some(user.mail)
    } else if attr == "userPassword"@ {
        Some(user.user_password)
    } else if attr == "loginShell"@ {
        user.login_shell
    } else if attr == "description"@ {
        user.description
    } else {
        None
    }
}

/// The last of the first `n` fields for an attribute.
spec fn last_for(
    fields: Seq<(Seq<char>, FieldValueView)>,
    n: int,
    attr: Seq<char>,
) -> Option<FieldValueView>
    decreases n,
{
    if n <= 0 {
        None
    } else if fields[n - 1].0 == attr {
        Some(fields[n - 1].1)
    } else {
        last_for(fields, n - 1, attr)
    }
}

proof fn lemma_last_concat(
    a: Seq<(Seq<char>, FieldValueView)>,
    b: Seq<(Seq<char>, FieldValueView)>,
    n: int,
    attr: Seq<char>,
)
    requires
        0 <= n <= b.len(),
    ensures
        last_for(a + b, a.len() + n, attr) == match last_for(b, n, attr) {
            Some(field) => Some(field),
            None => last_for(a, a.len() as int, attr),
        },
    decreases n,
{
    if n > 0 {
        lemma_last_concat(a, b, n - 1, attr);
        assert((a + b)[a.len() + n - 1] == b[n - 1]);
    } else {
        lemma_last_prefix(a, b, a.len() as int, attr);
    }
}

proof fn lemma_last_prefix(
    a: Seq<(Seq<char>, FieldValueView)>,
    b: Seq<(Seq<char>, FieldValueView)>,
    n: int,
    attr: Seq<char>,
)
    requires
        n <= a.len(),
    ensures
        last_for(a + b, n, attr) == last_for(a, n, attr),
    decreases n,
{
    if n > 0 {
        lemma_last_prefix(a, b, n - 1, attr);
        assert((a + b)[n - 1] == a[n - 1]);
    }
}

proof fn lemma_last_is_lookup(fields: Seq<(Seq<char>, FieldValueView)>, n: int, attr: Seq<char>)
    requires
        ascending(fields),
        0 <= n <= fields.len(),
    ensures
        last_for(fields, n, attr) == lookup(fields.take(n), attr),
    decreases n,
{
    if n > 0 {
        lemma_last_is_lookup(fields, n - 1, attr);
        assert(fields.take(n) =~= fields.take(n - 1).push(fields[n - 1]));
        lemma_lookup_push(fields.take(n - 1), fields[n - 1], attr);
        lemma_not_before(fields, n - 1);
    } else {
        assert(fields.take(0) =~= Seq::empty());
    }
}

/// The last field of a user for an attribute is the one that says what it is to hold.
proof fn lemma_user_fields(user: UserEntryView, attr: Seq<char>)
    requires
        ascending(user.extra_fields),
    ensures
        last_for(user_fields(user), user_fields(user).len() as int, attr) == field_for(user, attr),
{
    reveal_strlit("cn");
    reveal_strlit("mail");
    reveal_strlit("userPassword");
    reveal_strlit("loginShell");
    reveal_strlit("description");
    assert("cn"@.len() == 2 && "mail"@.len() == 4 && "userPassword"@.len() == 12
        && "loginShell"@.len() == 10 && "description"@.len() == 11);
    let always = seq![
        ("cn"@, user.cn),
        ("mail"@, user.mail),
        ("userPassword"@, user.user_password),
    ];
    let shell = match user.login_shell {
        Some(field) => always.push(("loginShell"@, field)),
        None => always,
    };
    let described = match user.description {
        Some(field) => shell.push(("description"@, field)),
        None => shell,
    };
    let extra = user.extra_fields;
    lemma_last_concat(described, extra, extra.len() as int, attr);
    lemma_last_is_lookup(extra, extra.len() as int, attr);
    assert(extra.take(extra.len() as int) =~= extra);
    lemma_lookup(extra, attr);
    reveal_with_fuel(last_for, 6);
    assert(last_for(described, described.len() as int, attr) == if attr == "cn"@ {
        Some(user.cn)
    } else if attr == "mail"@ {
        Some(user.mail)
    } else if attr == "userPassword"@ {
        Some(user.user_password)
    } else if attr == "loginShell"@ {
        user.login_shell
    } else if attr == "description"@ {
        user.description
    } else {
        None
    });
}

proof fn lemma_resolved_last(
    entry: Seq<char>,
    fields: Seq<(Seq<char>, FieldValueView)>,
    sources: SourcesView,
    n: int,
    attr: Seq<char>,
)
    requires
        0 <= n <= fields.len(),
        fields_resolved(entry, fields, sources, n) is Ok,
    ensures
        ({
            let attrs = fields_resolved(entry, fields, sources, n)->Ok_0;
            match last_for(fields, n, attr) {
                None => lookup(attrs, attr) is None,
                Some(field) => resolved(field, sources) is Ok && lookup(attrs, attr) == Some(
                    resolved(field, sources)->Ok_0,
                ),
            }
        }),
    decreases n,
{
    if n > 0 {
        lemma_resolved_last(entry, fields, sources, n - 1, attr);
        let before = fields_resolved(entry, fields, sources, n - 1)->Ok_0;
        let value = resolved(fields[n - 1].1, sources)->Ok_0;
        lemma_lookup_put(before, fields[n - 1].0, value, attr);
    }
}

/// A user's attributes are resolved each from the field that says what it is to hold, and there
/// are no others.
pub proof fn law_attributes_come_from_their_fields(
    uid: Seq<char>,
    user: UserEntryView,
    sources: SourcesView,
    attrs: Seq<(Seq<char>, ResolvedFieldValueView)>,
    attr: Seq<char>,
)
    requires
        ascending(user.extra_fields),
        fields_resolved(uid, user_fields(user), sources, user_fields(user).len() as int) == Ok::<
            Seq<(Seq<char>, ResolvedFieldValueView)>,
            ReconcileErrorView,
        >(attrs),
    ensures
        match field_for(user, attr) {
            None => lookup(attrs, attr) is None,
            Some(field) => resolved(field, sources) is Ok && lookup(attrs, attr) == Some(
                resolved(field, sources)->Ok_0,
            ),
        },
{
    lemma_user_fields(user, attr);
    let fields = user_fields(user);
    lemma_resolved_last(uid, fields, sources, fields.len() as int, attr);
}

/// Where a user's attributes cannot be resolved, there is a field of the user that cannot be, and
/// the error tells the user, the field and why.
pub proof fn law_unresolved_field_is_told(
    uid: Seq<char>,
    user: UserEntryView,
    sources: SourcesView,
    error: ReconcileErrorView,
)
    requires
        fields_resolved(uid, user_fields(user), sources, user_fields(user).len() as int) == Err::<
            Seq<(Seq<char>, ResolvedFieldValueView)>,
            ReconcileErrorView,
        >(error),
    ensures
        ({
            let ReconcileErrorView::FieldResolution { entry, field, source } = error;
            entry == uid && exists|value: FieldValueView| #[trigger]
                resolved(value, sources) == Err::<
                    ResolvedFieldValueView,
                    FieldValueErrorView,
                >(source) && ((field == "cn"@ && value == user.cn) || (field == "mail"@ && value
                    == user.mail) || (field == "userPassword"@ && value == user.user_password) || (
                field == "loginShell"@ && user.login_shell == Some(value)) || (field
                    == "description"@ && user.description == Some(value))
                    || user.extra_fields.contains((field, value)))
        }),
{
    let fields = user_fields(user);
    let i = lemma_field_fault(uid, fields, sources, fields.len() as int, error);
    let value = fields[i].1;
    assert(resolved(value, sources) is Err);
    let head = fields.len() - user.extra_fields.len();
    if i >= head {
        assert(user.extra_fields[i - head] == fields[i]);
    }
}

proof fn lemma_field_fault(
    entry: Seq<char>,
    fields: Seq<(Seq<char>, FieldValueView)>,
    sources: SourcesView,
    n: int,
    error: ReconcileErrorView,
) -> (i: int)
    requires
        n <= fields.len(),
        fields_resolved(entry, fields, sources, n) == Err::<
            Seq<(Seq<char>, ResolvedFieldValueView)>,
            ReconcileErrorView,
        >(error),
    ensures
        0 <= i < n,
        resolved(fields[i].1, sources) is Err,
        error == (ReconcileErrorView::FieldResolution {
            entry,
            field: fields[i].0,
            source: resolved(fields[i].1, sources)->Err_0,
        }),
    decreases n,
{
    if fields_resolved(entry, fields, sources, n - 1) is Err {
        lemma_field_fault(entry, fields, sources, n - 1, error)
    } else {
        n - 1
    }
}

proof fn lemma_values_lookup(
    attrs: Seq<(Seq<char>, ResolvedFieldValueView)>,
    n: int,
    key: Seq<char>,
)
    requires
        ascending(attrs),
        0 <= n <= attrs.len(),
    ensures
        lookup(attr_values(attrs, n), key) == match lookup(attrs.take(n), key) {
            Some(value) => match value_text(value) {
                Some(text) => Some(seq![text]),
                None => None,
            },
            None => None,
        },
    decreases n,
{
    if n > 0 {
        lemma_values_lookup(attrs, n - 1, key);
        assert(attrs.take(n) =~= attrs.take(n - 1).push(attrs[n - 1]));
        lemma_lookup_push(attrs.take(n - 1), attrs[n - 1], key);
        lemma_not_before(attrs, n - 1);
        if value_text(attrs[n - 1].1) is Some {
            lemma_lookup_put(
                attr_values(attrs, n - 1),
                attrs[n - 1].0,
                seq![value_text(attrs[n - 1].1)->0],
                key,
            );
        }
    } else {
        assert(attrs.take(0) =~= Seq::empty());
    }
}

/// A new user gets each attribute that has a value, with that one value; the object classes of a
/// person and the identifier where no field gives them; and nothing else.
pub proof fn law_new_user_gets_its_values(
    attrs: Seq<(Seq<char>, ResolvedFieldValueView)>,
    uid: Seq<char>,
    key: Seq<char>,
)
    requires
        ascending(attrs),
    ensures
        lookup(new_user_attrs(attrs, uid), key) == match lookup(attrs, key) {
            Some(ResolvedFieldValueView::Managed(text)) => Some(seq![text]),
            Some(ResolvedFieldValueView::Initial(text)) => Some(seq![text]),
            _ => if key == "objectClass"@ {
                Some(seq!["inetOrgPerson"@, "organizationalPerson"@, "person"@])
            } else if key == "uid"@ {
                Some(seq![uid])
            } else {
                None
            },
        },
{
    reveal_strlit("objectClass");
    reveal_strlit("uid");
    assert("objectClass"@.len() == 11 && "uid"@.len() == 3);
    let n = attrs.len() as int;
    assert(attrs.take(n) =~= attrs);
    lemma_values_lookup(attrs, n, key);
    lemma_values_lookup(attrs, n, "objectClass"@);
    lemma_values_lookup(attrs, n, "uid"@);
    let values = attr_values(attrs, n);
    let classes = seq!["inetOrgPerson"@, "organizationalPerson"@, "person"@];
    lemma_lookups_put(values, "objectClass"@, classes);
    lemma_lookups_put(put_if_absent(values, "objectClass"@, classes), "uid"@, seq![uid]);
}

/// A group gets its object class, its name, its description where it has one, and as members the
/// names of its users, or a placeholder where there is none; and nothing else.
pub proof fn law_group_gets_its_values(
    description: ResolvedFieldValueView,
    members: Seq<Seq<char>>,
    cn: Seq<char>,
    base_dn: Seq<char>,
    key: Seq<char>,
)
    ensures
        ({
            let got = lookup(group_attrs(description, members, cn, base_dn), key);
            &&& key == "objectClass"@ ==> got == Some(seq!["groupOfNames"@])
            &&& key == "cn"@ ==> got == Some(seq![cn])
            &&& key == "description"@ ==> match description {
                ResolvedFieldValueView::Managed(text) => got == Some(seq![text]),
                ResolvedFieldValueView::Initial(text) => got == Some(seq![text]),
                ResolvedFieldValueView::Unmanaged => got is None,
            }
            &&& key == "member"@ ==> got is Some && if members.len() == 0 {
                got->0 == seq!["uid=placeholder,ou=users,"@ + base_dn]
            } else {
                got->0.len() == members.len() && forall|i: int|
                    0 <= i < members.len() ==> #[trigger] got->0[i] == "uid="@ + members[i]
                        + ",ou=users,"@ + base_dn
            }
            &&& key != "objectClass"@ && key != "cn"@ && key != "description"@ && key != "member"@
                ==> got is None
        }),
{
    reveal_strlit("objectClass");
    reveal_strlit("cn");
    reveal_strlit("description");
    reveal_strlit("member");
    assert("objectClass"@.len() == 11 && "description"@.len() == 11 && "member"@.len() == 6);
    assert("objectClass"@[0] == 'o' && "description"@[0] == 'd' && "cn"@.len() == 2);
    let none = Seq::<(Seq<char>, Seq<Seq<char>>)>::empty();
    let classed = put(none, "objectClass"@, seq!["groupOfNames"@]);
    let named = put(classed, "cn"@, seq![cn]);
    let described = match value_text(description) {
        Some(text) => put(named, "description"@, seq![text]),
        None => named,
    };
    lemma_lookups_put(none, "objectClass"@, seq!["groupOfNames"@]);
    lemma_lookups_put(classed, "cn"@, seq![cn]);
    if let Some(text) = value_text(description) {
        lemma_lookups_put(named, "description"@, seq![text]);
    }
    lemma_lookups_put(described, "member"@, member_names(members, base_dn));
}

/// What is shown of an entry that is added: every attribute with its values, and none from before.
pub open spec fn shows_added(
    fields: Seq<FieldDiffView>,
    attrs: Seq<(Seq<char>, Seq<Seq<char>>)>,
) -> bool {
    &&& fields.len() == attrs.len()
    &&& forall|i: int|
        0 <= i < attrs.len() ==> (#[trigger] fields[i]).field == attrs[i].0 && fields[i].from is None
            && fields[i].to == Some(joined(attrs[i].1, "; "@))
}

/// What is shown of an entry that is modified: every modified attribute with its values from
/// before, where it had some, and those that it gets.
pub open spec fn shows_modified(
    fields: Seq<FieldDiffView>,
    mods: Seq<AttrModView>,
    live: Seq<(Seq<char>, Seq<Seq<char>>)>,
) -> bool {
    &&& fields.len() == mods.len()
    &&& forall|i: int|
        0 <= i < mods.len() ==> (#[trigger] fields[i]).field == mods[i].attr && fields[i].to == Some(
            joined(mods[i].values, "; "@),
        ) && fields[i].from == match lookup(live, mods[i].attr) {
            Some(values) => Some(joined(values, "; "@)),
            None => None,
        }
}

/// That the changes show that an entry is added, with its attributes.
pub open spec fn shows_addition(
    changes: Seq<ResourceChangeView>,
    dn: Seq<char>,
    attrs: Seq<(Seq<char>, Seq<Seq<char>>)>,
) -> bool {
    exists|k: int|
        0 <= k < changes.len() && (#[trigger] changes[k] matches ResourceChangeView::Add {
            resource_id,
            fields,
        } && resource_id == dn && shows_added(fields, attrs))
}

/// That the changes show that an entry is modified, with the values before and after.
pub open spec fn shows_modification(
    changes: Seq<ResourceChangeView>,
    dn: Seq<char>,
    mods: Seq<AttrModView>,
    live: Seq<(Seq<char>, Seq<Seq<char>>)>,
) -> bool {
    exists|k: int|
        0 <= k < changes.len() && (#[trigger] changes[k] matches ResourceChangeView::Modify {
            resource_id,
            field_changes,
        } && resource_id == dn && shows_modified(field_changes, mods, live))
}

/// That what was found brings one entry about: it is added where it is not there, and what is to
/// be modified is modified; either is shown.
spec fn brings_about(
    changes: Seq<ResourceChangeView>,
    to_add: Seq<(Seq<char>, Seq<(Seq<char>, Seq<Seq<char>>)>)>,
    to_modify: Seq<(Seq<char>, Seq<AttrModView>)>,
    dn: Seq<char>,
    new_attrs: Seq<(Seq<char>, Seq<Seq<char>>)>,
    wanted: Seq<(Seq<char>, Wanted)>,
    live: Option<Seq<(Seq<char>, Seq<Seq<char>>)>>,
) -> bool {
    match live {
        None => to_add.contains((dn, new_attrs)) && shows_addition(changes, dn, new_attrs),
        Some(live) => {
            let mods = mods_of(wanted, live, wanted.len() as int);
            mods.len() == 0 || (to_modify.contains((dn, mods)) && shows_modification(
                changes,
                dn,
                mods,
                live,
            ))
        },
    }
}

spec fn begins<T>(a: Seq<T>, b: Seq<T>) -> bool {
    a.len() <= b.len() && forall|i: int| 0 <= i < a.len() ==> #[trigger] a[i] == b[i]
}

/// What was found before is still found with more.
proof fn lemma_brings_about_more(
    a: FoundView,
    b: FoundView,
    dn: Seq<char>,
    new_attrs: Seq<(Seq<char>, Seq<Seq<char>>)>,
    wanted: Seq<(Seq<char>, Wanted)>,
    live: Option<Seq<(Seq<char>, Seq<Seq<char>>)>>,
)
    requires
        brings_about(a.changes, a.to_add, a.to_modify, dn, new_attrs, wanted, live),
        begins(a.changes, b.changes),
        begins(a.to_add, b.to_add),
        begins(a.to_modify, b.to_modify),
    ensures
        brings_about(b.changes, b.to_add, b.to_modify, dn, new_attrs, wanted, live),
{
    match live {
        None => {
            let i = choose|i: int| 0 <= i < a.to_add.len() && a.to_add[i] == (dn, new_attrs);
            assert(b.to_add[i] == (dn, new_attrs));
            let k = choose|k: int|
                0 <= k < a.changes.len() && (#[trigger] a.changes[k] matches ResourceChangeView::Add {
                    resource_id,
                    fields,
                } && resource_id == dn && shows_added(fields, new_attrs));
            assert(a.changes[k] == b.changes[k]);
        },
        Some(there) => {
            let mods = mods_of(wanted, there, wanted.len() as int);
            if mods.len() > 0 {
                let i = choose|i: int| 0 <= i < a.to_modify.len() && a.to_modify[i] == (dn, mods);
                assert(b.to_modify[i] == (dn, mods));
                let k = choose|k: int|
                    0 <= k < a.changes.len() && (#[trigger] a.changes[k] matches
                        ResourceChangeView::Modify {
                        resource_id,
                        field_changes,
                    } && resource_id == dn && shows_modified(field_changes, mods, there));
                assert(a.changes[k] == b.changes[k]);
            }
        },
    }
}

/// One more entry is brought about, and nothing is lost.
proof fn lemma_found_with(
    found: FoundView,
    dn: Seq<char>,
    new_attrs: Seq<(Seq<char>, Seq<Seq<char>>)>,
    wanted: Seq<(Seq<char>, Wanted)>,
    live: Option<Seq<(Seq<char>, Seq<Seq<char>>)>>,
)
    ensures
        ({
            let more = found_with(found, dn, new_attrs, wanted, live);
            &&& brings_about(more.changes, more.to_add, more.to_modify, dn, new_attrs, wanted, live)
            &&& begins(found.changes, more.changes)
            &&& begins(found.to_add, more.to_add)
            &&& begins(found.to_modify, more.to_modify)
        }),
{
    let more = found_with(found, dn, new_attrs, wanted, live);
    match live {
        None => {
            assert(more.to_add[found.to_add.len() as int] == (dn, new_attrs));
            let fields = more.changes[found.changes.len() as int]->Add_fields;
            assert(shows_added(fields, new_attrs));
        },
        Some(there) => {
            let mods = mods_of(wanted, there, wanted.len() as int);
            if mods.len() > 0 {
                assert(more.to_modify[found.to_modify.len() as int] == (dn, mods));
                let fields = more.changes[found.changes.len() as int]->Modify_field_changes;
                assert(shows_modified(fields, mods, there));
            }
        },
    }
}

/// What the users come to, by way of their fields.
proof fn lemma_user_brought_about(
    users: Seq<(Seq<char>, UserEntryView)>,
    live: Seq<(Seq<char>, Seq<(Seq<char>, Seq<Seq<char>>)>)>,
    base_dn: Seq<char>,
    sources: SourcesView,
    n: int,
    i: int,
)
    requires
        0 <= i < n <= users.len(),
        users_found(users, live, base_dn, sources, n) is Ok,
    ensures
        ({
            let found = users_found(users, live, base_dn, sources, n)->Ok_0;
            let (uid, user) = users[i];
            let fields = user_fields(user);
            let attrs = fields_resolved(uid, fields, sources, fields.len() as int)->Ok_0;
            &&& fields_resolved(uid, fields, sources, fields.len() as int) is Ok
            &&& brings_about(
                found.changes,
                found.to_add,
                found.to_modify,
                user_name(uid, base_dn),
                new_user_attrs(attrs, uid),
                field_wants(attrs),
                lookup(live, uid),
            )
        }),
    decreases n,
{
    let before = users_found(users, live, base_dn, sources, n - 1)->Ok_0;
    let found = users_found(users, live, base_dn, sources, n)->Ok_0;
    let (last_uid, last) = users[n - 1];
    let last_attrs = fields_resolved(
        last_uid,
        user_fields(last),
        sources,
        user_fields(last).len() as int,
    )->Ok_0;
    lemma_found_with(
        before,
        user_name(last_uid, base_dn),
        new_user_attrs(last_attrs, last_uid),
        field_wants(last_attrs),
        lookup(live, last_uid),
    );
    if i < n - 1 {
        lemma_user_brought_about(users, live, base_dn, sources, n - 1, i);
        let (uid, user) = users[i];
        let fields = user_fields(user);
        let attrs = fields_resolved(uid, fields, sources, fields.len() as int)->Ok_0;
        lemma_brings_about_more(
            before,
            found,
            user_name(uid, base_dn),
            new_user_attrs(attrs, uid),
            field_wants(attrs),
            lookup(live, uid),
        );
    }
}

/// What the groups come to; what the users came to is not lost.
proof fn lemma_group_brought_about(
    among_users: FoundView,
    groups: Seq<(Seq<char>, GroupEntryView)>,
    live: Seq<(Seq<char>, Seq<(Seq<char>, Seq<Seq<char>>)>)>,
    base_dn: Seq<char>,
    sources: SourcesView,
    n: int,
    i: int,
)
    requires
        0 <= n <= groups.len(),
        groups_found(among_users, groups, live, base_dn, sources, n) is Ok,
    ensures
        ({
            let found = groups_found(among_users, groups, live, base_dn, sources, n)->Ok_0;
            let (cn, group) = groups[i];
            let description = resolved(group.description, sources)->Ok_0;
            let attrs = group_attrs(description, group.members, cn, base_dn);
            &&& begins(among_users.changes, found.changes)
            &&& begins(among_users.to_add, found.to_add)
            &&& begins(among_users.to_modify, found.to_modify)
            &&& 0 <= i < n ==> resolved(group.description, sources) is Ok && brings_about(
                found.changes,
                found.to_add,
                found.to_modify,
                group_name(cn, base_dn),
                attrs,
                group_wants(attrs, description),
                lookup(live, cn),
            )
        }),
    decreases n,
{
    if n > 0 {
        let before = groups_found(among_users, groups, live, base_dn, sources, n - 1)->Ok_0;
        let found = groups_found(among_users, groups, live, base_dn, sources, n)->Ok_0;
        let (last_cn, last) = groups[n - 1];
        let last_description = resolved(last.description, sources)->Ok_0;
        let last_attrs = group_attrs(last_description, last.members, last_cn, base_dn);
        lemma_found_with(
            before,
            group_name(last_cn, base_dn),
            last_attrs,
            group_wants(last_attrs, last_description),
            lookup(live, last_cn),
        );
        lemma_group_brought_about(among_users, groups, live, base_dn, sources, n - 1, i);
        if 0 <= i < n - 1 {
            let (cn, group) = groups[i];
            let description = resolved(group.description, sources)->Ok_0;
            let attrs = group_attrs(description, group.members, cn, base_dn);
            lemma_brings_about_more(
                before,
                found,
                group_name(cn, base_dn),
                attrs,
                group_wants(attrs, description),
                lookup(live, cn),
            );
        }
    }
}

/// The attributes of the entry `dn` as they are once the changes are made, where `live` are those
/// before: those that it is added with, or those before with its modifications made.  Either is
/// shown among the changes.
pub open spec fn comes_to(
    diff: LdapDiffView,
    dn: Seq<char>,
    live: Option<Seq<(Seq<char>, Seq<Seq<char>>)>>,
    after: Seq<(Seq<char>, Seq<Seq<char>>)>,
) -> bool {
    match live {
        None => diff.to_add.contains((dn, after)) && shows_addition(
            diff.resource_changes,
            dn,
            after,
        ),
        Some(there) => exists|mods: Seq<AttrModView>|
            after == #[trigger] modified(there, mods, mods.len() as int) && (mods.len() == 0 || (
            diff.to_modify.contains((dn, mods)) && shows_modification(
                diff.resource_changes,
                dn,
                mods,
                there,
            ))),
    }
}

/// That an attribute is as its field wants it: a managed one holds its value and nothing else, an
/// initial one was there or holds its value, and one that is not managed is as it was.
pub open spec fn as_wanted(
    value: Option<ResolvedFieldValueView>,
    before: Option<Seq<Seq<char>>>,
    after: Option<Seq<Seq<char>>>,
) -> bool {
    match value {
        Some(ResolvedFieldValueView::Managed(text)) => after is Some && after->0.len() > 0
            && forall|i: int| 0 <= i < after->0.len() ==> #[trigger] after->0[i] == text,
        Some(ResolvedFieldValueView::Initial(text)) => if before is Some {
            after == before
        } else {
            after == Some(seq![text])
        },
        _ => after == before,
    }
}

/// That as sets the values are the same.
pub open spec fn equal_as_sets(a: Seq<Seq<char>>, b: Seq<Seq<char>>) -> bool {
    forall|value: Seq<char>| a.contains(value) <==> #[trigger] b.contains(value)
}

/// What is wanted of the attributes that an entry is made of by fields.
proof fn lemma_field_wants(attrs: Seq<(Seq<char>, ResolvedFieldValueView)>, key: Seq<char>)
    requires
        ascending(attrs),
    ensures
        ascending(field_wants(attrs)),
        lookup(field_wants(attrs), key) == match lookup(attrs, key) {
            Some(value) => Some(Wanted::Field(value)),
            None => None,
        },
{
    let wanted = field_wants(attrs);
    assert forall|i: int, j: int| 0 <= i < j < wanted.len() implies text_lt(
        (#[trigger] wanted[i]).0,
        (#[trigger] wanted[j]).0,
    ) by {
        assert(text_lt(attrs[i].0, attrs[j].0));
    }
    lemma_lookup(attrs, key);
    lemma_lookup(wanted, key);
    if has_key(attrs, key) {
        let i = choose|i: int| 0 <= i < attrs.len() && (#[trigger] attrs[i]).0 == key;
        lemma_lookup_at(attrs, i);
        lemma_lookup_at(wanted, i);
        assert(wanted[i].0 == key);
    }
    if has_key(wanted, key) {
        let i = choose|i: int| 0 <= i < wanted.len() && (#[trigger] wanted[i]).0 == key;
        assert(attrs[i].0 == key);
    }
}

proof fn lemma_group_wants(
    attrs: Seq<(Seq<char>, Seq<Seq<char>>)>,
    description: ResolvedFieldValueView,
    key: Seq<char>,
)
    requires
        ascending(attrs),
    ensures
        ascending(group_wants(attrs, description)),
        lookup(group_wants(attrs, description), key) == match lookup(attrs, key) {
            Some(values) => Some(
                if key == "description"@ {
                    Wanted::Field(description)
                } else {
                    Wanted::Values(values)
                },
            ),
            None => None,
        },
{
    let wanted = group_wants(attrs, description);
    assert forall|i: int, j: int| 0 <= i < j < wanted.len() implies text_lt(
        (#[trigger] wanted[i]).0,
        (#[trigger] wanted[j]).0,
    ) by {
        assert(text_lt(attrs[i].0, attrs[j].0));
    }
    lemma_lookup(attrs, key);
    lemma_lookup(wanted, key);
    if has_key(attrs, key) {
        let i = choose|i: int| 0 <= i < attrs.len() && (#[trigger] attrs[i]).0 == key;
        lemma_lookup_at(attrs, i);
        lemma_lookup_at(wanted, i);
        assert(wanted[i].0 == key);
    }
    if has_key(wanted, key) {
        let i = choose|i: int| 0 <= i < wanted.len() && (#[trigger] wanted[i]).0 == key;
        assert(attrs[i].0 == key);
    }
}

/// Every desired user comes to be there, under its name, and every attribute of it comes to be as
/// the field for it wants; the other attributes of an entry that is there stay as they are.
pub proof fn law_desired_users_come_to_be(
    desired: LdapDesiredStateView,
    live: LdapLiveStateView,
    base_dn: Seq<char>,
    patterns: Seq<IgnorePattern>,
    sources: SourcesView,
    diff: LdapDiffView,
    i: int,
)
    requires
        is_diff(desired, live, base_dn, patterns, sources, Ok::<LdapDiffView, ReconcileErrorView>(
            diff,
        )),
        0 <= i < desired.users.len(),
        ascending(desired.users[i].1.extra_fields),
    ensures
        exists|after: Seq<(Seq<char>, Seq<Seq<char>>)>| #[trigger]
            comes_to(
                diff,
                "uid="@ + desired.users[i].0 + ",ou=users,"@ + base_dn,
                lookup(live.users, desired.users[i].0),
                after,
            ) && user_as_wanted(
                desired.users[i].0,
                desired.users[i].1,
                sources,
                lookup(live.users, desired.users[i].0),
                after,
            ),
{
    let (uid, user) = desired.users[i];
    let dn = "uid="@ + uid + ",ou=users,"@ + base_dn;
    let there = lookup(live.users, uid);
    let fields = user_fields(user);
    let among_users = users_found(
        desired.users,
        live.users,
        base_dn,
        sources,
        desired.users.len() as int,
    )->Ok_0;
    let found = entries_found(desired, live, base_dn, sources)->Ok_0;
    lemma_user_brought_about(
        desired.users,
        live.users,
        base_dn,
        sources,
        desired.users.len() as int,
        i,
    );
    let attrs = fields_resolved(uid, fields, sources, fields.len() as int)->Ok_0;
    let new_attrs = new_user_attrs(attrs, uid);
    let wanted = field_wants(attrs);
    lemma_group_brought_about(
        among_users,
        desired.groups,
        live.groups,
        base_dn,
        sources,
        desired.groups.len() as int,
        0,
    );
    lemma_brings_about_more(among_users, found, dn, new_attrs, wanted, there);
    let shown = FoundView { changes: diff.resource_changes, ..found };
    lemma_brings_about_more(found, shown, dn, new_attrs, wanted, there);
    lemma_fields_ascending(uid, fields, sources, fields.len() as int);
    let after = match there {
        None => {
            lemma_sorted_contains(
                found.to_add,
                add_depths(found.to_add),
                false,
                diff.to_add,
                (dn, new_attrs),
            );
            new_attrs
        },
        Some(before) => {
            let mods = mods_of(wanted, before, wanted.len() as int);
            modified(before, mods, mods.len() as int)
        },
    };
    assert(comes_to(diff, dn, there, after));
    assert forall|attr: Seq<char>| #[trigger] attribute_as_wanted(
        uid,
        user,
        sources,
        there,
        after,
        attr,
    ) by {
        law_attributes_come_from_their_fields(uid, user, sources, attrs, attr);
        match there {
            None => law_new_user_gets_its_values(attrs, uid, attr),
            Some(before) => {
                lemma_field_wants(attrs, attr);
                lemma_modified(wanted, before, wanted.len() as int, attr);
                assert(wanted.take(wanted.len() as int) =~= wanted);
            },
        }
    }
}

/// That an attribute of a user comes to be as the field for it wants.  A new entry has the object
/// classes of a person and its identifier where no field gives them.
pub open spec fn attribute_as_wanted(
    uid: Seq<char>,
    user: UserEntryView,
    sources: SourcesView,
    before: Option<Seq<(Seq<char>, Seq<Seq<char>>)>>,
    after: Seq<(Seq<char>, Seq<Seq<char>>)>,
    attr: Seq<char>,
) -> bool {
    let value = match field_for(user, attr) {
        Some(field) => Some(resolved(field, sources)->Ok_0),
        None => None,
    };
    let had = match before {
        Some(entries) => lookup(entries, attr),
        None => None,
    };
    if before is None && (value is None || value->0 is Unmanaged) && attr == "objectClass"@ {
        lookup(after, attr) == Some(
            seq!["inetOrgPerson"@, "organizationalPerson"@, "person"@],
        )
    } else if before is None && (value is None || value->0 is Unmanaged) && attr == "uid"@ {
        lookup(after, attr) == Some(seq![uid])
    } else {
        as_wanted(value, had, lookup(after, attr))
    }
}

/// That all attributes of a user come to be as they are wanted.
pub open spec fn user_as_wanted(
    uid: Seq<char>,
    user: UserEntryView,
    sources: SourcesView,
    before: Option<Seq<(Seq<char>, Seq<Seq<char>>)>>,
    after: Seq<(Seq<char>, Seq<Seq<char>>)>,
) -> bool {
    forall|attr: Seq<char>| #[trigger]
        attribute_as_wanted(uid, user, sources, before, after, attr)
}

/// Every desired group comes to be there, under its name, with its object class, its name, the
/// description that its field wants and exactly the members that it is to have; the other
/// attributes of an entry that is there stay as they are.
pub proof fn law_desired_groups_come_to_be(
    desired: LdapDesiredStateView,
    live: LdapLiveStateView,
    base_dn: Seq<char>,
    patterns: Seq<IgnorePattern>,
    sources: SourcesView,
    diff: LdapDiffView,
    i: int,
)
    requires
        is_diff(desired, live, base_dn, patterns, sources, Ok::<LdapDiffView, ReconcileErrorView>(
            diff,
        )),
        0 <= i < desired.groups.len(),
    ensures
        resolved(desired.groups[i].1.description, sources) is Ok,
        exists|after: Seq<(Seq<char>, Seq<Seq<char>>)>| #[trigger]
            comes_to(
                diff,
                "cn="@ + desired.groups[i].0 + ",ou=groups,"@ + base_dn,
                lookup(live.groups, desired.groups[i].0),
                after,
            ) && group_as_wanted(
                desired.groups[i].0,
                desired.groups[i].1,
                base_dn,
                sources,
                lookup(live.groups, desired.groups[i].0),
                after,
            ),
{
    let (cn, group) = desired.groups[i];
    let dn = "cn="@ + cn + ",ou=groups,"@ + base_dn;
    let there = lookup(live.groups, cn);
    let among_users = users_found(
        desired.users,
        live.users,
        base_dn,
        sources,
        desired.users.len() as int,
    )->Ok_0;
    let found = entries_found(desired, live, base_dn, sources)->Ok_0;
    lemma_group_brought_about(
        among_users,
        desired.groups,
        live.groups,
        base_dn,
        sources,
        desired.groups.len() as int,
        i,
    );
    let description = resolved(group.description, sources)->Ok_0;
    let attrs = group_attrs(description, group.members, cn, base_dn);
    let wanted = group_wants(attrs, description);
    let shown = FoundView { changes: diff.resource_changes, ..found };
    lemma_brings_about_more(found, shown, dn, attrs, wanted, there);
    lemma_group_ascending(description, group.members, cn, base_dn);
    let after = match there {
        None => {
            lemma_sorted_contains(
                found.to_add,
                add_depths(found.to_add),
                false,
                diff.to_add,
                (dn, attrs),
            );
            attrs
        },
        Some(before) => {
            let mods = mods_of(wanted, before, wanted.len() as int);
            modified(before, mods, mods.len() as int)
        },
    };
    assert(comes_to(diff, dn, there, after));
    assert forall|attr: Seq<char>| #[trigger] group_attribute_as_wanted(
        cn,
        group,
        base_dn,
        sources,
        there,
        after,
        attr,
    ) by {
        law_group_gets_its_values(description, group.members, cn, base_dn, attr);
        reveal_strlit("objectClass");
        reveal_strlit("cn");
        reveal_strlit("description");
        reveal_strlit("member");
        assert("objectClass"@.len() == 11 && "description"@.len() == 11 && "member"@.len() == 6);
        assert("objectClass"@[0] == 'o' && "description"@[0] == 'd' && "cn"@.len() == 2);
        let got = lookup(attrs, attr);
        if attr == "member"@ {
            assert(got->0 =~= names_of_members(group.members, base_dn));
        }
        match there {
            None => {
                if got is Some {
                    assert(equal_as_sets(got->0, got->0));
                }
            },
            Some(before) => {
                lemma_group_wants(attrs, description, attr);
                lemma_modified(wanted, before, wanted.len() as int, attr);
                assert(wanted.take(wanted.len() as int) =~= wanted);
                if let Some(Wanted::Values(values)) = lookup(wanted, attr) {
                    let now = lookup(after, attr)->0;
                    assert forall|value: Seq<char>|
                        now.contains(value) <==> #[trigger] values.contains(value) by {
                        if now.contains(value) {
                            let k = choose|k: int| 0 <= k < now.len() && now[k] == value;
                            assert(values.contains(now[k]));
                        }
                        if values.contains(value) {
                            let k = choose|k: int| 0 <= k < values.len() && values[k] == value;
                            assert(now.contains(values[k]));
                        }
                    }
                    assert(equal_as_sets(now, values));
                }
            },
        }
    }
}

/// The names of the members of a group.
pub open spec fn names_of_members(members: Seq<Seq<char>>, base_dn: Seq<char>) -> Seq<Seq<char>> {
    if members.len() == 0 {
        seq!["uid=placeholder,ou=users,"@ + base_dn]
    } else {
        Seq::new(members.len(), |i: int| "uid="@ + members[i] + ",ou=users,"@ + base_dn)
    }
}

/// That an attribute of a group comes to be as it is wanted.
pub open spec fn group_attribute_as_wanted(
    cn: Seq<char>,
    group: GroupEntryView,
    base_dn: Seq<char>,
    sources: SourcesView,
    before: Option<Seq<(Seq<char>, Seq<Seq<char>>)>>,
    after: Seq<(Seq<char>, Seq<Seq<char>>)>,
    attr: Seq<char>,
) -> bool {
    let had = match before {
        Some(entries) => lookup(entries, attr),
        None => None,
    };
    let has = lookup(after, attr);
    if attr == "objectClass"@ {
        has is Some && equal_as_sets(has->0, seq!["groupOfNames"@])
    } else if attr == "cn"@ {
        has is Some && equal_as_sets(has->0, seq![cn])
    } else if attr == "member"@ {
        has is Some && equal_as_sets(has->0, names_of_members(group.members, base_dn))
    } else if attr == "description"@ {
        as_wanted(Some(resolved(group.description, sources)->Ok_0), had, has)
    } else {
        has == had
    }
}

/// That all attributes of a group come to be as they are wanted.
pub open spec fn group_as_wanted(
    cn: Seq<char>,
    group: GroupEntryView,
    base_dn: Seq<char>,
    sources: SourcesView,
    before: Option<Seq<(Seq<char>, Seq<Seq<char>>)>>,
    after: Seq<(Seq<char>, Seq<Seq<char>>)>,
) -> bool {
    forall|attr: Seq<char>| #[trigger]
        group_attribute_as_wanted(cn, group, base_dn, sources, before, after, attr)
}

/// That `dn` is the name of a desired user or group, which is there or not as told.
pub open spec fn names_desired(
    desired: LdapDesiredStateView,
    live: LdapLiveStateView,
    base_dn: Seq<char>,
    dn: Seq<char>,
    there: bool,
) -> bool {
    ||| exists|i: int|
        0 <= i < desired.users.len() && dn == "uid="@ + (#[trigger] desired.users[i]).0
            + ",ou=users,"@ + base_dn && has_key(live.users, desired.users[i].0) == there
    ||| exists|i: int|
        0 <= i < desired.groups.len() && dn == "cn="@ + (#[trigger] desired.groups[i]).0
            + ",ou=groups,"@ + base_dn && has_key(live.groups, desired.groups[i].0) == there
}

/// That what is shown of a modified entry names the modified attributes and the values that they
/// get.
pub open spec fn shows_new_values(fields: Seq<FieldDiffView>, mods: Seq<AttrModView>) -> bool {
    &&& fields.len() == mods.len()
    &&& forall|i: int|
        0 <= i < mods.len() ==> (#[trigger] fields[i]).field == mods[i].attr && fields[i].to == Some(
            joined(mods[i].values, "; "@),
        )
}

/// That a change shows an entry to add or to modify.
pub open spec fn is_accounted(
    change: ResourceChangeView,
    to_add: Seq<(Seq<char>, Seq<(Seq<char>, Seq<Seq<char>>)>)>,
    to_modify: Seq<(Seq<char>, Seq<AttrModView>)>,
) -> bool {
    match change {
        ResourceChangeView::Add { resource_id, fields } => exists|k: int|
            0 <= k < to_add.len() && (#[trigger] to_add[k]).0 == resource_id && shows_added(
                fields,
                to_add[k].1,
            ),
        ResourceChangeView::Modify { resource_id, field_changes } => exists|k: int|
            0 <= k < to_modify.len() && (#[trigger] to_modify[k]).0 == resource_id
                && shows_new_values(field_changes, to_modify[k].1),
        ResourceChangeView::Delete { resource_id } => false,
    }
}

/// That what was found is accounted for: one change for each entry to add or to modify, and all
/// of them desired.
spec fn accounted(
    found: FoundView,
    desired: LdapDesiredStateView,
    live: LdapLiveStateView,
    base_dn: Seq<char>,
) -> bool {
    &&& found.changes.len() == found.to_add.len() + found.to_modify.len()
    &&& forall|k: int|
        0 <= k < found.changes.len() ==> is_accounted(
            #[trigger] found.changes[k],
            found.to_add,
            found.to_modify,
        )
    &&& forall|k: int|
        0 <= k < found.to_add.len() ==> names_desired(
            desired,
            live,
            base_dn,
            (#[trigger] found.to_add[k]).0,
            false,
        )
    &&& forall|k: int|
        0 <= k < found.to_modify.len() ==> names_desired(
            desired,
            live,
            base_dn,
            (#[trigger] found.to_modify[k]).0,
            true,
        ) && found.to_modify[k].1.len() > 0
}

proof fn lemma_accounted_with(
    found: FoundView,
    desired: LdapDesiredStateView,
    state: LdapLiveStateView,
    base_dn: Seq<char>,
    dn: Seq<char>,
    new_attrs: Seq<(Seq<char>, Seq<Seq<char>>)>,
    wanted: Seq<(Seq<char>, Wanted)>,
    live: Option<Seq<(Seq<char>, Seq<Seq<char>>)>>,
)
    requires
        accounted(found, desired, state, base_dn),
        names_desired(desired, state, base_dn, dn, live is Some),
    ensures
        accounted(found_with(found, dn, new_attrs, wanted, live), desired, state, base_dn),
{
    let more = found_with(found, dn, new_attrs, wanted, live);
    lemma_found_with(found, dn, new_attrs, wanted, live);
    assert forall|k: int| 0 <= k < more.changes.len() implies is_accounted(
        #[trigger] more.changes[k],
        more.to_add,
        more.to_modify,
    ) by {
        if k < found.changes.len() {
            assert(found.changes[k] == more.changes[k]);
            match found.changes[k] {
                ResourceChangeView::Add { resource_id, fields } => {
                    let i = choose|i: int|
                        0 <= i < found.to_add.len() && (#[trigger] found.to_add[i]).0 == resource_id
                            && shows_added(fields, found.to_add[i].1);
                    assert(more.to_add[i] == found.to_add[i]);
                },
                ResourceChangeView::Modify { resource_id, field_changes } => {
                    let i = choose|i: int|
                        0 <= i < found.to_modify.len() && (#[trigger] found.to_modify[i]).0
                            == resource_id && shows_new_values(field_changes, found.to_modify[i].1);
                    assert(more.to_modify[i] == found.to_modify[i]);
                },
                ResourceChangeView::Delete { resource_id } => {},
            }
        } else {
            match live {
                None => {
                    assert(more.to_add[found.to_add.len() as int] == (dn, new_attrs));
                    let fields = more.changes[k]->Add_fields;
                    assert(shows_added(fields, new_attrs));
                },
                Some(there) => {
                    let mods = mods_of(wanted, there, wanted.len() as int);
                    assert(more.to_modify[found.to_modify.len() as int] == (dn, mods));
                    let fields = more.changes[k]->Modify_field_changes;
                    assert(shows_new_values(fields, mods));
                },
            }
        }
    }
    assert forall|k: int| 0 <= k < more.to_add.len() implies names_desired(
        desired,
        state,
        base_dn,
        (#[trigger] more.to_add[k]).0,
        false,
    ) by {
        if k < found.to_add.len() {
            assert(found.to_add[k] == more.to_add[k]);
        }
    }
    assert forall|k: int| 0 <= k < more.to_modify.len() implies names_desired(
        desired,
        state,
        base_dn,
        (#[trigger] more.to_modify[k]).0,
        true,
    ) && more.to_modify[k].1.len() > 0 by {
        if k < found.to_modify.len() {
            assert(found.to_modify[k] == more.to_modify[k]);
        }
    }
}

proof fn lemma_users_accounted(
    desired: LdapDesiredStateView,
    live: LdapLiveStateView,
    base_dn: Seq<char>,
    sources: SourcesView,
    n: int,
)
    requires
        0 <= n <= desired.users.len(),
        users_found(desired.users, live.users, base_dn, sources, n) is Ok,
    ensures
        accounted(
            users_found(desired.users, live.users, base_dn, sources, n)->Ok_0,
            desired,
            live,
            base_dn,
        ),
    decreases n,
{
    if n > 0 {
        lemma_users_accounted(desired, live, base_dn, sources, n - 1);
        let (uid, user) = desired.users[n - 1];
        let fields = user_fields(user);
        let attrs = fields_resolved(uid, fields, sources, fields.len() as int)->Ok_0;
        lemma_lookup(live.users, uid);
        assert(desired.users[n - 1].0 == uid);
        assert(names_desired(
            desired,
            live,
            base_dn,
            user_name(uid, base_dn),
            lookup(live.users, uid) is Some,
        ));
        lemma_accounted_with(
            users_found(desired.users, live.users, base_dn, sources, n - 1)->Ok_0,
            desired,
            live,
            base_dn,
            user_name(uid, base_dn),
            new_user_attrs(attrs, uid),
            field_wants(attrs),
            lookup(live.users, uid),
        );
    }
}

proof fn lemma_groups_accounted(
    among_users: FoundView,
    desired: LdapDesiredStateView,
    live: LdapLiveStateView,
    base_dn: Seq<char>,
    sources: SourcesView,
    n: int,
)
    requires
        0 <= n <= desired.groups.len(),
        accounted(among_users, desired, live, base_dn),
        groups_found(among_users, desired.groups, live.groups, base_dn, sources, n) is Ok,
    ensures
        accounted(
            groups_found(among_users, desired.groups, live.groups, base_dn, sources, n)->Ok_0,
            desired,
            live,
            base_dn,
        ),
    decreases n,
{
    if n > 0 {
        lemma_groups_accounted(among_users, desired, live, base_dn, sources, n - 1);
        let (cn, group) = desired.groups[n - 1];
        let description = resolved(group.description, sources)->Ok_0;
        let attrs = group_attrs(description, group.members, cn, base_dn);
        lemma_lookup(live.groups, cn);
        assert(desired.groups[n - 1].0 == cn);
        assert(names_desired(
            desired,
            live,
            base_dn,
            group_name(cn, base_dn),
            lookup(live.groups, cn) is Some,
        ));
        lemma_accounted_with(
            groups_found(among_users, desired.groups, live.groups, base_dn, sources, n - 1)->Ok_0,
            desired,
            live,
            base_dn,
            group_name(cn, base_dn),
            attrs,
            group_wants(attrs, description),
            lookup(live.groups, cn),
        );
    }
}

/// Only desired entries that are not there are added, and only desired entries that are there are
/// modified.
pub proof fn law_only_desired_entries_are_touched(
    desired: LdapDesiredStateView,
    live: LdapLiveStateView,
    base_dn: Seq<char>,
    patterns: Seq<IgnorePattern>,
    sources: SourcesView,
    diff: LdapDiffView,
    k: int,
)
    requires
        is_diff(desired, live, base_dn, patterns, sources, Ok::<LdapDiffView, ReconcileErrorView>(
            diff,
        )),
    ensures
        0 <= k < diff.to_add.len() ==> names_desired(
            desired,
            live,
            base_dn,
            diff.to_add[k].0,
            false,
        ),
        0 <= k < diff.to_modify.len() ==> names_desired(
            desired,
            live,
            base_dn,
            diff.to_modify[k].0,
            true,
        ) && diff.to_modify[k].1.len() > 0,
{
    let found = lemma_diff_accounted(desired, live, base_dn, patterns, sources, diff);
    if 0 <= k < diff.to_add.len() {
        let entry = diff.to_add[k];
        lemma_sorted_contains(
            found.to_add,
            add_depths(found.to_add),
            false,
            diff.to_add,
            entry,
        );
        let i = choose|i: int| 0 <= i < found.to_add.len() && found.to_add[i] == entry;
        assert(found.to_add[i].0 == entry.0);
    }
    if 0 <= k < diff.to_modify.len() {
        assert(found.to_modify[k] == diff.to_modify[k]);
    }
}

proof fn lemma_diff_accounted(
    desired: LdapDesiredStateView,
    live: LdapLiveStateView,
    base_dn: Seq<char>,
    patterns: Seq<IgnorePattern>,
    sources: SourcesView,
    diff: LdapDiffView,
) -> (found: FoundView)
    requires
        is_diff(desired, live, base_dn, patterns, sources, Ok::<LdapDiffView, ReconcileErrorView>(
            diff,
        )),
    ensures
        accounted(found, desired, live, base_dn),
        stably_sorted(found.to_add, add_depths(found.to_add), false, diff.to_add),
        found.to_modify == diff.to_modify,
        diff.resource_changes == found.changes + deletions(diff.to_delete),
{
    let users = desired.users.len() as int;
    let among_users = users_found(desired.users, live.users, base_dn, sources, users)->Ok_0;
    lemma_users_accounted(desired, live, base_dn, sources, users);
    lemma_groups_accounted(
        among_users,
        desired,
        live,
        base_dn,
        sources,
        desired.groups.len() as int,
    );
    entries_found(desired, live, base_dn, sources)->Ok_0
}

/// The changes show what is done and nothing else: there are as many as entries to add, to modify
/// and to delete, those of the deletions last and in the same order, and each of the others shows
/// an entry to add or to modify.
pub proof fn law_changes_show_what_is_done(
    desired: LdapDesiredStateView,
    live: LdapLiveStateView,
    base_dn: Seq<char>,
    patterns: Seq<IgnorePattern>,
    sources: SourcesView,
    diff: LdapDiffView,
    k: int,
)
    requires
        is_diff(desired, live, base_dn, patterns, sources, Ok::<LdapDiffView, ReconcileErrorView>(
            diff,
        )),
        0 <= k < diff.resource_changes.len(),
    ensures
        diff.resource_changes.len() == diff.to_add.len() + diff.to_modify.len()
            + diff.to_delete.len(),
        k < diff.to_add.len() + diff.to_modify.len() ==> is_accounted(
            diff.resource_changes[k],
            diff.to_add,
            diff.to_modify,
        ),
        k >= diff.to_add.len() + diff.to_modify.len() ==> diff.resource_changes[k]
            == (ResourceChangeView::Delete {
            resource_id: diff.to_delete[k - diff.to_add.len() - diff.to_modify.len()],
        }),
{
    let found = lemma_diff_accounted(desired, live, base_dn, patterns, sources, diff);
    lemma_sorted_contains(
        found.to_add,
        add_depths(found.to_add),
        false,
        diff.to_add,
        found.to_add[0],
    );
    if k < found.changes.len() {
        let change = found.changes[k];
        assert(is_accounted(change, found.to_add, found.to_modify));
        if let ResourceChangeView::Add { resource_id, fields } = change {
            let i = choose|i: int|
                0 <= i < found.to_add.len() && (#[trigger] found.to_add[i]).0 == resource_id
                    && shows_added(fields, found.to_add[i].1);
            lemma_sorted_contains(
                found.to_add,
                add_depths(found.to_add),
                false,
                diff.to_add,
                found.to_add[i],
            );
            let j = choose|j: int| 0 <= j < diff.to_add.len() && diff.to_add[j] == found.to_add[i];
            assert(diff.to_add[j].0 == resource_id);
        }
    }
}

/// A modification adds an attribute that is not there, and replaces one that is.
pub proof fn law_modifications_add_or_replace(
    wanted: Seq<(Seq<char>, Wanted)>,
    live: Seq<(Seq<char>, Seq<Seq<char>>)>,
    n: int,
    k: int,
)
    requires
        0 <= n <= wanted.len(),
        0 <= k < mods_of(wanted, live, n).len(),
    ensures
        has_key(wanted, mods_of(wanted, live, n)[k].attr),
        mods_of(wanted, live, n)[k].op == if has_key(live, mods_of(wanted, live, n)[k].attr) {
            AttrModOp::Replace
        } else {
            AttrModOp::Add
        },
    decreases n,
{
    let before = mods_of(wanted, live, n - 1);
    if k < before.len() {
        law_modifications_add_or_replace(wanted, live, n - 1, k);
    } else {
        assert(wanted[n - 1].0 == mods_of(wanted, live, n)[k].attr);
        lemma_lookup(live, wanted[n - 1].0);
    }
}

/// The comparison fails only where a field of a desired user or the description of a desired group
/// cannot be resolved, and with the error that tells it.
pub proof fn law_comparison_fails_only_for_a_field(
    desired: LdapDesiredStateView,
    live: LdapLiveStateView,
    base_dn: Seq<char>,
    patterns: Seq<IgnorePattern>,
    sources: SourcesView,
    error: ReconcileErrorView,
)
    requires
        is_diff(desired, live, base_dn, patterns, sources, Err::<LdapDiffView, ReconcileErrorView>(
            error,
        )),
    ensures
        (exists|i: int|
            0 <= i < desired.users.len() && fields_resolved(
                (#[trigger] desired.users[i]).0,
                user_fields(desired.users[i].1),
                sources,
                user_fields(desired.users[i].1).len() as int,
            ) == Err::<Seq<(Seq<char>, ResolvedFieldValueView)>, ReconcileErrorView>(error)) || (
        exists|i: int|
            0 <= i < desired.groups.len() && resolved(
                (#[trigger] desired.groups[i]).1.description,
                sources,
            ) is Err && error == (ReconcileErrorView::FieldResolution {
                entry: desired.groups[i].0,
                field: "description"@,
                source: resolved(desired.groups[i].1.description, sources)->Err_0,
            })),
{
    let users = desired.users.len() as int;
    if users_found(desired.users, live.users, base_dn, sources, users) is Err {
        let i = lemma_users_fault(desired.users, live.users, base_dn, sources, users, error);
        assert(desired.users[i].0 == desired.users[i].0);
    } else {
        let among_users = users_found(desired.users, live.users, base_dn, sources, users)->Ok_0;
        let i = lemma_groups_fault(
            among_users,
            desired.groups,
            live.groups,
            base_dn,
            sources,
            desired.groups.len() as int,
            error,
        );
        assert(resolved(desired.groups[i].1.description, sources) is Err);
    }
}

proof fn lemma_users_fault(
    users: Seq<(Seq<char>, UserEntryView)>,
    live: Seq<(Seq<char>, Seq<(Seq<char>, Seq<Seq<char>>)>)>,
    base_dn: Seq<char>,
    sources: SourcesView,
    n: int,
    error: ReconcileErrorView,
) -> (i: int)
    requires
        n <= users.len(),
        users_found(users, live, base_dn, sources, n) == Err::<FoundView, ReconcileErrorView>(
            error,
        ),
    ensures
        0 <= i < n,
        fields_resolved(
            users[i].0,
            user_fields(users[i].1),
            sources,
            user_fields(users[i].1).len() as int,
        ) == Err::<Seq<(Seq<char>, ResolvedFieldValueView)>, ReconcileErrorView>(error),
    decreases n,
{
    if users_found(users, live, base_dn, sources, n - 1) is Err {
        lemma_users_fault(users, live, base_dn, sources, n - 1, error)
    } else {
        n - 1
    }
}

proof fn lemma_groups_fault(
    among_users: FoundView,
    groups: Seq<(Seq<char>, GroupEntryView)>,
    live: Seq<(Seq<char>, Seq<(Seq<char>, Seq<Seq<char>>)>)>,
    base_dn: Seq<char>,
    sources: SourcesView,
    n: int,
    error: ReconcileErrorView,
) -> (i: int)
    requires
        n <= groups.len(),
        groups_found(among_users, groups, live, base_dn, sources, n) == Err::<
            FoundView,
            ReconcileErrorView,
        >(error),
    ensures
        0 <= i < n,
        resolved(groups[i].1.description, sources) is Err,
        error == (ReconcileErrorView::FieldResolution {
            entry: groups[i].0,
            field: "description"@,
            source: resolved(groups[i].1.description, sources)->Err_0,
        }),
    decreases n,
{
    if groups_found(among_users, groups, live, base_dn, sources, n - 1) is Err {
        lemma_groups_fault(among_users, groups, live, base_dn, sources, n - 1, error)
    } else {
        n - 1
    }
}

proof fn lemma_commas_concat(a: Seq<char>, b: Seq<char>)
    ensures
        commas(a + b) == commas(a) + commas(b),
    decreases b.len(),
{
    if b.len() > 0 {
        lemma_commas_concat(a, b.drop_last());
        assert((a + b).drop_last() =~= a + b.drop_last());
        assert((a + b).last() == b.last());
    } else {
        assert(a + b =~= a);
    }
}

/// An entry that stands under another has a greater depth.
proof fn lemma_child_is_deeper(rdn: Seq<char>, parent: Seq<char>)
    ensures
        commas(rdn + ","@ + parent) > commas(parent),
{
    reveal_strlit(",");
    lemma_commas_concat(rdn + ","@, parent);
    lemma_commas_concat(rdn, ","@);
    assert(","@.drop_last() =~= Seq::empty());
    assert(","@.last() == ',');
}

/// Children are deleted before their parents: where the name of one entry is that of another with
/// something before it, the former is deleted first.
pub proof fn law_children_are_deleted_before_parents(
    desired: LdapDesiredStateView,
    live: LdapLiveStateView,
    base_dn: Seq<char>,
    patterns: Seq<IgnorePattern>,
    sources: SourcesView,
    diff: LdapDiffView,
    rdn: Seq<char>,
    child: int,
    parent: int,
)
    requires
        is_diff(desired, live, base_dn, patterns, sources, Ok::<LdapDiffView, ReconcileErrorView>(
            diff,
        )),
        0 <= child < diff.to_delete.len(),
        0 <= parent < diff.to_delete.len(),
        diff.to_delete[child] == rdn + ","@ + diff.to_delete[parent],
        commas(diff.to_delete[child]) <= usize::MAX,
    ensures
        child < parent,
{
    let gone = doomed(desired, live, base_dn, patterns);
    lemma_child_is_deeper(rdn, diff.to_delete[parent]);
    if parent < child {
        law_deletes_deepest_first(gone, diff.to_delete, parent, child);
    }
}

/// Parents are added before their children: where the name of one entry is that of another with
/// something before it, the latter is added first.
pub proof fn law_parents_are_added_before_children(
    desired: LdapDesiredStateView,
    live: LdapLiveStateView,
    base_dn: Seq<char>,
    patterns: Seq<IgnorePattern>,
    sources: SourcesView,
    diff: LdapDiffView,
    rdn: Seq<char>,
    child: int,
    parent: int,
)
    requires
        is_diff(desired, live, base_dn, patterns, sources, Ok::<LdapDiffView, ReconcileErrorView>(
            diff,
        )),
        0 <= child < diff.to_add.len(),
        0 <= parent < diff.to_add.len(),
        diff.to_add[child].0 == rdn + ","@ + diff.to_add[parent].0,
        commas(diff.to_add[child].0) <= usize::MAX,
    ensures
        parent < child,
{
    let found = entries_found(desired, live, base_dn, sources)->Ok_0;
    lemma_child_is_deeper(rdn, diff.to_add[parent].0);
    if child < parent {
        law_adds_parents_first(found.to_add, diff.to_add, child, parent);
    }
}

} // verus!
