use nix_hapi::field_value::{FieldValue, ResolvedFieldValue};
use nix_hapi::ignore::{is_ignored, IgnorePattern};
use nix_hapi::ldap::{GroupEntry, LdapDesiredState, LdapLiveState, LiveEntry, UserEntry};
use nix_hapi::plan::{FieldDiff, ResourceChange};
use nix_hapi::reconcile::{
    diff, diff_attrs, group_dn, ou_groups_dn, ou_users_dn, resolve_user, user_dn, AttrMod,
    AttrModOp, LdapDiff,
};
use nix_hapi::sources::{Reading, Sources};
use nix_hapi::strmap::StrMap;

const BASE: &str = "dc=example,dc=org";

fn managed(value: &str) -> FieldValue {
    FieldValue::Managed { value: value.to_string() }
}

fn user(cn: &str) -> UserEntry {
    UserEntry {
        cn: managed(cn),
        mail: managed("mail@example.org"),
        user_password: FieldValue::Initial { value: "secret".to_string() },
        login_shell: None,
        description: Some(FieldValue::Unmanaged),
        extra_fields: StrMap::new(),
    }
}

fn group(description: FieldValue, members: &[&str]) -> GroupEntry {
    GroupEntry { description, members: members.iter().map(|m| m.to_string()).collect() }
}

fn map<V>(entries: Vec<(&str, V)>) -> StrMap<V> {
    StrMap::from_entries(entries.into_iter().map(|(k, v)| (k.to_string(), v)).collect())
}

fn texts(values: &[&str]) -> Vec<String> {
    values.iter().map(|v| v.to_string()).collect()
}

fn attrs(entries: Vec<(&str, &[&str])>) -> StrMap<Vec<String>> {
    map(entries.into_iter().map(|(k, v)| (k, texts(v))).collect())
}

fn live(entries: Vec<(&str, &[&str])>) -> LiveEntry {
    LiveEntry { attrs: attrs(entries) }
}

fn modification(attr: &str, op: AttrModOp, value: &str) -> AttrMod {
    AttrMod { attr: attr.to_string(), op, values: texts(&[value]) }
}

fn difference(
    users: Vec<(&str, UserEntry)>,
    groups: Vec<(&str, GroupEntry)>,
    live_users: Vec<(&str, LiveEntry)>,
    live_groups: Vec<(&str, LiveEntry)>,
    ignore: &[&str],
) -> LdapDiff {
    let patterns = ignore.iter().map(|p| IgnorePattern::new(p).expect("a pattern")).collect();
    diff(
        &LdapDesiredState { users: map(users), groups: map(groups) },
        &LdapLiveState { users: map(live_users), groups: map(live_groups) },
        BASE,
        &patterns,
        &Sources::new(),
    )
    .expect("a difference")
}

#[test]
fn names_of_entries() {
    assert_eq!(user_dn("alice", BASE), "uid=alice,ou=users,dc=example,dc=org");
    assert_eq!(group_dn("staff", BASE), "cn=staff,ou=groups,dc=example,dc=org");
    assert_eq!(ou_users_dn(BASE), "ou=users,dc=example,dc=org");
    assert_eq!(ou_groups_dn(BASE), "ou=groups,dc=example,dc=org");
}

#[test]
fn a_user_that_is_not_there_is_added() {
    let found = difference(vec![("alice", user("Alice"))], vec![], vec![], vec![], &[]);
    let expected = attrs(vec![
        ("cn", &["Alice"]),
        ("mail", &["mail@example.org"]),
        ("userPassword", &["secret"]),
        ("objectClass", &["inetOrgPerson", "organizationalPerson", "person"]),
        ("uid", &["alice"]),
    ]);
    assert_eq!(found.to_add, vec![(user_dn("alice", BASE), expected)]);
    assert!(found.to_modify.is_empty());
    assert!(found.to_delete.is_empty());
    let ResourceChange::Add { resource_id, fields } = &found.resource_changes[0] else {
        panic!("expected an addition");
    };
    assert_eq!(resource_id, "uid=alice,ou=users,dc=example,dc=org");
    assert_eq!(
        fields[2],
        FieldDiff {
            field: "objectClass".to_string(),
            from: None,
            to: Some("inetOrgPerson; organizationalPerson; person".to_string()),
        }
    );
    assert_eq!(fields.len(), 5);
}

#[test]
fn object_classes_of_a_user_may_be_given() {
    let mut entry = user("Alice");
    entry.extra_fields = map(vec![("objectClass", managed("account"))]);
    let found = difference(vec![("alice", entry)], vec![], vec![], vec![], &[]);
    assert_eq!(found.to_add[0].1.get("objectClass"), Some(&texts(&["account"])));
}

#[test]
fn a_user_that_differs_is_modified() {
    let there = live(vec![
        ("cn", &["Alicia"]),
        ("mail", &["mail@example.org"]),
        ("userPassword", &["other"]),
        ("description", &["kept"]),
    ]);
    let found =
        difference(vec![("alice", user("Alice"))], vec![], vec![("alice", there)], vec![], &[]);
    assert_eq!(
        found.to_modify,
        vec![(user_dn("alice", BASE), vec![modification("cn", AttrModOp::Replace, "Alice")])]
    );
    assert_eq!(
        found.resource_changes,
        vec![ResourceChange::Modify {
            resource_id: user_dn("alice", BASE),
            field_changes: vec![FieldDiff {
                field: "cn".to_string(),
                from: Some("Alicia".to_string()),
                to: Some("Alice".to_string()),
            }],
        }]
    );
}

#[test]
fn a_user_in_line_is_left_alone() {
    let there = live(vec![
        ("cn", &["Alice"]),
        ("mail", &["mail@example.org"]),
        ("userPassword", &["other"]),
    ]);
    let found =
        difference(vec![("alice", user("Alice"))], vec![], vec![("alice", there)], vec![], &[]);
    assert!(found.resource_changes.is_empty());
    assert!(found.to_modify.is_empty());
}

#[test]
fn a_group_without_members_gets_a_placeholder() {
    let found = difference(vec![], vec![("staff", group(managed("All"), &[]))], vec![], vec![], &[]);
    assert_eq!(
        found.to_add,
        vec![(
            group_dn("staff", BASE),
            attrs(vec![
                ("cn", &["staff"]),
                ("description", &["All"]),
                ("member", &["uid=placeholder,ou=users,dc=example,dc=org"]),
                ("objectClass", &["groupOfNames"]),
            ])
        )]
    );
}

#[test]
fn members_of_a_group_are_named() {
    let entry = group(FieldValue::Unmanaged, &["bob", "alice"]);
    let found = difference(vec![], vec![("staff", entry)], vec![], vec![], &[]);
    assert_eq!(
        found.to_add[0].1,
        attrs(vec![
            ("cn", &["staff"]),
            (
                "member",
                &[
                    "uid=bob,ou=users,dc=example,dc=org",
                    "uid=alice,ou=users,dc=example,dc=org",
                ]
            ),
            ("objectClass", &["groupOfNames"]),
        ])
    );
}

#[test]
fn a_group_that_differs_is_modified() {
    let there = live(vec![
        ("cn", &["staff"]),
        ("member", &["uid=bob,ou=users,dc=example,dc=org"]),
        ("objectClass", &["groupOfNames"]),
    ]);
    let entry = group(managed("All"), &["bob"]);
    let found =
        difference(vec![], vec![("staff", entry)], vec![], vec![("staff", there)], &[]);
    assert_eq!(
        found.to_modify,
        vec![(
            group_dn("staff", BASE),
            vec![modification("description", AttrModOp::Add, "All")]
        )]
    );
    assert_eq!(
        found.resource_changes,
        vec![ResourceChange::Modify {
            resource_id: group_dn("staff", BASE),
            field_changes: vec![FieldDiff {
                field: "description".to_string(),
                from: None,
                to: Some("All".to_string()),
            }],
        }]
    );
}

#[test]
fn what_is_not_desired_is_deleted_unless_ignored() {
    let found = difference(
        vec![],
        vec![],
        vec![("alice", live(vec![])), ("admin", live(vec![]))],
        vec![("staff", live(vec![]))],
        &["^uid=admin,"],
    );
    assert_eq!(found.to_delete, vec![user_dn("alice", BASE), group_dn("staff", BASE)]);
    assert_eq!(
        found.resource_changes,
        vec![
            ResourceChange::Delete { resource_id: user_dn("alice", BASE) },
            ResourceChange::Delete { resource_id: group_dn("staff", BASE) },
        ]
    );
}

#[test]
fn deletions_go_deepest_first_and_additions_parents_first() {
    let found = difference(
        vec![("a,x=y", user("A")), ("b", user("B"))],
        vec![],
        vec![("c", live(vec![])), ("d,x=y", live(vec![]))],
        vec![],
        &[],
    );
    assert_eq!(found.to_delete, vec![user_dn("d,x=y", BASE), user_dn("c", BASE)]);
    let added: Vec<&str> = found.to_add.iter().map(|(dn, _)| dn.as_str()).collect();
    assert_eq!(added, vec![user_dn("b", BASE), user_dn("a,x=y", BASE)]);
    assert_eq!(found.resource_changes[0].resource_id(), user_dn("a,x=y", BASE));
}

#[test]
fn a_field_that_does_not_resolve_is_named() {
    let mut entry = user("Alice");
    entry.login_shell = Some(FieldValue::ManagedFromPath { path: "/shell".to_string() });
    let sources = Sources::new().with_file("/shell", Reading::Failure("gone".to_string()));
    let error = resolve_user("alice", &entry, &sources).unwrap_err();
    assert_eq!(
        error.message(),
        "Failed to resolve field \"loginShell\" for \"alice\": \
         Failed to read field value from path \"/shell\": gone"
    );
    let whole = diff(
        &LdapDesiredState { users: map(vec![("alice", entry)]), groups: StrMap::new() },
        &LdapLiveState { users: StrMap::new(), groups: StrMap::new() },
        BASE,
        &vec![],
        &sources,
    );
    assert_eq!(whole.unwrap_err(), error);
}

#[test]
fn a_user_resolves_to_attributes() {
    let mut entry = user("Alice");
    entry.login_shell = Some(managed("/bin/sh"));
    entry.extra_fields = map(vec![("cn", managed("Extra")), ("sn", managed("Smith"))]);
    let resolved = resolve_user("alice", &entry, &Sources::new()).unwrap();
    assert_eq!(
        resolved.keys(),
        vec!["cn", "description", "loginShell", "mail", "sn", "userPassword"]
    );
    assert_eq!(resolved.get("cn"), Some(&ResolvedFieldValue::Managed("Extra".to_string())));
    assert_eq!(resolved.get("description"), Some(&ResolvedFieldValue::Unmanaged));
}

fn wanted() -> StrMap<ResolvedFieldValue> {
    map(vec![
        ("initial", ResolvedFieldValue::Initial("i".to_string())),
        ("managed", ResolvedFieldValue::Managed("m".to_string())),
        ("unmanaged", ResolvedFieldValue::Unmanaged),
    ])
}

#[test]
fn attributes_that_are_missing_are_added() {
    assert_eq!(
        diff_attrs(&wanted(), &attrs(vec![("unmanaged", &["u"])])),
        vec![
            modification("initial", AttrModOp::Add, "i"),
            modification("managed", AttrModOp::Add, "m"),
        ]
    );
}

#[test]
fn attributes_are_compared_as_sets() {
    let there = attrs(vec![("initial", &["x"]), ("managed", &["m", "m"])]);
    assert!(diff_attrs(&wanted(), &there).is_empty());
    let there = attrs(vec![("initial", &["x"]), ("managed", &["m", "n"])]);
    assert_eq!(
        diff_attrs(&wanted(), &there),
        vec![modification("managed", AttrModOp::Replace, "m")]
    );
    let there = attrs(vec![("initial", &["x"]), ("managed", &[])]);
    assert_eq!(
        diff_attrs(&wanted(), &there),
        vec![modification("managed", AttrModOp::Replace, "m")]
    );
}

#[test]
fn modifications_once_made_leave_nothing_to_modify() {
    let there = attrs(vec![("managed", &["other"])]);
    let mut after = attrs(vec![("managed", &["other"])]);
    for made in diff_attrs(&wanted(), &there) {
        after = after.put(made.attr, made.values);
    }
    assert!(diff_attrs(&wanted(), &after).is_empty());
}

#[test]
fn patterns_match_anywhere_in_a_name() {
    let pattern = IgnorePattern::new("ou=(users|groups)").expect("a pattern");
    assert!(pattern.matches("uid=a,ou=users,dc=x"));
    assert!(!pattern.matches("uid=a,ou=others,dc=x"));
    let patterns = vec![IgnorePattern::new("^b").expect("a pattern"), pattern];
    assert!(is_ignored("cn=a,ou=groups", &patterns));
    assert!(is_ignored("b", &patterns));
    assert!(!is_ignored("ab", &patterns));
    assert!(!is_ignored("b", &vec![]));
}

#[test]
fn a_malformed_pattern_is_refused() {
    let message = IgnorePattern::new("(").unwrap_err();
    assert!(message.contains("unclosed group"), "{message}");
}

#[test]
fn a_reconciled_state_is_stable() {
    let users = || vec![("alice", user("Alice")), ("bob", user("Bob"))];
    let groups = || vec![("staff", group(managed("All"), &["bob"]))];
    let bob = || live(vec![("cn", &["Robert"]), ("sn", &["kept"])]);
    let found = difference(users(), groups(), vec![("bob", bob()), ("eve", live(vec![]))], vec![], &[]);
    assert_eq!(found.to_delete, vec![user_dn("eve", BASE)]);

    let added = |dn: String| {
        let (_, new) = found.to_add.iter().find(|(name, _)| *name == dn).expect("an addition");
        let entries = new.entries().iter().map(|(k, v)| (k.clone(), v.clone())).collect();
        LiveEntry { attrs: StrMap::from_entries(entries) }
    };
    let mut bob_after = bob().attrs;
    let (_, mods) = &found.to_modify[0];
    for made in mods {
        bob_after = bob_after.put(made.attr.clone(), made.values.clone());
    }
    let again = difference(
        users(),
        groups(),
        vec![("alice", added(user_dn("alice", BASE))), ("bob", LiveEntry { attrs: bob_after })],
        vec![("staff", added(group_dn("staff", BASE)))],
        &[],
    );
    assert!(again.resource_changes.is_empty());
    assert!(again.to_add.is_empty() && again.to_modify.is_empty() && again.to_delete.is_empty());
}

const TWO: [&str; 2] =
    ["uid=a,ou=users,dc=example,dc=org", "uid=b,ou=users,dc=example,dc=org"];

#[test]
fn a_group_with_several_members_in_line_is_left_alone() {
    for members in [[TWO[0], TWO[1]], [TWO[1], TWO[0]]] {
        let there = live(vec![
            ("objectClass", &["groupOfNames"]),
            ("cn", &["g"]),
            ("description", &["d"]),
            ("member", &members),
        ]);
        let entry = group(managed("d"), &["a", "b"]);
        let found = difference(vec![], vec![("g", entry)], vec![], vec![("g", there)], &[]);
        assert!(found.resource_changes.is_empty());
        assert!(found.to_add.is_empty());
        assert!(found.to_modify.is_empty());
        assert!(found.to_delete.is_empty());
    }
}

#[test]
fn members_of_a_group_are_replaced_as_a_whole() {
    let there = live(vec![
        ("objectClass", &["groupOfNames"]),
        ("cn", &["g"]),
        ("member", &[TWO[0]]),
    ]);
    let entry = group(FieldValue::Unmanaged, &["a", "b"]);
    let found = difference(vec![], vec![("g", entry)], vec![], vec![("g", there)], &[]);
    let replaced = AttrMod {
        attr: "member".to_string(),
        op: AttrModOp::Replace,
        values: texts(&TWO),
    };
    assert_eq!(found.to_modify, vec![(group_dn("g", BASE), vec![replaced])]);
    assert_eq!(
        found.resource_changes,
        vec![ResourceChange::Modify {
            resource_id: group_dn("g", BASE),
            field_changes: vec![FieldDiff {
                field: "member".to_string(),
                from: Some(TWO[0].to_string()),
                to: Some(TWO.join("; ")),
            }],
        }]
    );
}

#[test]
fn an_initial_description_of_a_group_is_set_once() {
    let entry = || {
        group(FieldValue::Initial { value: "new".to_string() }, &[])
    };
    let placeholder = "uid=placeholder,ou=users,dc=example,dc=org";
    let there = live(vec![
        ("objectClass", &["groupOfNames"]),
        ("cn", &["g"]),
        ("description", &["old"]),
        ("member", &[placeholder]),
    ]);
    let found = difference(vec![], vec![("g", entry())], vec![], vec![("g", there)], &[]);
    assert!(found.resource_changes.is_empty());
    assert!(found.to_add.is_empty() && found.to_modify.is_empty() && found.to_delete.is_empty());
    let without = live(vec![
        ("objectClass", &["groupOfNames"]),
        ("cn", &["g"]),
        ("member", &[placeholder]),
    ]);
    let found = difference(vec![], vec![("g", entry())], vec![], vec![("g", without)], &[]);
    assert_eq!(
        found.to_modify,
        vec![(group_dn("g", BASE), vec![modification("description", AttrModOp::Add, "new")])]
    );
}

#[test]
fn a_group_with_several_members_that_was_added_is_stable() {
    let groups = || vec![("g", group(managed("d"), &["a", "b"]))];
    let found = difference(vec![], groups(), vec![], vec![], &[]);
    let entries = found.to_add[0].1.entries().iter().map(|(k, v)| (k.clone(), v.clone())).collect();
    let added = LiveEntry { attrs: StrMap::from_entries(entries) };
    let again = difference(vec![], groups(), vec![], vec![("g", added)], &[]);
    assert!(again.resource_changes.is_empty());
}

#[test]
fn more_patterns_only_spare_entries() {
    let there = || {
        vec![
            ("a", live(vec![])),
            ("b,x=y", live(vec![])),
            ("c", live(vec![])),
            ("d,x=y", live(vec![])),
        ]
    };
    let users = || vec![("new", user("New"))];
    let few = difference(users(), vec![], there(), vec![], &["^uid=a,"]);
    assert_eq!(
        few.to_delete,
        vec![user_dn("b,x=y", BASE), user_dn("d,x=y", BASE), user_dn("c", BASE)]
    );
    let more = difference(users(), vec![], there(), vec![], &["^uid=a,", "^uid=d,"]);
    assert_eq!(more.to_delete, vec![user_dn("b,x=y", BASE), user_dn("c", BASE)]);
    assert_eq!(more.to_add, few.to_add);
    assert_eq!(more.to_modify, few.to_modify);
}
