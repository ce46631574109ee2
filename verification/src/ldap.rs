//! Desired and live state of an LDAP directory.

use crate::field_value::{FieldValue, FieldValueView};
use crate::strmap::{entry_views, list_views, StrMap};
use crate::views::{option_view, views};
use vstd::prelude::*;

verus! {

/// A user as desired.
#[derive(Debug, PartialEq)]
pub struct UserEntry {
    pub cn: FieldValue,
    pub mail: FieldValue,
    pub user_password: FieldValue,
    pub login_shell: Option<FieldValue>,
    pub description: Option<FieldValue>,
    /// Further attributes by name.
    pub extra_fields: StrMap<FieldValue>,
}

/// What a [`UserEntry`] stands for.
pub struct UserEntryView {
    pub cn: FieldValueView,
    pub mail: FieldValueView,
    pub user_password: FieldValueView,
    pub login_shell: Option<FieldValueView>,
    pub description: Option<FieldValueView>,
    pub extra_fields: Seq<(Seq<char>, FieldValueView)>,
}

impl View for UserEntry {
    type V = UserEntryView;

    open spec fn view(&self) -> UserEntryView {
        UserEntryView {
            cn: self.cn@,
            mail: self.mail@,
            user_password: self.user_password@,
            login_shell: option_view(self.login_shell),
            description: option_view(self.description),
            extra_fields: entry_views(self.extra_fields@),
        }
    }
}

/// A group as desired.
#[derive(Debug, PartialEq)]
pub struct GroupEntry {
    pub description: FieldValue,
    /// The user identifiers of the members.
    pub members: Vec<String>,
}

/// What a [`GroupEntry`] stands for.
pub struct GroupEntryView {
    pub description: FieldValueView,
    pub members: Seq<Seq<char>>,
}

impl View for GroupEntry {
    type V = GroupEntryView;

    open spec fn view(&self) -> GroupEntryView {
        GroupEntryView { description: self.description@, members: views(self.members@) }
    }
}

/// The users by identifier and the groups by name, as desired.
#[derive(Debug, PartialEq)]
pub struct LdapDesiredState {
    pub users: StrMap<UserEntry>,
    pub groups: StrMap<GroupEntry>,
}

/// What an [`LdapDesiredState`] stands for.
pub struct LdapDesiredStateView {
    pub users: Seq<(Seq<char>, UserEntryView)>,
    pub groups: Seq<(Seq<char>, GroupEntryView)>,
}

impl View for LdapDesiredState {
    type V = LdapDesiredStateView;

    open spec fn view(&self) -> LdapDesiredStateView {
        LdapDesiredStateView {
            users: entry_views(self.users@),
            groups: entry_views(self.groups@),
        }
    }
}

/// The attributes of a live entry: their values by name.
#[derive(Debug, PartialEq)]
pub struct LiveEntry {
    pub attrs: StrMap<Vec<String>>,
}

impl View for LiveEntry {
    type V = Seq<(Seq<char>, Seq<Seq<char>>)>;

    open spec fn view(&self) -> Seq<(Seq<char>, Seq<Seq<char>>)> {
        list_views(self.attrs@)
    }
}

/// The users by identifier and the groups by name, as they are.
#[derive(Debug, PartialEq)]
pub struct LdapLiveState {
    pub users: StrMap<LiveEntry>,
    pub groups: StrMap<LiveEntry>,
}

/// What an [`LdapLiveState`] stands for.
pub struct LdapLiveStateView {
    pub users: Seq<(Seq<char>, Seq<(Seq<char>, Seq<Seq<char>>)>)>,
    pub groups: Seq<(Seq<char>, Seq<(Seq<char>, Seq<Seq<char>>)>)>,
}

impl View for LdapLiveState {
    type V = LdapLiveStateView;

    open spec fn view(&self) -> LdapLiveStateView {
        LdapLiveStateView {
            users: entry_views(self.users@),
            groups: entry_views(self.groups@),
        }
    }
}

} // verus!
