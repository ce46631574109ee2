//! Field values: how a field is managed and where its value comes from.

use crate::json::{
    get_tag, get_tagged_text, lemma_array_view, lemma_tagged, tag_of, tagged, tagged_object,
    tagged_text, Json, JsonView, Number, NumberView,
};
use crate::sources::{reading_of, Reading, ReadingView, Sources, SourcesView};
use crate::strmap::{lemma_lookup_put, put};
use crate::text::{quote, quoted, text_eq, trim, trimmed};
use crate::views::{option_view, result_view};
use vstd::prelude::*;

verus! {

/// Why a field value could not be had.
#[derive(Debug, PartialEq)]
pub enum FieldValueError {
    PathRead { path: String, source: String },
    EnvRead { env: String, source: String },
}

/// What a [`FieldValueError`] stands for.
pub enum FieldValueErrorView {
    PathRead { path: Seq<char>, source: Seq<char> },
    EnvRead { env: Seq<char>, source: Seq<char> },
}

impl View for FieldValueError {
    type V = FieldValueErrorView;

    open spec fn view(&self) -> FieldValueErrorView {
        match self {
            FieldValueError::PathRead { path, source } => FieldValueErrorView::PathRead {
                path: path@,
                source: source@,
            },
            FieldValueError::EnvRead { env, source } => FieldValueErrorView::EnvRead {
                env: env@,
                source: source@,
            },
        }
    }
}

impl FieldValueErrorView {
    /// The message of this error.
    pub open spec fn message(self) -> Seq<char> {
        match self {
            FieldValueErrorView::PathRead { path, source } =>
                "Failed to read field value from path "@ + quoted(path) + ": "@ + source,
            FieldValueErrorView::EnvRead { env, source } =>
                "Failed to read field value from environment variable "@ + quoted(env) + ": "@
                + source,
        }
    }
}

impl FieldValueError {
    /// The message of this error.
    pub fn message(&self) -> (message: String)
        ensures
            message@ == self@.message(),
    {
        match self {
            FieldValueError::PathRead { path, source } => {
                "Failed to read field value from path ".to_owned().concat(
                    quote(path.as_str()).as_str(),
                ).concat(": ").concat(source.as_str())
            }
            FieldValueError::EnvRead { env, source } => {
                "Failed to read field value from environment variable ".to_owned().concat(
                    quote(env.as_str()).as_str(),
                ).concat(": ").concat(source.as_str())
            }
        }
    }
}

/// How a field value is managed and where its value comes from.
#[derive(Debug, PartialEq, Eq)]
pub enum FieldValue {
    /// Always enforce this exact value on every reconciliation.
    Managed { value: String },
    /// Set once if absent; leave alone once set.
    Initial { value: String },
    /// Never touch this field.  Documents intentional non-ownership.
    Unmanaged,
    /// Read the value from a file on every reconciliation, always enforce.
    ManagedFromPath { path: String },
    /// Read the value from a file; set once if absent.
    InitialFromPath { path: String },
    /// Read the value from an environment variable on every reconciliation, always enforce.
    ManagedFromEnv { env: String },
    /// Read the value from an environment variable; set once if absent.
    InitialFromEnv { env: String },
}

/// What a [`FieldValue`] stands for.
pub enum FieldValueView {
    Managed { value: Seq<char> },
    Initial { value: Seq<char> },
    Unmanaged,
    ManagedFromPath { path: Seq<char> },
    InitialFromPath { path: Seq<char> },
    ManagedFromEnv { env: Seq<char> },
    InitialFromEnv { env: Seq<char> },
}

impl View for FieldValue {
    type V = FieldValueView;

    open spec fn view(&self) -> FieldValueView {
        match self {
            FieldValue::Managed { value } => FieldValueView::Managed { value: value@ },
            FieldValue::Initial { value } => FieldValueView::Initial { value: value@ },
            FieldValue::Unmanaged => FieldValueView::Unmanaged,
            FieldValue::ManagedFromPath { path } => FieldValueView::ManagedFromPath {
                path: path@,
            },
            FieldValue::InitialFromPath { path } => FieldValueView::InitialFromPath {
                path: path@,
            },
            FieldValue::ManagedFromEnv { env } => FieldValueView::ManagedFromEnv { env: env@ },
            FieldValue::InitialFromEnv { env } => FieldValueView::InitialFromEnv { env: env@ },
        }
    }
}

/// A field value with all sources resolved to concrete strings.
#[derive(Debug, PartialEq, Eq)]
pub enum ResolvedFieldValue {
    Managed(String),
    Initial(String),
    Unmanaged,
}

/// What a [`ResolvedFieldValue`] stands for.
pub enum ResolvedFieldValueView {
    Managed(Seq<char>),
    Initial(Seq<char>),
    Unmanaged,
}

impl View for ResolvedFieldValue {
    type V = ResolvedFieldValueView;

    open spec fn view(&self) -> ResolvedFieldValueView {
        match self {
            ResolvedFieldValue::Managed(value) => ResolvedFieldValueView::Managed(value@),
            ResolvedFieldValue::Initial(value) => ResolvedFieldValueView::Initial(value@),
            ResolvedFieldValue::Unmanaged => ResolvedFieldValueView::Unmanaged,
        }
    }
}

/// The trimmed text of the file at `path`.
pub open spec fn path_text(path: Seq<char>, sources: SourcesView) -> Result<
    Seq<char>,
    FieldValueErrorView,
> {
    match reading_of(sources.files, path) {
        ReadingView::Text(text) => Ok(trimmed(text)),
        ReadingView::Failure(source) => Err(FieldValueErrorView::PathRead { path, source }),
    }
}

/// The text of the variable `env`, as it stands.
pub open spec fn env_text(env: Seq<char>, sources: SourcesView) -> Result<
    Seq<char>,
    FieldValueErrorView,
> {
    match reading_of(sources.variables, env) {
        ReadingView::Text(text) => Ok(text),
        ReadingView::Failure(source) => Err(FieldValueErrorView::EnvRead { env, source }),
    }
}

/// A managed value with the given text, or the error for want of it.
pub open spec fn as_managed(text: Result<Seq<char>, FieldValueErrorView>) -> Result<
    ResolvedFieldValueView,
    FieldValueErrorView,
> {
    match text {
        Ok(value) => Ok(ResolvedFieldValueView::Managed(value)),
        Err(error) => Err(error),
    }
}

/// An initial value with the given text, or the error for want of it.
pub open spec fn as_initial(text: Result<Seq<char>, FieldValueErrorView>) -> Result<
    ResolvedFieldValueView,
    FieldValueErrorView,
> {
    match text {
        Ok(value) => Ok(ResolvedFieldValueView::Initial(value)),
        Err(error) => Err(error),
    }
}

/// What a field value resolves to.
pub open spec fn resolved(field: FieldValueView, sources: SourcesView) -> Result<
    ResolvedFieldValueView,
    FieldValueErrorView,
> {
    match field {
        FieldValueView::Managed { value } => Ok(ResolvedFieldValueView::Managed(value)),
        FieldValueView::Initial { value } => Ok(ResolvedFieldValueView::Initial(value)),
        FieldValueView::Unmanaged => Ok(ResolvedFieldValueView::Unmanaged),
        FieldValueView::ManagedFromPath { path } => as_managed(path_text(path, sources)),
        FieldValueView::InitialFromPath { path } => as_initial(path_text(path, sources)),
        FieldValueView::ManagedFromEnv { env } => as_managed(env_text(env, sources)),
        FieldValueView::InitialFromEnv { env } => as_initial(env_text(env, sources)),
    }
}

fn read_path(path: &String, sources: &Sources) -> (text: Result<String, FieldValueError>)
    ensures
        result_view(text) == path_text(path@, sources@),
{
    match sources.file(path.as_str()) {
        Reading::Text(text) => Ok(trim(text.as_str())),
        Reading::Failure(source) => Err(FieldValueError::PathRead { path: path.clone(), source }),
    }
}

fn read_env(env: &String, sources: &Sources) -> (text: Result<String, FieldValueError>)
    ensures
        result_view(text) == env_text(env@, sources@),
{
    match sources.variable(env.as_str()) {
        Reading::Text(text) => Ok(text),
        Reading::Failure(source) => Err(FieldValueError::EnvRead { env: env.clone(), source }),
    }
}

/// The tag of a field value: a string, or the number of the variant.
pub open spec fn field_tag(tag: Option<JsonView>) -> Option<Seq<char>> {
    match tag {
        Some(JsonView::String(tag)) => Some(tag),
        Some(JsonView::Number(NumberView::PosInt(0))) => Some("managed"@),
        Some(JsonView::Number(NumberView::PosInt(1))) => Some("initial"@),
        Some(JsonView::Number(NumberView::PosInt(2))) => Some("unmanaged"@),
        Some(JsonView::Number(NumberView::PosInt(3))) => Some("managed-from-path"@),
        Some(JsonView::Number(NumberView::PosInt(4))) => Some("initial-from-path"@),
        Some(JsonView::Number(NumberView::PosInt(5))) => Some("managed-from-env"@),
        Some(JsonView::Number(NumberView::PosInt(6))) => Some("initial-from-env"@),
        _ => None,
    }
}

/// The tag of a field value.
fn read_field_tag(tag: Option<&Json>) -> (text: Option<&str>)
    ensures
        option_view(text) == field_tag(
            match tag {
                Some(tag) => Some(tag@),
                None => None,
            },
        ),
{
    match tag {
        Some(Json::String(tag)) => Some(tag.as_str()),
        Some(Json::Number(Number::PosInt(0))) => Some("managed"),
        Some(Json::Number(Number::PosInt(1))) => Some("initial"),
        Some(Json::Number(Number::PosInt(2))) => Some("unmanaged"),
        Some(Json::Number(Number::PosInt(3))) => Some("managed-from-path"),
        Some(Json::Number(Number::PosInt(4))) => Some("initial-from-path"),
        Some(Json::Number(Number::PosInt(5))) => Some("managed-from-env"),
        Some(Json::Number(Number::PosInt(6))) => Some("initial-from-env"),
        _ => None,
    }
}

/// The text of a field value under its tag.
pub open spec fn field_text(value: JsonView, key: Seq<char>) -> Result<Seq<char>, Seq<char>> {
    match tagged_text(value, key) {
        Some(text) => Ok(text),
        None => Err("missing field "@ + quoted(key)),
    }
}

/// The text of a field value under its tag.
fn read_field_text(value: &Json, key: &str) -> (text: Result<String, String>)
    ensures
        result_view(text) == field_text(value@, key@),
{
    match get_tagged_text(value, key) {
        Some(text) => Ok(text),
        None => Err("missing field ".to_owned().concat(quote(key).as_str())),
    }
}

/// Whether nothing follows the tag of a list.
pub open spec fn tag_alone(value: JsonView) -> bool {
    value matches JsonView::Array(items) ==> items.len() == 1
}

/// The field value that a JSON value is read as: an object or a list, told by its tag.
pub open spec fn field_value_from(value: JsonView) -> Result<FieldValueView, Seq<char>> {
    match field_tag(tag_of(value)) {
        None => Err("expected a field value"@),
        Some(tag) =>
        if tag == "managed"@ {
            match field_text(value, "value"@) {
                Ok(value) => Ok(FieldValueView::Managed { value }),
                Err(message) => Err(message),
            }
        } else if tag == "initial"@ {
            match field_text(value, "value"@) {
                Ok(value) => Ok(FieldValueView::Initial { value }),
                Err(message) => Err(message),
            }
        } else if tag == "managed-from-path"@ {
            match field_text(value, "path"@) {
                Ok(path) => Ok(FieldValueView::ManagedFromPath { path }),
                Err(message) => Err(message),
            }
        } else if tag == "initial-from-path"@ {
            match field_text(value, "path"@) {
                Ok(path) => Ok(FieldValueView::InitialFromPath { path }),
                Err(message) => Err(message),
            }
        } else if tag == "managed-from-env"@ {
            match field_text(value, "env"@) {
                Ok(env) => Ok(FieldValueView::ManagedFromEnv { env }),
                Err(message) => Err(message),
            }
        } else if tag == "initial-from-env"@ {
            match field_text(value, "env"@) {
                Ok(env) => Ok(FieldValueView::InitialFromEnv { env }),
                Err(message) => Err(message),
            }
        } else if tag == "unmanaged"@ {
            if tag_alone(value) {
                Ok(FieldValueView::Unmanaged)
            } else {
                Err("expected nothing after the tag"@)
            }
        } else {
            Err("unknown field value "@ + quoted(tag))
        },
    }
}

/// The JSON value that a field value is written as.
pub open spec fn field_value_json(field: FieldValueView) -> JsonView {
    match field {
        FieldValueView::Managed { value } => tagged("managed"@, "value"@, value),
        FieldValueView::Initial { value } => tagged("initial"@, "value"@, value),
        FieldValueView::ManagedFromPath { path } => tagged("managed-from-path"@, "path"@, path),
        FieldValueView::InitialFromPath { path } => tagged("initial-from-path"@, "path"@, path),
        FieldValueView::ManagedFromEnv { env } => tagged("managed-from-env"@, "env"@, env),
        FieldValueView::InitialFromEnv { env } => tagged("initial-from-env"@, "env"@, env),
        FieldValueView::Unmanaged => JsonView::Object(
            put(Seq::empty(), "__nixhapi"@, JsonView::String("unmanaged"@)),
        ),
    }
}

impl FieldValue {
    /// Reads a field value from its JSON form.
    pub fn from_json(value: &Json) -> (field: Result<FieldValue, String>)
        ensures
            result_view(field) == field_value_from(value@),
    {
        let tag = match read_field_tag(get_tag(value)) {
            None => {
                return Err("expected a field value".to_owned());
            }
            Some(tag) => tag,
        };
        if text_eq(tag, "managed") {
            match read_field_text(value, "value") {
                Ok(value) => Ok(FieldValue::Managed { value }),
                Err(message) => Err(message),
            }
        } else if text_eq(tag, "initial") {
            match read_field_text(value, "value") {
                Ok(value) => Ok(FieldValue::Initial { value }),
                Err(message) => Err(message),
            }
        } else if text_eq(tag, "managed-from-path") {
            match read_field_text(value, "path") {
                Ok(path) => Ok(FieldValue::ManagedFromPath { path }),
                Err(message) => Err(message),
            }
        } else if text_eq(tag, "initial-from-path") {
            match read_field_text(value, "path") {
                Ok(path) => Ok(FieldValue::InitialFromPath { path }),
                Err(message) => Err(message),
            }
        } else if text_eq(tag, "managed-from-env") {
            match read_field_text(value, "env") {
                Ok(env) => Ok(FieldValue::ManagedFromEnv { env }),
                Err(message) => Err(message),
            }
        } else if text_eq(tag, "initial-from-env") {
            match read_field_text(value, "env") {
                Ok(env) => Ok(FieldValue::InitialFromEnv { env }),
                Err(message) => Err(message),
            }
        } else if text_eq(tag, "unmanaged") {
            match value {
                Json::Array(items) => {
                    proof {
                        lemma_array_view(*items);
                    }
                    if items.len() == 1 {
                        Ok(FieldValue::Unmanaged)
                    } else {
                        Err("expected nothing after the tag".to_owned())
                    }
                }
                _ => Ok(FieldValue::Unmanaged),
            }
        } else {
            Err("unknown field value ".to_owned().concat(quote(tag).as_str()))
        }
    }

    /// The JSON form of this field value.
    pub fn to_json(&self) -> (value: Json)
        ensures
            value@ == field_value_json(self@),
    {
        match self {
            FieldValue::Managed { value } => tagged_object(
                "managed",
                "value",
                value.as_str(),
            ),
            FieldValue::Initial { value } => tagged_object(
                "initial",
                "value",
                value.as_str(),
            ),
            FieldValue::ManagedFromPath { path } => tagged_object(
                "managed-from-path",
                "path",
                path.as_str(),
            ),
            FieldValue::InitialFromPath { path } => tagged_object(
                "initial-from-path",
                "path",
                path.as_str(),
            ),
            FieldValue::ManagedFromEnv { env } => tagged_object(
                "managed-from-env",
                "env",
                env.as_str(),
            ),
            FieldValue::InitialFromEnv { env } => tagged_object(
                "initial-from-env",
                "env",
                env.as_str(),
            ),
            FieldValue::Unmanaged => Json::empty_object().with_member(
                "__nixhapi",
                Json::String("unmanaged".to_owned()),
            ),
        }
    }

    /// A copy of this field value.
    pub fn copy(&self) -> (copy: FieldValue)
        ensures
            copy@ == self@,
    {
        match self {
            FieldValue::Managed { value } => FieldValue::Managed { value: value.clone() },
            FieldValue::Initial { value } => FieldValue::Initial { value: value.clone() },
            FieldValue::ManagedFromPath { path } => FieldValue::ManagedFromPath { path: path.clone() },
            FieldValue::InitialFromPath { path } => FieldValue::InitialFromPath { path: path.clone() },
            FieldValue::ManagedFromEnv { env } => FieldValue::ManagedFromEnv { env: env.clone() },
            FieldValue::InitialFromEnv { env } => FieldValue::InitialFromEnv { env: env.clone() },
            FieldValue::Unmanaged => FieldValue::Unmanaged,
        }
    }

    /// Resolves the value: from its own text, the trimmed text of a file or the text of an
    /// environment variable.
    pub fn resolve(&self, sources: &Sources) -> (value: Result<
        ResolvedFieldValue,
        FieldValueError,
    >)
        ensures
            result_view(value) == resolved(self@, sources@),
    {
        match self {
            FieldValue::Managed { value } => Ok(ResolvedFieldValue::Managed(value.clone())),
            FieldValue::Initial { value } => Ok(ResolvedFieldValue::Initial(value.clone())),
            FieldValue::Unmanaged => Ok(ResolvedFieldValue::Unmanaged),
            FieldValue::ManagedFromPath { path } => match read_path(path, sources) {
                Ok(text) => Ok(ResolvedFieldValue::Managed(text)),
                Err(error) => Err(error),
            },
            FieldValue::InitialFromPath { path } => match read_path(path, sources) {
                Ok(text) => Ok(ResolvedFieldValue::Initial(text)),
                Err(error) => Err(error),
            },
            FieldValue::ManagedFromEnv { env } => match read_env(env, sources) {
                Ok(text) => Ok(ResolvedFieldValue::Managed(text)),
                Err(error) => Err(error),
            },
            FieldValue::InitialFromEnv { env } => match read_env(env, sources) {
                Ok(text) => Ok(ResolvedFieldValue::Initial(text)),
                Err(error) => Err(error),
            },
        }
    }
}

/// The file that a field value is to be read from.
pub open spec fn field_file(field: FieldValueView) -> Option<Seq<char>> {
    match field {
        FieldValueView::ManagedFromPath { path } => Some(path),
        FieldValueView::InitialFromPath { path } => Some(path),
        _ => None,
    }
}

/// The environment variable that a field value is to be read from.
pub open spec fn field_variable(field: FieldValueView) -> Option<Seq<char>> {
    match field {
        FieldValueView::ManagedFromEnv { env } => Some(env),
        FieldValueView::InitialFromEnv { env } => Some(env),
        _ => None,
    }
}

impl FieldValue {
    /// The file that the value is to be read from.
    pub fn file(&self) -> (path: Option<&str>)
        ensures
            match path {
                Some(path) => field_file(self@) == Some(path@),
                None => field_file(self@) is None,
            },
    {
        match self {
            FieldValue::ManagedFromPath { path } => Some(path.as_str()),
            FieldValue::InitialFromPath { path } => Some(path.as_str()),
            _ => None,
        }
    }

    /// The environment variable that the value is to be read from.
    pub fn variable(&self) -> (env: Option<&str>)
        ensures
            match env {
                Some(env) => field_variable(self@) == Some(env@),
                None => field_variable(self@) is None,
            },
    {
        match self {
            FieldValue::ManagedFromEnv { env } => Some(env.as_str()),
            FieldValue::InitialFromEnv { env } => Some(env.as_str()),
            _ => None,
        }
    }
}

/// A field value needs no other reading than that of its file or variable.
pub proof fn law_field_value_needs_its_source(
    field: FieldValueView,
    a: SourcesView,
    b: SourcesView,
)
    requires
        field_file(field) matches Some(path) ==> reading_of(a.files, path) == reading_of(
            b.files,
            path,
        ),
        field_variable(field) matches Some(env) ==> reading_of(a.variables, env) == reading_of(
            b.variables,
            env,
        ),
    ensures
        resolved(field, a) == resolved(field, b),
{
}

/// The text that a resolved value holds.
pub open spec fn value_text(value: ResolvedFieldValueView) -> Option<Seq<char>> {
    match value {
        ResolvedFieldValueView::Managed(text) => Some(text),
        ResolvedFieldValueView::Initial(text) => Some(text),
        ResolvedFieldValueView::Unmanaged => None,
    }
}

impl ResolvedFieldValue {
    /// The resolved string value, or `None` for `Unmanaged`.
    pub fn value(&self) -> (value: Option<&str>)
        ensures
            match value {
                Some(text) => value_text(self@) == Some(text@),
                None => value_text(self@) is None,
            },
    {
        match self {
            ResolvedFieldValue::Managed(v) => Some(v.as_str()),
            ResolvedFieldValue::Initial(v) => Some(v.as_str()),
            ResolvedFieldValue::Unmanaged => None,
        }
    }

    /// Whether the value is always enforced.
    pub fn is_managed(&self) -> (managed: bool)
        ensures
            managed == (self@ is Managed),
    {
        matches!(self, ResolvedFieldValue::Managed(_))
    }

    /// Whether the value is set once if absent.
    pub fn is_initial(&self) -> (initial: bool)
        ensures
            initial == (self@ is Initial),
    {
        matches!(self, ResolvedFieldValue::Initial(_))
    }

    /// Whether the field is never touched.
    pub fn is_unmanaged(&self) -> (unmanaged: bool)
        ensures
            unmanaged == (self@ is Unmanaged),
    {
        matches!(self, ResolvedFieldValue::Unmanaged)
    }

    /// A copy of this value.
    pub fn copy(&self) -> (copy: ResolvedFieldValue)
        ensures
            copy@ == self@,
    {
        match self {
            ResolvedFieldValue::Managed(v) => ResolvedFieldValue::Managed(v.clone()),
            ResolvedFieldValue::Initial(v) => ResolvedFieldValue::Initial(v.clone()),
            ResolvedFieldValue::Unmanaged => ResolvedFieldValue::Unmanaged,
        }
    }
}

/// The tags of the field values, and the names of their members, differ from one another.
pub(crate) proof fn lemma_names_differ()
    ensures
        "initial"@ != "managed"@,
        "managed-from-path"@ != "managed"@,
        "managed-from-path"@ != "initial"@,
        "initial-from-path"@ != "managed"@,
        "initial-from-path"@ != "initial"@,
        "initial-from-path"@ != "managed-from-path"@,
        "managed-from-env"@ != "managed"@,
        "managed-from-env"@ != "initial"@,
        "managed-from-env"@ != "managed-from-path"@,
        "managed-from-env"@ != "initial-from-path"@,
        "initial-from-env"@ != "managed"@,
        "initial-from-env"@ != "initial"@,
        "initial-from-env"@ != "managed-from-path"@,
        "initial-from-env"@ != "initial-from-path"@,
        "initial-from-env"@ != "managed-from-env"@,
        "unmanaged"@ != "managed"@,
        "unmanaged"@ != "initial"@,
        "unmanaged"@ != "managed-from-path"@,
        "unmanaged"@ != "initial-from-path"@,
        "unmanaged"@ != "managed-from-env"@,
        "unmanaged"@ != "initial-from-env"@,
        "value"@ != "__nixhapi"@,
        "path"@ != "__nixhapi"@,
        "env"@ != "__nixhapi"@,
{
    reveal_strlit("managed");
    assert("managed"@.len() == 7);
    reveal_strlit("initial");
    assert("initial"@.len() == 7);
    reveal_strlit("managed-from-path");
    assert("managed-from-path"@.len() == 17);
    reveal_strlit("initial-from-path");
    assert("initial-from-path"@.len() == 17);
    reveal_strlit("managed-from-env");
    assert("managed-from-env"@.len() == 16);
    reveal_strlit("initial-from-env");
    assert("initial-from-env"@.len() == 16);
    reveal_strlit("unmanaged");
    assert("unmanaged"@.len() == 9);
    reveal_strlit("value");
    assert("value"@.len() == 5);
    reveal_strlit("path");
    assert("path"@.len() == 4);
    reveal_strlit("env");
    assert("env"@.len() == 3);
    reveal_strlit("__nixhapi");
    assert("__nixhapi"@.len() == 9);
    assert("managed"@[0] != "initial"@[0]);
    assert("managed-from-path"@[0] != "initial-from-path"@[0]);
    assert("managed-from-env"@[0] != "initial-from-env"@[0]);
}

/// A field value is read back from its JSON form as it was written.
pub proof fn law_field_value_round_trip(field: FieldValueView)
    ensures
        field_value_from(field_value_json(field)) == Ok::<FieldValueView, Seq<char>>(field),
{
    lemma_names_differ();
    match field {
        FieldValueView::Managed { value } => {
            lemma_tagged("managed"@, "value"@, value);
        },
        FieldValueView::Initial { value } => {
            lemma_tagged("initial"@, "value"@, value);
        },
        FieldValueView::ManagedFromPath { path } => {
            lemma_tagged("managed-from-path"@, "path"@, path);
        },
        FieldValueView::InitialFromPath { path } => {
            lemma_tagged("initial-from-path"@, "path"@, path);
        },
        FieldValueView::ManagedFromEnv { env } => {
            lemma_tagged("managed-from-env"@, "env"@, env);
        },
        FieldValueView::InitialFromEnv { env } => {
            lemma_tagged("initial-from-env"@, "env"@, env);
        },
        FieldValueView::Unmanaged => {
            lemma_lookup_put(
                Seq::<(Seq<char>, JsonView)>::empty(),
                "__nixhapi"@,
                JsonView::String("unmanaged"@),
                "__nixhapi"@,
            );
        },
    }
}

} // verus!
