//! Providers: the query-diff-apply loop for one API backend.

use crate::field_value::{
    resolved, FieldValue, FieldValueError, FieldValueErrorView, FieldValueView, ResolvedFieldValue,
    ResolvedFieldValueView,
};
use crate::json::Json;
use crate::meta::NixHapiMeta;
use crate::plan::{ApplyReport, ProviderPlan};
use crate::sources::{Sources, SourcesView};
use crate::strmap::{ascending, entry_views, lemma_put_last, lemma_views_put, StrMap};
use crate::text::{quote, quoted, text_lt};
use vstd::prelude::*;

verus! {

/// Resolved provider configuration: all field values have been read from paths or environment
/// variables.
pub type ResolvedConfig = StrMap<ResolvedFieldValue>;

/// Why a provider did not do its work.
#[derive(Debug, PartialEq)]
pub enum ProviderError {
    ConfigResolution { field: String, source: FieldValueError },
    MissingConfig { field: String },
    UnmanagedConfig { field: String },
    ConnectionFailed(String),
    OperationFailed(String),
    DesiredStateParse(String),
    LiveStateParse(String),
}

/// What a [`ProviderError`] stands for.
pub enum ProviderErrorView {
    ConfigResolution { field: Seq<char>, source: FieldValueErrorView },
    MissingConfig { field: Seq<char> },
    UnmanagedConfig { field: Seq<char> },
    ConnectionFailed(Seq<char>),
    OperationFailed(Seq<char>),
    DesiredStateParse(Seq<char>),
    LiveStateParse(Seq<char>),
}

impl View for ProviderError {
    type V = ProviderErrorView;

    open spec fn view(&self) -> ProviderErrorView {
        match self {
            ProviderError::ConfigResolution { field, source } =>
                ProviderErrorView::ConfigResolution { field: field@, source: source@ },
            ProviderError::MissingConfig { field } => ProviderErrorView::MissingConfig {
                field: field@,
            },
            ProviderError::UnmanagedConfig { field } => ProviderErrorView::UnmanagedConfig {
                field: field@,
            },
            ProviderError::ConnectionFailed(message) => ProviderErrorView::ConnectionFailed(
                message@,
            ),
            ProviderError::OperationFailed(message) => ProviderErrorView::OperationFailed(
                message@,
            ),
            ProviderError::DesiredStateParse(message) => ProviderErrorView::DesiredStateParse(
                message@,
            ),
            ProviderError::LiveStateParse(message) => ProviderErrorView::LiveStateParse(message@),
        }
    }
}

impl ProviderErrorView {
    /// The message of this error.
    pub open spec fn message(self) -> Seq<char> {
        match self {
            ProviderErrorView::ConfigResolution { field, source } =>
                "Failed to resolve provider configuration field "@ + quoted(field) + ": "@
                + source.message(),
            ProviderErrorView::MissingConfig { field } =>
                "Required provider configuration field "@ + quoted(field) + " is missing"@,
            ProviderErrorView::UnmanagedConfig { field } => "Provider configuration field "@
                + quoted(field) + " must not be Unmanaged"@,
            ProviderErrorView::ConnectionFailed(message) => "Failed to connect to provider: "@
                + message,
            ProviderErrorView::OperationFailed(message) => "Provider operation failed: "@
                + message,
            ProviderErrorView::DesiredStateParse(message) => "Failed to parse desired state: "@
                + message,
            ProviderErrorView::LiveStateParse(message) => "Failed to parse live state: "@
                + message,
        }
    }
}

impl ProviderError {
    /// The message of this error.
    pub fn message(&self) -> (message: String)
        ensures
            message@ == self@.message(),
    {
        match self {
            ProviderError::ConfigResolution { field, source } => {
                "Failed to resolve provider configuration field ".to_owned().concat(
                    quote(field.as_str()).as_str(),
                ).concat(": ").concat(source.message().as_str())
            }
            ProviderError::MissingConfig { field } => {
                "Required provider configuration field ".to_owned().concat(
                    quote(field.as_str()).as_str(),
                ).concat(" is missing")
            }
            ProviderError::UnmanagedConfig { field } => {
                "Provider configuration field ".to_owned().concat(
                    quote(field.as_str()).as_str(),
                ).concat(" must not be Unmanaged")
            }
            ProviderError::ConnectionFailed(message) => {
                "Failed to connect to provider: ".to_owned().concat(message.as_str())
            }
            ProviderError::OperationFailed(message) => {
                "Provider operation failed: ".to_owned().concat(message.as_str())
            }
            ProviderError::DesiredStateParse(message) => {
                "Failed to parse desired state: ".to_owned().concat(message.as_str())
            }
            ProviderError::LiveStateParse(message) => {
                "Failed to parse live state: ".to_owned().concat(message.as_str())
            }
        }
    }
}

/// What the first `n` fields resolve to, or the error for the first of them that does not.
pub open spec fn config_resolved(
    raw: Seq<(Seq<char>, FieldValueView)>,
    sources: SourcesView,
    n: int,
) -> Result<Seq<(Seq<char>, ResolvedFieldValueView)>, ProviderErrorView>
    decreases n,
{
    if n <= 0 {
        Ok(Seq::empty())
    } else {
        match config_resolved(raw, sources, n - 1) {
            Err(error) => Err(error),
            Ok(done) => match resolved(raw[n - 1].1, sources) {
                Ok(value) => Ok(done.push((raw[n - 1].0, value))),
                Err(source) => Err(
                    ProviderErrorView::ConfigResolution { field: raw[n - 1].0, source },
                ),
            },
        }
    }
}

proof fn lemma_config_resolved_stops(
    raw: Seq<(Seq<char>, FieldValueView)>,
    sources: SourcesView,
    n: int,
    m: int,
)
    requires
        0 <= n <= m,
        config_resolved(raw, sources, n) is Err,
    ensures
        config_resolved(raw, sources, m) == config_resolved(raw, sources, n),
    decreases m - n,
{
    if n < m {
        lemma_config_resolved_stops(raw, sources, n, m - 1);
    }
}

/// The view of what a configuration resolves to.
pub open spec fn config_view(config: Result<ResolvedConfig, ProviderError>) -> Result<
    Seq<(Seq<char>, ResolvedFieldValueView)>,
    ProviderErrorView,
> {
    match config {
        Ok(config) => Ok(entry_views(config@)),
        Err(error) => Err(error@),
    }
}

/// Resolves every field value in a raw configuration, in the order of the fields' names.
pub fn resolve_config(raw: &StrMap<FieldValue>, sources: &Sources) -> (config: Result<
    ResolvedConfig,
    ProviderError,
>)
    ensures
        config_view(config) == config_resolved(
            entry_views(raw@),
            sources@,
            raw@.len() as int,
        ),
{
    let ghost fields = entry_views(raw@);
    let mut config: ResolvedConfig = StrMap::new();
    assert(entry_views(config@) =~= Seq::empty());
    let mut i: usize = 0;
    while i < raw.len()
        invariant
            i <= raw@.len(),
            fields == entry_views(raw@),
            entry_views(config@).len() == i,
            forall|k: int| 0 <= k < i ==> (#[trigger] entry_views(config@)[k]).0 == fields[k].0,
            config_resolved(fields, sources@, i as int) == Ok::<
                Seq<(Seq<char>, ResolvedFieldValueView)>,
                ProviderErrorView,
            >(entry_views(config@)),
        decreases raw@.len() - i,
    {
        let key = raw.key_at(i);
        assert(fields[i as int] == (key@, raw@[i as int].1@));
        assert(ascending(raw@));
        match raw.value_at(i).resolve(sources) {
            Ok(value) => {
                let ghost before = entry_views(config@);
                proof {
                    lemma_views_put(config@, key@, value);
                    assert forall|k: int| 0 <= k < before.len() implies text_lt(
                        (#[trigger] before[k]).0,
                        key@,
                    ) by {
                        assert(text_lt(raw@[k].0, raw@[i as int].0));
                        assert(fields[k].0 == raw@[k].0);
                    }
                    lemma_put_last(before, key@, value@);
                }
                config = config.put(key.to_owned(), value);
            }
            Err(source) => {
                proof {
                    lemma_config_resolved_stops(fields, sources@, i + 1, fields.len() as int);
                }
                return Err(ProviderError::ConfigResolution { field: key.to_owned(), source });
            }
        }
        i = i + 1;
    }
    Ok(config)
}

/// A predicate restricting which live resources are considered owned.
///
/// No filter can be made in this release.  The parameter is present in the provider trait so that
/// filter support can be added without a breaking change.
#[derive(Debug)]
#[non_exhaustive]
pub enum Filter {
    /// Holds the place of the filters to come.
    Reserved(NoFilter),
}

/// What no function of this library gives out.
#[derive(Debug)]
pub struct NoFilter {
    reserved: (),
}

/// A provider implements the query-diff-apply loop for one API backend.
pub trait Provider: Send + Sync {
    /// Unique identifier for this provider type (e.g. `"ldap"`).
    fn provider_type(&self) -> &str;

    /// Config field names whose values must be scrubbed from plan output.
    fn sensitive_config_fields(&self) -> &[&str];

    /// Query all live resources within this provider's scope.
    ///
    /// `filters` is empty in this release.
    fn list_live(&self, config: &ResolvedConfig, filters: &[Filter]) -> Result<
        Json,
        ProviderError,
    >;

    /// Compute what would change if the desired state were applied.
    ///
    /// `desired` is the provider's subtree of the desired state, with the `__nixhapi` key already
    /// stripped.  `live` is the value returned by a prior call to `list_live`.
    fn plan(
        &self,
        desired: &Json,
        live: &Json,
        meta: &NixHapiMeta,
        config: &ResolvedConfig,
    ) -> Result<ProviderPlan, ProviderError>;

    /// Execute the plan produced by `plan`.
    fn apply(&self, plan: &ProviderPlan, config: &ResolvedConfig) -> Result<
        ApplyReport,
        ProviderError,
    >;
}

} // verus!
