//! What the messages of errors tell, and in which order.

use crate::config::ConfigErrorView;
use crate::dag::DagErrorView;
use crate::derived::DerivedFromErrorView;
use crate::executor::ExecuteErrorView;
use crate::field_value::FieldValueErrorView;
use crate::jq_expr::JqExprErrorView;
use crate::provider::ProviderErrorView;
use crate::provider_host::ProviderHostErrorView;
use crate::reconcile::ReconcileErrorView;
use crate::saturation::SaturationErrorView;
use crate::subprocess::SubprocessErrorView;
use crate::text::{decimal, quoted};
use vstd::prelude::*;

verus! {

/// The text is `first`, with the parts after it in order, each with what follows it.
pub open spec fn made_of(
    text: Seq<char>,
    first: Seq<char>,
    parts: Seq<Seq<char>>,
    rests: Seq<Seq<char>>,
) -> bool {
    rests.len() == parts.len() && text == put_together(first, parts, rests, parts.len() as int)
}

/// `first`, with the first `n` parts after it in order, each with what follows it.
pub open spec fn put_together(
    first: Seq<char>,
    parts: Seq<Seq<char>>,
    rests: Seq<Seq<char>>,
    n: int,
) -> Seq<char>
    decreases n,
{
    if n <= 0 {
        first
    } else {
        put_together(first, parts, rests, n - 1) + parts[n - 1] + rests[n - 1]
    }
}

/// The text holds the parts one after the other.
pub open spec fn tells(text: Seq<char>, parts: Seq<Seq<char>>) -> bool {
    exists|first: Seq<char>, rests: Seq<Seq<char>>| #[trigger] made_of(text, first, parts, rests)
}

proof fn lemma_tells_one(text: Seq<char>, first: Seq<char>, p: Seq<char>, a: Seq<char>)
    requires
        text =~= first + p + a,
    ensures
        tells(text, seq![p]),
{
    reveal_with_fuel(put_together, 2);
    assert(made_of(text, first, seq![p], seq![a]));
}

proof fn lemma_tells_two(
    text: Seq<char>,
    first: Seq<char>,
    p: Seq<char>,
    a: Seq<char>,
    q: Seq<char>,
    b: Seq<char>,
)
    requires
        text =~= first + p + a + q + b,
    ensures
        tells(text, seq![p, q]),
{
    reveal_with_fuel(put_together, 3);
    assert(made_of(text, first, seq![p, q], seq![a, b]));
}

proof fn lemma_tells_three(
    text: Seq<char>,
    first: Seq<char>,
    p: Seq<char>,
    a: Seq<char>,
    q: Seq<char>,
    b: Seq<char>,
    r: Seq<char>,
    c: Seq<char>,
)
    requires
        text =~= first + p + a + q + b + r + c,
    ensures
        tells(text, seq![p, q, r]),
{
    reveal_with_fuel(put_together, 4);
    assert(made_of(text, first, seq![p, q, r], seq![a, b, c]));
}

/// What an error of the dependency graph tells: the expression and the instance with what went
/// wrong, or the input and the instance with the path or the instance that is not known.
pub open spec fn told_by_graph(error: DagErrorView) -> Seq<Seq<char>> {
    match error {
        DagErrorView::ExpressionParse { instance, expression, message } => seq![
            quoted(expression),
            quoted(instance),
            message,
        ],
        DagErrorView::ExpressionCompile { instance, expression, message } => seq![
            quoted(expression),
            quoted(instance),
            message,
        ],
        DagErrorView::ExpressionRuntime { instance, expression, message } => seq![
            quoted(expression),
            quoted(instance),
            message,
        ],
        DagErrorView::ExpressionNoOutput { instance, expression } => seq![
            quoted(expression),
            quoted(instance),
        ],
        DagErrorView::ExpressionRefused { instance, expression } => seq![
            quoted(expression),
            quoted(instance),
        ],
        DagErrorView::ExpressionFile { instance, source } => seq![
            quoted(instance),
            source.message(),
        ],
        DagErrorView::UnresolvedDependency { instance, expression } => seq![
            quoted(expression),
            quoted(instance),
        ],
        DagErrorView::InvalidInputPath { instance, alias, path } => seq![
            quoted(alias),
            quoted(instance),
            quoted(path),
        ],
        DagErrorView::UnresolvedInputDependency { instance, alias, referenced } => seq![
            quoted(alias),
            quoted(instance),
            quoted(referenced),
        ],
        DagErrorView::MetadataParse { instance, message } => seq![quoted(instance), message],
        DagErrorView::Cycle => seq!["Cycle"@],
    }
}

/// The message of an error of the dependency graph tells everything that the error holds.
pub proof fn law_graph_errors_tell_what_they_hold(error: DagErrorView)
    ensures
        tells(error.message(), told_by_graph(error)),
{
    let text = error.message();
    let none = Seq::<char>::empty();
    let start = "dependsOn expression "@;
    match error {
        DagErrorView::ExpressionParse { instance, expression, message } => lemma_tells_three(
            text,
            start,
            quoted(expression),
            " for instance "@,
            quoted(instance),
            " failed to parse: "@,
            message,
            none,
        ),
        DagErrorView::ExpressionCompile { instance, expression, message } => lemma_tells_three(
            text,
            start,
            quoted(expression),
            " for instance "@,
            quoted(instance),
            " failed to compile: "@,
            message,
            none,
        ),
        DagErrorView::ExpressionRuntime { instance, expression, message } => lemma_tells_three(
            text,
            start,
            quoted(expression),
            " for instance "@,
            quoted(instance),
            " runtime error: "@,
            message,
            none,
        ),
        DagErrorView::ExpressionNoOutput { instance, expression } => lemma_tells_two(
            text,
            start,
            quoted(expression),
            " for instance "@,
            quoted(instance),
            " produced no output"@,
        ),
        DagErrorView::ExpressionRefused { instance, expression } => lemma_tells_two(
            text,
            start,
            quoted(expression),
            " for instance "@,
            quoted(instance),
            " is not evaluated: it might not come back"@,
        ),
        DagErrorView::ExpressionFile { instance, source } => lemma_tells_two(
            text,
            "dependsOn expression for instance "@,
            quoted(instance),
            " could not be had: "@,
            source.message(),
            none,
        ),
        DagErrorView::UnresolvedDependency { instance, expression } => lemma_tells_two(
            text,
            start,
            quoted(expression),
            " in instance "@,
            quoted(instance),
            " did not resolve to any known provider instance"@,
        ),
        DagErrorView::InvalidInputPath { instance, alias, path } => lemma_tells_three(
            text,
            "derivedFrom input "@,
            quoted(alias),
            " in instance "@,
            quoted(instance),
            " has invalid path "@,
            quoted(path),
            ": must begin with .[\"<instance-name>\"]"@,
        ),
        DagErrorView::UnresolvedInputDependency { instance, alias, referenced } =>
            lemma_tells_three(
            text,
            "derivedFrom input "@,
            quoted(alias),
            " in instance "@,
            quoted(instance),
            " references unknown provider instance "@,
            quoted(referenced),
            none,
        ),
        DagErrorView::MetadataParse { instance, message } => lemma_tells_two(
            text,
            "Malformed __nixhapi metadata in instance "@,
            quoted(instance),
            ": "@,
            message,
            none,
        ),
        DagErrorView::Cycle => {
            reveal_strlit("Cycle detected in provider dependency graph");
            reveal_strlit("Cycle");
            lemma_tells_one(text, none, "Cycle"@, text.skip(5));
        },
    }
}

/// The message for a node that could not be resolved tells the path or the expression, and why.
pub proof fn law_resolution_errors_tell_what_they_hold(error: DerivedFromErrorView)
    ensures
        match error {
            DerivedFromErrorView::InputPathEval { path, source } => tells(
                error.message(),
                seq![quoted(path), source.message()],
            ),
            DerivedFromErrorView::ExpressionEval { expression, source } => tells(
                error.message(),
                seq![quoted(expression), source.message()],
            ),
        },
{
    let text = error.message();
    match error {
        DerivedFromErrorView::InputPathEval { path, source } => lemma_tells_two(
            text,
            "Failed to evaluate derivedFrom input path "@,
            quoted(path),
            ": "@,
            source.message(),
            Seq::empty(),
        ),
        DerivedFromErrorView::ExpressionEval { expression, source } => lemma_tells_two(
            text,
            "Failed to evaluate derivedFrom expression "@,
            quoted(expression),
            ": "@,
            source.message(),
            Seq::empty(),
        ),
    }
}

/// What the error that ended a run tells.
pub open spec fn told_by_run(error: ExecuteErrorView, listing: Seq<char>) -> Seq<Seq<char>> {
    match error {
        ExecuteErrorView::MissingProvider { instance } => seq![quoted(instance)],
        ExecuteErrorView::ConfigResolution { instance, source } => seq![
            quoted(instance),
            source.message(),
        ],
        ExecuteErrorView::ProviderOperation { instance, source } => seq![
            quoted(instance),
            source.message(),
        ],
        ExecuteErrorView::ProviderLookup { instance, provider_type } => seq![
            quoted(provider_type),
            quoted(instance),
        ],
        ExecuteErrorView::ProviderInit { instance, message } => seq![quoted(instance), message],
        ExecuteErrorView::DependencyResolution(error) => seq![error.message()],
        ExecuteErrorView::DerivedFromResolution(error) => seq![error.message()],
        ExecuteErrorView::MetadataParse { instance, message } => seq![quoted(instance), message],
        ExecuteErrorView::MissingInstance { instance } => seq![quoted(instance)],
        ExecuteErrorView::SaturationCheck(error) => seq![error.message()],
        ExecuteErrorView::PartialWaveFailure { .. } => seq![listing],
    }
}

/// The message of the error that ended a run tells everything that the error holds.
pub proof fn law_run_errors_tell_what_they_hold(error: ExecuteErrorView, listing: Seq<char>)
    ensures
        tells(error.message(listing), told_by_run(error, listing)),
{
    let text = error.message(listing);
    let none = Seq::<char>::empty();
    match error {
        ExecuteErrorView::MissingProvider { instance } => lemma_tells_one(
            text,
            "Instance "@,
            quoted(instance),
            " is missing a __nixhapi.provider declaration"@,
        ),
        ExecuteErrorView::ConfigResolution { instance, source } => lemma_tells_two(
            text,
            "Failed to resolve provider configuration for instance "@,
            quoted(instance),
            ": "@,
            source.message(),
            none,
        ),
        ExecuteErrorView::ProviderOperation { instance, source } => lemma_tells_two(
            text,
            "Provider operation failed for instance "@,
            quoted(instance),
            ": "@,
            source.message(),
            none,
        ),
        ExecuteErrorView::ProviderLookup { instance, provider_type } => lemma_tells_two(
            text,
            "Unknown provider type "@,
            quoted(provider_type),
            " for instance "@,
            quoted(instance),
            none,
        ),
        ExecuteErrorView::ProviderInit { instance, message } => lemma_tells_two(
            text,
            "Failed to initialize provider for instance "@,
            quoted(instance),
            ": "@,
            message,
            none,
        ),
        ExecuteErrorView::DependencyResolution(error) => lemma_tells_one(
            text,
            "Failed to resolve provider dependency order: "@,
            error.message(),
            none,
        ),
        ExecuteErrorView::DerivedFromResolution(error) => lemma_tells_one(
            text,
            "Failed to resolve derivedFrom fields between waves: "@,
            error.message(),
            none,
        ),
        ExecuteErrorView::MetadataParse { instance, message } => lemma_tells_two(
            text,
            "Malformed __nixhapi metadata in instance "@,
            quoted(instance),
            ": "@,
            message,
            none,
        ),
        ExecuteErrorView::MissingInstance { instance } => lemma_tells_one(
            text,
            "Instance "@,
            quoted(instance),
            " not found in root"@,
        ),
        ExecuteErrorView::SaturationCheck(error) => lemma_tells_one(
            text,
            "DerivedFrom saturation check failed: "@,
            error.message(),
            none,
        ),
        ExecuteErrorView::PartialWaveFailure { .. } => lemma_tells_one(
            text,
            "Partial wave failure: "@,
            listing,
            " (successful reports still collected)"@,
        ),
    }
}

/// The message of a failed check of inputs tells the field, the input and the instance or path
/// that it refers to; where the instance comes too late, it tells the number of its wave and then
/// that of the field's own.
pub proof fn law_check_errors_tell_what_they_hold(error: SaturationErrorView)
    ensures
        match error {
            SaturationErrorView::InputReferencesLaterWave {
                field_path,
                input_alias,
                referenced_instance,
                referenced_wave,
                owning_wave,
            } => tells(
                error.message(),
                seq![quoted(field_path), quoted(input_alias), quoted(referenced_instance)],
            ) && tells(
                error.message(),
                seq![
                    quoted(referenced_instance),
                    decimal(referenced_wave as nat),
                    decimal(owning_wave as nat),
                ],
            ),
            SaturationErrorView::InputReferencesMissingInstance {
                field_path,
                input_alias,
                referenced_instance,
            } => tells(
                error.message(),
                seq![quoted(field_path), quoted(input_alias), quoted(referenced_instance)],
            ),
            SaturationErrorView::InvalidInputPath { field_path, input_alias, path } => tells(
                error.message(),
                seq![quoted(field_path), quoted(input_alias), quoted(path)],
            ),
        },
{
    let text = error.message();
    let none = Seq::<char>::empty();
    let start = "DerivedFrom at "@;
    match error {
        SaturationErrorView::InputReferencesLaterWave {
            field_path,
            input_alias,
            referenced_instance,
            referenced_wave,
            owning_wave,
        } => {
            let waves = " which is in wave "@ + decimal(referenced_wave as nat)
                + " (same or later than owning instance in wave "@ + decimal(owning_wave as nat)
                + ")"@;
            lemma_tells_three(
                text,
                start,
                quoted(field_path),
                ": input "@,
                quoted(input_alias),
                " references instance "@,
                quoted(referenced_instance),
                waves,
            );
            lemma_tells_three(
                text,
                start + quoted(field_path) + ": input "@ + quoted(input_alias)
                    + " references instance "@,
                quoted(referenced_instance),
                " which is in wave "@,
                decimal(referenced_wave as nat),
                " (same or later than owning instance in wave "@,
                decimal(owning_wave as nat),
                ")"@,
            );
        },
        SaturationErrorView::InputReferencesMissingInstance {
            field_path,
            input_alias,
            referenced_instance,
        } => lemma_tells_three(
            text,
            start,
            quoted(field_path),
            ": input "@,
            quoted(input_alias),
            " references unknown instance "@,
            quoted(referenced_instance),
            none,
        ),
        SaturationErrorView::InvalidInputPath { field_path, input_alias, path } =>
            lemma_tells_three(
            text,
            start,
            quoted(field_path),
            ": input "@,
            quoted(input_alias),
            " has invalid path "@,
            quoted(path),
            " — must begin with .[\"<instance-name>\"]"@,
        ),
    }
}

/// The message of a source that could not be read tells the file or the variable, and why; that of
/// a field of an entry tells the field, the entry, and why.
pub proof fn law_reading_errors_tell_what_they_hold(
    path: Seq<char>,
    source: Seq<char>,
    entry: Seq<char>,
    fault: FieldValueErrorView,
)
    ensures
        tells(
            (JqExprErrorView::FileRead { path, source }).message(),
            seq![quoted(path), source],
        ),
        tells(
            (FieldValueErrorView::PathRead { path, source }).message(),
            seq![quoted(path), source],
        ),
        tells(
            (FieldValueErrorView::EnvRead { env: path, source }).message(),
            seq![quoted(path), source],
        ),
        tells(
            (ReconcileErrorView::FieldResolution { entry, field: path, source: fault }).message(),
            seq![quoted(path), quoted(entry), fault.message()],
        ),
        tells(
            (ConfigErrorView::FileRead { path, source }).message(),
            seq![quoted(path), source],
        ),
        tells((ConfigErrorView::Parse { path, source }).message(), seq![quoted(path), source]),
        tells(ConfigErrorView::Validation(source).message(), seq![source]),
{
    let none = Seq::<char>::empty();
    lemma_tells_two(
        (JqExprErrorView::FileRead { path, source }).message(),
        "Failed to read jq expression from file "@,
        quoted(path),
        ": "@,
        source,
        none,
    );
    lemma_tells_two(
        (FieldValueErrorView::PathRead { path, source }).message(),
        "Failed to read field value from path "@,
        quoted(path),
        ": "@,
        source,
        none,
    );
    lemma_tells_two(
        (FieldValueErrorView::EnvRead { env: path, source }).message(),
        "Failed to read field value from environment variable "@,
        quoted(path),
        ": "@,
        source,
        none,
    );
    lemma_tells_three(
        (ReconcileErrorView::FieldResolution { entry, field: path, source: fault }).message(),
        "Failed to resolve field "@,
        quoted(path),
        " for "@,
        quoted(entry),
        ": "@,
        fault.message(),
        none,
    );
    lemma_tells_two(
        (ConfigErrorView::FileRead { path, source }).message(),
        "Failed to read configuration file at "@,
        quoted(path),
        " during startup: "@,
        source,
        none,
    );
    lemma_tells_two(
        (ConfigErrorView::Parse { path, source }).message(),
        "Failed to parse configuration file at "@,
        quoted(path),
        ": "@,
        source,
        none,
    );
    lemma_tells_one(
        ConfigErrorView::Validation(source).message(),
        "Configuration validation failed: "@,
        source,
        none,
    );
}

/// The message of a provider's error tells the field of the configuration, or the message that the
/// provider gave.
pub proof fn law_provider_errors_tell_what_they_hold(error: ProviderErrorView)
    ensures
        match error {
            ProviderErrorView::ConfigResolution { field, source } => tells(
                error.message(),
                seq![quoted(field), source.message()],
            ),
            ProviderErrorView::MissingConfig { field } => tells(
                error.message(),
                seq![quoted(field)],
            ),
            ProviderErrorView::UnmanagedConfig { field } => tells(
                error.message(),
                seq![quoted(field)],
            ),
            ProviderErrorView::ConnectionFailed(message) => tells(error.message(), seq![message]),
            ProviderErrorView::OperationFailed(message) => tells(error.message(), seq![message]),
            ProviderErrorView::DesiredStateParse(message) => tells(error.message(), seq![message]),
            ProviderErrorView::LiveStateParse(message) => tells(error.message(), seq![message]),
        },
{
    let text = error.message();
    let none = Seq::<char>::empty();
    match error {
        ProviderErrorView::ConfigResolution { field, source } => lemma_tells_two(
            text,
            "Failed to resolve provider configuration field "@,
            quoted(field),
            ": "@,
            source.message(),
            none,
        ),
        ProviderErrorView::MissingConfig { field } => lemma_tells_one(
            text,
            "Required provider configuration field "@,
            quoted(field),
            " is missing"@,
        ),
        ProviderErrorView::UnmanagedConfig { field } => lemma_tells_one(
            text,
            "Provider configuration field "@,
            quoted(field),
            " must not be Unmanaged"@,
        ),
        ProviderErrorView::ConnectionFailed(message) => lemma_tells_one(
            text,
            "Failed to connect to provider: "@,
            message,
            none,
        ),
        ProviderErrorView::OperationFailed(message) => lemma_tells_one(
            text,
            "Provider operation failed: "@,
            message,
            none,
        ),
        ProviderErrorView::DesiredStateParse(message) => lemma_tells_one(
            text,
            "Failed to parse desired state: "@,
            message,
            none,
        ),
        ProviderErrorView::LiveStateParse(message) => lemma_tells_one(
            text,
            "Failed to parse live state: "@,
            message,
            none,
        ),
    }
}

/// The messages of the two sides of the provider protocol tell the process, where there is one to
/// tell, and what went wrong.
pub proof fn law_protocol_errors_tell_what_they_hold(path: Seq<char>, source: Seq<char>)
    ensures
        tells(
            (SubprocessErrorView::Spawn { path, source }).message(),
            seq![quoted(path), source],
        ),
        tells((SubprocessErrorView::Communication { source }).message(), seq![source]),
        tells(SubprocessErrorView::ResponseParse(source).message(), seq![source]),
        tells(SubprocessErrorView::ProviderError(source).message(), seq![source]),
        tells(ProviderHostErrorView::Stdin(source).message(), seq![source]),
        tells(ProviderHostErrorView::Stdout(source).message(), seq![source]),
        tells(ProviderHostErrorView::RequestParse(source).message(), seq![source]),
{
    let none = Seq::<char>::empty();
    lemma_tells_two(
        (SubprocessErrorView::Spawn { path, source }).message(),
        "Failed to spawn provider process at "@,
        quoted(path),
        ": "@,
        source,
        none,
    );
    lemma_tells_one(
        (SubprocessErrorView::Communication { source }).message(),
        "Failed to communicate with provider process: "@,
        source,
        none,
    );
    lemma_tells_one(
        SubprocessErrorView::ResponseParse(source).message(),
        "Failed to parse provider response: "@,
        source,
        none,
    );
    lemma_tells_one(
        SubprocessErrorView::ProviderError(source).message(),
        "Provider returned error: "@,
        source,
        none,
    );
    lemma_tells_one(
        ProviderHostErrorView::Stdin(source).message(),
        "Failed to read from stdin: "@,
        source,
        none,
    );
    lemma_tells_one(
        ProviderHostErrorView::Stdout(source).message(),
        "Failed to write to stdout: "@,
        source,
        none,
    );
    lemma_tells_one(
        ProviderHostErrorView::RequestParse(source).message(),
        "Failed to parse JSON-RPC request: "@,
        source,
        none,
    );
}

} // verus!
