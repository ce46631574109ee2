//! A jq expression: a plain string, or a structured object that holds the expression or points
//! to a file.
//!
//! Anywhere a jq expression is expected (`ignore`, `dependsOn`), either form is accepted.

use crate::json::{
    get_tag, get_tagged_text, lemma_tagged, tag_of, tagged, tagged_object, tagged_text, Json,
    JsonView, Number, NumberView,
};
use crate::sources::{reading_of, Reading, ReadingView, Sources, SourcesView};
use crate::text::{quote, quoted, text_eq, trim, trimmed};
use crate::views::{option_view, result_view};
use vstd::prelude::*;

verus! {

/// Why an expression could not be had.
#[derive(Debug, PartialEq)]
pub enum JqExprError {
    /// The file that holds the expression could not be read.
    FileRead { path: String, source: String },
}

/// What a [`JqExprError`] stands for.
pub enum JqExprErrorView {
    FileRead { path: Seq<char>, source: Seq<char> },
}

impl View for JqExprError {
    type V = JqExprErrorView;

    open spec fn view(&self) -> JqExprErrorView {
        match self {
            JqExprError::FileRead { path, source } => JqExprErrorView::FileRead {
                path: path@,
                source: source@,
            },
        }
    }
}

impl JqExprErrorView {
    /// The message of this error.
    pub open spec fn message(self) -> Seq<char> {
        match self {
            JqExprErrorView::FileRead { path, source } => "Failed to read jq expression from file "@
                + quoted(path) + ": "@ + source,
        }
    }
}

impl JqExprError {
    /// A copy of this error.
    pub fn copy(&self) -> (copy: JqExprError)
        ensures
            copy@ == self@,
    {
        match self {
            JqExprError::FileRead { path, source } => JqExprError::FileRead {
                path: path.clone(),
                source: source.clone(),
            },
        }
    }

    /// The message of this error.
    pub fn message(&self) -> (message: String)
        ensures
            message@ == self@.message(),
    {
        match self {
            JqExprError::FileRead { path, source } => {
                "Failed to read jq expression from file ".to_owned().concat(
                    quote(path.as_str()).as_str(),
                ).concat(": ").concat(source.as_str())
            }
        }
    }
}

/// A jq expression, either inline or loaded from a file.
#[derive(Debug, PartialEq, Eq)]
pub enum JqExpr {
    /// A plain inline expression.
    Inline(String),
    /// An expression in a tagged object.
    Structured(JqExprStructured),
}

/// The tagged forms of an expression.
#[derive(Debug, PartialEq, Eq)]
pub enum JqExprStructured {
    /// An inline expression, tagged `jq-expr`.
    Inline { value: String },
    /// An expression in a file, tagged `jq-file`.
    File { path: String },
}

/// What a [`JqExpr`] stands for.
pub enum JqExprView {
    Inline(Seq<char>),
    Structured(JqExprStructuredView),
}

/// What a [`JqExprStructured`] stands for.
pub enum JqExprStructuredView {
    Inline { value: Seq<char> },
    File { path: Seq<char> },
}

impl View for JqExprStructured {
    type V = JqExprStructuredView;

    open spec fn view(&self) -> JqExprStructuredView {
        match self {
            JqExprStructured::Inline { value } => JqExprStructuredView::Inline { value: value@ },
            JqExprStructured::File { path } => JqExprStructuredView::File { path: path@ },
        }
    }
}

impl View for JqExpr {
    type V = JqExprView;

    open spec fn view(&self) -> JqExprView {
        match self {
            JqExpr::Inline(text) => JqExprView::Inline(text@),
            JqExpr::Structured(structured) => JqExprView::Structured(structured@),
        }
    }
}

/// The tag of an expression: a string, or the number of the variant.
pub open spec fn expression_tag(tag: Option<JsonView>) -> Option<Seq<char>> {
    match tag {
        Some(JsonView::String(tag)) => Some(tag),
        Some(JsonView::Number(NumberView::PosInt(0))) => Some("jq-expr"@),
        Some(JsonView::Number(NumberView::PosInt(1))) => Some("jq-file"@),
        _ => None,
    }
}

/// The tag of an expression.
fn read_expression_tag(tag: Option<&Json>) -> (text: Option<&str>)
    ensures
        option_view(text) == expression_tag(
            match tag {
                Some(tag) => Some(tag@),
                None => None,
            },
        ),
{
    match tag {
        Some(Json::String(tag)) => Some(tag.as_str()),
        Some(Json::Number(Number::PosInt(0))) => Some("jq-expr"),
        Some(Json::Number(Number::PosInt(1))) => Some("jq-file"),
        _ => None,
    }
}

/// The expression that a JSON value is read as: a string is an inline expression, an object or a
/// list is told by its tag, and anything else is no expression.
pub open spec fn jq_expr_from(value: JsonView) -> Result<JqExprView, Seq<char>> {
    if let JsonView::String(text) = value {
        Ok(JqExprView::Inline(text))
    } else {
        let tag = expression_tag(tag_of(value));
        let inner = tagged_text(value, "value"@);
        let path = tagged_text(value, "path"@);
        if tag == Some("jq-expr"@) && inner is Some {
            Ok(JqExprView::Structured(JqExprStructuredView::Inline { value: inner->0 }))
        } else if tag == Some("jq-file"@) && path is Some {
            Ok(JqExprView::Structured(JqExprStructuredView::File { path: path->0 }))
        } else {
            Err("expected a jq expression"@)
        }
    }
}

/// The JSON value that an expression is written as.
pub open spec fn jq_expr_json(expr: JqExprView) -> JsonView {
    match expr {
        JqExprView::Inline(text) => JsonView::String(text),
        JqExprView::Structured(JqExprStructuredView::Inline { value }) => tagged(
            "jq-expr"@,
            "value"@,
            value,
        ),
        JqExprView::Structured(JqExprStructuredView::File { path }) => tagged(
            "jq-file"@,
            "path"@,
            path,
        ),
    }
}

/// The source text of an expression: the text of a file without the white space around it, any
/// other as it stands.
pub open spec fn expression_text(expr: JqExprView, sources: SourcesView) -> Result<
    Seq<char>,
    JqExprErrorView,
> {
    match expr {
        JqExprView::Inline(text) => Ok(text),
        JqExprView::Structured(JqExprStructuredView::Inline { value }) => Ok(value),
        JqExprView::Structured(JqExprStructuredView::File { path }) => match reading_of(
            sources.files,
            path,
        ) {
            ReadingView::Text(text) => Ok(trimmed(text)),
            ReadingView::Failure(source) => Err(JqExprErrorView::FileRead { path, source }),
        },
    }
}

/// The file that an expression is to be read from.
pub open spec fn expression_file(expr: JqExprView) -> Option<Seq<char>> {
    match expr {
        JqExprView::Structured(JqExprStructuredView::File { path }) => Some(path),
        _ => None,
    }
}

impl JqExpr {
    /// A copy of this expression.
    pub fn copy(&self) -> (copy: JqExpr)
        ensures
            copy@ == self@,
    {
        match self {
            JqExpr::Inline(text) => JqExpr::Inline(text.clone()),
            JqExpr::Structured(JqExprStructured::Inline { value }) => JqExpr::Structured(
                JqExprStructured::Inline { value: value.clone() },
            ),
            JqExpr::Structured(JqExprStructured::File { path }) => JqExpr::Structured(
                JqExprStructured::File { path: path.clone() },
            ),
        }
    }

    /// Reads an expression from its JSON form.
    pub fn from_json(value: &Json) -> (expr: Result<JqExpr, String>)
        ensures
            result_view(expr) == jq_expr_from(value@),
    {
        if let Some(text) = value.as_str() {
            return Ok(JqExpr::Inline(text.to_owned()));
        }
        let tag = read_expression_tag(get_tag(value));
        if let Some(tag) = tag {
            if text_eq(tag, "jq-expr") {
                if let Some(value) = get_tagged_text(value, "value") {
                    return Ok(JqExpr::Structured(JqExprStructured::Inline { value }));
                }
            } else if text_eq(tag, "jq-file") {
                if let Some(path) = get_tagged_text(value, "path") {
                    return Ok(JqExpr::Structured(JqExprStructured::File { path }));
                }
            }
        }
        proof {
            lemma_tags_differ();
        }
        Err("expected a jq expression".to_owned())
    }

    /// The JSON form of this expression.
    pub fn to_json(&self) -> (value: Json)
        ensures
            value@ == jq_expr_json(self@),
    {
        match self {
            JqExpr::Inline(text) => Json::String(text.clone()),
            JqExpr::Structured(JqExprStructured::Inline { value }) => tagged_object(
                "jq-expr",
                "value",
                value.as_str(),
            ),
            JqExpr::Structured(JqExprStructured::File { path }) => tagged_object(
                "jq-file",
                "path",
                path.as_str(),
            ),
        }
    }

    /// The source text of the expression: the inline text, or the trimmed text of the file.
    pub fn resolve(&self, sources: &Sources) -> (text: Result<String, JqExprError>)
        ensures
            result_view(text) == expression_text(self@, sources@),
    {
        match self {
            JqExpr::Inline(text) => Ok(text.clone()),
            JqExpr::Structured(JqExprStructured::Inline { value }) => Ok(value.clone()),
            JqExpr::Structured(JqExprStructured::File { path }) => match sources.file(
                path.as_str(),
            ) {
                Reading::Text(text) => Ok(trim(text.as_str())),
                Reading::Failure(source) => Err(
                    JqExprError::FileRead { path: path.clone(), source },
                ),
            },
        }
    }

    /// The file that the expression is to be read from.
    pub fn file(&self) -> (path: Option<&str>)
        ensures
            match path {
                Some(path) => expression_file(self@) == Some(path@),
                None => expression_file(self@) is None,
            },
    {
        match self {
            JqExpr::Structured(JqExprStructured::File { path }) => Some(path.as_str()),
            _ => None,
        }
    }
}

proof fn lemma_tags_differ()
    ensures
        "jq-expr"@ != "jq-file"@,
{
    reveal_strlit("jq-expr");
    reveal_strlit("jq-file");
    assert("jq-expr"@[3] != "jq-file"@[3]);
}

/// An expression is read back from its JSON form as it was written.
pub proof fn law_expression_round_trip(expr: JqExprView)
    ensures
        jq_expr_from(jq_expr_json(expr)) == Ok::<JqExprView, Seq<char>>(expr),
{
    lemma_tags_differ();
    reveal_strlit("__nixhapi");
    reveal_strlit("value");
    reveal_strlit("path");
    assert("__nixhapi"@.len() == 9 && "value"@.len() == 5 && "path"@.len() == 4);
    match expr {
        JqExprView::Inline(_) => {},
        JqExprView::Structured(JqExprStructuredView::Inline { value }) => {
            lemma_tagged("jq-expr"@, "value"@, value);
        },
        JqExprView::Structured(JqExprStructuredView::File { path }) => {
            lemma_tagged("jq-file"@, "path"@, path);
        },
    }
}

} // verus!
