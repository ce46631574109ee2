//! Readings of the files and environment variables that field values and expressions refer to.

use crate::strmap::{entry_views, lemma_views_lookup, lemma_views_put, lookup, put, StrMap};
use vstd::prelude::*;

verus! {

/// What reading a file or a variable gave: its text, or why there is none.
#[derive(Debug, PartialEq)]
pub enum Reading {
    Text(String),
    Failure(String),
}

/// What a [`Reading`] stands for.
pub enum ReadingView {
    Text(Seq<char>),
    Failure(Seq<char>),
}

impl View for Reading {
    type V = ReadingView;

    open spec fn view(&self) -> ReadingView {
        match self {
            Reading::Text(text) => ReadingView::Text(text@),
            Reading::Failure(message) => ReadingView::Failure(message@),
        }
    }
}

impl Reading {
    /// A copy of this reading.
    pub fn copy(&self) -> (copy: Reading)
        ensures
            copy@ == self@,
    {
        match self {
            Reading::Text(text) => Reading::Text(text.clone()),
            Reading::Failure(message) => Reading::Failure(message.clone()),
        }
    }
}

/// Readings by path and by variable name.
#[derive(Debug, PartialEq)]
pub struct Sources {
    pub files: StrMap<Reading>,
    pub variables: StrMap<Reading>,
}

/// What [`Sources`] stand for.
pub struct SourcesView {
    pub files: Seq<(Seq<char>, ReadingView)>,
    pub variables: Seq<(Seq<char>, ReadingView)>,
}

impl View for Sources {
    type V = SourcesView;

    open spec fn view(&self) -> SourcesView {
        SourcesView { files: entry_views(self.files@), variables: entry_views(self.variables@) }
    }
}

/// What stands for a source that was not read.
pub open spec fn reading_of(readings: Seq<(Seq<char>, ReadingView)>, name: Seq<char>) -> ReadingView {
    match lookup(readings, name) {
        Some(reading) => reading,
        None => ReadingView::Failure("not read"@),
    }
}

impl Sources {
    /// No readings.
    pub fn new() -> (sources: Sources)
        ensures
            sources@ == (SourcesView { files: Seq::empty(), variables: Seq::empty() }),
    {
        let sources = Sources { files: StrMap::new(), variables: StrMap::new() };
        assert(sources@.files =~= Seq::empty());
        assert(sources@.variables =~= Seq::empty());
        sources
    }

    /// These readings and that of the file at `path`.
    pub fn with_file(self, path: &str, reading: Reading) -> (sources: Sources)
        ensures
            sources@ == (SourcesView {
                files: put(self@.files, path@, reading@),
                variables: self@.variables,
            }),
    {
        proof {
            lemma_views_put(self.files@, path@, reading);
        }
        Sources { files: self.files.put(path.to_owned(), reading), variables: self.variables }
    }

    /// These readings and that of the variable `name`.
    pub fn with_variable(self, name: &str, reading: Reading) -> (sources: Sources)
        ensures
            sources@ == (SourcesView {
                files: self@.files,
                variables: put(self@.variables, name@, reading@),
            }),
    {
        proof {
            lemma_views_put(self.variables@, name@, reading);
        }
        Sources { files: self.files, variables: self.variables.put(name.to_owned(), reading) }
    }

    /// What reading the file at `path` gave.
    pub fn file(&self, path: &str) -> (reading: Reading)
        ensures
            reading@ == reading_of(self@.files, path@),
    {
        proof {
            lemma_views_lookup(self.files@, path@);
        }
        match self.files.get(path) {
            Some(reading) => reading.copy(),
            None => Reading::Failure("not read".to_owned()),
        }
    }

    /// What reading the variable `name` gave.
    pub fn variable(&self, name: &str) -> (reading: Reading)
        ensures
            reading@ == reading_of(self@.variables, name@),
    {
        proof {
            lemma_views_lookup(self.variables@, name@);
        }
        match self.variables.get(name) {
            Some(reading) => reading.copy(),
            None => Reading::Failure("not read".to_owned()),
        }
    }
}

} // verus!
