//! What the server is configured with and what its browse endpoint answers.

use crate::reading_dirs::{ReadDirResult, ReadDirResultView};
use vstd::prelude::*;

verus! {

/// The server's configuration.
#[derive(Debug, PartialEq, Eq)]
pub struct Config {
    db_url: String,
}

impl Config {
    /// A configuration with the given database address.
    pub fn new(db_url: String) -> (config: Config)
        ensures
            config.db_url_view() == db_url@,
    {
        Config { db_url }
    }

    /// The configuration for a SQLite database in the file `db_file`, which
    /// is opened for reading and writing and created where it is missing.
    pub fn sqlite(db_file: &str) -> (config: Config)
        ensures
            config.db_url_view() == "sqlite://"@ + db_file@ + "?mode=rwc"@,
    {
        let mut db_url = String::from_str("sqlite://");
        db_url.append(db_file);
        db_url.append("?mode=rwc");
        Config { db_url }
    }

    /// The database address, as a mathematical value.
    pub closed spec fn db_url_view(&self) -> Seq<char> {
        self.db_url@
    }

    /// The database address.
    pub fn db_url(&self) -> (url: &String)
        ensures
            url@ == self.db_url_view(),
    {
        &self.db_url
    }
}

/// An error as the browse endpoint reports it.
#[derive(Debug)]
pub struct JsonError {
    message: String,
}

impl View for JsonError {
    type V = Seq<char>;

    closed spec fn view(&self) -> Seq<char> {
        self.message@
    }
}

impl JsonError {
    /// An error with the given message.
    pub fn new(message: String) -> (error: JsonError)
        ensures
            error@ == message@,
    {
        JsonError { message }
    }

    /// The error's message.
    pub fn message(&self) -> (message: &String)
        ensures
            message@ == self@,
    {
        &self.message
    }
}

/// What the browse endpoint answers: a listing, or why there is none.
#[derive(Debug)]
pub enum ApiBrowseResult {
    Error(JsonError),
    Result(ReadDirResult),
}

/// An answer of the browse endpoint as a mathematical value.
pub enum ApiBrowseResultView {
    Error(Seq<char>),
    Result(ReadDirResultView),
}

impl View for ApiBrowseResult {
    type V = ApiBrowseResultView;

    open spec fn view(&self) -> ApiBrowseResultView {
        match self {
            ApiBrowseResult::Error(error) => ApiBrowseResultView::Error(error@),
            ApiBrowseResult::Result(listing) => ApiBrowseResultView::Result(listing@),
        }
    }
}

impl ApiBrowseResult {
    /// The endpoint's answer to a listing request that gave a listing or
    /// failed with a message.
    pub fn from_outcome(outcome: Result<ReadDirResult, String>) -> (answer: ApiBrowseResult)
        ensures
            answer@ == (match outcome {
                Ok(listing) => ApiBrowseResultView::Result(listing@),
                Err(message) => ApiBrowseResultView::Error(message@),
            }),
    {
        match outcome {
            Ok(result) => ApiBrowseResult::Result(result),
            Err(message) => ApiBrowseResult::Error(JsonError::new(message)),
        }
    }
}

} // verus!
