//! Errors as messages for the user.

use vstd::prelude::*;
use crate::text;

verus! {

/// An error, told in one message.
#[derive(Debug)]
pub struct ErrorReport {
    message: String,
}

impl View for ErrorReport {
    type V = Seq<char>;

    closed spec fn view(&self) -> Seq<char> {
        self.message@
    }
}

/// What an operation that can fail gives back.
pub type Fallible<T> = Result<T, ErrorReport>;

impl ErrorReport {
    /// An error with this message.
    pub fn new(message: &str) -> (result: ErrorReport)
        ensures
            result@ == message@,
    {
        ErrorReport { message: message.to_owned() }
    }

    /// The message.
    pub fn message(&self) -> (result: &str)
        ensures
            result@ == self@,
    {
        self.message.as_str()
    }

    /// The error as it is shown on a terminal.
    pub fn to_text(&self) -> (result: String)
        ensures
            result@ == "error: "@ + self@,
    {
        text::cat2("error: ", self.message.as_str())
    }
}

/// Where an error comes from.
#[derive(Clone, Copy, Debug, PartialEq, Eq)]
pub enum Origin {
    Io,
    PathPrefix,
    Walk,
    Database,
    Http,
    TomlWrite,
    Utf8,
    Json,
    TomlRead,
}

/// What stands in front of the words of an error.
pub open spec fn origin_text(origin: Origin) -> Seq<char> {
    match origin {
        Origin::Io => "I/O error: "@,
        Origin::PathPrefix => "Path prefix error: "@,
        Origin::Walk => "Directory traversal error: "@,
        Origin::Database => "Database error: "@,
        Origin::Http => "HTTP error: "@,
        Origin::TomlWrite => "TOML serialization error: "@,
        Origin::Utf8 => "UTF-8 conversion error: "@,
        Origin::Json => "JSON error: "@,
        Origin::TomlRead => "TOML error: "@,
    }
}

impl ErrorReport {
    /// An error that comes from elsewhere, in its own words.
    pub fn from_origin(origin: Origin, words: &str) -> (result: ErrorReport)
        ensures
            result@ == origin_text(origin) + words@,
    {
        let prefix = match origin {
            Origin::Io => "I/O error: ",
            Origin::PathPrefix => "Path prefix error: ",
            Origin::Walk => "Directory traversal error: ",
            Origin::Database => "Database error: ",
            Origin::Http => "HTTP error: ",
            Origin::TomlWrite => "TOML serialization error: ",
            Origin::Utf8 => "UTF-8 conversion error: ",
            Origin::Json => "JSON error: ",
            Origin::TomlRead => "TOML error: ",
        };
        ErrorReport { message: text::cat2(prefix, words) }
    }
}

/// What is wrong with a card file, and where. The lines are counted from zero.
pub struct ParserError {
    pub message: String,
    pub file_path: String,
    pub line_num: usize,
}

/// What a parser error says. The lines are shown counted from one.
pub open spec fn parser_text(e: ParserError) -> Seq<char> {
    e.message@ + " Location: "@ + e.file_path@ + ":"@ + text::decimal(e.line_num as nat + 1)
}

impl ErrorReport {
    /// The error for what is wrong with a card file.
    pub fn from_parser(e: &ParserError) -> (result: ErrorReport)
        ensures
            result@ == parser_text(*e),
    {
        let mut message = text::cat5(
            e.message.as_str(),
            " Location: ",
            e.file_path.as_str(),
            ":",
            "",
        );
        proof {
            reveal_strlit("");
            assert(message@ =~= e.message@ + " Location: "@ + e.file_path@ + ":"@);
        }
        text::push_decimal(&mut message, e.line_num as u128 + 1);
        ErrorReport { message }
    }
}

/// Fails with this message.
pub fn fail<T>(message: &str) -> (result: Fallible<T>)
    ensures
        result matches Err(e) && e@ == message@,
{
    Err(ErrorReport::new(message))
}

/// An error in a file is told with its message first and its place last, the line
/// counted from one.
pub proof fn law_errors_are_told_with_their_place(e: ParserError)
    ensures
        text::starts_with(parser_text(e), e.message@),
        text::ends_with(
            parser_text(e),
            e.file_path@ + ":"@ + text::decimal((e.line_num + 1) as nat),
        ),
{
    let place = e.file_path@ + ":"@ + text::decimal((e.line_num + 1) as nat);
    let middle = " Location: "@;
    assert(parser_text(e) =~= e.message@ + (middle + place));
    assert(parser_text(e) =~= (e.message@ + middle) + place);
    text::law_beginnings_and_ends_are_found(e.message@, middle + place, place);
    text::law_beginnings_and_ends_are_found(e.message@ + middle, place, place);
}

} // verus!
