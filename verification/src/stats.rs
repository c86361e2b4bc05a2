//! Statistics of a collection.

use vstd::prelude::*;
use crate::path;
use crate::text;
use crate::types::card::Card;
use crate::types::card_hash::CardHash;

verus! {

/// The form in which statistics are given.
#[derive(Clone, Copy, Debug, PartialEq, Eq)]
pub enum StatsFormat {
    Html,
    Json,
}

impl StatsFormat {
    /// The word for the form.
    pub fn to_text(&self) -> (result: &'static str)
        ensures
            result@ == match *self {
                StatsFormat::Html => "html"@,
                StatsFormat::Json => "json"@,
            },
    {
        match self {
            StatsFormat::Html => "html",
            StatsFormat::Json => "json",
        }
    }
}

/// Numbers of a collection.
#[derive(Clone, Copy, Debug, PartialEq, Eq, Structural)]
pub struct Stats {
    pub cards_in_deck_count: usize,
    pub cards_in_db_count: usize,
    pub tex_macro_count: usize,
    pub cards_reviewed_today_count: usize,
}

/// The numbers of a collection, given what its files and its database hold.
pub fn get_stats(
    cards: &Vec<Card>,
    known: &Vec<CardHash>,
    macros: &Vec<(String, String)>,
    reviewed_today: usize,
) -> (result: Stats)
    ensures
        result.cards_in_deck_count == cards@.len(),
        result.cards_in_db_count == known@.len(),
        result.tex_macro_count == macros@.len(),
        result.cards_reviewed_today_count == reviewed_today,
{
    Stats {
        cards_in_deck_count: cards.len(),
        cards_in_db_count: known.len(),
        tex_macro_count: macros.len(),
        cards_reviewed_today_count: reviewed_today,
    }
}

/// What a collection is called on its page: its directory.
pub fn collection_title(directory: &str) -> (result: String)
    ensures
        result@ == match path::file_name(directory@) {
            Some(name) => name,
            None => "Collection"@,
        },
{
    match path::file_name_of(directory) {
        Some(name) => name,
        None => "Collection".to_owned(),
    }
}

/// A page that stands on its own: the style sheet is part of it.
pub open spec fn standalone(name: Seq<char>, css: Seq<char>, body: Seq<char>) -> Seq<char> {
    "<!DOCTYPE html>\n<html><head><meta charset=\"utf-8\"><meta name=\"viewport\" content=\"width=device-width, initial-scale=1\"><title>"@
        + name + " \u{2014} Stats</title><style>"@ + css + "</style></head><body>"@ + body
        + "</body></html>"@
}

/// Puts the statistics of a collection on a page that stands on its own, so
/// that it can be opened from a file.
pub fn stats_html(name: &str, css: &str, body: &str) -> (result: String)
    ensures
        result@ == standalone(name@, css@, body@),
{
    text::cat7(
        "<!DOCTYPE html>\n<html><head><meta charset=\"utf-8\"><meta name=\"viewport\" content=\"width=device-width, initial-scale=1\"><title>",
        name,
        " \u{2014} Stats</title><style>",
        css,
        "</style></head><body>",
        body,
        "</body></html>",
    )
}

} // verus!
