//! The export of a collection.

use vstd::prelude::*;
use crate::db::{ReviewRow, SessionRow};
use crate::types::card::{Card, CardContent};
use crate::types::card_hash::CardHash;
use crate::types::performance::{Grade, Performance, Real, ReviewedPerformance};
use crate::types::timestamp::{Date, Timestamp};

verus! {

/// Everything of a collection.
pub struct Export {
    pub cards: Vec<CardExport>,
    pub sessions: Vec<SessionExport>,
}

/// A card of an export.
pub struct CardExport {
    pub hash: CardHash,
    pub family_hash: Option<CardHash>,
    pub deck_name: String,
    pub location: LocationExport,
    pub content: CardContentExport,
    pub performance: Option<PerformanceExport>,
}

/// Where a card stands.
pub struct LocationExport {
    pub file_path: String,
    pub line_start: usize,
    pub line_end: usize,
}

/// What a card asks.
pub enum CardContentExport {
    Basic { question: String, answer: String },
    /// The bytes of `text` from `start` through `end` are deleted.
    Cloze { text: String, start: usize, end: usize },
}

/// How well a card is known.
#[derive(Clone, Copy, Debug, PartialEq, Eq, Structural)]
pub struct PerformanceExport {
    pub last_reviewed_at: Timestamp,
    pub stability: Real,
    pub difficulty: Real,
    pub interval_raw: Real,
    pub interval_days: i64,
    pub due_date: Date,
    pub review_count: usize,
}

/// A session of an export.
pub struct SessionExport {
    pub session_id: i64,
    pub started_at: Timestamp,
    pub ended_at: Timestamp,
    pub reviews: Vec<ReviewExport>,
}

/// A review of an export.
#[derive(Clone, Copy, Debug, PartialEq, Eq, Structural)]
pub struct ReviewExport {
    pub review_id: i64,
    pub hash: CardHash,
    pub reviewed_at: Timestamp,
    pub grade: Grade,
    pub stability: Real,
    pub difficulty: Real,
    pub interval_raw: Real,
    pub interval_days: i64,
    pub due_date: Date,
}

/// How well a card is known, as it is exported. A card that the database does
/// not know, or that was never reviewed, has nothing to export.
pub open spec fn exported(p: Option<Performance>) -> Option<PerformanceExport> {
    match p {
        Some(Performance::Reviewed(rp)) => Some(
            PerformanceExport {
                last_reviewed_at: rp.last_reviewed_at,
                stability: rp.stability,
                difficulty: rp.difficulty,
                interval_raw: rp.interval_raw,
                interval_days: rp.interval_days,
                due_date: rp.due_date,
                review_count: rp.review_count,
            },
        ),
        _ => None,
    }
}

/// How well a card is known, as it is exported.
pub fn export_performance(p: &Option<Performance>) -> (result: Option<PerformanceExport>)
    ensures
        result == exported(*p),
{
    match p {
        Some(Performance::Reviewed(rp)) => Some(
            PerformanceExport {
                last_reviewed_at: rp.last_reviewed_at,
                stability: rp.stability,
                difficulty: rp.difficulty,
                interval_raw: rp.interval_raw,
                interval_days: rp.interval_days,
                due_date: rp.due_date,
                review_count: rp.review_count,
            },
        ),
        Some(Performance::New) => None,
        None => None,
    }
}

/// What a card asks, as it is exported.
pub open spec fn content_matches(content: CardContent, e: CardContentExport) -> bool {
    match (content, e) {
        (
            CardContent::Basic { question, answer },
            CardContentExport::Basic { question: q, answer: a },
        ) => q == question && a == answer,
        (
            CardContent::Cloze { text, start, end },
            CardContentExport::Cloze { text: t, start: s, end: n },
        ) => t == text && s == start && n == end,
        _ => false,
    }
}

/// Whether `e` is the export of a card with what is known of it.
pub open spec fn is_export(card: Card, p: Option<Performance>, e: CardExport) -> bool {
    &&& e.hash == card.id()
    &&& e.family_hash == card.family()
    &&& e.deck_name@ == card.deck()
    &&& e.location.file_path@ == card.file()
    &&& (e.location.line_start, e.location.line_end) == card.lines()
    &&& content_matches(card.asks(), e.content)
    &&& e.performance == exported(p)
}

/// Exports a card.
pub fn export_card(card: &Card, p: &Option<Performance>) -> (result: CardExport)
    ensures
        is_export(*card, *p, result),
{
    let (line_start, line_end): (usize, usize) = card.range();
    let content = match card.content() {
        CardContent::Basic { question, answer } => CardContentExport::Basic {
            question: question.clone(),
            answer: answer.clone(),
        },
        CardContent::Cloze { text, start, end } => CardContentExport::Cloze {
            text: text.clone(),
            start: *start,
            end: *end,
        },
    };
    CardExport {
        hash: card.hash(),
        family_hash: card.family_hash(),
        deck_name: card.deck_name().to_owned(),
        location: LocationExport {
            file_path: card.file_path().to_owned(),
            line_start,
            line_end,
        },
        content,
        performance: export_performance(p),
    }
}

/// What the database knows of a card at a place of the list.
pub open spec fn known_of(known: Seq<Option<Performance>>, i: int) -> Option<Performance> {
    if 0 <= i < known.len() {
        known[i]
    } else {
        None
    }
}

/// Exports the cards of a collection, given what the database knows of each.
pub fn get_card_export(cards: &Vec<Card>, known: &Vec<Option<Performance>>) -> (result: Vec<
    CardExport,
>)
    ensures
        result@.len() == cards@.len(),
        forall|i: int|
            0 <= i < cards@.len() ==> is_export(
                cards@[i],
                known_of(known@, i),
                #[trigger] result@[i],
            ),
{
    let mut result: Vec<CardExport> = Vec::new();
    let mut i: usize = 0;
    while i < cards.len()
        invariant
            i <= cards@.len(),
            result@.len() == i,
            forall|k: int|
                0 <= k < i ==> is_export(cards@[k], known_of(known@, k), #[trigger] result@[k]),
        decreases cards@.len() - i,
    {
        let p: Option<Performance> = if i < known.len() {
            known[i]
        } else {
            None
        };
        result.push(export_card(&cards[i], &p));
        i += 1;
    }
    result
}

/// A review as it is exported.
pub open spec fn exported_review(r: ReviewRow) -> ReviewExport {
    ReviewExport {
        review_id: r.review_id,
        hash: r.data.card_hash,
        reviewed_at: r.data.reviewed_at,
        grade: r.data.grade,
        stability: r.data.stability,
        difficulty: r.data.difficulty,
        interval_raw: r.data.interval_raw,
        interval_days: r.data.interval_days,
        due_date: r.data.due_date,
    }
}

/// Exports a review.
pub fn export_review(r: &ReviewRow) -> (result: ReviewExport)
    ensures
        result == exported_review(*r),
{
    ReviewExport {
        review_id: r.review_id,
        hash: r.data.card_hash,
        reviewed_at: r.data.reviewed_at,
        grade: r.data.grade,
        stability: r.data.stability,
        difficulty: r.data.difficulty,
        interval_raw: r.data.interval_raw,
        interval_days: r.data.interval_days,
        due_date: r.data.due_date,
    }
}

/// Exports a session with its reviews.
pub fn export_session(session: &SessionRow, reviews: &Vec<ReviewRow>) -> (result: SessionExport)
    ensures
        result.session_id == session.session_id,
        result.started_at == session.started_at,
        result.ended_at == session.ended_at,
        result.reviews@ == reviews@.map_values(|r: ReviewRow| exported_review(r)),
{
    let mut out: Vec<ReviewExport> = Vec::new();
    let mut i: usize = 0;
    while i < reviews.len()
        invariant
            i <= reviews@.len(),
            out@.len() == i,
            forall|k: int| 0 <= k < i ==> #[trigger] out@[k] == exported_review(reviews@[k]),
        decreases reviews@.len() - i,
    {
        out.push(export_review(&reviews[i]));
        i += 1;
    }
    proof {
        assert(out@ =~= reviews@.map_values(|r: ReviewRow| exported_review(r)));
    }
    SessionExport {
        session_id: session.session_id,
        started_at: session.started_at,
        ended_at: session.ended_at,
        reviews: out,
    }
}

/// Exports the sessions of a collection, each with its reviews.
pub fn get_session_export(sessions: &Vec<(SessionRow, Vec<ReviewRow>)>) -> (result: Vec<
    SessionExport,
>)
    ensures
        result@.len() == sessions@.len(),
        forall|i: int|
            0 <= i < sessions@.len() ==> {
                &&& (#[trigger] result@[i]).session_id == sessions@[i].0.session_id
                &&& result@[i].started_at == sessions@[i].0.started_at
                &&& result@[i].ended_at == sessions@[i].0.ended_at
                &&& result@[i].reviews@ == sessions@[i].1@.map_values(
                    |r: ReviewRow| exported_review(r),
                )
            },
{
    let mut result: Vec<SessionExport> = Vec::new();
    let mut i: usize = 0;
    while i < sessions.len()
        invariant
            i <= sessions@.len(),
            result@.len() == i,
            forall|k: int|
                0 <= k < i ==> {
                    &&& (#[trigger] result@[k]).session_id == sessions@[k].0.session_id
                    &&& result@[k].started_at == sessions@[k].0.started_at
                    &&& result@[k].ended_at == sessions@[k].0.ended_at
                    &&& result@[k].reviews@ == sessions@[k].1@.map_values(
                        |r: ReviewRow| exported_review(r),
                    )
                },
        decreases sessions@.len() - i,
    {
        result.push(export_session(&sessions[i].0, &sessions[i].1));
        i += 1;
    }
    result
}

/// Each field of an exported performance is the field of the same name of the
/// stored one, and a card that was never reviewed has none to export.
pub proof fn law_performances_are_exported_field_by_field(rp: ReviewedPerformance)
    ensures
        exported(Some(Performance::Reviewed(rp))) matches Some(e) && {
            &&& e.last_reviewed_at == rp.last_reviewed_at
            &&& e.stability == rp.stability
            &&& e.difficulty == rp.difficulty
            &&& e.interval_raw == rp.interval_raw
            &&& e.interval_days == rp.interval_days
            &&& e.due_date == rp.due_date
            &&& e.review_count == rp.review_count
        },
        exported(Some(Performance::New)) is None,
        exported(None) is None,
{
}

/// Each field of an exported review is the field of the same name of the stored
/// one.
pub proof fn law_reviews_are_exported_field_by_field(r: ReviewRow)
    ensures
        ({
            let e = exported_review(r);
            &&& e.review_id == r.review_id
            &&& e.hash == r.data.card_hash
            &&& e.reviewed_at == r.data.reviewed_at
            &&& e.grade == r.data.grade
            &&& e.stability == r.data.stability
            &&& e.difficulty == r.data.difficulty
            &&& e.interval_raw == r.data.interval_raw
            &&& e.interval_days == r.data.interval_days
            &&& e.due_date == r.data.due_date
        }),
{
}

/// An exported card says what the card says, where it stands and what is known
/// of it, each in its own field.
pub proof fn law_cards_are_exported_field_by_field(
    card: Card,
    p: Option<Performance>,
    e: CardExport,
)
    requires
        is_export(card, p, e),
    ensures
        e.hash == card.id(),
        e.family_hash == card.family(),
        e.deck_name@ == card.deck(),
        e.location.file_path@ == card.file(),
        e.location.line_start == card.lines().0,
        e.location.line_end == card.lines().1,
        card.asks() matches CardContent::Basic { question, answer } ==> (e.content matches
            CardContentExport::Basic { question: q, answer: a } && q@ == question@ && a@
            == answer@),
        card.asks() matches CardContent::Cloze { text, start, end } ==> (e.content matches
            CardContentExport::Cloze { text: t, start: s, end: n } && t@ == text@ && s == start
            && n == end),
        p matches Some(Performance::Reviewed(rp)) ==> (e.performance matches Some(x) && x.stability
            == rp.stability && x.difficulty == rp.difficulty && x.due_date == rp.due_date),
        !(p matches Some(Performance::Reviewed(_))) ==> e.performance is None,
{
}

/// The card at a place goes with what the database knows at the same place.
pub proof fn law_cards_go_with_their_own_performance(known: Seq<Option<Performance>>, i: int)
    ensures
        0 <= i < known.len() ==> known_of(known, i) == known[i],
        i >= known.len() ==> known_of(known, i) is None,
{
}

} // verus!
