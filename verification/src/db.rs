//! The rules of the review database.
//!
//! The statements are run elsewhere. Here it is decided what they mean.

use vstd::prelude::*;
use crate::drill::post::ReviewRecord;
use crate::error::{fail, Fallible};
use crate::list;
use crate::text;
use crate::types::card_hash;
use crate::types::card_hash::CardHash;
use crate::types::performance::{Performance, Real, ReviewedPerformance};
use crate::types::timestamp::{Date, Timestamp};

verus! {

/// A session as it is stored.
#[derive(Clone, Copy, Debug, PartialEq, Eq, Structural)]
pub struct SessionRow {
    pub session_id: i64,
    pub started_at: Timestamp,
    pub ended_at: Timestamp,
}

/// A review as it is stored.
#[derive(Clone, Copy, Debug, PartialEq, Eq, Structural)]
pub struct ReviewRow {
    pub review_id: i64,
    pub data: ReviewRecord,
}

/// Whether a card is due: it was never reviewed, or its day has come.
pub open spec fn is_due(due_date: Option<Date>, today: Date) -> bool {
    match due_date {
        None => true,
        Some(d) => d.days <= today.days,
    }
}

/// Whether the card of a row is due.
pub open spec fn row_is_due(today: Date) -> spec_fn((CardHash, Option<Date>)) -> bool {
    |r: (CardHash, Option<Date>)| is_due(r.1, today)
}

/// The cards that are due on a day.
pub fn due_today(rows: &Vec<(CardHash, Option<Date>)>, today: Date) -> (result: Vec<CardHash>)
    ensures
        result@ == list::keep(rows@, row_is_due(today)).map_values(
            |r: (CardHash, Option<Date>)| r.0,
        ),
        forall|h: CardHash| #[trigger]
            result@.contains(h) <==> exists|i: int|
                0 <= i < rows@.len() && (#[trigger] rows@[i]).0 == h && (rows@[i].1 matches Some(d)
                    ==> d.days <= today.days),
{
    let ghost p = row_is_due(today);
    let ghost f = |r: (CardHash, Option<Date>)| r.0;
    let mut due: Vec<CardHash> = Vec::new();
    let mut i: usize = 0;
    proof {
        assert(due@ =~= list::keep(rows@.take(0), p).map_values(f));
    }
    while i < rows.len()
        invariant
            i <= rows@.len(),
            p == row_is_due(today),
            f == (|r: (CardHash, Option<Date>)| r.0),
            due@ == list::keep(rows@.take(i as int), p).map_values(f),
        decreases rows@.len() - i,
    {
        let ghost kept = list::keep(rows@.take(i as int), p);
        proof {
            list::lemma_keep_step(rows@, p, i as int);
        }
        let is_due = match rows[i].1 {
            None => true,
            Some(d) => d.days <= today.days,
        };
        if is_due {
            due.push(rows[i].0);
            proof {
                assert(kept.push(rows@[i as int]).map_values(f) =~= kept.map_values(f).push(
                    rows@[i as int].0,
                ));
            }
        }
        i += 1;
    }
    proof {
        assert(rows@.take(i as int) == rows@);
        law_due_rows_are_listed(rows@, today);
        let kept = list::keep(rows@, p);
        assert forall|h: CardHash| #[trigger] due@.contains(h) <==> exists|i: int|
            0 <= i < rows@.len() && (#[trigger] rows@[i]).0 == h && (rows@[i].1 matches Some(d)
                ==> d.days <= today.days) by {
            if due@.contains(h) {
                let k = choose|k: int| 0 <= k < due@.len() && due@[k] == h;
                list::lemma_part_member(kept, rows@, k);
                let i = choose|i: int| 0 <= i < rows@.len() && rows@[i] == kept[k];
                assert(rows@[i].0 == h);
            }
            if exists|i: int|
                0 <= i < rows@.len() && (#[trigger] rows@[i]).0 == h && (rows@[i].1 matches Some(d)
                    ==> d.days <= today.days) {
                let i = choose|i: int|
                    0 <= i < rows@.len() && (#[trigger] rows@[i]).0 == h && (
                    rows@[i].1 matches Some(d) ==> d.days <= today.days);
                assert(kept.contains(rows@[i]));
                let k = choose|k: int| 0 <= k < kept.len() && kept[k] == rows@[i];
                assert(due@[k] == h);
            }
        }
    }
    due
}

/// The columns that hold how well a card is known.
#[derive(Clone, Copy)]
pub struct CardColumns {
    pub last_reviewed_at: Option<Timestamp>,
    pub stability: Option<Real>,
    pub difficulty: Option<Real>,
    pub interval_raw: Option<Real>,
    pub interval_days: Option<i64>,
    pub due_date: Option<Date>,
    pub review_count: i32,
}

/// What the columns of a card mean: it was reviewed if none of them is empty.
pub open spec fn performance_in(c: CardColumns) -> Performance {
    if c.last_reviewed_at is Some && c.stability is Some && c.difficulty is Some && c.interval_raw
        is Some && c.interval_days is Some && c.due_date is Some {
        Performance::Reviewed(
            ReviewedPerformance {
                last_reviewed_at: c.last_reviewed_at->0,
                stability: c.stability->0,
                difficulty: c.difficulty->0,
                interval_raw: c.interval_raw->0,
                interval_days: c.interval_days->0,
                due_date: c.due_date->0,
                review_count: c.review_count as usize,
            },
        )
    } else {
        Performance::New
    }
}

/// What the columns of a card mean.
pub fn performance_of(c: &CardColumns) -> (result: Performance)
    ensures
        result == performance_in(*c),
{
    match (
        c.last_reviewed_at,
        c.stability,
        c.difficulty,
        c.interval_raw,
        c.interval_days,
        c.due_date,
    ) {
        (
            Some(last_reviewed_at),
            Some(stability),
            Some(difficulty),
            Some(interval_raw),
            Some(interval_days),
            Some(due_date),
        ) => Performance::Reviewed(
            ReviewedPerformance {
                last_reviewed_at,
                stability,
                difficulty,
                interval_raw,
                interval_days,
                due_date,
                review_count: c.review_count as usize,
            },
        ),
        _ => Performance::New,
    }
}

/// The columns for how well a card is known. The two counts are stored in 32
/// bits.
pub open spec fn columns_for(p: Performance) -> CardColumns {
    match p {
        Performance::New => CardColumns {
            last_reviewed_at: None,
            stability: None,
            difficulty: None,
            interval_raw: None,
            interval_days: None,
            due_date: None,
            review_count: 0,
        },
        Performance::Reviewed(rp) => CardColumns {
            last_reviewed_at: Some(rp.last_reviewed_at),
            stability: Some(rp.stability),
            difficulty: Some(rp.difficulty),
            interval_raw: Some(rp.interval_raw),
            interval_days: Some(rp.interval_days as i32 as i64),
            due_date: Some(rp.due_date),
            review_count: rp.review_count as i32,
        },
    }
}

/// The columns for how well a card is known.
pub fn columns_of(p: &Performance) -> (result: CardColumns)
    ensures
        result == columns_for(*p),
{
    match p {
        Performance::New => CardColumns {
            last_reviewed_at: None,
            stability: None,
            difficulty: None,
            interval_raw: None,
            interval_days: None,
            due_date: None,
            review_count: 0,
        },
        Performance::Reviewed(rp) => {
            let days: i32 = #[verifier::truncate]
            (rp.interval_days as i32);
            let count: i32 = #[verifier::truncate]
            (rp.review_count as i32);
            CardColumns {
                last_reviewed_at: Some(rp.last_reviewed_at),
                stability: Some(rp.stability),
                difficulty: Some(rp.difficulty),
                interval_raw: Some(rp.interval_raw),
                interval_days: Some(days as i64),
                due_date: Some(rp.due_date),
                review_count: count,
            }
        },
    }
}

/// What is written for a card is read again, as long as its counts fit into
/// their columns.
pub proof fn law_performances_are_read_as_written(p: Performance)
    requires
        p matches Performance::Reviewed(rp) ==> i32::MIN <= rp.interval_days <= i32::MAX
            && rp.review_count <= i32::MAX,
    ensures
        performance_in(columns_for(p)) == p,
{
}

/// The performance of a card that must be there.
pub fn get_card_performance(found: Option<Performance>, hash: CardHash) -> (result: Fallible<
    Performance,
>)
    ensures
        match found {
            Some(p) => result == Ok::<Performance, crate::error::ErrorReport>(p),
            None => result matches Err(e) && e@ == "No performance data found for card with hash "@
                + card_hash::hash_text(hash),
        },
{
    match found {
        Some(p) => Ok(p),
        None => {
            let hex = hash.to_hex();
            let message = text::cat2(
                "No performance data found for card with hash ",
                hex.as_str(),
            );
            fail(message.as_str())
        },
    }
}

/// Refuses to insert a card that is there already.
pub fn check_new_card(exists: bool) -> (result: Fallible<()>)
    ensures
        match result {
            Ok(_) => !exists,
            Err(e) => exists && e@ == "Card already exists"@,
        },
{
    if exists {
        return fail("Card already exists");
    }
    Ok(())
}

/// A deletion, or an update, of one card must have found it.
pub fn check_card_found(rows: usize) -> (result: Fallible<()>)
    ensures
        match result {
            Ok(_) => rows == 1,
            Err(e) => rows != 1 && e@ == "Card not found"@,
        },
{
    if rows != 1 {
        return fail("Card not found");
    }
    Ok(())
}

/// Voiding a review must have found it, with the card it was given for.
pub fn check_voided(rows: usize) -> (result: Fallible<()>)
    ensures
        match result {
            Ok(_) => rows == 1,
            Err(e) => rows != 1 && e@ == "review not found or does not belong to this card"@,
        },
{
    if rows != 1 {
        return fail("review not found or does not belong to this card");
    }
    Ok(())
}

/// Closing a session must have found it.
pub fn check_closed(rows: usize, session_id: i64) -> (result: Fallible<()>)
    ensures
        match result {
            Ok(_) => rows == 1,
            Err(e) => rows != 1 && e@ == "No session with ID "@ + text::signed_decimal(
                session_id as int,
            ) + " to close"@,
        },
{
    if rows != 1 {
        let id = text::signed_decimal_of(session_id);
        let message = text::cat3("No session with ID ", id.as_str(), " to close");
        return fail(message.as_str());
    }
    Ok(())
}

/// Refuses to give a card a new hash where it is missing, or where there is a
/// card with the new one.
pub fn check_rename(old_exists: bool, new_exists: bool) -> (result: Fallible<()>)
    ensures
        match result {
            Ok(_) => old_exists && !new_exists,
            Err(e) => {
                ||| !old_exists && e@ == "Original card not found"@
                ||| old_exists && new_exists && e@
                    == "A card with the new content already exists"@
            },
        },
{
    if !old_exists {
        return fail("Original card not found");
    }
    if new_exists {
        return fail("A card with the new content already exists");
    }
    Ok(())
}

/// The version of the schema of a new database, and the last one that there is
/// a migration to.
pub const SCHEMA_VERSION: i64 = 4;

/// A change of the schema.
#[derive(Clone, Copy, Debug, PartialEq, Eq, Structural)]
pub enum Migration {
    /// Reviews record how long they took.
    DurationMs,
    /// Cards can be bookmarked.
    Bookmarks,
    /// Reviews can be voided.
    Voided,
    /// Reviews are found by card and by session.
    ReviewIndexes,
}

/// The migration to a version.
pub open spec fn migration_to(version: int) -> Option<Migration> {
    if version == 1 {
        Some(Migration::DurationMs)
    } else if version == 2 {
        Some(Migration::Bookmarks)
    } else if version == 3 {
        Some(Migration::Voided)
    } else if version == 4 {
        Some(Migration::ReviewIndexes)
    } else {
        None
    }
}

fn migration_of(version: i64) -> (result: Option<Migration>)
    ensures
        result == migration_to(version as int),
{
    if version == 1 {
        Some(Migration::DurationMs)
    } else if version == 2 {
        Some(Migration::Bookmarks)
    } else if version == 3 {
        Some(Migration::Voided)
    } else if version == 4 {
        Some(Migration::ReviewIndexes)
    } else {
        None
    }
}

/// What is wrong with the version of a database.
pub open spec fn version_error(current: int) -> Option<Seq<char>> {
    if current > SCHEMA_VERSION {
        Some(
            "This database uses schema version "@ + text::signed_decimal(current)
                + ", but this version of hashcards only supports up to schema version "@
                + text::signed_decimal(SCHEMA_VERSION as int) + ". Please upgrade hashcards."@,
        )
    } else if current < 0 {
        Some(
            "Internal error: no migration defined for schema version "@ + text::signed_decimal(
                current + 1,
            ) + "."@,
        )
    } else {
        None
    }
}

/// The migrations that bring a database up to date, each with the version it
/// leads to, in order.
pub fn plan_migrations(current: i64) -> (result: Fallible<Vec<(i64, Migration)>>)
    ensures
        match result {
            Ok(plan) => {
                &&& version_error(current as int) is None
                &&& plan@.len() == SCHEMA_VERSION - current
                &&& forall|i: int|
                    0 <= i < plan@.len() ==> (#[trigger] plan@[i]).0 == current + 1 + i
                        && migration_to(plan@[i].0 as int) == Some(plan@[i].1)
            },
            Err(e) => version_error(current as int) == Some(e@),
        },
{
    if current > SCHEMA_VERSION {
        let found = text::signed_decimal_of(current);
        let known = text::signed_decimal_of(SCHEMA_VERSION);
        let message = text::cat5(
            "This database uses schema version ",
            found.as_str(),
            ", but this version of hashcards only supports up to schema version ",
            known.as_str(),
            ". Please upgrade hashcards.",
        );
        return fail(message.as_str());
    }
    let mut plan: Vec<(i64, Migration)> = Vec::new();
    let mut version: i64 = current + 1;
    while version <= SCHEMA_VERSION
        invariant
            current <= SCHEMA_VERSION,
            current + 1 <= version <= SCHEMA_VERSION + 1,
            version > current + 1 ==> current >= 0,
            plan@.len() == version - (current + 1),
            forall|i: int|
                0 <= i < plan@.len() ==> (#[trigger] plan@[i]).0 == current + 1 + i
                    && migration_to(plan@[i].0 as int) == Some(plan@[i].1),
        decreases SCHEMA_VERSION + 1 - version,
    {
        match migration_of(version) {
            Some(migration) => {
                plan.push((version, migration));
            },
            None => {
                let number = text::signed_decimal_of(version);
                let message = text::cat3(
                    "Internal error: no migration defined for schema version ",
                    number.as_str(),
                    ".",
                );
                return fail(message.as_str());
            },
        }
        version += 1;
    }
    Ok(plan)
}

/// A card that is due on a day is due on every later day, until it is reviewed;
/// it is due on the day that it is due, and on no day before. A card that was
/// never reviewed is due on every day.
pub proof fn law_due_cards_stay_due(due: Date, today: Date, later: Date)
    requires
        today.days <= later.days,
    ensures
        is_due(Some(due), today) ==> is_due(Some(due), later),
        is_due(Some(due), due),
        today.days < due.days ==> !is_due(Some(due), today),
        is_due(None, today),
{
}

/// The cards that are due are those of the rows without a day, and of the rows
/// whose day is not after today; they stand in the order of the rows.
pub proof fn law_due_rows_are_listed(rows: Seq<(CardHash, Option<Date>)>, today: Date)
    ensures
        ({
            let kept = list::keep(rows, row_is_due(today));
            &&& list::is_part(kept, rows)
            &&& forall|i: int|
                0 <= i < kept.len() ==> ((#[trigger] kept[i]).1 matches Some(d) ==> d.days
                    <= today.days)
            &&& forall|i: int|
                0 <= i < rows.len() && ((#[trigger] rows[i]).1 matches Some(d) ==> d.days
                    <= today.days) ==> kept.contains(rows[i])
        }),
{
    list::law_keeping_keeps_order(rows, row_is_due(today));
}

/// Each column holds what it is named after, and a card that was never reviewed
/// has none of them.
pub proof fn law_columns_hold_their_fields(rp: ReviewedPerformance)
    ensures
        ({
            let c = columns_for(Performance::Reviewed(rp));
            &&& c.last_reviewed_at == Some(rp.last_reviewed_at)
            &&& c.stability == Some(rp.stability)
            &&& c.difficulty == Some(rp.difficulty)
            &&& c.interval_raw == Some(rp.interval_raw)
            &&& c.due_date == Some(rp.due_date)
            &&& i32::MIN <= rp.interval_days <= i32::MAX ==> c.interval_days == Some(
                rp.interval_days,
            )
            &&& rp.review_count <= i32::MAX ==> c.review_count == rp.review_count
        }),
        ({
            let c = columns_for(Performance::New);
            &&& c.last_reviewed_at is None
            &&& c.stability is None
            &&& c.difficulty is None
            &&& c.interval_raw is None
            &&& c.interval_days is None
            &&& c.due_date is None
            &&& c.review_count == 0
        }),
{
}

/// A card was reviewed if and only if no column but the count can be empty and
/// none is, and each field is what the column of its name holds.
pub proof fn law_fields_come_from_their_columns(c: CardColumns)
    ensures
        performance_in(c) is New <==> c.last_reviewed_at is None || c.stability is None
            || c.difficulty is None || c.interval_raw is None || c.interval_days is None
            || c.due_date is None,
        performance_in(c) matches Performance::Reviewed(rp) ==> {
            &&& c.last_reviewed_at == Some(rp.last_reviewed_at)
            &&& c.stability == Some(rp.stability)
            &&& c.difficulty == Some(rp.difficulty)
            &&& c.interval_raw == Some(rp.interval_raw)
            &&& c.interval_days == Some(rp.interval_days)
            &&& c.due_date == Some(rp.due_date)
            &&& c.review_count >= 0 ==> rp.review_count == c.review_count
        },
{
}

/// Every change of the schema is made by exactly one migration, and the versions
/// from the first to the current one have one each.
pub proof fn law_each_change_is_made_once(m: Migration, v: int, w: int)
    ensures
        migration_to(v) is Some <==> 1 <= v <= SCHEMA_VERSION,
        migration_to(v) is Some && migration_to(v) == migration_to(w) ==> v == w,
        exists|u: int| 1 <= u <= SCHEMA_VERSION && #[trigger] migration_to(u) == Some(m),
{
    assert(migration_to(1) == Some(Migration::DurationMs));
    assert(migration_to(2) == Some(Migration::Bookmarks));
    assert(migration_to(3) == Some(Migration::Voided));
    assert(migration_to(4) == Some(Migration::ReviewIndexes));
}

/// A database is accepted if and only if it is not newer than this version.
pub proof fn law_newer_databases_are_refused(current: int)
    ensures
        version_error(current) is None <==> 0 <= current <= SCHEMA_VERSION,
{
}

} // verus!
