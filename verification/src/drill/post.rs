//! What the buttons of a drill session do.
//!
//! A session writes to databases and takes its schedules from a memory model;
//! neither is reached from here. So an action is carried out in steps: each
//! step changes the session and says what has to be done outside before the
//! next.

use vstd::prelude::*;
use crate::drill::cache;
use crate::drill::state;
use crate::drill::state::{MutableState, Review, SessionView};
use crate::error::Fallible;
use crate::types::card::Card;
use crate::types::card_hash::CardHash;
use crate::types::performance::{Grade, Performance, Real, ReviewedPerformance};
use crate::types::timestamp::{Date, Timestamp};

verus! {

/// What the user asks of a session.
#[derive(Clone, Copy, Debug, PartialEq, Eq, Structural)]
pub enum Action {
    Reveal,
    Undo,
    End,
    Forgot,
    Hard,
    Good,
    Easy,
    Shutdown,
    Home,
    Bookmark,
    Unbookmark,
}

/// The grade that an action gives.
pub open spec fn grade_of(action: Action) -> Option<Grade> {
    match action {
        Action::Forgot => Some(Grade::Forgot),
        Action::Hard => Some(Grade::Hard),
        Action::Good => Some(Grade::Good),
        Action::Easy => Some(Grade::Easy),
        _ => None,
    }
}

impl Action {
    /// The grade that the action gives.
    pub fn grade(&self) -> (result: Grade)
        requires
            grade_of(*self) is Some,
        ensures
            grade_of(*self) == Some(result),
    {
        match self {
            Action::Forgot => Grade::Forgot,
            Action::Hard => Grade::Hard,
            Action::Good => Grade::Good,
            _ => Grade::Easy,
        }
    }

    /// Whether the action gives a grade.
    pub fn is_grade(&self) -> (result: bool)
        ensures
            result == (grade_of(*self) is Some),
    {
        match self {
            Action::Forgot | Action::Hard | Action::Good | Action::Easy => true,
            _ => false,
        }
    }
}

/// What the form of a card sends.
pub struct FormData {
    pub action: Action,
    /// The hash of the card that the page showed.
    pub card: Option<String>,
    /// The review that the page would take back.
    pub undo_review: Option<i64>,
}

/// What an action comes to.
#[derive(Clone, Copy, Debug, PartialEq, Eq, Structural)]
pub enum ActionResult {
    /// Go on drilling.
    Continue,
    /// The session is finished: all cards are done, or the user ended it.
    SessionFinished,
    /// The user asks the server to stop.
    Shutdown,
    /// The user goes back to the list of collections.
    Home,
}

/// A review as it is written to the database.
#[derive(Clone, Copy, Debug, PartialEq, Eq, Structural)]
pub struct ReviewRecord {
    pub card_hash: CardHash,
    pub reviewed_at: Timestamp,
    pub grade: Grade,
    pub stability: Real,
    pub difficulty: Real,
    pub interval_raw: Real,
    pub interval_days: i64,
    pub due_date: Date,
    pub duration_ms: Option<i64>,
}

/// A grade that waits for the new schedule of its card.
pub struct Graded {
    pub card: Card,
    pub grade: Grade,
    pub reviewed_at: Timestamp,
    pub duration_ms: Option<i64>,
    pub prev_performance: Performance,
}

/// A review that is to be taken back.
pub struct Undone {
    pub hash: CardHash,
    pub review_id: i64,
    pub performance: Performance,
}

/// What has to happen after a step.
pub enum Step {
    /// Nothing: the action is done.
    Done(ActionResult),
    /// Compute the new performance of the card and write the review that
    /// [`record`] describes; then go on with [`review_written`].
    Schedule(Graded),
    /// Void the review and restore the performance in the database of the
    /// card; then go on with [`review_voided`].
    Void(Undone),
    /// Close the session rows with this time; then go on with
    /// [`session_closed`].
    Close(Timestamp),
    /// Insert the card if it is new and bookmark it, with this time. The
    /// action is done then.
    Bookmark(CardHash, Timestamp),
    /// Delete the bookmark of the card. The action is done then.
    Unbookmark(CardHash),
}

/// How long a card was in front of the user: never negative.
pub open spec fn duration(shown_at: Option<Timestamp>, reviewed_at: Timestamp) -> Option<int> {
    match shown_at {
        Some(t) => {
            let d = reviewed_at.millis - t.millis;
            Some(
                if d < 0 {
                    0
                } else if d > i64::MAX {
                    i64::MAX as int
                } else {
                    d
                },
            )
        },
        None => None,
    }
}

/// A session after the answer has been shown. The time of a card that has been
/// served is left alone, so that it includes the recall.
pub open spec fn revealed(s: SessionView, now: Timestamp) -> SessionView {
    if s.reveal {
        s
    } else {
        SessionView {
            reveal: true,
            card_shown_at: if s.card_shown_at is Some {
                s.card_shown_at
            } else {
                Some(now)
            },
            ..s
        }
    }
}

/// A session after its current card has been taken for a grade.
pub open spec fn taken(s: SessionView) -> SessionView {
    SessionView { card_shown_at: None, cards: s.cards.remove(0), ..s }
}

/// A session after the review of a card that was taken from it is written.
pub open spec fn graded(
    s: SessionView,
    g: Graded,
    performance: Performance,
    review_id: i64,
) -> SessionView {
    SessionView {
        cache: s.cache.insert(g.card.id(), performance),
        cards: if state::repeats(g.grade) {
            s.cards.push(g.card)
        } else {
            s.cards
        },
        reviews: s.reviews.push(
            Review {
                card: g.card,
                review_id,
                grade: g.grade,
                prev_performance: g.prev_performance,
            },
        ),
        reveal: false,
        ..s
    }
}

/// A session after its last review has been taken off the list: the card is
/// the current one again, and no longer waits at the end of the queue.
pub open spec fn put_back(s: SessionView) -> SessionView {
    let last = s.reviews.last();
    let rest = if state::repeats(last.grade) && s.cards.len() > 0 {
        s.cards.drop_last()
    } else {
        s.cards
    };
    SessionView { reviews: s.reviews.drop_last(), cards: rest.insert(0, last.card), ..s }
}

/// A session after a review has been voided in the database.
pub open spec fn undone(s: SessionView, u: Undone) -> SessionView {
    SessionView {
        cache: s.cache.insert(u.hash, u.performance),
        finished_at: None,
        reveal: false,
        card_shown_at: None,
        ..s
    }
}

/// The first step of an action at the time `now`, and the session after it.
/// An error leaves a card taken that the session knows nothing of.
pub open spec fn first_step(s: SessionView, action: Action, now: Timestamp) -> (
    SessionView,
    Result<Step, Seq<char>>,
) {
    match action {
        Action::Reveal => (revealed(s, now), Ok(Step::Done(ActionResult::Continue))),
        Action::Undo => if s.reviews.len() == 0 {
            (s, Ok(Step::Done(ActionResult::Continue)))
        } else {
            let last = s.reviews.last();
            (
                put_back(s),
                Ok(
                    Step::Void(
                        Undone {
                            hash: last.card.id(),
                            review_id: last.review_id,
                            performance: last.prev_performance,
                        },
                    ),
                ),
            )
        },
        Action::End => (s, Ok(Step::Close(now))),
        Action::Shutdown => (
            s,
            Ok(
                Step::Done(
                    if s.finished_at is Some {
                        ActionResult::Shutdown
                    } else {
                        ActionResult::Continue
                    },
                ),
            ),
        ),
        Action::Home => (s, Ok(Step::Done(ActionResult::Home))),
        Action::Bookmark => (
            s,
            Ok(
                if s.cards.len() > 0 {
                    Step::Bookmark(s.cards[0].id(), now)
                } else {
                    Step::Done(ActionResult::Continue)
                },
            ),
        ),
        Action::Unbookmark => (
            s,
            Ok(
                if s.cards.len() > 0 {
                    Step::Unbookmark(s.cards[0].id())
                } else {
                    Step::Done(ActionResult::Continue)
                },
            ),
        ),
        _ => if !s.reveal {
            (s, Ok(Step::Done(ActionResult::Continue)))
        } else {
            let card = s.cards[0];
            if s.cache.contains_key(card.id()) {
                (
                    taken(s),
                    Ok(
                        Step::Schedule(
                            Graded {
                                card,
                                grade: grade_of(action)->0,
                                reviewed_at: now,
                                duration_ms: match duration(s.card_shown_at, now) {
                                    Some(d) => Some(d as i64),
                                    None => None,
                                },
                                prev_performance: s.cache[card.id()],
                            },
                        ),
                    ),
                )
            } else {
                (taken(s), Err(cache::absent_message(card.id())))
            }
        },
    }
}

fn elapsed(shown_at: Option<Timestamp>, reviewed_at: Timestamp) -> (result: Option<i64>)
    ensures
        match duration(shown_at, reviewed_at) {
            Some(d) => result == Some(d as i64) && result->0 == d,
            None => result is None,
        },
{
    match shown_at {
        Some(t) => {
            let d: i128 = reviewed_at.millis as i128 - t.millis as i128;
            if d < 0 {
                Some(0)
            } else if d > i64::MAX as i128 {
                Some(i64::MAX)
            } else {
                Some(d as i64)
            }
        },
        None => None,
    }
}

/// Takes the first step of an action. A grade asks for a card when its answer
/// is shown.
pub fn handle_action(mutable: &mut MutableState, action: Action, now: Timestamp) -> (result:
    Fallible<Step>)
    requires
        grade_of(action) is Some && old(mutable)@.reveal ==> old(mutable)@.cards.len() > 0,
    ensures
        final(mutable).dbs == old(mutable).dbs,
        final(mutable)@ == first_step(old(mutable)@, action, now).0,
        match result {
            Ok(step) => first_step(old(mutable)@, action, now).1 == Ok::<Step, Seq<char>>(step),
            Err(e) => first_step(old(mutable)@, action, now).1 == Err::<Step, Seq<char>>(e@),
        },
{
    match action {
        Action::Reveal => {
            if !mutable.reveal {
                mutable.reveal = true;
                if mutable.card_shown_at.is_none() {
                    mutable.card_shown_at = Some(now);
                }
            }
            Ok(Step::Done(ActionResult::Continue))
        },
        Action::Undo => {
            match mutable.reviews.pop() {
                None => {
                    proof {
                        assert(mutable@ =~= old(mutable)@);
                    }
                    Ok(Step::Done(ActionResult::Continue))
                },
                Some(last) => {
                    if last.should_repeat() {
                        let _ = mutable.cards.pop();
                    }
                    let hash = last.card.hash();
                    mutable.cards.insert(0, last.card);
                    proof {
                        assert(mutable@ =~= put_back(old(mutable)@));
                    }
                    Ok(
                        Step::Void(
                            Undone {
                                hash,
                                review_id: last.review_id,
                                performance: last.prev_performance,
                            },
                        ),
                    )
                },
            }
        },
        Action::End => Ok(Step::Close(now)),
        Action::Shutdown => {
            if mutable.finished_at.is_some() {
                Ok(Step::Done(ActionResult::Shutdown))
            } else {
                Ok(Step::Done(ActionResult::Continue))
            }
        },
        Action::Home => Ok(Step::Done(ActionResult::Home)),
        Action::Bookmark => {
            if mutable.cards.len() > 0 {
                Ok(Step::Bookmark(mutable.cards[0].hash(), now))
            } else {
                Ok(Step::Done(ActionResult::Continue))
            }
        },
        Action::Unbookmark => {
            if mutable.cards.len() > 0 {
                Ok(Step::Unbookmark(mutable.cards[0].hash()))
            } else {
                Ok(Step::Done(ActionResult::Continue))
            }
        },
        Action::Forgot | Action::Hard | Action::Good | Action::Easy => {
            if !mutable.reveal {
                return Ok(Step::Done(ActionResult::Continue));
            }
            let duration_ms = elapsed(mutable.card_shown_at, now);
            mutable.card_shown_at = None;
            let card = mutable.cards.remove(0);
            proof {
                assert(mutable@ =~= taken(old(mutable)@));
            }
            match mutable.cache.get(card.hash()) {
                Ok(prev_performance) => Ok(
                    Step::Schedule(
                        Graded {
                            card,
                            grade: action.grade(),
                            reviewed_at: now,
                            duration_ms,
                            prev_performance,
                        },
                    ),
                ),
                Err(e) => Err(e),
            }
        },
    }
}

/// The review that a grade comes to, once the new schedule is known.
pub fn record(g: &Graded, performance: ReviewedPerformance) -> (result: ReviewRecord)
    ensures
        result == (ReviewRecord {
            card_hash: g.card.id(),
            reviewed_at: g.reviewed_at,
            grade: g.grade,
            stability: performance.stability,
            difficulty: performance.difficulty,
            interval_raw: performance.interval_raw,
            interval_days: performance.interval_days,
            due_date: performance.due_date,
            duration_ms: g.duration_ms,
        }),
{
    ReviewRecord {
        card_hash: g.card.hash(),
        reviewed_at: g.reviewed_at,
        grade: g.grade,
        stability: performance.stability,
        difficulty: performance.difficulty,
        interval_raw: performance.interval_raw,
        interval_days: performance.interval_days,
        due_date: performance.due_date,
        duration_ms: g.duration_ms,
    }
}

/// Goes on after the review of a grade has been written under `review_id`. A
/// card that was forgotten or hard is asked again; when no card is left, the
/// session is to be closed.
pub fn review_written(
    mutable: &mut MutableState,
    g: Graded,
    performance: ReviewedPerformance,
    review_id: i64,
    now: Timestamp,
) -> (result: Fallible<Step>)
    ensures
        final(mutable).dbs == old(mutable).dbs,
        match result {
            Ok(step) => {
                &&& old(mutable)@.cache.contains_key(g.card.id())
                &&& final(mutable)@ == graded(
                    old(mutable)@,
                    g,
                    Performance::Reviewed(performance),
                    review_id,
                )
                &&& step == if final(mutable)@.cards.len() == 0 {
                    Step::Close(now)
                } else {
                    Step::Done(ActionResult::Continue)
                }
            },
            Err(e) => {
                &&& !old(mutable)@.cache.contains_key(g.card.id())
                &&& final(mutable)@ == old(mutable)@
                &&& e@ == cache::absent_message(g.card.id())
            },
        },
{
    match mutable.cache.update(g.card.hash(), Performance::Reviewed(performance)) {
        Ok(_) => {},
        Err(e) => {
            proof {
                assert(mutable@ =~= old(mutable)@);
            }
            return Err(e);
        },
    }
    let review = Review {
        card: g.card.clone(),
        review_id,
        grade: g.grade,
        prev_performance: g.prev_performance,
    };
    if review.should_repeat() {
        mutable.cards.push(g.card);
    }
    mutable.reviews.push(review);
    mutable.reveal = false;
    proof {
        assert(mutable@ =~= graded(
            old(mutable)@,
            g,
            Performance::Reviewed(performance),
            review_id,
        ));
    }
    if mutable.cards.len() == 0 {
        Ok(Step::Close(now))
    } else {
        Ok(Step::Done(ActionResult::Continue))
    }
}

/// Goes on after a review has been voided in the database. A session that was
/// finished runs again.
pub fn review_voided(mutable: &mut MutableState, u: Undone) -> (result: Fallible<ActionResult>)
    ensures
        final(mutable).dbs == old(mutable).dbs,
        match result {
            Ok(r) => {
                &&& old(mutable)@.cache.contains_key(u.hash)
                &&& final(mutable)@ == undone(old(mutable)@, u)
                &&& r == ActionResult::Continue
            },
            Err(e) => {
                &&& !old(mutable)@.cache.contains_key(u.hash)
                &&& final(mutable)@ == old(mutable)@
                &&& e@ == cache::absent_message(u.hash)
            },
        },
{
    match mutable.cache.update(u.hash, u.performance) {
        Ok(_) => {},
        Err(e) => {
            proof {
                assert(mutable@ =~= old(mutable)@);
            }
            return Err(e);
        },
    }
    mutable.finished_at = None;
    mutable.reveal = false;
    mutable.card_shown_at = None;
    proof {
        assert(mutable@ =~= undone(old(mutable)@, u));
    }
    Ok(ActionResult::Continue)
}

/// Goes on after the session rows have been closed.
pub fn session_closed(mutable: &mut MutableState, ended_at: Timestamp) -> (result: ActionResult)
    ensures
        final(mutable).dbs == old(mutable).dbs,
        final(mutable)@ == (SessionView { finished_at: Some(ended_at), ..old(mutable)@ }),
        result == ActionResult::SessionFinished,
{
    mutable.finished_at = Some(ended_at);
    ActionResult::SessionFinished
}

/// Undo takes a grade back completely: the queue, the list of reviews and the
/// performance of every card are as they were before the grade. The answer is
/// hidden again, and the session runs.
pub proof fn law_undo_takes_a_grade_back(
    s: SessionView,
    action: Action,
    now: Timestamp,
    performance: Performance,
    review_id: i64,
    later: Timestamp,
)
    requires
        grade_of(action) is Some,
        s.reveal,
        s.cards.len() > 0,
        s.cache.contains_key(s.cards[0].id()),
    ensures
        ({
            let (t, step) = first_step(s, action, now);
            let after = graded(t, step->Ok_0->Schedule_0, performance, review_id);
            let (back, undo) = first_step(after, Action::Undo, later);
            let restored = undone(back, undo->Ok_0->Void_0);
            &&& step matches Ok(Step::Schedule(_))
            &&& undo matches Ok(Step::Void(_))
            &&& undo->Ok_0->Void_0.review_id == review_id
            &&& restored == (SessionView {
                reveal: false,
                finished_at: None,
                card_shown_at: None,
                ..s
            })
        }),
{
    let (t, step) = first_step(s, action, now);
    let g = step->Ok_0->Schedule_0;
    let after = graded(t, g, performance, review_id);
    let (back, undo) = first_step(after, Action::Undo, later);
    let restored = undone(back, undo->Ok_0->Void_0);
    assert(after.reviews.drop_last() == s.reviews);
    if state::repeats(g.grade) {
        assert(after.cards.drop_last() == t.cards);
    }
    assert(t.cards.insert(0, g.card) =~= s.cards);
    assert(restored.cache =~= s.cache);
}

/// Whether the session knows how well each of its queued cards is known.
pub open spec fn queue_cached(s: SessionView) -> bool {
    &&& forall|i: int| 0 <= i < s.cards.len() ==> s.cache.contains_key((#[trigger] s.cards[i]).id())
    &&& forall|i: int|
        0 <= i < s.reviews.len() ==> s.cache.contains_key((#[trigger] s.reviews[i]).card.id())
}

/// In a session that knows its cards no action fails for want of one, and the
/// session goes on knowing them after every step.
pub proof fn law_sessions_know_their_cards(
    s: SessionView,
    action: Action,
    now: Timestamp,
    performance: Performance,
    review_id: i64,
)
    requires
        queue_cached(s),
        grade_of(action) is Some && s.reveal ==> s.cards.len() > 0,
    ensures
        first_step(s, action, now).1 is Ok,
        queue_cached(first_step(s, action, now).0),
        first_step(s, action, now).1 matches Ok(Step::Schedule(g)) ==> first_step(
            s,
            action,
            now,
        ).0.cache.contains_key(g.card.id()) && queue_cached(
            graded(first_step(s, action, now).0, g, performance, review_id),
        ),
        first_step(s, action, now).1 matches Ok(Step::Void(u)) ==> first_step(
            s,
            action,
            now,
        ).0.cache.contains_key(u.hash) && queue_cached(undone(first_step(s, action, now).0, u)),
{
    let t = first_step(s, action, now).0;
    if grade_of(action) is Some && s.reveal {
        assert(s.cache.contains_key(s.cards[0].id()));
        assert forall|i: int| 0 <= i < t.cards.len() implies t.cache.contains_key(
            (#[trigger] t.cards[i]).id(),
        ) by {
            assert(t.cards[i] == s.cards[i + 1]);
        }
        let g = first_step(s, action, now).1->Ok_0->Schedule_0;
        let after = graded(t, g, performance, review_id);
        assert forall|i: int| 0 <= i < after.cards.len() implies after.cache.contains_key(
            (#[trigger] after.cards[i]).id(),
        ) by {
            if i < t.cards.len() {
                assert(after.cards[i] == t.cards[i]);
            }
        }
        assert forall|i: int| 0 <= i < after.reviews.len() implies after.cache.contains_key(
            (#[trigger] after.reviews[i]).card.id(),
        ) by {
            if i < s.reviews.len() {
                assert(after.reviews[i] == s.reviews[i]);
            }
        }
    }
    if action == Action::Undo && s.reviews.len() > 0 {
        let last = s.reviews.last();
        assert(s.cache.contains_key(s.reviews[s.reviews.len() - 1].card.id()));
        assert forall|i: int| 0 <= i < t.cards.len() implies t.cache.contains_key(
            (#[trigger] t.cards[i]).id(),
        ) by {
            if i > 0 {
                assert(t.cards[i] == s.cards[i - 1]);
            }
        }
        assert forall|i: int| 0 <= i < t.reviews.len() implies t.cache.contains_key(
            (#[trigger] t.reviews[i]).card.id(),
        ) by {
            assert(t.reviews[i] == s.reviews[i]);
        }
        let u = first_step(s, action, now).1->Ok_0->Void_0;
        let after = undone(t, u);
        assert forall|i: int| 0 <= i < after.cards.len() implies after.cache.contains_key(
            (#[trigger] after.cards[i]).id(),
        ) by {
            assert(after.cards[i] == t.cards[i]);
        }
        assert forall|i: int| 0 <= i < after.reviews.len() implies after.cache.contains_key(
            (#[trigger] after.reviews[i]).card.id(),
        ) by {
            assert(after.reviews[i] == t.reviews[i]);
        }
    }
}

/// No grade is taken while the answer is hidden.
pub proof fn law_hidden_answers_are_not_graded(s: SessionView, action: Action, now: Timestamp)
    requires
        grade_of(action) is Some,
        !s.reveal,
    ensures
        first_step(s, action, now) == (
            s,
            Ok::<Step, Seq<char>>(Step::Done(ActionResult::Continue)),
        ),
{
}

/// A card that was good or easy leaves the queue; one that was forgotten or
/// hard goes to its end.
pub proof fn law_only_bad_grades_come_back(
    s: SessionView,
    g: Graded,
    performance: Performance,
    review_id: i64,
)
    ensures
        ({
            let after = graded(taken(s), g, performance, review_id);
            s.cards.len() > 0 ==> {
                &&& state::repeats(g.grade) ==> after.cards.len() == s.cards.len()
                    && after.cards.last() == g.card
                &&& !state::repeats(g.grade) ==> after.cards == s.cards.remove(0)
            }
        }),
{
}

/// Bookmarking names the card that the page shows, the first of the queue, and
/// so does taking the bookmark away; neither changes the session.
pub proof fn law_the_shown_card_is_bookmarked(
    s: SessionView,
    shown: Card,
    rest: Seq<Card>,
    now: Timestamp,
)
    requires
        s.cards == seq![shown] + rest,
    ensures
        first_step(s, Action::Bookmark, now) == (
            s,
            Ok::<Step, Seq<char>>(Step::Bookmark(shown.id(), now)),
        ),
        first_step(s, Action::Unbookmark, now) == (
            s,
            Ok::<Step, Seq<char>>(Step::Unbookmark(shown.id())),
        ),
{
}

/// A grade goes to the card that the page shows: it is taken from the queue and
/// the others stay, with the grade of the button, the time, and how well the
/// card was known until then. No other action asks for a schedule.
pub proof fn law_the_shown_card_is_graded(
    s: SessionView,
    shown: Card,
    rest: Seq<Card>,
    action: Action,
    now: Timestamp,
)
    requires
        s.cards == seq![shown] + rest,
        s.cache.contains_key(shown.id()),
    ensures
        ({
            let (t, step) = first_step(s, action, now);
            let grade = match action {
                Action::Forgot => Some(Grade::Forgot),
                Action::Hard => Some(Grade::Hard),
                Action::Good => Some(Grade::Good),
                Action::Easy => Some(Grade::Easy),
                _ => None,
            };
            &&& (step matches Ok(Step::Schedule(_))) <==> s.reveal && grade is Some
            &&& step matches Ok(Step::Schedule(g)) ==> {
                &&& g.card == shown
                &&& Some(g.grade) == grade
                &&& g.reviewed_at == now
                &&& g.prev_performance == s.cache[shown.id()]
                &&& (g.duration_ms is Some <==> s.card_shown_at is Some)
                &&& t == (SessionView { cards: rest, card_shown_at: None, ..s })
            }
        }),
{
    assert(s.cards.remove(0) =~= rest);
}

/// The time of a card is the time from when it was shown to when it was graded;
/// a clock that goes back makes it nothing, never less.
pub proof fn law_durations_are_elapsed_time(shown_at: Timestamp, reviewed_at: Timestamp)
    ensures
        duration(Some(shown_at), reviewed_at) matches Some(d) && {
            &&& 0 <= d <= i64::MAX
            &&& 0 <= reviewed_at.millis - shown_at.millis <= i64::MAX ==> shown_at.millis + d
                == reviewed_at.millis
            &&& reviewed_at.millis <= shown_at.millis ==> d == 0
            &&& reviewed_at.millis - shown_at.millis > i64::MAX ==> d == i64::MAX
        },
        duration(None, reviewed_at) is None,
{
}

/// Revealing shows the answer and changes nothing else, but that the time of a
/// card that was not noted as shown runs from then on. Doing it again changes
/// nothing.
pub proof fn law_revealing_shows_the_answer(s: SessionView, now: Timestamp, later: Timestamp)
    ensures
        ({
            let (t, step) = first_step(s, Action::Reveal, now);
            &&& step == Ok::<Step, Seq<char>>(Step::Done(ActionResult::Continue))
            &&& t.reveal
            &&& t.cards == s.cards && t.reviews == s.reviews && t.cache == s.cache
            &&& t.finished_at == s.finished_at
            &&& s.card_shown_at is Some ==> t.card_shown_at == s.card_shown_at
            &&& s.card_shown_at is None && !s.reveal ==> t.card_shown_at == Some(now)
            &&& first_step(t, Action::Reveal, later).0 == t
        }),
{
}

/// Ending a session asks for its rows to be closed now, going home and stopping
/// the server change nothing, and a server is stopped only from a session that
/// is finished.
pub proof fn law_leaving_changes_nothing(s: SessionView, now: Timestamp)
    ensures
        first_step(s, Action::End, now) == (s, Ok::<Step, Seq<char>>(Step::Close(now))),
        first_step(s, Action::Home, now) == (
            s,
            Ok::<Step, Seq<char>>(Step::Done(ActionResult::Home)),
        ),
        first_step(s, Action::Shutdown, now).0 == s,
        (first_step(s, Action::Shutdown, now).1 matches Ok(Step::Done(ActionResult::Shutdown)))
            <==> s.finished_at is Some,
        s.finished_at is None ==> first_step(s, Action::Shutdown, now).1 == Ok::<Step, Seq<char>>(
            Step::Done(ActionResult::Continue),
        ),
{
}

/// An undo takes back the last review and no other: that review is voided, its
/// card is the first of the queue again, the performance it had before is
/// restored, and the earlier reviews stay. Where nothing was reviewed, nothing
/// changes.
pub proof fn law_undo_takes_back_the_last_review(
    s: SessionView,
    earlier: Seq<Review>,
    last: Review,
    now: Timestamp,
)
    requires
        s.reviews == earlier.push(last),
    ensures
        ({
            let (t, step) = first_step(s, Action::Undo, now);
            &&& step matches Ok(Step::Void(u)) && {
                &&& u.hash == last.card.id()
                &&& u.review_id == last.review_id
                &&& u.performance == last.prev_performance
                &&& undone(t, u).cache == s.cache.insert(last.card.id(), last.prev_performance)
                &&& undone(t, u).finished_at is None
                &&& !undone(t, u).reveal
                &&& undone(t, u).card_shown_at is None
                &&& undone(t, u).cards == t.cards
                &&& undone(t, u).reviews == t.reviews
            }
            &&& t.reviews == earlier
            &&& t.cards.len() > 0 && t.cards[0] == last.card
            &&& last.grade == Grade::Good || last.grade == Grade::Easy ==> t.cards.skip(1)
                == s.cards
            &&& (last.grade == Grade::Forgot || last.grade == Grade::Hard) && s.cards.len() > 0
                ==> t.cards.skip(1) == s.cards.drop_last()
        }),
{
    let (t, step) = first_step(s, Action::Undo, now);
    assert(s.reviews.drop_last() =~= earlier);
    assert(t.cards.skip(1) =~= if state::repeats(last.grade) && s.cards.len() > 0 {
        s.cards.drop_last()
    } else {
        s.cards
    });
}

/// Where nothing was reviewed there is nothing to undo.
pub proof fn law_nothing_reviewed_nothing_undone(s: SessionView, now: Timestamp)
    requires
        s.reviews.len() == 0,
    ensures
        first_step(s, Action::Undo, now) == (
            s,
            Ok::<Step, Seq<char>>(Step::Done(ActionResult::Continue)),
        ),
{
}

/// Once its review is written, a card has its new performance and every other
/// card the one it had; the review is the last on the list and says what was
/// graded; the answer is hidden; and a card that was forgotten or hard waits
/// behind the others, which keep their order.
pub proof fn law_a_written_review_is_on_the_list(
    s: SessionView,
    g: Graded,
    performance: Performance,
    review_id: i64,
    other: CardHash,
)
    ensures
        ({
            let after = graded(s, g, performance, review_id);
            &&& after.cache.contains_key(g.card.id()) && after.cache[g.card.id()] == performance
            &&& other != g.card.id() ==> (after.cache.contains_key(other)
                <==> s.cache.contains_key(other)) && (s.cache.contains_key(other)
                ==> after.cache[other] == s.cache[other])
            &&& after.reviews.len() == s.reviews.len() + 1
            &&& forall|i: int|
                0 <= i < s.reviews.len() ==> #[trigger] after.reviews[i] == s.reviews[i]
            &&& after.reviews.last().card == g.card
            &&& after.reviews.last().review_id == review_id
            &&& after.reviews.last().grade == g.grade
            &&& after.reviews.last().prev_performance == g.prev_performance
            &&& !after.reveal
            &&& after.finished_at == s.finished_at
            &&& g.grade == Grade::Forgot || g.grade == Grade::Hard ==> after.cards == s.cards.push(
                g.card,
            )
            &&& g.grade == Grade::Good || g.grade == Grade::Easy ==> after.cards == s.cards
        }),
{
}

} // verus!
