//! What the server holds in memory.

use vstd::prelude::*;
use crate::drill::render::AnswerControls;
use crate::drill::state::MutableState;
use crate::list;
use crate::serve::config::ResolvedCollection;
use crate::types::timestamp::{Timestamp, MILLIS_PER_MINUTE};

verus! {

/// A collection as the list of collections shows it.
pub struct CollectionInfo {
    pub name: String,
    pub slug: String,
    pub total_cards: usize,
    pub due_today: usize,
    pub owner: Option<String>,
}

/// A HedgeDoc note, which is a collection of its own.
///
/// Notes are not grouped by their host: on a shared host one user's note would
/// land in another user's collection. One note, one collection, one database,
/// one owner.
pub struct HedgedocSource {
    /// The scheme, host and port of the note, for display.
    pub source_uri: String,
    pub collection: ResolvedCollection,
    pub note: HedgedocNote,
}

/// What is known of a note.
pub struct HedgedocNote {
    pub url: String,
    pub deck_name: String,
    pub file_name: String,
    pub last_error: Option<String>,
}

impl Clone for HedgedocNote {
    fn clone(&self) -> (result: Self)
        ensures
            result == *self,
    {
        HedgedocNote {
            url: self.url.clone(),
            deck_name: self.deck_name.clone(),
            file_name: self.file_name.clone(),
            last_error: self.last_error.clone(),
        }
    }
}

impl Clone for HedgedocSource {
    fn clone(&self) -> (result: Self)
        ensures
            result == *self,
    {
        HedgedocSource {
            source_uri: self.source_uri.clone(),
            collection: self.collection.clone(),
            note: self.note.clone(),
        }
    }
}

/// A drill session of the server.
pub struct DrillSession {
    pub directory: String,
    pub macros: Vec<(String, String)>,
    pub total_cards: usize,
    pub session_started_at: Timestamp,
    /// When the session last served a page or handled an action.
    pub last_activity_at: Timestamp,
    pub answer_controls: AnswerControls,
    pub mutable: MutableState,
    /// Whether the session has been taken out of the server's list. Whoever
    /// takes it out marks it, so that a request which got hold of it before
    /// can tell.
    pub detached: bool,
}

impl DrillSession {
    /// A session that starts now with the cards of its state.
    pub fn new(
        directory: String,
        macros: Vec<(String, String)>,
        session_started_at: Timestamp,
        answer_controls: AnswerControls,
        mutable: MutableState,
    ) -> (result: DrillSession)
        ensures
            result.directory == directory,
            result.macros == macros,
            result.total_cards == mutable@.cards.len(),
            result.session_started_at == session_started_at,
            result.last_activity_at == session_started_at,
            result.answer_controls == answer_controls,
            result.mutable == mutable,
            !result.detached,
    {
        DrillSession {
            directory,
            macros,
            total_cards: mutable.cards.len(),
            session_started_at,
            last_activity_at: session_started_at,
            answer_controls,
            mutable,
            detached: false,
        }
    }

    /// Marks the session as taken out of the server's list.
    pub fn detach(&mut self)
        ensures
            *final(self) == (DrillSession { detached: true, ..*old(self) }),
    {
        self.detached = true;
    }

    /// Whether the session has been taken out of the server's list.
    pub fn is_detached(&self) -> (result: bool)
        ensures
            result == self.detached,
    {
        self.detached
    }

    /// Whether the session has been idle for at least the timeout. A timeout
    /// of 0 means that no session ever counts as idle.
    pub fn is_idle(&self, timeout_minutes: u64, now: Timestamp) -> (result: bool)
        ensures
            result == idle(self.last_activity_at, timeout_minutes, now),
    {
        let since: i128 = now.millis as i128 - self.last_activity_at.millis as i128;
        timeout_minutes != 0 && since >= timeout_minutes as i128 * MILLIS_PER_MINUTE as i128
    }
}

/// Whether a session that was last active at `last` counts as idle.
pub open spec fn idle(last: Timestamp, timeout_minutes: u64, now: Timestamp) -> bool {
    timeout_minutes != 0 && now.millis - last.millis >= timeout_minutes * MILLIS_PER_MINUTE
}

/// Whether an entry of the server's list is idle.
pub open spec fn entry_idle(timeout_minutes: u64, now: Timestamp) -> spec_fn(
    (String, DrillSession),
) -> bool {
    |e: (String, DrillSession)| idle(e.1.last_activity_at, timeout_minutes, now)
}

/// Whether an entry of the server's list is not idle.
pub open spec fn entry_active(timeout_minutes: u64, now: Timestamp) -> spec_fn(
    (String, DrillSession),
) -> bool {
    |e: (String, DrillSession)| !idle(e.1.last_activity_at, timeout_minutes, now)
}

/// Whether `gone` holds the sessions of `taken`, in order, each marked as taken
/// out and otherwise as it was.
pub open spec fn taken_out(
    taken: Seq<(String, DrillSession)>,
    gone: Seq<(String, DrillSession)>,
) -> bool {
    &&& gone.len() == taken.len()
    &&& forall|i: int|
        0 <= i < gone.len() ==> {
            &&& (#[trigger] gone[i]).0 == taken[i].0
            &&& gone[i].1 == (DrillSession { detached: true, ..taken[i].1 })
        }
}

/// Takes the sessions that are idle out of the list and marks them. Those that
/// are not finished are to have their rows closed by the caller.
pub fn evict_idle_sessions(
    sessions: &mut Vec<(String, DrillSession)>,
    timeout_minutes: u64,
    now: Timestamp,
) -> (result: Vec<(String, DrillSession)>)
    ensures
        final(sessions)@ == list::keep(old(sessions)@, entry_active(timeout_minutes, now)),
        taken_out(list::keep(old(sessions)@, entry_idle(timeout_minutes, now)), result@),
{
    let ghost all = sessions@;
    let ghost p = entry_active(timeout_minutes, now);
    let ghost q = entry_idle(timeout_minutes, now);
    let mut kept: Vec<(String, DrillSession)> = Vec::new();
    let mut evicted: Vec<(String, DrillSession)> = Vec::new();
    let mut done: usize = 0;
    let count: usize = sessions.len();
    proof {
        assert(all.skip(0) == all);
    }
    while done < count
        invariant
            count == all.len(),
            done <= count,
            p == entry_active(timeout_minutes, now),
            q == entry_idle(timeout_minutes, now),
            sessions@ == all.skip(done as int),
            kept@ == list::keep(all.take(done as int), p),
            taken_out(list::keep(all.take(done as int), q), evicted@),
        decreases count - done,
    {
        proof {
            list::lemma_keep_step(all, p, done as int);
            list::lemma_keep_step(all, q, done as int);
        }
        let (slug, mut session) = sessions.remove(0);
        proof {
            assert(sessions@ =~= all.skip(done + 1));
        }
        if session.is_idle(timeout_minutes, now) {
            session.detach();
            evicted.push((slug, session));
        } else {
            kept.push((slug, session));
        }
        done += 1;
    }
    proof {
        assert(all.take(done as int) == all);
    }
    *sessions = kept;
    evicted
}

/// A timeout of 0 evicts nothing.
pub proof fn law_no_timeout_no_eviction(last: Timestamp, now: Timestamp)
    ensures
        !idle(last, 0, now),
{
}

/// A session is idle once it has been left alone for as many minutes as the
/// timeout, not a moment before, and stays so.
pub proof fn law_sessions_are_idle_after_the_timeout(
    last: Timestamp,
    timeout_minutes: u64,
    now: Timestamp,
    later: Timestamp,
)
    requires
        timeout_minutes > 0,
    ensures
        idle(last, timeout_minutes, now) && now.millis <= later.millis ==> idle(
            last,
            timeout_minutes,
            later,
        ),
        now.millis == last.millis + timeout_minutes * 60_000 ==> idle(last, timeout_minutes, now),
        now.millis < last.millis + timeout_minutes * 60_000 ==> !idle(last, timeout_minutes, now),
{
}

/// Every session either stays or goes: it goes if it was idle, stays as it was
/// otherwise, and both keep their order.
pub proof fn law_each_session_stays_or_goes(
    sessions: Seq<(String, DrillSession)>,
    timeout_minutes: u64,
    now: Timestamp,
)
    ensures
        ({
            let stay = list::keep(sessions, entry_active(timeout_minutes, now));
            let go = list::keep(sessions, entry_idle(timeout_minutes, now));
            &&& stay.len() + go.len() == sessions.len()
            &&& list::is_part(stay, sessions)
            &&& list::is_part(go, sessions)
            &&& forall|i: int|
                0 <= i < stay.len() ==> !idle(
                    (#[trigger] stay[i]).1.last_activity_at,
                    timeout_minutes,
                    now,
                )
            &&& forall|i: int|
                0 <= i < go.len() ==> idle(
                    (#[trigger] go[i]).1.last_activity_at,
                    timeout_minutes,
                    now,
                )
        }),
    decreases sessions.len(),
{
    let p = entry_active(timeout_minutes, now);
    let q = entry_idle(timeout_minutes, now);
    list::law_keeping_keeps_order(sessions, p);
    list::law_keeping_keeps_order(sessions, q);
    let stay = list::keep(sessions, p);
    let go = list::keep(sessions, q);
    assert forall|i: int| 0 <= i < stay.len() implies !idle(
        (#[trigger] stay[i]).1.last_activity_at,
        timeout_minutes,
        now,
    ) by {
        assert(p(stay[i]));
    }
    assert forall|i: int| 0 <= i < go.len() implies idle(
        (#[trigger] go[i]).1.last_activity_at,
        timeout_minutes,
        now,
    ) by {
        assert(q(go[i]));
    }
    if sessions.len() > 0 {
        law_each_session_stays_or_goes(sessions.drop_last(), timeout_minutes, now);
    }
}

/// A session that is taken out is marked so and otherwise unchanged.
pub proof fn law_evicted_sessions_are_only_marked(
    taken: Seq<(String, DrillSession)>,
    gone: Seq<(String, DrillSession)>,
    i: int,
)
    requires
        taken_out(taken, gone),
        0 <= i < taken.len(),
    ensures
        gone.len() == taken.len(),
        gone[i].0@ == taken[i].0@,
        gone[i].1.detached,
        gone[i].1.mutable == taken[i].1.mutable,
        gone[i].1.session_started_at == taken[i].1.session_started_at,
        gone[i].1.last_activity_at == taken[i].1.last_activity_at,
{
    assert(gone[i].0 == taken[i].0);
}

} // verus!
