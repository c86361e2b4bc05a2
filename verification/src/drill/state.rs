//! The state of a drill session.

use vstd::prelude::*;
use crate::drill::cache::Cache;
use crate::drill::table;
use crate::drill::table::CardTable;
use crate::types::card::Card;
use crate::types::card_hash::CardHash;
use crate::types::performance::{Grade, Performance};
use crate::types::timestamp::Timestamp;

verus! {

/// The session row that is open in the database of one collection.
pub struct SessionDb {
    pub session_id: i64,
    /// Where the files of the cards are, in a session that draws on several
    /// collections. `None` means the session's own collection.
    pub source: Option<SessionSource>,
}

/// Where the files of a card are, and how they are addressed over HTTP.
pub struct SessionSource {
    pub coll_dir: String,
    pub file_url_prefix: String,
}

impl Clone for SessionSource {
    fn clone(&self) -> (result: Self)
        ensures
            result == *self,
    {
        SessionSource {
            coll_dir: self.coll_dir.clone(),
            file_url_prefix: self.file_url_prefix.clone(),
        }
    }
}

/// The databases that a session writes to, at least one.
///
/// Drilling one collection uses one. A custom deck draws its cards from
/// several collections, and each review must land in the database that its
/// card belongs to: a card scheduled in two places would come due twice, on
/// schedules that drift apart.
pub struct SessionDbs {
    dbs: Vec<SessionDb>,
    /// Where each card belongs. Empty for a session over one collection.
    routes: CardTable<usize>,
}

/// The place a card is routed to among `count` databases. A card without a
/// route belongs to the first.
pub open spec fn route(routes: Map<CardHash, usize>, count: nat, hash: CardHash) -> int {
    let i = if routes.contains_key(hash) {
        routes[hash] as int
    } else {
        0
    };
    if i < count {
        i
    } else {
        count - 1
    }
}

impl SessionDbs {
    #[verifier::type_invariant]
    spec fn well_formed(self) -> bool {
        self.dbs@.len() > 0
    }

    /// The open rows, in order.
    pub closed spec fn rows(self) -> Seq<SessionDb> {
        self.dbs@
    }

    /// Where each card belongs.
    pub closed spec fn routes(self) -> Map<CardHash, usize> {
        self.routes@
    }

    /// A session over one collection: every card belongs to it.
    pub fn single(session_id: i64) -> (result: SessionDbs)
        ensures
            result.rows() == seq![(SessionDb { session_id, source: None })],
            result.routes() == Map::<CardHash, usize>::empty(),
    {
        let dbs = vec![SessionDb { session_id, source: None }];
        SessionDbs { dbs, routes: CardTable::new() }
    }

    /// A session that draws on several collections.
    pub fn routed(dbs: Vec<SessionDb>, routes: CardTable<usize>) -> (result: SessionDbs)
        requires
            dbs@.len() > 0,
        ensures
            result.rows() == dbs@,
            result.routes() == routes@,
    {
        SessionDbs { dbs, routes }
    }

    /// The place of the database that owns a card.
    pub fn index_for_card(&self, hash: CardHash) -> (result: usize)
        ensures
            result == route(self.routes(), self.rows().len(), hash),
            result < self.rows().len(),
    {
        proof {
            use_type_invariant(self);
        }
        let i: usize = match self.routes.get(hash) {
            Some(i) => i,
            None => 0,
        };
        if i < self.dbs.len() {
            i
        } else {
            self.dbs.len() - 1
        }
    }

    /// The row that owns a card.
    pub fn for_card(&self, hash: CardHash) -> (result: &SessionDb)
        ensures
            *result == self.rows()[route(self.routes(), self.rows().len(), hash)],
    {
        let i = self.index_for_card(hash);
        &self.dbs[i]
    }

    /// The first row, for what is not tied to a card.
    pub fn primary(&self) -> (result: &SessionDb)
        ensures
            *result == self.rows()[0],
    {
        proof {
            use_type_invariant(self);
        }
        &self.dbs[0]
    }

    /// All the rows, in order.
    pub fn all(&self) -> (result: &[SessionDb])
        ensures
            result@ == self.rows(),
            result@.len() > 0,
    {
        proof {
            use_type_invariant(self);
        }
        self.dbs.as_slice()
    }
}

/// Without a routing table every card belongs to the first database.
pub proof fn law_unrouted_cards_belong_to_the_first(count: nat, hash: CardHash)
    requires
        count > 0,
    ensures
        route(Map::<CardHash, usize>::empty(), count, hash) == 0,
{
}

/// One review of a session.
pub struct Review {
    pub card: Card,
    pub review_id: i64,
    pub grade: Grade,
    /// The performance before this review, to which undo goes back.
    pub prev_performance: Performance,
}

impl Clone for Review {
    fn clone(&self) -> (result: Self)
        ensures
            result == *self,
    {
        Review {
            card: self.card.clone(),
            review_id: self.review_id,
            grade: self.grade,
            prev_performance: self.prev_performance,
        }
    }
}

/// Whether a card with this grade is asked again in the same session.
pub open spec fn repeats(grade: Grade) -> bool {
    grade == Grade::Forgot || grade == Grade::Hard
}

impl Review {
    /// Whether the card is asked again in the same session.
    pub fn should_repeat(&self) -> (result: bool)
        ensures
            result == repeats(self.grade),
    {
        self.grade == Grade::Forgot || self.grade == Grade::Hard
    }
}

/// What changes while a session runs.
pub struct MutableState {
    pub reveal: bool,
    pub dbs: SessionDbs,
    pub cache: Cache,
    pub cards: Vec<Card>,
    pub reviews: Vec<Review>,
    pub finished_at: Option<Timestamp>,
    /// When the current card was first shown.
    pub card_shown_at: Option<Timestamp>,
}

/// A session as its rules see it.
#[verifier::ext_equal]
pub struct SessionView {
    /// Whether the answer of the current card is shown.
    pub reveal: bool,
    /// The cards still to be asked; the first is the current one.
    pub cards: Seq<Card>,
    /// The reviews that have been made and not undone.
    pub reviews: Seq<Review>,
    pub finished_at: Option<Timestamp>,
    pub card_shown_at: Option<Timestamp>,
    pub cache: Map<CardHash, Performance>,
}

impl View for MutableState {
    type V = SessionView;

    open spec fn view(&self) -> SessionView {
        SessionView {
            reveal: self.reveal,
            cards: self.cards@,
            reviews: self.reviews@,
            finished_at: self.finished_at,
            card_shown_at: self.card_shown_at,
            cache: self.cache@,
        }
    }
}

/// The cards of some reviews.
pub open spec fn reviewed(reviews: Seq<Review>) -> Seq<CardHash> {
    reviews.map_values(|r: Review| r.card.id())
}

/// How many different cards have been graded.
pub open spec fn first_graded(reviews: Seq<Review>) -> nat {
    reviewed(reviews).to_set().len()
}

/// How many grades went to cards that had been graded already.
pub open spec fn repeated(reviews: Seq<Review>) -> int {
    reviews.len() - first_graded(reviews)
}

proof fn lemma_first_graded_push(reviews: Seq<Review>, r: Review)
    ensures
        reviewed(reviews).to_set().finite(),
        first_graded(reviews) <= reviews.len(),
        first_graded(reviews.push(r)) == first_graded(reviews) + if reviewed(reviews).contains(
            r.card.id(),
        ) {
            0nat
        } else {
            1nat
        },
{
    let ids = reviewed(reviews);
    let more = reviewed(reviews.push(r));
    vstd::seq_lib::seq_to_set_is_finite(ids);
    ids.lemma_cardinality_of_set();
    assert(more =~= ids.push(r.card.id()));
    assert(more.to_set() =~= ids.to_set().insert(r.card.id())) by {
        assert forall|h: CardHash| ids.to_set().insert(r.card.id()).contains(
            h,
        ) implies #[trigger] more.to_set().contains(h) by {
            if h == r.card.id() {
                assert(more[ids.len() as int] == h);
            } else {
                let i = choose|i: int| 0 <= i < ids.len() && ids[i] == h;
                assert(more[i] == h);
            }
        }
        assert forall|h: CardHash| #[trigger] more.to_set().contains(
            h,
        ) implies ids.to_set().insert(r.card.id()).contains(h) by {
            let i = choose|i: int| 0 <= i < more.len() && more[i] == h;
            if i < ids.len() {
                assert(ids[i] == h);
            }
        }
    }
}

/// A grade advances the progress of a session by one: it counts as the first
/// of its card if the card had none, and as a repeat otherwise. Taking it back
/// therefore restores the progress.
pub proof fn law_each_grade_counts_once(reviews: Seq<Review>, r: Review)
    ensures
        first_graded(reviews) <= reviews.len(),
        reviewed(reviews).contains(r.card.id()) ==> first_graded(reviews.push(r)) == first_graded(
            reviews,
        ) && repeated(reviews.push(r)) == repeated(reviews) + 1,
        !reviewed(reviews).contains(r.card.id()) ==> first_graded(reviews.push(r)) == first_graded(
            reviews,
        ) + 1 && repeated(reviews.push(r)) == repeated(reviews),
{
    lemma_first_graded_push(reviews, r);
}

impl MutableState {
    /// The state of a session that has just been started.
    pub fn new(dbs: SessionDbs, cache: Cache, cards: Vec<Card>) -> (result: MutableState)
        ensures
            result.dbs == dbs,
            result@ == (SessionView {
                reveal: false,
                cards: cards@,
                reviews: seq![],
                finished_at: None,
                card_shown_at: None,
                cache: cache@,
            }),
    {
        MutableState {
            reveal: false,
            dbs,
            cache,
            cards,
            reviews: Vec::new(),
            finished_at: None,
            card_shown_at: None,
        }
    }

    /// Notes that the current card has been served. The time for a card runs
    /// from then on; asking for the page again does not restart it.
    pub fn mark_card_shown(&mut self, now: Timestamp)
        ensures
            final(self).dbs == old(self).dbs,
            final(self)@ == shown(old(self)@, now),
    {
        if self.card_shown_at.is_none() && self.finished_at.is_none() && self.cards.len() > 0 {
            self.card_shown_at = Some(now);
        }
    }

    /// How many different cards have been graded, and how many grades went to
    /// cards that had been graded already.
    pub fn progress(&self) -> (result: (usize, usize))
        ensures
            result.0 == first_graded(self@.reviews),
            result.1 == repeated(self@.reviews),
            result.0 + result.1 == self@.reviews.len(),
    {
        let mut hashes: Vec<CardHash> = Vec::new();
        let mut i: usize = 0;
        while i < self.reviews.len()
            invariant
                i <= self.reviews@.len(),
                hashes@ == reviewed(self.reviews@).take(i as int),
            decreases self.reviews@.len() - i,
        {
            hashes.push(self.reviews[i].card.hash());
            i += 1;
            proof {
                assert(hashes@ =~= reviewed(self.reviews@).take(i as int));
            }
        }
        proof {
            assert(reviewed(self.reviews@).take(i as int) =~= reviewed(self.reviews@));
        }
        let graded = table::distinct(&hashes);
        (graded, self.reviews.len() - graded)
    }
}

/// A session after its current card has been served.
pub open spec fn shown(s: SessionView, now: Timestamp) -> SessionView {
    if s.card_shown_at is None && s.finished_at is None && s.cards.len() > 0 {
        SessionView { card_shown_at: Some(now), ..s }
    } else {
        s
    }
}

/// Serving a card again does not restart its time.
pub proof fn law_serving_again_changes_nothing(s: SessionView, now: Timestamp, later: Timestamp)
    ensures
        shown(shown(s, now), later) == shown(s, now),
{
}

/// A card with a route belongs to the database that the route names, and two
/// cards with routes share one only if their routes agree. A route that names
/// none leads to the last.
pub proof fn law_routed_cards_go_home(routes: Map<CardHash, usize>, count: nat, hash: CardHash)
    requires
        count > 0,
    ensures
        0 <= route(routes, count, hash) < count,
        routes.contains_key(hash) && routes[hash] < count ==> route(routes, count, hash)
            == routes[hash],
        !routes.contains_key(hash) ==> route(routes, count, hash) == 0,
{
}

/// Serving a card for the first time notes when, and changes nothing else; a
/// session that is finished or has no card notes nothing.
pub proof fn law_serving_notes_the_time(s: SessionView, now: Timestamp)
    ensures
        shown(s, now).cards == s.cards,
        shown(s, now).reviews == s.reviews,
        shown(s, now).cache == s.cache,
        shown(s, now).reveal == s.reveal,
        shown(s, now).finished_at == s.finished_at,
        s.card_shown_at is Some ==> shown(s, now).card_shown_at == s.card_shown_at,
        s.card_shown_at is None && s.finished_at is None && s.cards.len() > 0 ==> shown(
            s,
            now,
        ).card_shown_at == Some(now),
        s.card_shown_at is None && (s.finished_at is Some || s.cards.len() == 0) ==> shown(
            s,
            now,
        ).card_shown_at is None,
{
}

/// A card is asked again in the same session if it was forgotten or hard, and
/// only then.
pub proof fn law_bad_grades_are_repeated(grade: Grade)
    ensures
        repeats(grade) <==> !(grade == Grade::Good || grade == Grade::Easy),
{
}

} // verus!
