//! The start page.

use vstd::prelude::*;
use crate::list;
use crate::serve::decks::ResolvedCustomDeck;
use crate::serve::state::{CollectionInfo, DrillSession};
use crate::text;

verus! {

/// What the start page says of the server.
pub struct LandingStatus {
    pub config_available: bool,
    /// The email of the user, where logins are configured.
    pub signed_in_as: Option<String>,
}

/// One row of the list: a collection or a saved deck.
pub struct DrillRow {
    pub name: String,
    pub slug: String,
    pub due_today: usize,
    pub total_cards: usize,
    pub is_deck: bool,
}

/// A row as it is seen.
pub type Row = (Seq<char>, Seq<char>, nat, nat, bool);

/// A row as it is seen.
pub open spec fn row_view(r: DrillRow) -> Row {
    (r.name@, r.slug@, r.due_today as nat, r.total_cards as nat, r.is_deck)
}

/// The row of a collection.
pub open spec fn collection_row(c: CollectionInfo) -> Row {
    (c.name@, c.slug@, c.due_today as nat, c.total_cards as nat, false)
}

/// Whether a collection belongs to an owner.
pub open spec fn collection_of(owner: Option<Seq<char>>) -> spec_fn(CollectionInfo) -> bool {
    |c: CollectionInfo| text::opt_text(c.owner) == owner
}

/// A deck with the numbers of its cards that are due and of all its cards, if
/// they could be counted.
pub struct CountedDeck {
    pub deck: ResolvedCustomDeck,
    pub counts: Option<(usize, usize)>,
}

/// Whether a deck belongs to an owner.
pub open spec fn deck_of(owner: Option<Seq<char>>) -> spec_fn(CountedDeck) -> bool {
    |d: CountedDeck| text::opt_text(d.deck.owner) == owner
}

/// The row of a deck. One that could not be counted is on the list without
/// numbers, so that it can be opened and say what is wrong.
pub open spec fn deck_row(d: CountedDeck) -> Row {
    match d.counts {
        Some((due, total)) => (d.deck.name@, d.deck.slug@, due as nat, total as nat, true),
        None => (d.deck.name@, d.deck.slug@, 0, 0, true),
    }
}

/// The list of a user: their collections, then their decks.
pub open spec fn landing_list(
    collections: Seq<CollectionInfo>,
    decks: Seq<CountedDeck>,
    owner: Option<Seq<char>>,
) -> Seq<Row> {
    list::keep(collections, collection_of(owner)).map_values(|c: CollectionInfo| collection_row(c))
        + list::keep(decks, deck_of(owner)).map_values(|d: CountedDeck| deck_row(d))
}

/// The list of a user.
pub fn landing_rows(
    collections: &Vec<CollectionInfo>,
    decks: &Vec<CountedDeck>,
    owner: Option<&str>,
) -> (result: Vec<DrillRow>)
    ensures
        result@.map_values(|r: DrillRow| row_view(r)) == landing_list(
            collections@,
            decks@,
            text::opt_str(owner),
        ),
{
    let ghost o = text::opt_str(owner);
    let ghost p = collection_of(o);
    let ghost q = deck_of(o);
    let ghost view = |r: DrillRow| row_view(r);
    let mut rows: Vec<DrillRow> = Vec::new();
    let mut i: usize = 0;
    proof {
        assert(rows@.map_values(view) =~= list::keep(collections@.take(0), p).map_values(
            |c: CollectionInfo| collection_row(c),
        ));
    }
    while i < collections.len()
        invariant
            i <= collections@.len(),
            o == text::opt_str(owner),
            p == collection_of(o),
            view == (|r: DrillRow| row_view(r)),
            rows@.map_values(view) == list::keep(collections@.take(i as int), p).map_values(
                |c: CollectionInfo| collection_row(c),
            ),
        decreases collections@.len() - i,
    {
        let c = &collections[i];
        let ghost before = rows@;
        let ghost kept = list::keep(collections@.take(i as int), p);
        proof {
            list::lemma_keep_step(collections@, p, i as int);
        }
        if text::same_opt(&c.owner, owner) {
            rows.push(
                DrillRow {
                    name: c.name.clone(),
                    slug: c.slug.clone(),
                    due_today: c.due_today,
                    total_cards: c.total_cards,
                    is_deck: false,
                },
            );
            proof {
                assert(rows@.map_values(view) =~= before.map_values(view).push(
                    collection_row(*c),
                ));
                assert(kept.push(*c).map_values(|c: CollectionInfo| collection_row(c))
                    =~= kept.map_values(|c: CollectionInfo| collection_row(c)).push(
                    collection_row(*c),
                ));
            }
        }
        i += 1;
    }
    let ghost first = rows@.map_values(view);
    proof {
        assert(collections@.take(i as int) == collections@);
        assert(first =~= first + list::keep(decks@.take(0), q).map_values(
            |d: CountedDeck| deck_row(d),
        ));
    }
    let mut k: usize = 0;
    while k < decks.len()
        invariant
            k <= decks@.len(),
            o == text::opt_str(owner),
            q == deck_of(o),
            view == (|r: DrillRow| row_view(r)),
            rows@.map_values(view) == first + list::keep(decks@.take(k as int), q).map_values(
                |d: CountedDeck| deck_row(d),
            ),
        decreases decks@.len() - k,
    {
        let d = &decks[k];
        let ghost before = rows@;
        let ghost kept = list::keep(decks@.take(k as int), q);
        proof {
            list::lemma_keep_step(decks@, q, k as int);
        }
        if text::same_opt(&d.deck.owner, owner) {
            let (due_today, total_cards) = match d.counts {
                Some(counts) => counts,
                None => (0, 0),
            };
            rows.push(
                DrillRow {
                    name: d.deck.name.clone(),
                    slug: d.deck.slug.clone(),
                    due_today,
                    total_cards,
                    is_deck: true,
                },
            );
            proof {
                assert(rows@.map_values(view) =~= before.map_values(view).push(deck_row(*d)));
                assert(kept.push(*d).map_values(|d: CountedDeck| deck_row(d))
                    =~= kept.map_values(|d: CountedDeck| deck_row(d)).push(deck_row(*d)));
                assert(rows@.map_values(view) =~= first + kept.push(*d).map_values(
                    |d: CountedDeck| deck_row(d),
                ));
            }
        }
        k += 1;
    }
    proof {
        assert(decks@.take(k as int) == decks@);
        assert(rows@.map_values(view) =~= landing_list(collections@, decks@, o));
    }
    rows
}

/// Everything on the list of a user is theirs.
pub proof fn law_the_list_is_scoped_to_its_owner(
    collections: Seq<CollectionInfo>,
    decks: Seq<CountedDeck>,
    owner: Option<Seq<char>>,
    row: Row,
)
    requires
        landing_list(collections, decks, owner).contains(row),
    ensures
        (exists|c: CollectionInfo| #[trigger]
            collections.contains(c) && text::opt_text(c.owner) == owner && row == collection_row(c))
            || (exists|d: CountedDeck| #[trigger]
            decks.contains(d) && text::opt_text(d.deck.owner) == owner && row == deck_row(d)),
{
    let cs = list::keep(collections, collection_of(owner));
    let ds = list::keep(decks, deck_of(owner));
    list::lemma_keep(collections, collection_of(owner));
    list::lemma_keep(decks, deck_of(owner));
    let all = landing_list(collections, decks, owner);
    let i = choose|i: int| 0 <= i < all.len() && all[i] == row;
    if i < cs.len() {
        assert(cs.contains(cs[i]));
        assert(collections.contains(cs[i]));
    } else {
        assert(ds.contains(ds[i - cs.len()]));
        assert(decks.contains(ds[i - cs.len()]));
    }
}

/// The cards left in the session of a slug, if one is running.
pub open spec fn left_in(
    sessions: Seq<(Seq<char>, bool, nat)>,
    slug: Seq<char>,
) -> Option<nat>
    decreases sessions.len(),
{
    if sessions.len() == 0 {
        None
    } else if sessions[0].0 == slug {
        if sessions[0].1 {
            None
        } else {
            Some(sessions[0].2)
        }
    } else {
        left_in(sessions.skip(1), slug)
    }
}

/// What the start page knows of the sessions: the slug of each, whether it is
/// finished, and how many cards it has left.
pub open spec fn session_views(sessions: Seq<(String, DrillSession)>) -> Seq<
    (Seq<char>, bool, nat),
> {
    sessions.map_values(
        |s: (String, DrillSession)|
            (s.0@, s.1.mutable.finished_at is Some, s.1.mutable.cards@.len()),
    )
}

/// The cards left in the session of a slug, if one is running. It is offered
/// to be resumed.
pub fn resumable(sessions: &Vec<(String, DrillSession)>, slug: &str) -> (result: Option<usize>)
    ensures
        match result {
            Some(n) => left_in(session_views(sessions@), slug@) == Some(n as nat),
            None => left_in(session_views(sessions@), slug@) is None,
        },
{
    let ghost all = session_views(sessions@);
    let mut i: usize = 0;
    proof {
        assert(all.skip(0) == all);
    }
    while i < sessions.len()
        invariant
            i <= sessions@.len(),
            all == session_views(sessions@),
            left_in(all.skip(i as int), slug@) == left_in(all, slug@),
        decreases sessions@.len() - i,
    {
        let s = &sessions[i];
        proof {
            assert(all.skip(i as int)[0] == (s.0@, s.1.mutable.finished_at is Some,
                s.1.mutable.cards@.len()));
            assert(all.skip(i as int).skip(1) == all.skip(i + 1));
        }
        if text::same(s.0.as_str(), slug) {
            if s.1.mutable.finished_at.is_none() {
                return Some(s.1.mutable.cards.len());
            } else {
                return None;
            }
        }
        i += 1;
    }
    None
}

/// The class of a row. One with nothing to do is dimmed.
pub fn row_class(row: &DrillRow, resumable: bool) -> (result: &'static str)
    ensures
        result@ == if row.due_today == 0 && !resumable {
            "drill-row muted"@
        } else {
            "drill-row"@
        },
{
    if row.due_today == 0 && !resumable {
        "drill-row muted"
    } else {
        "drill-row"
    }
}

/// What a row says of the cards that are due.
pub fn due_text(due_today: usize) -> (result: String)
    ensures
        result@ == if due_today > 0 {
            text::decimal(due_today as nat) + " due"@
        } else {
            "Nothing due"@
        },
{
    if due_today > 0 {
        let n = text::decimal_of(due_today as u64);
        text::cat2(n.as_str(), " due")
    } else {
        "Nothing due".to_owned()
    }
}

/// What a row says of all its cards.
pub fn total_text(total_cards: usize) -> (result: String)
    ensures
        result@ == text::decimal(total_cards as nat) + if total_cards == 1 {
            " card"@
        } else {
            " cards"@
        },
{
    let n = text::decimal_of(total_cards as u64);
    if total_cards == 1 {
        text::cat2(n.as_str(), " card")
    } else {
        text::cat2(n.as_str(), " cards")
    }
}

/// The line under the title: who is signed in.
pub fn status_line(status: &LandingStatus) -> (result: Option<String>)
    ensures
        result == status.signed_in_as,
{
    status.signed_in_as.clone()
}

/// What the button of a row does.
#[derive(Clone, Copy, Debug, PartialEq, Eq)]
pub enum RowAction {
    /// Resumes the session, with this many cards left.
    Resume(usize),
    /// Starts a session with all that is due.
    Drill,
    /// There is no button.
    Nothing,
}

/// What the button of a row does. A session that is running is never started
/// over.
pub fn row_action(row: &DrillRow, left: Option<usize>) -> (result: RowAction)
    ensures
        result == match left {
            Some(n) => RowAction::Resume(n),
            None => if row.due_today > 0 {
                RowAction::Drill
            } else {
                RowAction::Nothing
            },
        },
{
    match left {
        Some(n) => RowAction::Resume(n),
        None => if row.due_today > 0 {
            RowAction::Drill
        } else {
            RowAction::Nothing
        },
    }
}

/// Everything of the user is on the list: each of their collections and each of
/// their decks has a row, with its own name, slug and numbers.
pub proof fn law_nothing_of_the_owner_is_left_out(
    collections: Seq<CollectionInfo>,
    decks: Seq<CountedDeck>,
    owner: Option<Seq<char>>,
)
    ensures
        ({
            let rows = landing_list(collections, decks, owner);
            &&& forall|i: int|
                0 <= i < collections.len() && text::opt_text((#[trigger] collections[i]).owner)
                    == owner ==> rows.contains(
                    (
                        collections[i].name@,
                        collections[i].slug@,
                        collections[i].due_today as nat,
                        collections[i].total_cards as nat,
                        false,
                    ),
                )
            &&& forall|i: int|
                0 <= i < decks.len() && text::opt_text((#[trigger] decks[i]).deck.owner) == owner
                    && decks[i].counts is Some ==> rows.contains(
                    (
                        decks[i].deck.name@,
                        decks[i].deck.slug@,
                        (decks[i].counts->0).0 as nat,
                        (decks[i].counts->0).1 as nat,
                        true,
                    ),
                )
            &&& forall|i: int|
                0 <= i < decks.len() && text::opt_text((#[trigger] decks[i]).deck.owner) == owner
                    && decks[i].counts is None ==> rows.contains(
                    (decks[i].deck.name@, decks[i].deck.slug@, 0nat, 0nat, true),
                )
            &&& rows.len() == list::keep(
                collections,
                |c: CollectionInfo| text::opt_text(c.owner) == owner,
            ).len() + list::keep(
                decks,
                |d: CountedDeck| text::opt_text(d.deck.owner) == owner,
            ).len()
        }),
{
    let own = list::keep(collections, collection_of(owner));
    let own_decks = list::keep(decks, deck_of(owner));
    list::law_keeping_keeps_order(collections, collection_of(owner));
    list::law_keeping_keeps_order(decks, deck_of(owner));
    let rows = landing_list(collections, decks, owner);
    assert(collection_of(owner) =~= |c: CollectionInfo| text::opt_text(c.owner) == owner);
    assert(deck_of(owner) =~= |d: CountedDeck| text::opt_text(d.deck.owner) == owner);
    assert forall|i: int|
        0 <= i < collections.len() && text::opt_text((#[trigger] collections[i]).owner)
            == owner implies rows.contains(collection_row(collections[i])) by {
        assert(collection_of(owner)(collections[i]));
        assert(own.contains(collections[i]));
        let k = choose|k: int| 0 <= k < own.len() && own[k] == collections[i];
        assert(rows[k] == collection_row(collections[i]));
    }
    assert forall|i: int|
        0 <= i < decks.len() && text::opt_text((#[trigger] decks[i]).deck.owner)
            == owner implies rows.contains(deck_row(decks[i])) by {
        assert(deck_of(owner)(decks[i]));
        assert(own_decks.contains(decks[i]));
        let k = choose|k: int| 0 <= k < own_decks.len() && own_decks[k] == decks[i];
        assert(rows[own.len() + k] == deck_row(decks[i]));
    }
}

/// A session can be resumed if and only if the first one under the slug is not
/// finished, and what is left of it is its queue.
pub proof fn law_unfinished_sessions_can_be_resumed(
    before: Seq<(Seq<char>, bool, nat)>,
    session: (Seq<char>, bool, nat),
    behind: Seq<(Seq<char>, bool, nat)>,
)
    requires
        forall|i: int| 0 <= i < before.len() ==> (#[trigger] before[i]).0 != session.0,
    ensures
        left_in(before.push(session) + behind, session.0) == if session.1 {
            None
        } else {
            Some(session.2)
        },
        left_in(before, session.0) is None,
    decreases before.len(),
{
    let all = before.push(session) + behind;
    if before.len() > 0 {
        let rest = before.skip(1);
        assert forall|i: int| 0 <= i < rest.len() implies (#[trigger] rest[i]).0 != session.0 by {
            assert(rest[i] == before[i + 1]);
        }
        law_unfinished_sessions_can_be_resumed(rest, session, behind);
        assert(all.skip(1) =~= rest.push(session) + behind);
        assert(all[0] == before[0]);
    } else {
        assert(all[0] == session);
    }
}

} // verus!
