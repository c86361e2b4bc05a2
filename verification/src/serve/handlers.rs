//! What the requests on collections come to.

use vstd::prelude::*;
use crate::drill::cache::Cache;
use crate::drill::post;
use crate::drill::post::{Action, ActionResult, FormData};
use crate::drill::render::AnswerControls;
use crate::drill::server;
use crate::drill::state::{MutableState, SessionDb, SessionDbs, SessionSource, SessionView};
use crate::drill::table::CardTable;
use crate::error::{fail, Fallible};
use crate::flash;
use crate::flash::Flash;
use crate::list;
use crate::serve::config::{DefaultsSection, DeckMember, ResolvedCollection};
use crate::serve::decks;
use crate::serve::decks::{find_custom_deck, ResolvedCustomDeck};
use crate::serve::state::{DrillSession, HedgedocSource};
use crate::text;
use crate::types::card::Card;
use crate::types::card_hash;
use crate::types::card_hash::CardHash;
use crate::types::performance::Performance;
use crate::types::timestamp::Timestamp;

verus! {

/// The collection itself, if it has this slug and belongs to this owner.
pub open spec fn if_named(slug: Seq<char>, owner: Option<Seq<char>>) -> spec_fn(
    ResolvedCollection,
) -> Option<ResolvedCollection> {
    |c: ResolvedCollection|
        if c.slug@ == slug && text::opt_text(c.owner) == owner {
            Some(c)
        } else {
            None
        }
}

/// The collections of some notes.
pub open spec fn note_collections(sources: Seq<HedgedocSource>) -> Seq<ResolvedCollection> {
    sources.map_values(|s: HedgedocSource| s.collection)
}

/// The collection with this slug that belongs to this owner: a configured one
/// before a note. A collection of someone else is treated as if it did not
/// exist.
pub open spec fn collection_named(
    collections: Seq<ResolvedCollection>,
    sources: Seq<HedgedocSource>,
    slug: Seq<char>,
    owner: Option<Seq<char>>,
) -> Option<ResolvedCollection> {
    text::first_of(
        text::first_some(collections, if_named(slug, owner)),
        text::first_some(note_collections(sources), if_named(slug, owner)),
    )
}

/// The collection with this slug that belongs to this owner.
pub fn find_collection(
    collections: &Vec<ResolvedCollection>,
    sources: &Vec<HedgedocSource>,
    slug: &str,
    owner: Option<&str>,
) -> (result: Option<ResolvedCollection>)
    ensures
        result == collection_named(collections@, sources@, slug@, text::opt_str(owner)),
{
    let ghost f = if_named(slug@, text::opt_str(owner));
    let ghost notes = note_collections(sources@);
    let mut i: usize = 0;
    proof {
        assert(collections@.skip(0) == collections@);
        assert(notes.skip(0) == notes);
    }
    while i < collections.len()
        invariant
            i <= collections@.len(),
            f == if_named(slug@, text::opt_str(owner)),
            text::first_some(collections@.skip(i as int), f) == text::first_some(collections@, f),
        decreases collections@.len() - i,
    {
        proof {
            assert(collections@.skip(i as int).skip(1) == collections@.skip(i + 1));
        }
        if text::same(collections[i].slug.as_str(), slug) && text::same_opt(
            &collections[i].owner,
            owner,
        ) {
            return Some(collections[i].clone());
        }
        i += 1;
    }
    let mut j: usize = 0;
    while j < sources.len()
        invariant
            j <= sources@.len(),
            f == if_named(slug@, text::opt_str(owner)),
            notes == note_collections(sources@),
            text::first_some(collections@, f) is None,
            text::first_some(notes.skip(j as int), f) == text::first_some(notes, f),
        decreases sources@.len() - j,
    {
        proof {
            assert(notes.skip(j as int).skip(1) == notes.skip(j + 1));
            assert(notes.skip(j as int)[0] == sources@[j as int].collection);
        }
        if text::same(sources[j].collection.slug.as_str(), slug) && text::same_opt(
            &sources[j].collection.owner,
            owner,
        ) {
            return Some(sources[j].collection.clone());
        }
        j += 1;
    }
    None
}

/// A request reaches a collection of its own user only.
pub proof fn law_collections_are_scoped_to_their_owner(
    collections: Seq<ResolvedCollection>,
    sources: Seq<HedgedocSource>,
    slug: Seq<char>,
    owner: Option<Seq<char>>,
)
    ensures
        collection_named(collections, sources, slug, owner) matches Some(c) ==> c.slug@ == slug
            && text::opt_text(c.owner) == owner,
        collection_named(collections, sources, slug, owner) is None ==> {
            &&& forall|i: int|
                0 <= i < collections.len() ==> (#[trigger] collections[i]).slug@ != slug
                    || text::opt_text(collections[i].owner) != owner
            &&& forall|i: int|
                0 <= i < sources.len() ==> (#[trigger] sources[i]).collection.slug@ != slug
                    || text::opt_text(sources[i].collection.owner) != owner
        },
{
    let f = if_named(slug, owner);
    let notes = note_collections(sources);
    lemma_first_named(collections, slug, owner);
    lemma_first_named(notes, slug, owner);
    text::lemma_first_some_none(collections, f);
    text::lemma_first_some_none(notes, f);
    if collection_named(collections, sources, slug, owner) is None {
        assert forall|i: int| 0 <= i < collections.len() implies (
        #[trigger] collections[i]).slug@ != slug || text::opt_text(collections[i].owner)
            != owner by {
            assert(f(collections[i]) is None);
        }
        assert forall|i: int| 0 <= i < sources.len() implies (
        #[trigger] sources[i]).collection.slug@ != slug || text::opt_text(
            sources[i].collection.owner,
        ) != owner by {
            assert(f(notes[i]) is None);
        }
    }
}

proof fn lemma_first_named(
    cs: Seq<ResolvedCollection>,
    slug: Seq<char>,
    owner: Option<Seq<char>>,
)
    ensures
        text::first_some(cs, if_named(slug, owner)) matches Some(c) ==> c.slug@ == slug
            && text::opt_text(c.owner) == owner,
    decreases cs.len(),
{
    if cs.len() > 0 {
        lemma_first_named(cs.skip(1), slug, owner);
    }
}

/// Something that can be drilled.
pub enum DrillTarget {
    Collection(ResolvedCollection),
    Deck(ResolvedCustomDeck),
}

/// What can be drilled under a slug: a collection before a custom deck.
pub enum TargetView {
    Collection(ResolvedCollection),
    Deck(int),
    Nothing,
}

pub open spec fn target_named(
    collections: Seq<ResolvedCollection>,
    sources: Seq<HedgedocSource>,
    custom: Seq<ResolvedCustomDeck>,
    slug: Seq<char>,
    owner: Option<Seq<char>>,
) -> TargetView {
    match collection_named(collections, sources, slug, owner) {
        Some(c) => TargetView::Collection(c),
        None => {
            let i = decks::deck_index(custom, slug, owner);
            if i < custom.len() {
                TargetView::Deck(i)
            } else {
                TargetView::Nothing
            }
        },
    }
}

/// Whether two decks say the same.
pub open spec fn same_deck(a: ResolvedCustomDeck, b: ResolvedCustomDeck) -> bool {
    &&& a.name == b.name
    &&& a.slug == b.slug
    &&& a.owner == b.owner
    &&& a.members@ == b.members@
}

fn copied_deck(deck: &ResolvedCustomDeck) -> (result: ResolvedCustomDeck)
    ensures
        same_deck(result, *deck),
{
    let mut members: Vec<DeckMember> = Vec::new();
    let mut i: usize = 0;
    while i < deck.members.len()
        invariant
            i <= deck.members@.len(),
            members@ == deck.members@.take(i as int),
        decreases deck.members@.len() - i,
    {
        members.push(deck.members[i].clone());
        i += 1;
        proof {
            assert(members@ =~= deck.members@.take(i as int));
        }
    }
    proof {
        assert(members@ =~= deck.members@);
    }
    ResolvedCustomDeck {
        name: deck.name.clone(),
        slug: deck.slug.clone(),
        owner: deck.owner.clone(),
        members,
    }
}

/// What can be drilled under a slug.
pub fn find_drill_target(
    collections: &Vec<ResolvedCollection>,
    sources: &Vec<HedgedocSource>,
    custom: &Vec<ResolvedCustomDeck>,
    slug: &str,
    owner: Option<&str>,
) -> (result: Option<DrillTarget>)
    ensures
        match target_named(collections@, sources@, custom@, slug@, text::opt_str(owner)) {
            TargetView::Collection(c) => result == Some(DrillTarget::Collection(c)),
            TargetView::Deck(i) => result matches Some(DrillTarget::Deck(d)) && same_deck(
                d,
                custom@[i],
            ),
            TargetView::Nothing => result is None,
        },
{
    match find_collection(collections, sources, slug, owner) {
        Some(c) => Some(DrillTarget::Collection(c)),
        None => match find_custom_deck(custom, slug, owner) {
            Some(d) => Some(DrillTarget::Deck(copied_deck(d))),
            None => None,
        },
    }
}

/// A collection that contributes to a session, and which of its decks are
/// wanted. No deck at all means every deck.
pub struct SessionSourceSpec {
    pub collection: ResolvedCollection,
    pub decks: Vec<String>,
}

/// A contributing collection as the rules see it.
pub struct SourceView {
    pub collection: ResolvedCollection,
    pub decks: Seq<Seq<char>>,
}

/// The contributing collections as the rules see them.
pub open spec fn source_views(specs: Seq<SessionSourceSpec>) -> Seq<SourceView> {
    specs.map_values(
        |s: SessionSourceSpec|
            SourceView { collection: s.collection, decks: text::views(s.decks@) },
    )
}

/// The first source with this slug; the number of sources if there is none.
pub open spec fn source_index(sources: Seq<SourceView>, slug: Seq<char>) -> int
    decreases sources.len(),
{
    if sources.len() == 0 || sources[0].collection.slug@ == slug {
        0
    } else {
        1 + source_index(sources.skip(1), slug)
    }
}

/// The sources with one more deck wanted.
pub open spec fn with_member(
    sources: Seq<SourceView>,
    collection: Option<ResolvedCollection>,
    deck: Seq<char>,
) -> Seq<SourceView> {
    match collection {
        Some(c) => {
            let i = source_index(sources, c.slug@);
            if i < sources.len() {
                sources.update(
                    i,
                    SourceView { decks: sources[i].decks.push(deck), ..sources[i] },
                )
            } else {
                sources.push(SourceView { collection: c, decks: seq![deck] })
            }
        },
        None => sources,
    }
}

/// The collections that a custom deck draws on, each once, with the decks that
/// are wanted of it. A member that names a collection its user does not have
/// is skipped: it should not make the rest of the deck undrillable.
pub open spec fn deck_draws(
    collections: Seq<ResolvedCollection>,
    sources: Seq<HedgedocSource>,
    members: Seq<DeckMember>,
    owner: Option<Seq<char>>,
) -> Seq<SourceView>
    decreases members.len(),
{
    if members.len() == 0 {
        seq![]
    } else {
        let m = members.last();
        with_member(
            deck_draws(collections, sources, members.drop_last(), owner),
            collection_named(collections, sources, m.collection_slug@, owner),
            m.deck_name@,
        )
    }
}

proof fn lemma_source_index(sources: Seq<SourceView>, slug: Seq<char>)
    ensures
        0 <= source_index(sources, slug) <= sources.len(),
        source_index(sources, slug) < sources.len() ==> sources[source_index(
            sources,
            slug,
        )].collection.slug@ == slug,
        forall|j: int|
            0 <= j < source_index(sources, slug) ==> (#[trigger] sources[j]).collection.slug@
                != slug,
    decreases sources.len(),
{
    if sources.len() > 0 && sources[0].collection.slug@ != slug {
        lemma_source_index(sources.skip(1), slug);
        assert forall|j: int| 0 <= j < source_index(sources, slug) implies (
        #[trigger] sources[j]).collection.slug@ != slug by {
            if j > 0 {
                assert(sources[j] == sources.skip(1)[j - 1]);
            }
        }
    }
}

fn position_of_slug(specs: &Vec<SessionSourceSpec>, slug: &str) -> (result: usize)
    ensures
        result == source_index(source_views(specs@), slug@),
        result <= specs@.len(),
{
    let ghost views = source_views(specs@);
    let mut i: usize = 0;
    while i < specs.len() && !text::same(specs[i].collection.slug.as_str(), slug)
        invariant
            i <= specs@.len(),
            views == source_views(specs@),
            forall|j: int| 0 <= j < i ==> (#[trigger] views[j]).collection.slug@ != slug@,
        decreases specs@.len() - i,
    {
        i += 1;
    }
    proof {
        lemma_source_index(views, slug@);
        if i < views.len() {
            assert(views[i as int].collection.slug@ == slug@);
        }
    }
    i
}

/// The collections that a custom deck draws on.
pub fn deck_sources(
    collections: &Vec<ResolvedCollection>,
    sources: &Vec<HedgedocSource>,
    deck: &ResolvedCustomDeck,
    owner: Option<&str>,
) -> (result: Vec<SessionSourceSpec>)
    ensures
        source_views(result@) == deck_draws(
            collections@,
            sources@,
            deck.members@,
            text::opt_str(owner),
        ),
{
    let mut result: Vec<SessionSourceSpec> = Vec::new();
    let mut i: usize = 0;
    proof {
        assert(source_views(result@) =~= deck_draws(
            collections@,
            sources@,
            deck.members@.take(0),
            text::opt_str(owner),
        ));
    }
    while i < deck.members.len()
        invariant
            i <= deck.members@.len(),
            source_views(result@) == deck_draws(
                collections@,
                sources@,
                deck.members@.take(i as int),
                text::opt_str(owner),
            ),
        decreases deck.members@.len() - i,
    {
        let ghost before = source_views(result@);
        let member = &deck.members[i];
        proof {
            assert(deck.members@.take(i + 1).drop_last() == deck.members@.take(i as int));
            assert(deck.members@.take(i + 1).last() == *member);
        }
        match find_collection(collections, sources, member.collection_slug.as_str(), owner) {
            None => {},
            Some(c) => {
                let at = position_of_slug(&result, c.slug.as_str());
                if at < result.len() {
                    let mut spec = result.remove(at);
                    let ghost old_decks = spec.decks@;
                    spec.decks.push(member.deck_name.clone());
                    proof {
                        text::lemma_views_push(old_decks, member.deck_name);
                    }
                    result.insert(at, spec);
                    proof {
                        assert(source_views(result@) =~= with_member(
                            before,
                            Some(c),
                            member.deck_name@,
                        ));
                    }
                } else {
                    let decks = vec![member.deck_name.clone()];
                    proof {
                        assert(text::views(decks@) =~= seq![member.deck_name@]);
                    }
                    result.push(SessionSourceSpec { collection: c, decks });
                    proof {
                        assert(source_views(result@) =~= with_member(
                            before,
                            Some(c),
                            member.deck_name@,
                        ));
                    }
                }
            },
        }
        i += 1;
    }
    proof {
        assert(deck.members@.take(i as int) == deck.members@);
    }
    result
}

/// How many decks are wanted of all sources together.
pub open spec fn decks_wanted(sources: Seq<SourceView>) -> nat
    decreases sources.len(),
{
    if sources.len() == 0 {
        0
    } else {
        decks_wanted(sources.drop_last()) + sources.last().decks.len()
    }
}

/// A custom deck draws on each collection at most once, on collections of its
/// user alone, and for no more decks than it has members.
pub proof fn law_custom_decks_draw_on_own_collections(
    collections: Seq<ResolvedCollection>,
    sources: Seq<HedgedocSource>,
    members: Seq<DeckMember>,
    owner: Option<Seq<char>>,
)
    ensures
        ({
            let draws = deck_draws(collections, sources, members, owner);
            &&& forall|i: int|
                0 <= i < draws.len() ==> text::opt_text((#[trigger] draws[i]).collection.owner)
                    == owner
            &&& forall|i: int, j: int|
                0 <= i < j < draws.len() ==> (#[trigger] draws[i]).collection.slug@ != (
                #[trigger] draws[j]).collection.slug@
            &&& decks_wanted(draws) <= members.len()
        }),
    decreases members.len(),
{
    if members.len() > 0 {
        let rest = members.drop_last();
        law_custom_decks_draw_on_own_collections(collections, sources, rest, owner);
        let before = deck_draws(collections, sources, rest, owner);
        let m = members.last();
        let found = collection_named(collections, sources, m.collection_slug@, owner);
        law_collections_are_scoped_to_their_owner(
            collections,
            sources,
            m.collection_slug@,
            owner,
        );
        if let Some(c) = found {
            lemma_source_index(before, c.slug@);
            let at = source_index(before, c.slug@);
            if at < before.len() {
                lemma_decks_wanted_update(before, at, m.deck_name@);
            } else {
                let more = with_member(before, found, m.deck_name@);
                assert(more.drop_last() =~= before);
            }
        }
    }
}

proof fn lemma_decks_wanted_update(sources: Seq<SourceView>, i: int, deck: Seq<char>)
    requires
        0 <= i < sources.len(),
    ensures
        decks_wanted(
            sources.update(i, SourceView { decks: sources[i].decks.push(deck), ..sources[i] }),
        ) == decks_wanted(sources) + 1,
    decreases sources.len(),
{
    let changed = SourceView { decks: sources[i].decks.push(deck), ..sources[i] };
    let rest = sources.drop_last();
    if i < rest.len() {
        lemma_decks_wanted_update(rest, i, deck);
        assert(sources.update(i, changed).drop_last() =~= rest.update(i, changed));
    } else {
        assert(sources.update(i, changed).drop_last() =~= rest);
    }
}

/// How many members of a custom deck point at a collection that is not
/// available: the members less the decks that are drawn on.
pub fn missing_members(deck: &ResolvedCustomDeck, specs: &Vec<SessionSourceSpec>) -> (result: usize)
    requires
        decks_wanted(source_views(specs@)) <= usize::MAX,
    ensures
        result == if decks_wanted(source_views(specs@)) < deck.members@.len() {
            deck.members@.len() - decks_wanted(source_views(specs@))
        } else {
            0
        },
{
    let ghost views = source_views(specs@);
    let mut drawn: usize = 0;
    let mut i: usize = 0;
    while i < specs.len()
        invariant
            i <= specs@.len(),
            views == source_views(specs@),
            drawn == decks_wanted(views.take(i as int)),
            decks_wanted(views) <= usize::MAX,
        decreases specs@.len() - i,
    {
        proof {
            assert(views.take(i + 1).drop_last() == views.take(i as int));
            assert(views.take(i + 1).last().decks.len() == specs@[i as int].decks@.len());
            lemma_decks_wanted_prefix(views, i + 1);
        }
        drawn += specs[i].decks.len();
        i += 1;
    }
    proof {
        assert(views.take(i as int) == views);
    }
    if drawn < deck.members.len() {
        deck.members.len() - drawn
    } else {
        0
    }
}

proof fn lemma_decks_wanted_prefix(sources: Seq<SourceView>, i: int)
    requires
        0 <= i <= sources.len(),
    ensures
        decks_wanted(sources.take(i)) <= decks_wanted(sources),
    decreases sources.len(),
{
    if i < sources.len() {
        lemma_decks_wanted_prefix(sources.drop_last(), i);
        assert(sources.drop_last().take(i) == sources.take(i));
    } else {
        assert(sources.take(i) == sources);
    }
}

/// A collection that has been opened for a session.
pub struct LoadedSource {
    pub spec: SessionSourceSpec,
    pub cards: Vec<Card>,
    /// The cards that are due, with their performance.
    pub due: CardTable<Performance>,
    /// The session row that was opened in its database.
    pub session_id: i64,
}

/// The cards of a session, with how well each is known and where it belongs.
pub struct Gathered {
    pub cards: Vec<Card>,
    pub cache: Cache,
    pub routes: CardTable<usize>,
}

/// The cards of a session as the rules see them.
#[verifier::ext_equal]
pub struct GatheredView {
    pub cards: Seq<Card>,
    pub cache: Map<CardHash, Performance>,
    pub routes: Map<CardHash, usize>,
}

impl View for Gathered {
    type V = GatheredView;

    open spec fn view(&self) -> GatheredView {
        GatheredView { cards: self.cards@, cache: self.cache@, routes: self.routes@ }
    }
}

/// Whether a source wants a card: no deck is named, or the card's is.
pub open spec fn wanted(decks: Seq<Seq<char>>, card: Card) -> bool {
    decks.len() == 0 || decks.contains(card.deck())
}

/// The cards of a session after a card of the source `index` has been offered.
/// A card that is due and wanted is taken, unless a source has given it
/// before: the same content in two collections is one card, and is drilled
/// once.
pub open spec fn offered(
    g: GatheredView,
    index: usize,
    source: LoadedSource,
    card: Card,
) -> GatheredView {
    let h = card.id();
    if wanted(text::views(source.spec.decks@), card) && source.due@.contains_key(h)
        && !g.routes.contains_key(h) {
        GatheredView {
            cards: g.cards.push(card),
            cache: g.cache.insert(h, source.due@[h]),
            routes: g.routes.insert(h, index),
        }
    } else {
        g
    }
}

/// The cards of a session after the first `n` cards of a source have been
/// offered.
pub open spec fn offered_all(
    g: GatheredView,
    index: usize,
    source: LoadedSource,
    n: nat,
) -> GatheredView
    decreases n,
{
    if n == 0 {
        g
    } else {
        offered(
            offered_all(g, index, source, (n - 1) as nat),
            index,
            source,
            source.cards@[n - 1],
        )
    }
}

/// The cards of a session over the first `n` sources.
pub open spec fn gathered(sources: Seq<LoadedSource>, n: nat) -> GatheredView
    decreases n,
{
    if n == 0 {
        GatheredView { cards: seq![], cache: Map::empty(), routes: Map::empty() }
    } else {
        offered_all(
            gathered(sources, (n - 1) as nat),
            (n - 1) as usize,
            sources[n - 1],
            sources[n - 1].cards@.len(),
        )
    }
}

/// Collects the due cards of all sources, each card once, and buries siblings
/// if that is asked for.
pub fn gather_due(sources: &Vec<LoadedSource>, bury: bool) -> (result: Gathered)
    ensures
        ({
            let g = gathered(sources@, sources@.len());
            result@ == if bury {
                GatheredView { cards: server::buried(g.cards), ..g }
            } else {
                g
            }
        }),
{
    let mut cards: Vec<Card> = Vec::new();
    let mut cache = Cache::new();
    let mut routes: CardTable<usize> = CardTable::new();
    let mut i: usize = 0;
    while i < sources.len()
        invariant
            i <= sources@.len(),
            gathered(sources@, i as nat) == (GatheredView {
                cards: cards@,
                cache: cache@,
                routes: routes@,
            }),
            forall|h: CardHash| #[trigger] cache@.contains_key(h) <==> routes@.contains_key(h),
        decreases sources@.len() - i,
    {
        let source = &sources[i];
        let ghost before = gathered(sources@, i as nat);
        let mut j: usize = 0;
        while j < source.cards.len()
            invariant
                j <= source.cards@.len(),
                i < sources@.len(),
                offered_all(before, i, *source, j as nat) == (GatheredView {
                    cards: cards@,
                    cache: cache@,
                    routes: routes@,
                }),
                forall|h: CardHash| #[trigger] cache@.contains_key(h) <==> routes@.contains_key(h),
            decreases source.cards@.len() - j,
        {
            let card = &source.cards[j];
            let hash = card.hash();
            let ghost now = offered_all(before, i, *source, j as nat);
            let wants = source.spec.decks.len() == 0 || text::lists(
                &source.spec.decks,
                card.deck_name(),
            );
            if wants && !routes.contains(hash) {
                if let Some(performance) = source.due.get(hash) {
                    let _ = cache.insert(hash, performance);
                    routes.set(hash, i);
                    cards.push(card.clone());
                }
            }
            proof {
                assert(offered(now, i, *source, *card) =~= GatheredView {
                    cards: cards@,
                    cache: cache@,
                    routes: routes@,
                });
                assert forall|h: CardHash| #[trigger]
                    cache@.contains_key(h) <==> routes@.contains_key(h) by {
                    assert(now.cache.contains_key(h) <==> now.routes.contains_key(h));
                }
            }
            j += 1;
        }
        i += 1;
    }
    if bury {
        cards = server::bury_siblings(cards);
    }
    let result = Gathered { cards, cache, routes };
    proof {
        let g = gathered(sources@, sources@.len());
        assert(result@ =~= if bury {
            GatheredView { cards: server::buried(g.cards), ..g }
        } else {
            g
        });
    }
    result
}

/// Whether a source offers a card: it holds the card, wants it, and the card
/// is due in it.
pub open spec fn offers(source: LoadedSource, n: nat, hash: CardHash) -> bool {
    exists|k: int|
        0 <= k < n && (#[trigger] source.cards@[k]).id() == hash && wanted(
            text::views(source.spec.decks@),
            source.cards@[k],
        ) && source.due@.contains_key(hash)
}

/// Whether a card belongs to a source that holds it and wants it.
pub open spec fn homed(
    sources: Seq<LoadedSource>,
    routes: Map<CardHash, usize>,
    card: Card,
) -> bool {
    let home = sources[routes[card.id()] as int];
    &&& routes.contains_key(card.id())
    &&& home.cards@.contains(card)
    &&& wanted(text::views(home.spec.decks@), card)
}

/// What holds of the cards that have been gathered from some sources: each
/// stands there once, and belongs to a source that offers it, from which its
/// performance comes.
pub open spec fn well_gathered(sources: Seq<LoadedSource>, g: GatheredView) -> bool {
    &&& forall|i: int, j: int|
        0 <= i < j < g.cards.len() ==> (#[trigger] g.cards[i]).id() != (#[trigger] g.cards[j]).id()
    &&& forall|i: int| 0 <= i < g.cards.len() ==> homed(sources, g.routes, #[trigger] g.cards[i])
    &&& forall|h: CardHash| #[trigger]
        g.routes.contains_key(h) ==> {
            &&& g.routes[h] < sources.len()
            &&& offers(
                sources[g.routes[h] as int],
                sources[g.routes[h] as int].cards@.len(),
                h,
            )
            &&& g.cache.contains_key(h)
            &&& g.cache[h] == sources[g.routes[h] as int].due@[h]
        }
    &&& forall|h: CardHash| #[trigger] g.cache.contains_key(h) ==> g.routes.contains_key(h)
}

proof fn lemma_offered_all(
    sources: Seq<LoadedSource>,
    g: GatheredView,
    index: usize,
    n: nat,
)
    requires
        index < sources.len(),
        n <= sources[index as int].cards@.len(),
        well_gathered(sources, g),
    ensures
        ({
            let after = offered_all(g, index, sources[index as int], n);
            &&& well_gathered(sources, after)
            &&& forall|h: CardHash| #[trigger]
                g.routes.contains_key(h) ==> after.routes.contains_key(h) && after.routes[h]
                    == g.routes[h]
            &&& forall|h: CardHash| #[trigger]
                after.routes.contains_key(h) && !g.routes.contains_key(h) ==> after.routes[h]
                    == index
            &&& forall|h: CardHash| #[trigger]
                offers(sources[index as int], n, h) ==> after.routes.contains_key(h)
        }),
    decreases n,
{
    if n > 0 {
        let source = sources[index as int];
        let m = (n - 1) as nat;
        lemma_offered_all(sources, g, index, m);
        let before = offered_all(g, index, source, m);
        let card = source.cards@[n - 1];
        let after = offered_all(g, index, source, n);
        assert forall|h: CardHash| #[trigger] offers(source, n, h) implies
            after.routes.contains_key(h) by {
            let k = choose|k: int|
                0 <= k < n && (#[trigger] source.cards@[k]).id() == h && wanted(
                    text::views(source.spec.decks@),
                    source.cards@[k],
                ) && source.due@.contains_key(h);
            if k < m {
                assert(offers(source, m, h));
            }
        }
        if after != before {
            assert forall|i: int, j: int| 0 <= i < j < after.cards.len() implies (
            #[trigger] after.cards[i]).id() != (#[trigger] after.cards[j]).id() by {
                assert(after.cards[i] == before.cards[i]);
                if j < before.cards.len() {
                    assert(after.cards[j] == before.cards[j]);
                }
            }
            assert(offers(source, source.cards@.len(), card.id()));
            assert(source.cards@.contains(card));
            assert forall|i: int| 0 <= i < after.cards.len() implies homed(
                sources,
                after.routes,
                #[trigger] after.cards[i],
            ) by {
                if i < before.cards.len() {
                    assert(after.cards[i] == before.cards[i]);
                    assert(homed(sources, before.routes, before.cards[i]));
                    assert(before.routes.contains_key(before.cards[i].id()));
                }
            }
        }
    }
}

/// A session over several collections holds each card once. A card belongs to
/// the first source that offers it, which holds it, wants it, and is where it is
/// due and where its performance comes from; no card that a source offers is
/// lost.
pub proof fn law_each_card_has_one_home(sources: Seq<LoadedSource>, n: nat)
    requires
        n <= sources.len() <= usize::MAX,
    ensures
        well_gathered(sources, gathered(sources, n)),
        forall|i: int, h: CardHash|
            0 <= i < n && #[trigger] offers(sources[i], sources[i].cards@.len(), h) ==> gathered(
                sources,
                n,
            ).routes.contains_key(h) && gathered(sources, n).routes[h] <= i,
        forall|h: CardHash| #[trigger]
            gathered(sources, n).routes.contains_key(h) ==> gathered(sources, n).routes[h] < n,
    decreases n,
{
    if n > 0 {
        let m = (n - 1) as nat;
        law_each_card_has_one_home(sources, m);
        let before = gathered(sources, m);
        lemma_offered_all(sources, before, m as usize, sources[m as int].cards@.len());
        let after = gathered(sources, n);
        assert forall|i: int, h: CardHash|
            0 <= i < n && #[trigger] offers(
                sources[i],
                sources[i].cards@.len(),
                h,
            ) implies after.routes.contains_key(h) && after.routes[h] <= i by {
            if i < m {
                assert(before.routes.contains_key(h));
            } else if before.routes.contains_key(h) {
            }
        }
    }
}

/// Whether `row` is the open row of a source, in a session over one collection
/// or over several.
pub open spec fn row_of(source: LoadedSource, several: bool, row: SessionDb) -> bool {
    &&& row.session_id == source.session_id
    &&& match row.source {
        Some(s) => several && s.coll_dir@ == source.spec.collection.coll_dir@
            && s.file_url_prefix@ == "/collection/"@ + source.spec.collection.slug@ + "/file"@,
        None => !several,
    }
}

/// Opens a session over the cards that have been gathered, in the order they
/// are in now, cut down to the limit. Reviews go to the collection that each
/// card belongs to.
pub fn create_session_from_sources(
    sources: &Vec<LoadedSource>,
    gathered: Gathered,
    limit: Option<usize>,
    defaults: DefaultsSection,
    session_started_at: Timestamp,
    directory: String,
    macros: Vec<(String, String)>,
) -> (result: DrillSession)
    requires
        sources@.len() > 0,
    ensures
        result.directory == directory,
        result.macros == macros,
        result.session_started_at == session_started_at,
        result.last_activity_at == session_started_at,
        !result.detached,
        result.answer_controls == crate::drill::render::controls(defaults.answer_controls),
        result.mutable@ == (SessionView {
            reveal: false,
            cards: server::at_most(gathered@.cards, limit),
            reviews: seq![],
            finished_at: None,
            card_shown_at: None,
            cache: gathered@.cache,
        }),
        result.total_cards == server::at_most(gathered@.cards, limit).len(),
        result.mutable.dbs.routes() == if sources@.len() > 1 {
            gathered@.routes
        } else {
            Map::empty()
        },
        result.mutable.dbs.rows().len() == sources@.len(),
        forall|i: int|
            0 <= i < sources@.len() ==> row_of(
                sources@[i],
                sources@.len() > 1,
                #[trigger] result.mutable.dbs.rows()[i],
            ),
{
    let several = sources.len() > 1;
    let mut dbs: Vec<SessionDb> = Vec::new();
    let mut i: usize = 0;
    while i < sources.len()
        invariant
            i <= sources@.len(),
            dbs@.len() == i,
            several == (sources@.len() > 1),
            forall|j: int| 0 <= j < i ==> row_of(sources@[j], several, #[trigger] dbs@[j]),
        decreases sources@.len() - i,
    {
        let collection = &sources[i].spec.collection;
        let source = if several {
            Some(
                SessionSource {
                    coll_dir: collection.coll_dir.clone(),
                    file_url_prefix: text::cat3("/collection/", collection.slug.as_str(), "/file"),
                },
            )
        } else {
            None
        };
        dbs.push(SessionDb { session_id: sources[i].session_id, source });
        i += 1;
    }
    let routes = if several {
        gathered.routes
    } else {
        CardTable::new()
    };
    let cards = server::truncated(gathered.cards, limit);
    let mutable = MutableState::new(SessionDbs::routed(dbs, routes), gathered.cache, cards);
    let controls = AnswerControls::from(defaults.answer_controls);
    DrillSession::new(directory, macros, session_started_at, controls, mutable)
}

/// Whatever order the gathered cards are put in and whatever part of them is
/// taken, the session knows how well each card is known.
pub proof fn law_new_sessions_know_their_cards(
    sources: Seq<LoadedSource>,
    s: SessionView,
)
    requires
        sources.len() <= usize::MAX,
        s.cache == gathered(sources, sources.len()).cache,
        s.reviews.len() == 0,
        forall|i: int|
            0 <= i < s.cards.len() ==> gathered(sources, sources.len()).cards.contains(
                #[trigger] s.cards[i],
            ),
    ensures
        post::queue_cached(s),
{
    law_each_card_has_one_home(sources, sources.len());
    let g = gathered(sources, sources.len());
    assert forall|i: int| 0 <= i < s.cards.len() implies s.cache.contains_key(
        (#[trigger] s.cards[i]).id(),
    ) by {
        assert(g.cards.contains(s.cards[i]));
        let k = choose|k: int| 0 <= k < g.cards.len() && g.cards[k] == s.cards[i];
        assert(g.routes.contains_key(g.cards[k].id()));
    }
}

/// How many of the first `n` cards of a source are due and wanted.
pub open spec fn due_in(source: LoadedSource, n: nat) -> nat
    decreases n,
{
    if n == 0 {
        0
    } else {
        let card = source.cards@[n - 1];
        due_in(source, (n - 1) as nat) + if wanted(text::views(source.spec.decks@), card)
            && source.due@.contains_key(card.id()) {
            1nat
        } else {
            0nat
        }
    }
}

/// How many cards of a custom deck are due over its first `n` collections.
pub open spec fn due_total(sources: Seq<LoadedSource>, n: nat) -> nat
    decreases n,
{
    if n == 0 {
        0
    } else {
        due_total(sources, (n - 1) as nat) + due_in(sources[n - 1], sources[n - 1].cards@.len())
    }
}

proof fn lemma_due_total_monotone(sources: Seq<LoadedSource>, n: nat, m: nat)
    requires
        n <= m,
    ensures
        due_total(sources, n) <= due_total(sources, m),
    decreases m,
{
    if n < m {
        lemma_due_total_monotone(sources, n, (m - 1) as nat);
    }
}

/// How many cards of a custom deck are due today.
pub fn due_card_count(sources: &Vec<LoadedSource>) -> (result: usize)
    requires
        due_total(sources@, sources@.len()) <= usize::MAX,
    ensures
        result == due_total(sources@, sources@.len()),
{
    let mut total: usize = 0;
    let mut i: usize = 0;
    while i < sources.len()
        invariant
            i <= sources@.len(),
            total == due_total(sources@, i as nat),
            due_total(sources@, sources@.len()) <= usize::MAX,
        decreases sources@.len() - i,
    {
        let source = &sources[i];
        let mut count: usize = 0;
        let mut j: usize = 0;
        while j < source.cards.len()
            invariant
                j <= source.cards@.len(),
                count == due_in(*source, j as nat),
                count <= j,
            decreases source.cards@.len() - j,
        {
            let card = &source.cards[j];
            let is_wanted = source.spec.decks.len() == 0 || text::lists(
                &source.spec.decks,
                card.deck_name(),
            );
            if is_wanted && source.due.contains(card.hash()) {
                count += 1;
            }
            j += 1;
        }
        proof {
            lemma_due_total_monotone(sources@, (i + 1) as nat, sources@.len());
        }
        total += count;
        i += 1;
    }
    total
}

/// How many of the first `n` cards of a source are wanted.
pub open spec fn wanted_in(source: LoadedSource, n: nat) -> nat
    decreases n,
{
    if n == 0 {
        0
    } else {
        let rest = wanted_in(source, (n - 1) as nat);
        if wanted(text::views(source.spec.decks@), source.cards@[n - 1]) {
            rest + 1
        } else {
            rest
        }
    }
}

/// How many cards a custom deck has in its first `n` collections.
pub open spec fn wanted_total(sources: Seq<LoadedSource>, n: nat) -> nat
    decreases n,
{
    if n == 0 {
        0
    } else {
        wanted_total(sources, (n - 1) as nat) + wanted_in(
            sources[n - 1],
            sources[n - 1].cards@.len(),
        )
    }
}

proof fn lemma_wanted_total_monotone(sources: Seq<LoadedSource>, n: nat, m: nat)
    requires
        n <= m,
    ensures
        wanted_total(sources, n) <= wanted_total(sources, m),
    decreases m,
{
    if n < m {
        lemma_wanted_total_monotone(sources, n, (m - 1) as nat);
    }
}

proof fn lemma_due_is_wanted(source: LoadedSource, n: nat)
    ensures
        due_in(source, n) <= wanted_in(source, n),
    decreases n,
{
    if n > 0 {
        lemma_due_is_wanted(source, (n - 1) as nat);
    }
}

proof fn lemma_due_total_is_wanted(sources: Seq<LoadedSource>, n: nat)
    ensures
        due_total(sources, n) <= wanted_total(sources, n),
    decreases n,
{
    if n > 0 {
        lemma_due_total_is_wanted(sources, (n - 1) as nat);
        lemma_due_is_wanted(sources[n - 1], sources[n - 1].cards@.len());
    }
}

/// How many cards of a custom deck are due today, and how many it has.
pub fn deck_card_counts(sources: &Vec<LoadedSource>) -> (result: (usize, usize))
    requires
        wanted_total(sources@, sources@.len()) <= usize::MAX,
    ensures
        result.0 == due_total(sources@, sources@.len()),
        result.1 == wanted_total(sources@, sources@.len()),
{
    let mut total: usize = 0;
    let mut i: usize = 0;
    while i < sources.len()
        invariant
            i <= sources@.len(),
            total == wanted_total(sources@, i as nat),
            wanted_total(sources@, sources@.len()) <= usize::MAX,
        decreases sources@.len() - i,
    {
        let source = &sources[i];
        let mut count: usize = 0;
        let mut j: usize = 0;
        while j < source.cards.len()
            invariant
                j <= source.cards@.len(),
                count == wanted_in(*source, j as nat),
                count <= j,
            decreases source.cards@.len() - j,
        {
            if source.spec.decks.len() == 0 || text::lists(
                &source.spec.decks,
                source.cards[j].deck_name(),
            ) {
                count += 1;
            }
            j += 1;
        }
        proof {
            lemma_wanted_total_monotone(sources@, (i + 1) as nat, sources@.len());
        }
        total += count;
        i += 1;
    }
    proof {
        lemma_due_total_is_wanted(sources@, sources@.len());
    }
    (due_card_count(sources), total)
}

/// What follows once the due cards of all sources are gathered.
pub enum SessionPlan {
    /// There is no source: nothing was opened, and nothing is started.
    Nothing,
    /// No card is due: nothing is started, and these session rows, one for each
    /// source, are closed, so that they are not taken for interrupted ones.
    Close(Vec<i64>),
    /// The session is started.
    Start,
}

/// Decides what follows once the due cards of all sources are gathered.
pub fn plan_session(sources: &Vec<LoadedSource>, gathered: &Gathered) -> (result: SessionPlan)
    ensures
        match result {
            SessionPlan::Nothing => sources@.len() == 0,
            SessionPlan::Close(ids) => {
                &&& sources@.len() > 0
                &&& gathered.cards@.len() == 0
                &&& ids@ == sources@.map_values(|s: LoadedSource| s.session_id)
            },
            SessionPlan::Start => sources@.len() > 0 && gathered.cards@.len() > 0,
        },
{
    if sources.len() == 0 {
        return SessionPlan::Nothing;
    }
    if gathered.cards.len() > 0 {
        return SessionPlan::Start;
    }
    let mut ids: Vec<i64> = Vec::new();
    let mut i: usize = 0;
    while i < sources.len()
        invariant
            i <= sources@.len(),
            ids@.len() == i,
            forall|k: int| 0 <= k < i ==> #[trigger] ids@[k] == sources@[k].session_id,
        decreases sources@.len() - i,
    {
        ids.push(sources[i].session_id);
        i += 1;
    }
    proof {
        assert(ids@ =~= sources@.map_values(|s: LoadedSource| s.session_id));
    }
    SessionPlan::Close(ids)
}

/// What the form that starts a drill sends.
pub struct StartDrillForm {
    pub decks: Vec<String>,
    /// How many cards to ask at most; all due cards where it is absent.
    pub limit: Option<usize>,
}

/// The decks that a form names, in order.
pub open spec fn form_decks(pairs: Seq<(Seq<char>, Seq<char>)>) -> Seq<Seq<char>>
    decreases pairs.len(),
{
    if pairs.len() == 0 {
        seq![]
    } else if pairs.last().0 == "decks"@ {
        form_decks(pairs.drop_last()).push(pairs.last().1)
    } else {
        form_decks(pairs.drop_last())
    }
}

/// The limit that a form sets: the last that is a positive number.
pub open spec fn form_limit(pairs: Seq<(Seq<char>, Seq<char>)>) -> Option<nat>
    decreases pairs.len(),
{
    if pairs.len() == 0 {
        None
    } else if pairs.last().0 == "limit"@ && text::number(pairs.last().1, usize::MAX as nat) is Some
        && text::number(pairs.last().1, usize::MAX as nat) != Some(0nat) {
        text::number(pairs.last().1, usize::MAX as nat)
    } else {
        form_limit(pairs.drop_last())
    }
}

impl StartDrillForm {
    /// Reads a form. A key may be repeated: every deck counts.
    pub fn from_pairs(pairs: &Vec<(String, String)>) -> (result: StartDrillForm)
        ensures
            text::views(result.decks@) == form_decks(flash::pair_views(pairs@)),
            match result.limit {
                Some(n) => form_limit(flash::pair_views(pairs@)) == Some(n as nat),
                None => form_limit(flash::pair_views(pairs@)) is None,
            },
    {
        let ghost views = flash::pair_views(pairs@);
        let mut decks: Vec<String> = Vec::new();
        let mut limit: Option<usize> = None;
        let mut i: usize = 0;
        proof {
            assert(views.take(0) =~= Seq::empty());
            assert(text::views(decks@) =~= Seq::<Seq<char>>::empty());
            reveal_strlit("decks");
            reveal_strlit("limit");
            assert("decks"@[0] == 'd' && "limit"@[0] == 'l');
        }
        while i < pairs.len()
            invariant
                i <= pairs@.len(),
                views == flash::pair_views(pairs@),
                "decks"@ != "limit"@,
                text::views(decks@) == form_decks(views.take(i as int)),
                match limit {
                    Some(n) => form_limit(views.take(i as int)) == Some(n as nat),
                    None => form_limit(views.take(i as int)) is None,
                },
            decreases pairs@.len() - i,
        {
            proof {
                assert(views.take(i + 1).drop_last() == views.take(i as int));
                assert(views.take(i + 1).last() == (pairs@[i as int].0@, pairs@[i as int].1@));
            }
            let key = pairs[i].0.as_str();
            if text::same(key, "decks") {
                let deck = pairs[i].1.clone();
                proof {
                    text::lemma_views_push(decks@, deck);
                }
                decks.push(deck);
            } else if text::same(key, "limit") {
                if let Some(n) = text::number_of(pairs[i].1.as_str()) {
                    if n > 0 {
                        limit = Some(n);
                    }
                }
            }
            i += 1;
        }
        proof {
            assert(views.take(i as int) == views);
        }
        StartDrillForm { decks, limit }
    }
}

/// What a request to start a drill comes to.
#[derive(Clone, Copy, Debug, PartialEq, Eq, Structural)]
pub enum StartDecision {
    /// A session runs under the slug: nothing is started, so that it is not
    /// lost.
    Resume,
    /// A new session is started, in place of a finished one if there is one.
    Start,
}

/// Decides on a request to start a drill. `running` says whether there is a
/// session under the slug, and whether it is unfinished.
pub fn decide_start(
    target: &Option<DrillTarget>,
    slug: &str,
    selected_decks: &Vec<String>,
    running: Option<bool>,
) -> (result: Fallible<StartDecision>)
    ensures
        match result {
            Ok(d) => {
                &&& *target is Some
                &&& (*target)->0 is Collection ==> selected_decks@.len() > 0
                &&& d == if running == Some(true) {
                    StartDecision::Resume
                } else {
                    StartDecision::Start
                }
            },
            Err(e) => {
                ||| *target is None && e@ == "Unknown collection: "@ + slug@
                ||| *target is Some && (*target)->0 is Collection && selected_decks@.len() == 0
                    && e@ == "Select at least one deck."@
            },
        },
{
    match target {
        None => {
            let message = text::cat2("Unknown collection: ", slug);
            return fail(message.as_str());
        },
        Some(DrillTarget::Collection(_)) => {
            if selected_decks.len() == 0 {
                return fail("Select at least one deck.");
            }
        },
        Some(DrillTarget::Deck(_)) => {},
    }
    match running {
        Some(true) => Ok(StartDecision::Resume),
        _ => Ok(StartDecision::Start),
    }
}

/// What is said of a custom deck that draws on nothing.
pub fn check_deck_sources(name: &str, specs: &Vec<SessionSourceSpec>) -> (result: Fallible<()>)
    ensures
        match result {
            Ok(_) => specs@.len() > 0,
            Err(e) => specs@.len() == 0 && e@ == "The deck '"@ + name@
                + "' has no members in collections you own. Edit it from the Decks page."@,
        },
{
    if specs.len() == 0 {
        let message = text::cat3(
            "The deck '",
            name,
            "' has no members in collections you own. Edit it from the Decks page.",
        );
        return fail(message.as_str());
    }
    Ok(())
}

/// What a request on a running session comes to.
pub enum PostDecision {
    /// The session is left: it is taken out of the list and closed.
    Leave,
    /// Go to this URL; nothing is done.
    Redirect(String),
    /// Carry the action out on the session, with the card that the form was
    /// made for and the review that it would take back, where it tells them.
    Handle { action: Action, card: Option<CardHash>, undo_review: Option<i64> },
}

/// Where the page of a collection is.
pub open spec fn collection_url(slug: Seq<char>) -> Seq<char> {
    "/collection/"@ + slug
}

/// Where the page of a collection is.
pub fn collection_url_of(slug: &str) -> (result: String)
    ensures
        result@ == collection_url(slug@),
{
    text::cat2("/collection/", slug)
}

/// What is decided on a request with a form. A grade that names a card by
/// something that is no hash is ignored.
pub open spec fn post_decision(
    known: bool,
    slug: Seq<char>,
    form: FormData,
    detached: Option<bool>,
) -> Result<PostView, Seq<char>> {
    if !known {
        Err("Unknown collection: "@ + slug)
    } else if form.card is Some && card_hash::hash_named(form.card->0@) is None {
        Ok(
            PostView::Redirect(
                flash::flash_url(
                    flash::FlashKind::Error,
                    "That grade carried an invalid card reference and was ignored."@,
                    collection_url(slug),
                ),
            ),
        )
    } else if form.action == Action::Home {
        Ok(PostView::Leave)
    } else {
        match detached {
            None => Ok(PostView::Redirect(collection_url(slug))),
            Some(true) => Ok(
                PostView::Redirect(
                    flash::flash_url(
                        flash::FlashKind::Error,
                        "The session has ended, so that action was ignored."@,
                        collection_url(slug),
                    ),
                ),
            ),
            Some(false) => Ok(
                PostView::Handle {
                    action: form.action,
                    card: match form.card {
                        Some(hex) => card_hash::hash_named(hex@),
                        None => None,
                    },
                    undo_review: form.undo_review,
                },
            ),
        }
    }
}

/// A decision as the rules see it.
pub enum PostView {
    Leave,
    Redirect(Seq<char>),
    Handle { action: Action, card: Option<CardHash>, undo_review: Option<i64> },
}

impl View for PostDecision {
    type V = PostView;

    open spec fn view(&self) -> PostView {
        match self {
            PostDecision::Leave => PostView::Leave,
            PostDecision::Redirect(url) => PostView::Redirect(url@),
            PostDecision::Handle { action, card, undo_review } => PostView::Handle {
                action: *action,
                card: *card,
                undo_review: *undo_review,
            },
        }
    }
}

/// Decides on a request with a form. `known` says whether the slug is one of
/// the user's, and `detached` whether there is a session under it, and whether
/// that has been taken out meanwhile.
pub fn decide_post(known: bool, slug: &str, form: &FormData, detached: Option<bool>) -> (result:
    Fallible<PostDecision>)
    ensures
        match result {
            Ok(d) => post_decision(known, slug@, *form, detached) == Ok::<PostView, Seq<char>>(d@),
            Err(e) => post_decision(known, slug@, *form, detached) == Err::<PostView, Seq<char>>(
                e@,
            ),
        },
{
    if !known {
        let message = text::cat2("Unknown collection: ", slug);
        return fail(message.as_str());
    }
    let url = collection_url_of(slug);
    let card = match &form.card {
        Some(hex) => match CardHash::from_hex(hex.as_str()) {
            Ok(hash) => Some(hash),
            Err(_) => {
                let flash = Flash::error(
                    "That grade carried an invalid card reference and was ignored.",
                );
                return Ok(PostDecision::Redirect(flash.redirect_url(url.as_str())));
            },
        },
        None => None,
    };
    if form.action == Action::Home {
        return Ok(PostDecision::Leave);
    }
    match detached {
        None => Ok(PostDecision::Redirect(url)),
        Some(true) => {
            let flash = Flash::error("The session has ended, so that action was ignored.");
            Ok(PostDecision::Redirect(flash.redirect_url(url.as_str())))
        },
        Some(false) => Ok(
            PostDecision::Handle { action: form.action, card, undo_review: form.undo_review },
        ),
    }
}

/// Whether the counts on the list of collections are out of date after an
/// action: leaving a session and finishing it change what is due.
pub fn refreshes_counts(result: ActionResult) -> (refresh: bool)
    ensures
        refresh == (result == ActionResult::SessionFinished || result == ActionResult::Home),
{
    result == ActionResult::SessionFinished || result == ActionResult::Home
}

/// No action reaches a session under a slug that is not the user's, or a
/// session that has been taken out of the list.
pub proof fn law_foreign_sessions_are_out_of_reach(
    known: bool,
    slug: Seq<char>,
    form: FormData,
    detached: Option<bool>,
)
    ensures
        post_decision(known, slug, form, detached) matches Ok(
            PostView::Handle { action, .. },
        ) ==> known && detached == Some(false) && action == form.action && action != Action::Home,
        !known ==> post_decision(known, slug, form, detached) is Err,
{
}

/// What a request for the page of a slug shows.
#[derive(Clone, Copy, Debug, PartialEq, Eq, Structural)]
pub enum GetDecision {
    /// There is nothing of the user's under the slug.
    NotFound,
    /// The session under the slug, at its end.
    Completed,
    /// The card that the session under the slug has come to.
    Card,
    /// The start page of a custom deck.
    DeckStart,
    /// The decks of a collection.
    Browse,
}

/// Decides what a request for the page of a slug shows. `session` says whether
/// there is a session under the slug, and if so whether it has been taken out
/// of the list meanwhile, and whether it is finished.
pub fn decide_get(target: &Option<DrillTarget>, session: Option<(bool, bool)>) -> (result:
    GetDecision)
    ensures
        match *target {
            None => result == GetDecision::NotFound,
            Some(t) => match session {
                Some((false, finished)) => result == if finished {
                    GetDecision::Completed
                } else {
                    GetDecision::Card
                },
                _ => result == match t {
                    DrillTarget::Deck(_) => GetDecision::DeckStart,
                    DrillTarget::Collection(_) => GetDecision::Browse,
                },
            },
        },
{
    match target {
        None => GetDecision::NotFound,
        Some(t) => match session {
            Some((false, true)) => GetDecision::Completed,
            Some((false, false)) => GetDecision::Card,
            _ => match t {
                DrillTarget::Deck(_) => GetDecision::DeckStart,
                DrillTarget::Collection(_) => GetDecision::Browse,
            },
        },
    }
}

/// The sessions that were closed in a collection when the server started, by
/// the first entry for its slug.
pub open spec fn closed_at_start(counts: Seq<(Seq<char>, usize)>, slug: Seq<char>) -> int
    decreases counts.len(),
{
    if counts.len() == 0 {
        0
    } else if counts[0].0 == slug {
        0
    } else {
        1 + closed_at_start(counts.skip(1), slug)
    }
}

/// Counts with the texts of their slugs.
pub open spec fn count_views(counts: Seq<(String, usize)>) -> Seq<(Seq<char>, usize)> {
    counts.map_values(|c: (String, usize)| (c.0@, c.1))
}

/// Takes the number of sessions that were closed in a collection when the
/// server started. It is reported once.
pub fn take_interrupted(counts: &mut Vec<(String, usize)>, slug: &str) -> (result: usize)
    ensures
        ({
            let all = count_views(old(counts)@);
            let i = closed_at_start(all, slug@);
            if i < all.len() {
                result == all[i].1 && final(counts)@ == old(counts)@.remove(i)
            } else {
                result == 0 && final(counts)@ == old(counts)@
            }
        }),
{
    let ghost all = count_views(counts@);
    let mut i: usize = 0;
    proof {
        assert(all.skip(0) == all);
    }
    while i < counts.len()
        invariant
            i <= counts@.len(),
            counts@ == old(counts)@,
            all == count_views(counts@),
            closed_at_start(all, slug@) == i + closed_at_start(all.skip(i as int), slug@),
        decreases counts@.len() - i,
    {
        proof {
            assert(all.skip(i as int)[0] == (counts@[i as int].0@, counts@[i as int].1));
            assert(all.skip(i as int).skip(1) == all.skip(i + 1));
        }
        if text::same(counts[i].0.as_str(), slug) {
            let taken = counts.remove(i);
            return taken.1;
        }
        i += 1;
    }
    0
}

/// Where the deck of a note can be edited: the note behind the first source
/// with the slug.
pub fn edit_link(sources: &Vec<HedgedocSource>, slug: &str) -> (result: Option<(String, String)>)
    ensures
        match result {
            Some((deck, url)) => exists|i: int|
                {
                    &&& 0 <= i < sources@.len()
                    &&& (#[trigger] sources@[i]).collection.slug@ == slug@
                    &&& deck == sources@[i].note.deck_name
                    &&& url == sources@[i].note.url
                    &&& forall|j: int|
                        0 <= j < i ==> (#[trigger] sources@[j]).collection.slug@ != slug@
                },
            None => forall|j: int|
                0 <= j < sources@.len() ==> (#[trigger] sources@[j]).collection.slug@ != slug@,
        },
{
    let mut i: usize = 0;
    while i < sources.len()
        invariant
            i <= sources@.len(),
            forall|j: int| 0 <= j < i ==> (#[trigger] sources@[j]).collection.slug@ != slug@,
        decreases sources@.len() - i,
    {
        if text::same(sources[i].collection.slug.as_str(), slug) {
            let found = (sources[i].note.deck_name.clone(), sources[i].note.url.clone());
            proof {
                assert(sources@[i as int].collection.slug@ == slug@);
            }
            return Some(found);
        }
        i += 1;
    }
    None
}

/// What is said after the repository was brought up to date. `outcome` is
/// `None` where there is no repository.
pub fn repository_flash(outcome: Option<Fallible<()>>) -> (result: Flash)
    ensures
        match outcome {
            None => result.kind is Error && result.message@
                == "Sync is not available: no git repository is configured."@,
            Some(Ok(_)) => result.kind is Success && result.message@ == "Sync complete."@,
            Some(Err(e)) => result.kind is Error && result.message@ == "Sync failed: error: "@ + e@,
        },
{
    match outcome {
        None => Flash::error("Sync is not available: no git repository is configured."),
        Some(Ok(_)) => Flash::success("Sync complete."),
        Some(Err(e)) => {
            let words = e.to_text();
            let message = text::cat2("Sync failed: ", words.as_str());
            proof {
                reveal_strlit("Sync failed: ");
                reveal_strlit("error: ");
                reveal_strlit("Sync failed: error: ");
                assert("Sync failed: "@ + "error: "@ =~= "Sync failed: error: "@);
                assert(message@ =~= "Sync failed: error: "@ + e@);
            }
            Flash::error(message.as_str())
        },
    }
}

/// A collection is found by its slug and its owner: the first one that is
/// configured, and a note only where none is.
pub proof fn law_configured_collections_go_before_notes(
    collections: Seq<ResolvedCollection>,
    sources: Seq<HedgedocSource>,
    slug: Seq<char>,
    owner: Option<Seq<char>>,
    k: int,
)
    requires
        0 <= k < collections.len(),
        collections[k].slug@ == slug,
        text::opt_text(collections[k].owner) == owner,
        forall|j: int|
            0 <= j < k ==> (#[trigger] collections[j]).slug@ != slug || text::opt_text(
                collections[j].owner,
            ) != owner,
    ensures
        collection_named(collections, sources, slug, owner) == Some(collections[k]),
{
    text::lemma_first_some_at(collections, if_named(slug, owner), k);
}

/// What a slug names is a collection where there is one, else the first deck with
/// it, else nothing; it is always the owner's.
pub proof fn law_a_slug_names_a_collection_or_a_deck(
    collections: Seq<ResolvedCollection>,
    sources: Seq<HedgedocSource>,
    custom: Seq<ResolvedCustomDeck>,
    slug: Seq<char>,
    owner: Option<Seq<char>>,
)
    ensures
        match target_named(collections, sources, custom, slug, owner) {
            TargetView::Collection(c) => c.slug@ == slug && text::opt_text(c.owner) == owner,
            TargetView::Deck(i) => {
                &&& collection_named(collections, sources, slug, owner) is None
                &&& 0 <= i < custom.len()
                &&& custom[i].slug@ == slug && text::opt_text(custom[i].owner) == owner
            },
            TargetView::Nothing => {
                &&& collection_named(collections, sources, slug, owner) is None
                &&& forall|i: int|
                    0 <= i < custom.len() ==> (#[trigger] custom[i]).slug@ != slug
                        || text::opt_text(custom[i].owner) != owner
            },
        },
        collection_named(collections, sources, slug, owner) matches Some(c) ==> target_named(
            collections,
            sources,
            custom,
            slug,
            owner,
        ) == TargetView::Collection(c),
{
    law_collections_are_scoped_to_their_owner(collections, sources, slug, owner);
    decks::law_the_first_matching_deck_is_found(custom, slug, owner);
}

/// Whether a deck of a collection is drawn on.
pub open spec fn draws_on(draws: Seq<SourceView>, slug: Seq<char>, deck: Seq<char>) -> bool {
    exists|i: int|
        0 <= i < draws.len() && (#[trigger] draws[i]).collection.slug@ == slug
            && draws[i].decks.contains(deck)
}

proof fn lemma_with_member(
    draws: Seq<SourceView>,
    collection: Option<ResolvedCollection>,
    deck: Seq<char>,
    slug: Seq<char>,
    other: Seq<char>,
)
    ensures
        draws_on(with_member(draws, collection, deck), slug, other) <==> draws_on(
            draws,
            slug,
            other,
        ) || (collection matches Some(c) && c.slug@ == slug && deck == other),
{
    if let Some(c) = collection {
        let after = with_member(draws, collection, deck);
        lemma_source_index(draws, c.slug@);
        let k = source_index(draws, c.slug@);
        if draws_on(draws, slug, other) {
            let i = choose|i: int|
                0 <= i < draws.len() && (#[trigger] draws[i]).collection.slug@ == slug
                    && draws[i].decks.contains(other);
            let m = choose|m: int| 0 <= m < draws[i].decks.len() && draws[i].decks[m] == other;
            assert(after[i].decks[m] == other);
            assert(after[i].collection.slug@ == slug);
        }
        if c.slug@ == slug && deck == other {
            if k < draws.len() {
                assert(after[k].decks[draws[k].decks.len() as int] == other);
            } else {
                assert(after[k].decks[0] == other);
            }
            assert(after[k].collection.slug@ == slug);
        }
        if draws_on(after, slug, other) && !(c.slug@ == slug && deck == other) {
            let i = choose|i: int|
                0 <= i < after.len() && (#[trigger] after[i]).collection.slug@ == slug
                    && after[i].decks.contains(other);
            let m = choose|m: int| 0 <= m < after[i].decks.len() && after[i].decks[m] == other;
            if k < draws.len() {
                assert(draws[i].collection.slug@ == slug);
                assert(m < draws[i].decks.len());
                assert(draws[i].decks[m] == other);
            } else {
                if i == draws.len() {
                    assert(after[i].decks[m] == deck);
                }
                assert(draws[i] == after[i]);
            }
        }
    }
}

/// A deck draws on each of its members whose collection is there, and on nothing
/// else.
pub proof fn law_decks_draw_on_their_members(
    collections: Seq<ResolvedCollection>,
    sources: Seq<HedgedocSource>,
    members: Seq<DeckMember>,
    owner: Option<Seq<char>>,
    slug: Seq<char>,
    deck: Seq<char>,
)
    ensures
        draws_on(deck_draws(collections, sources, members, owner), slug, deck) <==> exists|k: int|
            0 <= k < members.len() && (#[trigger] members[k]).collection_slug@ == slug
                && members[k].deck_name@ == deck && collection_named(
                collections,
                sources,
                slug,
                owner,
            ) is Some,
    decreases members.len(),
{
    if members.len() > 0 {
        let rest = members.drop_last();
        let m = members.last();
        law_decks_draw_on_their_members(collections, sources, rest, owner, slug, deck);
        let c = collection_named(collections, sources, m.collection_slug@, owner);
        law_collections_are_scoped_to_their_owner(
            collections,
            sources,
            m.collection_slug@,
            owner,
        );
        lemma_with_member(
            deck_draws(collections, sources, rest, owner),
            c,
            m.deck_name@,
            slug,
            deck,
        );
        let n = members.len() - 1;
        if exists|k: int|
            0 <= k < rest.len() && (#[trigger] rest[k]).collection_slug@ == slug
                && rest[k].deck_name@ == deck && collection_named(
                collections,
                sources,
                slug,
                owner,
            ) is Some {
            let k = choose|k: int|
                0 <= k < rest.len() && (#[trigger] rest[k]).collection_slug@ == slug
                    && rest[k].deck_name@ == deck;
            assert(members[k] == rest[k]);
        }
        assert(members[n] == m);
        if exists|k: int|
            0 <= k < members.len() && (#[trigger] members[k]).collection_slug@ == slug
                && members[k].deck_name@ == deck && collection_named(
                collections,
                sources,
                slug,
                owner,
            ) is Some {
            let k = choose|k: int|
                0 <= k < members.len() && (#[trigger] members[k]).collection_slug@ == slug
                    && members[k].deck_name@ == deck;
            if k < n {
                assert(rest[k] == members[k]);
            }
        }
    }
}

/// A card is wanted where no decks are chosen, or where its own is.
pub proof fn law_chosen_decks_are_wanted(decks: Seq<Seq<char>>, card: Card)
    ensures
        wanted(Seq::empty(), card),
        decks.len() > 0 ==> (wanted(decks, card) <==> exists|i: int|
            0 <= i < decks.len() && #[trigger] decks[i] == card.deck()),
{
}

/// Whether a card is wanted and due.
pub open spec fn is_asked(source: LoadedSource) -> spec_fn(Card) -> bool {
    |c: Card| wanted(text::views(source.spec.decks@), c) && source.due@.contains_key(c.id())
}

/// Whether a card is wanted.
pub open spec fn is_wanted(source: LoadedSource) -> spec_fn(Card) -> bool {
    |c: Card| wanted(text::views(source.spec.decks@), c)
}

/// What is counted of a source is how many of its cards are wanted, and how many
/// of those are due.
pub proof fn law_cards_are_counted_once(source: LoadedSource, n: nat)
    requires
        n <= source.cards@.len(),
    ensures
        due_in(source, n) == list::keep(source.cards@.take(n as int), is_asked(source)).len(),
        wanted_in(source, n) == list::keep(source.cards@.take(n as int), is_wanted(source)).len(),
    decreases n,
{
    if n > 0 {
        law_cards_are_counted_once(source, (n - 1) as nat);
        list::lemma_keep_step(source.cards@, is_asked(source), n - 1);
        list::lemma_keep_step(source.cards@, is_wanted(source), n - 1);
    } else {
        assert(list::keep(source.cards@.take(0), is_asked(source)).len() == 0);
        assert(list::keep(source.cards@.take(0), is_wanted(source)).len() == 0);
    }
}

/// Every source counts, and each on its own.
pub proof fn law_totals_add_up(sources: Seq<LoadedSource>, source: LoadedSource)
    ensures
        due_total(sources.push(source), sources.len() + 1) == due_total(sources, sources.len())
            + due_in(source, source.cards@.len()),
        wanted_total(sources.push(source), sources.len() + 1) == wanted_total(
            sources,
            sources.len(),
        ) + wanted_in(source, source.cards@.len()),
        due_total(Seq::empty(), 0) == 0,
        wanted_total(Seq::empty(), 0) == 0,
{
    lemma_totals_of_front(sources, source, sources.len());
}

proof fn lemma_totals_of_front(sources: Seq<LoadedSource>, source: LoadedSource, n: nat)
    requires
        n <= sources.len(),
    ensures
        due_total(sources.push(source), n) == due_total(sources, n),
        wanted_total(sources.push(source), n) == wanted_total(sources, n),
    decreases n,
{
    if n > 0 {
        lemma_totals_of_front(sources, source, (n - 1) as nat);
    }
}

proof fn lemma_offered_in_order(
    g: GatheredView,
    index: usize,
    source: LoadedSource,
    n: nat,
) -> (part: Seq<Card>)
    requires
        n <= source.cards@.len(),
    ensures
        list::is_part(part, source.cards@.take(n as int)),
        offered_all(g, index, source, n).cards == g.cards + part,
        forall|i: int|
            0 <= i < part.len() ==> wanted(
                text::views(source.spec.decks@),
                #[trigger] part[i],
            ) && source.due@.contains_key(part[i].id()),
    decreases n,
{
    if n == 0 {
        let none = Seq::<Card>::empty();
        assert(source.cards@.take(0) =~= none);
        list::lemma_part_whole(none);
        assert(g.cards + none =~= g.cards);
        none
    } else {
        let before = lemma_offered_in_order(g, index, source, (n - 1) as nat);
        let card = source.cards@[n - 1];
        let front = source.cards@.take(n - 1);
        assert(source.cards@.take(n as int) =~= front.push(card));
        list::lemma_part_step(before, front, card);
        let h = offered_all(g, index, source, (n - 1) as nat);
        if wanted(text::views(source.spec.decks@), card) && source.due@.contains_key(card.id())
            && !h.routes.contains_key(card.id()) {
            let part = before.push(card);
            assert((g.cards + before).push(card) =~= g.cards + part);
            part
        } else {
            before
        }
    }
}

/// The cards of the sources follow each other in order, and in each source in its
/// own; only cards that are wanted and due are among them.
pub proof fn law_cards_are_gathered_in_order(sources: Seq<LoadedSource>, n: nat)
    requires
        n < sources.len() <= usize::MAX,
    ensures
        exists|part: Seq<Card>|
            {
                &&& #[trigger] list::is_part(part, sources[n as int].cards@)
                &&& gathered(sources, n + 1).cards == gathered(sources, n).cards + part
                &&& forall|i: int|
                    0 <= i < part.len() ==> wanted(
                        text::views(sources[n as int].spec.decks@),
                        #[trigger] part[i],
                    ) && sources[n as int].due@.contains_key(part[i].id())
            },
        gathered(sources, 0).cards.len() == 0,
{
    let source = sources[n as int];
    let part = lemma_offered_in_order(
        gathered(sources, n),
        n as usize,
        source,
        source.cards@.len(),
    );
    assert(source.cards@.take(source.cards@.len() as int) =~= source.cards@);
    assert(list::is_part(part, source.cards@));
}

/// Whether a field of a form chooses a deck.
pub open spec fn chooses_deck() -> spec_fn((Seq<char>, Seq<char>)) -> bool {
    |p: (Seq<char>, Seq<char>)| p.0 == "decks"@
}

/// The chosen decks are the values of the fields for them, in their order.
pub proof fn law_every_chosen_deck_counts(pairs: Seq<(Seq<char>, Seq<char>)>)
    ensures
        form_decks(pairs) == list::keep(pairs, chooses_deck()).map_values(
            |p: (Seq<char>, Seq<char>)| p.1,
        ),
    decreases pairs.len(),
{
    let f = |p: (Seq<char>, Seq<char>)| p.1;
    if pairs.len() > 0 {
        let rest = pairs.drop_last();
        law_every_chosen_deck_counts(rest);
        let kept = list::keep(rest, chooses_deck());
        assert(kept.push(pairs.last()).map_values(f) =~= kept.map_values(f).push(
            pairs.last().1,
        ));
    } else {
        assert(form_decks(pairs) =~= list::keep(pairs, chooses_deck()).map_values(f));
    }
}

/// The last limit that is a number counts; neither other fields nor a limit of
/// nothing change it.
pub proof fn law_the_last_limit_counts(
    pairs: Seq<(Seq<char>, Seq<char>)>,
    n: nat,
    key: Seq<char>,
    value: Seq<char>,
)
    requires
        n <= usize::MAX,
        key != "limit"@,
    ensures
        n > 0 ==> form_limit(pairs.push(("limit"@, text::decimal(n)))) == Some(n),
        n == 0 ==> form_limit(pairs.push(("limit"@, text::decimal(n)))) == form_limit(pairs),
        form_limit(pairs.push((key, value))) == form_limit(pairs),
        value.len() == 0 ==> form_limit(pairs.push(("limit"@, value))) == form_limit(pairs),
        form_limit(Seq::empty()) is None,
{
    text::law_numbers_are_read_as_written(n, usize::MAX as nat);
    assert(pairs.push(("limit"@, text::decimal(n))).drop_last() =~= pairs);
    assert(pairs.push((key, value)).drop_last() =~= pairs);
    assert(pairs.push(("limit"@, value)).drop_last() =~= pairs);
}

/// A form is handled with the card and the review that it names. One that names
/// no card that can be is not handled, nor is one for a session that is gone;
/// leaving needs no session.
pub proof fn law_forms_are_handled_as_sent(
    slug: Seq<char>,
    form: FormData,
    detached: Option<bool>,
)
    ensures
        ({
            let named = form.card matches Some(hex) ==> card_hash::hash_named(hex@) is Some;
            let d = post_decision(true, slug, form, detached);
            &&& d is Ok
            &&& !named ==> d->Ok_0 is Redirect
            &&& named && form.action == Action::Home ==> d->Ok_0 is Leave
            &&& d->Ok_0 is Leave ==> form.action == Action::Home
            &&& named && form.action != Action::Home && detached != Some(false) ==> d->Ok_0
                is Redirect
            &&& named && form.action != Action::Home && detached == Some(false) ==> {
                &&& d->Ok_0 matches PostView::Handle { action, card, undo_review }
                &&& action == form.action
                &&& undo_review == form.undo_review
                &&& form.card matches Some(hex) ==> card == card_hash::hash_named(hex@)
                &&& form.card is None ==> card is None
            }
            &&& named && form.action != Action::Home && detached is None ==> d->Ok_0
                == PostView::Redirect("/collection/"@ + slug)
        }),
{
}

/// The count of a collection is the first one that is told for it.
pub proof fn law_the_first_count_is_taken(counts: Seq<(Seq<char>, usize)>, slug: Seq<char>)
    ensures
        0 <= closed_at_start(counts, slug) <= counts.len(),
        closed_at_start(counts, slug) < counts.len() ==> counts[closed_at_start(
            counts,
            slug,
        )].0 == slug,
        forall|j: int| 0 <= j < closed_at_start(counts, slug) ==> (#[trigger] counts[j]).0 != slug,
    decreases counts.len(),
{
    if counts.len() > 0 && counts[0].0 != slug {
        let rest = counts.skip(1);
        law_the_first_count_is_taken(rest, slug);
        assert forall|j: int| 0 <= j < closed_at_start(counts, slug) implies (
        #[trigger] counts[j]).0 != slug by {
            if j > 0 {
                assert(rest[j - 1] == counts[j]);
            }
        }
    }
}

/// A session over several collections takes the files of each from its own
/// folder, and serves them below its own address.
pub proof fn law_files_come_from_their_own_collection(source: LoadedSource, row: SessionDb)
    ensures
        row_of(source, true, row) ==> row.source is Some && (row.source->0).coll_dir@
            == source.spec.collection.coll_dir@ && (row.source->0).file_url_prefix@
            == "/collection/"@ + source.spec.collection.slug@ + "/file"@,
        row_of(source, false, row) ==> row.source is None,
        row_of(source, true, row) || row_of(source, false, row) ==> row.session_id
            == source.session_id,
{
}

/// A copy of a deck says what the deck says.
pub proof fn law_copied_decks_are_the_same(a: ResolvedCustomDeck, b: ResolvedCustomDeck)
    requires
        same_deck(a, b),
    ensures
        a.name == b.name,
        a.slug == b.slug,
        a.owner == b.owner,
        a.members@ == b.members@,
{
}

} // verus!
