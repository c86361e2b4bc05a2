//! Decks that users put together from several collections.

use vstd::prelude::*;
use crate::error::{fail, Fallible};
use crate::flash;
use crate::serve::config;
use crate::serve::config::{slugify, CustomDeckEntry, DeckMember, ResolvedCollection};
use crate::serve::hedgedoc;
use crate::text;
use crate::types::card_hash;

verus! {

/// A custom deck that the server can drill.
pub struct ResolvedCustomDeck {
    pub name: String,
    pub slug: String,
    pub owner: Option<String>,
    pub members: Vec<DeckMember>,
}

impl Clone for DeckMember {
    fn clone(&self) -> (result: Self)
        ensures
            result == *self,
    {
        DeckMember {
            collection_slug: self.collection_slug.clone(),
            deck_name: self.deck_name.clone(),
        }
    }
}

/// The place of the first deck with this slug and owner; the number of decks
/// if there is none.
pub open spec fn deck_index(
    decks: Seq<ResolvedCustomDeck>,
    slug: Seq<char>,
    owner: Option<Seq<char>>,
) -> int
    decreases decks.len(),
{
    if decks.len() == 0 || (decks[0].slug@ == slug && text::opt_text(decks[0].owner) == owner) {
        0
    } else {
        1 + deck_index(decks.skip(1), slug, owner)
    }
}

/// The first deck with this slug that belongs to this owner. A deck of someone
/// else is treated as if it did not exist.
pub fn find_custom_deck<'a>(
    decks: &'a Vec<ResolvedCustomDeck>,
    slug: &str,
    owner: Option<&str>,
) -> (result: Option<&'a ResolvedCustomDeck>)
    ensures
        match result {
            Some(d) => {
                let i = deck_index(decks@, slug@, text::opt_str(owner));
                &&& 0 <= i < decks@.len()
                &&& *d == decks@[i]
                &&& d.slug@ == slug@
                &&& text::opt_text(d.owner) == text::opt_str(owner)
            },
            None => deck_index(decks@, slug@, text::opt_str(owner)) == decks@.len(),
        },
{
    let ghost o = text::opt_str(owner);
    let mut i: usize = 0;
    proof {
        assert(decks@.skip(0) == decks@);
    }
    while i < decks.len()
        invariant
            i <= decks@.len(),
            o == text::opt_str(owner),
            i + deck_index(decks@.skip(i as int), slug@, o) == deck_index(decks@, slug@, o),
        decreases decks@.len() - i,
    {
        proof {
            assert(decks@.skip(i as int).skip(1) == decks@.skip(i + 1));
        }
        if text::same(decks[i].slug.as_str(), slug) && text::same_opt(&decks[i].owner, owner) {
            return Some(&decks[i]);
        }
        i += 1;
    }
    None
}

/// The slug of a deck. It is made from the name and the owner, so that decks of
/// two users with one name do not share a slug.
pub open spec fn deck_slug(name: Seq<char>, owner: Option<Seq<char>>) -> Seq<char> {
    let stem = if config::slug(name).len() == 0 {
        "deck"@
    } else {
        config::slug(name)
    };
    "deck-"@ + stem + "-"@ + card_hash::short_digest(hedgedoc::keyed(name, owner))
}

/// A slug tells the digest that it ends in: decks whose keys have different
/// digests have different slugs.
pub proof fn law_deck_slugs_tell_digests(
    a: Seq<char>,
    a_owner: Option<Seq<char>>,
    b: Seq<char>,
    b_owner: Option<Seq<char>>,
)
    requires
        card_hash::short_digest(hedgedoc::keyed(a, a_owner)) != card_hash::short_digest(
            hedgedoc::keyed(b, b_owner),
        ),
    ensures
        deck_slug(a, a_owner) != deck_slug(b, b_owner),
{
    let x = card_hash::short_digest(hedgedoc::keyed(a, a_owner));
    let y = card_hash::short_digest(hedgedoc::keyed(b, b_owner));
    let s = deck_slug(a, a_owner);
    let t = deck_slug(b, b_owner);
    card_hash::lemma_short_digest(hedgedoc::keyed(a, a_owner));
    card_hash::lemma_short_digest(hedgedoc::keyed(b, b_owner));
    assert(s.skip(s.len() - 8) =~= x);
    assert(t.skip(t.len() - 8) =~= y);
}

/// The slug of a deck.
pub fn slug_for_deck(name: &str, owner: Option<&str>) -> (result: String)
    ensures
        result@ == deck_slug(name@, text::opt_str(owner)),
{
    let slug = slugify(name);
    let stem = if slug.as_str().is_empty() {
        "deck".to_owned()
    } else {
        slug
    };
    let key = match owner {
        Some(o) => text::cat3(o, "\n", name),
        None => name.to_owned(),
    };
    let digits = card_hash::short_digest_of(key.as_str());
    let mut result = text::cat3("deck-", stem.as_str(), "-");
    result.append(digits.as_str());
    result
}

/// The members that some texts name, in order. A text that names none is left
/// out.
pub open spec fn members_named(raws: Seq<Seq<char>>) -> Seq<(Seq<char>, Seq<char>)>
    decreases raws.len(),
{
    if raws.len() == 0 {
        seq![]
    } else {
        let rest = members_named(raws.drop_last());
        match config::member(raws.last()) {
            Some(m) => rest.push(m),
            None => rest,
        }
    }
}

/// Members as texts.
pub open spec fn member_views(members: Seq<DeckMember>) -> Seq<(Seq<char>, Seq<char>)> {
    members.map_values(|m: DeckMember| (m.collection_slug@, m.deck_name@))
}

/// Whether a deck is what an entry of the configuration comes to.
pub open spec fn resolves_to(entry: CustomDeckEntry, d: ResolvedCustomDeck) -> bool {
    &&& d.name@ == entry.name@
    &&& d.slug@ == deck_slug(entry.name@, text::opt_text(entry.owner))
    &&& text::opt_text(d.owner) == text::opt_text(entry.owner)
    &&& member_views(d.members@) == members_named(text::views(entry.members@))
}

fn members_of(raws: &Vec<String>) -> (result: Vec<DeckMember>)
    ensures
        member_views(result@) == members_named(text::views(raws@)),
{
    let ghost all = text::views(raws@);
    let mut members: Vec<DeckMember> = Vec::new();
    let mut i: usize = 0;
    proof {
        assert(member_views(members@) =~= members_named(all.take(0)));
    }
    while i < raws.len()
        invariant
            i <= raws@.len(),
            all == text::views(raws@),
            member_views(members@) == members_named(all.take(i as int)),
        decreases raws@.len() - i,
    {
        let ghost before = members@;
        proof {
            assert(all.take(i + 1).drop_last() == all.take(i as int));
            assert(all.take(i + 1).last() == raws@[i as int]@);
        }
        if let Some(m) = DeckMember::parse(raws[i].as_str()) {
            members.push(m);
            proof {
                assert(member_views(members@) =~= member_views(before).push(
                    (m.collection_slug@, m.deck_name@),
                ));
            }
        }
        i += 1;
    }
    proof {
        assert(all.take(i as int) == all);
    }
    members
}

/// The decks of a configuration, each under a slug of its own.
pub fn resolve_custom_decks(entries: &Vec<CustomDeckEntry>) -> (result: Vec<ResolvedCustomDeck>)
    ensures
        result@.len() == entries@.len(),
        forall|i: int|
            0 <= i < result@.len() ==> resolves_to(entries@[i], #[trigger] result@[i]),
{
    let mut decks: Vec<ResolvedCustomDeck> = Vec::new();
    let mut i: usize = 0;
    while i < entries.len()
        invariant
            i <= entries@.len(),
            decks@.len() == i,
            forall|k: int| 0 <= k < i ==> resolves_to(entries@[k], #[trigger] decks@[k]),
        decreases entries@.len() - i,
    {
        let entry = &entries[i];
        let slug = match &entry.owner {
            Some(o) => slug_for_deck(entry.name.as_str(), Some(o.as_str())),
            None => slug_for_deck(entry.name.as_str(), None),
        };
        decks.push(
            ResolvedCustomDeck {
                name: entry.name.clone(),
                slug,
                owner: entry.owner.clone(),
                members: members_of(&entry.members),
            },
        );
        i += 1;
    }
    decks
}

/// What to do about two decks, or a deck and a collection, with one slug.
pub const DECK_ADVICE: &'static str = "Rename one of them so their slugs differ.";

/// The collections and decks of a server, each with how it is called in a
/// message and with its slug.
pub open spec fn deck_labels(
    collections: Seq<ResolvedCollection>,
    decks: Seq<ResolvedCustomDeck>,
) -> Seq<(Seq<char>, Seq<char>)> {
    hedgedoc::labels_of(collections) + decks.map_values(
        |d: ResolvedCustomDeck| ("deck '"@ + d.name@ + "'"@, d.slug@),
    )
}

/// Refuses to start with a deck whose slug a collection or another deck has:
/// the session of the one would be shown for the other.
pub fn check_deck_slug_collisions(
    decks: &Vec<ResolvedCustomDeck>,
    collections: &[ResolvedCollection],
) -> (result: Fallible<()>)
    ensures
        ({
            let found = hedgedoc::startup_collision(
                deck_labels(collections@, decks@),
                collections@.len() as int,
                DECK_ADVICE@,
            );
            match result {
                Ok(_) => found is None,
                Err(e) => found == Some(e@),
            }
        }),
{
    let ghost pairs = deck_labels(collections@, decks@);
    let ghost n = collections@.len() as int;
    let mut seen = hedgedoc::collection_labels(collections);
    let mut k: usize = 0;
    proof {
        assert(flash::pair_views(seen@) =~= pairs.take(n));
    }
    while k < decks.len()
        invariant
            k <= decks@.len(),
            n == collections@.len(),
            pairs == deck_labels(collections@, decks@),
            flash::pair_views(seen@) == pairs.take(n + k),
        decreases decks@.len() - k,
    {
        let label = text::cat3("deck '", decks[k].name.as_str(), "'");
        let ghost before = seen@;
        seen.push((label, decks[k].slug.clone()));
        proof {
            assert(flash::pair_views(seen@) =~= flash::pair_views(before).push(pairs[n + k]));
            assert(pairs.take(n + k + 1) == pairs.take(n + k).push(pairs[n + k]));
        }
        k += 1;
    }
    proof {
        assert(pairs.take(n + k) == pairs);
        assert(seen@.len() == flash::pair_views(seen@).len());
    }
    match hedgedoc::collision_from(&seen, collections.len(), DECK_ADVICE) {
        Some(message) => fail(message.as_str()),
        None => Ok(()),
    }
}

/// A server that starts has no two decks with the same slug, and none that
/// shares its slug with a collection.
pub proof fn law_decks_have_their_own_slugs(
    collections: Seq<ResolvedCollection>,
    decks: Seq<ResolvedCustomDeck>,
)
    requires
        hedgedoc::startup_collision(
            deck_labels(collections, decks),
            collections.len() as int,
            DECK_ADVICE@,
        ) is None,
    ensures
        forall|i: int, j: int|
            0 <= i < j < decks.len() ==> (#[trigger] decks[i]).slug@ != (
            #[trigger] decks[j]).slug@,
        forall|i: int, j: int|
            0 <= i < collections.len() && 0 <= j < decks.len() ==> (
            #[trigger] collections[i]).slug@ != (#[trigger] decks[j]).slug@,
{
    let pairs = deck_labels(collections, decks);
    let n = collections.len() as int;
    hedgedoc::lemma_no_startup_collision(pairs, n, DECK_ADVICE@);
    assert forall|i: int, j: int| 0 <= i < j < decks.len() implies (#[trigger] decks[i]).slug@
        != (#[trigger] decks[j]).slug@ by {
        assert(pairs[n + i].1 != pairs[n + j].1);
    }
    assert forall|i: int, j: int|
        0 <= i < collections.len() && 0 <= j < decks.len() implies (
    #[trigger] collections[i]).slug@ != (#[trigger] decks[j]).slug@ by {
        assert(pairs[i].1 != pairs[n + j].1);
    }
}

/// The members of a deck are read as they are written, in their order, and what
/// is not one is passed over.
pub proof fn law_members_are_read_as_written(
    pairs: Seq<(Seq<char>, Seq<char>)>,
    raws: Seq<Seq<char>>,
    bad: Seq<char>,
)
    requires
        forall|i: int|
            0 <= i < pairs.len() ==> (#[trigger] pairs[i]).0.len() > 0 && pairs[i].1.len() > 0
                && !pairs[i].0.contains('/'),
        !bad.contains('/'),
    ensures
        members_named(
            pairs.map_values(|p: (Seq<char>, Seq<char>)| p.0 + "/"@ + p.1),
        ) == pairs,
        members_named(raws.push(bad)) == members_named(raws),
    decreases pairs.len(),
{
    let f = |p: (Seq<char>, Seq<char>)| p.0 + "/"@ + p.1;
    assert(raws.push(bad).drop_last() =~= raws);
    text::law_a_text_is_split_at_the_first_mark(bad, '/');
    if pairs.len() > 0 {
        let rest = pairs.drop_last();
        assert forall|i: int| 0 <= i < rest.len() implies (#[trigger] rest[i]).0.len() > 0
            && rest[i].1.len() > 0 && !rest[i].0.contains('/') by {
            assert(rest[i] == pairs[i]);
        }
        law_members_are_read_as_written(rest, raws, bad);
        assert(pairs.map_values(f).drop_last() =~= rest.map_values(f));
        let last = pairs[pairs.len() - 1];
        config::law_member_round_trip(last.0, last.1);
        assert(pairs.map_values(f).last() == last.0 + "/"@ + last.1);
        assert(rest.push(last) =~= pairs);
    } else {
        assert(members_named(pairs.map_values(f)) =~= pairs);
    }
}

/// A deck is found by its slug and its owner, and the first such deck is.
pub proof fn law_the_first_matching_deck_is_found(
    decks: Seq<ResolvedCustomDeck>,
    slug: Seq<char>,
    owner: Option<Seq<char>>,
)
    ensures
        0 <= deck_index(decks, slug, owner) <= decks.len(),
        deck_index(decks, slug, owner) < decks.len() ==> {
            let d = decks[deck_index(decks, slug, owner)];
            d.slug@ == slug && text::opt_text(d.owner) == owner
        },
        forall|i: int|
            0 <= i < deck_index(decks, slug, owner) ==> (#[trigger] decks[i]).slug@ != slug
                || text::opt_text(decks[i].owner) != owner,
    decreases decks.len(),
{
    if decks.len() > 0 && !(decks[0].slug@ == slug && text::opt_text(decks[0].owner) == owner) {
        let rest = decks.skip(1);
        law_the_first_matching_deck_is_found(rest, slug, owner);
        assert forall|i: int| 0 <= i < deck_index(decks, slug, owner) implies (
        #[trigger] decks[i]).slug@ != slug || text::opt_text(decks[i].owner) != owner by {
            if i > 0 {
                assert(rest[i - 1] == decks[i]);
            }
        }
    }
}

/// A configured deck keeps its name, its owner and its members.
pub proof fn law_configured_decks_keep_what_they_say(
    entry: CustomDeckEntry,
    d: ResolvedCustomDeck,
    i: int,
)
    requires
        resolves_to(entry, d),
        0 <= i < entry.members@.len(),
        config::member(entry.members@[i]@) is Some,
    ensures
        d.name@ == entry.name@,
        text::opt_text(d.owner) == text::opt_text(entry.owner),
        text::starts_with(d.slug@, "deck-"@),
        exists|k: int|
            0 <= k < d.members@.len() && (#[trigger] d.members@[k]).collection_slug@ + "/"@
                + d.members@[k].deck_name@ == entry.members@[i]@,
{
    let raws = text::views(entry.members@);
    let m = config::member(raws[i])->0;
    lemma_member_named(raws, i);
    let named = members_named(raws);
    let k = choose|k: int| 0 <= k < named.len() && named[k] == m;
    assert(member_views(d.members@)[k] == m);
    config::law_member_text_is_kept(raws[i]);
    assert(d.members@[k].collection_slug@ + "/"@ + d.members@[k].deck_name@
        == entry.members@[i]@);
    let tail = d.slug@.skip("deck-"@.len() as int);
    let stem = if config::slug(entry.name@).len() == 0 {
        "deck"@
    } else {
        config::slug(entry.name@)
    };
    let rest = stem + "-"@ + card_hash::short_digest(
        hedgedoc::keyed(entry.name@, text::opt_text(entry.owner)),
    );
    assert(d.slug@ =~= "deck-"@ + rest);
    text::law_beginnings_and_ends_are_found("deck-"@, rest, rest);
}

proof fn lemma_member_named(raws: Seq<Seq<char>>, i: int)
    requires
        0 <= i < raws.len(),
        config::member(raws[i]) is Some,
    ensures
        members_named(raws).contains(config::member(raws[i])->0),
    decreases raws.len(),
{
    let rest = raws.drop_last();
    let named = members_named(rest);
    let m = config::member(raws[i])->0;
    if i < rest.len() {
        lemma_member_named(rest, i);
        let k = choose|k: int| 0 <= k < named.len() && named[k] == m;
        assert(members_named(raws)[k] == m);
    } else {
        assert(members_named(raws)[named.len() as int] == m);
    }
}

} // verus!
