//! Which cards a session asks, and what the drill server hands out.

use vstd::prelude::*;
use crate::drill::render;
use crate::list;
use crate::path;
use crate::text;
use crate::types::card::Card;
use crate::types::card_hash::CardHash;

verus! {

/// Whether a hash is on a list.
pub fn listed(hashes: &Vec<CardHash>, hash: CardHash) -> (result: bool)
    ensures
        result == hashes@.contains(hash),
{
    let mut i: usize = 0;
    while i < hashes.len()
        invariant
            i <= hashes@.len(),
            forall|j: int| 0 <= j < i ==> hashes@[j] != hash,
        decreases hashes@.len() - i,
    {
        if hashes[i] == hash {
            return true;
        }
        i += 1;
    }
    false
}

/// The addresses of some cards.
pub open spec fn ids(cards: Seq<Card>) -> Seq<CardHash> {
    cards.map_values(|c: Card| c.id())
}

/// The cards that the database does not know yet, in order.
pub fn new_hashes(cards: &Vec<Card>, known: &Vec<CardHash>) -> (result: Vec<CardHash>)
    ensures
        result@ == list::keep(ids(cards@), |h: CardHash| !known@.contains(h)),
{
    let ghost all = ids(cards@);
    let ghost p = |h: CardHash| !known@.contains(h);
    let mut result: Vec<CardHash> = Vec::new();
    let mut i: usize = 0;
    while i < cards.len()
        invariant
            i <= cards@.len(),
            all == ids(cards@),
            p == (|h: CardHash| !known@.contains(h)),
            result@ == list::keep(all.take(i as int), p),
        decreases cards@.len() - i,
    {
        proof {
            list::lemma_keep_step(all, p, i as int);
        }
        let hash = cards[i].hash();
        if !listed(known, hash) {
            result.push(hash);
        }
        i += 1;
    }
    proof {
        assert(all.take(i as int) == all);
    }
    result
}

/// The cards that are due, in order.
pub fn due_cards(cards: &Vec<Card>, due: &Vec<CardHash>) -> (result: Vec<Card>)
    ensures
        result@ == list::keep(cards@, |c: Card| due@.contains(c.id())),
{
    let ghost p = |c: Card| due@.contains(c.id());
    let mut result: Vec<Card> = Vec::new();
    let mut i: usize = 0;
    while i < cards.len()
        invariant
            i <= cards@.len(),
            p == (|c: Card| due@.contains(c.id())),
            result@ == list::keep(cards@.take(i as int), p),
        decreases cards@.len() - i,
    {
        proof {
            list::lemma_keep_step(cards@, p, i as int);
        }
        if listed(due, cards[i].hash()) {
            result.push(cards[i].clone());
        }
        i += 1;
    }
    proof {
        assert(cards@.take(i as int) == cards@);
    }
    result
}

/// The cards of one deck, in order; all of them where no deck is asked for.
pub open spec fn of_deck(cards: Seq<Card>, deck: Option<Seq<char>>) -> Seq<Card> {
    match deck {
        Some(name) => list::keep(cards, |c: Card| c.deck() == name),
        None => cards,
    }
}

/// The first cards, at most as many as a limit allows.
pub open spec fn at_most(cards: Seq<Card>, limit: Option<usize>) -> Seq<Card> {
    match limit {
        Some(n) => if n < cards.len() {
            cards.take(n as int)
        } else {
            cards
        },
        None => cards,
    }
}

/// How many cards of a list are new.
pub open spec fn count_new(cards: Seq<Card>, fresh: Seq<CardHash>) -> nat {
    list::keep(cards, |c: Card| fresh.contains(c.id())).len()
}

/// The cards, with at most `limit` new ones: the first.
pub open spec fn limit_new(cards: Seq<Card>, fresh: Seq<CardHash>, limit: nat) -> Seq<Card>
    decreases cards.len(),
{
    if cards.len() == 0 {
        seq![]
    } else {
        let rest = limit_new(cards.drop_last(), fresh, limit);
        let card = cards.last();
        if fresh.contains(card.id()) && count_new(cards.drop_last(), fresh) >= limit {
            rest
        } else {
            rest.push(card)
        }
    }
}

/// What is left of the due cards: those of the deck asked for, at most as many
/// as allowed, and at most as many new ones as allowed.
pub open spec fn filtered(
    cards: Seq<Card>,
    fresh: Seq<CardHash>,
    card_limit: Option<usize>,
    new_card_limit: Option<usize>,
    deck: Option<Seq<char>>,
) -> Seq<Card> {
    let some = at_most(of_deck(cards, deck), card_limit);
    match new_card_limit {
        Some(n) => limit_new(some, fresh, n as nat),
        None => some,
    }
}

fn only_deck(cards: Vec<Card>, deck: &Option<String>) -> (result: Vec<Card>)
    ensures
        result@ == of_deck(cards@, text::opt_text(*deck)),
{
    match deck {
        None => cards,
        Some(name) => {
            let ghost p = |c: Card| c.deck() == name@;
            let mut result: Vec<Card> = Vec::new();
            let mut i: usize = 0;
            while i < cards.len()
                invariant
                    i <= cards@.len(),
                    p == (|c: Card| c.deck() == name@),
                    result@ == list::keep(cards@.take(i as int), p),
                decreases cards@.len() - i,
            {
                proof {
                    list::lemma_keep_step(cards@, p, i as int);
                }
                if text::same(cards[i].deck_name(), name.as_str()) {
                    result.push(cards[i].clone());
                }
                i += 1;
            }
            proof {
                assert(cards@.take(i as int) == cards@);
            }
            result
        },
    }
}

/// Cuts a list of cards down to a limit.
pub fn truncated(cards: Vec<Card>, limit: Option<usize>) -> (result: Vec<Card>)
    ensures
        result@ == at_most(cards@, limit),
        limit matches Some(n) ==> result@.len() == (if n <= cards@.len() {
            n as nat
        } else {
            cards@.len()
        }),
        limit is None ==> result@.len() == cards@.len(),
        forall|k: int| 0 <= k < result@.len() ==> #[trigger] result@[k] == cards@[k],
{
    let mut result = cards;
    if let Some(n) = limit {
        if n < result.len() {
            result.truncate(n);
        }
    }
    proof {
        assert(result@ =~= at_most(cards@, limit));
    }
    result
}

/// Narrows the due cards to what is asked for. `fresh` lists the cards that
/// have never been reviewed.
pub fn filter_deck(
    fresh: &Vec<CardHash>,
    deck: Vec<Card>,
    card_limit: Option<usize>,
    new_card_limit: Option<usize>,
    deck_filter: Option<String>,
) -> (result: Vec<Card>)
    ensures
        result@ == filtered(
            deck@,
            fresh@,
            card_limit,
            new_card_limit,
            text::opt_text(deck_filter),
        ),
{
    let some = truncated(only_deck(deck, &deck_filter), card_limit);
    match new_card_limit {
        None => some,
        Some(limit) => {
            let ghost p = |c: Card| fresh@.contains(c.id());
            let mut new_count: usize = 0;
            let mut result: Vec<Card> = Vec::new();
            let mut i: usize = 0;
            while i < some.len()
                invariant
                    i <= some@.len(),
                    p == (|c: Card| fresh@.contains(c.id())),
                    new_count <= limit,
                    new_count == limit ==> count_new(some@.take(i as int), fresh@) >= limit,
                    new_count < limit ==> count_new(some@.take(i as int), fresh@) == new_count,
                    result@ == limit_new(some@.take(i as int), fresh@, limit as nat),
                decreases some@.len() - i,
            {
                proof {
                    list::lemma_keep_step(some@, p, i as int);
                    assert(some@.take(i + 1).drop_last() == some@.take(i as int));
                }
                if listed(fresh, some[i].hash()) {
                    if new_count < limit {
                        result.push(some[i].clone());
                        new_count += 1;
                    }
                } else {
                    result.push(some[i].clone());
                }
                i += 1;
            }
            proof {
                assert(some@.take(i as int) == some@);
            }
            result
        },
    }
}

/// A limit on new cards is kept, and every card that is not new stays.
pub proof fn law_new_cards_are_limited(cards: Seq<Card>, fresh: Seq<CardHash>, limit: nat)
    ensures
        count_new(limit_new(cards, fresh, limit), fresh) <= limit,
        list::keep(limit_new(cards, fresh, limit), |c: Card| !fresh.contains(c.id()))
            == list::keep(cards, |c: Card| !fresh.contains(c.id())),
        limit_new(cards, fresh, limit).len() <= cards.len(),
{
    lemma_limit_new(cards, fresh, limit);
}

proof fn lemma_limit_new(cards: Seq<Card>, fresh: Seq<CardHash>, limit: nat)
    ensures
        count_new(limit_new(cards, fresh, limit), fresh) == if count_new(cards, fresh) < limit {
            count_new(cards, fresh)
        } else {
            limit
        },
        list::keep(limit_new(cards, fresh, limit), |c: Card| !fresh.contains(c.id()))
            == list::keep(cards, |c: Card| !fresh.contains(c.id())),
        limit_new(cards, fresh, limit).len() <= cards.len(),
    decreases cards.len(),
{
    if cards.len() > 0 {
        let rest = cards.drop_last();
        lemma_limit_new(rest, fresh, limit);
        let kept = limit_new(rest, fresh, limit);
        assert(kept.push(cards.last()).drop_last() == kept);
    }
}

/// The cards without those whose family an earlier card belongs to.
pub open spec fn buried(cards: Seq<Card>) -> Seq<Card>
    decreases cards.len(),
{
    if cards.len() == 0 {
        seq![]
    } else {
        let rest = cards.drop_last();
        let card = cards.last();
        if card.family() is Some && exists|j: int|
            0 <= j < rest.len() && (#[trigger] rest[j]).family() == card.family() {
            buried(rest)
        } else {
            buried(rest).push(card)
        }
    }
}

/// Keeps one card of each family, the first, and every card that has no
/// family.
pub fn bury_siblings(deck: Vec<Card>) -> (result: Vec<Card>)
    ensures
        result@ == buried(deck@),
{
    let mut seen: Vec<CardHash> = Vec::new();
    let mut result: Vec<Card> = Vec::new();
    let mut i: usize = 0;
    while i < deck.len()
        invariant
            i <= deck@.len(),
            result@ == buried(deck@.take(i as int)),
            forall|h: CardHash| #[trigger]
                seen@.contains(h) <==> exists|j: int|
                    0 <= j < i && (#[trigger] deck@[j]).family() == Some(h),
        decreases deck@.len() - i,
    {
        let ghost rest = deck@.take(i as int);
        proof {
            assert(deck@.take(i + 1).drop_last() == rest);
            assert(deck@.take(i + 1).last() == deck@[i as int]);
        }
        let ghost before = seen@;
        match deck[i].family_hash() {
            Some(family) => {
                if listed(&seen, family) {
                    proof {
                        let j = choose|j: int|
                            0 <= j < i && (#[trigger] deck@[j]).family() == Some(family);
                        assert(rest[j].family() == deck@[i as int].family());
                        assert forall|h: CardHash| #[trigger]
                            seen@.contains(h) <==> exists|j: int|
                                0 <= j < i + 1 && (#[trigger] deck@[j]).family() == Some(h) by {
                            if seen@.contains(h) {
                                let k = choose|k: int|
                                    0 <= k < i && (#[trigger] deck@[k]).family() == Some(h);
                                assert(deck@[k].family() == Some(h));
                            }
                        }
                    }
                } else {
                    proof {
                        assert forall|j: int| 0 <= j < rest.len() implies (
                        #[trigger] rest[j]).family() != Some(family) by {
                            assert(rest[j] == deck@[j]);
                        }
                    }
                    seen.push(family);
                    result.push(deck[i].clone());
                    proof {
                        assert forall|h: CardHash| #[trigger]
                            seen@.contains(h) <==> exists|j: int|
                                0 <= j < i + 1 && (#[trigger] deck@[j]).family() == Some(h) by {
                            if seen@.contains(h) {
                                if before.contains(h) {
                                    let k = choose|k: int|
                                        0 <= k < i && (#[trigger] deck@[k]).family() == Some(h);
                                    assert(deck@[k].family() == Some(h));
                                } else {
                                    let k = choose|k: int| 0 <= k < seen@.len() && seen@[k] == h;
                                    assert(k == before.len()) by {
                                        if k < before.len() {
                                            assert(before[k] == h);
                                        }
                                    }
                                    assert(deck@[i as int].family() == Some(h));
                                }
                            }
                            if exists|j: int|
                                0 <= j < i + 1 && (#[trigger] deck@[j]).family() == Some(h) {
                                let k = choose|k: int|
                                    0 <= k < i + 1 && (#[trigger] deck@[k]).family() == Some(h);
                                if k < i {
                                    assert(before.contains(h));
                                    let l = choose|l: int| 0 <= l < before.len() && before[l] == h;
                                    assert(seen@[l] == h);
                                } else {
                                    assert(seen@[before.len() as int] == h);
                                }
                            }
                        }
                    }
                }
            },
            None => {
                result.push(deck[i].clone());
                proof {
                    assert forall|h: CardHash| #[trigger]
                        seen@.contains(h) <==> exists|j: int|
                            0 <= j < i + 1 && (#[trigger] deck@[j]).family() == Some(h) by {
                        if seen@.contains(h) {
                            let k = choose|k: int|
                                0 <= k < i && (#[trigger] deck@[k]).family() == Some(h);
                            assert(deck@[k].family() == Some(h));
                        }
                    }
                }
            },
        }
        i += 1;
    }
    proof {
        assert(deck@.take(i as int) == deck@);
    }
    result
}

/// After siblings are buried no two cards share a family, every family still
/// has a card, and every card without a family is still there.
pub proof fn law_one_card_per_family(cards: Seq<Card>)
    ensures
        forall|i: int, j: int|
            0 <= i < j < buried(cards).len() && (#[trigger] buried(cards)[i]).family() is Some
                ==> buried(cards)[i].family() != (#[trigger] buried(cards)[j]).family(),
        forall|k: int|
            0 <= k < cards.len() ==> exists|i: int|
                0 <= i < buried(cards).len() && if (#[trigger] cards[k]).family() is Some {
                    (#[trigger] buried(cards)[i]).family() == cards[k].family()
                } else {
                    buried(cards)[i] == cards[k]
                },
        forall|i: int| 0 <= i < buried(cards).len() ==> cards.contains(#[trigger] buried(cards)[i]),
    decreases cards.len(),
{
    if cards.len() > 0 {
        let rest = cards.drop_last();
        let card = cards.last();
        law_one_card_per_family(rest);
        let b = buried(cards);
        let br = buried(rest);
        assert forall|i: int| 0 <= i < b.len() implies cards.contains(#[trigger] b[i]) by {
            if i < br.len() {
                assert(b[i] == br[i]);
                assert(rest.contains(br[i]));
                let j = choose|j: int| 0 <= j < rest.len() && rest[j] == br[i];
                assert(cards[j] == b[i]);
            } else {
                assert(cards[cards.len() - 1] == b[i]);
            }
        }
        assert forall|i: int, j: int|
            0 <= i < j < b.len() && (#[trigger] b[i]).family() is Some implies b[i].family() != (
        #[trigger] b[j]).family() by {
            assert(b[i] == br[i]);
            if j < br.len() {
                assert(b[j] == br[j]);
            } else {
                assert(rest.contains(br[i]));
                let k = choose|k: int| 0 <= k < rest.len() && rest[k] == br[i];
                assert(rest[k].family() == b[i].family());
            }
        }
        assert forall|k: int| 0 <= k < cards.len() implies exists|i: int|
            0 <= i < b.len() && if (#[trigger] cards[k]).family() is Some {
                (#[trigger] b[i]).family() == cards[k].family()
            } else {
                b[i] == cards[k]
            } by {
            if k < rest.len() {
                assert(rest[k] == cards[k]);
                let i = choose|i: int|
                    0 <= i < br.len() && if rest[k].family() is Some {
                        (#[trigger] br[i]).family() == rest[k].family()
                    } else {
                        br[i] == rest[k]
                    };
                assert(b[i] == br[i]);
            } else if b.len() > br.len() {
                assert(b[br.len() as int] == cards[k]);
            } else {
                let j = choose|j: int|
                    0 <= j < rest.len() && (#[trigger] rest[j]).family() == card.family();
                let i = choose|i: int|
                    0 <= i < br.len() && if rest[j].family() is Some {
                        (#[trigger] br[i]).family() == rest[j].family()
                    } else {
                        br[i] == rest[j]
                    };
                assert(b[i].family() == cards[k].family());
            }
        }
    }
}

/// Whether a card stays when siblings are buried: it has no family, or is the
/// first of it.
pub open spec fn leads(cards: Seq<Card>, k: int) -> bool {
    cards[k].family() is Some ==> forall|j: int|
        0 <= j < k ==> (#[trigger] cards[j]).family() != cards[k].family()
}

/// The places of the cards that stay, in order.
pub open spec fn leading(cards: Seq<Card>) -> Seq<int>
    decreases cards.len(),
{
    if cards.len() == 0 {
        seq![]
    } else if leads(cards, cards.len() - 1) {
        leading(cards.drop_last()).push(cards.len() - 1)
    } else {
        leading(cards.drop_last())
    }
}

/// When siblings are buried, the first card of each family stays, with every
/// card that has no family and no other one, and those that stay keep their
/// order.
pub proof fn law_the_first_of_a_family_stays(cards: Seq<Card>)
    ensures
        buried(cards) == leading(cards).map_values(|k: int| cards[k]),
        forall|i: int, j: int|
            0 <= i < j < leading(cards).len() ==> #[trigger] leading(cards)[i]
                < #[trigger] leading(cards)[j],
        forall|k: int| #[trigger]
            leading(cards).contains(k) <==> 0 <= k < cards.len() && leads(cards, k),
    decreases cards.len(),
{
    let places = leading(cards);
    if cards.len() > 0 {
        let rest = cards.drop_last();
        let n = cards.len() - 1;
        let before = leading(rest);
        law_the_first_of_a_family_stays(rest);
        assert forall|j: int| 0 <= j < before.len() implies 0 <= #[trigger] before[j] < n by {
            assert(before.contains(before[j]));
        }
        assert forall|k: int| 0 <= k < n implies leads(rest, k) == leads(cards, k) by {
            assert forall|j: int| 0 <= j < k implies rest[j] == #[trigger] cards[j] by {}
            if leads(rest, k) {
                assert forall|j: int| 0 <= j < k && cards[k].family() is Some implies (
                #[trigger] cards[j]).family() != cards[k].family() by {
                    assert(rest[j].family() != rest[k].family());
                }
            }
        }
        assert forall|k: int| #[trigger]
            places.contains(k) <==> 0 <= k < cards.len() && leads(cards, k) by {
            if places.contains(k) {
                let i = choose|i: int| 0 <= i < places.len() && places[i] == k;
                if i < before.len() {
                    assert(before[i] == k);
                    assert(before.contains(k));
                }
            }
            if 0 <= k < n && leads(cards, k) {
                assert(before.contains(k));
                let i = choose|i: int| 0 <= i < before.len() && before[i] == k;
                assert(places[i] == k);
            }
            if k == n && leads(cards, n) {
                assert(places[before.len() as int] == k);
            }
        }
        let shared = cards.last().family() is Some && exists|j: int|
            0 <= j < rest.len() && (#[trigger] rest[j]).family() == cards.last().family();
        assert(shared == !leads(cards, n)) by {
            if shared {
                let j = choose|j: int|
                    0 <= j < rest.len() && (#[trigger] rest[j]).family() == cards.last().family();
                assert(cards[j].family() == cards[n].family());
            }
            if !leads(cards, n) {
                let j = choose|j: int|
                    0 <= j < n && (#[trigger] cards[j]).family() == cards[n].family();
                assert(rest[j].family() == cards.last().family());
            }
        }
        assert(buried(cards) =~= places.map_values(|k: int| cards[k]));
    } else {
        assert(buried(cards) =~= places.map_values(|k: int| cards[k]));
    }
}

/// What is said of a session that was interrupted. Every grade is written when
/// it is given, so nothing is lost.
pub open spec fn interruption(count: nat) -> Seq<char> {
    "Session interrupted. "@ + text::decimal(count) + (if count == 1 {
        " review"@
    } else {
        " reviews"@
    }) + " saved."@
}

/// The last words of a session that was interrupted with `count` reviews
/// written. Its row is to be closed before.
pub fn finalize_interrupted_session(count: usize) -> (result: String)
    ensures
        result@ == interruption(count as nat),
{
    let number = text::decimal_of(count as u64);
    let noun = if count == 1 { " review" } else { " reviews" };
    let mut result = text::cat3("Session interrupted. ", number.as_str(), noun);
    result.append(" saved.");
    result
}

/// What is said of a card that occurs twice.
pub fn duplicate_warning(duplicate: &str) -> (result: String)
    ensures
        result@ == "Warning: "@ + duplicate@ + ". Drilling with one copy."@,
{
    text::cat3("Warning: ", duplicate, ". Drilling with one copy.")
}

/// The texts of the macros.
pub open spec fn macro_views(macros: Seq<(String, String)>) -> Seq<(Seq<char>, Seq<char>)> {
    macros.map_values(|m: (String, String)| (m.0@, m.1@))
}

/// The script line that defines a macro.
pub open spec fn macro_line(name: Seq<char>, definition: Seq<char>) -> Seq<char> {
    "MACROS['"@ + render::js_escaped(name) + "'] = '"@ + render::js_escaped(definition) + "';\n"@
}

/// The script that defines the macros.
pub open spec fn macro_script(macros: Seq<(Seq<char>, Seq<char>)>) -> Seq<char>
    decreases macros.len(),
{
    if macros.len() == 0 {
        "let MACROS = {};\n"@
    } else {
        macro_script(macros.drop_last()) + macro_line(macros.last().0, macros.last().1)
    }
}

/// The script that defines the macros.
pub fn render_macros_declaration(macros: &Vec<(String, String)>) -> (result: String)
    ensures
        result@ == macro_script(macro_views(macros@)),
{
    let ghost views = macro_views(macros@);
    let mut result = "let MACROS = {};\n".to_owned();
    let mut i: usize = 0;
    proof {
        assert(views.take(0) =~= Seq::empty());
    }
    while i < macros.len()
        invariant
            i <= macros@.len(),
            views == macro_views(macros@),
            result@ == macro_script(views.take(i as int)),
        decreases macros@.len() - i,
    {
        proof {
            assert(views.take(i + 1).drop_last() == views.take(i as int));
            assert(views.take(i + 1).last() == (macros@[i as int].0@, macros@[i as int].1@));
        }
        let name = render::escape_js_string_literal(macros[i].0.as_str());
        let definition = render::escape_js_string_literal(macros[i].1.as_str());
        let line = text::cat5(
            "MACROS['",
            name.as_str(),
            "'] = '",
            definition.as_str(),
            "';\n",
        );
        result.append(line.as_str());
        i += 1;
    }
    proof {
        assert(views.take(i as int) == views);
    }
    result
}

/// The media type for a file extension in lowercase.
pub open spec fn media_type(extension: Seq<char>) -> Seq<char> {
    if extension == "png"@ {
        "image/png"@
    } else if extension == "jpg"@ || extension == "jpeg"@ {
        "image/jpeg"@
    } else if extension == "gif"@ {
        "image/gif"@
    } else if extension == "svg"@ {
        "image/svg+xml"@
    } else if extension == "mp3"@ {
        "audio/mpeg"@
    } else if extension == "wav"@ {
        "audio/wav"@
    } else if extension == "ogg"@ {
        "audio/ogg"@
    } else if extension == "mp4"@ {
        "video/mp4"@
    } else if extension == "webm"@ {
        "video/webm"@
    } else {
        "application/octet-stream"@
    }
}

/// The media type that a file is served with, by its name.
pub fn content_type(file_path: &str) -> (result: &'static str)
    ensures
        result@ == media_type(
            match path::extension(file_path@) {
                Some(e) => text::lowercase(e),
                None => Seq::<char>::empty(),
            },
        ),
{
    let extension = match path::extension_of(file_path) {
        Some(e) => e.as_str().to_lowercase(),
        None => String::new(),
    };
    let e = extension.as_str();
    if text::same(e, "png") {
        "image/png"
    } else if text::same(e, "jpg") || text::same(e, "jpeg") {
        "image/jpeg"
    } else if text::same(e, "gif") {
        "image/gif"
    } else if text::same(e, "svg") {
        "image/svg+xml"
    } else if text::same(e, "mp3") {
        "audio/mpeg"
    } else if text::same(e, "wav") {
        "audio/wav"
    } else if text::same(e, "ogg") {
        "audio/ogg"
    } else if text::same(e, "mp4") {
        "video/mp4"
    } else if text::same(e, "webm") {
        "video/webm"
    } else {
        "application/octet-stream"
    }
}

/// A limit is used up and kept: a session over cards with a limit has as many
/// cards as the limit allows, or all if there are fewer, and they are the first,
/// in order.
pub proof fn law_a_limit_takes_the_first_cards(cards: Seq<Card>, limit: usize)
    ensures
        at_most(cards, Some(limit)).len() == if limit <= cards.len() {
            limit as nat
        } else {
            cards.len()
        },
        forall|k: int|
            0 <= k < limit && k < cards.len() ==> #[trigger] at_most(cards, Some(limit))[k]
                == cards[k],
        at_most(cards, None) == cards,
{
}

/// A deck that is asked for gives its cards, all of them and no others, in
/// order; where none is asked for, every card stays.
pub proof fn law_a_deck_gives_its_cards(cards: Seq<Card>, deck: Seq<char>)
    ensures
        list::is_part(of_deck(cards, Some(deck)), cards),
        forall|i: int|
            0 <= i < of_deck(cards, Some(deck)).len() ==> (#[trigger] of_deck(
                cards,
                Some(deck),
            )[i]).deck() == deck,
        forall|i: int|
            0 <= i < cards.len() && (#[trigger] cards[i]).deck() == deck ==> of_deck(
                cards,
                Some(deck),
            ).contains(cards[i]),
        of_deck(cards, None) == cards,
{
    list::law_keeping_keeps_order(cards, |c: Card| c.deck() == deck);
}

/// Of the new cards the first are taken, as many as the limit allows; every card
/// that is not new stays, and all keep their order.
pub proof fn law_the_first_new_cards_are_taken(cards: Seq<Card>, fresh: Seq<CardHash>, limit: nat)
    ensures
        ({
            let is_new = |c: Card| fresh.contains(c.id());
            let news = list::keep(cards, is_new);
            list::keep(limit_new(cards, fresh, limit), is_new) == news.take(
                if limit < news.len() {
                    limit as int
                } else {
                    news.len() as int
                },
            )
        }),
        list::keep(limit_new(cards, fresh, limit), |c: Card| !fresh.contains(c.id()))
            == list::keep(cards, |c: Card| !fresh.contains(c.id())),
        list::is_part(limit_new(cards, fresh, limit), cards),
    decreases cards.len(),
{
    law_new_cards_are_limited(cards, fresh, limit);
    let is_new = |c: Card| fresh.contains(c.id());
    let news = list::keep(cards, is_new);
    let all = limit_new(cards, fresh, limit);
    if cards.len() > 0 {
        let rest = cards.drop_last();
        let before = limit_new(rest, fresh, limit);
        law_the_first_new_cards_are_taken(rest, fresh, limit);
        list::lemma_part_step(before, rest, cards.last());
        assert(rest.push(cards.last()) =~= cards);
        let earlier = list::keep(rest, is_new);
        assert(count_new(rest, fresh) == earlier.len());
        if all != before {
            assert(all.drop_last() =~= before);
        }
        assert(list::keep(all, is_new) =~= news.take(
            if limit < news.len() {
                limit as int
            } else {
                news.len() as int
            },
        ));
    } else {
        list::lemma_part_whole(cards);
        assert(all =~= cards);
        assert(list::keep(all, is_new) =~= news.take(0));
    }
}

/// What a drill asks is a part of the due cards, in their order, of the deck
/// that was asked for, no more than the limit, and with no more new cards than
/// the limit for them. Without limits nothing of the deck is left out.
pub proof fn law_drills_ask_what_was_asked_for(
    cards: Seq<Card>,
    fresh: Seq<CardHash>,
    card_limit: Option<usize>,
    new_card_limit: Option<usize>,
    deck: Option<Seq<char>>,
)
    ensures
        ({
            let f = filtered(cards, fresh, card_limit, new_card_limit, deck);
            let of_that_deck = |c: Card| deck matches Some(name) ==> c.deck() == name;
            &&& list::is_part(f, cards)
            &&& forall|i: int| 0 <= i < f.len() ==> of_that_deck(#[trigger] f[i])
            &&& card_limit matches Some(n) ==> f.len() <= n
            &&& new_card_limit matches Some(n) ==> list::keep(
                f,
                |c: Card| fresh.contains(c.id()),
            ).len() <= n
            &&& new_card_limit is None && card_limit is None ==> f == list::keep(
                cards,
                of_that_deck,
            )
            &&& new_card_limit is None ==> (card_limit matches Some(n) ==> f.len() == if n
                <= list::keep(cards, of_that_deck).len() {
                n as nat
            } else {
                list::keep(cards, of_that_deck).len()
            })
        }),
{
    let f = filtered(cards, fresh, card_limit, new_card_limit, deck);
    let of_that_deck = |c: Card| deck matches Some(name) ==> c.deck() == name;
    let own = of_deck(cards, deck);
    let some = at_most(own, card_limit);
    list::law_keeping_keeps_order(cards, of_that_deck);
    match deck {
        Some(name) => {
            law_a_deck_gives_its_cards(cards, name);
            assert(of_that_deck =~= |c: Card| c.deck() == name);
        },
        None => {
            list::lemma_keep_everything(cards, of_that_deck);
            list::lemma_part_whole(cards);
        },
    }
    assert(own == list::keep(cards, of_that_deck));
    assert(some == own.take(some.len() as int));
    list::lemma_part_front(own, some.len() as int);
    list::lemma_part_of_part(some, own, cards);
    match new_card_limit {
        Some(n) => {
            law_the_first_new_cards_are_taken(some, fresh, n as nat);
            law_new_cards_are_limited(some, fresh, n as nat);
            list::lemma_part_of_part(f, some, cards);
            list::lemma_part_of_part(f, some, own);
        },
        None => {},
    }
    assert forall|i: int| 0 <= i < f.len() implies of_that_deck(#[trigger] f[i]) by {
        list::lemma_part_member(f, own, i);
        let j = choose|j: int| 0 <= j < own.len() && own[j] == f[i];
        assert(of_that_deck(own[j]));
    }
}

/// The cards of a session are a part of those it was made from: burying changes
/// no order.
pub proof fn law_burying_keeps_order(cards: Seq<Card>)
    ensures
        list::is_part(buried(cards), cards),
    decreases cards.len(),
{
    if cards.len() > 0 {
        law_burying_keeps_order(cards.drop_last());
        list::lemma_part_step(buried(cards.drop_last()), cards.drop_last(), cards.last());
        assert(cards.drop_last().push(cards.last()) =~= cards);
    } else {
        list::lemma_part_whole(cards);
        assert(buried(cards) =~= cards);
    }
}

/// The line for a macro defines it: its first literal is the name, its second
/// one the definition.
pub proof fn law_macro_lines_define_macros(name: Seq<char>, definition: Seq<char>)
    ensures
        exists|n: Seq<char>, d: Seq<char>|
            {
                &&& #[trigger] render::js_value(n) == Some(name)
                &&& #[trigger] render::js_value(d) == Some(definition)
                &&& macro_line(name, definition) == "MACROS['"@ + n + "'] = '"@ + d + "';\n"@
            },
{
    render::law_literals_mean_their_text(name);
    render::law_literals_mean_their_text(definition);
    let n = render::js_escaped(name);
    let d = render::js_escaped(definition);
    assert(render::js_value(n) == Some(name) && render::js_value(d) == Some(definition));
}

/// The script for some macros holds a line for each of them, in order, behind
/// the empty table.
pub proof fn law_every_macro_has_its_line(
    macros: Seq<(Seq<char>, Seq<char>)>,
    more: Seq<(Seq<char>, Seq<char>)>,
)
    ensures
        macro_script(seq![]) == "let MACROS = {};\n"@,
        macro_script(macros + more) == macro_script(macros) + macro_script(more).skip(
            "let MACROS = {};\n"@.len() as int,
        ),
        more.len() == 1 ==> macro_script(more) == "let MACROS = {};\n"@ + macro_line(
            more[0].0,
            more[0].1,
        ),
    decreases more.len(),
{
    let head = "let MACROS = {};\n"@;
    if more.len() == 0 {
        assert(macros + more =~= macros);
        assert(macro_script(more).skip(head.len() as int) =~= Seq::<char>::empty());
        assert(macro_script(macros) + Seq::<char>::empty() =~= macro_script(macros));
    } else {
        let rest = more.drop_last();
        law_every_macro_has_its_line(macros, rest);
        lemma_macro_script_head(rest);
        assert((macros + more).drop_last() =~= macros + rest);
        let line = macro_line(more.last().0, more.last().1);
        assert((macro_script(rest) + line).skip(head.len() as int) =~= macro_script(rest).skip(
            head.len() as int,
        ) + line);
        assert(macro_script(macros + more) =~= macro_script(macros) + macro_script(more).skip(
            head.len() as int,
        ));
        if more.len() == 1 {
            assert(rest =~= seq![]);
        }
    }
}

proof fn lemma_macro_script_head(macros: Seq<(Seq<char>, Seq<char>)>)
    ensures
        macro_script(macros).len() >= "let MACROS = {};\n"@.len(),
    decreases macros.len(),
{
    if macros.len() > 0 {
        lemma_macro_script_head(macros.drop_last());
    }
}

/// A file is served as what its extension says: pictures as pictures, sounds as
/// sounds, films as films, and what is not known as bytes.
pub proof fn law_media_types_go_by_extension(extension: Seq<char>)
    ensures
        ({
            let t = media_type(extension);
            let picture = extension == "png"@ || extension == "jpg"@ || extension == "jpeg"@
                || extension == "gif"@ || extension == "svg"@;
            let sound = extension == "mp3"@ || extension == "wav"@ || extension == "ogg"@;
            let film = extension == "mp4"@ || extension == "webm"@;
            &&& picture <==> text::starts_with(t, "image/"@)
            &&& sound <==> text::starts_with(t, "audio/"@)
            &&& film <==> text::starts_with(t, "video/"@)
            &&& !picture && !sound && !film <==> t == "application/octet-stream"@
            &&& extension == "png"@ || extension == "gif"@ ==> t == "image/"@ + extension
            &&& extension == "wav"@ || extension == "ogg"@ ==> t == "audio/"@ + extension
            &&& film ==> t == "video/"@ + extension
        }),
{
    reveal_strlit("png");
    reveal_strlit("jpg");
    reveal_strlit("jpeg");
    reveal_strlit("gif");
    reveal_strlit("svg");
    reveal_strlit("mp3");
    reveal_strlit("wav");
    reveal_strlit("ogg");
    reveal_strlit("mp4");
    reveal_strlit("webm");
    reveal_strlit("image/");
    reveal_strlit("audio/");
    reveal_strlit("video/");
    reveal_strlit("image/png");
    reveal_strlit("image/jpeg");
    reveal_strlit("image/gif");
    reveal_strlit("image/svg+xml");
    reveal_strlit("audio/mpeg");
    reveal_strlit("audio/wav");
    reveal_strlit("audio/ogg");
    reveal_strlit("video/mp4");
    reveal_strlit("video/webm");
    reveal_strlit("application/octet-stream");
    assert("png"@[0] == 'p' && "jpg"@[0] == 'j' && "jpeg"@[0] == 'j' && "gif"@[0] == 'g'
        && "svg"@[0] == 's' && "mp3"@[0] == 'm' && "wav"@[0] == 'w' && "ogg"@[0] == 'o'
        && "mp4"@[0] == 'm' && "webm"@[0] == 'w');
    assert("mp3"@[2] == '3' && "mp4"@[2] == '4' && "wav"@[1] == 'a' && "webm"@[1] == 'e');
    let t = media_type(extension);
    if t.len() >= 6 {
        let front = t.subrange(0, 6);
        assert(front[0] == t[0] && front[1] == t[1] && front[2] == t[2] && front[3] == t[3]
            && front[4] == t[4] && front[5] == t[5]);
        if t[0] == 'i' {
            assert(front =~= "image/"@);
        } else if t[0] == 'a' && t[1] == 'u' {
            assert(front =~= "audio/"@);
        } else if t[0] == 'v' {
            assert(front =~= "video/"@);
        }
    }
    if extension == "png"@ || extension == "gif"@ {
        assert(t =~= "image/"@ + extension);
    }
    if extension == "wav"@ || extension == "ogg"@ {
        assert(t =~= "audio/"@ + extension);
    }
    if extension == "mp4"@ || extension == "webm"@ {
        assert(t =~= "video/"@ + extension);
    }
}

/// An interrupted session is told with how many reviews were saved, one review as
/// one.
pub proof fn law_interruptions_are_told_with_their_reviews(count: nat)
    ensures
        interruption(count) == "Session interrupted. "@ + text::decimal(count) + " reviews saved."@
            || count == 1,
        interruption(1) == "Session interrupted. 1 review saved."@,
{
    reveal_strlit("Session interrupted. ");
    reveal_strlit(" reviews");
    reveal_strlit(" review");
    reveal_strlit(" saved.");
    reveal_strlit(" reviews saved.");
    reveal_strlit("Session interrupted. 1 review saved.");
    assert(text::decimal(1) =~= seq!['1']);
    assert(" reviews"@ + " saved."@ =~= " reviews saved."@);
    assert("Session interrupted. "@ + text::decimal(count) + " reviews"@ + " saved."@
        =~= "Session interrupted. "@ + text::decimal(count) + " reviews saved."@);
    assert("Session interrupted. "@ + text::decimal(1) + " review"@ + " saved."@
        =~= "Session interrupted. 1 review saved."@);
}

} // verus!
