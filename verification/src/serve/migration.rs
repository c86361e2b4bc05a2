//! Carrying review history over an edit that changes the hashes of cards.

use vstd::prelude::*;
use crate::drill::server;
use crate::list;
use crate::text;
use crate::types::card::{Card, CardContent};
use crate::types::card_hash::CardHash;

verus! {

/// What an edit does to the hashes of the cards in its block.
pub struct MigrationPlan {
    /// Pairs of an old and a new hash that without doubt are the same card.
    pub renames: Vec<(CardHash, CardHash)>,
    /// New hashes without such a partner, which start afresh.
    pub fresh: Vec<CardHash>,
    /// How many of the fresh ones may have lost their history.
    pub skipped: usize,
}

/// What a card is recognised by after an edit: the deleted text of a cloze
/// card, where its bounds lie between characters; nothing for a basic card.
pub open spec fn key_of(content: CardContent) -> Option<Seq<char>> {
    match content {
        CardContent::Basic { .. } => None,
        CardContent::Cloze { text, start, end } => match (
            text::char_at_byte(text@, start as nat),
            text::char_at_byte(text@, end as nat + 1),
        ) {
            (Some(i), Some(j)) => if i <= j {
                Some(text@.subrange(i as int, j as int))
            } else {
                None
            },
            _ => None,
        },
    }
}

/// Whether the bounds of a deletion are numbers that can be counted on from.
pub open spec fn bounded(card: Card) -> bool {
    card.asks() matches CardContent::Cloze { end, .. } ==> end < usize::MAX
}

/// What a card is recognised by after an edit.
pub fn migration_key(card: &Card) -> (result: Option<String>)
    requires
        bounded(*card),
    ensures
        text::opt_text(result) == key_of(card.asks()),
{
    match card.content() {
        CardContent::Basic { .. } => None,
        CardContent::Cloze { text, start, end } => {
            let v = text::chars_of(text.as_str());
            match (text::char_at_byte_of(&v, *start), text::char_at_byte_of(&v, *end + 1)) {
                (Some(i), Some(j)) => if i <= j {
                    Some(text::string_of(&v, i, j))
                } else {
                    None
                },
                _ => None,
            }
        },
    }
}

/// The cards whose hash is not among the others.
pub open spec fn changed(cards: Seq<Card>, others: Seq<CardHash>) -> Seq<Card> {
    list::keep(cards, |c: Card| !others.contains(c.id()))
}

/// What each card is recognised by, with its hash.
pub open spec fn entries(cards: Seq<Card>) -> Seq<(Option<Seq<char>>, CardHash)> {
    cards.map_values(|c: Card| (key_of(c.asks()), c.id()))
}

/// The hashes under a key, in order.
pub open spec fn under(es: Seq<(Option<Seq<char>>, CardHash)>, key: Option<Seq<char>>) -> Seq<
    CardHash,
>
    decreases es.len(),
{
    if es.len() == 0 {
        seq![]
    } else if es.last().0 == key {
        under(es.drop_last(), key).push(es.last().1)
    } else {
        under(es.drop_last(), key)
    }
}

/// The order of the keys: no key first, and then by the characters.
pub open spec fn key_before(a: Option<Seq<char>>, b: Option<Seq<char>>) -> bool {
    match (a, b) {
        (None, Some(_)) => true,
        (Some(x), Some(y)) => text::precedes(x, y),
        _ => false,
    }
}

/// How many keys at the start of a list come before a key.
pub open spec fn slot(keys: Seq<Option<Seq<char>>>, key: Option<Seq<char>>) -> int
    decreases keys.len(),
{
    if keys.len() == 0 || !key_before(keys[0], key) {
        0
    } else {
        1 + slot(keys.skip(1), key)
    }
}

/// A list of keys with one more, in its place, unless it is there.
pub open spec fn with_key(keys: Seq<Option<Seq<char>>>, key: Option<Seq<char>>) -> Seq<
    Option<Seq<char>>,
> {
    let i = slot(keys, key);
    if i < keys.len() && keys[i] == key {
        keys
    } else {
        keys.insert(i, key)
    }
}

/// The keys in use, each once and in order.
pub open spec fn keys(es: Seq<(Option<Seq<char>>, CardHash)>) -> Seq<Option<Seq<char>>>
    decreases es.len(),
{
    if es.len() == 0 {
        seq![]
    } else {
        with_key(keys(es.drop_last()), es.last().0)
    }
}

/// The pairs for the first `n` keys: a key that one old and one new card have
/// makes the two a pair.
pub open spec fn pairs(
    ks: Seq<Option<Seq<char>>>,
    old_es: Seq<(Option<Seq<char>>, CardHash)>,
    new_es: Seq<(Option<Seq<char>>, CardHash)>,
    n: nat,
) -> Seq<(CardHash, CardHash)>
    decreases n,
{
    if n == 0 {
        seq![]
    } else {
        let before = pairs(ks, old_es, new_es, (n - 1) as nat);
        let a = under(old_es, ks[n - 1]);
        let b = under(new_es, ks[n - 1]);
        if a.len() == 1 && b.len() == 1 {
            before.push((a[0], b[0]))
        } else {
            before
        }
    }
}

/// The new hashes under the first `n` keys that make no pair.
pub open spec fn unpaired(
    ks: Seq<Option<Seq<char>>>,
    old_es: Seq<(Option<Seq<char>>, CardHash)>,
    new_es: Seq<(Option<Seq<char>>, CardHash)>,
    n: nat,
) -> Seq<CardHash>
    decreases n,
{
    if n == 0 {
        seq![]
    } else {
        let before = unpaired(ks, old_es, new_es, (n - 1) as nat);
        let a = under(old_es, ks[n - 1]);
        let b = under(new_es, ks[n - 1]);
        if a.len() == 1 && b.len() == 1 {
            before
        } else {
            before + b
        }
    }
}

/// A plan as the rules see it.
pub struct PlanView {
    pub renames: Seq<(CardHash, CardHash)>,
    pub fresh: Seq<CardHash>,
    pub skipped: nat,
}

impl View for MigrationPlan {
    type V = PlanView;

    open spec fn view(&self) -> PlanView {
        PlanView { renames: self.renames@, fresh: self.fresh@, skipped: self.skipped as nat }
    }
}

/// The plan for a block whose cards were `old_cards` and now are `new_cards`.
/// Cards with the same hash on both sides are left alone; the others are
/// matched by their keys, not by their order. If an old card found no partner,
/// the fresh ones count as skipped.
pub open spec fn plan(old_cards: Seq<Card>, new_cards: Seq<Card>) -> PlanView {
    let old_es = entries(changed(old_cards, server::ids(new_cards)));
    let new_es = entries(changed(new_cards, server::ids(old_cards)));
    let ks = keys(new_es);
    let renames = pairs(ks, old_es, new_es, ks.len());
    let fresh = unpaired(ks, old_es, new_es, ks.len());
    PlanView {
        renames,
        fresh,
        skipped: if old_es.len() > renames.len() {
            fresh.len()
        } else {
            0
        },
    }
}

/// The keys and hashes of a list.
pub open spec fn entry_views(v: Seq<(Option<String>, CardHash)>) -> Seq<
    (Option<Seq<char>>, CardHash),
> {
    v.map_values(|e: (Option<String>, CardHash)| (text::opt_text(e.0), e.1))
}

/// The texts of some keys.
pub open spec fn key_views(v: Seq<Option<String>>) -> Seq<Option<Seq<char>>> {
    v.map_values(|k: Option<String>| text::opt_text(k))
}

fn hashes_of(cards: &Vec<Card>) -> (result: Vec<CardHash>)
    ensures
        result@ == server::ids(cards@),
{
    let mut result: Vec<CardHash> = Vec::new();
    let mut i: usize = 0;
    while i < cards.len()
        invariant
            i <= cards@.len(),
            result@ == server::ids(cards@).take(i as int),
        decreases cards@.len() - i,
    {
        result.push(cards[i].hash());
        i += 1;
        proof {
            assert(result@ =~= server::ids(cards@).take(i as int));
        }
    }
    proof {
        assert(server::ids(cards@).take(i as int) == server::ids(cards@));
    }
    result
}

fn changed_entries(cards: &Vec<Card>, others: &Vec<CardHash>) -> (result: Vec<
    (Option<String>, CardHash),
>)
    requires
        forall|i: int| 0 <= i < cards@.len() ==> bounded(#[trigger] cards@[i]),
    ensures
        entry_views(result@) == entries(changed(cards@, others@)),
{
    let ghost p = |c: Card| !others@.contains(c.id());
    let mut result: Vec<(Option<String>, CardHash)> = Vec::new();
    let mut i: usize = 0;
    proof {
        assert(entry_views(result@) =~= entries(list::keep(cards@.take(0), p)));
    }
    while i < cards.len()
        invariant
            i <= cards@.len(),
            p == (|c: Card| !others@.contains(c.id())),
            forall|i: int| 0 <= i < cards@.len() ==> bounded(#[trigger] cards@[i]),
            entry_views(result@) == entries(list::keep(cards@.take(i as int), p)),
        decreases cards@.len() - i,
    {
        let ghost kept = list::keep(cards@.take(i as int), p);
        let ghost before = result@;
        proof {
            list::lemma_keep_step(cards@, p, i as int);
        }
        if !server::listed(others, cards[i].hash()) {
            let key = migration_key(&cards[i]);
            result.push((key, cards[i].hash()));
            proof {
                assert(entry_views(result@) =~= entry_views(before).push(
                    (key_of(cards@[i as int].asks()), cards@[i as int].id()),
                ));
                assert(entries(kept.push(cards@[i as int])) =~= entries(kept).push(
                    (key_of(cards@[i as int].asks()), cards@[i as int].id()),
                ));
            }
        }
        i += 1;
    }
    proof {
        assert(cards@.take(i as int) == cards@);
    }
    result
}

fn same_key(a: &Option<String>, b: &Option<String>) -> (result: bool)
    ensures
        result == (text::opt_text(*a) == text::opt_text(*b)),
{
    match (a, b) {
        (Some(x), Some(y)) => text::same(x.as_str(), y.as_str()),
        (None, None) => true,
        _ => false,
    }
}

fn key_comes_before(a: &Option<String>, b: &Option<String>) -> (result: bool)
    ensures
        result == key_before(text::opt_text(*a), text::opt_text(*b)),
{
    match (a, b) {
        (None, Some(_)) => true,
        (Some(x), Some(y)) => text::comes_before(x.as_str(), y.as_str()),
        _ => false,
    }
}

fn hashes_under(es: &Vec<(Option<String>, CardHash)>, key: &Option<String>) -> (result: Vec<
    CardHash,
>)
    ensures
        result@ == under(entry_views(es@), text::opt_text(*key)),
{
    let ghost views = entry_views(es@);
    let mut result: Vec<CardHash> = Vec::new();
    let mut i: usize = 0;
    while i < es.len()
        invariant
            i <= es@.len(),
            views == entry_views(es@),
            result@ == under(views.take(i as int), text::opt_text(*key)),
        decreases es@.len() - i,
    {
        proof {
            assert(views.take(i + 1).drop_last() == views.take(i as int));
            assert(views.take(i + 1).last() == (text::opt_text(es@[i as int].0), es@[i as int].1));
        }
        if same_key(&es[i].0, key) {
            result.push(es[i].1);
        }
        i += 1;
    }
    proof {
        assert(views.take(i as int) == views);
    }
    result
}

fn copied_key(key: &Option<String>) -> (result: Option<String>)
    ensures
        text::opt_text(result) == text::opt_text(*key),
{
    match key {
        Some(s) => Some(s.clone()),
        None => None,
    }
}

fn keys_in(es: &Vec<(Option<String>, CardHash)>) -> (result: Vec<Option<String>>)
    ensures
        key_views(result@) == keys(entry_views(es@)),
{
    let ghost views = entry_views(es@);
    let mut result: Vec<Option<String>> = Vec::new();
    let mut i: usize = 0;
    proof {
        assert(key_views(result@) =~= keys(views.take(0)));
    }
    while i < es.len()
        invariant
            i <= es@.len(),
            views == entry_views(es@),
            key_views(result@) == keys(views.take(i as int)),
        decreases es@.len() - i,
    {
        let ghost ks = key_views(result@);
        let key = &es[i].0;
        let ghost k = text::opt_text(*key);
        proof {
            assert(views.take(i + 1).drop_last() == views.take(i as int));
            assert(views.take(i + 1).last() == (k, es@[i as int].1));
            assert(ks.skip(0) == ks);
        }
        let mut j: usize = 0;
        while j < result.len() && key_comes_before(&result[j], key)
            invariant
                j <= result@.len(),
                ks == key_views(result@),
                k == text::opt_text(*key),
                j + slot(ks.skip(j as int), k) == slot(ks, k),
            decreases result@.len() - j,
        {
            proof {
                assert(ks.skip(j as int).skip(1) == ks.skip(j + 1));
                assert(ks.skip(j as int)[0] == text::opt_text(result@[j as int]));
            }
            j += 1;
        }
        proof {
            if j < result@.len() {
                assert(ks.skip(j as int)[0] == text::opt_text(result@[j as int]));
            }
            assert(slot(ks, k) == j);
        }
        if j < result.len() && same_key(&result[j], key) {
            proof {
                assert(ks[j as int] == k);
            }
        } else {
            proof {
                if j < result@.len() {
                    assert(ks[j as int] == text::opt_text(result@[j as int]));
                }
            }
            let ghost before = result@;
            result.insert(j, copied_key(key));
            proof {
                assert(key_views(result@) =~= ks.insert(j as int, k));
            }
        }
        i += 1;
    }
    proof {
        assert(views.take(i as int) == views);
    }
    result
}

/// Matches the old cards of a block with its new ones by what they say.
pub fn plan_hash_migration(old_cards: &Vec<Card>, new_cards: &Vec<Card>) -> (result: MigrationPlan)
    requires
        forall|i: int| 0 <= i < old_cards@.len() ==> bounded(#[trigger] old_cards@[i]),
        forall|i: int| 0 <= i < new_cards@.len() ==> bounded(#[trigger] new_cards@[i]),
    ensures
        result@ == plan(old_cards@, new_cards@),
{
    let old_hashes = hashes_of(old_cards);
    let new_hashes = hashes_of(new_cards);
    let old_es = changed_entries(old_cards, &new_hashes);
    let new_es = changed_entries(new_cards, &old_hashes);
    let ks = keys_in(&new_es);
    let ghost a = entry_views(old_es@);
    let ghost b = entry_views(new_es@);
    let ghost kv = key_views(ks@);
    let mut renames: Vec<(CardHash, CardHash)> = Vec::new();
    let mut fresh: Vec<CardHash> = Vec::new();
    let mut i: usize = 0;
    while i < ks.len()
        invariant
            i <= ks@.len(),
            a == entry_views(old_es@),
            b == entry_views(new_es@),
            kv == key_views(ks@),
            renames@ == pairs(kv, a, b, i as nat),
            fresh@ == unpaired(kv, a, b, i as nat),
        decreases ks@.len() - i,
    {
        let mut olds = hashes_under(&old_es, &ks[i]);
        let mut news = hashes_under(&new_es, &ks[i]);
        proof {
            assert(kv[i as int] == text::opt_text(ks@[i as int]));
        }
        if olds.len() == 1 && news.len() == 1 {
            renames.push((olds[0], news[0]));
        } else {
            fresh.append(&mut news);
        }
        i += 1;
    }
    let skipped = if old_es.len() > renames.len() {
        fresh.len()
    } else {
        0
    };
    MigrationPlan { renames, fresh, skipped }
}

/// Whether keys are in order, each once.
pub open spec fn ordered(ks: Seq<Option<Seq<char>>>) -> bool {
    forall|i: int, j: int| 0 <= i < j < ks.len() ==> key_before(#[trigger] ks[i], #[trigger] ks[j])
}

proof fn lemma_key_order(
    a: Option<Seq<char>>,
    b: Option<Seq<char>>,
    c: Option<Seq<char>>,
)
    ensures
        key_before(a, b) && key_before(b, c) ==> key_before(a, c),
        key_before(a, b) || key_before(b, a) || a == b,
        !(key_before(a, b) && key_before(b, a)),
        !key_before(a, a),
{
    if let (Some(x), Some(y)) = (a, b) {
        text::lemma_precedes_total(x, y);
        if let Some(z) = c {
            if key_before(a, b) && key_before(b, c) {
                text::lemma_precedes_transitive(x, y, z);
            }
        }
    }
    if let Some(x) = a {
        text::lemma_precedes_total(x, x);
    }
}

proof fn lemma_slot(ks: Seq<Option<Seq<char>>>, key: Option<Seq<char>>)
    ensures
        0 <= slot(ks, key) <= ks.len(),
        forall|j: int| 0 <= j < slot(ks, key) ==> key_before(#[trigger] ks[j], key),
        slot(ks, key) < ks.len() ==> !key_before(ks[slot(ks, key)], key),
    decreases ks.len(),
{
    if ks.len() > 0 && key_before(ks[0], key) {
        lemma_slot(ks.skip(1), key);
        assert forall|j: int| 0 <= j < slot(ks, key) implies key_before(#[trigger] ks[j], key) by {
            if j > 0 {
                assert(ks[j] == ks.skip(1)[j - 1]);
            }
        }
    }
}

proof fn lemma_with_key(ks: Seq<Option<Seq<char>>>, key: Option<Seq<char>>)
    requires
        ordered(ks),
    ensures
        ordered(with_key(ks, key)),
        with_key(ks, key).contains(key),
        forall|k: Option<Seq<char>>| #[trigger]
            with_key(ks, key).contains(k) <==> ks.contains(k) || k == key,
{
    lemma_slot(ks, key);
    let i = slot(ks, key);
    let more = with_key(ks, key);
    if i < ks.len() && ks[i] == key {
        assert(ks.contains(key));
    } else {
        assert(more[i] == key);
        assert forall|a: int, b: int| 0 <= a < b < more.len() implies key_before(
            #[trigger] more[a],
            #[trigger] more[b],
        ) by {
            let x = if a < i {
                ks[a]
            } else if a == i {
                key
            } else {
                ks[a - 1]
            };
            let y = if b < i {
                ks[b]
            } else if b == i {
                key
            } else {
                ks[b - 1]
            };
            if a == i {
                lemma_key_order(ks[i], key, key);
                lemma_key_order(key, ks[i], ks[b - 1]);
            } else if a < i && b > i {
                assert(key_before(ks[a], ks[b - 1]));
            }
        }
        assert forall|k: Option<Seq<char>>| #[trigger]
            more.contains(k) <==> ks.contains(k) || k == key by {
            if more.contains(k) {
                let j = choose|j: int| 0 <= j < more.len() && more[j] == k;
                if j < i {
                    assert(ks[j] == k);
                } else if j > i {
                    assert(ks[j - 1] == k);
                }
            }
            if ks.contains(k) {
                let j = choose|j: int| 0 <= j < ks.len() && ks[j] == k;
                if j < i {
                    assert(more[j] == k);
                } else {
                    assert(more[j + 1] == k);
                }
            }
        }
    }
}

proof fn lemma_keys(es: Seq<(Option<Seq<char>>, CardHash)>)
    ensures
        ordered(keys(es)),
        forall|i: int| 0 <= i < es.len() ==> keys(es).contains((#[trigger] es[i]).0),
    decreases es.len(),
{
    if es.len() > 0 {
        lemma_keys(es.drop_last());
        lemma_with_key(keys(es.drop_last()), es.last().0);
        assert forall|i: int| 0 <= i < es.len() implies keys(es).contains((#[trigger] es[i]).0) by {
            if i < es.len() - 1 {
                assert(es.drop_last()[i] == es[i]);
            }
        }
    }
}

/// The hashes of some entries.
pub open spec fn hashes(es: Seq<(Option<Seq<char>>, CardHash)>) -> Seq<CardHash> {
    es.map_values(|e: (Option<Seq<char>>, CardHash)| e.1)
}

/// The hashes under the first `n` keys.
spec fn under_all(
    ks: Seq<Option<Seq<char>>>,
    es: Seq<(Option<Seq<char>>, CardHash)>,
    n: nat,
) -> Seq<CardHash>
    decreases n,
{
    if n == 0 {
        seq![]
    } else {
        under_all(ks, es, (n - 1) as nat) + under(es, ks[n - 1])
    }
}

proof fn lemma_under_all_push(
    ks: Seq<Option<Seq<char>>>,
    es: Seq<(Option<Seq<char>>, CardHash)>,
    n: nat,
)
    requires
        es.len() > 0,
        n <= ks.len(),
        ordered(ks),
    ensures
        under_all(ks, es, n).to_multiset() == {
            let before = under_all(ks, es.drop_last(), n).to_multiset();
            if ks.take(n as int).contains(es.last().0) {
                before.insert(es.last().1)
            } else {
                before
            }
        },
    decreases n,
{
    broadcast use vstd::seq_lib::group_to_multiset_ensures;

    let rest = es.drop_last();
    let k = es.last().0;
    if n > 0 {
        let m = (n - 1) as nat;
        lemma_under_all_push(ks, es, m);
        let key = ks[n - 1];
        vstd::seq_lib::lemma_multiset_commutative(under_all(ks, es, m), under(es, key));
        vstd::seq_lib::lemma_multiset_commutative(under_all(ks, rest, m), under(rest, key));
        if key == k {
            assert(ks.take(n as int)[n - 1] == k);
            if ks.take(m as int).contains(k) {
                let j = choose|j: int| 0 <= j < m && ks.take(m as int)[j] == k;
                assert(key_before(ks[j], ks[n - 1]));
                lemma_key_order(k, k, k);
            }
            assert(under(es, key).to_multiset() =~= under(rest, key).to_multiset().insert(
                es.last().1,
            ));
        } else {
            if ks.take(m as int).contains(k) {
                let j = choose|j: int| 0 <= j < m && ks.take(m as int)[j] == k;
                assert(ks.take(n as int)[j] == k);
            }
            if ks.take(n as int).contains(k) {
                let j = choose|j: int| 0 <= j < n && ks.take(n as int)[j] == k;
                assert(ks.take(m as int)[j] == k);
            }
        }
        assert(under_all(ks, es, n).to_multiset() =~= if ks.take(n as int).contains(k) {
            under_all(ks, rest, n).to_multiset().insert(es.last().1)
        } else {
            under_all(ks, rest, n).to_multiset()
        });
    } else {
        assert(!ks.take(0).contains(k));
    }
}

proof fn lemma_under_all_empty(
    ks: Seq<Option<Seq<char>>>,
    es: Seq<(Option<Seq<char>>, CardHash)>,
    n: nat,
)
    requires
        es.len() == 0,
    ensures
        under_all(ks, es, n) == Seq::<CardHash>::empty(),
    decreases n,
{
    if n > 0 {
        lemma_under_all_empty(ks, es, (n - 1) as nat);
    }
}

/// Keys find each hash at most once, and if they are all there exactly once.
proof fn lemma_under_all(ks: Seq<Option<Seq<char>>>, es: Seq<(Option<Seq<char>>, CardHash)>)
    requires
        ordered(ks),
    ensures
        under_all(ks, es, ks.len()).to_multiset().subset_of(hashes(es).to_multiset()),
        (forall|i: int| 0 <= i < es.len() ==> ks.contains((#[trigger] es[i]).0)) ==> under_all(
            ks,
            es,
            ks.len(),
        ).to_multiset() == hashes(es).to_multiset(),
    decreases es.len(),
{
    broadcast use vstd::seq_lib::group_to_multiset_ensures;

    if es.len() > 0 {
        let rest = es.drop_last();
        lemma_under_all(ks, rest);
        lemma_under_all_push(ks, es, ks.len());
        assert(ks.take(ks.len() as int) == ks);
        assert(hashes(es) =~= hashes(rest).push(es.last().1));
        if forall|i: int| 0 <= i < es.len() ==> ks.contains((#[trigger] es[i]).0) {
            assert forall|i: int| 0 <= i < rest.len() implies ks.contains(
                (#[trigger] rest[i]).0,
            ) by {
                assert(rest[i] == es[i]);
            }
            assert(ks.contains(es[es.len() - 1].0));
        }
    } else {
        lemma_under_all_empty(ks, es, ks.len());
        assert(hashes(es) =~= Seq::<CardHash>::empty());
    }
}

/// The old hashes of some pairs.
pub open spec fn sources(renames: Seq<(CardHash, CardHash)>) -> Seq<CardHash> {
    renames.map_values(|r: (CardHash, CardHash)| r.0)
}

/// The new hashes of some pairs.
pub open spec fn targets(renames: Seq<(CardHash, CardHash)>) -> Seq<CardHash> {
    renames.map_values(|r: (CardHash, CardHash)| r.1)
}

proof fn lemma_planned(
    ks: Seq<Option<Seq<char>>>,
    old_es: Seq<(Option<Seq<char>>, CardHash)>,
    new_es: Seq<(Option<Seq<char>>, CardHash)>,
    n: nat,
)
    ensures
        targets(pairs(ks, old_es, new_es, n)).to_multiset().add(
            unpaired(ks, old_es, new_es, n).to_multiset(),
        ) == under_all(ks, new_es, n).to_multiset(),
        sources(pairs(ks, old_es, new_es, n)).to_multiset().subset_of(
            under_all(ks, old_es, n).to_multiset(),
        ),
    decreases n,
{
    broadcast use vstd::seq_lib::group_to_multiset_ensures;

    let after = pairs(ks, old_es, new_es, n);
    if n > 0 {
        let m = (n - 1) as nat;
        lemma_planned(ks, old_es, new_es, m);
        let before = pairs(ks, old_es, new_es, m);
        let a = under(old_es, ks[n - 1]);
        let b = under(new_es, ks[n - 1]);
        vstd::seq_lib::lemma_multiset_commutative(under_all(ks, new_es, m), b);
        vstd::seq_lib::lemma_multiset_commutative(under_all(ks, old_es, m), a);
        if a.len() == 1 && b.len() == 1 {
            assert(targets(after) =~= targets(before).push(b[0]));
            assert(sources(after) =~= sources(before).push(a[0]));
            assert(a =~= Seq::<CardHash>::empty().push(a[0]));
            assert(b =~= Seq::<CardHash>::empty().push(b[0]));
        } else {
            vstd::seq_lib::lemma_multiset_commutative(unpaired(ks, old_es, new_es, m), b);
        }
        assert(targets(after).to_multiset().add(
            unpaired(ks, old_es, new_es, n).to_multiset(),
        ) =~= under_all(ks, new_es, n).to_multiset());
    } else {
        assert(targets(after) =~= Seq::<CardHash>::empty());
        assert(sources(after) =~= Seq::<CardHash>::empty());
        assert(targets(after).to_multiset().add(
            unpaired(ks, old_es, new_es, n).to_multiset(),
        ) =~= under_all(ks, new_es, n).to_multiset());
    }
}

proof fn lemma_distinct(part: Seq<CardHash>, all: Seq<CardHash>)
    requires
        part.to_multiset().subset_of(all.to_multiset()),
        all.no_duplicates(),
    ensures
        part.no_duplicates(),
{
    all.lemma_multiset_has_no_duplicates();
    assert forall|x: CardHash| part.to_multiset().contains(x) implies part.to_multiset().count(x)
        == 1 by {
        assert(part.to_multiset().count(x) <= all.to_multiset().count(x));
        assert(all.to_multiset().contains(x));
    }
    part.lemma_multiset_has_no_duplicates_conv();
}

/// Every new card whose hash has changed is planned for exactly once: the
/// targets of the renames and the fresh hashes together are the hashes of those
/// cards, each as often as it occurs there. No two of them are equal where no
/// two of the changed new cards are, and the renames begin at different old
/// hashes where no two of the changed old cards are equal.
pub proof fn law_every_changed_card_is_planned_for(old_cards: Seq<Card>, new_cards: Seq<Card>)
    ensures
        ({
            let p = plan(old_cards, new_cards);
            let olds = server::ids(changed(old_cards, server::ids(new_cards)));
            let news = server::ids(changed(new_cards, server::ids(old_cards)));
            let planned = targets(p.renames) + p.fresh;
            &&& planned.to_multiset() == news.to_multiset()
            &&& sources(p.renames).to_multiset().subset_of(olds.to_multiset())
            &&& news.no_duplicates() ==> planned.no_duplicates()
            &&& olds.no_duplicates() ==> sources(p.renames).no_duplicates()
        }),
{
    let p = plan(old_cards, new_cards);
    let olds = server::ids(changed(old_cards, server::ids(new_cards)));
    let news = server::ids(changed(new_cards, server::ids(old_cards)));
    let old_es = entries(changed(old_cards, server::ids(new_cards)));
    let new_es = entries(changed(new_cards, server::ids(old_cards)));
    let planned = targets(p.renames) + p.fresh;
    let ks = keys(new_es);
    assert(hashes(old_es) =~= olds);
    assert(hashes(new_es) =~= news);
    lemma_keys(new_es);
    lemma_under_all(ks, new_es);
    lemma_under_all(ks, old_es);
    lemma_planned(ks, old_es, new_es, ks.len());
    vstd::seq_lib::lemma_multiset_commutative(targets(p.renames), p.fresh);
    if news.no_duplicates() {
        lemma_distinct(planned, news);
    }
    if olds.no_duplicates() {
        lemma_distinct(sources(p.renames), olds);
    }
}

proof fn lemma_under_member(
    es: Seq<(Option<Seq<char>>, CardHash)>,
    key: Option<Seq<char>>,
    j: int,
)
    requires
        0 <= j < under(es, key).len(),
    ensures
        es.contains((key, under(es, key)[j])),
    decreases es.len(),
{
    let rest = es.drop_last();
    if es.last().0 == key && j == under(rest, key).len() {
        assert(es[es.len() - 1] == (key, under(es, key)[j]));
    } else {
        lemma_under_member(rest, key, j);
        let i = choose|i: int| 0 <= i < rest.len() && rest[i] == (key, under(rest, key)[j]);
        assert(es[i] == (key, under(es, key)[j]));
    }
}

proof fn lemma_pairs_members(
    ks: Seq<Option<Seq<char>>>,
    old_es: Seq<(Option<Seq<char>>, CardHash)>,
    new_es: Seq<(Option<Seq<char>>, CardHash)>,
    n: nat,
)
    ensures
        forall|i: int|
            0 <= i < pairs(ks, old_es, new_es, n).len() ==> exists|k: Option<Seq<char>>|
                old_es.contains((k, (#[trigger] pairs(ks, old_es, new_es, n)[i]).0))
                    && #[trigger] under(old_es, k).len() == 1 && new_es.contains(
                    (k, pairs(ks, old_es, new_es, n)[i].1),
                ) && under(new_es, k).len() == 1,
        forall|i: int|
            0 <= i < unpaired(ks, old_es, new_es, n).len() ==> exists|k: Option<Seq<char>>|
                new_es.contains((k, #[trigger] unpaired(ks, old_es, new_es, n)[i]))
                    && #[trigger] under(new_es, k).len() > 0,
    decreases n,
{
    if n > 0 {
        let m = (n - 1) as nat;
        lemma_pairs_members(ks, old_es, new_es, m);
        let before = pairs(ks, old_es, new_es, m);
        let after = pairs(ks, old_es, new_es, n);
        let key = ks[n - 1];
        let a = under(old_es, key);
        let b = under(new_es, key);
        assert forall|i: int| 0 <= i < after.len() implies exists|k: Option<Seq<char>>|
            old_es.contains((k, (#[trigger] after[i]).0)) && #[trigger] under(old_es, k).len() == 1
                && new_es.contains((k, after[i].1)) && under(new_es, k).len() == 1 by {
            if i < before.len() {
                assert(after[i] == before[i]);
            } else {
                lemma_under_member(old_es, key, 0);
                lemma_under_member(new_es, key, 0);
                assert(under(old_es, key).len() == 1);
            }
        }
        let rest = unpaired(ks, old_es, new_es, m);
        let all = unpaired(ks, old_es, new_es, n);
        assert forall|i: int| 0 <= i < all.len() implies exists|k: Option<Seq<char>>|
            new_es.contains((k, #[trigger] all[i])) && #[trigger] under(new_es, k).len() > 0 by {
            if i < rest.len() {
                assert(all[i] == rest[i]);
            } else {
                lemma_under_member(new_es, key, i - rest.len());
                assert(under(new_es, key).len() > 0);
            }
        }
    }
}

/// A pair is made of one old and one new card that changed and share their
/// key, which no other changed card of either side has; and what starts afresh
/// is a new card that changed. Cards that did not change are left alone.
pub proof fn law_pairs_are_unambiguous(old_cards: Seq<Card>, new_cards: Seq<Card>)
    ensures
        ({
            let p = plan(old_cards, new_cards);
            let old_es = entries(changed(old_cards, server::ids(new_cards)));
            let new_es = entries(changed(new_cards, server::ids(old_cards)));
            &&& forall|i: int|
                0 <= i < p.renames.len() ==> {
                    &&& server::ids(old_cards).contains((#[trigger] p.renames[i]).0)
                    &&& !server::ids(new_cards).contains(p.renames[i].0)
                    &&& server::ids(new_cards).contains(p.renames[i].1)
                    &&& !server::ids(old_cards).contains(p.renames[i].1)
                    &&& exists|k: Option<Seq<char>>|
                        old_es.contains((k, p.renames[i].0)) && #[trigger] under(old_es, k).len()
                            == 1 && new_es.contains((k, p.renames[i].1)) && under(new_es, k).len()
                            == 1
                }
            &&& forall|i: int|
                0 <= i < p.fresh.len() ==> server::ids(new_cards).contains(#[trigger] p.fresh[i])
                    && !server::ids(old_cards).contains(p.fresh[i])
        }),
{
    let p = plan(old_cards, new_cards);
    let old_ids = server::ids(old_cards);
    let new_ids = server::ids(new_cards);
    let old_es = entries(changed(old_cards, new_ids));
    let new_es = entries(changed(new_cards, old_ids));
    let ks = keys(new_es);
    lemma_pairs_members(ks, old_es, new_es, ks.len());
    assert forall|i: int| 0 <= i < p.renames.len() implies {
        &&& old_ids.contains((#[trigger] p.renames[i]).0)
        &&& !new_ids.contains(p.renames[i].0)
        &&& new_ids.contains(p.renames[i].1)
        &&& !old_ids.contains(p.renames[i].1)
    } by {
        let k = choose|k: Option<Seq<char>>|
            old_es.contains((k, p.renames[i].0)) && #[trigger] under(old_es, k).len() == 1
                && new_es.contains((k, p.renames[i].1)) && under(new_es, k).len() == 1;
        lemma_entry_changed(old_cards, new_ids, k, p.renames[i].0);
        lemma_entry_changed(new_cards, old_ids, k, p.renames[i].1);
    }
    assert forall|i: int| 0 <= i < p.fresh.len() implies new_ids.contains(#[trigger] p.fresh[i])
        && !old_ids.contains(p.fresh[i]) by {
        let k = choose|k: Option<Seq<char>>|
            new_es.contains((k, p.fresh[i])) && #[trigger] under(new_es, k).len() > 0;
        lemma_entry_changed(new_cards, old_ids, k, p.fresh[i]);
    }
}

proof fn lemma_under_key(es: Seq<(Option<Seq<char>>, CardHash)>, key: Option<Seq<char>>)
    requires
        under(es, key).len() > 0,
    ensures
        keys(es).contains(key),
{
    lemma_under_member(es, key, 0);
    lemma_keys(es);
    let i = choose|i: int| 0 <= i < es.len() && es[i] == (key, under(es, key)[0]);
    assert(keys(es).contains(es[i].0));
}

proof fn lemma_pair_made(
    ks: Seq<Option<Seq<char>>>,
    old_es: Seq<(Option<Seq<char>>, CardHash)>,
    new_es: Seq<(Option<Seq<char>>, CardHash)>,
    n: nat,
    k: int,
)
    requires
        0 <= k < n <= ks.len(),
        under(old_es, ks[k]).len() == 1,
        under(new_es, ks[k]).len() == 1,
    ensures
        pairs(ks, old_es, new_es, n).contains((under(old_es, ks[k])[0], under(new_es, ks[k])[0])),
    decreases n,
{
    let m = (n - 1) as nat;
    let pair = (under(old_es, ks[k])[0], under(new_es, ks[k])[0]);
    let before = pairs(ks, old_es, new_es, m);
    let after = pairs(ks, old_es, new_es, n);
    if k == m {
        assert(after[before.len() as int] == pair);
    } else {
        lemma_pair_made(ks, old_es, new_es, m, k);
        let i = choose|i: int| 0 <= i < before.len() && before[i] == pair;
        assert(after[i] == pair);
    }
}

/// Where one changed card of either side has a key, and no other has it, the
/// two are a pair: no history that can be told is lost.
pub proof fn law_unambiguous_cards_are_paired(
    old_cards: Seq<Card>,
    new_cards: Seq<Card>,
    key: Option<Seq<char>>,
)
    ensures
        ({
            let a = under(entries(changed(old_cards, server::ids(new_cards))), key);
            let b = under(entries(changed(new_cards, server::ids(old_cards))), key);
            a.len() == 1 && b.len() == 1 ==> plan(old_cards, new_cards).renames.contains(
                (a[0], b[0]),
            )
        }),
{
    let old_es = entries(changed(old_cards, server::ids(new_cards)));
    let new_es = entries(changed(new_cards, server::ids(old_cards)));
    if under(old_es, key).len() == 1 && under(new_es, key).len() == 1 {
        let ks = keys(new_es);
        lemma_under_key(new_es, key);
        let k = choose|k: int| 0 <= k < ks.len() && ks[k] == key;
        lemma_pair_made(ks, old_es, new_es, ks.len(), k);
    }
}

proof fn lemma_entry_changed(
    cards: Seq<Card>,
    others: Seq<CardHash>,
    key: Option<Seq<char>>,
    hash: CardHash,
)
    requires
        entries(changed(cards, others)).contains((key, hash)),
    ensures
        server::ids(cards).contains(hash),
        !others.contains(hash),
{
    let kept = changed(cards, others);
    let i = choose|i: int| 0 <= i < entries(kept).len() && entries(kept)[i] == (key, hash);
    let p = |c: Card| !others.contains(c.id());
    list::lemma_keep(cards, p);
    assert(kept.contains(kept[i]));
    let j = choose|j: int| 0 <= j < cards.len() && cards[j] == kept[i];
    assert(server::ids(cards)[j] == hash);
}

proof fn lemma_char_behind(a: Seq<char>, b: Seq<char>)
    ensures
        text::char_at_byte(a + b, text::byte_len(a)) == Some(a.len()),
    decreases a.len(),
{
    if a.len() == 0 {
        assert(a == Seq::<char>::empty());
    } else {
        text::lemma_byte_len_first(a);
        assert((a + b)[0] == a[0]);
        assert((a + b).skip(1) =~= a.skip(1) + b);
        lemma_char_behind(a.skip(1), b);
    }
}

/// The key of a cloze card is the whole text that it hides, from its first byte
/// to its last, and nothing of what stands around it; a basic card has none.
pub proof fn law_keys_are_the_hidden_texts(
    content: CardContent,
    before: Seq<char>,
    hidden: Seq<char>,
    behind: Seq<char>,
)
    requires
        content matches CardContent::Cloze { text, start, end } ==> {
            &&& text@ == before + hidden + behind
            &&& start == text::byte_len(before)
            &&& end + 1 == text::byte_len(before + hidden)
        },
    ensures
        content is Cloze ==> key_of(content) == Some(hidden),
        content is Basic ==> key_of(content) is None,
{
    if let CardContent::Cloze { text, start, end } = content {
        lemma_char_behind(before, hidden + behind);
        assert(before + (hidden + behind) =~= before + hidden + behind);
        lemma_char_behind(before + hidden, behind);
        assert(text@.subrange(before.len() as int, (before + hidden).len() as int) =~= hidden);
    }
}

/// Two cloze cards are recognised as the same if and only if they hide the same
/// text, whatever stands around it.
pub proof fn law_equal_keys_mean_equal_deletions(
    old: CardContent,
    old_parts: (Seq<char>, Seq<char>, Seq<char>),
    new: CardContent,
    new_parts: (Seq<char>, Seq<char>, Seq<char>),
)
    requires
        old matches CardContent::Cloze { text, start, end } && {
            &&& text@ == old_parts.0 + old_parts.1 + old_parts.2
            &&& start == text::byte_len(old_parts.0)
            &&& end + 1 == text::byte_len(old_parts.0 + old_parts.1)
        },
        new matches CardContent::Cloze { text, start, end } && {
            &&& text@ == new_parts.0 + new_parts.1 + new_parts.2
            &&& start == text::byte_len(new_parts.0)
            &&& end + 1 == text::byte_len(new_parts.0 + new_parts.1)
        },
    ensures
        key_of(old) == key_of(new) <==> old_parts.1 == new_parts.1,
{
    law_keys_are_the_hidden_texts(old, old_parts.0, old_parts.1, old_parts.2);
    law_keys_are_the_hidden_texts(new, new_parts.0, new_parts.1, new_parts.2);
}

/// Under a key stand the hashes of the entries that have it, in order.
pub proof fn law_hashes_stand_under_their_key(
    es: Seq<(Option<Seq<char>>, CardHash)>,
    key: Option<Seq<char>>,
)
    ensures
        under(es, key) == list::keep(
            es,
            |e: (Option<Seq<char>>, CardHash)| e.0 == key,
        ).map_values(|e: (Option<Seq<char>>, CardHash)| e.1),
    decreases es.len(),
{
    let p = |e: (Option<Seq<char>>, CardHash)| e.0 == key;
    let f = |e: (Option<Seq<char>>, CardHash)| e.1;
    if es.len() > 0 {
        law_hashes_stand_under_their_key(es.drop_last(), key);
    }
    assert(under(es, key) =~= list::keep(es, p).map_values(f));
}

/// A card counts as changed if and only if no card of the other side has its
/// hash, and the changed ones keep their order.
pub proof fn law_unchanged_cards_are_left_alone(cards: Seq<Card>, others: Seq<Card>)
    ensures
        ({
            let c = changed(cards, server::ids(others));
            &&& list::is_part(c, cards)
            &&& forall|i: int, j: int|
                0 <= i < c.len() && 0 <= j < others.len() ==> (#[trigger] c[i]).id() != (
                #[trigger] others[j]).id()
            &&& forall|i: int|
                0 <= i < cards.len() && !server::ids(others).contains((#[trigger] cards[i]).id())
                    ==> c.contains(cards[i])
            &&& entries(cards).len() == cards.len()
            &&& forall|i: int|
                0 <= i < cards.len() ==> (#[trigger] entries(cards)[i]).1 == cards[i].id()
                    && entries(cards)[i].0 == key_of(cards[i].asks())
        }),
{
    let p = |c: Card| !server::ids(others).contains(c.id());
    list::law_keeping_keeps_order(cards, p);
    let c = changed(cards, server::ids(others));
    assert forall|i: int, j: int| 0 <= i < c.len() && 0 <= j < others.len() implies (
    #[trigger] c[i]).id() != (#[trigger] others[j]).id() by {
        assert(p(c[i]));
        assert(server::ids(others)[j] == others[j].id());
    }
}

/// Fresh cards count as skipped if and only if an old card found no partner:
/// an addition alone loses no history.
pub proof fn law_lost_history_is_told(old_cards: Seq<Card>, new_cards: Seq<Card>)
    ensures
        ({
            let p = plan(old_cards, new_cards);
            let olds = changed(old_cards, server::ids(new_cards));
            let news = changed(new_cards, server::ids(old_cards));
            &&& p.skipped <= p.fresh.len()
            &&& p.renames.len() == olds.len() ==> p.skipped == 0
            &&& p.renames.len() < olds.len() ==> p.skipped == p.fresh.len()
            &&& p.renames.len() <= olds.len()
            &&& p.renames.len() + p.fresh.len() == news.len()
            &&& olds.len() == 0 ==> p.renames.len() == 0 && p.skipped == 0 && p.fresh.len()
                == news.len()
        }),
{
    broadcast use vstd::seq_lib::group_to_multiset_ensures;

    let p = plan(old_cards, new_cards);
    let olds = server::ids(changed(old_cards, server::ids(new_cards)));
    let news = server::ids(changed(new_cards, server::ids(old_cards)));
    law_every_changed_card_is_planned_for(old_cards, new_cards);
    let planned = targets(p.renames) + p.fresh;
    assert(planned.to_multiset().len() == planned.len());
    assert(news.to_multiset().len() == news.len());
    let s = sources(p.renames).to_multiset();
    assert(s.len() == p.renames.len());
    assert(olds.to_multiset().len() == olds.len());
    broadcast use vstd::multiset::group_multiset_axioms;

    let all = olds.to_multiset();
    assert(all =~= s.add(all.sub(s)));
}

} // verus!
