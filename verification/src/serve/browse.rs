//! The tree of the decks of a collection.

use vstd::prelude::*;
use crate::drill::server;
use crate::list;
use crate::order;
use crate::text;
use crate::types::card::Card;
use crate::types::card_hash::CardHash;

verus! {

/// A deck and the decks below it.
pub struct DeckNode {
    /// The last part of the name of the deck.
    pub name: String,
    /// The whole name of the deck. Empty for the root.
    pub path: String,
    /// The number of cards in this deck itself.
    pub total_cards: usize,
    /// The number of cards in this deck itself that are due.
    pub due_today: usize,
    pub children: Vec<DeckNode>,
}

/// A tree of decks.
pub struct Tree {
    pub name: Seq<char>,
    pub path: Seq<char>,
    pub total: nat,
    pub due: nat,
    pub children: Seq<Tree>,
}

/// The tree that a node stands for.
pub open spec fn tree(node: DeckNode) -> Tree
    decreases node,
{
    Tree {
        name: node.name@,
        path: node.path@,
        total: node.total_cards as nat,
        due: node.due_today as nat,
        children: forest(node.children@),
    }
}

/// The trees that some nodes stand for.
pub open spec fn forest(nodes: Seq<DeckNode>) -> Seq<Tree>
    decreases nodes,
{
    if nodes.len() == 0 {
        seq![]
    } else {
        forest(nodes.drop_last()).push(tree(nodes.last()))
    }
}

proof fn lemma_forest(nodes: Seq<DeckNode>)
    ensures
        forest(nodes).len() == nodes.len(),
        forall|i: int| 0 <= i < nodes.len() ==> #[trigger] forest(nodes)[i] == tree(nodes[i]),
    decreases nodes.len(),
{
    if nodes.len() > 0 {
        lemma_forest(nodes.drop_last());
        assert forall|i: int| 0 <= i < nodes.len() implies #[trigger] forest(nodes)[i] == tree(
            nodes[i],
        ) by {
            if i < nodes.len() - 1 {
                assert(nodes.drop_last()[i] == nodes[i]);
                assert(forest(nodes)[i] == forest(nodes.drop_last())[i]);
            }
        }
    }
}

/// A number of each deck of a tree, summed up.
pub open spec fn sum(t: Tree, f: spec_fn(Tree) -> nat) -> nat
    decreases t,
{
    f(t) + sum_all(t.children, f)
}

/// A number of each deck of some trees, summed up.
pub open spec fn sum_all(ts: Seq<Tree>, f: spec_fn(Tree) -> nat) -> nat
    decreases ts,
{
    if ts.len() == 0 {
        0
    } else {
        sum_all(ts.drop_last(), f) + sum(ts.last(), f)
    }
}

/// The cards of a deck.
pub open spec fn cards_of() -> spec_fn(Tree) -> nat {
    |t: Tree| t.total
}

/// The cards of a deck that are due.
pub open spec fn due_of() -> spec_fn(Tree) -> nat {
    |t: Tree| t.due
}

proof fn lemma_sum_prefix(ts: Seq<Tree>, f: spec_fn(Tree) -> nat, i: int)
    requires
        0 <= i < ts.len(),
    ensures
        sum_all(ts.take(i + 1), f) == sum_all(ts.take(i), f) + sum(ts[i], f),
        sum_all(ts.take(i + 1), f) <= sum_all(ts, f),
    decreases ts.len(),
{
    assert(ts.take(i + 1).drop_last() == ts.take(i));
    if i + 1 < ts.len() {
        let rest = ts.drop_last();
        lemma_sum_prefix(rest, f, i);
        assert(rest.take(i + 1) == ts.take(i + 1));
    } else {
        assert(ts.take(i + 1) == ts);
    }
}

impl DeckNode {
    /// The number of cards in this deck and all decks below it.
    pub fn total_cards_recursive(&self) -> (result: usize)
        requires
            sum(tree(*self), cards_of()) <= usize::MAX,
        ensures
            result == sum(tree(*self), cards_of()),
        decreases self,
    {
        let ghost f = cards_of();
        let ghost kids = forest(self.children@);
        proof {
            lemma_forest(self.children@);
            assert(kids.take(0) =~= Seq::<Tree>::empty());
        }
        let mut result: usize = self.total_cards;
        let mut i: usize = 0;
        while i < self.children.len()
            invariant
                i <= self.children@.len(),
                f == cards_of(),
                kids == forest(self.children@),
                kids.len() == self.children@.len(),
                forall|j: int|
                    0 <= j < kids.len() ==> #[trigger] kids[j] == tree(self.children@[j]),
                self.total_cards + sum_all(kids, f) <= usize::MAX,
                result == self.total_cards + sum_all(kids.take(i as int), f),
            decreases self.children@.len() - i,
        {
            proof {
                lemma_sum_prefix(kids, f, i as int);
                assert(kids[i as int] == tree(self.children@[i as int]));
            }
            result += self.children[i].total_cards_recursive();
            i += 1;
        }
        proof {
            assert(kids.take(i as int) == kids);
        }
        result
    }

    /// The number of cards in this deck and all decks below it that are due.
    pub fn due_today_recursive(&self) -> (result: usize)
        requires
            sum(tree(*self), due_of()) <= usize::MAX,
        ensures
            result == sum(tree(*self), due_of()),
        decreases self,
    {
        let ghost f = due_of();
        let ghost kids = forest(self.children@);
        proof {
            lemma_forest(self.children@);
            assert(kids.take(0) =~= Seq::<Tree>::empty());
        }
        let mut result: usize = self.due_today;
        let mut i: usize = 0;
        while i < self.children.len()
            invariant
                i <= self.children@.len(),
                f == due_of(),
                kids == forest(self.children@),
                kids.len() == self.children@.len(),
                forall|j: int|
                    0 <= j < kids.len() ==> #[trigger] kids[j] == tree(self.children@[j]),
                self.due_today + sum_all(kids, f) <= usize::MAX,
                result == self.due_today + sum_all(kids.take(i as int), f),
            decreases self.children@.len() - i,
        {
            proof {
                lemma_sum_prefix(kids, f, i as int);
                assert(kids[i as int] == tree(self.children@[i as int]));
            }
            result += self.children[i].due_today_recursive();
            i += 1;
        }
        proof {
            assert(kids.take(i as int) == kids);
        }
        result
    }
}

/// The place of the first tree with a name; the number of trees if there is
/// none.
pub open spec fn child_index(ts: Seq<Tree>, name: Seq<char>) -> int
    decreases ts.len(),
{
    if ts.len() == 0 {
        0
    } else if ts[0].name == name {
        0
    } else {
        1 + child_index(ts.skip(1), name)
    }
}

/// A deck without cards, on the way that some parts of a name give.
pub open spec fn bare_deck(segments: Seq<Seq<char>>, depth: int) -> Tree {
    Tree {
        name: segments[depth],
        path: text::join(segments.take(depth + 1), "/"@),
        total: 0,
        due: 0,
        children: seq![],
    }
}

/// The trees, with one more for a part of a name if there is none for it.
pub open spec fn with_child(ts: Seq<Tree>, segments: Seq<Seq<char>>, depth: int) -> Seq<Tree> {
    if child_index(ts, segments[depth]) < ts.len() {
        ts
    } else {
        ts.push(bare_deck(segments, depth))
    }
}

/// A tree in which the deck that is reached by the parts of a name from
/// `depth` on has these numbers of cards.
pub open spec fn grow(
    t: Tree,
    segments: Seq<Seq<char>>,
    depth: int,
    total: nat,
    due: nat,
) -> Tree
    decreases segments.len() - depth,
{
    if depth < 0 || depth >= segments.len() {
        Tree { total, due, ..t }
    } else {
        let kids = with_child(t.children, segments, depth);
        let i = child_index(t.children, segments[depth]);
        Tree {
            children: kids.update(i, grow(kids[i], segments, depth + 1, total, due)),
            ..t
        }
    }
}

proof fn lemma_child_index(ts: Seq<Tree>, name: Seq<char>)
    ensures
        0 <= child_index(ts, name) <= ts.len(),
        child_index(ts, name) < ts.len() ==> ts[child_index(ts, name)].name == name,
        forall|j: int| 0 <= j < child_index(ts, name) ==> (#[trigger] ts[j]).name != name,
    decreases ts.len(),
{
    if ts.len() > 0 && ts[0].name != name {
        lemma_child_index(ts.skip(1), name);
        assert forall|j: int| 0 <= j < child_index(ts, name) implies (#[trigger] ts[j]).name
            != name by {
            if j > 0 {
                assert(ts[j] == ts.skip(1)[j - 1]);
            }
        }
    }
}

proof fn lemma_child_at(ts: Seq<Tree>, name: Seq<char>, i: int)
    requires
        0 <= i <= ts.len(),
        forall|j: int| 0 <= j < i ==> (#[trigger] ts[j]).name != name,
        i == ts.len() || ts[i].name == name,
    ensures
        child_index(ts, name) == i,
{
    lemma_child_index(ts, name);
    let k = child_index(ts, name);
    if k < i {
        assert(ts[k].name != name);
    } else if i < k {
        assert(ts[i].name != name);
    }
}

proof fn lemma_forest_update(nodes: Seq<DeckNode>, i: int, node: DeckNode)
    requires
        0 <= i < nodes.len(),
    ensures
        forest(nodes.update(i, node)) == forest(nodes).update(i, tree(node)),
{
    lemma_forest(nodes);
    lemma_forest(nodes.update(i, node));
    assert(forest(nodes.update(i, node)) =~= forest(nodes).update(i, tree(node)));
}

proof fn lemma_forest_push(nodes: Seq<DeckNode>, node: DeckNode)
    ensures
        forest(nodes.push(node)) == forest(nodes).push(tree(node)),
{
    assert(nodes.push(node).drop_last() == nodes);
}

/// Gives the deck that is reached by the parts of a name its numbers of cards,
/// and makes the decks on the way to it.
pub fn insert_into_tree(
    node: &mut DeckNode,
    segments: &Vec<String>,
    depth: usize,
    total: usize,
    due: usize,
)
    requires
        depth <= segments@.len(),
    ensures
        tree(*final(node)) == grow(
            tree(*old(node)),
            text::views(segments@),
            depth as int,
            total as nat,
            due as nat,
        ),
    decreases segments@.len() - depth,
{
    if depth == segments.len() {
        node.total_cards = total;
        node.due_today = due;
        return ;
    }
    let ghost all = text::views(segments@);
    let ghost before = forest(node.children@);
    let segment = segments[depth].as_str();
    proof {
        lemma_forest(node.children@);
    }
    let mut i: usize = 0;
    while i < node.children.len() && !text::same(node.children[i].name.as_str(), segment)
        invariant
            i <= node.children@.len(),
            *node == *old(node),
            before == forest(node.children@),
            before.len() == node.children@.len(),
            forall|j: int|
                0 <= j < before.len() ==> #[trigger] before[j] == tree(node.children@[j]),
            forall|j: int| 0 <= j < i ==> (#[trigger] before[j]).name != segment@,
        decreases node.children@.len() - i,
    {
        proof {
            assert(before[i as int] == tree(node.children@[i as int]));
        }
        i += 1;
    }
    proof {
        if i < node.children@.len() {
            assert(before[i as int] == tree(node.children@[i as int]));
        }
        lemma_child_at(before, segment@, i as int);
    }
    if i == node.children.len() {
        let path = text::joined_range(segments, 0, depth + 1, "/");
        proof {
            assert(all.subrange(0, depth + 1) == all.take(depth + 1));
        }
        let child = DeckNode {
            name: segments[depth].clone(),
            path,
            total_cards: 0,
            due_today: 0,
            children: Vec::new(),
        };
        proof {
            lemma_forest_push(node.children@, child);
            assert(forest(child.children@) =~= Seq::<Tree>::empty());
            assert(tree(child) == bare_deck(all, depth as int));
        }
        node.children.push(child);
    }
    let ghost kids = node.children@;
    proof {
        assert(forest(kids) == with_child(before, all, depth as int));
        lemma_forest(kids);
        assert(forest(kids)[i as int] == tree(kids[i as int]));
    }
    let mut child = node.children.remove(i);
    insert_into_tree(&mut child, segments, depth + 1, total, due);
    proof {
        assert(node.children@.insert(i as int, child) =~= kids.update(i as int, child));
        lemma_forest_update(kids, i as int, child);
    }
    node.children.insert(i, child);
}

/// The cards of one deck.
pub struct DeckCounts {
    pub name: String,
    pub total: usize,
    pub due: usize,
}

/// The name of a deck, its cards, and how many of them are due.
pub type Row = (Seq<char>, nat, nat);

/// The rows that some counts stand for.
pub open spec fn rows(counts: Seq<DeckCounts>) -> Seq<Row> {
    counts.map_values(|c: DeckCounts| (c.name@, c.total as nat, c.due as nat))
}

/// The place of the first row for a deck; the number of rows if there is none.
pub open spec fn row_index(rs: Seq<Row>, name: Seq<char>) -> int
    decreases rs.len(),
{
    if rs.len() == 0 {
        0
    } else if rs[0].0 == name {
        0
    } else {
        1 + row_index(rs.skip(1), name)
    }
}

/// The rows after one more card was counted.
pub open spec fn count_one(rs: Seq<Row>, name: Seq<char>, is_due: bool) -> Seq<Row> {
    let i = row_index(rs, name);
    let d: nat = if is_due {
        1
    } else {
        0
    };
    if i < rs.len() {
        rs.update(i, (name, rs[i].1 + 1, rs[i].2 + d))
    } else {
        rs.push((name, 1, d))
    }
}

/// The cards of a collection counted by deck. The decks stand in the order in
/// which their first cards do.
pub open spec fn counted(cards: Seq<Card>, due: Seq<CardHash>) -> Seq<Row>
    decreases cards.len(),
{
    if cards.len() == 0 {
        seq![]
    } else {
        let c = cards.last();
        count_one(counted(cards.drop_last(), due), c.deck(), due.contains(c.id()))
    }
}

/// A tree without decks.
pub open spec fn empty_tree() -> Tree {
    Tree { name: ""@, path: ""@, total: 0, due: 0, children: seq![] }
}

/// The tree of some of the decks, put in in the given order.
pub open spec fn planted(rs: Seq<Row>, places: Seq<int>) -> Tree
    decreases places.len(),
{
    if places.len() == 0 {
        empty_tree()
    } else {
        let r = rs[places.last()];
        grow(planted(rs, places.drop_last()), text::split(r.0, '/'), 0, r.1, r.2)
    }
}

/// The names of the decks.
pub open spec fn row_names(rs: Seq<Row>) -> Seq<Seq<char>> {
    rs.map_values(|r: Row| r.0)
}

/// The tree of all the decks, which are put in sorted by name.
pub open spec fn deck_tree(rs: Seq<Row>) -> Tree {
    planted(rs, order::order(row_names(rs), rs.len()))
}

/// The tree for some counts.
pub fn build_tree_from_counts(counts: &Vec<DeckCounts>) -> (result: DeckNode)
    ensures
        tree(result) == deck_tree(rows(counts@)),
{
    let ghost rs = rows(counts@);
    let mut root = DeckNode {
        name: "".to_owned(),
        path: "".to_owned(),
        total_cards: 0,
        due_today: 0,
        children: Vec::new(),
    };
    let mut names: Vec<String> = Vec::new();
    let mut i: usize = 0;
    while i < counts.len()
        invariant
            i <= counts@.len(),
            rs == rows(counts@),
            names@.len() == i,
            forall|j: int| 0 <= j < i ==> (#[trigger] names@[j])@ == counts@[j].name@,
        decreases counts@.len() - i,
    {
        names.push(counts[i].name.clone());
        i += 1;
    }
    let places = order::order_of(&names);
    let ghost o = order::numbers(places@);
    proof {
        assert(text::views(names@) =~= row_names(rs));
        assert(forest(root.children@) =~= Seq::<Tree>::empty());
        assert(tree(root) == empty_tree());
        assert(o.take(0) =~= Seq::<int>::empty());
    }
    let mut k: usize = 0;
    while k < places.len()
        invariant
            k <= places@.len(),
            rs == rows(counts@),
            o == order::numbers(places@),
            forall|i: int| 0 <= i < places@.len() ==> 0 <= #[trigger] places@[i] < counts@.len(),
            tree(root) == planted(rs, o.take(k as int)),
        decreases places@.len() - k,
    {
        let row = &counts[places[k]];
        let segments = text::split_at_char(row.name.as_str(), '/');
        proof {
            assert(o.take(k + 1).drop_last() == o.take(k as int));
            assert(o.take(k + 1).last() == o[k as int]);
        }
        insert_into_tree(&mut root, &segments, 0, row.total, row.due);
        k += 1;
    }
    proof {
        assert(o.take(k as int) == o);
    }
    root
}

proof fn lemma_row_at(rs: Seq<Row>, name: Seq<char>, i: int)
    requires
        0 <= i <= rs.len(),
        forall|j: int| 0 <= j < i ==> (#[trigger] rs[j]).0 != name,
        i == rs.len() || rs[i].0 == name,
    ensures
        row_index(rs, name) == i,
    decreases rs.len(),
{
    if rs.len() > 0 && i > 0 {
        assert(rs[0].0 != name);
        let rest = rs.skip(1);
        assert forall|j: int| 0 <= j < i - 1 implies (#[trigger] rest[j]).0 != name by {
            assert(rest[j] == rs[j + 1]);
        }
        lemma_row_at(rest, name, i - 1);
    }
}

/// No row counts more cards than there are.
proof fn lemma_counted(cards: Seq<Card>, due: Seq<CardHash>)
    ensures
        forall|i: int|
            0 <= i < counted(cards, due).len() ==> (#[trigger] counted(cards, due)[i]).2
                <= counted(cards, due)[i].1 <= cards.len(),
        forall|i: int, j: int|
            0 <= i < j < counted(cards, due).len() ==> (#[trigger] counted(cards, due)[i]).0 != (
            #[trigger] counted(cards, due)[j]).0,
        row_sum(counted(cards, due), true) == cards.len(),
        row_sum(counted(cards, due), false) <= cards.len(),
    decreases cards.len(),
{
    if cards.len() > 0 {
        let c = cards.last();
        let rest = counted(cards.drop_last(), due);
        lemma_counted(cards.drop_last(), due);
        lemma_row_index(rest, c.deck());
        let i = row_index(rest, c.deck());
        let d: nat = if due.contains(c.id()) {
            1
        } else {
            0
        };
        if i < rest.len() {
            lemma_row_sum_update(rest, i, (c.deck(), rest[i].1 + 1, rest[i].2 + d));
        } else {
            assert(rest.push((c.deck(), 1, d)).drop_last() == rest);
        }
    }
}

proof fn lemma_row_index(rs: Seq<Row>, name: Seq<char>)
    ensures
        0 <= row_index(rs, name) <= rs.len(),
        row_index(rs, name) < rs.len() ==> rs[row_index(rs, name)].0 == name,
        forall|j: int| 0 <= j < row_index(rs, name) ==> (#[trigger] rs[j]).0 != name,
    decreases rs.len(),
{
    if rs.len() > 0 && rs[0].0 != name {
        lemma_row_index(rs.skip(1), name);
        assert forall|j: int| 0 <= j < row_index(rs, name) implies (#[trigger] rs[j]).0
            != name by {
            if j > 0 {
                assert(rs[j] == rs.skip(1)[j - 1]);
            }
        }
    }
}

/// The cards of all rows, or those of them that are due.
pub open spec fn row_sum(rs: Seq<Row>, all: bool) -> nat
    decreases rs.len(),
{
    if rs.len() == 0 {
        0
    } else {
        row_sum(rs.drop_last(), all) + row_number(rs.last(), all)
    }
}

/// The cards of a row, or those of them that are due.
pub open spec fn row_number(r: Row, all: bool) -> nat {
    if all {
        r.1
    } else {
        r.2
    }
}

proof fn lemma_row_sum_update(rs: Seq<Row>, i: int, r: Row)
    requires
        0 <= i < rs.len(),
    ensures
        row_sum(rs.update(i, r), true) + rs[i].1 == row_sum(rs, true) + r.1,
        row_sum(rs.update(i, r), false) + rs[i].2 == row_sum(rs, false) + r.2,
    decreases rs.len(),
{
    let new = rs.update(i, r);
    if i == rs.len() - 1 {
        assert(new.drop_last() == rs.drop_last());
    } else {
        lemma_row_sum_update(rs.drop_last(), i, r);
        assert(new.drop_last() == rs.drop_last().update(i, r));
        assert(new.last() == rs.last());
    }
}

/// Counts the cards of a collection by deck.
pub fn count_decks(cards: &Vec<Card>, due: &Vec<CardHash>) -> (result: Vec<DeckCounts>)
    ensures
        rows(result@) == counted(cards@, due@),
{
    let mut counts: Vec<DeckCounts> = Vec::new();
    let mut i: usize = 0;
    proof {
        assert(rows(counts@) =~= counted(cards@.take(0), due@));
    }
    while i < cards.len()
        invariant
            i <= cards@.len(),
            rows(counts@) == counted(cards@.take(i as int), due@),
        decreases cards@.len() - i,
    {
        let card = &cards[i];
        let ghost rs = rows(counts@);
        let ghost done = cards@.take(i as int);
        let is_due = server::listed(due, card.hash());
        let mut k: usize = 0;
        while k < counts.len() && !text::same(counts[k].name.as_str(), card.deck_name())
            invariant
                k <= counts@.len(),
                rs == rows(counts@),
                forall|j: int| 0 <= j < k ==> (#[trigger] rs[j]).0 != card.deck(),
            decreases counts@.len() - k,
        {
            k += 1;
        }
        proof {
            lemma_row_at(rs, card.deck(), k as int);
            lemma_counted(done, due@);
            assert(cards@.take(i + 1).drop_last() == done);
            assert(cards@.take(i + 1).last() == *card);
        }
        if k < counts.len() {
            proof {
                assert(rs[k as int] == counted(done, due@)[k as int]);
            }
            let total: usize = counts[k].total + 1;
            let due_count: usize = if is_due {
                counts[k].due + 1
            } else {
                counts[k].due
            };
            let name = counts[k].name.clone();
            let ghost before = counts@;
            counts.set(k, DeckCounts { name, total, due: due_count });
            proof {
                assert(rows(counts@) =~= rs.update(
                    k as int,
                    (card.deck(), total as nat, due_count as nat),
                ));
            }
        } else {
            let due_count: usize = if is_due {
                1
            } else {
                0
            };
            counts.push(
                DeckCounts { name: card.deck_name().to_owned(), total: 1, due: due_count },
            );
            proof {
                assert(rows(counts@) =~= rs.push((card.deck(), 1, due_count as nat)));
            }
        }
        i += 1;
    }
    proof {
        assert(cards@.take(i as int) == cards@);
    }
    counts
}

/// The numbers of cards of the deck that is reached by the parts of a name
/// from `depth` on; none if there is no such deck.
pub open spec fn at(t: Tree, segments: Seq<Seq<char>>, depth: int) -> (nat, nat)
    decreases segments.len() - depth,
{
    if depth < 0 || depth >= segments.len() {
        (t.total, t.due)
    } else {
        let i = child_index(t.children, segments[depth]);
        if i < t.children.len() {
            at(t.children[i], segments, depth + 1)
        } else {
            (0, 0)
        }
    }
}

/// One of two numbers of cards.
pub open spec fn pick(n: (nat, nat), all: bool) -> nat {
    if all {
        n.0
    } else {
        n.1
    }
}

/// All cards of a deck, or those that are due.
pub open spec fn numbers_of(all: bool) -> spec_fn(Tree) -> nat {
    if all {
        cards_of()
    } else {
        due_of()
    }
}

proof fn lemma_same_names(a: Seq<Tree>, b: Seq<Tree>, name: Seq<char>)
    requires
        a.len() == b.len(),
        forall|j: int| 0 <= j < a.len() ==> (#[trigger] a[j]).name == b[j].name,
    ensures
        child_index(a, name) == child_index(b, name),
{
    lemma_child_index(a, name);
    let i = child_index(a, name);
    assert forall|j: int| 0 <= j < i implies (#[trigger] b[j]).name != name by {
        assert(a[j].name == b[j].name);
    }
    if i < a.len() {
        assert(a[i].name == b[i].name);
    }
    lemma_child_at(b, name, i);
}

proof fn lemma_with_child(ts: Seq<Tree>, segments: Seq<Seq<char>>, depth: int)
    requires
        0 <= depth < segments.len(),
    ensures
        ({
            let kids = with_child(ts, segments, depth);
            let i = child_index(ts, segments[depth]);
            &&& 0 <= i < kids.len()
            &&& kids[i].name == segments[depth]
            &&& child_index(kids, segments[depth]) == i
            &&& forall|j: int| 0 <= j < ts.len() ==> kids[j] == ts[j]
            &&& i < ts.len() ==> kids == ts
            &&& i >= ts.len() ==> kids == ts.push(bare_deck(segments, depth)) && i == ts.len()
        }),
{
    let kids = with_child(ts, segments, depth);
    let i = child_index(ts, segments[depth]);
    lemma_child_index(ts, segments[depth]);
    assert forall|j: int| 0 <= j < i implies (#[trigger] kids[j]).name != segments[depth] by {
        assert(kids[j] == ts[j]);
    }
    lemma_child_at(kids, segments[depth], i);
}

proof fn lemma_grow_name(t: Tree, segments: Seq<Seq<char>>, depth: int, total: nat, due: nat)
    ensures
        grow(t, segments, depth, total, due).name == t.name,
{
}

/// Putting a deck into a tree sets the numbers of that deck.
proof fn lemma_grown_at(t: Tree, segments: Seq<Seq<char>>, depth: int, total: nat, due: nat)
    requires
        0 <= depth <= segments.len(),
    ensures
        at(grow(t, segments, depth, total, due), segments, depth) == (total, due),
    decreases segments.len() - depth,
{
    if depth < segments.len() {
        let kids = with_child(t.children, segments, depth);
        let i = child_index(t.children, segments[depth]);
        lemma_with_child(t.children, segments, depth);
        lemma_grown_at(kids[i], segments, depth + 1, total, due);
        let new = kids.update(i, grow(kids[i], segments, depth + 1, total, due));
        lemma_grow_name(kids[i], segments, depth + 1, total, due);
        lemma_same_names(kids, new, segments[depth]);
    }
}

/// Putting a deck into a tree leaves the numbers of the others.
proof fn lemma_grown_elsewhere(
    t: Tree,
    segments: Seq<Seq<char>>,
    other: Seq<Seq<char>>,
    depth: int,
    total: nat,
    due: nat,
)
    requires
        0 <= depth <= segments.len(),
        depth <= other.len(),
        segments.skip(depth) != other.skip(depth),
    ensures
        at(grow(t, segments, depth, total, due), other, depth) == at(t, other, depth),
    decreases segments.len() - depth,
{
    if depth >= segments.len() {
        assert(segments.skip(depth) =~= Seq::<Seq<char>>::empty());
        assert(depth < other.len()) by {
            if depth >= other.len() {
                assert(other.skip(depth) =~= Seq::<Seq<char>>::empty());
            }
        }
    } else {
        let kids = with_child(t.children, segments, depth);
        let i = child_index(t.children, segments[depth]);
        let g = grow(kids[i], segments, depth + 1, total, due);
        let new = kids.update(i, g);
        lemma_with_child(t.children, segments, depth);
        lemma_grow_name(kids[i], segments, depth + 1, total, due);
        if depth < other.len() {
            let name = other[depth];
            lemma_same_names(kids, new, name);
            lemma_child_index(t.children, name);
            lemma_child_index(kids, name);
            if name == segments[depth] {
                assert(segments.skip(depth + 1) != other.skip(depth + 1)) by {
                    if segments.skip(depth + 1) == other.skip(depth + 1) {
                        assert(segments.skip(depth) =~= seq![name] + segments.skip(depth + 1));
                        assert(other.skip(depth) =~= seq![name] + other.skip(depth + 1));
                    }
                }
                lemma_grown_elsewhere(kids[i], segments, other, depth + 1, total, due);
            } else {
                let k = child_index(t.children, name);
                if k < t.children.len() {
                    assert forall|j: int| 0 <= j < k implies (#[trigger] kids[j]).name
                        != name by {
                        assert(kids[j] == t.children[j]);
                    }
                    lemma_child_at(kids, name, k);
                } else {
                    assert forall|j: int| 0 <= j < kids.len() implies (#[trigger] kids[j]).name
                        != name by {
                        if j < t.children.len() {
                            assert(kids[j] == t.children[j]);
                        } else {
                            assert(j == i);
                        }
                    }
                    lemma_child_at(kids, name, kids.len() as int);
                }
            }
        }
    }
}

proof fn lemma_sum_update(ts: Seq<Tree>, i: int, t: Tree, f: spec_fn(Tree) -> nat)
    requires
        0 <= i < ts.len(),
    ensures
        sum_all(ts.update(i, t), f) + sum(ts[i], f) == sum_all(ts, f) + sum(t, f),
    decreases ts.len(),
{
    let new = ts.update(i, t);
    if i == ts.len() - 1 {
        assert(new.drop_last() == ts.drop_last());
    } else {
        lemma_sum_update(ts.drop_last(), i, t, f);
        assert(new.drop_last() == ts.drop_last().update(i, t));
        assert(new.last() == ts.last());
    }
}

/// Putting a deck into a tree changes the sum by what it changes of the deck.
proof fn lemma_grown_sum(
    t: Tree,
    segments: Seq<Seq<char>>,
    depth: int,
    total: nat,
    due: nat,
    all: bool,
)
    requires
        0 <= depth <= segments.len(),
    ensures
        sum(grow(t, segments, depth, total, due), numbers_of(all)) + pick(
            at(t, segments, depth),
            all,
        ) == sum(t, numbers_of(all)) + pick((total, due), all),
    decreases segments.len() - depth,
{
    let f = numbers_of(all);
    if depth < segments.len() {
        let kids = with_child(t.children, segments, depth);
        let i = child_index(t.children, segments[depth]);
        let g = grow(kids[i], segments, depth + 1, total, due);
        lemma_with_child(t.children, segments, depth);
        lemma_grown_sum(kids[i], segments, depth + 1, total, due, all);
        lemma_sum_update(kids, i, g, f);
        if i >= t.children.len() {
            let bare = bare_deck(segments, depth);
            assert(kids.drop_last() == t.children);
            assert(sum_all(bare.children, f) == 0);
            assert(sum(bare, f) == 0);
            if depth + 1 < segments.len() {
                assert(at(bare, segments, depth + 1) == (0nat, 0nat));
            }
        }
    }
}

/// The numbers of the rows at some places, summed up.
pub open spec fn picked_sum(rs: Seq<Row>, places: Seq<int>, all: bool) -> nat
    decreases places.len(),
{
    if places.len() == 0 {
        0
    } else {
        picked_sum(rs, places.drop_last(), all) + row_number(rs[places.last()], all)
    }
}

proof fn lemma_picked_insert(rs: Seq<Row>, places: Seq<int>, s: int, k: int, all: bool)
    requires
        0 <= s <= places.len(),
    ensures
        picked_sum(rs, places.insert(s, k), all) == picked_sum(rs, places, all) + row_number(
            rs[k],
            all,
        ),
    decreases places.len(),
{
    let new = places.insert(s, k);
    if s == places.len() {
        assert(new.drop_last() == places);
    } else {
        lemma_picked_insert(rs, places.drop_last(), s, k, all);
        assert(new.drop_last() == places.drop_last().insert(s, k));
        assert(new.last() == places.last());
    }
}

proof fn lemma_picked_order(rs: Seq<Row>, n: nat, all: bool)
    requires
        n <= rs.len(),
    ensures
        picked_sum(rs, order::order(row_names(rs), n), all) == row_sum(rs.take(n as int), all),
    decreases n,
{
    if n > 0 {
        let m = (n - 1) as nat;
        let sorted = order::order(row_names(rs), m);
        lemma_picked_order(rs, m, all);
        order::lemma_order(row_names(rs), m);
        order::lemma_slot(row_names(rs), sorted, m as int);
        lemma_picked_insert(rs, sorted, order::slot(row_names(rs), sorted, m as int), m as int, all);
        assert(rs.take(n as int).drop_last() == rs.take(m as int));
    }
}

/// What is planted sums up, and the decks that are not planted yet have no
/// cards.
proof fn lemma_planted(rs: Seq<Row>, places: Seq<int>, all: bool)
    requires
        forall|i: int, j: int|
            0 <= i < j < rs.len() ==> (#[trigger] rs[i]).0 != (#[trigger] rs[j]).0,
        places.no_duplicates(),
        forall|i: int| 0 <= i < places.len() ==> 0 <= #[trigger] places[i] < rs.len(),
    ensures
        sum(planted(rs, places), numbers_of(all)) == picked_sum(rs, places, all),
        forall|k: int|
            0 <= k < rs.len() && !places.contains(k) ==> at(
                planted(rs, places),
                text::split((#[trigger] rs[k]).0, '/'),
                0,
            ) == (0nat, 0nat),
    decreases places.len(),
{
    if places.len() == 0 {
        let e = empty_tree();
        assert(sum_all(e.children, numbers_of(all)) == 0);
    } else {
        let rest = places.drop_last();
        let last = places.last();
        let r = rs[last];
        let segments = text::split(r.0, '/');
        let t = planted(rs, rest);
        assert forall|i: int| 0 <= i < rest.len() implies 0 <= #[trigger] rest[i]
            < rs.len() by {
            assert(rest[i] == places[i]);
        }
        assert(rest.no_duplicates()) by {
            assert forall|i: int, j: int|
                0 <= i < rest.len() && 0 <= j < rest.len() && i != j implies rest[i] != rest[j] by {
                assert(places[i] != places[j]);
            }
        }
        lemma_planted(rs, rest, all);
        assert(!rest.contains(last)) by {
            if rest.contains(last) {
                let i = choose|i: int| 0 <= i < rest.len() && rest[i] == last;
                assert(places[i] == places[places.len() - 1]);
            }
        }
        assert(at(t, text::split(rs[last].0, '/'), 0) == (0nat, 0nat));
        lemma_grown_sum(t, segments, 0, r.1, r.2, all);
        assert forall|k: int| 0 <= k < rs.len() && !places.contains(k) implies at(
            planted(rs, places),
            text::split((#[trigger] rs[k]).0, '/'),
            0,
        ) == (0nat, 0nat) by {
            let other = text::split(rs[k].0, '/');
            assert(!rest.contains(k)) by {
                if rest.contains(k) {
                    let i = choose|i: int| 0 <= i < rest.len() && rest[i] == k;
                    assert(places[i] == k);
                }
            }
            assert(k != last) by {
                assert(places[places.len() - 1] == last);
            }
            if segments == other {
                text::lemma_split_injective(r.0, rs[k].0, '/');
                assert(false);
            }
            assert(segments.skip(0) == segments && other.skip(0) == other);
            lemma_grown_elsewhere(t, segments, other, 0, r.1, r.2);
        }
    }
}

/// Whether no deck has more than one row.
pub open spec fn each_once(rs: Seq<Row>) -> bool {
    forall|i: int, j: int|
        0 <= i < j < rs.len() ==> (#[trigger] rs[i]).0 != (#[trigger] rs[j]).0
}

/// A tree holds what its rows count: the numbers of all decks sum up to those
/// of all rows.
pub proof fn law_the_tree_holds_its_rows(rs: Seq<Row>)
    requires
        each_once(rs),
    ensures
        sum(deck_tree(rs), cards_of()) == row_sum(rs, true),
        sum(deck_tree(rs), due_of()) == row_sum(rs, false),
{
    let places = order::order(row_names(rs), rs.len());
    order::lemma_order(row_names(rs), rs.len());
    lemma_planted(rs, places, true);
    lemma_planted(rs, places, false);
    lemma_picked_order(rs, rs.len(), true);
    lemma_picked_order(rs, rs.len(), false);
    assert(rs.take(rs.len() as int) == rs);
}

/// The tree of a collection holds every card of it once: the numbers of all
/// decks sum up to the number of cards, and those of the cards that are due to
/// no more.
pub proof fn law_the_tree_holds_every_card(cards: Seq<Card>, due: Seq<CardHash>)
    ensures
        sum(deck_tree(counted(cards, due)), cards_of()) == cards.len(),
        sum(deck_tree(counted(cards, due)), due_of()) <= cards.len(),
{
    lemma_counted(cards, due);
    law_the_tree_holds_its_rows(counted(cards, due));
}

/// The cards of a deck, and how many of them are due.
pub open spec fn own_numbers(cards: Seq<Card>, due: Seq<CardHash>, deck: Seq<char>) -> (nat, nat)
    decreases cards.len(),
{
    if cards.len() == 0 {
        (0, 0)
    } else {
        let c = cards.last();
        let rest = own_numbers(cards.drop_last(), due, deck);
        if c.deck() != deck {
            rest
        } else if due.contains(c.id()) {
            (rest.0 + 1, rest.1 + 1)
        } else {
            (rest.0 + 1, rest.1)
        }
    }
}

/// The row of a deck has the numbers of its cards; a deck without a row has
/// none.
proof fn lemma_own_row(cards: Seq<Card>, due: Seq<CardHash>, deck: Seq<char>)
    ensures
        ({
            let rs = counted(cards, due);
            let i = row_index(rs, deck);
            let own = own_numbers(cards, due, deck);
            if i < rs.len() {
                own == (rs[i].1, rs[i].2)
            } else {
                own == (0nat, 0nat)
            }
        }),
    decreases cards.len(),
{
    if cards.len() > 0 {
        let c = cards.last();
        let rest = counted(cards.drop_last(), due);
        let rs = counted(cards, due);
        lemma_own_row(cards.drop_last(), due, deck);
        lemma_row_index(rest, c.deck());
        lemma_row_index(rest, deck);
        let k = row_index(rest, c.deck());
        let i = row_index(rest, deck);
        assert forall|j: int| 0 <= j < i implies (#[trigger] rs[j]).0 != deck || j == k by {
            assert(j == k || rs[j] == rest[j]);
        }
        if c.deck() == deck {
            lemma_row_at(rs, deck, i);
        } else if i < rest.len() {
            assert(rs[i] == rest[i]);
            lemma_row_at(rs, deck, i);
        } else {
            lemma_row_at(rs, deck, rs.len() as int);
        }
    }
}

/// A deck that was never put into a tree has no cards there.
proof fn lemma_unplanted(rs: Seq<Row>, places: Seq<int>, deck: Seq<char>)
    requires
        forall|i: int| 0 <= i < places.len() ==> rs[#[trigger] places[i]].0 != deck,
    ensures
        at(planted(rs, places), text::split(deck, '/'), 0) == (0nat, 0nat),
    decreases places.len(),
{
    let other = text::split(deck, '/');
    if places.len() > 0 {
        let rest = places.drop_last();
        let r = rs[places.last()];
        let segments = text::split(r.0, '/');
        assert forall|i: int| 0 <= i < rest.len() implies rs[#[trigger] rest[i]].0 != deck by {
            assert(rest[i] == places[i]);
        }
        lemma_unplanted(rs, rest, deck);
        assert(r.0 != deck) by {
            assert(places[places.len() - 1] == places.last());
        }
        if segments == other {
            text::lemma_split_injective(r.0, deck, '/');
        }
        assert(segments.skip(0) == segments && other.skip(0) == other);
        lemma_grown_elsewhere(planted(rs, rest), segments, other, 0, r.1, r.2);
    }
}

/// A deck that was put into a tree has its numbers there.
proof fn lemma_planted_numbers(rs: Seq<Row>, places: Seq<int>, k: int)
    requires
        forall|i: int, j: int|
            0 <= i < j < rs.len() ==> (#[trigger] rs[i]).0 != (#[trigger] rs[j]).0,
        forall|i: int| 0 <= i < places.len() ==> 0 <= #[trigger] places[i] < rs.len(),
        places.contains(k),
    ensures
        at(planted(rs, places), text::split(rs[k].0, '/'), 0) == (rs[k].1, rs[k].2),
    decreases places.len(),
{
    let rest = places.drop_last();
    let last = places.last();
    let r = rs[last];
    let segments = text::split(r.0, '/');
    let t = planted(rs, rest);
    assert(places[places.len() - 1] == last);
    if k == last {
        lemma_grown_at(t, segments, 0, r.1, r.2);
    } else {
        let i = choose|i: int| 0 <= i < places.len() && places[i] == k;
        assert(rest[i] == k);
        assert forall|j: int| 0 <= j < rest.len() implies 0 <= #[trigger] rest[j]
            < rs.len() by {
            assert(rest[j] == places[j]);
        }
        lemma_planted_numbers(rs, rest, k);
        let other = text::split(rs[k].0, '/');
        assert(rs[k].0 != r.0);
        if segments == other {
            text::lemma_split_injective(r.0, rs[k].0, '/');
        }
        assert(segments.skip(0) == segments && other.skip(0) == other);
        lemma_grown_elsewhere(t, segments, other, 0, r.1, r.2);
    }
}

/// Every deck with a row stands in the tree with the numbers of that row, and a
/// name without one stands there with none.
pub proof fn law_each_row_stands_at_its_deck(rs: Seq<Row>, deck: Seq<char>)
    requires
        each_once(rs),
    ensures
        at(deck_tree(rs), text::split(deck, '/'), 0) == {
            let k = row_index(rs, deck);
            if k < rs.len() {
                (rs[k].1, rs[k].2)
            } else {
                (0, 0)
            }
        },
{
    let places = order::order(row_names(rs), rs.len());
    let k = row_index(rs, deck);
    lemma_row_index(rs, deck);
    order::lemma_order(row_names(rs), rs.len());
    if k < rs.len() {
        assert(places.contains(k));
        lemma_planted_numbers(rs, places, k);
    } else {
        assert forall|i: int| 0 <= i < places.len() implies rs[#[trigger] places[i]].0 != deck by {
            assert(rs[places[i]].0 != deck);
        }
        lemma_unplanted(rs, places, deck);
    }
}

/// Every deck stands in the tree with the numbers of its own cards, and a name
/// that is no deck's stands there with none.
pub proof fn law_each_deck_has_its_own_numbers(
    cards: Seq<Card>,
    due: Seq<CardHash>,
    deck: Seq<char>,
)
    ensures
        at(deck_tree(counted(cards, due)), text::split(deck, '/'), 0) == own_numbers(
            cards,
            due,
            deck,
        ),
{
    lemma_counted(cards, due);
    lemma_own_row(cards, due, deck);
    law_each_row_stands_at_its_deck(counted(cards, due), deck);
}

/// The tree of the decks of a collection.
pub fn build_deck_tree(cards: &Vec<Card>, due: &Vec<CardHash>) -> (result: DeckNode)
    ensures
        tree(result) == deck_tree(counted(cards@, due@)),
        sum(tree(result), cards_of()) == cards@.len(),
        sum(tree(result), due_of()) <= cards@.len(),
{
    let counts = count_decks(cards, due);
    let root = build_tree_from_counts(&counts);
    proof {
        law_the_tree_holds_every_card(cards@, due@);
    }
    root
}

/// Whether a card lies in a deck.
pub open spec fn lies_in(deck: Seq<char>) -> spec_fn(Card) -> bool {
    |c: Card| c.deck() == deck
}

/// Whether a card lies in a deck and is due.
pub open spec fn due_in(deck: Seq<char>, due: Seq<CardHash>) -> spec_fn(Card) -> bool {
    |c: Card| c.deck() == deck && due.contains(c.id())
}

/// The numbers of a deck are how many cards lie in it, and how many of those are
/// due.
pub proof fn law_decks_count_their_own_cards(
    cards: Seq<Card>,
    due: Seq<CardHash>,
    deck: Seq<char>,
)
    ensures
        at(deck_tree(counted(cards, due)), text::split(deck, '/'), 0) == (
            list::keep(cards, lies_in(deck)).len(),
            list::keep(cards, due_in(deck, due)).len(),
        ),
{
    law_each_deck_has_its_own_numbers(cards, due, deck);
    lemma_own_numbers(cards, due, deck);
}

proof fn lemma_own_numbers(cards: Seq<Card>, due: Seq<CardHash>, deck: Seq<char>)
    ensures
        own_numbers(cards, due, deck) == (
            list::keep(cards, lies_in(deck)).len(),
            list::keep(cards, due_in(deck, due)).len(),
        ),
    decreases cards.len(),
{
    if cards.len() > 0 {
        lemma_own_numbers(cards.drop_last(), due, deck);
    }
}

/// The path of the deck that some names lead to, where there is one.
pub open spec fn path_at(t: Tree, segments: Seq<Seq<char>>, depth: int) -> Option<Seq<char>>
    decreases segments.len() - depth,
{
    if depth < 0 || depth >= segments.len() {
        Some(t.path)
    } else {
        let i = child_index(t.children, segments[depth]);
        if i < t.children.len() {
            path_at(t.children[i], segments, depth + 1)
        } else {
            None
        }
    }
}

/// Whether each deck below a tree has the path that leads to it, where the tree
/// itself has this one.
spec fn pathed(t: Tree, prefix: Seq<Seq<char>>) -> bool {
    forall|o: Seq<Seq<char>>|
        o.len() > prefix.len() && o.take(prefix.len() as int) == prefix ==> (
        #[trigger] path_at(t, o, prefix.len() as int) matches Some(p) ==> p == text::join(o, "/"@))
}

proof fn lemma_grown_path(t: Tree, segments: Seq<Seq<char>>, depth: int, total: nat, due: nat)
    ensures
        grow(t, segments, depth, total, due).path == t.path,
{
}

proof fn lemma_child_is_pathed(t: Tree, prefix: Seq<Seq<char>>, name: Seq<char>)
    requires
        pathed(t, prefix),
        child_index(t.children, name) < t.children.len(),
    ensures
        pathed(t.children[child_index(t.children, name)], prefix.push(name)),
        t.children[child_index(t.children, name)].path == text::join(prefix.push(name), "/"@),
{
    let n = prefix.len() as int;
    let below = prefix.push(name);
    let i = child_index(t.children, name);
    lemma_child_index(t.children, name);
    let child = t.children[i];
    assert(below.take(n) =~= prefix);
    assert(path_at(child, below, n + 1) == Some(child.path));
    assert(path_at(t, below, n) == Some(child.path));
    assert forall|o: Seq<Seq<char>>|
        o.len() > below.len() && o.take(below.len() as int) == below implies (
    #[trigger] path_at(child, o, below.len() as int) matches Some(p) ==> p == text::join(
        o,
        "/"@,
    )) by {
        assert(o.take(n) =~= o.take(n + 1).take(n));
        assert(o.take(n) =~= prefix);
        assert(o[n] == o.take(n + 1)[n]);
        assert(path_at(t, o, n) == path_at(child, o, n + 1));
    }
}

proof fn lemma_grown_is_pathed(
    t: Tree,
    segments: Seq<Seq<char>>,
    depth: int,
    total: nat,
    due: nat,
)
    requires
        0 <= depth <= segments.len(),
        pathed(t, segments.take(depth)),
    ensures
        pathed(grow(t, segments, depth, total, due), segments.take(depth)),
    decreases segments.len() - depth,
{
    let prefix = segments.take(depth);
    let after = grow(t, segments, depth, total, due);
    if depth == segments.len() {
        assert forall|o: Seq<Seq<char>>|
            o.len() > prefix.len() && o.take(prefix.len() as int) == prefix implies (
        #[trigger] path_at(after, o, depth) matches Some(p) ==> p == text::join(o, "/"@)) by {
            assert(path_at(t, o, depth) == path_at(after, o, depth));
        }
    } else {
        let name = segments[depth];
        let kids = with_child(t.children, segments, depth);
        let i = child_index(t.children, name);
        lemma_with_child(t.children, segments, depth);
        let below = segments.take(depth + 1);
        assert(below =~= prefix.push(name));
        assert(pathed(kids[i], below) && kids[i].path == text::join(below, "/"@)) by {
            if i < t.children.len() {
                lemma_child_is_pathed(t, prefix, name);
            } else {
                assert forall|o: Seq<Seq<char>>|
                    o.len() > below.len() && o.take(below.len() as int) == below implies (
                #[trigger] path_at(kids[i], o, below.len() as int) matches Some(p) ==> p
                    == text::join(o, "/"@)) by {
                    assert(child_index(kids[i].children, o[depth + 1]) == 0);
                }
            }
        }
        let grown = grow(kids[i], segments, depth + 1, total, due);
        lemma_grown_is_pathed(kids[i], segments, depth + 1, total, due);
        lemma_grown_path(kids[i], segments, depth + 1, total, due);
        lemma_grow_name(kids[i], segments, depth + 1, total, due);
        assert forall|o: Seq<Seq<char>>|
            o.len() > prefix.len() && o.take(prefix.len() as int) == prefix implies (
        #[trigger] path_at(after, o, depth) matches Some(p) ==> p == text::join(o, "/"@)) by {
            lemma_same_names(after.children, kids, o[depth]);
            let k = child_index(kids, o[depth]);
            lemma_child_index(kids, o[depth]);
            if o[depth] == name {
                assert(o.take(depth + 1) =~= below);
                assert(path_at(after, o, depth) == path_at(grown, o, depth + 1));
                if o.len() == depth + 1 {
                    assert(o =~= below);
                }
            } else if k < kids.len() {
                lemma_child_index(t.children, o[depth]);
                assert(kids[k].name == o[depth]);
                assert(k != i);
                assert(k < t.children.len());
                lemma_child_at(t.children, o[depth], k);
                assert(path_at(after, o, depth) == path_at(kids[k], o, depth + 1));
                assert(path_at(t, o, depth) == path_at(t.children[k], o, depth + 1));
            }
        }
    }
}

/// Every deck of the tree, and every level between, has the path that leads to
/// it.
pub proof fn law_decks_have_the_path_that_leads_to_them(
    rs: Seq<Row>,
    segments: Seq<Seq<char>>,
)
    requires
        segments.len() > 0,
    ensures
        path_at(deck_tree(rs), segments, 0) matches Some(p) ==> p == text::join(segments, "/"@),
{
    lemma_planted_is_pathed(rs, order::order(row_names(rs), rs.len()));
    assert(segments.take(0) =~= Seq::<Seq<char>>::empty());
}

proof fn lemma_planted_is_pathed(rs: Seq<Row>, places: Seq<int>)
    ensures
        pathed(planted(rs, places), Seq::empty()),
    decreases places.len(),
{
    let none = Seq::<Seq<char>>::empty();
    if places.len() == 0 {
        assert forall|o: Seq<Seq<char>>|
            o.len() > 0 && o.take(0) == none implies (#[trigger] path_at(
            planted(rs, places),
            o,
            0,
        ) matches Some(p) ==> p == text::join(o, "/"@)) by {
            assert(child_index(empty_tree().children, o[0]) == 0);
        }
    } else {
        let rest = places.drop_last();
        let r = rs[places.last()];
        let segments = text::split(r.0, '/');
        lemma_planted_is_pathed(rs, rest);
        assert(segments.take(0) =~= none);
        lemma_grown_is_pathed(planted(rs, rest), segments, 0, r.1, r.2);
    }
}

} // verus!
