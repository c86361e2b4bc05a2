//! Values kept by card.

use vstd::prelude::*;
use crate::types::card_hash::CardHash;

verus! {

/// A value for each of some cards.
pub struct CardTable<V> {
    entries: Vec<(CardHash, V)>,
}

/// What a list of entries, with no card twice, says.
pub open spec fn entries_map<V>(entries: Seq<(CardHash, V)>) -> Map<CardHash, V>
    decreases entries.len(),
{
    if entries.len() == 0 {
        Map::empty()
    } else {
        entries_map(entries.drop_last()).insert(entries.last().0, entries.last().1)
    }
}

/// Whether no card occurs twice.
pub open spec fn unique<V>(entries: Seq<(CardHash, V)>) -> bool {
    forall|i: int, j: int|
        0 <= i < j < entries.len() ==> (#[trigger] entries[i]).0 != (#[trigger] entries[j]).0
}

proof fn lemma_entries_map<V>(entries: Seq<(CardHash, V)>)
    requires
        unique(entries),
    ensures
        forall|i: int|
            0 <= i < entries.len() ==> entries_map(entries).contains_key(
                (#[trigger] entries[i]).0,
            ) && entries_map(entries)[entries[i].0] == entries[i].1,
        forall|h: CardHash| #[trigger]
            entries_map(entries).contains_key(h) ==> exists|i: int|
                0 <= i < entries.len() && (#[trigger] entries[i]).0 == h,
    decreases entries.len(),
{
    if entries.len() > 0 {
        let rest = entries.drop_last();
        lemma_entries_map(rest);
        assert forall|i: int| 0 <= i < entries.len() implies entries_map(entries).contains_key(
            (#[trigger] entries[i]).0,
        ) && entries_map(entries)[entries[i].0] == entries[i].1 by {
            if i < rest.len() {
                assert(rest[i] == entries[i]);
                assert(entries[i].0 != entries[entries.len() - 1].0);
            }
        }
        assert forall|h: CardHash| #[trigger] entries_map(entries).contains_key(h) implies exists|
            i: int,
        |
            0 <= i < entries.len() && (#[trigger] entries[i]).0 == h by {
            if h == entries.last().0 {
                assert(entries[entries.len() - 1].0 == h);
            } else {
                assert(entries_map(rest).contains_key(h));
                let i = choose|i: int| 0 <= i < rest.len() && (#[trigger] rest[i]).0 == h;
                assert(entries[i].0 == h);
            }
        }
    }
}

proof fn lemma_same_map<V>(entries: Seq<(CardHash, V)>, m: Map<CardHash, V>)
    requires
        unique(entries),
        forall|i: int|
            0 <= i < entries.len() ==> m.contains_key((#[trigger] entries[i]).0)
                && m[entries[i].0] == entries[i].1,
        forall|h: CardHash| #[trigger]
            m.contains_key(h) ==> exists|i: int|
                0 <= i < entries.len() && (#[trigger] entries[i]).0 == h,
    ensures
        entries_map(entries) == m,
{
    lemma_entries_map(entries);
    assert forall|h: CardHash| #[trigger] m.contains_key(h) implies entries_map(
        entries,
    ).contains_key(h) && entries_map(entries)[h] == m[h] by {
        let i = choose|i: int| 0 <= i < entries.len() && (#[trigger] entries[i]).0 == h;
        assert(entries_map(entries)[entries[i].0] == entries[i].1);
    }
    assert forall|h: CardHash| #[trigger] entries_map(entries).contains_key(h) implies
        m.contains_key(h) by {
        let i = choose|i: int| 0 <= i < entries.len() && (#[trigger] entries[i]).0 == h;
        assert(m.contains_key(entries[i].0));
    }
    assert(entries_map(entries) =~= m);
}

impl<V> View for CardTable<V> {
    type V = Map<CardHash, V>;

    closed spec fn view(&self) -> Map<CardHash, V> {
        entries_map(self.entries@)
    }
}

impl<V> CardTable<V> {
    #[verifier::type_invariant]
    spec fn well_formed(self) -> bool {
        unique(self.entries@)
    }
}

impl<V: Copy> CardTable<V> {
    /// A table with no card.
    pub fn new() -> (result: CardTable<V>)
        ensures
            result@ == Map::<CardHash, V>::empty(),
    {
        CardTable { entries: Vec::new() }
    }

    /// The entries, in some order. No card occurs twice.
    pub fn entries(&self) -> (result: &Vec<(CardHash, V)>)
        ensures
            unique(result@),
            entries_map(result@) == self@,
    {
        proof {
            use_type_invariant(self);
        }
        &self.entries
    }

    fn position(&self, hash: CardHash) -> (result: usize)
        ensures
            result <= self.entries@.len(),
            result < self.entries@.len() ==> self.entries@[result as int].0 == hash,
            result == self.entries@.len() ==> !self@.contains_key(hash),
            result < self.entries@.len() ==> self@.contains_key(hash) && self@[hash]
                == self.entries@[result as int].1,
    {
        proof {
            use_type_invariant(self);
            lemma_entries_map(self.entries@);
        }
        let mut i: usize = 0;
        while i < self.entries.len()
            invariant
                i <= self.entries@.len(),
                unique(self.entries@),
                forall|j: int| 0 <= j < i ==> (#[trigger] self.entries@[j]).0 != hash,
            decreases self.entries@.len() - i,
        {
            if self.entries[i].0 == hash {
                proof {
                    lemma_entries_map(self.entries@);
                }
                return i;
            }
            i += 1;
        }
        i
    }

    /// The value for a card.
    pub fn get(&self, hash: CardHash) -> (result: Option<V>)
        ensures
            result == if self@.contains_key(hash) {
                Some(self@[hash])
            } else {
                None
            },
    {
        let i = self.position(hash);
        if i < self.entries.len() {
            Some(self.entries[i].1)
        } else {
            None
        }
    }

    /// Whether there is a value for a card.
    pub fn contains(&self, hash: CardHash) -> (result: bool)
        ensures
            result == self@.contains_key(hash),
    {
        self.position(hash) < self.entries.len()
    }

    /// Sets the value for a card.
    pub fn set(&mut self, hash: CardHash, value: V)
        ensures
            final(self)@ == old(self)@.insert(hash, value),
    {
        proof {
            use_type_invariant(&*self);
            lemma_entries_map(self.entries@);
        }
        let i = self.position(hash);
        let ghost before = self.entries@;
        let mut entries: Vec<(CardHash, V)> = Vec::new();
        std::mem::swap(&mut entries, &mut self.entries);
        if i < entries.len() {
            entries.set(i, (hash, value));
        } else {
            entries.push((hash, value));
        }
        proof {
            let m = entries_map(before).insert(hash, value);
            assert forall|h: CardHash| #[trigger] m.contains_key(h) implies exists|j: int|
                0 <= j < entries@.len() && (#[trigger] entries@[j]).0 == h by {
                if h == hash {
                    assert(entries@[i as int].0 == h);
                } else {
                    assert(entries_map(before).contains_key(h));
                    let j = choose|j: int| 0 <= j < before.len() && (#[trigger] before[j]).0 == h;
                    assert(entries@[j].0 == h);
                }
            }
            assert forall|j: int| 0 <= j < entries@.len() implies m.contains_key(
                (#[trigger] entries@[j]).0,
            ) && m[entries@[j].0] == entries@[j].1 by {
                if j != i {
                    assert(entries@[j] == before[j]);
                }
            }
            lemma_same_map(entries@, m);
        }
        self.entries = entries;
    }

    /// Takes a card out, with its value.
    pub fn take(&mut self, hash: CardHash) -> (result: Option<V>)
        ensures
            final(self)@ == old(self)@.remove(hash),
            result == if old(self)@.contains_key(hash) {
                Some(old(self)@[hash])
            } else {
                None
            },
    {
        proof {
            use_type_invariant(&*self);
            lemma_entries_map(self.entries@);
        }
        let i = self.position(hash);
        if i == self.entries.len() {
            proof {
                assert(self@.remove(hash) =~= self@);
            }
            return None;
        }
        let ghost before = self.entries@;
        let mut entries: Vec<(CardHash, V)> = Vec::new();
        std::mem::swap(&mut entries, &mut self.entries);
        let (_, value) = entries.remove(i);
        proof {
            let m = entries_map(before).remove(hash);
            assert forall|h: CardHash| #[trigger] m.contains_key(h) implies exists|j: int|
                0 <= j < entries@.len() && (#[trigger] entries@[j]).0 == h by {
                assert(entries_map(before).contains_key(h));
                let j = choose|j: int| 0 <= j < before.len() && (#[trigger] before[j]).0 == h;
                if j < i {
                    assert(entries@[j].0 == h);
                } else {
                    assert(entries@[j - 1].0 == h);
                }
            }
            assert forall|j: int| 0 <= j < entries@.len() implies m.contains_key(
                (#[trigger] entries@[j]).0,
            ) && m[entries@[j].0] == entries@[j].1 by {
                let k = if j < i {
                    j
                } else {
                    j + 1
                };
                assert(entries@[j] == before[k]);
                assert(before[k].0 != before[i as int].0);
            }
            lemma_same_map(entries@, m);
        }
        self.entries = entries;
        Some(value)
    }
}

proof fn lemma_to_set_push(s: Seq<CardHash>, h: CardHash)
    ensures
        s.to_set().finite(),
        s.push(h).to_set() == s.to_set().insert(h),
{
    vstd::seq_lib::seq_to_set_is_finite(s);
    assert forall|x: CardHash| s.to_set().insert(h).contains(
        x,
    ) implies #[trigger] s.push(h).to_set().contains(x) by {
        if x == h {
            assert(s.push(h)[s.len() as int] == x);
        } else {
            let i = choose|i: int| 0 <= i < s.len() && s[i] == x;
            assert(s.push(h)[i] == x);
        }
    }
    assert forall|x: CardHash| #[trigger] s.push(h).to_set().contains(x) implies s.to_set().insert(
        h,
    ).contains(x) by {
        let i = choose|i: int| 0 <= i < s.push(h).len() && s.push(h)[i] == x;
        if i < s.len() {
            assert(s[i] == x);
        }
    }
    assert(s.push(h).to_set() =~= s.to_set().insert(h));
}

/// How many different hashes there are.
pub fn distinct(hashes: &Vec<CardHash>) -> (result: usize)
    ensures
        result == hashes@.to_set().len(),
        result <= hashes@.len(),
{
    let mut seen: Vec<CardHash> = Vec::new();
    let mut i: usize = 0;
    proof {
        assert(hashes@.take(0).to_set() =~= Set::<CardHash>::empty());
        assert(seen@.to_set() =~= Set::<CardHash>::empty());
    }
    while i < hashes.len()
        invariant
            i <= hashes@.len(),
            seen@.to_set() == hashes@.take(i as int).to_set(),
            seen@.len() == seen@.to_set().len(),
            seen@.len() <= i,
        decreases hashes@.len() - i,
    {
        let hash = hashes[i];
        proof {
            assert(hashes@.take(i + 1) == hashes@.take(i as int).push(hash));
            lemma_to_set_push(hashes@.take(i as int), hash);
            lemma_to_set_push(seen@, hash);
        }
        let mut found = false;
        let mut j: usize = 0;
        while j < seen.len()
            invariant
                j <= seen@.len(),
                found == exists|k: int| 0 <= k < j && seen@[k] == hash,
            decreases seen@.len() - j,
        {
            if seen[j] == hash {
                found = true;
            }
            j += 1;
        }
        proof {
            assert(found == seen@.to_set().contains(hash));
            if found {
                assert(seen@.to_set().insert(hash) =~= seen@.to_set());
            }
        }
        if !found {
            seen.push(hash);
        }
        i += 1;
    }
    proof {
        assert(hashes@.take(i as int) == hashes@);
    }
    seen.len()
}

/// A table holds each of its entries, and nothing else.
pub proof fn law_tables_hold_their_entries<V>(entries: Seq<(CardHash, V)>, h: CardHash)
    requires
        unique(entries),
    ensures
        entries_map(entries).contains_key(h) <==> exists|i: int|
            0 <= i < entries.len() && (#[trigger] entries[i]).0 == h,
        forall|i: int|
            0 <= i < entries.len() ==> entries_map(entries)[(#[trigger] entries[i]).0]
                == entries[i].1,
    decreases entries.len(),
{
    if entries.len() > 0 {
        let rest = entries.drop_last();
        let n = entries.len() - 1;
        assert forall|i: int, j: int| 0 <= i < j < rest.len() implies (#[trigger] rest[i]).0 != (
        #[trigger] rest[j]).0 by {
            assert(entries[i].0 != entries[j].0);
        }
        law_tables_hold_their_entries(rest, h);
        assert forall|i: int| 0 <= i < entries.len() implies entries_map(entries)[(
        #[trigger] entries[i]).0] == entries[i].1 by {
            if i < n {
                assert(rest[i] == entries[i]);
                assert(entries[i].0 != entries[n].0);
                assert(entries_map(rest)[rest[i].0] == rest[i].1);
            }
        }
        if entries_map(rest).contains_key(h) {
            let i = choose|i: int| 0 <= i < rest.len() && (#[trigger] rest[i]).0 == h;
            assert(entries[i].0 == h);
        }
        if exists|i: int| 0 <= i < entries.len() && (#[trigger] entries[i]).0 == h {
            let i = choose|i: int| 0 <= i < entries.len() && (#[trigger] entries[i]).0 == h;
            if i < n {
                assert(rest[i].0 == h);
            }
        }
        assert(entries[n].0 == entries.last().0);
    }
}

} // verus!
