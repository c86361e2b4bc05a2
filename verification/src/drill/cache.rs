//! How well the cards of a session are known.

use vstd::prelude::*;
use crate::drill::table;
use crate::drill::table::CardTable;
use crate::error::{fail, Fallible};
use crate::text;
use crate::types::card_hash;
use crate::types::card_hash::CardHash;
use crate::types::performance::Performance;

verus! {

/// The performance of each card of a session.
///
/// Grading computes the new performance from it, and undo finds the previous
/// one in it. Performance is written to the database at every grade; this is a
/// mirror, not the record.
pub struct Cache {
    changes: CardTable<Performance>,
}

impl View for Cache {
    type V = Map<CardHash, Performance>;

    closed spec fn view(&self) -> Map<CardHash, Performance> {
        self.changes@
    }
}

/// What is said of a card that is there already.
pub open spec fn present_message(hash: CardHash) -> Seq<char> {
    "Card with hash "@ + card_hash::hash_text(hash) + " already in cache"@
}

/// What is said of a card that is not there.
pub open spec fn absent_message(hash: CardHash) -> Seq<char> {
    "Card with hash "@ + card_hash::hash_text(hash) + " not found in cache"@
}

fn not_found<T>(hash: CardHash) -> (result: Fallible<T>)
    ensures
        result matches Err(e) && e@ == absent_message(hash),
{
    let digits = hash.to_hex();
    let message = text::cat3("Card with hash ", digits.as_str(), " not found in cache");
    fail(message.as_str())
}

impl Cache {
    /// An empty cache.
    pub fn new() -> (result: Cache)
        ensures
            result@ == Map::<CardHash, Performance>::empty(),
    {
        Cache { changes: CardTable::new() }
    }

    /// The cards with their performance, in some order.
    pub fn changes(&self) -> (result: &Vec<(CardHash, Performance)>)
        ensures
            table::unique(result@),
            table::entries_map(result@) == self@,
    {
        self.changes.entries()
    }

    /// Adds a card. A card that is there already is an error, and then nothing
    /// changes.
    pub fn insert(&mut self, card_hash: CardHash, performance: Performance) -> (result: Fallible<
        (),
    >)
        ensures
            match result {
                Ok(_) => !old(self)@.contains_key(card_hash) && final(self)@ == old(self)@.insert(
                    card_hash,
                    performance,
                ),
                Err(e) => old(self)@.contains_key(card_hash) && final(self)@ == old(self)@ && e@
                    == present_message(card_hash),
            },
    {
        if self.changes.contains(card_hash) {
            let digits = card_hash.to_hex();
            let message = text::cat3("Card with hash ", digits.as_str(), " already in cache");
            return fail(message.as_str());
        }
        self.changes.set(card_hash, performance);
        Ok(())
    }

    /// The performance of a card. A card that is not there is an error.
    pub fn get(&self, card_hash: CardHash) -> (result: Fallible<Performance>)
        ensures
            match result {
                Ok(p) => self@.contains_key(card_hash) && p == self@[card_hash],
                Err(e) => !self@.contains_key(card_hash) && e@ == absent_message(card_hash),
            },
    {
        match self.changes.get(card_hash) {
            Some(performance) => Ok(performance),
            None => not_found(card_hash),
        }
    }

    /// Changes the performance of a card. A card that is not there is an
    /// error, and then nothing changes.
    pub fn update(&mut self, card_hash: CardHash, performance: Performance) -> (result: Fallible<
        (),
    >)
        ensures
            match result {
                Ok(_) => old(self)@.contains_key(card_hash) && final(self)@ == old(self)@.insert(
                    card_hash,
                    performance,
                ),
                Err(e) => !old(self)@.contains_key(card_hash) && final(self)@ == old(self)@ && e@
                    == absent_message(card_hash),
            },
    {
        if !self.changes.contains(card_hash) {
            return not_found(card_hash);
        }
        self.changes.set(card_hash, performance);
        Ok(())
    }

    /// Moves the performance of a card to the hash that an edit gave it.
    ///
    /// A hash that the session never held is not its business, so this never
    /// fails. If the new hash is there already, the moved value wins.
    pub fn rekey(&mut self, old_hash: CardHash, new_hash: CardHash)
        ensures
            final(self)@ == if old(self)@.contains_key(old_hash) {
                old(self)@.remove(old_hash).insert(new_hash, old(self)@[old_hash])
            } else {
                old(self)@
            },
    {
        let taken = self.changes.take(old_hash);
        proof {
            if !old(self)@.contains_key(old_hash) {
                assert(old(self)@.remove(old_hash) =~= old(self)@);
            }
        }
        if let Some(performance) = taken {
            self.changes.set(new_hash, performance);
        }
    }

    /// Forgets a card that an edit deleted.
    pub fn remove(&mut self, card_hash: CardHash)
        ensures
            final(self)@ == old(self)@.remove(card_hash),
    {
        let _ = self.changes.take(card_hash);
    }
}

} // verus!
