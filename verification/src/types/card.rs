//! Cards.

use vstd::prelude::*;
use crate::types::card_hash;
use crate::types::card_hash::CardHash;

verus! {

/// What a card asks and answers.
pub enum CardContent {
    /// A question with its answer.
    Basic { question: String, answer: String },
    /// A text with one part deleted: the bytes from `start` through `end`.
    Cloze { text: String, start: usize, end: usize },
}

/// The eight bytes of a number, the least significant first.
pub open spec fn le_bytes(n: nat, width: nat) -> Seq<u8>
    decreases width,
{
    if width == 0 {
        seq![]
    } else {
        seq![(n % 256) as u8] + le_bytes(n / 256, (width - 1) as nat)
    }
}

fn push_le_bytes(v: &mut Vec<u8>, n: u64, width: usize)
    ensures
        final(v)@ == old(v)@ + le_bytes(n as nat, width as nat),
    decreases width,
{
    if width > 0 {
        v.push((n % 256) as u8);
        let ghost one = v@;
        push_le_bytes(v, n / 256, width - 1);
        proof {
            assert(v@ == one + le_bytes(n as nat / 256, (width - 1) as nat));
            assert(v@ == old(v)@ + le_bytes(n as nat, width as nat));
        }
    } else {
        proof {
            assert(v@ == old(v)@ + le_bytes(n as nat, width as nat));
        }
    }
}

/// The UTF-8 bytes of a text.
pub open spec fn utf8(s: Seq<char>) -> Seq<u8> {
    vstd::utf8::encode_utf8(s)
}

/// The bytes that identify a card: its kind and its content.
pub open spec fn identity(content: CardContent) -> Seq<u8> {
    match content {
        CardContent::Basic { question, answer } => utf8("Basic"@) + utf8(question@) + utf8(answer@),
        CardContent::Cloze { text, start, end } => utf8("Cloze"@) + utf8(text@) + le_bytes(
            start as nat,
            8,
        ) + le_bytes(end as nat, 8),
    }
}

/// The bytes that identify the cards made from one text: a cloze text gives
/// one card for each deletion, and these are siblings.
pub open spec fn family_identity(content: CardContent) -> Option<Seq<u8>> {
    match content {
        CardContent::Basic { .. } => None,
        CardContent::Cloze { text, .. } => Some(utf8("Cloze"@) + utf8(text@)),
    }
}

impl CardContent {
    /// A question with its answer.
    pub fn new_basic(question: &str, answer: &str) -> (result: CardContent)
        ensures
            result matches CardContent::Basic { question: q, answer: a } && q@ == question@ && a@
                == answer@,
    {
        CardContent::Basic { question: question.to_owned(), answer: answer.to_owned() }
    }

    /// A text with one part deleted.
    pub fn new_cloze(text: &str, start: usize, end: usize) -> (result: CardContent)
        ensures
            result matches CardContent::Cloze { text: t, start: s, end: e } && t@ == text@ && s
                == start && e == end,
    {
        CardContent::Cloze { text: text.to_owned(), start, end }
    }

    /// The content address of the card.
    pub fn hash(&self) -> (result: CardHash)
        ensures
            result == card_hash::hashed(identity(*self)),
    {
        let mut data: Vec<u8> = Vec::new();
        match self {
            CardContent::Basic { question, answer } => {
                data.extend_from_slice("Basic".as_bytes());
                data.extend_from_slice(question.as_str().as_bytes());
                data.extend_from_slice(answer.as_str().as_bytes());
                proof {
                    assert(data@ == identity(*self));
                }
            },
            CardContent::Cloze { text, start, end } => {
                data.extend_from_slice("Cloze".as_bytes());
                data.extend_from_slice(text.as_str().as_bytes());
                push_le_bytes(&mut data, *start as u64, 8);
                push_le_bytes(&mut data, *end as u64, 8);
                proof {
                    assert(data@ == identity(*self));
                }
            },
        }
        CardHash::hash_bytes(data.as_slice())
    }

    /// The content address of the text the card was made from, where that text
    /// gives several cards.
    pub fn family_hash(&self) -> (result: Option<CardHash>)
        ensures
            result == match family_identity(*self) {
                Some(data) => Some(card_hash::hashed(data)),
                None => None,
            },
    {
        match self {
            CardContent::Basic { .. } => None,
            CardContent::Cloze { text, .. } => {
                let mut data: Vec<u8> = Vec::new();
                data.extend_from_slice("Cloze".as_bytes());
                data.extend_from_slice(text.as_str().as_bytes());
                proof {
                    assert(Some(data@) == family_identity(*self));
                }
                Some(CardHash::hash_bytes(data.as_slice()))
            },
        }
    }
}

impl Clone for CardContent {
    fn clone(&self) -> (result: Self)
        ensures
            result == *self,
    {
        match self {
            CardContent::Basic { question, answer } => CardContent::Basic {
                question: question.clone(),
                answer: answer.clone(),
            },
            CardContent::Cloze { text, start, end } => CardContent::Cloze {
                text: text.clone(),
                start: *start,
                end: *end,
            },
        }
    }
}

/// A card, with the deck and the place in a file that it comes from.
pub struct Card {
    deck_name: String,
    file_path: String,
    range: (usize, usize),
    content: CardContent,
    hash: CardHash,
    family: Option<CardHash>,
}

impl Clone for Card {
    fn clone(&self) -> (result: Self)
        ensures
            result == *self,
    {
        Card {
            deck_name: self.deck_name.clone(),
            file_path: self.file_path.clone(),
            range: self.range,
            content: self.content.clone(),
            hash: self.hash,
            family: self.family,
        }
    }
}

impl Card {
    /// The name of the deck.
    pub closed spec fn deck(self) -> Seq<char> {
        self.deck_name@
    }

    /// The file the card is written in.
    pub closed spec fn file(self) -> Seq<char> {
        self.file_path@
    }

    /// The lines of the card in its file.
    pub closed spec fn lines(self) -> (usize, usize) {
        self.range
    }

    /// What the card asks and answers.
    pub closed spec fn asks(self) -> CardContent {
        self.content
    }

    /// The content address of the card.
    pub closed spec fn id(self) -> CardHash {
        self.hash
    }

    /// The content address of the text the card was made from.
    pub closed spec fn family(self) -> Option<CardHash> {
        self.family
    }

    /// A card. Its address is that of its content: the same content in two
    /// places is the same card.
    pub fn new(
        deck_name: String,
        file_path: String,
        range: (usize, usize),
        content: CardContent,
    ) -> (result: Card)
        ensures
            result.deck() == deck_name@,
            result.file() == file_path@,
            result.lines() == range,
            result.asks() == content,
            result.id() == card_hash::hashed(identity(content)),
            result.family() == match family_identity(content) {
                Some(data) => Some(card_hash::hashed(data)),
                None => None,
            },
    {
        let hash = content.hash();
        let family = content.family_hash();
        Card { deck_name, file_path, range, content, hash, family }
    }

    pub fn hash(&self) -> (result: CardHash)
        ensures
            result == self.id(),
    {
        self.hash
    }

    pub fn family_hash(&self) -> (result: Option<CardHash>)
        ensures
            result == self.family(),
    {
        self.family
    }

    pub fn content(&self) -> (result: &CardContent)
        ensures
            *result == self.asks(),
    {
        &self.content
    }

    pub fn deck_name(&self) -> (result: &str)
        ensures
            result@ == self.deck(),
    {
        self.deck_name.as_str()
    }

    pub fn file_path(&self) -> (result: &str)
        ensures
            result@ == self.file(),
    {
        self.file_path.as_str()
    }

    pub fn range(&self) -> (result: (usize, usize))
        ensures
            result == self.lines(),
    {
        self.range
    }
}

/// The number that some bytes stand for, the least significant byte first.
pub open spec fn le_value(bytes: Seq<u8>) -> nat
    decreases bytes.len(),
{
    if bytes.len() == 0 {
        0
    } else {
        bytes[0] as nat + 256 * le_value(bytes.skip(1))
    }
}

/// How many numbers some bytes can tell apart.
pub open spec fn byte_range(width: nat) -> nat
    decreases width,
{
    if width == 0 {
        1
    } else {
        256 * byte_range((width - 1) as nat)
    }
}

/// A number is read back from its bytes.
pub proof fn law_numbers_are_read_back_from_their_bytes(n: nat, width: nat)
    requires
        n < byte_range(width),
    ensures
        le_bytes(n, width).len() == width,
        le_value(le_bytes(n, width)) == n,
    decreases width,
{
    if width > 0 {
        let rest = le_bytes(n / 256, (width - 1) as nat);
        assert(n / 256 < byte_range((width - 1) as nat)) by (nonlinear_arith)
            requires
                n < 256 * byte_range((width - 1) as nat),
        ;
        law_numbers_are_read_back_from_their_bytes(n / 256, (width - 1) as nat);
        assert(le_bytes(n, width).skip(1) =~= rest);
    }
}

/// Two deletions of one text are two cards: what a card is known by holds where
/// its deletion begins and ends. All of them belong to one family, which is known
/// by the text alone.
pub proof fn law_deletions_of_one_text_are_told_apart(a: CardContent, b: CardContent)
    requires
        a is Cloze,
        b is Cloze,
        a->text@ == b->text@,
    ensures
        identity(a) == identity(b) ==> a->start == b->start && a->end == b->end,
        family_identity(a) == family_identity(b),
        family_identity(a) is Some,
        identity(a).take((family_identity(a)->0).len() as int) == family_identity(a)->0,
        identity(a).len() == (family_identity(a)->0).len() + 16,
{
    let front = family_identity(a)->0;
    let n = front.len() as int;
    reveal_with_fuel(byte_range, 9);
    assert(byte_range(8) == 0x1_0000_0000_0000_0000);
    law_numbers_are_read_back_from_their_bytes(a->start as nat, 8);
    law_numbers_are_read_back_from_their_bytes(b->start as nat, 8);
    law_numbers_are_read_back_from_their_bytes(a->end as nat, 8);
    law_numbers_are_read_back_from_their_bytes(b->end as nat, 8);
    let x = identity(a);
    let y = identity(b);
    assert(x.take(n) =~= front);
    assert(x.subrange(n, n + 8) =~= le_bytes(a->start as nat, 8));
    assert(x.subrange(n + 8, n + 16) =~= le_bytes(a->end as nat, 8));
    assert(y.subrange(n, n + 8) =~= le_bytes(b->start as nat, 8));
    assert(y.subrange(n + 8, n + 16) =~= le_bytes(b->end as nat, 8));
}

/// A question card is known by its question and then its answer, and belongs to
/// no family.
pub proof fn law_question_cards_are_known_by_both_sides(c: CardContent)
    requires
        c is Basic,
    ensures
        family_identity(c) is None,
        exists|front: Seq<u8>|
            #[trigger] (front + utf8(c->question@) + utf8(c->answer@)) == identity(c) && front
                == utf8("Basic"@),
{
    let front = utf8("Basic"@);
    assert(front + utf8(c->question@) + utf8(c->answer@) == identity(c));
}

} // verus!
