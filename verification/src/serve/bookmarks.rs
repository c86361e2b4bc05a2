//! Bookmarked cards.

use vstd::prelude::*;
use crate::drill::server;
use crate::list;
use crate::path;
use crate::text;
use crate::types::card::{Card, CardContent};
use crate::types::card_hash::CardHash;
use crate::types::timestamp::Timestamp;

verus! {

/// A bookmark on a card.
pub struct Bookmark {
    pub card_hash: CardHash,
    pub note: Option<String>,
    pub created_at: Timestamp,
}

/// What the note form sends.
pub struct NoteForm {
    pub note: String,
}

/// The bytes of a card that a preview shows.
pub const PREVIEW_BYTES: usize = 120;

/// The text that stands for a card in a list: its question, or its cloze text.
pub open spec fn front(content: CardContent) -> Seq<char> {
    match content {
        CardContent::Basic { question, .. } => question@,
        CardContent::Cloze { text, .. } => text@,
    }
}

/// A text, trimmed, and cut before it grows over the bytes of a preview.
pub open spec fn preview(s: Seq<char>) -> Seq<char> {
    let t = text::trim(s);
    if text::byte_len(t) > PREVIEW_BYTES {
        t.take(text::fitting(t, PREVIEW_BYTES as nat) as int) + "\u{2026}"@
    } else {
        t
    }
}

/// The preview of a card.
pub fn card_preview(content: &CardContent) -> (result: String)
    ensures
        result@ == preview(front(*content)),
{
    let raw: &str = match content {
        CardContent::Basic { question, .. } => question.as_str(),
        CardContent::Cloze { text, .. } => text.as_str(),
    };
    let trimmed = text::trim_of(raw);
    if text::byte_length(trimmed) > PREVIEW_BYTES {
        let v = text::chars_of(trimmed);
        let end = text::fitting_of(&v, PREVIEW_BYTES);
        let head = text::string_of(&v, 0, end);
        proof {
            assert(head@ == trimmed@.take(end as int));
        }
        text::cat2(head.as_str(), "\u{2026}")
    } else {
        trimmed.to_owned()
    }
}

/// What a preview shows of a text that is too long is as much of it as fits,
/// and never part of a character.
pub proof fn law_previews_fit(s: Seq<char>)
    ensures
        ({
            let t = text::trim(s);
            let k = text::fitting(t, PREVIEW_BYTES as nat) as int;
            text::byte_len(t) > PREVIEW_BYTES ==> {
                &&& 0 <= k < t.len()
                &&& preview(s) == t.take(k) + "\u{2026}"@
                &&& text::byte_len(t.take(k)) <= PREVIEW_BYTES
                &&& text::byte_len(t.take(k + 1)) > PREVIEW_BYTES
            }
        }),
{
    let t = text::trim(s);
    text::lemma_fitting(t, PREVIEW_BYTES as nat);
    assert(t.take(t.len() as int) == t);
}

/// Where a card with this hash stands in a list; the length of the list if
/// there is none.
pub open spec fn card_index(cards: Seq<Card>, hash: CardHash) -> int
    decreases cards.len(),
{
    if cards.len() == 0 || cards[0].id() == hash {
        0
    } else {
        1 + card_index(cards.skip(1), hash)
    }
}

/// The first card with this hash.
pub fn find_card_by_hash<'a>(cards: &'a Vec<Card>, hash: CardHash) -> (result: Option<&'a Card>)
    ensures
        match result {
            Some(c) => card_index(cards@, hash) < cards@.len() && *c == cards@[card_index(
                cards@,
                hash,
            )] && c.id() == hash && cards@.contains(*c),
            None => card_index(cards@, hash) == cards@.len() && !server::ids(cards@).contains(hash),
        },
{
    let mut i: usize = 0;
    proof {
        assert(cards@.skip(0) == cards@);
    }
    while i < cards.len()
        invariant
            i <= cards@.len(),
            forall|j: int| 0 <= j < i ==> (#[trigger] cards@[j]).id() != hash,
            i + card_index(cards@.skip(i as int), hash) == card_index(cards@, hash),
        decreases cards@.len() - i,
    {
        proof {
            assert(cards@.skip(i as int).skip(1) == cards@.skip(i + 1));
        }
        if cards[i].hash() == hash {
            proof {
                assert(cards@[i as int] == cards@[card_index(cards@, hash)]);
            }
            return Some(&cards[i]);
        }
        i += 1;
    }
    proof {
        let ids = server::ids(cards@);
        assert forall|j: int| 0 <= j < ids.len() implies ids[j] != hash by {
            assert(ids[j] == cards@[j].id());
        }
    }
    None
}

/// Whether a bookmark is on a card of the collection.
pub open spec fn is_active(bookmark: Bookmark, cards: Seq<Card>) -> bool {
    server::ids(cards).contains(bookmark.card_hash)
}

/// The places of the bookmarks whose card the collection still holds, and of
/// those whose card it does not.
pub fn sort_bookmarks(bookmarks: &Vec<Bookmark>, cards: &Vec<Card>) -> (result: (
    Vec<usize>,
    Vec<usize>,
))
    ensures
        result.0@ == list::keep(
            places(bookmarks@.len()),
            |i: usize| is_active(bookmarks@[i as int], cards@),
        ),
        result.1@ == list::keep(
            places(bookmarks@.len()),
            |i: usize| !is_active(bookmarks@[i as int], cards@),
        ),
{
    let ghost all = places(bookmarks@.len());
    let ghost p = |i: usize| is_active(bookmarks@[i as int], cards@);
    let ghost q = |i: usize| !is_active(bookmarks@[i as int], cards@);
    let mut active: Vec<usize> = Vec::new();
    let mut orphaned: Vec<usize> = Vec::new();
    let mut i: usize = 0;
    while i < bookmarks.len()
        invariant
            i <= bookmarks@.len(),
            all == places(bookmarks@.len()),
            p == (|i: usize| is_active(bookmarks@[i as int], cards@)),
            q == (|i: usize| !is_active(bookmarks@[i as int], cards@)),
            active@ == list::keep(all.take(i as int), p),
            orphaned@ == list::keep(all.take(i as int), q),
        decreases bookmarks@.len() - i,
    {
        proof {
            assert(all[i as int] == i);
            list::lemma_keep_step(all, p, i as int);
            list::lemma_keep_step(all, q, i as int);
        }
        let found = find_card_by_hash(cards, bookmarks[i].card_hash);
        proof {
            if found is Some {
                let k = card_index(cards@, bookmarks@[i as int].card_hash);
                lemma_card_index(cards@, bookmarks@[i as int].card_hash);
                assert(server::ids(cards@)[k] == bookmarks@[i as int].card_hash);
            }
        }
        if found.is_some() {
            active.push(i);
        } else {
            orphaned.push(i);
        }
        i += 1;
    }
    proof {
        assert(all.take(i as int) == all);
    }
    (active, orphaned)
}

proof fn lemma_card_index(cards: Seq<Card>, hash: CardHash)
    ensures
        0 <= card_index(cards, hash) <= cards.len(),
    decreases cards.len(),
{
    if cards.len() > 0 && cards[0].id() != hash {
        lemma_card_index(cards.skip(1), hash);
    }
}

/// The numbers from 0 up to `n`.
pub open spec fn places(n: nat) -> Seq<usize> {
    Seq::new(n, |i: int| i as usize)
}

/// A note as it is kept: trimmed, and none at all if nothing is left.
pub open spec fn kept_note(note: Seq<char>) -> Option<Seq<char>> {
    if text::trim(note).len() == 0 {
        None
    } else {
        Some(text::trim(note))
    }
}

/// The note that a form asks to keep.
pub fn note_to_keep(form: &NoteForm) -> (result: Option<String>)
    ensures
        text::opt_text(result) == kept_note(form.note@),
{
    let trimmed = text::trim_of(form.note.as_str());
    if trimmed.is_empty() {
        None
    } else {
        Some(trimmed.to_owned())
    }
}

/// The path of a card's file as a list shows it: relative to the collection
/// where it lies in it.
pub open spec fn shown_path(file: Seq<char>, coll_dir: Seq<char>) -> Seq<char> {
    match path::inside(file, coll_dir) {
        Some(rel) => rel,
        None => file,
    }
}

/// The path of a card's file as a list shows it.
pub fn relative_path(file: &str, coll_dir: &str) -> (result: String)
    ensures
        result@ == shown_path(file@, coll_dir@),
{
    match path::strip_prefix(file, coll_dir) {
        Some(rel) => rel,
        None => file.to_owned(),
    }
}

/// A preview of a short text is the text without white space around it. One of
/// a longer text is its beginning, as much of it as fits into 120 bytes, and an
/// ellipsis.
pub proof fn law_previews_are_beginnings(s: Seq<char>)
    ensures
        text::byte_len(text::trim(s)) <= 120 ==> preview(s) == text::trim(s),
        text::byte_len(text::trim(s)) > 120 ==> {
            let k = preview(s).len() - 1;
            &&& 0 <= k < text::trim(s).len()
            &&& preview(s) == text::trim(s).take(k).push('\u{2026}')
            &&& text::byte_len(text::trim(s).take(k)) <= 120
            &&& text::byte_len(text::trim(s).take(k + 1)) > 120
        },
{
    law_previews_fit(s);
    reveal_strlit("\u{2026}");
    let t = text::trim(s);
    if text::byte_len(t) > 120 {
        let k = text::fitting(t, PREVIEW_BYTES as nat) as int;
        assert(preview(s) =~= t.take(k).push('\u{2026}'));
    }
}

/// A card is shown by its question, or by the text that a part is hidden of.
pub proof fn law_cards_are_shown_by_their_front(content: CardContent)
    ensures
        content matches CardContent::Basic { question, answer } ==> front(content) == question@,
        content matches CardContent::Cloze { text, start, end } ==> front(content) == text@,
{
}

/// A card is found by its hash, the first that has it; it is missing only if no
/// card has it.
pub proof fn law_the_first_card_with_a_hash_is_found(cards: Seq<Card>, hash: CardHash)
    ensures
        ({
            let i = card_index(cards, hash);
            &&& 0 <= i <= cards.len()
            &&& i < cards.len() ==> cards[i].id() == hash
            &&& forall|j: int| 0 <= j < i ==> (#[trigger] cards[j]).id() != hash
        }),
    decreases cards.len(),
{
    if cards.len() > 0 && cards[0].id() != hash {
        law_the_first_card_with_a_hash_is_found(cards.skip(1), hash);
        assert forall|j: int| 0 <= j < card_index(cards, hash) implies (
        #[trigger] cards[j]).id() != hash by {
            if j > 0 {
                assert(cards[j] == cards.skip(1)[j - 1]);
            }
        }
    }
}

/// Each bookmark stands on exactly one of the two lists: with the cards that are
/// there if one has its hash, with the missing ones otherwise; both lists are in
/// order.
pub proof fn law_each_bookmark_is_listed_once(
    bookmarks: Seq<Bookmark>,
    cards: Seq<Card>,
    i: usize,
)
    requires
        i < bookmarks.len() <= usize::MAX,
    ensures
        ({
            let here = list::keep(
                places(bookmarks.len()),
                |i: usize| is_active(bookmarks[i as int], cards),
            );
            let gone = list::keep(
                places(bookmarks.len()),
                |i: usize| !is_active(bookmarks[i as int], cards),
            );
            let known = exists|j: int|
                0 <= j < cards.len() && (#[trigger] cards[j]).id() == bookmarks[i as int].card_hash;
            &&& here.contains(i) <==> known
            &&& gone.contains(i) <==> !known
            &&& list::is_part(here, places(bookmarks.len()))
            &&& list::is_part(gone, places(bookmarks.len()))
            &&& places(bookmarks.len())[i as int] == i
        }),
{
    let p = |i: usize| is_active(bookmarks[i as int], cards);
    let q = |i: usize| !is_active(bookmarks[i as int], cards);
    let all = places(bookmarks.len());
    list::law_keeping_keeps_order(all, p);
    list::law_keeping_keeps_order(all, q);
    list::lemma_keep(all, p);
    list::lemma_keep(all, q);
    assert(all[i as int] == i);
    assert(all.contains(i));
    let ids = server::ids(cards);
    if ids.contains(bookmarks[i as int].card_hash) {
        let j = choose|j: int| 0 <= j < ids.len() && ids[j] == bookmarks[i as int].card_hash;
        assert(cards[j].id() == bookmarks[i as int].card_hash);
    }
    if exists|j: int|
        0 <= j < cards.len() && (#[trigger] cards[j]).id() == bookmarks[i as int].card_hash {
        let j = choose|j: int|
            0 <= j < cards.len() && (#[trigger] cards[j]).id() == bookmarks[i as int].card_hash;
        assert(ids[j] == bookmarks[i as int].card_hash);
    }
}

/// A note is kept without white space around it, and not at all if it holds
/// nothing else.
pub proof fn law_blank_notes_are_not_kept(note: Seq<char>)
    ensures
        kept_note(note) is None <==> forall|i: int|
            0 <= i < note.len() ==> text::is_white_space(#[trigger] note[i]),
        kept_note(note) matches Some(t) ==> t == text::trim(note) && t.len() > 0,
{
    text::law_trimming_takes_white_space_only(note);
    let t = text::trim(note);
    let (i, j) = choose|i: int, j: int|
        {
            &&& 0 <= i <= j <= note.len()
            &&& t == #[trigger] note.subrange(i, j)
            &&& forall|k: int|
                0 <= k < i || j <= k < note.len() ==> text::is_white_space(#[trigger] note[k])
        };
    if t.len() > 0 {
        assert(note[i] == t[0]);
    }
}

/// A bookmarked card is shown with its path below the collection; one from
/// elsewhere is shown with its whole path.
pub proof fn law_files_are_shown_below_their_collection(
    dir: Seq<char>,
    name: Seq<char>,
    file: Seq<char>,
)
    requires
        path::is_name(name),
        path::inside(file, dir) is None,
    ensures
        shown_path(path::join_path(dir, name), dir) == name,
        shown_path(file, dir) == file,
{
    path::law_files_keep_their_name_in_a_folder(dir, name);
}

} // verus!
