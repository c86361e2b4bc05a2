//! Reading the cards of a file.

use vstd::prelude::*;
use crate::check::DuplicateCard;
use crate::error::{fail, ErrorReport, Fallible, ParserError};
use crate::list;
use crate::order;
use crate::serve::edit;
use crate::serve::migration;
use crate::serve::frontmatter;
use crate::text;
use crate::toml_table;
use crate::types::card;
use crate::types::card::{Card, CardContent};
use crate::types::card_hash;
use crate::types::card_hash::CardHash;

verus! {

/// A text without the brackets around its deletions, and for each deletion its
/// first and its last byte in that text. Brackets stay that enclose nothing,
/// and those of an image or a link: behind an exclamation mark, or in front of
/// a parenthesis. `i` is where reading goes on, behind what has become `clean`
/// and `found`.
pub open spec fn cloze_from(
    s: Seq<char>,
    i: int,
    clean: Seq<char>,
    found: Seq<(nat, nat)>,
) -> (Seq<char>, Seq<(nat, nat)>)
    decreases s.len() - i,
{
    let open = i + text::first_index(s.skip(i), '[');
    let close = open + 1 + text::first_index(s.skip(open + 1), ']');
    if i < 0 || open < i || open >= s.len() || close <= open || close >= s.len() {
        (clean + s.skip(i), found)
    } else if stays(s, open, close) {
        cloze_from(s, close + 1, clean + s.subrange(i, close + 1), found)
    } else {
        let head = clean + s.subrange(i, open);
        let all = head + s.subrange(open + 1, close);
        cloze_from(
            s,
            close + 1,
            all,
            found.push((text::byte_len(head), (text::byte_len(all) - 1) as nat)),
        )
    }
}

/// Whether the brackets at these places enclose no deletion.
pub open spec fn stays(s: Seq<char>, open: int, close: int) -> bool {
    ||| close == open + 1
    ||| open > 0 && s[open - 1] == '!'
    ||| close + 1 < s.len() && s[close + 1] == '('
}

/// The text of a cloze card without its brackets, and its deletions.
pub open spec fn cloze(s: Seq<char>) -> (Seq<char>, Seq<(nat, nat)>) {
    cloze_from(s, 0, seq![], seq![])
}

/// Deletions as the rules see them.
pub open spec fn places(v: Seq<(usize, usize)>) -> Seq<(nat, nat)> {
    v.map_values(|d: (usize, usize)| (d.0 as nat, d.1 as nat))
}

proof fn lemma_byte_len_split(a: Seq<char>, b: Seq<char>)
    ensures
        text::byte_len(a + b) == text::byte_len(a) + text::byte_len(b),
    decreases a.len(),
{
    if a.len() == 0 {
        assert(a + b == b);
        assert(a == Seq::<char>::empty());
    } else {
        text::lemma_byte_len_first(a);
        text::lemma_byte_len_first(a + b);
        assert((a + b).skip(1) == a.skip(1) + b);
        lemma_byte_len_split(a.skip(1), b);
    }
}

proof fn lemma_byte_len_positive(s: Seq<char>)
    requires
        s.len() > 0,
    ensures
        text::byte_len(s) > 0,
{
    text::lemma_byte_len_first(s);
}

/// Reads the text of a cloze card.
pub fn cloze_of(s: &str) -> (result: (String, Vec<(usize, usize)>))
    ensures
        (result.0@, places(result.1@)) == cloze(s@),
        forall|k: int| 0 <= k < result.1@.len() ==> (#[trigger] result.1@[k]).1 < usize::MAX,
{
    let v = text::chars_of(s);
    let mut clean = String::new();
    let mut found: Vec<(usize, usize)> = Vec::new();
    let mut i: usize = 0;
    proof {
        assert(clean@ =~= Seq::<char>::empty());
        assert(places(found@) =~= Seq::<(nat, nat)>::empty());
    }
    while i < v.len()
        invariant
            i <= v@.len(),
            v@ == s@,
            cloze_from(s@, i as int, clean@, places(found@)) == cloze(s@),
            forall|k: int| 0 <= k < found@.len() ==> (#[trigger] found@[k]).1 < usize::MAX,
        ensures
            i <= v@.len(),
            forall|k: int| 0 <= k < found@.len() ==> (#[trigger] found@[k]).1 < usize::MAX,
            cloze(s@) == (clean@ + s@.skip(i as int), places(found@)),
        decreases v@.len() - i,
    {
        let open = text::index_from(&v, i, '[');
        if open >= v.len() {
            break ;
        }
        let close = text::index_from(&v, open + 1, ']');
        if close >= v.len() {
            break ;
        }
        let kept = close == open + 1 || (open > 0 && v[open - 1] == '!') || (close + 1 < v.len()
            && v[close + 1] == '(');
        if kept {
            let piece = text::string_of(&v, i, close + 1);
            clean.append(piece.as_str());
        } else {
            let head = text::string_of(&v, i, open);
            let hidden = text::string_of(&v, open + 1, close);
            clean.append(head.as_str());
            let start: usize = text::byte_length(clean.as_str());
            let ghost before = clean@;
            clean.append(hidden.as_str());
            proof {
                lemma_byte_len_split(before, hidden@);
                lemma_byte_len_positive(hidden@);
            }
            let end: usize = text::byte_length(clean.as_str()) - 1;
            let ghost earlier = found@;
            found.push((start, end));
            proof {
                assert(places(found@) =~= places(earlier).push((start as nat, end as nat)));
            }
        }
        i = close + 1;
    }
    let rest = text::string_of(&v, i, v.len());
    proof {
        assert(rest@ == s@.skip(i as int));
    }
    clean.append(rest.as_str());
    (clean, found)
}

/// What a card asks and answers, as texts.
pub enum Asked {
    Basic(Seq<char>, Seq<char>),
    Cloze(Seq<char>, nat, nat),
}

/// What a card asks and answers, as texts.
pub open spec fn asked(content: CardContent) -> Asked {
    match content {
        CardContent::Basic { question, answer } => Asked::Basic(question@, answer@),
        CardContent::Cloze { text, start, end } => Asked::Cloze(text@, start as nat, end as nat),
    }
}

/// A card in a file: its first line, the line that it ends at, and what it
/// asks.
pub struct Found {
    pub start: int,
    pub end: int,
    pub asks: Asked,
}

/// What is wrong with a file, and in which line.
pub struct Fault {
    pub message: Seq<char>,
    pub line: int,
}

/// The first line from `i` on that begins a card or separates two; the number
/// of lines if there is none.
pub open spec fn next_start(lines: Seq<Seq<char>>, i: int) -> int
    decreases lines.len() - i,
{
    if i >= lines.len() {
        lines.len() as int
    } else if edit::ends_block(lines[i]) {
        i
    } else {
        next_start(lines, i + 1)
    }
}

/// The first line from `i` on and before `j` that begins an answer; `j` if
/// there is none.
pub open spec fn answer_in(lines: Seq<Seq<char>>, i: int, j: int) -> int
    decreases j - i,
{
    if i >= j {
        j
    } else if text::starts_with(lines[i], "A:"@) {
        i
    } else {
        answer_in(lines, i + 1, j)
    }
}

/// The text of the lines from `i` on and before `j`, without the tag that the
/// first of them begins with.
pub open spec fn tagged(lines: Seq<Seq<char>>, i: int, j: int) -> Seq<char> {
    text::trim(text::join(seq![lines[i].skip(2)] + lines.subrange(i + 1, j), "\n"@))
}

/// The cards of the deletions of a text.
pub open spec fn cloze_cards(
    s: Seq<char>,
    deletions: Seq<(nat, nat)>,
    start: int,
    end: int,
) -> Seq<Found> {
    deletions.map_values(
        |d: (nat, nat)| Found { start, end, asks: Asked::Cloze(s, d.0, d.1) },
    )
}

/// The cards in the block of lines from `i` on and before `j`. A question has
/// one answer; a cloze text gives a card for each of its deletions; anything
/// else gives none.
pub open spec fn block(
    lines: Seq<Seq<char>>,
    i: int,
    j: int,
    offset: int,
) -> Result<Seq<Found>, Fault> {
    let start = offset + i;
    let end = offset + if j < lines.len() {
        j
    } else {
        lines.len() - 1
    };
    let k = answer_in(lines, i, j);
    if text::starts_with(lines[i], "Q:"@) {
        let m = answer_in(lines, k + 1, j);
        if k >= j {
            Err(Fault { message: "Found a question without an answer."@, line: start })
        } else if m < j {
            Err(Fault { message: "Found a second answer to a question."@, line: offset + m })
        } else {
            Ok(
                seq![
                    Found { start, end, asks: Asked::Basic(tagged(lines, i, k), tagged(lines, k, j)) },
                ],
            )
        }
    } else if k < j {
        Err(Fault { message: "Found an answer without a question."@, line: offset + k })
    } else if text::starts_with(lines[i], "C:"@) {
        let (s, deletions) = cloze(tagged(lines, i, j));
        if deletions.len() == 0 {
            Err(Fault { message: "Found a cloze text without a deletion."@, line: start })
        } else {
            Ok(cloze_cards(s, deletions, start, end))
        }
    } else {
        Ok(seq![])
    }
}

/// Some cards, and behind them those that are read next.
pub open spec fn followed_by(
    cards: Seq<Found>,
    rest: Result<Seq<Found>, Fault>,
) -> Result<Seq<Found>, Fault> {
    match rest {
        Ok(more) => Ok(cards + more),
        Err(fault) => Err(fault),
    }
}

/// The cards in the lines from `i` on, or the first thing that is wrong with
/// them. A block goes from a line that begins a card, or separates two, to the
/// next such line; what stands before the first one is a block too. `offset` is
/// the number of lines of the file in front of these.
pub open spec fn read_from(lines: Seq<Seq<char>>, i: int, offset: int) -> Result<
    Seq<Found>,
    Fault,
>
    decreases lines.len() - i,
{
    if i < 0 || i >= lines.len() {
        Ok(seq![])
    } else {
        proof {
            lemma_next_start(lines, i + 1);
        }
        let j = next_start(lines, i + 1);
        match block(lines, i, j, offset) {
            Ok(cards) => followed_by(cards, read_from(lines, j, offset)),
            Err(fault) => Err(fault),
        }
    }
}

/// The cards in a text.
pub open spec fn read(content: Seq<char>, offset: int) -> Result<Seq<Found>, Fault> {
    read_from(text::lines(content), 0, offset)
}

/// A card as it was found.
pub open spec fn found_of(c: Card) -> Found {
    Found { start: c.lines().0 as int, end: c.lines().1 as int, asks: asked(c.asks()) }
}

/// Cards as they were found.
pub open spec fn founds(cards: Seq<Card>) -> Seq<Found> {
    cards.map_values(|c: Card| found_of(c))
}

/// Whether a card has the addresses of what it asks.
pub open spec fn addressed(c: Card) -> bool {
    &&& c.id() == card_hash::hashed(card::identity(c.asks()))
    &&& c.family() == match card::family_identity(c.asks()) {
        Some(data) => Some(card_hash::hashed(data)),
        None => None,
    }
}

/// Whether all cards are of one deck and one file, have the addresses of what
/// they ask, and hide what ends before the last number there is.
pub open spec fn all_in(cards: Seq<Card>, deck: Seq<char>, file: Seq<char>) -> bool {
    forall|i: int|
        0 <= i < cards.len() ==> (#[trigger] cards[i]).deck() == deck && cards[i].file() == file
            && addressed(cards[i]) && migration::bounded(cards[i])
}

/// The next start is the first line from `i` on that is one.
pub proof fn lemma_next_start(lines: Seq<Seq<char>>, i: int)
    requires
        0 <= i <= lines.len(),
    ensures
        i <= next_start(lines, i) <= lines.len(),
        next_start(lines, i) < lines.len() ==> edit::ends_block(lines[next_start(lines, i)]),
        forall|k: int| i <= k < next_start(lines, i) ==> !edit::ends_block(#[trigger] lines[k]),
    decreases lines.len() - i,
{
    if i < lines.len() && !edit::ends_block(lines[i]) {
        lemma_next_start(lines, i + 1);
    }
}

proof fn lemma_answer_in(lines: Seq<Seq<char>>, i: int, j: int)
    requires
        i <= j,
    ensures
        i <= answer_in(lines, i, j) <= j,
        answer_in(lines, i, j) < j ==> text::starts_with(lines[answer_in(lines, i, j)], "A:"@),
    decreases j - i,
{
    if i < j && !text::starts_with(lines[i], "A:"@) {
        lemma_answer_in(lines, i + 1, j);
    }
}

fn next_start_of(lines: &Vec<String>, i: usize) -> (result: usize)
    requires
        i <= lines@.len(),
    ensures
        i <= result <= lines@.len(),
        result == next_start(text::views(lines@), i as int),
{
    let ghost all = text::views(lines@);
    let mut j: usize = i;
    while j < lines.len() && !edit::is_card_terminator(lines[j].as_str())
        invariant
            i <= j <= lines@.len(),
            all == text::views(lines@),
            next_start(all, i as int) == next_start(all, j as int),
        decreases lines@.len() - j,
    {
        proof {
            assert(all[j as int] == lines@[j as int]@);
        }
        j += 1;
    }
    proof {
        if j < lines@.len() {
            assert(all[j as int] == lines@[j as int]@);
        }
    }
    j
}

fn answer_of(lines: &Vec<String>, i: usize, j: usize) -> (result: usize)
    requires
        i <= j <= lines@.len(),
    ensures
        i <= result <= j,
        result == answer_in(text::views(lines@), i as int, j as int),
{
    let ghost all = text::views(lines@);
    let mut k: usize = i;
    while k < j && !text::has_prefix(lines[k].as_str(), "A:")
        invariant
            i <= k <= j <= lines@.len(),
            all == text::views(lines@),
            answer_in(all, i as int, j as int) == answer_in(all, k as int, j as int),
        decreases j - k,
    {
        proof {
            assert(all[k as int] == lines@[k as int]@);
        }
        k += 1;
    }
    proof {
        if k < j {
            assert(all[k as int] == lines@[k as int]@);
        }
    }
    k
}

fn tagged_of(lines: &Vec<String>, i: usize, j: usize) -> (result: String)
    requires
        i < j <= lines@.len(),
        lines@[i as int]@.len() >= 2,
    ensures
        result@ == tagged(text::views(lines@), i as int, j as int),
{
    let ghost all = text::views(lines@);
    let v = text::chars_of(lines[i].as_str());
    let mut joined = text::string_of(&v, 2, v.len());
    let ghost head = all[i as int].skip(2);
    let mut k: usize = i + 1;
    proof {
        assert(all[i as int] == lines@[i as int]@);
        assert(joined@ == head);
        assert(seq![head] + all.subrange(i + 1, i + 1) =~= seq![head]);
    }
    while k < j
        invariant
            i < k <= j <= lines@.len(),
            all == text::views(lines@),
            joined@ == text::join(seq![head] + all.subrange(i + 1, k as int), "\n"@),
        decreases j - k,
    {
        let ghost done = seq![head] + all.subrange(i + 1, k as int);
        let ghost more = seq![head] + all.subrange(i + 1, k + 1);
        proof {
            assert(all[k as int] == lines@[k as int]@);
            assert(more.drop_last() =~= done);
            assert(more.last() == all[k as int]);
        }
        joined.append("\n");
        joined.append(lines[k].as_str());
        k += 1;
    }
    text::trim_of(joined.as_str()).to_owned()
}

/// Reads files of one deck.
pub struct Parser {
    pub deck_name: String,
    pub file_path: String,
    pub line_offset: usize,
}

/// What a fault in a file says.
pub open spec fn fault_text(fault: Fault, file: Seq<char>) -> Seq<char> {
    fault.message + " Location: "@ + file + ":"@ + text::decimal((fault.line + 1) as nat)
}

impl Parser {
    /// A parser for a file. `line_offset` is the number of lines of the file in
    /// front of the text that is read.
    pub fn new(deck_name: String, file_path: String, line_offset: usize) -> (result: Parser)
        ensures
            result.deck_name == deck_name,
            result.file_path == file_path,
            result.line_offset == line_offset,
    {
        Parser { deck_name, file_path, line_offset }
    }

    fn fault<T>(&self, message: &str, line: usize) -> (result: Fallible<T>)
        ensures
            result matches Err(e) && e@ == fault_text(
                Fault { message: message@, line: line as int },
                self.file_path@,
            ),
    {
        Err(
            ErrorReport::from_parser(
                &ParserError {
                    message: message.to_owned(),
                    file_path: self.file_path.clone(),
                    line_num: line,
                },
            ),
        )
    }

    fn card(&self, start: usize, end: usize, content: CardContent) -> (result: Card)
        ensures
            found_of(result) == (Found {
                start: start as int,
                end: end as int,
                asks: asked(content),
            }),
            result.deck() == self.deck_name@,
            result.file() == self.file_path@,
            addressed(result),
    {
        Card::new(self.deck_name.clone(), self.file_path.clone(), (start, end), content)
    }

    fn cloze_cards(&self, text: &str, deletions: &Vec<(usize, usize)>, start: usize, end: usize)
        -> (result: Vec<Card>)
        requires
            forall|k: int| 0 <= k < deletions@.len() ==> (#[trigger] deletions@[k]).1 < usize::MAX,
        ensures
            founds(result@) == cloze_cards(
                text@,
                places(deletions@),
                start as int,
                end as int,
            ),
            all_in(result@, self.deck_name@, self.file_path@),
    {
        let mut cards: Vec<Card> = Vec::new();
        let mut i: usize = 0;
        while i < deletions.len()
            invariant
                i <= deletions@.len(),
                forall|k: int|
                    0 <= k < deletions@.len() ==> (#[trigger] deletions@[k]).1 < usize::MAX,
                cards@.len() == i,
                all_in(cards@, self.deck_name@, self.file_path@),
                forall|k: int|
                    0 <= k < i ==> found_of(#[trigger] cards@[k]) == cloze_cards(
                        text@,
                        places(deletions@),
                        start as int,
                        end as int,
                    )[k],
            decreases deletions@.len() - i,
        {
            let d = deletions[i];
            cards.push(self.card(start, end, CardContent::new_cloze(text, d.0, d.1)));
            i += 1;
        }
        proof {
            assert(founds(cards@) =~= cloze_cards(
                text@,
                places(deletions@),
                start as int,
                end as int,
            ));
        }
        cards
    }

    fn block(&self, lines: &Vec<String>, i: usize, j: usize) -> (result: Fallible<Vec<Card>>)
        requires
            i < j <= lines@.len(),
            self.line_offset + lines@.len() <= usize::MAX,
        ensures
            match block(text::views(lines@), i as int, j as int, self.line_offset as int) {
                Ok(found) => result matches Ok(cards) && founds(cards@) == found && all_in(
                    cards@,
                    self.deck_name@,
                    self.file_path@,
                ),
                Err(fault) => result matches Err(e) && e@ == fault_text(fault, self.file_path@),
            },
    {
        let ghost all = text::views(lines@);
        proof {
            assert(all[i as int] == lines@[i as int]@);
            reveal_strlit("Q:");
            reveal_strlit("A:");
            reveal_strlit("C:");
        }
        let start: usize = self.line_offset + i;
        let end: usize = self.line_offset + if j < lines.len() {
            j
        } else {
            lines.len() - 1
        };
        let k = answer_of(lines, i, j);
        if text::has_prefix(lines[i].as_str(), "Q:") {
            if k >= j {
                return self.fault("Found a question without an answer.", start);
            }
            let m = answer_of(lines, k + 1, j);
            if m < j {
                return self.fault("Found a second answer to a question.", self.line_offset + m);
            }
            proof {
                lemma_answer_in(all, i as int, j as int);
                assert(all[k as int] == lines@[k as int]@);
                assert(!text::starts_with(all[i as int], "A:"@)) by {
                    if text::starts_with(all[i as int], "A:"@) {
                        assert(all[i as int][0] == all[i as int].subrange(0, 2)[0]);
                    }
                }
            }
            let question = tagged_of(lines, i, k);
            let answer = tagged_of(lines, k, j);
            let mut cards: Vec<Card> = Vec::new();
            cards.push(
                self.card(start, end, CardContent::new_basic(question.as_str(), answer.as_str())),
            );
            proof {
                assert(founds(cards@) =~= seq![found_of(cards@[0])]);
            }
            Ok(cards)
        } else if k < j {
            self.fault("Found an answer without a question.", self.line_offset + k)
        } else if text::has_prefix(lines[i].as_str(), "C:") {
            let raw = tagged_of(lines, i, j);
            let (text, deletions) = cloze_of(raw.as_str());
            if deletions.len() == 0 {
                return self.fault("Found a cloze text without a deletion.", start);
            }
            Ok(self.cloze_cards(text.as_str(), &deletions, start, end))
        } else {
            let cards: Vec<Card> = Vec::new();
            proof {
                assert(founds(cards@) =~= Seq::<Found>::empty());
            }
            Ok(cards)
        }
    }

    /// The cards in a text, in the order in which they stand.
    pub fn parse(&self, content: &str) -> (result: Fallible<Vec<Card>>)
        requires
            self.line_offset + text::lines(content@).len() <= usize::MAX,
        ensures
            match read(content@, self.line_offset as int) {
                Ok(found) => result matches Ok(cards) && founds(cards@) == found && all_in(
                    cards@,
                    self.deck_name@,
                    self.file_path@,
                ),
                Err(fault) => result matches Err(e) && e@ == fault_text(fault, self.file_path@),
            },
    {
        let lines = text::lines_of(content);
        let ghost all = text::views(lines@);
        let ghost offset = self.line_offset as int;
        let mut cards: Vec<Card> = Vec::new();
        let mut i: usize = 0;
        proof {
            assert(founds(cards@) =~= Seq::<Found>::empty());
            match read_from(all, 0, offset) {
                Ok(found) => {
                    assert(Seq::<Found>::empty() + found =~= found);
                },
                Err(_) => {},
            }
        }
        while i < lines.len()
            invariant
                i <= lines@.len(),
                all == text::views(lines@),
                all == text::lines(content@),
                offset == self.line_offset,
                self.line_offset + lines@.len() <= usize::MAX,
                all_in(cards@, self.deck_name@, self.file_path@),
                read(content@, offset) == followed_by(
                    founds(cards@),
                    read_from(all, i as int, offset),
                ),
            decreases lines@.len() - i,
        {
            let j = next_start_of(&lines, i + 1);
            let mut more = self.block(&lines, i, j)?;
            proof {
                match read_from(all, j as int, offset) {
                    Ok(rest) => {
                        assert(founds(cards@) + (founds(more@) + rest) =~= founds(
                            cards@ + more@,
                        ) + rest);
                    },
                    Err(_) => {},
                }
            }
            cards.append(&mut more);
            i = j;
        }
        proof {
            assert(founds(cards@) + Seq::<Found>::empty() =~= founds(cards@));
        }
        Ok(cards)
    }
}

/// Cards of which each occurs once, and what was said of those that occur
/// again.
pub struct ParsedFile {
    pub cards: Vec<Card>,
    pub duplicates: Vec<DuplicateCard>,
}

/// The place of the first card with an address; the number of cards if there
/// is none.
pub open spec fn first_with(cards: Seq<Card>, hash: CardHash) -> int
    decreases cards.len(),
{
    if cards.len() == 0 || cards[0].id() == hash {
        0
    } else {
        1 + first_with(cards.skip(1), hash)
    }
}

/// The cards without those that occur before.
pub open spec fn unique(cards: Seq<Card>) -> Seq<Card>
    decreases cards.len(),
{
    if cards.len() == 0 {
        seq![]
    } else {
        let kept = unique(cards.drop_last());
        if first_with(kept, cards.last().id()) < kept.len() {
            kept
        } else {
            kept.push(cards.last())
        }
    }
}

/// The cards that occur before, each behind the card that it repeats.
pub open spec fn repeated(cards: Seq<Card>) -> Seq<(Card, Card)>
    decreases cards.len(),
{
    if cards.len() == 0 {
        seq![]
    } else {
        let kept = unique(cards.drop_last());
        let i = first_with(kept, cards.last().id());
        if i < kept.len() {
            repeated(cards.drop_last()).push((kept[i], cards.last()))
        } else {
            repeated(cards.drop_last())
        }
    }
}

/// A line, counted from one.
pub open spec fn from_one(line: usize) -> int {
    if line < usize::MAX {
        line + 1
    } else {
        usize::MAX as int
    }
}

/// Whether a note on a duplicate is on these cards.
pub open spec fn is_note(d: DuplicateCard, pair: (Card, Card)) -> bool {
    &&& d.first_file@ == pair.0.file()
    &&& d.first_line == from_one(pair.0.lines().0)
    &&& d.second_file@ == pair.1.file()
    &&& d.second_line == from_one(pair.1.lines().0)
}

/// Whether notes on duplicates are on these cards.
pub open spec fn are_notes(ds: Seq<DuplicateCard>, pairs: Seq<(Card, Card)>) -> bool {
    ds.len() == pairs.len() && forall|i: int|
        0 <= i < ds.len() ==> is_note(#[trigger] ds[i], pairs[i])
}

proof fn lemma_first_with(cards: Seq<Card>, hash: CardHash)
    ensures
        0 <= first_with(cards, hash) <= cards.len(),
        first_with(cards, hash) < cards.len() ==> cards[first_with(cards, hash)].id() == hash,
        forall|j: int|
            0 <= j < first_with(cards, hash) ==> (#[trigger] cards[j]).id() != hash,
    decreases cards.len(),
{
    if cards.len() > 0 && cards[0].id() != hash {
        lemma_first_with(cards.skip(1), hash);
        assert forall|j: int| 0 <= j < first_with(cards, hash) implies (#[trigger] cards[j]).id()
            != hash by {
            if j > 0 {
                assert(cards[j] == cards.skip(1)[j - 1]);
            }
        }
    }
}

fn first_place(cards: &Vec<Card>, hash: CardHash) -> (result: usize)
    ensures
        result == first_with(cards@, hash),
        result <= cards@.len(),
{
    let mut i: usize = 0;
    proof {
        assert(cards@.skip(0) == cards@);
    }
    while i < cards.len() && cards[i].hash() != hash
        invariant
            i <= cards@.len(),
            first_with(cards@, hash) == i + first_with(cards@.skip(i as int), hash),
        decreases cards@.len() - i,
    {
        proof {
            assert(cards@.skip(i as int)[0] == cards@[i as int]);
            assert(cards@.skip(i as int).skip(1) == cards@.skip(i + 1));
        }
        i += 1;
    }
    i
}

fn counted_from_one(line: usize) -> (result: usize)
    ensures
        result == from_one(line),
{
    if line < usize::MAX {
        line + 1
    } else {
        line
    }
}

/// Keeps the first of all cards with the same content.
pub fn without_duplicates(cards: &Vec<Card>) -> (result: ParsedFile)
    ensures
        result.cards@ == unique(cards@),
        are_notes(result.duplicates@, repeated(cards@)),
{
    let mut kept: Vec<Card> = Vec::new();
    let mut duplicates: Vec<DuplicateCard> = Vec::new();
    let mut i: usize = 0;
    while i < cards.len()
        invariant
            i <= cards@.len(),
            kept@ == unique(cards@.take(i as int)),
            are_notes(duplicates@, repeated(cards@.take(i as int))),
        decreases cards@.len() - i,
    {
        let card = &cards[i];
        proof {
            assert(cards@.take(i + 1).drop_last() == cards@.take(i as int));
            assert(cards@.take(i + 1).last() == *card);
        }
        let k = first_place(&kept, card.hash());
        if k < kept.len() {
            duplicates.push(
                DuplicateCard {
                    first_file: kept[k].file_path().to_owned(),
                    first_line: counted_from_one(kept[k].range().0),
                    second_file: card.file_path().to_owned(),
                    second_line: counted_from_one(card.range().0),
                },
            );
        } else {
            kept.push(card.clone());
        }
        i += 1;
    }
    proof {
        assert(cards@.take(i as int) == cards@);
    }
    ParsedFile { cards: kept, duplicates }
}

/// The addresses of cards, as texts.
pub open spec fn addresses(cards: Seq<Card>) -> Seq<Seq<char>> {
    cards.map_values(|c: Card| card_hash::hash_text(c.id()))
}

/// Puts the cards of all files of a collection together: each of them once,
/// sorted by address.
pub fn collect_deck(cards: &Vec<Card>) -> (result: ParsedFile)
    ensures
        result.cards@ == order::arranged(unique(cards@), addresses(unique(cards@))),
        are_notes(result.duplicates@, repeated(cards@)),
{
    let parsed = without_duplicates(cards);
    let ghost kept = parsed.cards@;
    let mut keys: Vec<String> = Vec::new();
    let mut i: usize = 0;
    while i < parsed.cards.len()
        invariant
            i <= parsed.cards@.len(),
            kept == parsed.cards@,
            keys@.len() == i,
            forall|k: int|
                0 <= k < i ==> (#[trigger] keys@[k])@ == card_hash::hash_text(kept[k].id()),
        decreases parsed.cards@.len() - i,
    {
        keys.push(parsed.cards[i].hash().to_hex());
        i += 1;
    }
    proof {
        assert(text::views(keys@) =~= addresses(kept));
    }
    let places = order::order_of(&keys);
    let ghost o = order::order(addresses(kept), kept.len());
    let mut sorted: Vec<Card> = Vec::new();
    let mut i: usize = 0;
    while i < places.len()
        invariant
            i <= places@.len(),
            kept == parsed.cards@,
            places@.len() == kept.len(),
            o == order::numbers(places@),
            forall|k: int| 0 <= k < places@.len() ==> 0 <= #[trigger] places@[k] < kept.len(),
            sorted@.len() == i,
            forall|k: int| 0 <= k < i ==> #[trigger] sorted@[k] == kept[o[k]],
        decreases places@.len() - i,
    {
        proof {
            assert(o[i as int] == places@[i as int]);
        }
        sorted.push(parsed.cards[places[i]].clone());
        i += 1;
    }
    proof {
        assert(sorted@ =~= order::arranged(kept, addresses(kept)));
    }
    ParsedFile { cards: sorted, duplicates: parsed.duplicates }
}

impl Parser {
    /// The cards in a text, each once.
    pub fn parse_with_duplicates(&self, content: &str) -> (result: Fallible<ParsedFile>)
        requires
            self.line_offset + text::lines(content@).len() <= usize::MAX,
        ensures
            match read(content@, self.line_offset as int) {
                Ok(found) => result matches Ok(parsed) && exists|cards: Seq<Card>|
                    {
                        &&& #[trigger] founds(cards) == found
                        &&& all_in(cards, self.deck_name@, self.file_path@)
                        &&& parsed.cards@ == unique(cards)
                        &&& are_notes(parsed.duplicates@, repeated(cards))
                    },
                Err(fault) => result matches Err(e) && e@ == fault_text(fault, self.file_path@),
            },
    {
        let cards = self.parse(content)?;
        let parsed = without_duplicates(&cards);
        proof {
            assert(founds(cards@) == read(content@, self.line_offset as int)->Ok_0);
        }
        Ok(parsed)
    }
}

/// What the settings at the top of a file name its deck, if they do, or what is
/// wrong with them.
pub open spec fn settings_name(settings: Seq<char>) -> Result<Option<Seq<char>>, Seq<char>> {
    match toml_table::toml_read(settings) {
        Ok(table) => Ok(
            if table.contains_key("name"@) {
                toml_table::toml_string(table["name"@])
            } else {
                None
            },
        ),
        Err(e) => Err(e),
    }
}

fn name_in(settings: &str) -> (result: Result<Option<String>, String>)
    ensures
        match result {
            Ok(name) => settings_name(settings@) == Ok::<Option<Seq<char>>, Seq<char>>(
                text::opt_text(name),
            ),
            Err(e) => settings_name(settings@) == Err::<Option<Seq<char>>, Seq<char>>(e@),
        },
{
    match toml_table::read_table(settings) {
        Ok(table) => Ok(toml_table::string_at(&table, "name")),
        Err(e) => Err(e),
    }
}

/// What is said of settings that cannot be read.
pub open spec fn bad_settings(e: Seq<char>) -> Seq<char> {
    "Failed to parse the settings of a deck: "@ + e
}

/// The name that a file gives its deck.
pub open spec fn named(content: Seq<char>) -> Result<Option<Seq<char>>, Seq<char>> {
    match frontmatter::parted(content) {
        Some((settings, _)) => match settings_name(settings) {
            Ok(name) => Ok(name),
            Err(e) => Err(bad_settings(e)),
        },
        None => Ok(None),
    }
}

/// What stands behind the settings of a file.
pub open spec fn body(content: Seq<char>) -> Seq<char> {
    match frontmatter::parted(content) {
        Some((_, rest)) => rest,
        None => content,
    }
}

/// The number of lines that the settings of a file take.
pub open spec fn body_offset(content: Seq<char>) -> int {
    text::lines(content).len() - text::lines(body(content)).len()
}

/// The end of a text has no more lines than the text.
proof fn lemma_lines_of_end(s: Seq<char>, k: int)
    requires
        0 <= k <= s.len(),
    ensures
        text::lines(s.skip(k)).len() <= text::lines(s).len(),
    decreases s.len(),
{
    let i = text::first_index(s, '\n');
    text::lemma_first_index_bounds(s, '\n');
    if k == 0 {
        assert(s.skip(0) == s);
    } else if k > i && i < s.len() {
        lemma_lines_of_end(s.skip(i + 1), k - i - 1);
        assert(s.skip(i + 1).skip(k - i - 1) == s.skip(k));
    } else if k < s.len() {
        let t = s.skip(k);
        assert forall|j: int| 0 <= j < i - k implies t[j] != '\n' by {
            assert(t[j] == s[j + k]);
        }
        text::lemma_first_index(t, '\n', i - k);
        if i < s.len() {
            assert(t.skip(i - k + 1) == s.skip(i + 1));
        }
    }
}

proof fn lemma_strip_start_end(s: Seq<char>, p: spec_fn(char) -> bool)
    ensures
        ({
            let t = text::strip_start(s, p);
            t.len() <= s.len() && t == s.skip(s.len() - t.len())
        }),
    decreases s.len(),
{
    let t = text::strip_start(s, p);
    if s.len() > 0 && p(s[0]) {
        lemma_strip_start_end(s.skip(1), p);
        assert(s.skip(1).skip(s.len() - 1 - t.len()) == s.skip(s.len() - t.len()));
    } else {
        assert(s.skip(0) == s);
    }
}

/// The settings of a file stand at its start.
proof fn lemma_body_is_the_end(content: Seq<char>)
    ensures
        body(content).len() <= content.len(),
        body(content) == content.skip(content.len() - body(content).len()),
        0 <= body_offset(content),
{
    let b = body(content);
    let white = |c: char| text::is_white_space(c);
    let t = text::trim_start(content);
    lemma_strip_start_end(content, white);
    reveal_strlit("---\r\n");
    reveal_strlit("---\n");
    reveal_strlit("\r\n");
    reveal_strlit("\n");
    reveal_strlit("\n---");
    if frontmatter::parted(content) is Some {
        let after = frontmatter::opened(t)->0;
        let i = frontmatter::closing_from(after, 0)->0;
        lemma_closing(after, 0);
        let rest = after.skip(i + 4);
        assert(b == frontmatter::sans_break(rest));
        assert(b =~= rest.skip(rest.len() - b.len()));
        assert(rest =~= t.skip(t.len() - rest.len()));
        assert(b =~= content.skip(content.len() - b.len()));
    } else {
        assert(content.skip(0) == content);
    }
    lemma_lines_of_end(content, content.len() - b.len());
}

proof fn lemma_closing(s: Seq<char>, i: int)
    requires
        0 <= i,
    ensures
        frontmatter::closing_from(s, i) matches Some(k) ==> 0 <= k && k + "\n---"@.len() <= s.len(),
    decreases s.len() - i,
{
    if i < s.len() && !frontmatter::closes_at(s, i) {
        lemma_closing(s, i + 1);
    }
}

/// The text behind the settings of a file, and how many lines these take.
pub fn strip_frontmatter_with_offset(content: &str) -> (result: Fallible<(String, usize)>)
    ensures
        match named(content@) {
            Ok(_) => result matches Ok((rest, offset)) && rest@ == body(content@) && offset
                == body_offset(content@) && offset + text::lines(rest@).len() == text::lines(
                content@,
            ).len() && text::lines(content@).len() <= usize::MAX,
            Err(e) => result matches Err(r) && r@ == e,
        },
{
    proof {
        lemma_body_is_the_end(content@);
    }
    let all = text::lines_of(content);
    let count: usize = all.len();
    proof {
        assert(count == text::views(all@).len());
    }
    match frontmatter::split_yaml_frontmatter(content) {
        Some((settings, rest)) => match name_in(settings.as_str()) {
            Ok(_) => {
                let left = text::lines_of(rest.as_str());
                proof {
                    assert(left@.len() == text::views(left@).len());
                }
                Ok((rest, count - left.len()))
            },
            Err(e) => {
                let message = text::cat2("Failed to parse the settings of a deck: ", e.as_str());
                fail(message.as_str())
            },
        },
        None => Ok((content.to_owned(), 0)),
    }
}

/// The name of the deck in a file: the one that it gives itself, or else the
/// one it has by its place.
pub fn deck_name_in(content: &str, otherwise: &str) -> (result: Fallible<String>)
    ensures
        match named(content@) {
            Ok(Some(name)) => result matches Ok(r) && r@ == name,
            Ok(None) => result matches Ok(r) && r@ == otherwise@,
            Err(e) => result matches Err(r) && r@ == e,
        },
{
    match frontmatter::split_yaml_frontmatter(content) {
        Some((settings, _)) => match name_in(settings.as_str()) {
            Ok(Some(name)) => Ok(name),
            Ok(None) => Ok(otherwise.to_owned()),
            Err(e) => {
                let message = text::cat2("Failed to parse the settings of a deck: ", e.as_str());
                fail(message.as_str())
            },
        },
        None => Ok(otherwise.to_owned()),
    }
}

/// The cards that a file holds, by their places in the whole file.
pub open spec fn read_file(content: Seq<char>) -> Result<Seq<Found>, Fault> {
    read(body(content), body_offset(content))
}

/// Whether the outcome of reading a file is what it holds: its cards, each once
/// and all of this deck and this file, or what is wrong with it.
pub open spec fn is_read(
    result: Fallible<ParsedFile>,
    content: Seq<char>,
    deck: Seq<char>,
    file: Seq<char>,
) -> bool {
    match named(content) {
        Err(e) => result matches Err(r) && r@ == e,
        Ok(_) => match read_file(content) {
            Ok(found) => result matches Ok(parsed) && exists|cards: Seq<Card>|
                {
                    &&& #[trigger] founds(cards) == found
                    &&& all_in(cards, deck, file)
                    &&& parsed.cards@ == unique(cards)
                    &&& are_notes(parsed.duplicates@, repeated(cards))
                },
            Err(fault) => result matches Err(r) && r@ == fault_text(fault, file),
        },
    }
}

/// The deck that a file belongs to.
pub open spec fn deck_in(content: Seq<char>, otherwise: Seq<char>) -> Seq<char> {
    match named(content) {
        Ok(Some(name)) => name,
        _ => otherwise,
    }
}

/// Reads a file of a collection. `otherwise` is the name of its deck if it does
/// not give one.
pub fn parse_file(otherwise: &str, file_path: &str, content: &str) -> (result: Fallible<
    ParsedFile,
>)
    ensures
        is_read(result, content@, deck_in(content@, otherwise@), file_path@),
{
    let deck_name = deck_name_in(content, otherwise)?;
    let (rest, offset) = strip_frontmatter_with_offset(content)?;
    let parser = Parser::new(deck_name, file_path.to_owned(), offset);
    parser.parse_with_duplicates(rest.as_str())
}

/// Whether a deletion is a part of a text: it begins and ends between two
/// characters, and holds at least one.
pub open spec fn lies_in(d: (nat, nat), t: Seq<char>) -> bool {
    exists|k: int, m: int|
        0 <= k < m <= t.len() && text::byte_len(#[trigger] t.take(k)) == d.0 && text::byte_len(
            #[trigger] t.take(m),
        ) == d.1 + 1
}

/// Every deletion of a cloze text is a part of it.
pub proof fn law_deletions_lie_in_their_text(s: Seq<char>)
    ensures
        forall|i: int|
            0 <= i < cloze(s).1.len() ==> lies_in(#[trigger] cloze(s).1[i], cloze(s).0),
{
    lemma_deletions(s, 0, seq![], seq![]);
}

proof fn lemma_lies_in_more(d: (nat, nat), t: Seq<char>, more: Seq<char>)
    requires
        lies_in(d, t),
    ensures
        lies_in(d, t + more),
{
    let (k, m) = choose|k: int, m: int|
        0 <= k < m <= t.len() && text::byte_len(#[trigger] t.take(k)) == d.0 && text::byte_len(
            #[trigger] t.take(m),
        ) == d.1 + 1;
    assert((t + more).take(k) == t.take(k));
    assert((t + more).take(m) == t.take(m));
}

proof fn lemma_deletions(s: Seq<char>, i: int, clean: Seq<char>, found: Seq<(nat, nat)>)
    requires
        0 <= i <= s.len(),
        forall|n: int| 0 <= n < found.len() ==> lies_in(#[trigger] found[n], clean),
    ensures
        ({
            let (t, deletions) = cloze_from(s, i, clean, found);
            forall|n: int| 0 <= n < deletions.len() ==> lies_in(#[trigger] deletions[n], t)
        }),
    decreases s.len() - i,
{
    let open = i + text::first_index(s.skip(i), '[');
    let close = open + 1 + text::first_index(s.skip(open + 1), ']');
    text::lemma_first_index_bounds(s.skip(i), '[');
    if open < s.len() {
        text::lemma_first_index_bounds(s.skip(open + 1), ']');
    }
    if open >= s.len() || close >= s.len() {
        assert forall|n: int| 0 <= n < found.len() implies lies_in(
            #[trigger] found[n],
            clean + s.skip(i),
        ) by {
            lemma_lies_in_more(found[n], clean, s.skip(i));
        }
        assert(cloze_from(s, i, clean, found) == (clean + s.skip(i), found));
    } else if stays(s, open, close) {
        let more = s.subrange(i, close + 1);
        assert forall|n: int| 0 <= n < found.len() implies lies_in(
            #[trigger] found[n],
            clean + more,
        ) by {
            lemma_lies_in_more(found[n], clean, more);
        }
        lemma_deletions(s, close + 1, clean + more, found);
        assert(cloze_from(s, i, clean, found) == cloze_from(s, close + 1, clean + more, found));
    } else {
        let head = clean + s.subrange(i, open);
        let hidden = s.subrange(open + 1, close);
        let all = head + hidden;
        let d = (text::byte_len(head), (text::byte_len(all) - 1) as nat);
        let new = found.push(d);
        lemma_byte_len_split(head, hidden);
        lemma_byte_len_positive(hidden);
        assert(lies_in(d, all)) by {
            assert(all.take(head.len() as int) == head);
            assert(all.take(all.len() as int) == all);
        }
        assert forall|n: int| 0 <= n < new.len() implies lies_in(#[trigger] new[n], all) by {
            if n < found.len() {
                assert(all == clean + (s.subrange(i, open) + hidden));
                lemma_lies_in_more(found[n], clean, s.subrange(i, open) + hidden);
            }
        }
        lemma_deletions(s, close + 1, all, new);
        assert(cloze_from(s, i, clean, found) == cloze_from(s, close + 1, all, new));
    }
}

/// Every card stands in the lines of its file, and its block can be edited
/// there.
pub proof fn law_cards_stand_in_their_file(content: Seq<char>, start: usize, end: usize)
    requires
        read_file(content) matches Ok(found) && exists|i: int|
            0 <= i < found.len() && (#[trigger] found[i]).start == start && found[i].end == end,
        text::lines(content).len() <= usize::MAX,
    ensures
        start <= end < text::lines(content).len(),
        edit::range_fits(text::lines(content), (start, end)),
{
    let lines = text::lines(body(content));
    lemma_body_is_the_end(content);
    lemma_found_lines(lines, 0, body_offset(content));
}

proof fn lemma_found_lines(lines: Seq<Seq<char>>, i: int, offset: int)
    requires
        0 <= i <= lines.len(),
    ensures
        read_from(lines, i, offset) matches Ok(found) ==> forall|n: int|
            0 <= n < found.len() ==> offset <= (#[trigger] found[n]).start <= found[n].end < offset
                + lines.len(),
    decreases lines.len() - i,
{
    if i < lines.len() {
        let j = next_start(lines, i + 1);
        lemma_next_start(lines, i + 1);
        lemma_found_lines(lines, j, offset);
    }
}

/// Reading keeps each content once, and loses none.
pub proof fn law_each_content_is_kept_once(cards: Seq<Card>)
    ensures
        forall|i: int, j: int|
            0 <= i < j < unique(cards).len() ==> (#[trigger] unique(cards)[i]).id() != (
            #[trigger] unique(cards)[j]).id(),
        forall|i: int|
            0 <= i < cards.len() ==> exists|k: int|
                0 <= k < unique(cards).len() && (#[trigger] unique(cards)[k]).id() == (
                #[trigger] cards[i]).id(),
        unique(cards).len() + repeated(cards).len() == cards.len(),
    decreases cards.len(),
{
    if cards.len() > 0 {
        let rest = cards.drop_last();
        let kept = unique(rest);
        let last = cards.last();
        let n = first_with(kept, last.id());
        law_each_content_is_kept_once(rest);
        lemma_first_with(kept, last.id());
        assert forall|i: int| 0 <= i < cards.len() implies exists|k: int|
            0 <= k < unique(cards).len() && (#[trigger] unique(cards)[k]).id() == (
            #[trigger] cards[i]).id() by {
            if i < rest.len() {
                assert(rest[i] == cards[i]);
                let k = choose|k: int|
                    0 <= k < kept.len() && (#[trigger] kept[k]).id() == rest[i].id();
                assert(unique(cards)[k] == kept[k]);
            } else {
                assert(unique(cards)[n].id() == last.id());
            }
        }
    }
}

/// A question and an answer that are written down, each on a line of its own
/// behind its tag, are read as a card that asks them.
pub proof fn law_a_written_card_is_read(question: Seq<char>, answer: Seq<char>)
    requires
        text::trim(question) == question,
        text::trim(answer) == answer,
    ensures
        read_from(seq!["Q: "@ + question, "A: "@ + answer], 0, 0) == Ok::<Seq<Found>, Fault>(
            seq![Found { start: 0, end: 1, asks: Asked::Basic(question, answer) }],
        ),
{
    let lines = seq!["Q: "@ + question, "A: "@ + answer];
    reveal_strlit("Q: ");
    reveal_strlit("A: ");
    reveal_strlit("Q:");
    reveal_strlit("A:");
    reveal_strlit("C:");
    reveal_strlit("---");
    reveal_strlit("\n");
    assert(lines[0].subrange(0, 2) =~= "Q:"@);
    assert(lines[1].subrange(0, 2) =~= "A:"@);
    assert(lines[0].subrange(0, 2)[0] == 'Q');
    assert(lines[0].skip(3) =~= question);
    assert(lines[1].skip(3) =~= answer);
    lemma_tagged_line(lines, 0, question);
    lemma_tagged_line(lines, 1, answer);
    assert(!edit::ends_block(lines[1])) by {
        assert(lines[1].subrange(0, 2)[0] == 'A');
        lemma_trim_keeps_start(lines[1]);
    }
    reveal_with_fuel(next_start, 3);
    reveal_with_fuel(answer_in, 3);
    reveal_with_fuel(read_from, 3);
    let one = Found { start: 0, end: 1, asks: Asked::Basic(question, answer) };
    assert(next_start(lines, 1) == 2);
    assert(answer_in(lines, 0, 2) == 1);
    assert(answer_in(lines, 2, 2) == 2);
    assert(block(lines, 0, 2, 0) == Ok::<Seq<Found>, Fault>(seq![one]));
    assert(seq![one] + Seq::<Found>::empty() =~= seq![one]);
}

proof fn lemma_tagged_line(lines: Seq<Seq<char>>, i: int, s: Seq<char>)
    requires
        0 <= i < lines.len(),
        lines[i].len() == s.len() + 3,
        lines[i].skip(3) == s,
        lines[i][2] == ' ',
        text::trim(s) == s,
    ensures
        tagged(lines, i, i + 1) == s,
{
    let head = lines[i].skip(2);
    let parts = seq![head] + lines.subrange(i + 1, i + 1);
    assert(parts =~= seq![head]);
    assert(head.skip(1) =~= s);
    assert(text::trim_start(head) == text::trim_start(s));
}

proof fn lemma_trim_keeps_start(s: Seq<char>)
    requires
        s.len() > 0,
        !text::is_white_space(s[0]),
    ensures
        text::trim(s).len() > 0,
        text::trim(s)[0] == s[0],
{
    lemma_strip_end_keeps_start(s);
}

proof fn lemma_strip_end_keeps_start(s: Seq<char>)
    requires
        s.len() > 0,
        !text::is_white_space(s[0]),
    ensures
        text::trim_end(s).len() > 0,
        text::trim_end(s)[0] == s[0],
    decreases s.len(),
{
    if text::is_white_space(s.last()) {
        lemma_strip_end_keeps_start(s.drop_last());
    }
}

/// The cards of a collection are sorted by address, and no card that was read
/// is lost.
pub proof fn law_collected_cards_are_sorted(cards: Seq<Card>)
    ensures
        ({
            let all = order::arranged(unique(cards), addresses(unique(cards)));
            &&& all.len() == unique(cards).len()
            &&& forall|i: int, j: int|
                0 <= i < j < all.len() ==> text::precedes(
                    card_hash::hash_text((#[trigger] all[i]).id()),
                    card_hash::hash_text((#[trigger] all[j]).id()),
                )
            &&& forall|k: int|
                0 <= k < unique(cards).len() ==> all.contains(#[trigger] unique(cards)[k])
        }),
{
    let kept = unique(cards);
    let keys = addresses(kept);
    let o = order::order(keys, keys.len());
    let all = order::arranged(kept, keys);
    order::lemma_order(keys, keys.len());
    law_each_content_is_kept_once(cards);
    assert forall|i: int, j: int| 0 <= i < j < all.len() implies text::precedes(
        card_hash::hash_text((#[trigger] all[i]).id()),
        card_hash::hash_text((#[trigger] all[j]).id()),
    ) by {
        let x = o[i];
        let y = o[j];
        assert(x != y);
        assert(all[i] == kept[x] && all[j] == kept[y]);
        assert(!text::precedes(keys[o[j]], keys[o[i]]));
        text::lemma_precedes_total(keys[x], keys[y]);
        if keys[x] == keys[y] {
            card_hash::law_hash_text_is_injective(kept[x].id(), kept[y].id());
            if x < y {
                assert(kept[x].id() != kept[y].id());
            } else {
                assert(kept[y].id() != kept[x].id());
            }
        }
    }
    assert forall|k: int| 0 <= k < kept.len() implies all.contains(#[trigger] kept[k]) by {
        assert(o.contains(k));
        let i = choose|i: int| 0 <= i < o.len() && o[i] == k;
        assert(all[i] == kept[k]);
    }
}

/// Deletions of a text that `by` bytes stand in front of.
pub open spec fn shifted(ds: Seq<(nat, nat)>, by: nat) -> Seq<(nat, nat)> {
    ds.map_values(|d: (nat, nat)| (d.0 + by, d.1 + by))
}

/// Where the next pair of brackets opens and closes, from `i` on.
spec fn pair_from(s: Seq<char>, i: int) -> (int, int) {
    let open = i + text::first_index(s.skip(i), '[');
    (open, open + 1 + text::first_index(s.skip(open + 1), ']'))
}

proof fn lemma_pair_from(s: Seq<char>, i: int)
    requires
        0 <= i <= s.len(),
        i > 0 ==> s[i - 1] != '!',
    ensures
        ({
            let (open, close) = pair_from(s, i);
            let (a, b) = pair_from(s.skip(i), 0);
            &&& i <= open <= s.len()
            &&& a == open - i
            &&& open < s.len() ==> {
                &&& open < close <= s.len()
                &&& b == close - i
            }
            &&& open < s.len() && close < s.len() ==> {
                &&& s[close] == ']'
                &&& s.skip(i)[b] == ']'
                &&& s.skip(i).skip(b + 1) == s.skip(close + 1)
                &&& stays(s, open, close) == stays(s.skip(i), a, b)
                &&& s.skip(i).subrange(0, b + 1) == s.subrange(i, close + 1)
                &&& s.skip(i).subrange(0, a) == s.subrange(i, open)
                &&& s.skip(i).subrange(a + 1, b) == s.subrange(open + 1, close)
            }
        }),
{
    let u = s.skip(i);
    let (open, close) = pair_from(s, i);
    text::lemma_first_index_bounds(u, '[');
    assert(u.skip(0) =~= u);
    if open < s.len() {
        text::lemma_first_index_bounds(s.skip(open + 1), ']');
        assert(u.skip(open - i + 1) =~= s.skip(open + 1));
        if close < s.len() {
            assert(s.skip(open + 1)[close - open - 1] == s[close]);
            assert(u.skip(close - i + 1) =~= s.skip(close + 1));
            assert(u.subrange(0, close - i + 1) =~= s.subrange(i, close + 1));
            assert(u.subrange(0, open - i) =~= s.subrange(i, open));
            assert(u.subrange(open - i + 1, close - i) =~= s.subrange(open + 1, close));
        }
    }
}

proof fn lemma_shifted_twice(
    ds: Seq<(nat, nat)>,
    found: Seq<(nat, nat)>,
    e: (nat, nat),
    n: nat,
    m: nat,
)
    ensures
        shifted(shifted(ds, n), m) == shifted(ds, n + m),
        found + shifted(seq![e] + shifted(ds, n), m) == found.push((e.0 + m, e.1 + m)) + shifted(
            ds,
            n + m,
        ),
        found + shifted(Seq::<(nat, nat)>::empty(), m) == found,
        Seq::<(nat, nat)>::empty() + shifted(ds, n) == shifted(ds, n),
        Seq::<(nat, nat)>::empty().push(e) == seq![e],
{
    assert(shifted(shifted(ds, n), m) =~= shifted(ds, n + m));
    assert(found + shifted(seq![e] + shifted(ds, n), m) =~= found.push((e.0 + m, e.1 + m))
        + shifted(ds, n + m));
    assert(found + shifted(Seq::<(nat, nat)>::empty(), m) =~= found);
    assert(Seq::<(nat, nat)>::empty() + shifted(ds, n) =~= shifted(ds, n));
    assert(Seq::<(nat, nat)>::empty().push(e) =~= seq![e]);
}

/// The text and its deletions from `i` on, as one value.
#[verifier::opaque]
spec fn walked(
    s: Seq<char>,
    i: int,
    clean: Seq<char>,
    found: Seq<(nat, nat)>,
) -> (Seq<char>, Seq<(nat, nat)>) {
    cloze_from(s, i, clean, found)
}

proof fn lemma_walked_step(s: Seq<char>, i: int, clean: Seq<char>, found: Seq<(nat, nat)>)
    requires
        0 <= i <= s.len(),
    ensures
        ({
            let (open, close) = pair_from(s, i);
            let head = clean + s.subrange(i, open);
            let all = head + s.subrange(open + 1, close);
            walked(s, i, clean, found) == if open < i || open >= s.len() || close <= open || close
                >= s.len() {
                (clean + s.skip(i), found)
            } else if stays(s, open, close) {
                walked(s, close + 1, clean + s.subrange(i, close + 1), found)
            } else {
                walked(
                    s,
                    close + 1,
                    all,
                    found.push((text::byte_len(head), (text::byte_len(all) - 1) as nat)),
                )
            }
        }),
{
    reveal(walked);
}

proof fn lemma_walked(s: Seq<char>, i: int, clean: Seq<char>, found: Seq<(nat, nat)>)
    requires
        0 <= i <= s.len(),
        i > 0 ==> s[i - 1] != '!',
    ensures
        ({
            let rest = walked(s.skip(i), 0, Seq::empty(), Seq::empty());
            walked(s, i, clean, found) == (
                clean + rest.0,
                found + shifted(rest.1, text::byte_len(clean)),
            )
        }),
    decreases s.len() - i,
{
    let u = s.skip(i);
    let (open, close) = pair_from(s, i);
    let none = Seq::<(nat, nat)>::empty();
    let blank = Seq::<char>::empty();
    lemma_pair_from(s, i);
    lemma_walked_step(s, i, clean, found);
    lemma_walked_step(u, 0, blank, none);
    let m = text::byte_len(clean);
    if open >= s.len() || close >= s.len() {
        assert(blank + u.skip(0) =~= u);
        lemma_shifted_twice(none, found, (0, 0), 0, m);
    } else {
        let tail = walked(s.skip(close + 1), 0, blank, none);
        if stays(s, open, close) {
            let piece = s.subrange(i, close + 1);
            let n = text::byte_len(piece);
            assert(blank + piece =~= piece);
            lemma_walked(s, close + 1, clean + piece, found);
            lemma_walked(u, close - i + 1, piece, none);
            lemma_byte_len_split(clean, piece);
            lemma_shifted_twice(tail.1, found, (0, 0), n, m);
            assert(clean + piece + tail.0 =~= clean + (piece + tail.0));
        } else {
            let front = s.subrange(i, open);
            let hidden = s.subrange(open + 1, close);
            let n = text::byte_len(front + hidden);
            let d = (text::byte_len(clean + front), (text::byte_len(clean + front + hidden)
                - 1) as nat);
            let e = (text::byte_len(front), (n - 1) as nat);
            assert(blank + front =~= front);
            lemma_walked(s, close + 1, clean + front + hidden, found.push(d));
            lemma_walked(u, close - i + 1, front + hidden, none.push(e));
            assert(clean + front + hidden =~= clean + (front + hidden));
            lemma_byte_len_split(clean, front);
            lemma_byte_len_split(clean, front + hidden);
            lemma_byte_len_split(front, hidden);
            lemma_byte_len_positive(hidden);
            lemma_shifted_twice(tail.1, found, e, n, m);
            assert(clean + (front + hidden) + tail.0 =~= clean + (front + hidden + tail.0));
        }
    }
}

proof fn lemma_cloze_from(s: Seq<char>, i: int, clean: Seq<char>, found: Seq<(nat, nat)>)
    requires
        0 <= i <= s.len(),
        i > 0 ==> s[i - 1] != '!',
    ensures
        cloze_from(s, i, clean, found) == (
            clean + cloze(s.skip(i)).0,
            found + shifted(cloze(s.skip(i)).1, text::byte_len(clean)),
        ),
{
    lemma_walked(s, i, clean, found);
    assert(walked(s, i, clean, found) == cloze_from(s, i, clean, found)) by {
        reveal(walked);
    }
    assert(walked(s.skip(i), 0, Seq::empty(), Seq::empty()) == cloze(s.skip(i))) by {
        reveal(walked);
    }
}

proof fn lemma_cloze_step(s: Seq<char>)
    ensures
        ({
            let (open, close) = pair_from(s, 0);
            let none = Seq::<(nat, nat)>::empty();
            let head = s.subrange(0, open);
            let all = head + s.subrange(open + 1, close);
            0 <= open < close < s.len() ==> cloze(s) == if stays(s, open, close) {
                cloze_from(s, close + 1, s.subrange(0, close + 1), none)
            } else {
                cloze_from(
                    s,
                    close + 1,
                    all,
                    none.push((text::byte_len(head), (text::byte_len(all) - 1) as nat)),
                )
            }
        }),
{
    let (open, close) = pair_from(s, 0);
    let blank = Seq::<char>::empty();
    assert(s.skip(0) =~= s);
    if 0 <= open < close < s.len() {
        assert(blank + s.subrange(0, close + 1) =~= s.subrange(0, close + 1));
        assert(blank + s.subrange(0, open) =~= s.subrange(0, open));
    }
}

proof fn lemma_brackets(head: Seq<char>, inner: Seq<char>, tail: Seq<char>)
    requires
        !head.contains('['),
        !inner.contains(']'),
    ensures
        ({
            let s = head + seq!['['] + inner + seq![']'] + tail;
            &&& text::first_index(s, '[') == head.len()
            &&& text::first_index(s.skip(head.len() as int + 1), ']') == inner.len()
            &&& s.take(head.len() as int) == head
            &&& s.subrange(head.len() as int + 1, head.len() as int + 1 + inner.len()) == inner
            &&& s.skip(head.len() as int + inner.len() + 2) == tail
        }),
{
    let s = head + seq!['['] + inner + seq![']'] + tail;
    assert forall|j: int| 0 <= j < head.len() implies s[j] != '[' by {
        assert(s[j] == head[j]);
        assert(head.contains(head[j]));
    }
    text::lemma_first_index(s, '[', head.len() as int);
    let t = s.skip(head.len() as int + 1);
    assert forall|j: int| 0 <= j < inner.len() implies t[j] != ']' by {
        assert(t[j] == inner[j]);
        assert(inner.contains(inner[j]));
    }
    assert(t[inner.len() as int] == ']');
    text::lemma_first_index(t, ']', inner.len() as int);
    assert(s.take(head.len() as int) =~= head);
    assert(s.subrange(head.len() as int + 1, head.len() as int + 1 + inner.len()) =~= inner);
    assert(s.skip(head.len() as int + inner.len() + 2) =~= tail);
}

proof fn lemma_cloze_behind(s: Seq<char>, i: int, front: Seq<char>, tail: Seq<char>)
    requires
        0 < i <= s.len(),
        s.skip(i) == tail,
        s[i - 1] == ']',
        pair_from(s, 0).1 == i - 1,
        0 <= pair_from(s, 0).0 < i - 1,
        stays(s, pair_from(s, 0).0, i - 1),
        s.subrange(0, i) == front,
    ensures
        cloze(s) == (front + cloze(tail).0, shifted(cloze(tail).1, text::byte_len(front))),
{
    let none = Seq::<(nat, nat)>::empty();
    lemma_cloze_step(s);
    lemma_cloze_from(s, i, front, none);
    lemma_shifted_twice(cloze(tail).1, none, (0, 0), text::byte_len(front), 0);
}

/// Brackets hide what they enclose: the text loses the two brackets and nothing
/// else, the deletion is exactly what stood between them, and what follows is
/// read on in the same way.
pub proof fn law_brackets_hide_what_they_enclose(
    head: Seq<char>,
    hidden: Seq<char>,
    tail: Seq<char>,
)
    requires
        !head.contains('['),
        head.len() > 0 ==> head.last() != '!',
        hidden.len() > 0,
        !hidden.contains(']'),
        tail.len() > 0 ==> tail[0] != '(',
    ensures
        cloze(head + seq!['['] + hidden + seq![']'] + tail) == (
            head + hidden + cloze(tail).0,
            seq![(text::byte_len(head), (text::byte_len(head + hidden) - 1) as nat)] + shifted(
                cloze(tail).1,
                text::byte_len(head + hidden),
            ),
        ),
{
    let s = head + seq!['['] + hidden + seq![']'] + tail;
    let open = head.len() as int;
    let close = open + 1 + hidden.len();
    lemma_brackets(head, hidden, tail);
    assert(s.skip(0) =~= s);
    assert(pair_from(s, 0) == (open, close));
    assert(s.len() == close + 1 + tail.len());
    assert(s.subrange(0, open) =~= head);
    assert(open > 0 ==> s[open - 1] == head.last());
    assert(close + 1 < s.len() ==> s[close + 1] == tail[0]);
    assert(s[close] == ']');
    assert(!stays(s, open, close));
    let blank = Seq::<char>::empty();
    let none = Seq::<(nat, nat)>::empty();
    assert(blank + head =~= head);
    let d = (text::byte_len(head), (text::byte_len(head + hidden) - 1) as nat);
    lemma_cloze_step(s);
    assert(cloze(s) == cloze_from(s, close + 1, head + hidden, none.push(d)));
    lemma_cloze_from(s, close + 1, head + hidden, none.push(d));
    assert(none.push(d) =~= seq![d]);
}

/// The brackets of an image or a link, and those around nothing, hide nothing
/// and stay in the text.
pub proof fn law_brackets_of_links_stay(head: Seq<char>, inner: Seq<char>, tail: Seq<char>)
    requires
        !head.contains('['),
        !inner.contains(']'),
        inner.len() == 0 || (head.len() > 0 && head.last() == '!') || (tail.len() > 0 && tail[0]
            == '('),
    ensures
        ({
            let front = head + seq!['['] + inner + seq![']'];
            cloze(front + tail) == (
                front + cloze(tail).0,
                shifted(cloze(tail).1, text::byte_len(front)),
            )
        }),
{
    let front = head + seq!['['] + inner + seq![']'];
    let s = front + tail;
    let open = head.len() as int;
    let close = open + 1 + inner.len();
    lemma_brackets(head, inner, tail);
    assert(s.skip(0) =~= s);
    assert(pair_from(s, 0) == (open, close));
    assert(stays(s, open, close)) by {
        assert(open > 0 ==> s[open - 1] == head.last());
        assert(close + 1 < s.len() ==> s[close + 1] == tail[0]);
    }
    assert(s.subrange(0, close + 1) =~= front);
    lemma_cloze_behind(s, close + 1, front, tail);
}

/// A text without a pair of brackets hides nothing and stays as it is.
pub proof fn law_plain_texts_hide_nothing(head: Seq<char>, tail: Seq<char>)
    requires
        !head.contains('['),
        !tail.contains(']'),
    ensures
        cloze(head) == (head, Seq::<(nat, nat)>::empty()),
        cloze(head + seq!['['] + tail) == (
            head + seq!['['] + tail,
            Seq::<(nat, nat)>::empty(),
        ),
{
    let blank = Seq::<char>::empty();
    assert forall|j: int| 0 <= j < head.len() implies head[j] != '[' by {
        assert(head.contains(head[j]));
    }
    text::lemma_first_index(head, '[', head.len() as int);
    assert(head.skip(0) =~= head);
    assert(blank + head =~= head);
    let s = head + seq!['['] + tail;
    assert(s.skip(0) =~= s);
    assert forall|j: int| 0 <= j < head.len() implies s[j] != '[' by {
        assert(s[j] == head[j]);
    }
    text::lemma_first_index(s, '[', head.len() as int);
    let t = s.skip(head.len() as int + 1);
    assert(t =~= tail);
    assert forall|j: int| 0 <= j < t.len() implies t[j] != ']' by {
        assert(tail.contains(tail[j]));
    }
    text::lemma_first_index(t, ']', t.len() as int);
    assert(blank + s =~= s);
}

proof fn lemma_answer_first(lines: Seq<Seq<char>>, i: int, j: int, k: int)
    requires
        i <= k <= j,
        forall|n: int| i <= n < k ==> !text::starts_with(#[trigger] lines[n], "A:"@),
        k < j ==> text::starts_with(lines[k], "A:"@),
    ensures
        answer_in(lines, i, j) == k,
    decreases j - i,
{
    if i < k {
        assert(!text::starts_with(lines[i], "A:"@));
        lemma_answer_first(lines, i + 1, j, k);
    }
}

/// Whether a line belongs to what stands before it: it begins no card and no
/// answer, and does not separate cards.
pub open spec fn goes_on(line: Seq<char>) -> bool {
    !text::starts_with(line, "Q:"@) && !text::starts_with(line, "C:"@) && !text::starts_with(
        line,
        "A:"@,
    ) && text::trim(line) != "---"@
}

proof fn lemma_tag(tag: Seq<char>, line: Seq<char>)
    requires
        tag.len() == 2,
    ensures
        text::starts_with(tag + line, tag),
        (tag + line).skip(2) == line,
        tag == "Q:"@ ==> !text::starts_with(tag + line, "C:"@) && !text::starts_with(
            tag + line,
            "A:"@,
        ),
        tag == "C:"@ ==> !text::starts_with(tag + line, "Q:"@) && !text::starts_with(
            tag + line,
            "A:"@,
        ),
        tag == "A:"@ ==> !text::starts_with(tag + line, "Q:"@) && !text::starts_with(
            tag + line,
            "C:"@,
        ) && text::trim(tag + line) != "---"@,
{
    reveal_strlit("Q:");
    reveal_strlit("A:");
    reveal_strlit("C:");
    reveal_strlit("---");
    let s = tag + line;
    assert(s.subrange(0, 2) =~= tag);
    assert(s.skip(2) =~= line);
    assert(s.subrange(0, 2)[0] == s[0]);
    if tag == "A:"@ {
        lemma_trim_keeps_start(s);
    }
}

proof fn lemma_whole_block(lines: Seq<Seq<char>>, offset: int)
    requires
        lines.len() > 0,
        forall|k: int| 1 <= k < lines.len() ==> !edit::ends_block(#[trigger] lines[k]),
    ensures
        read_from(lines, 0, offset) == match block(lines, 0, lines.len() as int, offset) {
            Ok(cards) => Ok::<Seq<Found>, Fault>(cards),
            Err(fault) => Err::<Seq<Found>, Fault>(fault),
        },
{
    lemma_next_start(lines, 1);
    assert(next_start(lines, 1) == lines.len());
    if let Ok(cards) = block(lines, 0, lines.len() as int, offset) {
        assert(read_from(lines, lines.len() as int, offset) == Ok::<Seq<Found>, Fault>(seq![]));
        assert(cards + Seq::<Found>::empty() =~= cards);
    }
}

/// A question with its answer is read as one card: what follows the first mark,
/// up to the second, is the question, the rest is the answer, each with all its
/// lines and without white space around it, and the card stands where it was
/// written.
pub proof fn law_questions_are_read_with_their_answers(
    q: Seq<char>,
    more_q: Seq<Seq<char>>,
    a: Seq<char>,
    more_a: Seq<Seq<char>>,
    offset: int,
)
    requires
        forall|i: int| 0 <= i < more_q.len() ==> goes_on(#[trigger] more_q[i]),
        forall|i: int| 0 <= i < more_a.len() ==> goes_on(#[trigger] more_a[i]),
    ensures
        ({
            let lines = seq!["Q:"@ + q] + more_q + seq!["A:"@ + a] + more_a;
            read_from(lines, 0, offset) == Ok::<Seq<Found>, Fault>(
                seq![
                    Found {
                        start: offset,
                        end: offset + lines.len() - 1,
                        asks: Asked::Basic(
                            text::trim(text::join(seq![q] + more_q, "\n"@)),
                            text::trim(text::join(seq![a] + more_a, "\n"@)),
                        ),
                    },
                ],
            )
        }),
{
    let lines = seq!["Q:"@ + q] + more_q + seq!["A:"@ + a] + more_a;
    let n = lines.len() as int;
    let k = 1 + more_q.len() as int;
    reveal_strlit("Q:");
    reveal_strlit("A:");
    lemma_tag("Q:"@, q);
    lemma_tag("A:"@, a);
    assert(lines[0] == "Q:"@ + q);
    assert(lines[k] == "A:"@ + a);
    assert forall|i: int| 1 <= i < n && i != k implies goes_on(#[trigger] lines[i]) by {
        if i < k {
            assert(lines[i] == more_q[i - 1]);
        } else {
            assert(lines[i] == more_a[i - k - 1]);
        }
    }
    assert forall|i: int| 1 <= i < n implies !edit::ends_block(#[trigger] lines[i]) by {
        if i != k {
            assert(goes_on(lines[i]));
        }
    }
    lemma_whole_block(lines, offset);
    assert forall|i: int| 0 <= i < k implies !text::starts_with(#[trigger] lines[i], "A:"@) by {
        if i > 0 {
            assert(goes_on(lines[i]));
        }
    }
    lemma_answer_first(lines, 0, n, k);
    assert forall|i: int| k + 1 <= i < n implies !text::starts_with(
        #[trigger] lines[i],
        "A:"@,
    ) by {
        assert(goes_on(lines[i]));
    }
    lemma_answer_first(lines, k + 1, n, n);
    assert(lines.subrange(1, k) =~= more_q);
    assert(lines.subrange(k + 1, n) =~= more_a);
}

/// A question that no answer follows is an error at its line, and so is a second
/// answer, at its own.
pub proof fn law_questions_need_one_answer(
    q: Seq<char>,
    more_q: Seq<Seq<char>>,
    a: Seq<char>,
    more_a: Seq<Seq<char>>,
    b: Seq<char>,
    offset: int,
)
    requires
        forall|i: int| 0 <= i < more_q.len() ==> goes_on(#[trigger] more_q[i]),
        forall|i: int| 0 <= i < more_a.len() ==> goes_on(#[trigger] more_a[i]),
    ensures
        read_from(seq!["Q:"@ + q] + more_q, 0, offset) matches Err(fault) && fault.line == offset,
        read_from(
            seq!["Q:"@ + q] + more_q + seq!["A:"@ + a] + more_a + seq!["A:"@ + b],
            0,
            offset,
        ) matches Err(fault) && fault.line == offset + 2 + more_q.len() + more_a.len(),
{
    reveal_strlit("Q:");
    reveal_strlit("A:");
    lemma_tag("Q:"@, q);
    lemma_tag("A:"@, a);
    lemma_tag("A:"@, b);
    let one = seq!["Q:"@ + q] + more_q;
    assert(one[0] == "Q:"@ + q);
    assert forall|i: int| 1 <= i < one.len() implies goes_on(#[trigger] one[i]) by {
        assert(one[i] == more_q[i - 1]);
    }
    lemma_whole_block(one, offset);
    assert forall|i: int| 0 <= i < one.len() implies !text::starts_with(
        #[trigger] one[i],
        "A:"@,
    ) by {
        if i > 0 {
            assert(goes_on(one[i]));
        }
    }
    lemma_answer_first(one, 0, one.len() as int, one.len() as int);
    let lines = one + seq!["A:"@ + a] + more_a + seq!["A:"@ + b];
    let n = lines.len() as int;
    let k = one.len() as int;
    assert(lines[0] == one[0]);
    assert(lines[k] == "A:"@ + a);
    assert(lines[n - 1] == "A:"@ + b);
    assert forall|i: int| 1 <= i < n && i != k && i != n - 1 implies goes_on(
        #[trigger] lines[i],
    ) by {
        if i < k {
            assert(lines[i] == more_q[i - 1]);
        } else {
            assert(lines[i] == more_a[i - k - 1]);
        }
    }
    assert forall|i: int| 1 <= i < n implies !edit::ends_block(#[trigger] lines[i]) by {
        if i != k && i != n - 1 {
            assert(goes_on(lines[i]));
        }
    }
    lemma_whole_block(lines, offset);
    assert forall|i: int| 0 <= i < k implies !text::starts_with(#[trigger] lines[i], "A:"@) by {
        if i > 0 {
            assert(goes_on(lines[i]));
        }
    }
    lemma_answer_first(lines, 0, n, k);
    assert forall|i: int| k + 1 <= i < n - 1 implies !text::starts_with(
        #[trigger] lines[i],
        "A:"@,
    ) by {
        assert(goes_on(lines[i]));
    }
    lemma_answer_first(lines, k + 1, n, n - 1);
}

/// A cloze text is read as one card for each of its deletions, in order, all of
/// them with the whole text; one without a deletion is an error.
pub proof fn law_cloze_texts_give_a_card_for_each_deletion(
    c: Seq<char>,
    more: Seq<Seq<char>>,
    offset: int,
)
    requires
        forall|i: int| 0 <= i < more.len() ==> goes_on(#[trigger] more[i]),
    ensures
        ({
            let lines = seq!["C:"@ + c] + more;
            let (shown, hidden) = cloze(text::trim(text::join(seq![c] + more, "\n"@)));
            match read_from(lines, 0, offset) {
                Ok(found) => {
                    &&& hidden.len() > 0
                    &&& found.len() == hidden.len()
                    &&& forall|i: int|
                        0 <= i < found.len() ==> #[trigger] found[i] == (Found {
                            start: offset,
                            end: offset + lines.len() - 1,
                            asks: Asked::Cloze(shown, hidden[i].0, hidden[i].1),
                        })
                },
                Err(fault) => hidden.len() == 0 && fault.line == offset,
            }
        }),
{
    reveal_strlit("C:");
    lemma_tag("C:"@, c);
    let lines = seq!["C:"@ + c] + more;
    let n = lines.len() as int;
    assert(lines[0] == "C:"@ + c);
    assert forall|i: int| 1 <= i < n implies goes_on(#[trigger] lines[i]) by {
        assert(lines[i] == more[i - 1]);
    }
    lemma_whole_block(lines, offset);
    assert forall|i: int| 0 <= i < n implies !text::starts_with(#[trigger] lines[i], "A:"@) by {
        if i > 0 {
            assert(goes_on(lines[i]));
        }
    }
    lemma_answer_first(lines, 0, n, n);
    assert(lines.subrange(1, n) =~= more);
}

/// Lines that begin no card are no card, and an answer among them is an error at
/// its line.
pub proof fn law_loose_lines_are_no_card(
    lines: Seq<Seq<char>>,
    a: Seq<char>,
    offset: int,
)
    requires
        forall|i: int| 0 <= i < lines.len() ==> goes_on(#[trigger] lines[i]),
    ensures
        read_from(lines, 0, offset) == Ok::<Seq<Found>, Fault>(seq![]),
        read_from(lines.push("A:"@ + a), 0, offset) matches Err(fault) && fault.line == offset
            + lines.len(),
{
    reveal_strlit("A:");
    lemma_tag("A:"@, a);
    let n = lines.len() as int;
    if n > 0 {
        lemma_whole_block(lines, offset);
        assert(goes_on(lines[0]));
        lemma_answer_first(lines, 0, n, n);
    }
    let all = lines.push("A:"@ + a);
    assert(all[n] == "A:"@ + a);
    assert forall|i: int| 0 <= i < n implies goes_on(#[trigger] all[i]) by {
        assert(all[i] == lines[i]);
    }
    assert forall|i: int| 1 <= i < all.len() implies !edit::ends_block(#[trigger] all[i]) by {
        if i < n {
            assert(goes_on(all[i]));
        }
    }
    lemma_whole_block(all, offset);
    lemma_answer_first(all, 0, n + 1, n);
    if n > 0 {
        assert(goes_on(all[0]));
    }
}

proof fn lemma_next_start_back(a: Seq<Seq<char>>, b: Seq<Seq<char>>, i: int)
    requires
        0 <= i <= b.len(),
    ensures
        next_start(a + b, a.len() + i) == a.len() + next_start(b, i),
    decreases b.len() - i,
{
    if i < b.len() {
        assert((a + b)[a.len() + i] == b[i]);
        if !edit::ends_block(b[i]) {
            lemma_next_start_back(a, b, i + 1);
        }
    }
}

proof fn lemma_next_start_front(a: Seq<Seq<char>>, b: Seq<Seq<char>>, i: int)
    requires
        0 <= i <= a.len(),
        b.len() > 0,
        edit::ends_block(b[0]),
    ensures
        next_start(a + b, i) == next_start(a, i),
    decreases a.len() - i,
{
    if i < a.len() {
        assert((a + b)[i] == a[i]);
        if !edit::ends_block(a[i]) {
            lemma_next_start_front(a, b, i + 1);
        }
    } else {
        assert((a + b)[i] == b[0]);
    }
}

proof fn lemma_answer_back(a: Seq<Seq<char>>, b: Seq<Seq<char>>, i: int, j: int)
    requires
        0 <= i,
        j <= b.len(),
    ensures
        i <= j ==> answer_in(a + b, a.len() + i, a.len() + j) == a.len() + answer_in(b, i, j),
    decreases j - i,
{
    if i < j {
        assert((a + b)[a.len() + i] == b[i]);
        lemma_answer_back(a, b, i + 1, j);
    }
}

proof fn lemma_answer_front(a: Seq<Seq<char>>, b: Seq<Seq<char>>, i: int, j: int)
    requires
        0 <= i,
        j <= a.len(),
    ensures
        answer_in(a + b, i, j) == answer_in(a, i, j),
    decreases j - i,
{
    if i < j {
        assert((a + b)[i] == a[i]);
        lemma_answer_front(a, b, i + 1, j);
    }
}

/// Whether two cards ask the same and begin at the same line.
pub open spec fn alike(x: Found, y: Found) -> bool {
    x.asks == y.asks && x.start == y.start
}

proof fn lemma_same_block(
    a: Seq<Seq<char>>,
    b: Seq<Seq<char>>,
    i: int,
    j: int,
    by: int,
    offset: int,
)
    requires
        0 <= i < j <= b.len(),
        0 <= by,
        j + by <= a.len(),
        a[i + by] == b[i],
        answer_in(a, i + by, j + by) == answer_in(b, i, j) + by,
        answer_in(a, answer_in(b, i, j) + by + 1, j + by) == answer_in(
            b,
            answer_in(b, i, j) + 1,
            j,
        ) + by || answer_in(b, i, j) >= j,
        tagged(a, i + by, j + by) == tagged(b, i, j),
        i < answer_in(b, i, j) < j ==> tagged(a, i + by, answer_in(b, i, j) + by) == tagged(
            b,
            i,
            answer_in(b, i, j),
        ) && tagged(a, answer_in(b, i, j) + by, j + by) == tagged(b, answer_in(b, i, j), j),
        text::starts_with(b[i], "Q:"@) ==> !text::starts_with(b[i], "A:"@),
    ensures
        ({
            let x = block(b, i, j, offset + by);
            let y = block(a, i + by, j + by, offset);
            &&& x is Err ==> y == x
            &&& x matches Ok(p) ==> y matches Ok(q) && p.len() == q.len() && forall|n: int|
                0 <= n < p.len() ==> alike(#[trigger] p[n], q[n])
            &&& (j + by < a.len() <==> j < b.len()) && a.len() == b.len() + by ==> y == x
        }),
{
    let k = answer_in(b, i, j);
    lemma_answer_in(b, i, j);
    if text::starts_with(b[i], "Q:"@) {
        assert(k != i);
    }
    let x = block(b, i, j, offset + by);
    let y = block(a, i + by, j + by, offset);
    if let Ok(p) = x {
        let q = y->Ok_0;
        assert(y is Ok);
        assert(p.len() == q.len());
        assert forall|n: int| 0 <= n < p.len() implies alike(#[trigger] p[n], q[n]) by {
            if text::starts_with(b[i], "C:"@) && !text::starts_with(b[i], "Q:"@) {
                let (s, deletions) = cloze(tagged(b, i, j));
                assert(p[n].asks == Asked::Cloze(s, deletions[n].0, deletions[n].1));
            }
        }
        if (j + by < a.len() <==> j < b.len()) && a.len() == b.len() + by {
            assert forall|n: int| 0 <= n < p.len() implies p[n] == q[n] by {
                assert(alike(p[n], q[n]));
            }
            assert(p =~= q);
        }
    }
}

proof fn lemma_tags_differ(line: Seq<char>)
    ensures
        text::starts_with(line, "Q:"@) ==> !text::starts_with(line, "A:"@),
{
    reveal_strlit("Q:");
    reveal_strlit("A:");
    if text::starts_with(line, "Q:"@) && text::starts_with(line, "A:"@) {
        assert(line.subrange(0, 2)[0] == line[0]);
    }
}

proof fn lemma_read_back(a: Seq<Seq<char>>, b: Seq<Seq<char>>, i: int, offset: int)
    requires
        0 <= i <= b.len(),
    ensures
        read_from(a + b, a.len() + i, offset) == read_from(b, i, offset + a.len()),
    decreases b.len() - i,
{
    let all = a + b;
    let n = a.len() as int;
    if i < b.len() {
        lemma_next_start(b, i + 1);
        lemma_next_start_back(a, b, i + 1);
        let j = next_start(b, i + 1);
        lemma_answer_in(b, i, j);
        let k = answer_in(b, i, j);
        lemma_answer_back(a, b, i, j);
        lemma_answer_back(a, b, k + 1, j);
        assert(all[n + i] == b[i]);
        assert(all.subrange(n + i + 1, n + j) =~= b.subrange(i + 1, j));
        if i < k {
            assert(all.subrange(n + i + 1, n + k) =~= b.subrange(i + 1, k));
            assert(tagged(all, n + i, n + k) == tagged(b, i, k));
        }
        if k < j {
            assert(all[n + k] == b[k]);
            assert(all.subrange(n + k + 1, n + j) =~= b.subrange(k + 1, j));
            assert(tagged(all, n + k, n + j) == tagged(b, k, j));
        }
        assert(tagged(all, n + i, n + j) == tagged(b, i, j));
        lemma_tags_differ(b[i]);
        lemma_same_block(all, b, i, j, n, offset);
        lemma_read_back(a, b, j, offset);
    }
}

/// Whether what is read of a file in two parts is what is read of both: the
/// cards of the first part and then those of the second, or the first fault.
pub open spec fn adds_up(
    first: Result<Seq<Found>, Fault>,
    second: Result<Seq<Found>, Fault>,
    all: Result<Seq<Found>, Fault>,
) -> bool {
    match (first, second) {
        (Err(fault), _) => all == Err::<Seq<Found>, Fault>(fault),
        (Ok(_), Err(fault)) => all == Err::<Seq<Found>, Fault>(fault),
        (Ok(x), Ok(y)) => all matches Ok(z) && {
            &&& z.len() == x.len() + y.len()
            &&& forall|i: int| 0 <= i < x.len() ==> alike(#[trigger] x[i], z[i])
            &&& z.skip(x.len() as int) == y
        },
    }
}

proof fn lemma_read_parts(a: Seq<Seq<char>>, b: Seq<Seq<char>>, i: int, offset: int)
    requires
        0 <= i <= a.len(),
        b.len() > 0,
        edit::ends_block(b[0]),
    ensures
        adds_up(
            read_from(a, i, offset),
            read_from(b, 0, offset + a.len()),
            read_from(a + b, i, offset),
        ),
    decreases a.len() - i,
{
    let all = a + b;
    let y = read_from(b, 0, offset + a.len());
    if i == a.len() {
        lemma_read_back(a, b, 0, offset);
        if let Ok(cards) = y {
            assert(cards.skip(0) =~= cards);
        }
    } else {
        lemma_next_start(a, i + 1);
        lemma_next_start_front(a, b, i + 1);
        let j = next_start(a, i + 1);
        lemma_answer_in(a, i, j);
        let k = answer_in(a, i, j);
        lemma_answer_front(a, b, i, j);
        lemma_answer_front(a, b, k + 1, j);
        assert(all[i] == a[i]);
        assert(all.subrange(i + 1, j) =~= a.subrange(i + 1, j));
        if i < k {
            assert(all.subrange(i + 1, k) =~= a.subrange(i + 1, k));
            assert(tagged(all, i, k) == tagged(a, i, k));
        }
        if k < j {
            assert(all[k] == a[k]);
            assert(all.subrange(k + 1, j) =~= a.subrange(k + 1, j));
            assert(tagged(all, k, j) == tagged(a, k, j));
        }
        assert(tagged(all, i, j) == tagged(a, i, j));
        lemma_tags_differ(a[i]);
        lemma_same_block(all, a, i, j, 0, offset);
        lemma_read_parts(a, b, j, offset);
        let here = block(a, i, j, offset);
        let there = block(all, i, j, offset);
        match here {
            Err(fault) => {
                assert(there == Err::<Seq<Found>, Fault>(fault));
            },
            Ok(cards) => {
                let same = there->Ok_0;
                assert(there is Ok && same.len() == cards.len());
                assert forall|n: int| 0 <= n < cards.len() implies alike(
                    #[trigger] cards[n],
                    same[n],
                ) by {}
                assert(block(a, i, j, offset + 0) == here);
                match (read_from(a, j, offset), y) {
                    (Ok(rest), Ok(more)) => {
                        let z = read_from(all, j, offset)->Ok_0;
                        let x = cards + rest;
                        let w = same + z;
                        assert forall|n: int| 0 <= n < x.len() implies alike(
                            #[trigger] x[n],
                            w[n],
                        ) by {
                            if n < cards.len() {
                                assert(alike(cards[n], same[n]));
                            } else {
                                assert(alike(rest[n - cards.len()], z[n - cards.len()]));
                            }
                        }
                        assert(w.skip(x.len() as int) =~= z.skip(rest.len() as int));
                    },
                    _ => {},
                }
            },
        }
    }
}

/// A file is read block by block: where a line begins a card or separates two,
/// what stands before it and what follows are read on their own, and the cards
/// of the one come before those of the other. Nothing in one block changes what
/// another says.
pub proof fn law_files_are_read_block_by_block(
    a: Seq<Seq<char>>,
    b: Seq<Seq<char>>,
    offset: int,
)
    requires
        b.len() > 0,
        text::starts_with(b[0], "Q:"@) || text::starts_with(b[0], "C:"@) || text::trim(b[0])
            == "---"@,
    ensures
        adds_up(
            read_from(a, 0, offset),
            read_from(b, 0, offset + a.len()),
            read_from(a + b, 0, offset),
        ),
{
    lemma_read_parts(a, b, 0, offset);
}

proof fn lemma_unique_part(cards: Seq<Card>)
    ensures
        list::is_part(unique(cards), cards),
    decreases cards.len(),
{
    if cards.len() > 0 {
        let rest = cards.drop_last();
        lemma_unique_part(rest);
        list::lemma_part_step(unique(rest), rest, cards.last());
        assert(rest.push(cards.last()) =~= cards);
    } else {
        list::lemma_part_whole(cards);
        assert(unique(cards) =~= cards);
    }
}

proof fn lemma_unique_grows(cards: Seq<Card>, c: Card)
    requires
        cards.len() > 0,
        unique(cards.drop_last()).contains(c),
    ensures
        unique(cards).contains(c),
{
    let kept = unique(cards.drop_last());
    let k = choose|k: int| 0 <= k < kept.len() && kept[k] == c;
    assert(unique(cards)[k] == c);
}

proof fn lemma_first_is_unique(cards: Seq<Card>, k: int)
    requires
        0 <= k < cards.len(),
        forall|j: int| 0 <= j < k ==> (#[trigger] cards[j]).id() != cards[k].id(),
    ensures
        unique(cards).contains(cards[k]),
    decreases cards.len(),
{
    let rest = cards.drop_last();
    let kept = unique(rest);
    if k < rest.len() {
        assert forall|j: int| 0 <= j < k implies (#[trigger] rest[j]).id() != rest[k].id() by {
            assert(rest[j] == cards[j]);
        }
        lemma_first_is_unique(rest, k);
        lemma_unique_grows(cards, cards[k]);
    } else {
        lemma_first_with(kept, cards[k].id());
        let i = first_with(kept, cards[k].id());
        if i < kept.len() {
            lemma_unique_part(rest);
            list::lemma_part_member(kept, rest, i);
            let j = choose|j: int| 0 <= j < rest.len() && rest[j] == kept[i];
            assert(cards[j].id() == cards[k].id());
        }
        assert(unique(cards)[kept.len() as int] == cards[k]);
    }
}

/// Whether a pair is a card that is kept and one with the same content.
pub open spec fn is_repetition(cards: Seq<Card>, pair: (Card, Card)) -> bool {
    &&& pair.0.id() == pair.1.id()
    &&& unique(cards).contains(pair.0)
    &&& cards.contains(pair.1)
}

proof fn lemma_repetitions(cards: Seq<Card>, m: int)
    requires
        0 <= m < repeated(cards).len(),
    ensures
        is_repetition(cards, repeated(cards)[m]),
    decreases cards.len(),
{
    if cards.len() > 0 {
        let rest = cards.drop_last();
        let kept = unique(rest);
        let before = repeated(rest);
        let pair = repeated(cards)[m];
        if m < before.len() {
            assert(pair == before[m]);
            lemma_repetitions(rest, m);
            lemma_unique_grows(cards, pair.0);
            let j = choose|j: int| 0 <= j < rest.len() && rest[j] == pair.1;
            assert(cards[j] == pair.1);
        } else {
            lemma_first_with(kept, cards.last().id());
            let i = first_with(kept, cards.last().id());
            assert(kept.contains(kept[i]));
            lemma_unique_grows(cards, kept[i]);
            assert(cards[cards.len() - 1] == pair.1);
        }
    }
}

/// Of the cards with one content the first is kept, and what is kept stands in
/// its order. What is told of the others is where they stand, and where the one
/// stands that is kept.
pub proof fn law_the_first_of_equal_cards_is_kept(cards: Seq<Card>)
    ensures
        list::is_part(unique(cards), cards),
        forall|k: int|
            0 <= k < cards.len() && (forall|j: int|
                0 <= j < k ==> (#[trigger] cards[j]).id() != cards[k].id()) ==> unique(
                cards,
            ).contains(#[trigger] cards[k]),
        forall|i: int|
            0 <= i < repeated(cards).len() ==> is_repetition(
                cards,
                #[trigger] repeated(cards)[i],
            ),
{
    lemma_unique_part(cards);
    assert forall|k: int|
        0 <= k < cards.len() && (forall|j: int|
            0 <= j < k ==> (#[trigger] cards[j]).id() != cards[k].id()) implies unique(
        cards,
    ).contains(#[trigger] cards[k]) by {
        lemma_first_is_unique(cards, k);
    }
    assert forall|i: int| 0 <= i < repeated(cards).len() implies is_repetition(
        cards,
        #[trigger] repeated(cards)[i],
    ) by {
        lemma_repetitions(cards, i);
    }
}

/// A duplicate is told with its files, and with its lines counted from one.
pub proof fn law_duplicates_are_told_where_they_stand(d: DuplicateCard, first: Card, again: Card)
    requires
        is_note(d, (first, again)),
        first.lines().0 < usize::MAX,
        again.lines().0 < usize::MAX,
    ensures
        d.first_file@ == first.file(),
        d.first_line == first.lines().0 + 1,
        d.second_file@ == again.file(),
        d.second_line == again.lines().0 + 1,
{
}

/// A file without settings is read as it is, from its first line on; one with
/// settings is read behind them, and the lines are counted from its start.
pub proof fn law_lines_are_counted_from_the_start(content: Seq<char>)
    ensures
        frontmatter::parted(content) is None ==> body(content) == content && body_offset(content)
            == 0 && named(content) == Ok::<Option<Seq<char>>, Seq<char>>(None),
        body_offset(content) >= 0,
        body_offset(content) + text::lines(body(content)).len() == text::lines(content).len(),
        body(content).len() <= content.len(),
        body(content) == content.skip(content.len() - body(content).len()),
{
    lemma_body_is_the_end(content);
}

proof fn lemma_kept_or_told(cards: Seq<Card>)
    ensures
        unique(cards).len() + repeated(cards).len() == cards.len(),
    decreases cards.len(),
{
    if cards.len() > 0 {
        lemma_kept_or_told(cards.drop_last());
    }
}

/// A card of a file asks what was read there, stands in the lines where it was
/// read, and belongs to the file and its deck; it is known by the digest of what
/// it asks. Everything that was read is a card or is told to be a duplicate.
pub proof fn law_cards_hold_what_was_read(
    result: Fallible<ParsedFile>,
    content: Seq<char>,
    deck: Seq<char>,
    file: Seq<char>,
    i: int,
)
    requires
        is_read(result, content, deck, file),
        result is Ok,
        0 <= i < result->Ok_0.cards@.len(),
    ensures
        ({
            let c = result->Ok_0.cards@[i];
            let found = read_file(content)->Ok_0;
            &&& read_file(content) is Ok
            &&& c.deck() == deck
            &&& c.file() == file
            &&& c.id() == card_hash::hashed(card::identity(c.asks()))
            &&& exists|k: int|
                {
                    &&& 0 <= k < found.len()
                    &&& (#[trigger] found[k]).start == c.lines().0
                    &&& found[k].end == c.lines().1
                    &&& found[k].asks == match c.asks() {
                        CardContent::Basic { question, answer } => Asked::Basic(
                            question@,
                            answer@,
                        ),
                        CardContent::Cloze { text, start, end } => Asked::Cloze(
                            text@,
                            start as nat,
                            end as nat,
                        ),
                    }
                }
            &&& found.len() == result->Ok_0.cards@.len() + result->Ok_0.duplicates@.len()
        }),
{
    let parsed = result->Ok_0;
    let found = read_file(content)->Ok_0;
    let cards = choose|cards: Seq<Card>|
        {
            &&& #[trigger] founds(cards) == found
            &&& all_in(cards, deck, file)
            &&& parsed.cards@ == unique(cards)
            &&& are_notes(parsed.duplicates@, repeated(cards))
        };
    lemma_unique_part(cards);
    lemma_kept_or_told(cards);
    list::lemma_part_member(unique(cards), cards, i);
    let k = choose|k: int| 0 <= k < cards.len() && cards[k] == parsed.cards@[i];
    assert(founds(cards)[k] == found_of(cards[k]));
    assert(found[k].start == cards[k].lines().0);
}

/// A file with an error in it gives no card: the error is told with its file and
/// its line, counted from one. A file is read exactly if it has none.
pub proof fn law_files_with_errors_give_no_cards(
    result: Fallible<ParsedFile>,
    content: Seq<char>,
    deck: Seq<char>,
    file: Seq<char>,
)
    requires
        is_read(result, content, deck, file),
    ensures
        result is Ok <==> named(content) is Ok && read_file(content) is Ok,
        named(content) is Ok && read_file(content) is Err ==> text::ends_with(
            (result->Err_0)@,
            file + ":"@ + text::decimal((read_file(content)->Err_0.line + 1) as nat),
        ),
{
    if named(content) is Ok && read_file(content) is Err {
        let fault = read_file(content)->Err_0;
        let head = fault.message + " Location: "@;
        let place = file + ":"@ + text::decimal((fault.line + 1) as nat);
        assert(fault_text(fault, file) =~= head + place);
        text::law_beginnings_and_ends_are_found(head, place, place);
    }
}

/// A deck is called as its settings say, and else by its file.
pub proof fn law_settings_name_the_deck(content: Seq<char>, otherwise: Seq<char>, name: Seq<char>)
    ensures
        named(content) == Ok::<Option<Seq<char>>, Seq<char>>(Some(name)) ==> deck_in(
            content,
            otherwise,
        ) == name,
        frontmatter::parted(content) is None ==> deck_in(content, otherwise) == otherwise,
{
}

/// The name of a deck is the text under `name` in its settings; settings without
/// one name no deck, and settings that cannot be read are an error.
pub proof fn law_names_stand_under_their_key(
    content: Seq<char>,
    settings: Seq<char>,
    rest: Seq<char>,
)
    requires
        frontmatter::parted(content) == Some((settings, rest)),
    ensures
        match toml_table::toml_read(settings) {
            Ok(table) => {
                &&& named(content) is Ok
                &&& table.contains_key("name"@) ==> named(content)->Ok_0
                    == toml_table::toml_string(table["name"@])
                &&& !table.contains_key("name"@) ==> named(content)->Ok_0 is None
            },
            Err(e) => named(content) is Err && text::ends_with(named(content)->Err_0, e),
        },
{
    if let Err(e) = toml_table::toml_read(settings) {
        text::law_beginnings_and_ends_are_found(
            "Failed to parse the settings of a deck: "@,
            e,
            e,
        );
    }
}

} // verus!
