//! Editing a card in its file.

use vstd::prelude::*;
use crate::drill::server;
use crate::error::{fail, Fallible};
use crate::flash::{Flash, FlashKind};
use crate::list;
use crate::parser;
use crate::parser::Parser;
use crate::path;
use crate::serve::bookmarks;
use crate::serve::migration;
use crate::serve::migration::MigrationPlan;
use crate::text;
use crate::types::card::Card;
use crate::types::card_hash;
use crate::types::card_hash::CardHash;

verus! {

/// What the edit form sends.
pub struct EditForm {
    pub new_text: String,
    pub mtime_ms: String,
}

/// Whether a line ends the block of the card before it: it starts the next
/// card, or separates the two.
pub open spec fn ends_block(line: Seq<char>) -> bool {
    ||| text::starts_with(line, "Q:"@)
    ||| text::starts_with(line, "C:"@)
    ||| text::trim(line) == "---"@
}

/// Whether a line ends the block of the card before it.
pub fn is_card_terminator(line: &str) -> (result: bool)
    ensures
        result == ends_block(line@),
{
    text::has_prefix(line, "Q:") || text::has_prefix(line, "C:") || text::same(
        text::trim_of(line),
        "---",
    )
}

/// The line behind the block of a card. The range of a card ends at the line
/// that ends its block, or at the last line of the file.
pub open spec fn end_of_block(lines: Seq<Seq<char>>, range: (usize, usize)) -> int {
    let end = range.1 as int;
    if end < lines.len() && ends_block(lines[end]) {
        end
    } else if end + 1 < lines.len() {
        end + 1
    } else {
        lines.len() as int
    }
}

/// The line behind the block of a card.
pub fn block_end(lines: &Vec<String>, range: (usize, usize)) -> (result: usize)
    requires
        range.1 < usize::MAX,
    ensures
        result == end_of_block(text::views(lines@), range),
        result <= lines@.len(),
{
    let end: usize = range.1;
    if end < lines.len() && is_card_terminator(lines[end].as_str()) {
        proof {
            assert(text::views(lines@)[end as int] == lines@[end as int]@);
        }
        end
    } else {
        proof {
            if end < lines@.len() {
                assert(text::views(lines@)[end as int] == lines@[end as int]@);
            }
        }
        if end + 1 < lines.len() {
            end + 1
        } else {
            lines.len()
        }
    }
}

/// Whether a range names lines that a file has, in order.
pub open spec fn range_fits(lines: Seq<Seq<char>>, range: (usize, usize)) -> bool {
    range.1 < usize::MAX && (range.0 <= lines.len() ==> range.0 <= end_of_block(lines, range))
}

/// The lines of a card, as the user edits them.
pub fn extract_card_block(file_content: &str, range: (usize, usize)) -> (result: Fallible<String>)
    requires
        range_fits(text::lines(file_content@), range),
    ensures
        ({
            let lines = text::lines(file_content@);
            match result {
                Ok(block) => range.0 <= lines.len() && block@ == text::join(
                    lines.subrange(range.0 as int, end_of_block(lines, range)),
                    "\n"@,
                ),
                Err(e) => range.0 > lines.len() && e@
                    == "Card range is out of bounds in source file"@,
            }
        }),
{
    let lines = text::lines_of(file_content);
    let end = block_end(&lines, range);
    if range.0 > lines.len() {
        return fail("Card range is out of bounds in source file");
    }
    Ok(text::joined_range(&lines, range.0, end, "\n"))
}

/// The lines of a file with those of a card replaced.
pub open spec fn replaced_lines(
    lines: Seq<Seq<char>>,
    range: (usize, usize),
    new_lines: Seq<Seq<char>>,
) -> Seq<Seq<char>> {
    lines.take(range.0 as int) + new_lines + lines.skip(end_of_block(lines, range))
}

/// A file with the block of a card replaced. It ends in a line feed if it did.
pub open spec fn spliced(
    file_content: Seq<char>,
    range: (usize, usize),
    new_text: Seq<char>,
) -> Seq<char> {
    let all = replaced_lines(text::lines(file_content), range, text::lines(new_text));
    let joined = text::join(all, "\n"@);
    if file_content.len() > 0 && file_content.last() == '\n' {
        joined + "\n"@
    } else {
        joined
    }
}

/// Replaces the block of a card.
pub fn splice_card_block(file_content: &str, range: (usize, usize), new_text: &str) -> (result:
    String)
    requires
        range.1 < usize::MAX,
        range.0 <= end_of_block(text::lines(file_content@), range),
    ensures
        result@ == spliced(file_content@, range, new_text@),
{
    let lines = text::lines_of(file_content);
    let new_lines = text::lines_of(new_text);
    let end = block_end(&lines, range);
    let mut all: Vec<String> = Vec::new();
    let mut i: usize = 0;
    let ghost old_views = text::views(lines@);
    let ghost new_views = text::views(new_lines@);
    while i < range.0
        invariant
            i <= range.0 <= end <= lines@.len(),
            old_views == text::views(lines@),
            text::views(all@) == old_views.take(i as int),
        decreases range.0 - i,
    {
        let line = lines[i].clone();
        proof {
            text::lemma_views_push(all@, line);
        }
        all.push(line);
        i += 1;
        proof {
            assert(text::views(all@) =~= old_views.take(i as int));
        }
    }
    let mut j: usize = 0;
    proof {
        assert(text::views(all@) =~= old_views.take(range.0 as int) + new_views.take(0));
    }
    while j < new_lines.len()
        invariant
            j <= new_lines@.len(),
            new_views == text::views(new_lines@),
            text::views(all@) == old_views.take(range.0 as int) + new_views.take(j as int),
        decreases new_lines@.len() - j,
    {
        let line = new_lines[j].clone();
        proof {
            text::lemma_views_push(all@, line);
        }
        all.push(line);
        j += 1;
        proof {
            assert(text::views(all@) =~= old_views.take(range.0 as int) + new_views.take(j as int));
        }
    }
    let mut k: usize = end;
    proof {
        assert(new_views.take(j as int) == new_views);
        assert(text::views(all@) =~= old_views.take(range.0 as int) + new_views
            + old_views.subrange(end as int, end as int));
    }
    while k < lines.len()
        invariant
            end <= k <= lines@.len(),
            old_views == text::views(lines@),
            text::views(all@) == old_views.take(range.0 as int) + new_views + old_views.subrange(
                end as int,
                k as int,
            ),
        decreases lines@.len() - k,
    {
        let line = lines[k].clone();
        proof {
            text::lemma_views_push(all@, line);
        }
        all.push(line);
        k += 1;
        proof {
            assert(text::views(all@) =~= old_views.take(range.0 as int) + new_views
                + old_views.subrange(end as int, k as int));
        }
    }
    proof {
        assert(old_views.subrange(end as int, k as int) == old_views.skip(end as int));
    }
    let mut result = text::joined(&all, "\n");
    proof {
        reveal_strlit("\n");
        lemma_ends_with_feed(file_content@);
    }
    if text::has_suffix(file_content, "\n") {
        result.append("\n");
    }
    result
}

proof fn lemma_ends_with_feed(s: Seq<char>)
    ensures
        text::ends_with(s, "\n"@) <==> s.len() > 0 && s.last() == '\n',
{
    reveal_strlit("\n");
    if s.len() > 0 {
        let tail = s.subrange(s.len() - 1, s.len() as int);
        if s.last() == '\n' {
            assert(tail =~= "\n"@);
        } else {
            assert(tail[0] != "\n"@[0]);
        }
    }
}

/// An edit leaves every line outside the block of its card as it was. (The
/// file ends in a line feed and has no stray carriage returns, nor has the new
/// text, and something is left of it.)
pub proof fn law_edits_stay_in_their_block(
    file_content: Seq<char>,
    range: (usize, usize),
    new_text: Seq<char>,
)
    requires
        range.0 <= end_of_block(text::lines(file_content), range),
        file_content.len() > 0 && file_content.last() == '\n',
        forall|i: int|
            0 <= i < text::lines(file_content).len() ==> text::is_line(
                #[trigger] text::lines(file_content)[i],
            ),
        forall|i: int|
            0 <= i < text::lines(new_text).len() ==> text::is_line(
                #[trigger] text::lines(new_text)[i],
            ),
        replaced_lines(text::lines(file_content), range, text::lines(new_text)).len() > 0,
    ensures
        text::lines(spliced(file_content, range, new_text)) == replaced_lines(
            text::lines(file_content),
            range,
            text::lines(new_text),
        ),
{
    let old_lines = text::lines(file_content);
    let new_lines = text::lines(new_text);
    let end = end_of_block(old_lines, range);
    let all = replaced_lines(old_lines, range, new_lines);
    assert forall|i: int| 0 <= i < all.len() implies text::is_line(#[trigger] all[i]) by {
        if i < range.0 {
            assert(all[i] == old_lines[i]);
        } else if i < range.0 + new_lines.len() {
            assert(all[i] == new_lines[i - range.0]);
        } else {
            assert(all[i] == old_lines[i - range.0 - new_lines.len() + end]);
        }
    }
    text::lemma_lines_of_joined(all);
    reveal_strlit("\n");
    assert("\n"@ =~= seq!['\n']);
    assert(spliced(file_content, range, new_text) =~= text::join(all, seq!['\n']).push('\n'));
}

/// The name of the temporary file next to a file that is written.
pub open spec fn tmp_name(file: Seq<char>) -> Seq<char> {
    "."@ + (match path::file_name(file) {
        Some(name) => name,
        None => "card"@,
    }) + ".hashcards-edit.tmp"@
}

/// The name of the temporary file next to a file that is written.
pub fn tmp_name_for(file: &str) -> (result: String)
    ensures
        result@ == tmp_name(file@),
{
    let name = match path::file_name_of(file) {
        Some(name) => name,
        None => "card".to_owned(),
    };
    text::cat3(".", name.as_str(), ".hashcards-edit.tmp")
}

/// What is said when a file could not be put back after a rejected edit.
pub fn revert_file(file: &str, error: &str) -> (result: String)
    ensures
        result@ == "Failed to revert "@ + file@ + " after a rejected edit: "@ + error@
            + ". The file may be inconsistent \u{2014} check it by hand before editing again."@,
{
    text::cat5(
        "Failed to revert ",
        file,
        " after a rejected edit: ",
        error,
        ". The file may be inconsistent \u{2014} check it by hand before editing again.",
    )
}

/// The hash of the card that an edit is about. While a session runs nothing is
/// edited.
pub fn edited_hash(session_active: bool, hash_hex: &str) -> (result: Fallible<CardHash>)
    ensures
        match result {
            Ok(hash) => !session_active && card_hash::hash_named(hash_hex@) == Some(hash),
            Err(e) => {
                ||| session_active && e@ == "A drill session is active. End it before editing."@
                ||| !session_active && card_hash::hash_named(hash_hex@) is None && e@
                    == "Invalid card hash: "@ + hash_hex@
            },
        },
{
    if session_active {
        return fail("A drill session is active. End it before editing.");
    }
    CardHash::from_hex(hash_hex)
}

/// The card that an edit is about: the first one with the hash.
pub fn find_edited<'a>(cards: &'a Vec<Card>, hash: CardHash) -> (result: Fallible<&'a Card>)
    ensures
        match result {
            Ok(card) => {
                let i = bookmarks::card_index(cards@, hash);
                i < cards@.len() && *card == cards@[i] && card.id() == hash
            },
            Err(e) => !server::ids(cards@).contains(hash) && e@
                == "Card not found in collection (may have been edited or deleted)"@,
        },
{
    match bookmarks::find_card_by_hash(cards, hash) {
        Some(card) => Ok(card),
        None => fail("Card not found in collection (may have been edited or deleted)"),
    }
}

/// Refuses an edit of a file that has changed since its form was opened.
pub fn check_mtime(form: &EditForm, current_mtime: u64) -> (result: Fallible<u64>)
    ensures
        ({
            let submitted = text::number(form.mtime_ms@, u64::MAX as nat);
            match result {
                Ok(m) => m == current_mtime && submitted == Some(m as nat),
                Err(e) => {
                    ||| submitted is None && e@ == "Invalid mtime in form"@
                    ||| submitted is Some && submitted->0 != current_mtime && e@
                        == "The source file changed on disk since you opened this form. Reload and try again."@
                },
            }
        }),
{
    match text::number_u64(form.mtime_ms.as_str()) {
        None => fail("Invalid mtime in form"),
        Some(submitted) => if submitted != current_mtime {
            fail(
                "The source file changed on disk since you opened this form. Reload and try again.",
            )
        } else {
            Ok(submitted)
        },
    }
}

/// Whether a card is written in the same lines of the same file.
pub open spec fn beside(card: Card, other: Card) -> bool {
    other.file() == card.file() && other.lines() == card.lines()
}

/// The cards written in the same lines as a card, which the cards of one cloze
/// text are.
pub fn siblings(cards: &Vec<Card>, card: &Card) -> (result: Vec<Card>)
    ensures
        result@ == list::keep(cards@, |c: Card| beside(*card, c)),
{
    let ghost p = |c: Card| beside(*card, c);
    let mut result: Vec<Card> = Vec::new();
    let mut i: usize = 0;
    while i < cards.len()
        invariant
            i <= cards@.len(),
            p == (|c: Card| beside(*card, c)),
            result@ == list::keep(cards@.take(i as int), p),
        decreases cards@.len() - i,
    {
        proof {
            list::lemma_keep_step(cards@, p, i as int);
        }
        let range = cards[i].range();
        let wanted = card.range();
        if text::same(cards[i].file_path(), card.file_path()) && range.0 == wanted.0 && range.1
            == wanted.1 {
            result.push(cards[i].clone());
        }
        i += 1;
    }
    proof {
        assert(cards@.take(i as int) == cards@);
    }
    result
}

/// Whether a card begins at this line of this file.
pub open spec fn begins_at(file: Seq<char>, line: usize, c: Card) -> bool {
    c.file() == file && c.lines().0 == line
}

/// The cards that begin at a line of a file.
pub fn beginning_at(cards: &Vec<Card>, file: &str, line: usize) -> (result: Vec<Card>)
    ensures
        result@ == list::keep(cards@, |c: Card| begins_at(file@, line, c)),
{
    let ghost p = |c: Card| begins_at(file@, line, c);
    let mut result: Vec<Card> = Vec::new();
    let mut i: usize = 0;
    while i < cards.len()
        invariant
            i <= cards@.len(),
            p == (|c: Card| begins_at(file@, line, c)),
            result@ == list::keep(cards@.take(i as int), p),
        decreases cards@.len() - i,
    {
        proof {
            list::lemma_keep_step(cards@, p, i as int);
        }
        if text::same(cards[i].file_path(), file) && cards[i].range().0 == line {
            result.push(cards[i].clone());
        }
        i += 1;
    }
    proof {
        assert(cards@.take(i as int) == cards@);
    }
    result
}

/// What an edit does to the hashes in the database.
#[derive(Clone, Copy, Debug, PartialEq, Eq, Structural)]
pub enum HashUpdate {
    /// Rename the first hash to the second if the database has the first, and
    /// else insert the second.
    Replace(CardHash, CardHash),
    /// Insert the hash if it is new.
    Insert(CardHash),
}

/// The renames of a plan.
pub open spec fn replacements(plan: migration::PlanView) -> Seq<HashUpdate> {
    plan.renames.map_values(|p: (CardHash, CardHash)| HashUpdate::Replace(p.0, p.1))
}

/// The cards of a plan that start afresh.
pub open spec fn insertions(plan: migration::PlanView) -> Seq<HashUpdate> {
    plan.fresh.map_values(|h: CardHash| HashUpdate::Insert(h))
}

/// What an edit does to the hashes in the database: the cards that are told to
/// be the same keep their history, and the others start afresh.
pub open spec fn updates(plan: migration::PlanView) -> Seq<HashUpdate> {
    replacements(plan) + insertions(plan)
}

/// What an edit does to the hashes in the database.
pub fn hash_updates(plan: &MigrationPlan) -> (result: Vec<HashUpdate>)
    ensures
        result@ == updates(plan@),
{
    let mut result: Vec<HashUpdate> = Vec::new();
    let mut i: usize = 0;
    while i < plan.renames.len()
        invariant
            i <= plan.renames@.len(),
            result@ == replacements(plan@).take(i as int),
        decreases plan.renames@.len() - i,
    {
        let pair = plan.renames[i];
        result.push(HashUpdate::Replace(pair.0, pair.1));
        i += 1;
        proof {
            assert(result@ =~= replacements(plan@).take(i as int));
        }
    }
    let mut k: usize = 0;
    proof {
        assert(result@ =~= replacements(plan@) + insertions(plan@).take(0));
    }
    while k < plan.fresh.len()
        invariant
            k <= plan.fresh@.len(),
            result@ == replacements(plan@) + insertions(plan@).take(k as int),
        decreases plan.fresh@.len() - k,
    {
        result.push(HashUpdate::Insert(plan.fresh[k]));
        k += 1;
        proof {
            assert(result@ =~= replacements(plan@) + insertions(plan@).take(k as int));
        }
    }
    proof {
        assert(result@ =~= updates(plan@));
    }
    result
}

/// An edit moves the history of a card to the card that hides the same, however
/// the two are ordered: where one changed card of either side has a key, and no
/// other has it, the one is replaced by the other.
pub proof fn law_history_follows_content(
    old_cards: Seq<Card>,
    new_cards: Seq<Card>,
    key: Option<Seq<char>>,
)
    ensures
        ({
            let a = migration::under(
                migration::entries(migration::changed(old_cards, server::ids(new_cards))),
                key,
            );
            let b = migration::under(
                migration::entries(migration::changed(new_cards, server::ids(old_cards))),
                key,
            );
            a.len() == 1 && b.len() == 1 ==> updates(
                migration::plan(old_cards, new_cards),
            ).contains(HashUpdate::Replace(a[0], b[0]))
        }),
{
    let a = migration::under(
        migration::entries(migration::changed(old_cards, server::ids(new_cards))),
        key,
    );
    let b = migration::under(
        migration::entries(migration::changed(new_cards, server::ids(old_cards))),
        key,
    );
    let plan = migration::plan(old_cards, new_cards);
    if a.len() == 1 && b.len() == 1 {
        migration::law_unambiguous_cards_are_paired(old_cards, new_cards, key);
        let i = choose|i: int| 0 <= i < plan.renames.len() && plan.renames[i] == (a[0], b[0]);
        assert(updates(plan)[i] == HashUpdate::Replace(a[0], b[0]));
    }
}

/// What is said of an edit after which the file is not understood any more.
/// The file is put back.
pub fn rejected_message(error: &str) -> (result: String)
    ensures
        result@ == "Parse error \u{2014} edit reverted: "@ + error@,
{
    text::cat2("Parse error \u{2014} edit reverted: ", error)
}

/// What follows an edit of a file.
pub enum EditStep {
    /// Put the file back as it was, and fail with this message.
    Revert(String),
    /// The edit stays; make these changes to the hashes in the database, and
    /// tell the user how many cards may have lost their history.
    Update { updates: Vec<HashUpdate>, skipped: usize },
}

/// What is said of an edit after which the file is not understood any more.
pub open spec fn rejected(error: Seq<char>) -> Seq<char> {
    "Parse error \u{2014} edit reverted: error: "@ + error
}

fn cards_in(deck_name: &str, file_path: &str, content: &str) -> (result: Fallible<Vec<Card>>)
    ensures
        match parser::named(content@) {
            Err(e) => result matches Err(r) && r@ == e,
            Ok(_) => match parser::read_file(content@) {
                Err(fault) => result matches Err(r) && r@ == parser::fault_text(fault, file_path@),
                Ok(found) => result matches Ok(cards) && parser::founds(cards@) == found
                    && parser::all_in(cards@, deck_name@, file_path@),
            },
        },
{
    let (rest, offset) = parser::strip_frontmatter_with_offset(content)?;
    let reader = Parser::new(deck_name.to_owned(), file_path.to_owned(), offset);
    reader.parse(rest.as_str())
}

/// The cards of an edited file that begin where the edited card did.
pub open spec fn edited_cards(card: Card, cards: Seq<Card>) -> Seq<Card> {
    list::keep(cards, |c: Card| begins_at(card.file(), card.lines().0, c))
}

/// Decides what follows an edit, by the file as it is then. A file that is not
/// understood any more is put back. Otherwise the cards that begin where the
/// edited one did are matched with `old_cards`, which stood there before, by
/// what they say.
pub fn after_edit(card: &Card, old_cards: &Vec<Card>, edited: &str) -> (result: EditStep)
    requires
        forall|i: int| 0 <= i < old_cards@.len() ==> migration::bounded(#[trigger] old_cards@[i]),
    ensures
        match parser::named(edited@) {
            Err(e) => result matches EditStep::Revert(m) && m@ == rejected(e),
            Ok(_) => match parser::read_file(edited@) {
                Err(fault) => result matches EditStep::Revert(m) && m@ == rejected(
                    parser::fault_text(fault, card.file()),
                ),
                Ok(found) => result matches EditStep::Update { updates: us, skipped: n }
                    && exists|cards: Seq<Card>|
                    {
                        let plan = migration::plan(old_cards@, edited_cards(*card, cards));
                        &&& #[trigger] parser::founds(cards) == found
                        &&& parser::all_in(cards, card.deck(), card.file())
                        &&& us@ == updates(plan)
                        &&& n == plan.skipped
                    },
            },
        },
{
    match cards_in(card.deck_name(), card.file_path(), edited) {
        Err(e) => {
            let told = e.to_text();
            let message = rejected_message(told.as_str());
            proof {
                reveal_strlit("Parse error \u{2014} edit reverted: error: ");
                reveal_strlit("Parse error \u{2014} edit reverted: ");
                reveal_strlit("error: ");
                assert(message@ =~= rejected(e@));
            }
            EditStep::Revert(message)
        },
        Ok(cards) => {
            let new_cards = beginning_at(&cards, card.file_path(), card.range().0);
            proof {
                assert(new_cards@ == edited_cards(*card, cards@));
                let p = |c: Card| begins_at(card.file(), card.lines().0, c);
                list::lemma_keep(cards@, p);
                assert forall|i: int| 0 <= i < new_cards@.len() implies migration::bounded(
                    #[trigger] new_cards@[i],
                ) by {
                    assert(new_cards@.contains(new_cards@[i]));
                }
            }
            let plan = migration::plan_hash_migration(old_cards, &new_cards);
            let updates = hash_updates(&plan);
            proof {
                assert(parser::founds(cards@) == parser::read_file(edited@)->Ok_0);
            }
            EditStep::Update { updates, skipped: plan.skipped }
        },
    }
}

/// What is said of cards that may have lost their history in an edit.
pub open spec fn skipped_text(skipped: nat) -> Seq<char> {
    "Saved. "@ + text::decimal(skipped)
        + " could not be matched to their old review history and start fresh."@
}

/// What the user is told after an edit: how many cards may have lost their
/// history, if any have.
pub fn skipped_flash(skipped: usize) -> (result: Option<Flash>)
    ensures
        match result {
            Some(flash) => skipped > 0 && flash.kind == FlashKind::Success && flash.message@
                == skipped_text(skipped as nat),
            None => skipped == 0,
        },
{
    if skipped == 0 {
        return None;
    }
    let number = text::decimal_of(skipped as u64);
    let message = text::cat3(
        "Saved. ",
        number.as_str(),
        " could not be matched to their old review history and start fresh.",
    );
    Some(Flash::success(message.as_str()))
}

/// Decides, right before an edited file takes the place of the old one, whether
/// that has changed meanwhile. If so, the file with the edit is removed;
/// `kept` says where it lies, and why, if that fails.
pub fn check_unchanged(expected: u64, current: u64, kept: Option<(&str, &str)>) -> (result:
    Fallible<()>)
    ensures
        match result {
            Ok(_) => expected == current,
            Err(e) => expected != current && e@ == match kept {
                Some((file, error)) => "The source file changed on disk since you opened this form, and the temporary file "@
                    + file@ + " could not be removed: "@ + error@
                    + ". Remove it by hand, then reload and try again."@,
                None => "The source file changed on disk since you opened this form. Reload and try again."@,
            },
        },
{
    if expected == current {
        return Ok(());
    }
    match kept {
        Some((file, error)) => {
            let message = text::cat5(
                "The source file changed on disk since you opened this form, and the temporary file ",
                file,
                " could not be removed: ",
                error,
                ". Remove it by hand, then reload and try again.",
            );
            fail(message.as_str())
        },
        None => fail(
            "The source file changed on disk since you opened this form. Reload and try again.",
        ),
    }
}

/// The text that an edit puts in.
pub fn edited_text(form: &EditForm) -> (result: String)
    ensures
        result@ == text::trim(form.new_text@),
{
    text::trim_of(form.new_text.as_str()).to_owned()
}

/// An edit replaces the lines of its block by the new ones, and leaves those
/// before and behind it as they are. A block goes up to the line that begins the
/// next one, or to the end of the file.
pub proof fn law_an_edit_replaces_its_block(
    before: Seq<Seq<char>>,
    block: Seq<Seq<char>>,
    after: Seq<Seq<char>>,
    new_lines: Seq<Seq<char>>,
    range: (usize, usize),
)
    requires
        block.len() > 0,
        after.len() > 0 ==> text::starts_with(after[0], "Q:"@) || text::starts_with(
            after[0],
            "C:"@,
        ) || text::trim(after[0]) == "---"@,
        range.0 == before.len(),
        after.len() > 0 ==> range.1 == before.len() + block.len(),
        after.len() == 0 ==> range.1 == before.len() + block.len() - 1 && !(ends_block(
            block.last(),
        )),
    ensures
        replaced_lines(before + block + after, range, new_lines) == before + new_lines + after,
        replaced_lines(before + block + after, range, block) == before + block + after,
{
    let lines = before + block + after;
    let end = before.len() + block.len();
    assert(lines.take(before.len() as int) =~= before);
    assert(lines.skip(end as int) =~= after);
    if after.len() > 0 {
        assert(lines[end as int] == after[0]);
    } else {
        assert(lines[end - 1] == block.last());
    }
}

/// Each renamed card is replaced, each new one is added, in this order, and
/// nothing else changes.
pub proof fn law_plans_become_updates(plan: migration::PlanView, i: int)
    ensures
        updates(plan).len() == plan.renames.len() + plan.fresh.len(),
        0 <= i < plan.renames.len() ==> updates(plan)[i] == HashUpdate::Replace(
            plan.renames[i].0,
            plan.renames[i].1,
        ),
        0 <= i < plan.fresh.len() ==> updates(plan)[plan.renames.len() + i] == HashUpdate::Insert(
            plan.fresh[i],
        ),
{
}

/// The cards of an edited block are those that begin where it begins, in their
/// order.
pub proof fn law_edited_cards_begin_together(card: Card, cards: Seq<Card>, i: int)
    requires
        0 <= i < cards.len(),
    ensures
        list::is_part(edited_cards(card, cards), cards),
        edited_cards(card, cards).contains(cards[i]) <==> cards[i].file() == card.file()
            && cards[i].lines().0 == card.lines().0,
{
    let p = |c: Card| begins_at(card.file(), card.lines().0, c);
    list::law_keeping_keeps_order(cards, p);
    list::lemma_keep(cards, p);
    assert(cards.contains(cards[i]));
}

/// A file is written under a hidden name beside it first.
pub proof fn law_drafts_are_hidden_beside_their_file(dir: Seq<char>, name: Seq<char>)
    requires
        path::is_name(name),
    ensures
        tmp_name(path::join_path(dir, name)) == "."@ + name + ".hashcards-edit.tmp"@,
{
    path::law_files_keep_their_name_in_a_folder(dir, name);
}

/// The siblings of a card are the cards in the same lines of the same file, in
/// their order.
pub proof fn law_siblings_share_their_lines(cards: Seq<Card>, card: Card, i: int)
    requires
        0 <= i < cards.len(),
    ensures
        ({
            let found = list::keep(cards, |c: Card| beside(card, c));
            &&& list::is_part(found, cards)
            &&& found.contains(cards[i]) <==> cards[i].file() == card.file() && cards[i].lines().0
                == card.lines().0 && cards[i].lines().1 == card.lines().1
        }),
{
    let p = |c: Card| beside(card, c);
    list::law_keeping_keeps_order(cards, p);
    list::lemma_keep(cards, p);
    assert(cards.contains(cards[i]));
}

/// An edit that cannot be read is told with its error, and one that loses history
/// with how many cards do.
pub proof fn law_edits_are_told_with_their_outcome(error: Seq<char>, skipped: nat)
    ensures
        text::ends_with(rejected(error), error),
        text::starts_with(skipped_text(skipped), "Saved. "@ + text::decimal(skipped)),
{
    text::law_beginnings_and_ends_are_found(
        "Parse error \u{2014} edit reverted: error: "@,
        error,
        error,
    );
    text::law_beginnings_and_ends_are_found(
        "Saved. "@ + text::decimal(skipped),
        " could not be matched to their old review history and start fresh."@,
        error,
    );
}

/// The last line of a range belongs to it, unless it begins the next block: an
/// edit of a range replaces it, too.
pub proof fn law_the_last_line_belongs_to_its_range(
    before: Seq<Seq<char>>,
    block: Seq<Seq<char>>,
    after: Seq<Seq<char>>,
    new_lines: Seq<Seq<char>>,
    range: (usize, usize),
)
    requires
        block.len() > 0,
        !ends_block(block.last()),
        range.0 == before.len(),
        range.1 == before.len() + block.len() - 1,
    ensures
        replaced_lines(before + block + after, range, new_lines) == before + new_lines + after,
{
    let lines = before + block + after;
    let end = before.len() + block.len();
    assert(lines.take(before.len() as int) =~= before);
    assert(lines.skip(end as int) =~= after);
    assert(lines[end - 1] == block.last());
    if after.len() == 0 {
        assert(lines.len() == end);
    }
}

/// Whether a line begins a block or separates two: it starts with the mark of a
/// question or of a cloze text, or holds three dashes only.
pub proof fn law_blocks_begin_at_their_marks(line: Seq<char>, rest: Seq<char>)
    requires
        line.len() > 0 ==> line[0] != 'Q' && line[0] != 'C' && line[0] != '-'
            && !text::is_white_space(line[0]),
    ensures
        ends_block(seq!['Q', ':'] + rest),
        ends_block(seq!['C', ':'] + rest),
        ends_block(seq!['-', '-', '-']),
        !ends_block(line),
{
    reveal_strlit("Q:");
    reveal_strlit("C:");
    reveal_strlit("---");
    let q = seq!['Q', ':'] + rest;
    let c = seq!['C', ':'] + rest;
    let d = seq!['-', '-', '-'];
    assert(q.subrange(0, 2) =~= "Q:"@);
    assert(c.subrange(0, 2) =~= "C:"@);
    assert(d =~= "---"@);
    assert(text::trim(d) == d);
    if line.len() > 0 {
        text::lemma_trim_keeps_first(line);
        if line.len() >= 2 {
            assert(line.subrange(0, 2)[0] == line[0]);
        }
    } else {
        assert(text::trim(line).len() == 0);
    }
}

} // verus!
