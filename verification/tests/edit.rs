//! Edits of cards, and what becomes of their history.

use hashcards_web::drill::cache::Cache;
use hashcards_web::serve::edit::{
    after_edit, beginning_at, block_end, check_mtime, check_unchanged, edited_hash, edited_text,
    extract_card_block, find_edited, hash_updates, is_card_terminator, rejected_message,
    revert_file, siblings, skipped_flash, splice_card_block, tmp_name_for, EditForm, EditStep,
    HashUpdate,
};
use hashcards_web::serve::migration::{plan_hash_migration, MigrationPlan};
use hashcards_web::types::card::{Card, CardContent};
use hashcards_web::types::card_hash::CardHash;
use hashcards_web::types::performance::Performance;

fn cloze(text: &str, start: usize, end: usize) -> Card {
    Card::new(
        "Deck".to_string(),
        "/tmp/deck.md".to_string(),
        (0, 0),
        CardContent::new_cloze(text, start, end),
    )
}

fn basic(question: &str, answer: &str, range: (usize, usize)) -> Card {
    Card::new(
        "Deck".to_string(),
        "/tmp/deck.md".to_string(),
        range,
        CardContent::new_basic(question, answer),
    )
}

fn lines(texts: &[&str]) -> Vec<String> {
    texts.iter().map(|t| t.to_string()).collect()
}

/// Reordering deletions must pair history by deletion content, not document
/// order.
#[test]
fn test_migration_matches_by_deletion_content_not_order() {
    // "A x B y": deletion "x" at bytes 2..=2, "y" at 6..=6.
    let old_x = cloze("A x B y", 2, 2);
    let old_y = cloze("A x B y", 6, 6);
    // Edited to "A y B x": deletion order swapped.
    let new_y = cloze("A y B x", 2, 2);
    let new_x = cloze("A y B x", 6, 6);

    let plan = plan_hash_migration(
        &vec![old_x.clone(), old_y.clone()],
        &vec![new_y.clone(), new_x.clone()],
    );

    assert_eq!(plan.skipped, 0);
    assert!(plan.fresh.is_empty());
    assert_eq!(plan.renames.len(), 2);
    // "x" history follows the "x" deletion, "y" follows "y".
    assert!(plan.renames.contains(&(old_x.hash(), new_x.hash())));
    assert!(plan.renames.contains(&(old_y.hash(), new_y.hash())));
}

#[test]
fn test_migration_skips_ambiguous_duplicate_deletions() {
    // Two deletions with identical text "x": no unambiguous pairing.
    let old_a = cloze("x and x", 0, 0);
    let old_b = cloze("x and x", 6, 6);
    let new_a = cloze("x plus x", 0, 0);
    let new_b = cloze("x plus x", 7, 7);

    let plan = plan_hash_migration(&vec![old_a, old_b], &vec![new_a, new_b]);

    assert!(plan.renames.is_empty());
    assert_eq!(plan.fresh.len(), 2);
    assert_eq!(plan.skipped, 2);
}

#[test]
fn test_migration_unchanged_cards_are_untouched() {
    let old = cloze("A x B", 2, 2);
    let new = cloze("A x B", 2, 2);
    let plan = plan_hash_migration(&vec![old], &vec![new]);
    assert!(plan.renames.is_empty());
    assert!(plan.fresh.is_empty());
    assert_eq!(plan.skipped, 0);
}

#[test]
fn test_migration_pairs_single_basic_card() {
    let old = basic("Q old", "A old", (0, 1));
    let new = basic("Q new", "A new", (0, 1));
    let plan = plan_hash_migration(&vec![old.clone()], &vec![new.clone()]);
    assert_eq!(plan.renames, vec![(old.hash(), new.hash())]);
    assert!(plan.fresh.is_empty());
    assert_eq!(plan.skipped, 0);
}

#[test]
fn test_migration_pure_addition_is_not_skipped() {
    // A brand-new deletion with no old history to lose.
    let new = cloze("A x B", 2, 2);
    let plan = plan_hash_migration(&Vec::new(), &vec![new.clone()]);
    assert!(plan.renames.is_empty());
    assert_eq!(plan.fresh, vec![new.hash()]);
    assert_eq!(plan.skipped, 0);
}

#[test]
fn test_block_end_terminator() {
    let lines = lines(&["Q: foo", "A: bar", "---", "Q: baz"]);
    // Card at (0, 2): lines[2] = "---" ends the block.
    assert_eq!(block_end(&lines, (0, 2)), 2);
}

#[test]
fn test_block_end_eof() {
    let lines = lines(&["Q: foo", "A: bar"]);
    // Card at (0, 1): lines[1] = "A: bar" does not end the block.
    assert_eq!(block_end(&lines, (0, 1)), 2);
}

#[test]
fn test_block_end_next_card() {
    let lines = lines(&["Q: foo", "A: bar", "Q: baz", "A: quux"]);
    // First card at (0, 2): lines[2] = "Q: baz" ends the block.
    assert_eq!(block_end(&lines, (0, 2)), 2);
}

#[test]
fn test_extract_card_block_no_fm() {
    let content = "Q: foo\nA: bar\n---\nQ: baz\nA: quux";
    let block = extract_card_block(content, (0, 2)).unwrap();
    assert_eq!(block, "Q: foo\nA: bar");
}

#[test]
fn test_extract_card_block_eof() {
    let content = "Q: foo\nA: bar";
    let block = extract_card_block(content, (0, 1)).unwrap();
    assert_eq!(block, "Q: foo\nA: bar");
}

#[test]
fn extracting_behind_the_end_is_an_error() {
    assert!(extract_card_block("Q: foo\nA: bar", (7, 8)).is_err());
}

#[test]
fn test_splice_basic() {
    let original = "Q: foo\nA: bar\n---\nQ: baz\nA: quux\n";
    let result = splice_card_block(original, (0, 2), "Q: foo edited\nA: bar edited");
    assert_eq!(result, "Q: foo edited\nA: bar edited\n---\nQ: baz\nA: quux\n");
}

#[test]
fn test_splice_eof() {
    let original = "Q: foo\nA: bar\n";
    let result = splice_card_block(original, (0, 1), "Q: foo edited\nA: bar edited");
    assert_eq!(result, "Q: foo edited\nA: bar edited\n");
}

#[test]
fn test_revert_failure_reports_inconsistent_file() {
    let msg = revert_file("/tmp/test.md", "permission denied");
    assert!(msg.contains("may be inconsistent"), "unexpected message: {msg}");
}

#[test]
fn test_splice_rejects_stale_mtime() {
    // Pretend the form was opened against a different (older) mtime.
    let msg = check_unchanged(1001, 1000, None).err().unwrap().to_text();
    assert!(msg.contains("changed on disk"), "unexpected message: {msg}");
    assert!(check_unchanged(1000, 1000, None).is_ok());
    let msg = check_unchanged(1001, 1000, Some(("/tmp/x.tmp", "busy"))).err().unwrap().to_text();
    assert!(msg.contains("/tmp/x.tmp could not be removed: busy"), "unexpected message: {msg}");
}

#[test]
fn test_splice_with_frontmatter_absolute_range() {
    // Q: is on absolute 0-based line 3, A: on line 4.
    let original = "---\nname = \"X\"\n---\nQ: foo\nA: bar\n";
    let result = splice_card_block(original, (3, 4), "Q: foo edited\nA: bar edited");
    assert_eq!(result, "---\nname = \"X\"\n---\nQ: foo edited\nA: bar edited\n");
}

#[test]
fn an_edit_stays_in_its_block() {
    let original = "Q: a\nA: 1\n\nQ: b\nA: 2\n\nQ: c\nA: 3\n";
    let result = splice_card_block(original, (3, 6), "Q: B\nA: two");
    assert!(result.starts_with("Q: a\nA: 1\n\nQ: B\nA: two\n"));
    assert!(result.ends_with("Q: c\nA: 3\n"));
}

#[test]
fn cards_and_rules_end_a_block() {
    assert!(is_card_terminator("---"));
    assert!(is_card_terminator("Q: x"));
    assert!(is_card_terminator("C: x"));
    assert!(!is_card_terminator("A: x"));
    assert!(!is_card_terminator(""));
}

#[test]
fn a_form_must_carry_the_current_time_of_the_file() {
    let form = |mtime: &str| EditForm {
        new_text: "  Q: x\nA: y \n".to_string(),
        mtime_ms: mtime.to_string(),
    };
    assert_eq!(check_mtime(&form("12"), 12).unwrap(), 12);
    let msg = check_mtime(&form("12"), 13).err().unwrap().to_text();
    assert!(msg.contains("changed on disk"), "unexpected message: {msg}");
    let msg = check_mtime(&form("soon"), 13).err().unwrap().to_text();
    assert!(msg.contains("Invalid mtime"), "unexpected message: {msg}");
    assert_eq!(edited_text(&form("1")), "Q: x\nA: y");
}

#[test]
fn an_edited_card_is_found_by_its_hash() {
    let card = basic("q", "a", (0, 1));
    let cards = vec![basic("r", "b", (2, 3)), card.clone()];
    let hex = card.hash().to_hex();
    let hash = edited_hash(false, &hex).unwrap();
    assert_eq!(hash, card.hash());
    assert_eq!(find_edited(&cards, hash).unwrap().range(), (0, 1));
    // Of two cards with one content the first is edited.
    let again = vec![basic("q", "a", (4, 5)), card.clone()];
    assert_eq!(find_edited(&again, hash).unwrap().range(), (4, 5));
    let message = |active, hex: &str| edited_hash(active, hex).err().unwrap().message().to_string();
    assert!(message(true, &hex).contains("drill session is active"));
    assert!(message(false, "zz").contains("Invalid card hash: zz"));
    let missing = find_edited(&cards, CardHash::hash_bytes(b"x")).err().unwrap();
    assert!(missing.message().contains("not found"));
}

fn hashes(cards: &[Card]) -> Vec<CardHash> {
    cards.iter().map(|c| c.hash()).collect()
}

#[test]
fn cards_of_one_block_are_told_apart_from_others() {
    let a = cloze("A x B y", 2, 2);
    let b = cloze("A x B y", 6, 6);
    let other = basic("q", "a", (4, 5));
    let cards = vec![a.clone(), other.clone(), b.clone()];
    assert_eq!(hashes(&siblings(&cards, &a)), vec![a.hash(), b.hash()]);
    assert_eq!(hashes(&beginning_at(&cards, "/tmp/deck.md", 4)), vec![other.hash()]);
    assert!(beginning_at(&cards, "/tmp/other.md", 4).is_empty());
}

#[test]
fn a_plan_becomes_updates() {
    let h = |b: &[u8]| CardHash::hash_bytes(b);
    let plan = MigrationPlan {
        renames: vec![(h(b"1"), h(b"2"))],
        fresh: vec![h(b"3"), h(b"4")],
        skipped: 0,
    };
    assert_eq!(
        hash_updates(&plan),
        vec![
            HashUpdate::Replace(h(b"1"), h(b"2")),
            HashUpdate::Insert(h(b"3")),
            HashUpdate::Insert(h(b"4")),
        ]
    );
}

fn stays(step: EditStep) -> (Vec<HashUpdate>, usize) {
    match step {
        EditStep::Update { updates, skipped } => (updates, skipped),
        EditStep::Revert(message) => panic!("{message}"),
    }
}

#[test]
fn an_edit_stays_if_the_file_is_still_understood() {
    let card = basic("q", "a", (0, 1));
    let olds = vec![card.clone()];
    let new = basic("q", "b", (0, 1)).hash();
    assert_eq!(
        stays(after_edit(&card, &olds, "Q: q\nA: b\n")),
        (vec![HashUpdate::Replace(card.hash(), new)], 0)
    );
    assert_eq!(stays(after_edit(&card, &olds, "Q: q\nA: a\n")), (Vec::new(), 0));
    match after_edit(&card, &olds, "Q: q\n") {
        EditStep::Revert(message) => {
            assert!(message.starts_with("Parse error \u{2014} edit reverted: error: "), "{message}");
            assert!(message.contains("/tmp/deck.md"), "{message}");
        }
        EditStep::Update { .. } => panic!("a question without an answer is no card"),
    }
    let front = "---\nname = \n---\nQ: q\nA: a\n";
    assert!(matches!(after_edit(&card, &olds, front), EditStep::Revert(_)));
}

/// Deletions that change places keep their own history, also where one more
/// joins them.
#[test]
fn an_edit_matches_deletions_by_content() {
    let old_x = cloze("A x B y", 2, 2);
    let old_y = cloze("A x B y", 6, 6);
    let olds = vec![old_x.clone(), old_y.clone()];
    let (updates, skipped) = stays(after_edit(&old_x, &olds, "C: A [y] B [x]\n"));
    assert_eq!(
        updates,
        vec![
            HashUpdate::Replace(old_x.hash(), cloze("A y B x", 6, 6).hash()),
            HashUpdate::Replace(old_y.hash(), cloze("A y B x", 2, 2).hash()),
        ]
    );
    assert_eq!(skipped, 0);
    let (updates, skipped) = stays(after_edit(&old_x, &olds, "C: A [y] B [z] C [x]\n"));
    assert_eq!(
        updates,
        vec![
            HashUpdate::Replace(old_x.hash(), cloze("A y B z C x", 10, 10).hash()),
            HashUpdate::Replace(old_y.hash(), cloze("A y B z C x", 2, 2).hash()),
            HashUpdate::Insert(cloze("A y B z C x", 6, 6).hash()),
        ]
    );
    assert_eq!(skipped, 0);
    // A deletion that is written anew cannot be told.
    let (updates, skipped) = stays(after_edit(&old_x, &olds, "C: A [x] B [z]\n"));
    assert_eq!(
        updates,
        vec![
            HashUpdate::Replace(old_x.hash(), cloze("A x B z", 2, 2).hash()),
            HashUpdate::Insert(cloze("A x B z", 6, 6).hash()),
        ]
    );
    assert_eq!(skipped, 1);
    assert!(skipped_flash(0).is_none());
    assert_eq!(
        skipped_flash(skipped).unwrap().message,
        "Saved. 1 could not be matched to their old review history and start fresh."
    );
}

#[test]
fn temporary_files_lie_beside_their_file() {
    assert_eq!(tmp_name_for("/tmp/cards/deck.md"), ".deck.md.hashcards-edit.tmp");
    assert_eq!(rejected_message("x"), "Parse error \u{2014} edit reverted: x");
}

#[test]
fn a_rename_keeps_the_performance_of_a_card() {
    let old = basic("Q old", "A old", (0, 1));
    let new = basic("Q new", "A new", (0, 1));
    let mut cache = Cache::new();
    cache.insert(old.hash(), Performance::New).unwrap();
    let plan = plan_hash_migration(&vec![old.clone()], &vec![new.clone()]);
    for (from, to) in plan.renames {
        cache.rekey(from, to);
    }
    assert!(cache.get(new.hash()).unwrap().is_new());
}
