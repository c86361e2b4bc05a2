//! Reading card files.

use hashcards_web::check::duplicate_report;
use hashcards_web::error::ErrorReport;
use hashcards_web::parser::{
    cloze_of, collect_deck, deck_name_in, parse_file, strip_frontmatter_with_offset,
    without_duplicates, Parser,
};
use hashcards_web::serve::edit::extract_card_block;
use hashcards_web::types::card::{Card, CardContent};

type Outcome<T> = Result<T, ErrorReport>;

fn read(content: &str) -> Outcome<Vec<Card>> {
    Parser::new("Deck".to_string(), "deck.md".to_string(), 0).parse(content)
}

fn message(content: &str) -> String {
    match read(content) {
        Ok(_) => panic!("expected an error"),
        Err(e) => e.message().to_string(),
    }
}

fn basic(card: &Card) -> (String, String) {
    match card.content() {
        CardContent::Basic { question, answer } => (question.clone(), answer.clone()),
        CardContent::Cloze { .. } => panic!("expected a question"),
    }
}

#[test]
fn questions_are_read_with_their_answers() -> Outcome<()> {
    let cards = read("intro\n\nQ: one\nmore\nA: 1\n\nand more\n---\nnotes\nQ: two\nA: 2")?;
    assert_eq!(cards.len(), 2);
    assert_eq!(basic(&cards[0]), ("one\nmore".to_string(), "1\n\nand more".to_string()));
    assert_eq!(basic(&cards[1]), ("two".to_string(), "2".to_string()));
    assert_eq!(cards[0].range(), (2, 7));
    assert_eq!(cards[1].range(), (9, 10));
    assert_eq!(cards[0].deck_name(), "Deck");
    assert_eq!(cards[0].file_path(), "deck.md");
    assert!(read("")?.is_empty());
    assert!(read("only notes\n---\nand more")?.is_empty());
    Ok(())
}

#[test]
fn a_cloze_text_gives_a_card_for_each_deletion() -> Outcome<()> {
    let cards = read("C: The [cat] and the [dög].\nQ: a\nA: b\n")?;
    assert_eq!(cards.len(), 3);
    let places: Vec<(String, usize, usize)> = cards[..2]
        .iter()
        .map(|c| match c.content() {
            CardContent::Cloze { text, start, end } => (text.clone(), *start, *end),
            CardContent::Basic { .. } => panic!("expected a cloze text"),
        })
        .collect();
    let text = "The cat and the dög.";
    assert_eq!(places[0], (text.to_string(), 4, 6));
    assert_eq!(places[1], (text.to_string(), 16, 19));
    assert_eq!(&text[16..=19], "dög");
    assert_eq!(cards[0].family_hash(), cards[1].family_hash());
    assert_ne!(cards[0].hash(), cards[1].hash());
    assert_eq!(cards[0].range(), (0, 1));
    Ok(())
}

#[test]
fn deletions_lie_in_their_text() {
    assert_eq!(cloze_of("no brackets"), ("no brackets".to_string(), vec![]));
    assert_eq!(cloze_of("an [open one"), ("an [open one".to_string(), vec![]));
    assert_eq!(cloze_of("[]x[y]"), ("[]xy".to_string(), vec![(3, 3)]));
    assert_eq!(
        cloze_of("![img](a.png) [link](b) [c]"),
        ("![img](a.png) [link](b) c".to_string(), vec![(24, 24)])
    );
}

#[test]
fn faults_are_told_with_their_line() {
    assert_eq!(
        message("Q: a\nQ: b\nA: c"),
        "Found a question without an answer. Location: deck.md:1"
    );
    assert_eq!(
        message("Q: a\nA: b\nA: c"),
        "Found a second answer to a question. Location: deck.md:3"
    );
    assert_eq!(message("x\nA: b"), "Found an answer without a question. Location: deck.md:2");
    assert_eq!(
        message("C: [a]\nA: b"),
        "Found an answer without a question. Location: deck.md:2"
    );
    assert_eq!(
        message("\nC: nothing hidden"),
        "Found a cloze text without a deletion. Location: deck.md:2"
    );
    let parser = Parser::new("Deck".to_string(), "deck.md".to_string(), 10);
    assert_eq!(
        parser.parse("Q: a").err().map(|e| e.message().to_string()),
        Some("Found a question without an answer. Location: deck.md:11".to_string())
    );
}

#[test]
fn a_deck_may_name_itself() -> Outcome<()> {
    let content = "---\nname = \"Verbs\"\n---\nQ: a\nA: b\n";
    assert_eq!(deck_name_in(content, "file")?, "Verbs");
    assert_eq!(deck_name_in("---\ncolor = \"red\"\n---\nQ: a\n", "file")?, "file");
    assert_eq!(deck_name_in("Q: a\nA: b\n", "file")?, "file");
    let parsed = parse_file("file", "a.md", content)?;
    assert_eq!(parsed.cards[0].deck_name(), "Verbs");
    assert_eq!(parsed.cards[0].range(), (3, 4));
    let (body, offset) = strip_frontmatter_with_offset(content)?;
    assert_eq!((body.as_str(), offset), ("Q: a\nA: b\n", 3));
    let broken = "---\nname = \n---\nQ: a\nA: b\n";
    let told = parse_file("file", "a.md", broken).err().map(|e| e.message().to_string());
    assert!(told.is_some_and(|t| t.starts_with("Failed to parse the settings of a deck: ")));
    Ok(())
}

#[test]
fn a_card_that_was_read_can_be_edited() -> Outcome<()> {
    let content = "---\nname = \"X\"\n---\nQ: a\nA: b\n---\nQ: c\nA: d\n";
    let parsed = parse_file("x", "x.md", content)?;
    assert_eq!(extract_card_block(content, parsed.cards[0].range())?, "Q: a\nA: b");
    assert_eq!(extract_card_block(content, parsed.cards[1].range())?, "Q: c\nA: d");
    Ok(())
}

#[test]
fn each_content_is_kept_once_and_sorted() -> Outcome<()> {
    let parsed = parse_file("a", "a.md", "Q: a\nA: b\nQ: c\nA: d\nQ: a\nA: b\n")?;
    assert_eq!(parsed.cards.len(), 2);
    assert_eq!(
        duplicate_report(&parsed.duplicates),
        vec!["warning: Duplicate card at a.md:5 (first at a.md:1)"]
    );
    let mut all = parsed.cards;
    all.extend(parse_file("b", "b.md", "Q: e\nA: f\nQ: c\nA: d\n")?.cards);
    let deck = collect_deck(&all);
    assert_eq!(deck.cards.len(), 3);
    assert_eq!(
        duplicate_report(&deck.duplicates),
        vec!["warning: Duplicate card at b.md:3 (first at a.md:3)"]
    );
    let addresses: Vec<String> = deck.cards.iter().map(|c| c.hash().to_hex()).collect();
    let mut sorted = addresses.clone();
    sorted.sort();
    assert_eq!(addresses, sorted);
    assert_eq!(without_duplicates(&deck.cards).cards.len(), 3);
    Ok(())
}
