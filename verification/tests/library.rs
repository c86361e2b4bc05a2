//! What the rest is made of.

use hashcards_web::check::duplicate_report;
use hashcards_web::cli::{check_config_file, config_file, DEFAULT_CONFIG_FILE};
use hashcards_web::collection::{
    check_directory, macros_path, malformed_warning, own_db_path, parse_macros,
};
use hashcards_web::db::{
    check_card_found, check_closed, check_new_card, check_rename, check_voided, columns_of,
    due_today, get_card_performance, performance_of, plan_migrations, ReviewRow, SessionRow,
    SCHEMA_VERSION,
};
use hashcards_web::drill::post::ReviewRecord;
use hashcards_web::error::{ErrorReport, Fallible, Origin, ParserError};
use hashcards_web::export::{get_card_export, get_session_export, CardContentExport};
use hashcards_web::flash::{Flash, FlashKind};
use hashcards_web::list;
use hashcards_web::markdown::{
    escape_attribute, image_addresses, is_audio_file, markdown_to_html, markdown_to_html_inline,
    replace_images, MarkdownRenderConfig, Replacement, Resolution,
};
use hashcards_web::order::{order_of, sorted};
use hashcards_web::parser::{without_duplicates, Parser};
use hashcards_web::path;
use hashcards_web::percent::{percent_encode, Safe};
use hashcards_web::serve::href::{encoded_path, safe_href};
use hashcards_web::stats::{collection_title, get_stats, stats_html, StatsFormat};
use hashcards_web::text;
use hashcards_web::types::card::{Card, CardContent};
use hashcards_web::types::card_hash::{short_digest_of, CardHash};
use hashcards_web::types::performance::{Grade, Performance, Real, ReviewedPerformance};
use hashcards_web::types::timestamp::{Date, Timestamp};

fn card(question: &str) -> Card {
    Card::new(
        "Deck".to_string(),
        "/data/deck.md".to_string(),
        (0, 1),
        CardContent::new_basic(question, "answer"),
    )
}

fn reviewed() -> ReviewedPerformance {
    ReviewedPerformance {
        last_reviewed_at: Timestamp { millis: 1 },
        stability: Real { bits: 1.0f64.to_bits() },
        difficulty: Real { bits: 3.0f64.to_bits() },
        interval_raw: Real { bits: 1.0f64.to_bits() },
        interval_days: 1,
        due_date: Date { days: 7 },
        review_count: 1,
    }
}

// The command line.

#[test]
fn test_missing_explicit_config_is_an_error() {
    let e = check_config_file(Some("./no-such-config.toml"), false).err().unwrap();
    assert!(
        e.to_text().contains("no-such-config.toml"),
        "the error must name the missing file, got: {}",
        e.to_text()
    );
}

/// Running with no configuration at all must fail loudly, naming the file it
/// looked for.
#[test]
fn test_missing_default_config_is_an_error() -> Fallible<()> {
    let missing = config_file(None, DEFAULT_CONFIG_FILE);
    assert_eq!(missing, DEFAULT_CONFIG_FILE);
    let message = check_config_file(None, false).err().unwrap().to_text();
    assert!(
        message.contains("No configuration file found"),
        "the no-config branch must report its own error, got: {message}"
    );
    assert!(
        message.contains(DEFAULT_CONFIG_FILE),
        "the error must name the file it looked for, got: {message}"
    );
    Ok(())
}

#[test]
fn a_configuration_that_is_given_is_used() {
    assert_eq!(config_file(Some("a.toml"), DEFAULT_CONFIG_FILE), "a.toml");
    assert!(check_config_file(Some("a.toml"), true).is_ok());
}

// Collections.

#[test]
fn test_non_existent_directory() {
    assert!(check_directory(false).is_err());
    assert!(check_directory(true).is_ok());
    assert_eq!(own_db_path("/data"), "/data/hashcards.db");
    assert_eq!(macros_path("/data"), "/data/macros.tex");
}

#[test]
fn test_check_reports_duplicates_and_succeeds() -> Fallible<()> {
    let read = |file: &str| {
        Parser::new("Deck".to_string(), file.to_string(), 0)
            .parse("Q: same question\nA: same answer\n")
            .unwrap()
    };
    let mut cards = read("/data/a.md");
    cards.append(&mut read("/data/b.md"));
    // Duplicates are told, and no error.
    let parsed = without_duplicates(&cards);
    assert_eq!(parsed.cards.len(), 1);
    let report = duplicate_report(&parsed.duplicates);
    assert_eq!(report.len(), 1);
    assert!(report[0].contains("a.md:1"), "report was: {}", report[0]);
    assert!(report[0].contains("b.md:1"), "report was: {}", report[0]);
    Ok(())
}

#[test]
fn test_duplicate_report_empty_without_duplicates() {
    assert!(duplicate_report(&Vec::new()).is_empty());
}

#[test]
fn test_parse_macros_reports_malformed_lines() {
    let content = "\\foo bar\n% comment\n\nnospace\n\\baz qux quux\n";
    let (macros, malformed) = parse_macros(content);
    assert_eq!(
        macros,
        vec![
            ("\\foo".to_string(), "bar".to_string()),
            ("\\baz".to_string(), "qux quux".to_string()),
        ]
    );
    // Line 4 ("nospace") has no space separator; comment and blank lines are
    // not malformed.
    assert_eq!(malformed, vec![4]);
    assert!(malformed_warning("m.tex", 4).starts_with("m.tex: line 4 is not"));
}

// Statistics.

#[test]
fn test_display_stats_format() {
    assert_eq!(StatsFormat::Html.to_text(), "html");
    assert_eq!(StatsFormat::Json.to_text(), "json");
}

#[test]
fn test_get_stats() -> Fallible<()> {
    let cards = vec![card("a"), card("b")];
    let (macros, _) = parse_macros("\\foo bar\n");
    let stats = get_stats(&cards, &Vec::new(), &macros, 0);
    assert_eq!(stats.cards_in_deck_count, 2);
    assert_eq!(stats.cards_in_db_count, 0);
    assert_eq!(stats.tex_macro_count, 1);
    assert_eq!(stats.cards_reviewed_today_count, 0);
    Ok(())
}

/// The html format renders a standalone stats page.
#[test]
fn test_stats_html_is_standalone_page() -> Fallible<()> {
    let html = stats_html("Japanese", "body { margin: 0 }", "<h2>Due forecast</h2>");
    assert!(html.starts_with("<!DOCTYPE html>"));
    assert!(html.contains("<style>"), "stylesheet must be inlined");
    assert!(html.contains("body { margin: 0 }"));
    assert!(html.contains("Due forecast"));
    assert_eq!(collection_title("/data/japanese/"), "japanese");
    assert_eq!(collection_title("/"), "Collection");
    Ok(())
}

// Errors.

/// I/O errors must render as human-readable messages.
#[test]
fn test_io_error_is_human_readable() {
    let io_err = std::io::Error::new(std::io::ErrorKind::NotFound, "file missing");
    let report = ErrorReport::from_origin(Origin::Io, &io_err.to_string());
    assert_eq!(report.to_text(), "error: I/O error: file missing");
}

/// Converting a ParserError must not stack a redundant "Parse error:" prefix
/// onto the "error:" prefix.
#[test]
fn test_parser_error_has_no_double_prefix() {
    let parser_err = ParserError {
        message: "Cloze deletion is empty.".to_string(),
        file_path: "deck.md".to_string(),
        line_num: 4,
    };
    let report = ErrorReport::from_parser(&parser_err);
    assert_eq!(
        report.to_text(),
        "error: Cloze deletion is empty. Location: deck.md:5"
    );
}

// Flash messages.

fn query(pairs: &[(&str, &str)]) -> Vec<(String, String)> {
    pairs.iter().map(|(k, v)| (k.to_string(), v.to_string())).collect()
}

#[test]
fn test_redirect_url_percent_encodes_message() {
    let flash = Flash::error("100% bad & wrong?");
    let url = flash.redirect_url("/collection/foo");
    assert_eq!(
        url,
        "/collection/foo?flash=100%25%20bad%20%26%20wrong%3F&kind=error"
    );
}

#[test]
fn test_redirect_url_appends_with_ampersand_when_query_exists() {
    let flash = Flash::success("ok");
    assert_eq!(flash.redirect_url("/x?a=1"), "/x?a=1&flash=ok&kind=success");
}

#[test]
fn test_from_query_roundtrip() {
    // The values of a query are decoded before they reach us, so plain text is
    // seen here.
    let query = query(&[("flash", "Bookmark removed."), ("kind", "success")]);
    let flash = Flash::from_query(&query).unwrap();
    assert_eq!(flash.kind, FlashKind::Success);
    assert_eq!(flash.message, "Bookmark removed.");
}

#[test]
fn test_from_query_missing_flash_is_none() {
    assert!(Flash::from_query(&Vec::new()).is_none());
}

#[test]
fn test_from_query_unknown_kind_defaults_to_error() {
    let flash = Flash::from_query(&query(&[("flash", "boom")])).unwrap();
    assert_eq!(flash.kind, FlashKind::Error);
}

#[test]
fn banners_have_a_class() {
    assert!(Flash::success("Saved.").css_class().contains("flash-success"));
    assert!(Flash::error("Nope.").css_class().contains("flash-error"));
}

// Markdown.

fn make_test_config() -> MarkdownRenderConfig {
    MarkdownRenderConfig { file_url_prefix: "http://localhost:1234/file".to_string() }
}

fn file(name: &str) -> Vec<Resolution> {
    vec![Resolution::File(name.to_string())]
}

#[test]
fn test_markdown_to_html() -> Fallible<()> {
    let markdown = "![alt](@/image.png)";
    assert_eq!(image_addresses(markdown), vec!["@/image.png"]);
    let html = markdown_to_html(&make_test_config(), markdown, &file("image.png"))?;
    assert_eq!(
        html,
        "<p><img src=\"http://localhost:1234/file/image.png\" alt=\"alt\" /></p>\n"
    );
    Ok(())
}

/// A media filename containing a double quote must not be able to close the
/// `src` attribute and inject further attributes into the `<audio>` element.
#[test]
fn test_audio_url_is_attribute_escaped() -> Fallible<()> {
    let evil_name = r#"x" onerror="alert(1).mp3"#;
    // Angle-bracket destinations let a name with quotes and spaces through.
    let html = markdown_to_html(
        &make_test_config(),
        &format!("![](<@/{evil_name}>)"),
        &file(evil_name),
    )?;
    assert!(html.contains("<audio"));
    assert!(
        !html.contains(r#"onerror="alert(1)"#),
        "attribute injection through the audio src: {html}"
    );
    Ok(())
}

#[test]
fn test_markdown_to_html_inline() -> Fallible<()> {
    let markdown = "This is **bold** text.";
    let html = markdown_to_html_inline(&make_test_config(), markdown, &Vec::new())?;
    assert_eq!(html, "This is <strong>bold</strong> text.");
    Ok(())
}

#[test]
fn test_markdown_to_html_inline_heading() -> Fallible<()> {
    let markdown = "# Foo";
    let html = markdown_to_html_inline(&make_test_config(), markdown, &Vec::new())?;
    assert_eq!(html, "<h1>Foo</h1>\n");
    Ok(())
}

#[test]
fn test_external_url_image_renders_unchanged() -> Fallible<()> {
    // External image URLs must be passed through as they are so the browser
    // fetches them directly.
    let markdown = "![alt](https://example.com/image.png)";
    let html = markdown_to_html(&make_test_config(), markdown, &vec![Resolution::External])?;
    assert!(
        html.contains("https://example.com/image.png"),
        "external URL should appear unchanged in output: {html}"
    );
    Ok(())
}

#[test]
fn test_non_http_external_url_is_rejected() -> Fallible<()> {
    // Only http/https external URLs are permitted.
    let markdown = "![alt](javascript://evil)";
    let result = markdown_to_html(&make_test_config(), markdown, &vec![Resolution::External]);
    assert!(result.is_err(), "non-http external URL should be rejected");
    Ok(())
}

#[test]
fn test_audio_title_is_attribute_escaped() -> Fallible<()> {
    // The markdown image title is interpolated into an HTML attribute; `"` and
    // `<` must be escaped.
    let markdown = r#"![alt](@/audio.mp3 "a \" <b> title")"#;
    let html = markdown_to_html(&make_test_config(), markdown, &file("audio.mp3"))?;
    assert!(
        html.contains(r#"title="a &quot; &lt;b&gt; title""#),
        "title must be attribute-escaped: {html}"
    );
    assert!(
        !html.contains(r#"<b> title"#),
        "raw markup from the title must not appear in output: {html}"
    );
    Ok(())
}

#[test]
fn images_are_replaced_in_order() -> Fallible<()> {
    let markdown = "![a](one.png) text ![b](two.mp3 \"t\")\n\n| x |\n|---|\n| $y$ |\n";
    assert_eq!(image_addresses(markdown), vec!["one.png", "two.mp3"]);
    let resolutions = vec![
        Resolution::File("dir/one two.png".to_string()),
        Resolution::File("two.mp3".to_string()),
    ];
    let html = markdown_to_html(&make_test_config(), markdown, &resolutions)?;
    assert!(html.contains("/file/dir/one%20two.png\""), "unexpected html: {html}");
    assert!(html.contains("<audio controls src=\"http://localhost:1234/file/two.mp3\" title=\"t\">"));
    assert!(html.contains("<table>"), "tables must be understood: {html}");
    assert!(html.contains("math"), "formulas must be understood: {html}");
    assert!(markdown_to_html(&make_test_config(), markdown, &Vec::new()).is_err());
    let failed = vec![Resolution::Failed("gone".to_string()), Resolution::External];
    let e = markdown_to_html(&make_test_config(), markdown, &failed).err().unwrap();
    assert_eq!(e.message(), "Failed to resolve media path 'one.png': gone");
    Ok(())
}

#[test]
fn pieces_without_an_image_are_kept() -> Fallible<()> {
    let pieces = vec![None, Some(("a.png".to_string(), String::new())), None];
    let replaced = replace_images(&pieces, &make_test_config(), &file("a.png"))?;
    assert!(matches!(replaced[0], Replacement::Kept));
    assert!(matches!(&replaced[1], Replacement::Image(u) if u.ends_with("/file/a.png")));
    assert!(matches!(replaced[2], Replacement::Kept));
    Ok(())
}

#[test]
fn sounds_are_known_by_their_ending() {
    assert!(is_audio_file("a.mp3"));
    assert!(is_audio_file("a.b.ogg"));
    assert!(!is_audio_file("a.png"));
    assert_eq!(escape_attribute("a&b<c>\"'"), "a&amp;b&lt;c&gt;&quot;&#39;");
}

// Addresses.

#[test]
fn encodes_what_would_end_a_url_path() {
    assert_eq!(encoded_path("a/b.md"), "a/b.md");
    assert_eq!(encoded_path("a#b?c.md"), "a%23b%3Fc.md");
    assert_eq!(encoded_path("my cards/d\u{ed}a 1.md"), "my%20cards/d%C3%ADa%201.md");
}

/// Even if a bad URL reaches the state, it must not become a clickable link.
#[test]
fn manage_page_never_links_unsafe_url_schemes() {
    assert_eq!(safe_href("javascript:alert(1)"), None);
    assert_eq!(safe_href("JavaScript:alert(1)"), None);
}

#[test]
fn manage_page_links_https_urls() {
    assert_eq!(
        safe_href("https://notes.example.com/abc"),
        Some("https://notes.example.com/abc")
    );
}

#[test]
fn encoding_agrees_with_the_crate() {
    for s in ["", "abc", "a b&c=d%", "\u{e9}\u{1F600}", "~-_.!*"] {
        assert_eq!(
            percent_encode(s, Safe::Alphanumeric),
            percent_encoding::utf8_percent_encode(s, percent_encoding::NON_ALPHANUMERIC)
                .to_string()
        );
    }
}

// The database.

#[test]
fn test_insert_twice() {
    assert!(check_new_card(false).is_ok());
    let e = check_new_card(true).err().unwrap();
    assert_eq!(e.to_text(), "error: Card already exists");
}

#[test]
fn test_get_performance_nonexistent() {
    let hash = CardHash::hash_bytes(b"a");
    let e = get_card_performance(None, hash).err().unwrap();
    assert_eq!(
        e.to_text(),
        format!("error: No performance data found for card with hash {}", hash.to_hex())
    );
    assert!(get_card_performance(Some(Performance::New), hash).unwrap().is_new());
}

#[test]
fn test_update_performance_nonexistent() {
    assert!(check_card_found(0).is_err());
    assert!(check_card_found(1).is_ok());
}

#[test]
fn test_void_review_wrong_card_is_rejected() {
    let e = check_voided(0).err().unwrap();
    assert_eq!(e.message(), "review not found or does not belong to this card");
    assert!(check_voided(1).is_ok());
}

#[test]
fn test_close_nonexistent_session_is_error() {
    let e = check_closed(0, 999).err().unwrap();
    assert_eq!(e.message(), "No session with ID 999 to close");
    assert!(check_closed(1, 1).is_ok());
}

/// A database stamped with a schema version newer than this build supports is
/// rejected with a clear error instead of being mangled.
#[test]
fn test_newer_schema_version_is_rejected() -> Fallible<()> {
    let result = plan_migrations(999);
    assert!(result.is_err());
    let message = result.err().unwrap().to_text();
    assert!(message.contains("999"), "unhelpful error: {message}");
    Ok(())
}

#[test]
fn test_reopening_migrated_db_is_stable() -> Fallible<()> {
    assert!(plan_migrations(SCHEMA_VERSION)?.is_empty());
    let steps: Vec<i64> = plan_migrations(0)?.iter().map(|m| m.0).collect();
    assert_eq!(steps, (1..=SCHEMA_VERSION).collect::<Vec<i64>>());
    Ok(())
}

/// Renaming fails when the new hash already exists.
#[test]
fn test_rename_card_hash_conflict() {
    assert!(check_rename(true, true).is_err());
    assert!(check_rename(false, false).is_err());
    assert!(check_rename(true, false).is_ok());
}

#[test]
fn test_update_performance() {
    let performance = Performance::Reviewed(reviewed());
    assert_eq!(performance_of(&columns_of(&performance)), performance);
    assert_eq!(performance_of(&columns_of(&Performance::New)), Performance::New);
}

#[test]
fn new_and_overdue_cards_are_due() {
    let h = |b: &[u8]| CardHash::hash_bytes(b);
    let rows = vec![
        (h(b"new"), None),
        (h(b"due"), Some(Date { days: 10 })),
        (h(b"later"), Some(Date { days: 11 })),
    ];
    assert_eq!(due_today(&rows, Date { days: 10 }), vec![h(b"new"), h(b"due")]);
}

// Exports.

#[test]
fn test_full_export() {
    let a = card("a");
    let cards = vec![a.clone(), card("b")];
    let known = vec![Some(Performance::Reviewed(reviewed())), None];
    let exported = get_card_export(&cards, &known);
    assert_eq!(exported.len(), 2);
    assert_eq!(exported[0].hash, a.hash());
    assert_eq!(exported[0].deck_name, "Deck");
    assert!(matches!(
        &exported[0].content,
        CardContentExport::Basic { question, answer } if question == "a" && answer == "answer"
    ));
    assert!(exported[0].performance.is_some());
    assert!(exported[1].performance.is_none());
    let session = SessionRow {
        session_id: 1,
        started_at: Timestamp { millis: 1 },
        ended_at: Timestamp { millis: 2 },
    };
    let review = ReviewRow {
        review_id: 5,
        data: ReviewRecord {
            card_hash: a.hash(),
            reviewed_at: Timestamp { millis: 1 },
            grade: Grade::Easy,
            stability: Real { bits: 1 },
            difficulty: Real { bits: 2 },
            interval_raw: Real { bits: 3 },
            interval_days: 1,
            due_date: Date { days: 1 },
            duration_ms: None,
        },
    };
    let sessions = get_session_export(&vec![(session, vec![review])]);
    assert_eq!(sessions.len(), 1);
    assert_eq!(sessions[0].reviews[0].review_id, 5);
    assert_eq!(sessions[0].reviews[0].grade, Grade::Easy);
}

// Hashes.

#[test]
fn hashes_are_those_of_the_crate() -> Fallible<()> {
    let hash = CardHash::hash_bytes(b"a");
    assert_eq!(hash.to_hex(), blake3::hash(b"a").to_hex().to_string());
    assert_eq!(CardHash::from_hex(&hash.to_hex())?, hash);
    assert!(CardHash::from_hex("zz").is_err());
    assert!(blake3::hash(b"abc").to_hex().to_string().starts_with(&short_digest_of("abc")));
    Ok(())
}

#[test]
fn cards_are_known_by_their_content() {
    assert_eq!(card("a").hash(), card("a").hash());
    assert_ne!(card("a").hash(), card("b").hash());
    assert!(card("a").family_hash().is_none());
    let one = CardContent::new_cloze("A x B y", 2, 2);
    let two = CardContent::new_cloze("A x B y", 6, 6);
    assert_ne!(one.hash(), two.hash());
    assert_eq!(one.family_hash(), two.family_hash());
}

// Texts, paths and lists.

#[test]
fn texts_are_taken_apart() {
    assert_eq!(text::split_at_char("a/b//c", '/'), vec!["a", "b", "", "c"]);
    assert_eq!(text::split_once_at("a=b=c", '='), Some(("a".to_string(), "b=c".to_string())));
    assert_eq!(text::lines_of("a\r\nb\n\nc"), vec!["a", "b", "", "c"]);
    assert_eq!(text::trim_of(" \t\u{a0}x y\u{3000}"), "x y");
    assert_eq!(text::decimal_of(1024), "1024");
    assert_eq!(text::signed_decimal_of(i64::MIN), "-9223372036854775808");
    assert_eq!(text::number_of("0042"), Some(42));
    assert_eq!(text::number_of("4x"), None);
    assert_eq!(text::replaced_text("aXbX", "X", "--"), "a--b--");
    assert!(text::comes_before("a", "b"));
    assert!(!text::comes_before("b", "a"));
}

#[test]
fn paths_are_taken_apart() {
    assert_eq!(path::join("/a", "b"), "/a/b");
    assert_eq!(path::join("/a/", "b"), "/a/b");
    assert_eq!(path::join("/a", "/b"), "/b");
    assert_eq!(path::components_of("a/./b//c"), vec!["a", "b", "c"]);
    assert_eq!(path::extension_of("/a/.hidden"), None);
    assert_eq!(path::strip_prefix("/a/b/c", "/a"), Some("b/c".to_string()));
    assert_eq!(path::strip_prefix("/ab/c", "/a"), None);
    assert!(path::climbs("a/../b"));
}

#[test]
fn lists_are_put_in_order() {
    assert_eq!(list::sorted(&vec![3, 1, 2]), vec![1, 2, 3]);
    let names: Vec<String> = ["b", "B", "a"].iter().map(|s| s.to_string()).collect();
    assert_eq!(sorted(&names), vec!["B", "a", "b"]);
    assert_eq!(order_of(&names), vec![1, 2, 0]);
}
