//! The drill session: its cache, its steps and its pages.

use hashcards_web::db::ReviewRow;
use hashcards_web::drill::assets::{
    font_dir_url, hljs_css_url, hljs_js_url, is_font, is_katex_font, katex_css, katex_css_url,
    katex_js_url, katex_mhchem_js_url, revision, revisioned_cache_control, style_url,
    CACHE_CONTROL_IMMUTABLE, CACHE_CONTROL_REVALIDATE, KATEX_FONT_DIR,
};
use hashcards_web::drill::cache::Cache;
use hashcards_web::drill::get::{
    duration_text, grade_buttons, progress_text, render_completion_page, render_session_page,
    summary_line, CompletionAction, CompletionPage, RenderContext,
};
use hashcards_web::drill::post::{
    handle_action, record, review_voided, review_written, session_closed, Action, ActionResult,
    ReviewRecord, Step,
};
use hashcards_web::drill::render::{escape_js_string_literal, AnswerControls};
use hashcards_web::drill::server::{
    bury_siblings, content_type, due_cards, duplicate_warning, filter_deck,
    finalize_interrupted_session, new_hashes, render_macros_declaration,
};
use hashcards_web::drill::state::{MutableState, Review, SessionDb, SessionDbs, SessionSource};
use hashcards_web::drill::table::{distinct, CardTable};
use hashcards_web::error::{fail, Fallible};
use hashcards_web::serve::config::AnswerControlsConfig;
use hashcards_web::types::card::{Card, CardContent};
use hashcards_web::types::card_hash::CardHash;
use hashcards_web::types::performance::{Grade, Performance, Real, ReviewedPerformance};
use hashcards_web::types::timestamp::{Date, Timestamp};

fn bits_of(x: f64) -> Real {
    Real { bits: x.to_bits() }
}

fn at(millis: i64) -> Timestamp {
    Timestamp { millis }
}

fn now() -> Timestamp {
    at(chrono::Utc::now().timestamp_millis())
}

fn make_card(deck: &str, question: &str) -> Card {
    Card::new(
        deck.to_string(),
        "/tmp/deck.md".to_string(),
        (1, 2),
        CardContent::new_basic(question, "answer"),
    )
}

fn reviewed(now: Timestamp) -> ReviewedPerformance {
    ReviewedPerformance {
        last_reviewed_at: now,
        stability: bits_of(2.0),
        difficulty: bits_of(2.0),
        interval_raw: bits_of(1.0),
        interval_days: 1,
        due_date: now.date(),
        review_count: 1,
    }
}

fn make_review(card: &Card, grade: Grade) -> Review {
    Review { card: card.clone(), review_id: 1, grade, prev_performance: Performance::New }
}

fn make_mutable() -> MutableState {
    MutableState::new(SessionDbs::single(1), Cache::new(), Vec::new())
}

/// A session with these cards, all of them new.
fn session_of(cards: &[Card]) -> MutableState {
    let mut cache = Cache::new();
    for card in cards {
        cache.insert(card.hash(), Performance::New).unwrap();
    }
    MutableState::new(SessionDbs::single(1), cache, cards.to_vec())
}

fn make_ctx() -> RenderContext<'static> {
    RenderContext {
        directory: ".",
        total_cards: 0,
        session_started_at: now(),
        answer_controls: AnswerControls::Full,
        form_action: "/",
        file_url_prefix: "http://localhost:0/file",
        completion_action: CompletionAction::Shutdown,
    }
}

// The cache.

#[test]
fn test_cache_insert_and_get() -> Fallible<()> {
    let mut cache = Cache::new();
    let card_hash = CardHash::hash_bytes(b"a");
    let performance = Performance::New;
    cache.insert(card_hash, performance)?;
    let retrieved = cache.get(card_hash)?;
    match retrieved {
        Performance::New => Ok(()),
        _ => fail("Expected Performance::New"),
    }
}

#[test]
fn test_cache_update() -> Fallible<()> {
    let mut cache = Cache::new();
    let card_hash = CardHash::hash_bytes(b"a");
    let performance = Performance::New;
    cache.insert(card_hash, performance)?;
    let last_reviewed_at = now();
    let stability = bits_of(1.0);
    let difficulty = bits_of(2.0);
    let interval_raw = bits_of(0.4);
    let interval_days = 1;
    let due_date = now().date();
    let review_count = 3;
    cache.update(
        card_hash,
        Performance::Reviewed(ReviewedPerformance {
            last_reviewed_at,
            stability,
            difficulty,
            interval_raw,
            interval_days,
            due_date,
            review_count,
        }),
    )?;
    let retrieved = cache.get(card_hash)?;
    match retrieved {
        Performance::Reviewed(rp) => {
            assert_eq!(rp.last_reviewed_at, last_reviewed_at);
            assert_eq!(rp.stability, stability);
            assert_eq!(rp.difficulty, difficulty);
            assert_eq!(f64::from_bits(rp.interval_raw.bits), 0.4);
            assert_eq!(rp.interval_days, interval_days);
            assert_eq!(rp.due_date, due_date);
            assert_eq!(rp.review_count, review_count);
            Ok(())
        }
        _ => fail("Expected Performance::Reviewed"),
    }
}

#[test]
fn test_cache_insert_duplicate() -> Fallible<()> {
    let mut cache = Cache::new();
    let card_hash = CardHash::hash_bytes(b"a");
    let performance = Performance::New;
    cache.insert(card_hash, performance)?;
    assert!(cache.insert(card_hash, performance).is_err());
    Ok(())
}

#[test]
fn test_cache_get_nonexistent() -> Fallible<()> {
    let cache = Cache::new();
    let card_hash = CardHash::hash_bytes(b"a");
    assert!(cache.get(card_hash).is_err());
    Ok(())
}

#[test]
fn test_cache_update_nonexistent() -> Fallible<()> {
    let mut cache = Cache::new();
    let card_hash = CardHash::hash_bytes(b"a");
    let last_reviewed_at = now();
    let reviewed = Performance::Reviewed(ReviewedPerformance {
        last_reviewed_at,
        stability: bits_of(1.0),
        difficulty: bits_of(2.0),
        interval_raw: bits_of(0.4),
        interval_days: 1,
        due_date: now().date(),
        review_count: 3,
    });
    let res = cache.update(card_hash, reviewed);
    assert!(res.is_err());
    Ok(())
}

/// A rename moves the performance to the new hash and forgets the old one: a
/// session that kept both would answer `get` for a card that no file contains
/// any more.
#[test]
fn test_cache_rekey_moves_the_performance() -> Fallible<()> {
    let mut cache = Cache::new();
    let old = CardHash::hash_bytes(b"old");
    let new = CardHash::hash_bytes(b"new");
    cache.insert(old, Performance::New)?;
    cache.rekey(old, new);
    assert!(cache.get(new)?.is_new());
    assert!(cache.get(old).is_err());
    Ok(())
}

/// Rekeying a hash the session never held is a no-op, not an error: an edit
/// renames cards across a whole file, and a session may hold only some of them.
#[test]
fn test_cache_rekey_of_an_absent_hash_is_a_noop() {
    let mut cache = Cache::new();
    let old = CardHash::hash_bytes(b"old");
    let new = CardHash::hash_bytes(b"new");
    cache.rekey(old, new);
    assert!(cache.get(new).is_err());
}

#[test]
fn test_cache_remove_forgets_the_card() -> Fallible<()> {
    let mut cache = Cache::new();
    let hash = CardHash::hash_bytes(b"a");
    cache.insert(hash, Performance::New)?;
    cache.remove(hash);
    assert!(cache.get(hash).is_err());
    Ok(())
}

#[test]
fn test_cache_iter() -> Fallible<()> {
    let mut cache = Cache::new();
    let card_hash = CardHash::hash_bytes(b"a");
    let performance = Performance::New;
    cache.insert(card_hash, performance)?;
    let mut iter = cache.changes().iter();
    let (key, value): &(CardHash, Performance) = iter.next().unwrap();
    assert_eq!(*key, card_hash);
    assert!(value.is_new());
    assert!(iter.next().is_none());
    Ok(())
}

#[test]
fn cache_errors_name_the_card() {
    let mut cache = Cache::new();
    let hash = CardHash::hash_bytes(b"a");
    let message = cache.get(hash).err().unwrap().message().to_string();
    assert!(message.contains(&hash.to_hex()), "unexpected message: {message}");
    cache.insert(hash, Performance::New).unwrap();
    let message = cache.insert(hash, Performance::New).err().unwrap().message().to_string();
    assert!(message.contains(&hash.to_hex()), "unexpected message: {message}");
}

#[test]
fn a_table_keeps_one_value_for_each_card() {
    let a = CardHash::hash_bytes(b"a");
    let b = CardHash::hash_bytes(b"b");
    let mut table: CardTable<usize> = CardTable::new();
    assert!(!table.contains(a));
    table.set(a, 1);
    table.set(b, 2);
    table.set(a, 3);
    assert_eq!(table.entries().len(), 2);
    assert_eq!(table.get(a), Some(3));
    assert_eq!(table.take(a), Some(3));
    assert_eq!(table.take(a), None);
    assert_eq!(table.get(b), Some(2));
    assert_eq!(distinct(&vec![a, b, a, a]), 2);
}

// Assets.

fn files(texts: &[&str]) -> Vec<Vec<u8>> {
    texts.iter().map(|t| t.as_bytes().to_vec()).collect()
}

#[test]
fn the_font_directory_carries_the_revision() {
    let rev = revision(&files(&["regular", "bold"]));
    assert_eq!(font_dir_url(&rev), format!("/fonts/{}", rev));
}

/// A request from HTML older than the running build must be answered with the
/// current font, but must not be allowed to keep it: at the wrong revision the
/// path no longer names what is served.
#[test]
fn a_stale_revision_may_not_be_cached() {
    let rev = revision(&files(&["regular", "bold"]));
    assert_eq!(revisioned_cache_control(&rev, &rev), CACHE_CONTROL_IMMUTABLE);
    assert_eq!(
        revisioned_cache_control("0000000000000000", &rev),
        CACHE_CONTROL_REVALIDATE
    );
}

#[test]
fn hljs_the_asset_urls_carry_the_revision() {
    let rev = revision(&files(&["highlight"]));
    assert_eq!(hljs_js_url(&rev), format!("/hljs/{}/highlight.js", rev));
    assert_eq!(hljs_css_url(&rev), format!("/hljs/{}/github.css", rev));
}

/// The stylesheet is served `immutable` under its revision, so every URL it
/// names has to carry that revision too: otherwise clients pair new glyph
/// metrics with week-old font files.
#[test]
fn the_stylesheet_asks_for_revisioned_fonts() {
    let source = "@font-face{src:url(/katex/fonts/KaTeX_AMS-Regular.woff2)}\
                  @font-face{src:url(/katex/fonts/KaTeX_Main-Bold.woff2)}";
    let rev = revision(&files(&[source]));
    let css = katex_css(source, &rev);
    let want = format!("url(/katex/fonts/{}/", rev);
    assert!(css.contains(&want), "no revisioned font reference");
    assert!(
        !css.contains(&format!("{KATEX_FONT_DIR}KaTeX_")),
        "a font reference was left at the unrevisioned path"
    );
    assert_eq!(
        katex_css("a url(/katex/fonts/KaTeX_X) b", "0123"),
        "a url(/katex/fonts/0123/KaTeX_X) b"
    );
}

#[test]
fn katex_the_asset_urls_carry_the_revision() {
    let rev = revision(&files(&["katex"]));
    assert_eq!(katex_css_url(&rev), format!("/katex/{}/katex.css", rev));
    assert!(katex_js_url(&rev).contains(&rev));
    assert!(katex_mhchem_js_url(&rev).contains(&rev));
}

/// The stylesheet is served `immutable`, which forbids a cache from
/// revalidating it. That is only safe while the path names the bytes.
#[test]
fn test_stylesheet_url_names_its_contents() {
    let css = b"body { margin: 0 }".to_vec();
    let hash = blake3::hash(&css).to_hex();
    let expected = format!("/style-{}.css", &hash[..16]);
    assert_eq!(style_url(&css), expected);
}

#[test]
fn a_revision_follows_the_bytes() {
    let rev = revision(&files(&["regular", "bold"]));
    assert_eq!(rev.len(), 16);
    assert_eq!(rev, revision(&files(&["regular", "bold"])));
    assert_ne!(rev, revision(&files(&["regular", "Bold"])));
}

#[test]
fn only_known_fonts_are_fonts() {
    assert!(!is_font("../secret"));
    assert!(!is_font(""));
    assert!(!is_katex_font("../secret"));
    assert!(!is_katex_font("KaTeX_Main-Bold.exe"));
}

// Pages.

#[test]
fn test_completion_page_without_reviews_skips_stats() -> Fallible<()> {
    let mut mutable = make_mutable();
    mutable.finished_at = Some(now());
    let page = render_completion_page(&make_ctx(), &mutable, &Vec::new())?;
    assert!(matches!(page, CompletionPage::Empty));
    assert!(!matches!(page, CompletionPage::Stats(_)));
    Ok(())
}

#[test]
fn test_render_session_page_with_empty_queue_is_error() {
    let mutable = make_mutable();
    let result = render_session_page(&make_ctx(), &mutable);
    assert!(result.is_err());
}

/// A completion page requested with reviews recorded but no finish timestamp
/// must return an error, not panic.
#[test]
fn test_render_completion_page_without_finished_at_is_error() {
    let mut mutable = make_mutable();
    let card = Card::new(
        "TestDeck".to_string(),
        "/tmp/test-deck.md".to_string(),
        (1, 2),
        CardContent::new_basic("q", "a"),
    );
    mutable.reviews.push(Review {
        card,
        review_id: 1,
        grade: Grade::Good,
        prev_performance: Performance::New,
    });
    assert!(mutable.finished_at.is_none());
    let result = render_completion_page(&make_ctx(), &mutable, &Vec::new());
    assert!(result.is_err());
}

/// "N of M" text, with "(+k repeats)" only when repeats exist.
#[test]
fn test_progress_text_formats() {
    assert_eq!(progress_text(0, 20, 0), "0 of 20");
    assert_eq!(progress_text(7, 20, 0), "7 of 20");
    assert_eq!(progress_text(7, 20, 1), "7 of 20 (+1 repeat)");
    assert_eq!(progress_text(7, 20, 3), "7 of 20 (+3 repeats)");
    assert_eq!(progress_text(20, 20, 2), "20 of 20 (+2 repeats)");
}

fn record_of(card: &Card, now: Timestamp, duration_ms: i64) -> ReviewRecord {
    ReviewRecord {
        card_hash: card.hash(),
        reviewed_at: now,
        grade: Grade::Good,
        stability: bits_of(2.0),
        difficulty: bits_of(2.0),
        interval_raw: bits_of(1.0),
        interval_days: 1,
        due_date: now.date(),
        duration_ms: Some(duration_ms),
    }
}

/// All completion stats come from the session's non-voided reviews; distinct
/// cards and total reviews are counted separately; the slowest card shows the
/// question preview, not the deck name.
#[test]
fn test_completion_stats_from_db_reviews() -> Fallible<()> {
    let now = now();
    let slow = make_card("SlowDeck", "What is the slowest question?");
    let fast = make_card("FastDeck", "Fast question?");
    // Three live reviews on two distinct cards; a voided one is no row.
    let rows = vec![
        ReviewRow { review_id: 1, data: record_of(&slow, now, 1000) },
        ReviewRow { review_id: 2, data: record_of(&fast, now, 2000) },
        ReviewRow { review_id: 3, data: record_of(&slow, now, 9000) },
    ];
    let mut mutable = make_mutable();
    for (review_id, card) in [(1, &slow), (2, &fast), (3, &slow)] {
        mutable.reviews.push(Review {
            card: card.clone(),
            review_id,
            grade: Grade::Good,
            prev_performance: Performance::New,
        });
    }
    mutable.finished_at = Some(now);
    let mut ctx = make_ctx();
    ctx.total_cards = 2;
    ctx.session_started_at = now;
    match render_completion_page(&ctx, &mutable, &rows)? {
        CompletionPage::Empty => fail("Expected stats"),
        CompletionPage::Stats(stats) => {
            assert_eq!(stats.distinct_cards, 2);
            assert_eq!(stats.total_reviews, 3);
            assert_eq!(stats.total_cards, 2);
            assert_eq!(
                stats.slowest,
                Some(("What is the slowest question?".to_string(), 9000))
            );
            // The median of [1000, 2000, 9000] is 2.0 s.
            assert_eq!(stats.middle_ms, Some((2000, 2000)));
            assert!(summary_line(stats.distinct_cards, stats.duration_s, 0)
                .starts_with("Done \u{2014} 2 cards"));
            Ok(())
        }
    }
}

#[test]
fn an_even_number_of_reviews_has_two_in_the_middle() -> Fallible<()> {
    let now = now();
    let card = make_card("Deck", "q");
    let rows: Vec<ReviewRow> = [4000, 1000, 3000, 2000]
        .iter()
        .enumerate()
        .map(|(i, ms)| ReviewRow { review_id: i as i64, data: record_of(&card, now, *ms) })
        .collect();
    let mut mutable = make_mutable();
    mutable.reviews.push(make_review(&card, Grade::Good));
    mutable.finished_at = Some(now);
    match render_completion_page(&make_ctx(), &mutable, &rows)? {
        CompletionPage::Stats(stats) => assert_eq!(stats.middle_ms, Some((2000, 3000))),
        CompletionPage::Empty => panic!("expected stats"),
    }
    Ok(())
}

#[test]
fn a_session_page_shows_where_the_session_is() -> Fallible<()> {
    let a = make_card("Deck", "question a");
    let b = make_card("Deck", "question b");
    let mut mutable = session_of(&[a.clone(), b]);
    let mut ctx = make_ctx();
    ctx.total_cards = 2;
    let page = render_session_page(&ctx, &mutable)?;
    assert!(page.undo_disabled);
    assert_eq!(page.percent_done, 0);
    assert_eq!(page.progress_label, "0 of 2");
    assert_eq!(page.card.hash(), a.hash());
    assert!(page.grades.is_none());
    mutable.reveal = true;
    mutable.reviews.push(make_review(&a, Grade::Forgot));
    let page = render_session_page(&ctx, &mutable)?;
    assert!(!page.undo_disabled);
    assert_eq!(page.percent_done, 50);
    assert_eq!(page.progress_label, "1 of 2");
    assert_eq!(page.grades.map(|g| g.len()), Some(4));
    Ok(())
}

#[test]
fn binary_controls_offer_two_grades() {
    let full: Vec<&str> = grade_buttons(AnswerControls::Full).iter().map(|b| b.value).collect();
    assert_eq!(full, vec!["Forgot", "Hard", "Good", "Easy"]);
    let binary: Vec<&str> = grade_buttons(AnswerControls::Binary).iter().map(|b| b.value).collect();
    assert_eq!(binary, vec!["Forgot", "Good"]);
}

#[test]
fn durations_are_written_out() {
    assert_eq!(duration_text(5), "5 s");
    assert_eq!(duration_text(59), "59 s");
    assert_eq!(duration_text(60), "1 min");
    assert_eq!(duration_text(150), "2 min");
    assert_eq!(summary_line(1, 10, 10), "Done \u{2014} 1 card in 10 s (10 s/card).");
}

// Actions.

#[test]
fn test_action_grade() {
    assert_eq!(Action::Forgot.grade(), Grade::Forgot);
    assert_eq!(Action::Hard.grade(), Grade::Hard);
    assert_eq!(Action::Good.grade(), Grade::Good);
    assert_eq!(Action::Easy.grade(), Grade::Easy);
}

#[test]
fn test_home_returns_home() {
    let mut mutable = make_mutable();
    let result = handle_action(&mut mutable, Action::Home, now()).unwrap();
    assert!(matches!(result, Step::Done(ActionResult::Home)));
}

#[test]
fn test_shutdown_returns_continue_when_unfinished() {
    let mut mutable = make_mutable();
    assert!(mutable.finished_at.is_none());
    let result = handle_action(&mut mutable, Action::Shutdown, now()).unwrap();
    assert!(matches!(result, Step::Done(ActionResult::Continue)));
    mutable.finished_at = Some(now());
    let result = handle_action(&mut mutable, Action::Shutdown, now()).unwrap();
    assert!(matches!(result, Step::Done(ActionResult::Shutdown)));
}

#[test]
fn test_reveal_sets_flag() {
    let mut mutable = make_mutable();
    assert!(!mutable.reveal);
    let result = handle_action(&mut mutable, Action::Reveal, now()).unwrap();
    assert!(matches!(result, Step::Done(ActionResult::Continue)));
    assert!(mutable.reveal);
}

#[test]
fn test_end_finishes_session() {
    let mut mutable = make_mutable();
    let ended_at = now();
    match handle_action(&mut mutable, Action::End, ended_at).unwrap() {
        Step::Close(t) => assert_eq!(t, ended_at),
        _ => panic!("the session rows must be closed"),
    }
    let result = session_closed(&mut mutable, ended_at);
    assert!(matches!(result, ActionResult::SessionFinished));
    assert!(mutable.finished_at.is_some());
}

/// Grades the current card and writes the review.
fn grade(mutable: &mut MutableState, action: Action, review_id: i64, now: Timestamp) -> Step {
    match handle_action(mutable, action, now).unwrap() {
        Step::Schedule(g) => {
            let performance = reviewed(now);
            let row = record(&g, performance);
            assert_eq!(row.card_hash, g.card.hash());
            assert_eq!(row.grade, action.grade());
            assert_eq!(row.stability, performance.stability);
            review_written(mutable, g, performance, review_id, now).unwrap()
        }
        _ => panic!("a review must be scheduled"),
    }
}

#[test]
fn a_good_card_leaves_the_queue_and_the_last_one_ends_the_session() {
    let a = make_card("Deck", "a");
    let b = make_card("Deck", "b");
    let mut mutable = session_of(&[a.clone(), b.clone()]);
    mutable.mark_card_shown(at(1000));
    mutable.mark_card_shown(at(1500));
    handle_action(&mut mutable, Action::Reveal, at(2000)).unwrap();
    match handle_action(&mut mutable, Action::Good, at(4000)).unwrap() {
        Step::Schedule(g) => {
            assert_eq!(g.duration_ms, Some(3000));
            assert!(g.prev_performance.is_new());
            let step = review_written(&mut mutable, g, reviewed(at(4000)), 7, at(4000)).unwrap();
            assert!(matches!(step, Step::Done(ActionResult::Continue)));
        }
        _ => panic!("a review must be scheduled"),
    }
    assert_eq!(mutable.cards.len(), 1);
    assert_eq!(mutable.cards[0].hash(), b.hash());
    assert!(!mutable.reveal);
    assert!(!mutable.cache.get(a.hash()).unwrap().is_new());
    handle_action(&mut mutable, Action::Reveal, at(5000)).unwrap();
    let step = grade(&mut mutable, Action::Easy, 8, at(6000));
    assert!(matches!(step, Step::Close(_)));
    assert!(mutable.cards.is_empty());
}

#[test]
fn undo_takes_a_grade_back() {
    let a = make_card("Deck", "a");
    let b = make_card("Deck", "b");
    let mut mutable = session_of(&[a.clone(), b.clone()]);
    handle_action(&mut mutable, Action::Reveal, at(1)).unwrap();
    grade(&mut mutable, Action::Forgot, 7, at(2));
    assert_eq!(mutable.cards.len(), 2);
    assert_eq!(mutable.cards[1].hash(), a.hash());
    match handle_action(&mut mutable, Action::Undo, at(3)).unwrap() {
        Step::Void(u) => {
            assert_eq!(u.review_id, 7);
            assert_eq!(u.hash, a.hash());
            assert!(u.performance.is_new());
            let result = review_voided(&mut mutable, u).unwrap();
            assert!(matches!(result, ActionResult::Continue));
        }
        _ => panic!("the review must be voided"),
    }
    assert_eq!(mutable.cards.len(), 2);
    assert_eq!(mutable.cards[0].hash(), a.hash());
    assert_eq!(mutable.cards[1].hash(), b.hash());
    assert!(mutable.reviews.is_empty());
    assert!(mutable.cache.get(a.hash()).unwrap().is_new());
    assert!(matches!(
        handle_action(&mut mutable, Action::Undo, at(4)).unwrap(),
        Step::Done(ActionResult::Continue)
    ));
}

#[test]
fn a_hidden_answer_is_not_graded() {
    let a = make_card("Deck", "a");
    let mut mutable = session_of(&[a]);
    let step = handle_action(&mut mutable, Action::Good, at(1)).unwrap();
    assert!(matches!(step, Step::Done(ActionResult::Continue)));
    assert_eq!(mutable.cards.len(), 1);
    assert!(mutable.reviews.is_empty());
}

#[test]
fn bookmarks_are_of_the_current_card() {
    let a = make_card("Deck", "a");
    let mut mutable = session_of(&[a.clone()]);
    match handle_action(&mut mutable, Action::Bookmark, at(5)).unwrap() {
        Step::Bookmark(hash, t) => {
            assert_eq!(hash, a.hash());
            assert_eq!(t, at(5));
        }
        _ => panic!("the card must be bookmarked"),
    }
    match handle_action(&mut mutable, Action::Unbookmark, at(6)).unwrap() {
        Step::Unbookmark(hash) => assert_eq!(hash, a.hash()),
        _ => panic!("the bookmark must be deleted"),
    }
    let mut empty = make_mutable();
    let step = handle_action(&mut empty, Action::Bookmark, at(5)).unwrap();
    assert!(matches!(step, Step::Done(ActionResult::Continue)));
}

#[test]
fn a_card_the_session_does_not_know_is_an_error() {
    let a = make_card("Deck", "a");
    let mut mutable = MutableState::new(SessionDbs::single(1), Cache::new(), vec![a]);
    mutable.reveal = true;
    assert!(handle_action(&mut mutable, Action::Good, at(1)).is_err());
}

/// The bar advances on the first grade of each card; further grades of the same
/// card count as repeats. Undo, which pops a review, rolls progress back.
#[test]
fn test_progress_counts_first_grades_and_repeats() {
    let a = make_card("test-deck", "question a");
    let b = make_card("test-deck", "question b");
    let mut mutable =
        MutableState::new(SessionDbs::single(1), Cache::new(), vec![a.clone(), b.clone()]);
    assert_eq!(mutable.progress(), (0, 0));
    // First grade of card a; Forgot re-queues it but it still counts once.
    mutable.reviews.push(make_review(&a, Grade::Forgot));
    assert_eq!(mutable.progress(), (1, 0));
    // First grade of card b.
    mutable.reviews.push(make_review(&b, Grade::Good));
    assert_eq!(mutable.progress(), (2, 0));
    // Card a comes around again: a repeat, not new progress.
    mutable.reviews.push(make_review(&a, Grade::Good));
    assert_eq!(mutable.progress(), (2, 1));
    // Undo pops the repeat review; progress recovers on its own.
    mutable.reviews.pop();
    assert_eq!(mutable.progress(), (2, 0));
}

#[test]
fn cards_are_routed_to_their_databases() {
    let a = CardHash::hash_bytes(b"a");
    let b = CardHash::hash_bytes(b"b");
    let mut routes: CardTable<usize> = CardTable::new();
    routes.set(a, 1);
    let source = SessionSource {
        coll_dir: "/c".to_string(),
        file_url_prefix: "/file".to_string(),
    };
    let dbs = SessionDbs::routed(
        vec![
            SessionDb { session_id: 10, source: None },
            SessionDb { session_id: 20, source: Some(source) },
        ],
        routes,
    );
    assert_eq!(dbs.index_for_card(a), 1);
    assert_eq!(dbs.for_card(a).session_id, 20);
    assert_eq!(dbs.for_card(b).session_id, 10);
    assert_eq!(dbs.primary().session_id, 10);
    assert_eq!(dbs.all().len(), 2);
}

#[test]
fn only_forgotten_and_hard_cards_come_back() {
    let a = make_card("Deck", "a");
    assert!(make_review(&a, Grade::Forgot).should_repeat());
    assert!(make_review(&a, Grade::Hard).should_repeat());
    assert!(!make_review(&a, Grade::Good).should_repeat());
    assert!(!make_review(&a, Grade::Easy).should_repeat());
}

// Rendering.

#[test]
fn test_answer_controls_display() {
    assert_eq!(AnswerControls::Full.to_text(), "full");
    assert_eq!(AnswerControls::Binary.to_text(), "binary");
    assert_eq!(AnswerControls::from(AnswerControlsConfig::Binary), AnswerControls::Binary);
}

#[test]
fn test_escape_js_string_literal() {
    assert_eq!(escape_js_string_literal(r"\alpha"), r"\\alpha");
    assert_eq!(escape_js_string_literal("a`b"), "a\\`b");
    assert_eq!(escape_js_string_literal("$x$"), "\\$x\\$");
}

// The server.

/// Interrupting a drill reports how many reviews were persisted, instead of
/// erroring out.
#[test]
fn test_finalize_interrupted_session_closes_row_and_summarizes() -> Fallible<()> {
    let summary = finalize_interrupted_session(1);
    assert_eq!(summary, "Session interrupted. 1 review saved.");
    assert_eq!(finalize_interrupted_session(2), "Session interrupted. 2 reviews saved.");
    Ok(())
}

#[test]
fn a_deck_is_filtered_and_limited() {
    let a = make_card("A", "a");
    let b = make_card("B", "b");
    let c = make_card("A", "c");
    let deck = vec![a.clone(), b.clone(), c.clone()];
    let fresh = vec![a.hash(), c.hash()];
    let hashes = |cards: Vec<Card>| cards.iter().map(|c| c.hash()).collect::<Vec<_>>();
    assert_eq!(
        hashes(filter_deck(&fresh, deck.clone(), None, None, Some("A".to_string()))),
        vec![a.hash(), c.hash()]
    );
    assert_eq!(
        hashes(filter_deck(&fresh, deck.clone(), Some(1), None, None)),
        vec![a.hash()]
    );
    // One new card at most; the card that is not new stays.
    assert_eq!(
        hashes(filter_deck(&fresh, deck.clone(), None, Some(1), None)),
        vec![a.hash(), b.hash()]
    );
    assert_eq!(new_hashes(&deck, &vec![b.hash()]), vec![a.hash(), c.hash()]);
    assert_eq!(hashes(due_cards(&deck, &vec![c.hash()])), vec![c.hash()]);
}

#[test]
fn siblings_are_buried() {
    let cloze = |start, end| {
        Card::new(
            "Deck".to_string(),
            "/tmp/deck.md".to_string(),
            (0, 0),
            CardContent::new_cloze("A x B y", start, end),
        )
    };
    let basic = make_card("Deck", "q");
    let deck = vec![cloze(2, 2), basic.clone(), cloze(6, 6), basic.clone()];
    let first = deck[0].hash();
    let kept: Vec<CardHash> = bury_siblings(deck).iter().map(|c| c.hash()).collect();
    assert_eq!(kept, vec![first, basic.hash(), basic.hash()]);
}

#[test]
fn macros_are_declared() {
    assert_eq!(render_macros_declaration(&Vec::new()), "let MACROS = {};\n");
    let macros = vec![("\\foo".to_string(), "a$b".to_string())];
    assert_eq!(
        render_macros_declaration(&macros),
        "let MACROS = {};\nMACROS['\\\\foo'] = 'a\\$b';\n"
    );
    let macros = vec![("\\x".to_string(), "f'(x)\n`g`\r".to_string())];
    assert_eq!(
        render_macros_declaration(&macros),
        "let MACROS = {};\nMACROS['\\\\x'] = 'f\\'(x)\\n\\`g\\`\\r';\n"
    );
}

#[test]
fn files_have_a_content_type() {
    assert_eq!(content_type("a/b.png"), "image/png");
    assert_eq!(content_type("a/b.mp3"), "audio/mpeg");
    assert_eq!(content_type("a/b"), "application/octet-stream");
    assert_eq!(content_type("a/b.JPG"), "image/jpeg");
    assert_eq!(duplicate_warning("x"), "Warning: x. Drilling with one copy.");
}

#[test]
fn a_date_is_the_day_of_a_time() {
    assert_eq!(at(0).date(), Date { days: 0 });
    assert_eq!(at(86_400_000).date(), Date { days: 1 });
    assert_eq!(at(-1).date(), Date { days: -1 });
    assert_eq!(at(120_000).minus_minutes(2), at(0));
}
