//! Requests, sessions and lists.

use hashcards_web::drill::cache::Cache;
use hashcards_web::drill::post::{handle_action, review_written, Action, ActionResult, FormData, Step};
use hashcards_web::drill::render::AnswerControls;
use hashcards_web::drill::state::{MutableState, SessionDbs};
use hashcards_web::drill::table::CardTable;
use hashcards_web::error::{fail, Fallible};
use hashcards_web::serve::bookmarks::{
    card_preview, find_card_by_hash, note_to_keep, relative_path, sort_bookmarks, Bookmark,
    NoteForm, PREVIEW_BYTES,
};
use hashcards_web::serve::browse::{build_deck_tree, build_tree_from_counts, count_decks, DeckCounts};
use hashcards_web::serve::config::{
    default_answer_controls, CustomDeckEntry, DeckMember, DefaultsSection, ResolvedCollection,
};
use hashcards_web::serve::decks::{
    check_deck_slug_collisions, resolve_custom_decks, slug_for_deck, ResolvedCustomDeck,
};
use hashcards_web::serve::git::{
    commit_args, commit_next, commit_start, poll_seconds, pull_args, pull_next, pull_start,
    CommitCommand, CommitStep, GitOutput, PullCommand, PullStep,
};
use hashcards_web::serve::handlers::{
    check_deck_sources, create_session_from_sources, deck_card_counts, deck_sources, decide_get,
    decide_post, decide_start, due_card_count, edit_link, find_collection, find_drill_target,
    gather_due, missing_members, plan_session, refreshes_counts, repository_flash,
    take_interrupted, DrillTarget, GetDecision, LoadedSource, PostDecision, SessionPlan,
    SessionSourceSpec, StartDecision, StartDrillForm,
};
use hashcards_web::serve::landing::{
    due_text, landing_rows, resumable, row_action, row_class, status_line, total_text, CountedDeck,
    LandingStatus, RowAction,
};
use hashcards_web::serve::server::{
    bind_text, check_session_secret, error_status, eviction_tick, stale_before, sweep_counts,
};
use hashcards_web::serve::state::{
    evict_idle_sessions, CollectionInfo, DrillSession, HedgedocNote, HedgedocSource,
};
use hashcards_web::types::card::{Card, CardContent};
use hashcards_web::types::card_hash::CardHash;
use hashcards_web::types::performance::{Performance, Real, ReviewedPerformance};
use hashcards_web::types::timestamp::Timestamp;

fn at(text: &str) -> Timestamp {
    let time = chrono::NaiveDateTime::parse_from_str(text, "%Y-%m-%dT%H:%M:%S%.3f").unwrap();
    Timestamp { millis: time.and_utc().timestamp_millis() }
}

fn collection(name: &str, slug: &str, owner: Option<&str>) -> ResolvedCollection {
    ResolvedCollection {
        name: name.to_string(),
        slug: slug.to_string(),
        coll_dir: format!("/data/{slug}"),
        db_path: format!("/data/{slug}.db"),
        owner: owner.map(|o| o.to_string()),
    }
}

fn card(deck: &str, question: &str) -> Card {
    Card::new(
        deck.to_string(),
        format!("/data/{deck}.md"),
        (0, 1),
        CardContent::new_basic(question, "answer"),
    )
}

fn defaults() -> DefaultsSection {
    DefaultsSection {
        answer_controls: default_answer_controls(),
        bury_siblings: true,
        jitter: Real { bits: 0 },
    }
}

fn session_started_at(time: &str) -> Fallible<DrillSession> {
    let mutable = MutableState::new(SessionDbs::single(1), Cache::new(), Vec::new());
    Ok(DrillSession::new(
        "/data".to_string(),
        Vec::new(),
        at(time),
        AnswerControls::Full,
        mutable,
    ))
}

/// A collection is only matched by its owner, and unauthenticated callers only
/// match unowned collections.
#[test]
fn test_find_collection_is_scoped_to_owner() -> Fallible<()> {
    let collections = vec![
        collection("Alice's Deck", "alice-deck", Some("alice@example.com")),
        collection("Bob's Deck", "bob-deck", Some("bob@example.com")),
    ];
    let find = |slug, owner| find_collection(&collections, &Vec::new(), slug, owner);
    assert!(find("bob-deck", Some("alice@example.com")).is_none());
    assert!(find("alice-deck", Some("alice@example.com")).is_some());
    assert!(find("alice-deck", None).is_none());
    Ok(())
}

/// A session removed from the list must not be rendered as if it were still
/// live.
#[test]
fn test_detached_session_renders_browse_page_not_stale_session() -> Fallible<()> {
    let target = Some(DrillTarget::Collection(collection("A", "a", None)));
    let mut session = session_started_at("2026-01-01T10:00:00.000")?;
    session.detach();
    let seen = Some((session.is_detached(), session.mutable.finished_at.is_some()));
    assert_eq!(decide_get(&target, seen), GetDecision::Browse);
    assert_eq!(decide_get(&target, None), GetDecision::Browse);
    assert_eq!(decide_get(&target, Some((false, false))), GetDecision::Card);
    assert_eq!(decide_get(&target, Some((false, true))), GetDecision::Completed);
    assert_eq!(decide_get(&None, Some((false, false))), GetDecision::NotFound);
    Ok(())
}

fn mixed() -> ResolvedCustomDeck {
    ResolvedCustomDeck {
        name: "Mixed".to_string(),
        slug: slug_for_deck("Mixed", None),
        owner: None,
        members: vec![
            DeckMember::parse("alpha/Alpha").unwrap(),
            DeckMember::parse("beta/Beta").unwrap(),
        ],
    }
}

/// A source with one card that is due, new or not.
fn loaded(spec: SessionSourceSpec, cards: Vec<Card>, session_id: i64) -> LoadedSource {
    let mut due: CardTable<Performance> = CardTable::new();
    for c in &cards {
        due.set(c.hash(), Performance::New);
    }
    LoadedSource { spec, cards, due, session_id }
}

fn reviewed(now: Timestamp) -> ReviewedPerformance {
    ReviewedPerformance {
        last_reviewed_at: now,
        stability: Real { bits: 1 },
        difficulty: Real { bits: 2 },
        interval_raw: Real { bits: 3 },
        interval_days: 1,
        due_date: now.date(),
        review_count: 1,
    }
}

/// A custom deck drills cards from several collections in one session, and each
/// review lands in the database of the collection the card actually came from.
#[test]
fn test_custom_deck_routes_reviews_to_each_home_collection() -> Fallible<()> {
    let collections = vec![collection("Alpha", "alpha", None), collection("Beta", "beta", None)];
    let deck = mixed();
    // The deck resolves to both collections.
    let specs = deck_sources(&collections, &Vec::new(), &deck, None);
    assert_eq!(specs.len(), 2, "both collections must contribute");
    assert_eq!(missing_members(&deck, &specs), 0);
    assert!(check_deck_sources(&deck.name, &specs).is_ok());

    let alpha = card("Alpha", "alpha question?");
    let beta = card("Beta", "beta question?");
    let mut cards = vec![vec![alpha.clone()], vec![beta.clone()]].into_iter();
    let mut ids = vec![10, 20].into_iter();
    let sources: Vec<LoadedSource> = specs
        .into_iter()
        .map(|spec| loaded(spec, cards.next().unwrap(), ids.next().unwrap()))
        .collect();
    assert_eq!(due_card_count(&sources), 2);
    let gathered = gather_due(&sources, true);
    let now = at("2026-01-01T10:00:00.000");
    let mut session = create_session_from_sources(
        &sources,
        gathered,
        None,
        defaults(),
        now,
        "/data".to_string(),
        Vec::new(),
    );
    assert_eq!(session.mutable.cards.len(), 2, "one new card from each collection");

    // Grade every card in the session.
    let mut written: Vec<(CardHash, i64)> = Vec::new();
    while !session.mutable.cards.is_empty() {
        session.mutable.reveal = true;
        match handle_action(&mut session.mutable, Action::Good, now)? {
            Step::Schedule(g) => {
                let hash = g.card.hash();
                written.push((hash, session.mutable.dbs.for_card(hash).session_id));
                review_written(&mut session.mutable, g, reviewed(now), 1, now)?;
            }
            _ => return fail("a review must be written"),
        }
    }
    // Each collection's own session recorded exactly its own review.
    assert_eq!(written.len(), 2);
    assert!(written.contains(&(alpha.hash(), 10)), "Alpha's card belongs to Alpha");
    assert!(written.contains(&(beta.hash(), 20)), "Beta's card belongs to Beta");
    Ok(())
}

/// Cards are content addressed, so the same fact in two collections has one
/// hash. A deck spanning both must still start: the second copy is skipped.
#[test]
fn test_custom_deck_tolerates_the_same_card_in_two_collections() -> Fallible<()> {
    let shared = || vec![card("Shared", "shared question?")];
    let spec = |c| SessionSourceSpec { collection: c, decks: vec!["Shared".to_string()] };
    let sources = vec![
        loaded(spec(collection("One", "one", None)), shared(), 1),
        loaded(spec(collection("Two", "two", None)), shared(), 2),
    ];
    let gathered = gather_due(&sources, true);
    assert_eq!(gathered.cards.len(), 1, "the shared card must appear once, not twice");
    assert_eq!(gathered.routes.get(gathered.cards[0].hash()), Some(0));
    Ok(())
}

#[test]
fn a_deck_draws_on_collections_of_its_user_alone() {
    let collections = vec![
        collection("Alpha", "alpha", None),
        collection("Beta", "beta", Some("bob@example.com")),
    ];
    let deck = mixed();
    let specs = deck_sources(&collections, &Vec::new(), &deck, None);
    assert_eq!(specs.len(), 1);
    assert_eq!(specs[0].collection.slug, "alpha");
    assert_eq!(missing_members(&deck, &specs), 1);
    assert!(check_deck_sources("Mixed", &Vec::new()).is_err());
}

#[test]
fn a_limit_is_kept() {
    let spec = SessionSourceSpec {
        collection: collection("One", "one", None),
        decks: vec!["Deck".to_string()],
    };
    let sources = vec![loaded(spec, vec![card("Deck", "a"), card("Deck", "b")], 1)];
    let gathered = gather_due(&sources, false);
    let session = create_session_from_sources(
        &sources,
        gathered,
        Some(1),
        defaults(),
        at("2026-01-01T10:00:00.000"),
        "/data".to_string(),
        Vec::new(),
    );
    assert_eq!(session.mutable.cards.len(), 1);
    assert_eq!(session.answer_controls, AnswerControls::Full);
}

/// A source without named decks draws on every deck of its collection.
#[test]
fn due_cards_are_counted_in_the_wanted_decks() {
    let spec = |decks: &[&str]| SessionSourceSpec {
        collection: collection("One", "one", None),
        decks: decks.iter().map(|d| d.to_string()).collect(),
    };
    let cards = || vec![card("A", "a"), card("A", "b"), card("B", "c")];
    let named = vec![loaded(spec(&["A"]), cards(), 1)];
    assert_eq!(due_card_count(&named), 2);
    assert_eq!(gather_due(&named, false).cards.len(), 2);
    let all = vec![loaded(spec(&[]), cards(), 1)];
    assert_eq!(due_card_count(&all), 3);
    assert_eq!(gather_due(&all, false).cards.len(), 3);
    // One of the wanted cards is not due.
    let mut some = loaded(spec(&["A"]), cards(), 1);
    some.due = CardTable::new();
    some.due.set(some.cards[0].hash(), Performance::New);
    some.due.set(some.cards[2].hash(), Performance::New);
    assert_eq!(deck_card_counts(&vec![some]), (1, 2));
    assert_eq!(deck_card_counts(&all), (3, 3));
    assert_eq!(deck_card_counts(&Vec::new()), (0, 0));
}

#[test]
fn a_session_without_due_cards_is_closed_again() {
    let spec = || SessionSourceSpec {
        collection: collection("One", "one", None),
        decks: vec!["Deck".to_string()],
    };
    let none: Vec<LoadedSource> = Vec::new();
    assert!(matches!(plan_session(&none, &gather_due(&none, false)), SessionPlan::Nothing));
    let idle = vec![loaded(spec(), Vec::new(), 4), loaded(spec(), Vec::new(), 9)];
    match plan_session(&idle, &gather_due(&idle, false)) {
        SessionPlan::Close(ids) => assert_eq!(ids, vec![4, 9]),
        _ => panic!("the opened rows must be closed"),
    }
    let busy = vec![loaded(spec(), vec![card("Deck", "a")], 4)];
    assert!(matches!(plan_session(&busy, &gather_due(&busy, false)), SessionPlan::Start));
}

fn deck_entry(name: &str, owner: Option<&str>) -> CustomDeckEntry {
    CustomDeckEntry {
        name: name.to_string(),
        members: vec!["alpha/Alpha".to_string(), "no member".to_string(), "beta/B/C".to_string()],
        owner: owner.map(|o| o.to_string()),
    }
}

#[test]
fn custom_decks_are_resolved() {
    let decks = resolve_custom_decks(&vec![
        deck_entry("Big Mix", Some("bob@example.com")),
        deck_entry("", None),
    ]);
    assert_eq!(decks.len(), 2);
    assert_eq!(decks[0].name, "Big Mix");
    assert_eq!(decks[0].owner.as_deref(), Some("bob@example.com"));
    assert_eq!(decks[0].slug, slug_for_deck("Big Mix", Some("bob@example.com")));
    let members: Vec<(&str, &str)> = decks[0]
        .members
        .iter()
        .map(|m| (m.collection_slug.as_str(), m.deck_name.as_str()))
        .collect();
    assert_eq!(members, vec![("alpha", "Alpha"), ("beta", "B/C")]);
    // A slug is readable, and ends in a digest of the owner and the name.
    assert_eq!(
        slug_for_deck("Big Mix", None),
        format!("deck-Big-Mix-{}", &blake3::hash(b"Big Mix").to_hex()[..8])
    );
    assert_eq!(
        slug_for_deck("Big Mix", Some("bob@example.com")),
        format!("deck-Big-Mix-{}", &blake3::hash(b"bob@example.com\nBig Mix").to_hex()[..8])
    );
    assert!(decks[1].slug.starts_with("deck-deck-"));
}

#[test]
fn slugs_of_decks_may_not_be_taken() {
    let one = resolve_custom_decks(&vec![deck_entry("Mix", None)]);
    assert!(check_deck_slug_collisions(&one, &[collection("A", "a", None)]).is_ok());
    let twice = resolve_custom_decks(&vec![deck_entry("Mix", None), deck_entry("Mix", None)]);
    let e = check_deck_slug_collisions(&twice, &[]).err().unwrap();
    assert!(e.message().contains(&one[0].slug), "message was: {}", e.message());
    assert!(e.message().ends_with("Rename one of them so their slugs differ."));
    let taken = [collection("A", &one[0].slug, None)];
    let e = check_deck_slug_collisions(&one, &taken).err().unwrap();
    assert!(e.message().contains("collection 'A'"), "message was: {}", e.message());
    // Decks of two users with one name do not collide.
    let both = resolve_custom_decks(&vec![
        deck_entry("Mix", Some("alice@example.com")),
        deck_entry("Mix", Some("bob@example.com")),
    ]);
    assert!(check_deck_slug_collisions(&both, &[]).is_ok());
}

#[test]
fn forms_name_decks_and_a_limit() {
    let pairs = |ps: &[(&str, &str)]| -> Vec<(String, String)> {
        ps.iter().map(|(k, v)| (k.to_string(), v.to_string())).collect()
    };
    let form = StartDrillForm::from_pairs(&pairs(&[
        ("decks", "A"),
        ("limit", "20"),
        ("decks", "B"),
        ("other", "C"),
    ]));
    assert_eq!(form.decks, vec!["A", "B"]);
    assert_eq!(form.limit, Some(20));
    let form = StartDrillForm::from_pairs(&pairs(&[("limit", "")]));
    assert!(form.decks.is_empty());
    assert_eq!(form.limit, None);
}

#[test]
fn a_start_needs_a_deck() {
    let target = Some(DrillTarget::Collection(collection("A", "a", None)));
    let decks = vec!["A".to_string()];
    assert_eq!(decide_start(&target, "a", &decks, None).unwrap(), StartDecision::Start);
    assert_eq!(decide_start(&target, "a", &decks, Some(true)).unwrap(), StartDecision::Resume);
    let e = decide_start(&target, "a", &Vec::new(), None).err().unwrap();
    assert_eq!(e.message(), "Select at least one deck.");
    let e = decide_start(&None, "a", &decks, None).err().unwrap();
    assert_eq!(e.message(), "Unknown collection: a");
    let deck = Some(DrillTarget::Deck(mixed()));
    assert_eq!(decide_start(&deck, "d", &Vec::new(), None).unwrap(), StartDecision::Start);
}

#[test]
fn posts_reach_live_sessions_alone() {
    let hash = CardHash::hash_bytes(b"card");
    let form = |action| FormData {
        action,
        card: Some(hash.to_hex()),
        undo_review: Some(7),
    };
    let decide = |known, action, detached| decide_post(known, "a", &form(action), detached);
    assert!(decide(false, Action::Good, Some(false)).is_err());
    match decide(true, Action::Good, Some(false)).unwrap() {
        PostDecision::Handle { action, card, undo_review } => {
            assert!(matches!(action, Action::Good));
            assert_eq!(card, Some(hash));
            assert_eq!(undo_review, Some(7));
        }
        _ => panic!("a live session must handle the action"),
    }
    assert!(matches!(decide(true, Action::Good, Some(true)).unwrap(), PostDecision::Redirect(_)));
    assert!(matches!(decide(true, Action::Good, None).unwrap(), PostDecision::Redirect(_)));
    let unreadable = FormData {
        action: Action::Good,
        card: Some("zz".to_string()),
        undo_review: None,
    };
    assert!(matches!(
        decide_post(true, "a", &unreadable, Some(false)).unwrap(),
        PostDecision::Redirect(_)
    ));
    assert!(refreshes_counts(ActionResult::Home));
    assert!(!refreshes_counts(ActionResult::Continue));
}

#[test]
fn targets_are_collections_or_decks() {
    let collections = vec![collection("Alpha", "alpha", None)];
    let decks = vec![mixed()];
    let find = |slug: &str| find_drill_target(&collections, &Vec::new(), &decks, slug, None);
    assert!(matches!(find("alpha"), Some(DrillTarget::Collection(_))));
    assert!(matches!(find(&slug_for_deck("Mixed", None)), Some(DrillTarget::Deck(_))));
    assert!(find("nothing").is_none());
}

#[test]
fn interrupted_sessions_are_told_once() {
    let mut counts = vec![("a".to_string(), 2), ("b".to_string(), 1)];
    assert_eq!(take_interrupted(&mut counts, "b"), 1);
    assert_eq!(take_interrupted(&mut counts, "b"), 0);
    assert_eq!(counts.len(), 1);
    assert_eq!(
        sweep_counts(&vec![("a".to_string(), Some(2)), ("b".to_string(), None)])
            .iter()
            .map(|c| c.0.as_str())
            .collect::<Vec<_>>(),
        vec!["a"]
    );
}

#[test]
fn notes_are_edited_where_they_come_from() {
    let sources = vec![HedgedocSource {
        source_uri: "https://n.example.com".to_string(),
        collection: collection("Notes", "notes", None),
        note: HedgedocNote {
            url: "https://n.example.com/doc".to_string(),
            deck_name: "Deck".to_string(),
            file_name: "deck.md".to_string(),
            last_error: None,
        },
    }];
    assert_eq!(
        edit_link(&sources, "notes"),
        Some(("Deck".to_string(), "https://n.example.com/doc".to_string()))
    );
    assert_eq!(edit_link(&sources, "other"), None);
}

#[test]
fn a_pull_is_told() {
    assert_eq!(repository_flash(None).kind_str(), "error");
    assert_eq!(repository_flash(Some(Ok(()))).message, "Sync complete.");
    assert_eq!(repository_flash(Some(fail("x"))).message, "Sync failed: error: x");
}

// Idle sessions.

/// A session idle past the timeout is taken out of the list.
#[test]
fn test_idle_session_is_evicted_and_db_row_closed() -> Fallible<()> {
    let session = session_started_at("2026-01-01T10:00:00.000")?;
    let mut sessions = vec![("demo".to_string(), session)];
    // 25 hours later, with a 24h (1440 minute) timeout.
    let now = at("2026-01-02T11:00:00.000");
    let evicted = evict_idle_sessions(&mut sessions, 1440, now);
    assert_eq!(evicted.len(), 1);
    assert_eq!(evicted[0].0, "demo");
    assert_eq!(evicted[0].1.mutable.dbs.primary().session_id, 1);
    assert!(sessions.is_empty());
    Ok(())
}

/// Eviction must mark the session detached, not merely drop it from the list.
#[test]
fn test_evicted_session_is_marked_detached() -> Fallible<()> {
    let session = session_started_at("2026-01-01T10:00:00.000")?;
    assert!(!session.is_detached());
    let mut sessions = vec![("demo".to_string(), session)];
    let now = at("2026-01-02T11:00:00.000");
    let evicted = evict_idle_sessions(&mut sessions, 1440, now);
    let slugs: Vec<&str> = evicted.iter().map(|e| e.0.as_str()).collect();
    assert_eq!(slugs, vec!["demo"]);
    assert!(evicted[0].1.is_detached());
    assert!(sessions.is_empty());
    Ok(())
}

/// A session inside the timeout window is left alone.
#[test]
fn test_active_session_is_not_evicted() -> Fallible<()> {
    let session = session_started_at("2026-01-01T10:00:00.000")?;
    let mut sessions = vec![("demo".to_string(), session)];
    // Only one hour later.
    let now = at("2026-01-01T11:00:00.000");
    let evicted = evict_idle_sessions(&mut sessions, 1440, now);
    assert!(evicted.is_empty());
    assert_eq!(sessions.len(), 1);
    Ok(())
}

/// A timeout of 0 disables eviction entirely.
#[test]
fn test_zero_timeout_disables_eviction() -> Fallible<()> {
    let session = session_started_at("2020-01-01T10:00:00.000")?;
    let mut sessions = vec![("demo".to_string(), session)];
    let now = at("2026-01-01T10:00:00.000");
    let evicted = evict_idle_sessions(&mut sessions, 0, now);
    assert!(evicted.is_empty());
    assert_eq!(sessions.len(), 1);
    Ok(())
}

#[test]
fn the_list_is_swept_at_most_every_ten_minutes() {
    assert_eq!(eviction_tick(0), None);
    assert_eq!(eviction_tick(1), Some(15));
    assert_eq!(eviction_tick(1440), Some(600));
    let now = at("2026-01-01T10:00:00.000");
    assert_eq!(stale_before(now), at("2026-01-01T09:00:00.000"));
}

// Pages.

#[test]
fn decks_form_a_tree() {
    let cards = vec![
        card("Languages/Spanish", "a"),
        card("Languages/Spanish", "b"),
        card("Languages", "c"),
        card("Medicine", "d"),
    ];
    let due = vec![cards[0].hash(), cards[3].hash()];
    let counts = count_decks(&cards, &due);
    assert_eq!(counts.len(), 3);
    let root = build_deck_tree(&cards, &due);
    assert_eq!(root.total_cards_recursive(), 4);
    assert_eq!(root.due_today_recursive(), 2);
    assert_eq!(root.children.len(), 2);
    assert_eq!(root.children[0].name, "Languages");
    assert_eq!(root.children[0].total_cards, 1);
    assert_eq!(root.children[0].total_cards_recursive(), 3);
    assert_eq!(root.children[0].children[0].path, "Languages/Spanish");
    assert_eq!(root.children[0].children[0].due_today, 1);
    let root = build_tree_from_counts(&vec![DeckCounts { name: "B".to_string(), total: 2, due: 1 }]);
    assert_eq!(root.children[0].name, "B");
}

fn info(name: &str, owner: Option<&str>) -> CollectionInfo {
    CollectionInfo {
        name: name.to_string(),
        slug: name.to_string(),
        total_cards: 5,
        due_today: 2,
        owner: owner.map(|o| o.to_string()),
    }
}

#[test]
fn the_list_is_scoped_to_its_owner() {
    let infos = vec![info("b", Some("bob@example.com")), info("a", Some("alice@example.com"))];
    let mut deck = mixed();
    deck.owner = Some("bob@example.com".to_string());
    let decks = vec![CountedDeck { deck, counts: Some((1, 4)) }];
    let rows = landing_rows(&infos, &decks, Some("bob@example.com"));
    assert_eq!(rows.len(), 2);
    assert_eq!(rows.iter().filter(|r| r.is_deck).count(), 1);
    let rows = landing_rows(&infos, &decks, Some("alice@example.com"));
    assert_eq!(rows.len(), 1);
    assert_eq!(rows[0].name, "a");
    assert_eq!(row_action(&rows[0], None), RowAction::Drill);
    assert_eq!(row_action(&rows[0], Some(3)), RowAction::Resume(3));
    assert_eq!(row_class(&rows[0], false), "drill-row");
}

/// A deck whose cards could not be counted is listed all the same.
#[test]
fn uncounted_decks_are_listed() {
    let decks = vec![CountedDeck { deck: mixed(), counts: None }];
    let rows = landing_rows(&Vec::new(), &decks, None);
    assert_eq!(rows.len(), 1);
    assert_eq!(rows[0].name, "Mixed");
    assert_eq!((rows[0].due_today, rows[0].total_cards), (0, 0));
}

#[test]
fn rows_are_written_out() -> Fallible<()> {
    assert_eq!(due_text(0), "Nothing due");
    assert_eq!(due_text(3), "3 due");
    assert_eq!(total_text(1), "1 card");
    assert_eq!(total_text(2), "2 cards");
    let status = LandingStatus {
        config_available: true,
        signed_in_as: Some("me@example.com".to_string()),
    };
    assert_eq!(status_line(&status).as_deref(), Some("me@example.com"));
    let mut session = session_started_at("2026-01-01T10:00:00.000")?;
    session.mutable.cards.push(card("Deck", "a"));
    let sessions = vec![("a".to_string(), session)];
    assert_eq!(resumable(&sessions, "a"), Some(1));
    assert_eq!(resumable(&sessions, "b"), None);
    Ok(())
}

#[test]
fn bookmarks_follow_their_cards() {
    let a = card("Deck", "a");
    let bookmark = |hash| Bookmark {
        card_hash: hash,
        note: None,
        created_at: at("2026-01-01T10:00:00.000"),
    };
    let bookmarks = vec![bookmark(CardHash::hash_bytes(b"gone")), bookmark(a.hash())];
    let cards = vec![a.clone()];
    assert_eq!(sort_bookmarks(&bookmarks, &cards), (vec![1], vec![0]));
    assert_eq!(find_card_by_hash(&cards, a.hash()).map(|c| c.hash()), Some(a.hash()));
    assert!(find_card_by_hash(&cards, CardHash::hash_bytes(b"gone")).is_none());
    assert_eq!(note_to_keep(&NoteForm { note: " x ".to_string() }).as_deref(), Some("x"));
    assert_eq!(note_to_keep(&NoteForm { note: "  ".to_string() }), None);
    assert_eq!(relative_path("/data/coll/a/b.md", "/data/coll"), "a/b.md");
}

#[test]
fn previews_are_short_and_whole() {
    assert_eq!(card_preview(&CardContent::new_basic("short", "x")), "short");
    let long = "\u{e9}".repeat(PREVIEW_BYTES);
    let preview = card_preview(&CardContent::new_basic(&long, "x"));
    assert!(preview.len() < long.len());
    assert!(preview.starts_with('\u{e9}'));
}

// Git.

fn output(success: bool, stdout_empty: bool) -> GitOutput {
    GitOutput { success, stdout_empty, stderr: "no".to_string() }
}

#[test]
fn test_commit_edit_commits_and_leaves_clean_tree() {
    let file = "/repo/Deck.md";
    let next = |command, success, empty| commit_next(command, &output(success, empty), file);
    assert!(matches!(commit_start(file), CommitStep::Run(CommitCommand::Inside)));
    assert!(matches!(
        next(CommitCommand::Inside, true, false),
        CommitStep::Run(CommitCommand::Add)
    ));
    assert!(matches!(next(CommitCommand::Add, true, true), CommitStep::Run(CommitCommand::Status)));
    assert!(matches!(
        next(CommitCommand::Status, true, false),
        CommitStep::Run(CommitCommand::Commit)
    ));
    assert!(matches!(next(CommitCommand::Commit, true, false), CommitStep::Done(true)));
    let args =
        commit_args(CommitCommand::Commit, file, "hashcards web edit", "hashcards@localhost");
    assert!(args.iter().any(|a| a.contains("hashcards web edit")), "unexpected args: {args:?}");
    assert!(args.iter().any(|a| a.contains("web edit of Deck.md")), "unexpected args: {args:?}");
}

#[test]
fn test_commit_edit_outside_git_repo_is_noop() {
    let step = commit_next(CommitCommand::Inside, &output(false, true), "/tmp/Deck.md");
    assert!(matches!(step, CommitStep::Done(false)));
}

#[test]
fn test_commit_edit_without_changes_is_noop() {
    let step = commit_next(CommitCommand::Status, &output(true, true), "/repo/Deck.md");
    assert!(matches!(step, CommitStep::Done(false)));
    for command in [CommitCommand::Add, CommitCommand::Status, CommitCommand::Commit] {
        let step = commit_next(command, &output(false, true), "/repo/Deck.md");
        assert!(matches!(step, CommitStep::Failed(m) if m.contains("no")));
    }
}

#[test]
fn a_repository_is_cloned_once_and_then_pulled() {
    assert!(matches!(pull_start(false), PullCommand::Clone));
    assert!(matches!(pull_start(true), PullCommand::Checkout));
    assert!(matches!(
        pull_next(PullCommand::Checkout, &output(true, true), "main"),
        PullStep::Run(PullCommand::Pull)
    ));
    assert!(matches!(pull_next(PullCommand::Pull, &output(true, true), "main"), PullStep::Done));
    assert!(matches!(
        pull_next(PullCommand::Clone, &output(false, true), "main"),
        PullStep::Failed(m) if m == "git clone failed: no"
    ));
    let args = pull_args(PullCommand::Clone, "https://x/y.git", "main", "/repo");
    assert!(args.contains(&"https://x/y.git".to_string()));
    assert!(args.contains(&"main".to_string()));
    assert_eq!(poll_seconds(0), None);
    assert_eq!(poll_seconds(30), Some(1800));
}

#[test]
fn the_server_listens_where_it_is_told() {
    assert_eq!(bind_text("127.0.0.1", 8000), "127.0.0.1:8000");
    assert_eq!(error_status(true), 500);
    assert_eq!(error_status(false), 404);
    assert!(check_session_secret("short").is_err());
    assert!(check_session_secret("a-very-long-random-session-secret-value").is_ok());
}
