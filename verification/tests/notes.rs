//! Notes from other servers.

use hashcards_web::error::{fail, Fallible};
use hashcards_web::serve::config::{HedgedocEntry, ResolvedCollection};
use hashcards_web::serve::frontmatter::{
    extract_title, frontmatter_title, sanitize_deck_name, split_yaml_frontmatter,
    strip_leading_yaml_frontmatter, wrap_with_deck_frontmatter,
};
use hashcards_web::serve::hedgedoc::{
    build_download_url, check_answer, check_startup_slug_collisions, find_slug_collision,
    normalize_hedgedoc_url, note_id_from_url, slug_for_note, source_display_name,
    source_uri_from_url, validate_hedgedoc_url,
};
use hashcards_web::serve::notes::{
    all_hedgedoc_entries, build_combined_infos, build_note, build_source, build_source_lossless,
    check_new_note, cleanup_after_delete, collection_info, commit, commit_add, commit_delete,
    fetched, legacy_note_file, note_file_name, notes_of, owns_note, persisted_entries, record_sync,
    stored_note, sync_flash, DeleteOutcome,
};
use hashcards_web::serve::source::{detect_kind, raw_url, SourceKind};
use hashcards_web::serve::state::{HedgedocNote, HedgedocSource};

// Addresses.

#[test]
fn note_id_strips_query_and_fragment() {
    assert_eq!(
        note_id_from_url("https://notes.example.com/abc123?foo=1"),
        Some("abc123".to_string())
    );
    assert_eq!(
        note_id_from_url("https://notes.example.com/abc123#section"),
        Some("abc123".to_string())
    );
    assert_eq!(
        note_id_from_url("https://notes.example.com/abc123"),
        Some("abc123".to_string())
    );
    assert_eq!(
        note_id_from_url("https://notes.example.com/abc123/"),
        Some("abc123".to_string())
    );
}

#[test]
fn build_download_url_basic() {
    let url = build_download_url("https://notes.example.com/abc123").unwrap();
    assert_eq!(url.as_str(), "https://notes.example.com/abc123/download");
}

#[test]
fn build_download_url_strips_query_and_fragment() {
    let url = build_download_url("https://notes.example.com/abc123?foo=1#bar").unwrap();
    assert_eq!(url.as_str(), "https://notes.example.com/abc123/download");
}

#[test]
fn build_download_url_trailing_slash() {
    let url = build_download_url("https://notes.example.com/abc123/").unwrap();
    assert_eq!(url.as_str(), "https://notes.example.com/abc123/download");
}

#[test]
fn build_download_url_shared_note_strips_s_prefix() {
    // Published notes at /s/<noteId> use the same note ID as the primary note.
    // Strip /s/ so we fetch /<noteId>/download directly.
    let url = build_download_url("https://notes.example.com/s/NNOBZSN2Yi").unwrap();
    assert_eq!(url.as_str(), "https://notes.example.com/NNOBZSN2Yi/download");
}

#[test]
fn build_download_url_shared_note_trailing_slash() {
    let url = build_download_url("https://notes.example.com/s/NNOBZSN2Yi/").unwrap();
    assert_eq!(url.as_str(), "https://notes.example.com/NNOBZSN2Yi/download");
}

#[test]
fn download_addresses_need_a_path() {
    let e = build_download_url("not a url").err().unwrap().to_text();
    assert!(e.contains("Invalid HedgeDoc URL `not a url`"), "unexpected message: {e}");
    let e = build_download_url("mailto:me@example.com").err().unwrap().to_text();
    assert!(e.contains("Cannot modify path"), "unexpected message: {e}");
}

#[test]
fn validate_hedgedoc_url_rejects_http() {
    assert!(validate_hedgedoc_url("http://notes.example.com/abc123").is_err());
}

#[test]
fn validate_hedgedoc_url_accepts_https() {
    assert!(validate_hedgedoc_url("https://notes.example.com/abc123").is_ok());
}

#[test]
fn normalize_hedgedoc_url_rejects_javascript_scheme() {
    // Unsafe schemes must be rejected at storage time, never persisted.
    assert!(normalize_hedgedoc_url("javascript:alert(1)").is_err());
}

#[test]
fn normalize_hedgedoc_url_rejects_unparseable_input() {
    assert!(normalize_hedgedoc_url("not a url at all").is_err());
    assert!(normalize_hedgedoc_url("").is_err());
}

#[test]
fn normalize_hedgedoc_url_rejects_plain_http() {
    assert!(normalize_hedgedoc_url("http://notes.example.com/abc").is_err());
}

#[test]
fn normalize_hedgedoc_url_normalizes_https_urls() -> Fallible<()> {
    // Query, fragment, and trailing slash are stripped so equivalent URLs
    // dedupe to the same entry.
    assert_eq!(
        normalize_hedgedoc_url("  https://notes.example.com/abc/?x=1#frag ")?,
        "https://notes.example.com/abc"
    );
    Ok(())
}

#[test]
fn a_source_is_a_server() {
    assert_eq!(
        source_uri_from_url("https://notes.example.com:8443/abc?x#y").as_deref(),
        Some("https://notes.example.com:8443")
    );
    assert_eq!(source_uri_from_url("not a url"), None);
    assert_eq!(source_display_name("https://notes.example.com"), "notes.example.com");
}

#[test]
fn answers_must_be_notes() {
    assert!(check_answer(true, "200 OK", "text/markdown; charset=utf-8", "u").is_ok());
    let e = check_answer(false, "404 Not Found", "text/markdown", "u").err().unwrap();
    assert_eq!(e.message(), "HedgeDoc fetch returned HTTP 404 Not Found for u");
    let e = check_answer(true, "200 OK", "text/html; charset=utf-8", "u").err().unwrap();
    assert!(e.message().contains("may require sign-in"));
}

/// `abc+1` and `abc-1` both slugify to `abc-1`, so without a disambiguating
/// hash their note files collide.
#[test]
fn note_file_name_distinguishes_colliding_note_ids() {
    let a = note_file_name("https://notes.example.com/abc+1");
    let b = note_file_name("https://notes.example.com/abc-1");
    assert_ne!(a, b);
    assert!(a.ends_with(".md"));
    assert!(b.ends_with(".md"));
}

#[test]
fn note_file_name_is_stable_for_the_same_url() {
    assert_eq!(
        note_file_name("https://notes.example.com/abc123"),
        note_file_name("https://notes.example.com/abc123"),
    );
}

/// The pre-existing un-hashed file must be removed on sync or the collection
/// parses the same note twice.
#[test]
fn remove_legacy_note_file_deletes_old_unhashed_file() {
    let url = "https://notes.example.com/abc123";
    let current = note_file_name(url);
    assert_eq!(legacy_note_file(url, &current).as_deref(), Some("abc123.md"));
    assert_eq!(legacy_note_file(url, "abc123.md"), None);
}

// The list of notes.

fn test_note_for(url: &str) -> HedgedocNote {
    HedgedocNote {
        url: url.to_string(),
        deck_name: "Deck".to_string(),
        file_name: "deck.md".to_string(),
        last_error: None,
    }
}

fn test_source_for(uri: &str, url: &str) -> HedgedocSource {
    test_source_owned_by(uri, url, None)
}

fn test_source_owned_by(uri: &str, url: &str, owner: Option<&str>) -> HedgedocSource {
    HedgedocSource {
        source_uri: uri.to_string(),
        collection: ResolvedCollection {
            name: uri.to_string(),
            slug: slug_for_note(url, owner),
            coll_dir: "/nonexistent/hedgedoc/test".to_string(),
            db_path: "/nonexistent/db/test.db".to_string(),
            owner: owner.map(|o| o.to_string()),
        },
        note: test_note_for(url),
    }
}

fn entry(url: &str, owner: Option<&str>) -> HedgedocEntry {
    HedgedocEntry { url: url.to_string(), owner: owner.map(|o| o.to_string()) }
}

#[test]
fn persist_adds_hedgedoc_array() {
    let entries = vec![
        entry("https://notes.example.com/doc1", None),
        entry("https://notes.example.com/doc2", None),
    ];
    let content = persisted_entries("[server]\ndata_dir = \"/tmp\"\n", &entries).unwrap();
    let value: toml::Value = toml::from_str(&content).unwrap();
    let table = value.as_table().unwrap();
    assert!(table.contains_key("server"));
    let arr = table["hedgedoc"].as_array().unwrap();
    let urls: Vec<&str> = arr
        .iter()
        .map(|v| v.as_table().unwrap()["url"].as_str().unwrap())
        .collect();
    assert_eq!(
        urls,
        vec!["https://notes.example.com/doc1", "https://notes.example.com/doc2"]
    );
}

#[test]
fn persist_replaces_existing_array() {
    let entries = vec![entry("https://new.example.com/new", None)];
    let content = persisted_entries(
        "[[hedgedoc]]\nurl = \"https://old.example.com/old\"\n[server]\ndata_dir = \"/tmp\"\n",
        &entries,
    )
    .unwrap();
    let value: toml::Value = toml::from_str(&content).unwrap();
    let arr = value.as_table().unwrap()["hedgedoc"].as_array().unwrap();
    assert_eq!(arr.len(), 1);
    assert_eq!(
        arr[0].as_table().unwrap()["url"].as_str().unwrap(),
        "https://new.example.com/new"
    );
}

#[test]
fn persist_removes_array_when_empty() {
    let content = persisted_entries(
        "[[hedgedoc]]\nurl = \"https://example.com/doc\"\n[server]\ndata_dir = \"/tmp\"\n",
        &Vec::new(),
    )
    .unwrap();
    let value: toml::Value = toml::from_str(&content).unwrap();
    let table = value.as_table().unwrap();
    assert!(!table.contains_key("hedgedoc"));
    assert!(table.contains_key("server"));
}

/// What is not a list of notes is kept by value, and a text that is no
/// configuration is not rewritten.
#[test]
fn persist_keeps_the_other_settings() {
    let text = "title = \"x\"\n[server]\ndata_dir = \"/tmp\"\nport = 8000\n\
                [[hedgedoc]]\nurl = \"https://old.example.com/old\"\n\
                [[collections]]\nname = \"A\"\n[[collections]]\nname = \"B\"\n";
    let before: toml::Table = toml::from_str(text).unwrap();
    let entries = vec![entry("https://new.example.com/new", None)];
    for entries in [entries, Vec::new()] {
        let content = persisted_entries(text, &entries).unwrap();
        let after: toml::Table = toml::from_str(&content).unwrap();
        assert_eq!(after.contains_key("hedgedoc"), !entries.is_empty());
        for key in ["title", "server", "collections"] {
            assert_eq!(after.get(key), before.get(key));
        }
    }
    assert!(persisted_entries("[server", &Vec::new()).is_err());
}

/// `owner` must survive a config rewrite.
#[test]
fn persist_keeps_the_owner_of_each_entry() -> Fallible<()> {
    let entries = vec![
        entry("https://pad.example.com/alice", Some("alice@example.com")),
        entry("https://pad.example.com/bob", Some("bob@example.com")),
    ];
    let content = persisted_entries(
        "[server]\ndata_dir = \"/data\"\n\n\
         [oidc]\n\
         issuer_url = \"https://idp.example.com\"\n\
         client_id = \"abc\"\n\
         client_secret = \"secret\"\n\
         external_url = \"https://hashcards.example.com\"\n\
         session_secret = \"a-very-long-random-session-secret-value\"\n",
        &entries,
    )?;
    let value: toml::Value = toml::from_str(&content).unwrap();
    let arr = value.as_table().unwrap()["hedgedoc"].as_array().unwrap();
    assert_eq!(arr.len(), 2);
    assert_eq!(arr[0].as_table().unwrap()["owner"].as_str(), Some("alice@example.com"));
    assert_eq!(arr[1].as_table().unwrap()["owner"].as_str(), Some("bob@example.com"));
    Ok(())
}

/// An entry with no owner stays ownerless rather than gaining an empty `owner`
/// key.
#[test]
fn persist_omits_owner_when_there_is_none() -> Fallible<()> {
    let content = persisted_entries(
        "[server]\ndata_dir = \"/tmp\"\n",
        &vec![entry("https://pad.example.com/abc", None)],
    )?;
    assert!(!content.contains("owner"), "config: {content}");
    Ok(())
}

#[test]
fn a_broken_configuration_is_not_rewritten() {
    assert!(persisted_entries("this is not toml {{{", &Vec::new()).is_err());
}

#[test]
fn commit_add_rejects_duplicate_and_leaves_state_unchanged() {
    let sources = vec![test_source_for("https://n.example.com", "https://n.example.com/doc1")];
    let result = commit_add(
        &sources,
        "https://n.example.com/doc1",
        None,
        test_source_for("https://n.example.com", "https://n.example.com/doc1"),
    );
    assert!(result.is_err());
    assert_eq!(sources.len(), 1);
}

#[test]
fn commit_add_persist_failure_leaves_memory_unchanged() {
    let mut sources = vec![test_source_for("https://n.example.com", "https://n.example.com/doc1")];
    let updated = commit_add(
        &sources,
        "https://n.example.com/doc2",
        None,
        test_source_for("https://n.example.com", "https://n.example.com/doc2"),
    )
    .unwrap();
    assert_eq!(updated.len(), 2);
    let result = commit(&mut sources, updated, fail("cannot write the configuration"));
    assert!(result.is_err());
    assert_eq!(sources.len(), 1);
}

#[test]
fn commit_delete_removes_note_and_persists() {
    let mut sources = vec![test_source_for("https://n.example.com", "https://n.example.com/doc1")];
    let outcome = commit_delete(&sources, "https://n.example.com/doc1", None).unwrap();
    assert!(outcome.snapshot.is_empty());
    assert_eq!(outcome.removed.owner, None);
    let content = persisted_entries(
        "[[hedgedoc]]\nurl = \"https://n.example.com/doc1\"\n[server]\ndata_dir = \"/tmp\"\n",
        &all_hedgedoc_entries(&outcome.snapshot),
    )
    .unwrap();
    assert!(!content.contains("doc1"));
    commit(&mut sources, outcome.snapshot, Ok(())).unwrap();
    assert!(sources.is_empty());
}

#[test]
fn commit_delete_unknown_url_is_an_error_and_changes_nothing() {
    let sources = vec![test_source_for("https://n.example.com", "https://n.example.com/doc1")];
    let result = commit_delete(&sources, "https://n.example.com/other", None);
    assert!(result.is_err());
    assert_eq!(sources.len(), 1);
}

/// A failed persist must not desync memory from the config file.
#[test]
fn commit_delete_persist_failure_leaves_memory_unchanged() {
    let mut sources = vec![test_source_for("https://n.example.com", "https://n.example.com/doc1")];
    let outcome = commit_delete(&sources, "https://n.example.com/doc1", None).unwrap();
    let result = commit(&mut sources, outcome.snapshot, fail("cannot write the configuration"));
    assert!(result.is_err());
    assert_eq!(sources.len(), 1);
}

/// Deleting a note must delete its directory, keep the review database, and
/// say so.
#[test]
fn cleanup_after_delete_removes_dir_and_keeps_db() {
    let outcome = DeleteOutcome {
        snapshot: Vec::new(),
        removed: ResolvedCollection {
            name: "src".to_string(),
            slug: "hedgedoc-src".to_string(),
            coll_dir: "/data/hedgedoc/src".to_string(),
            db_path: "/data/db/hedgedoc-src.db".to_string(),
            owner: None,
        },
    };
    let message = cleanup_after_delete(&outcome, None);
    assert!(message.contains("kept"), "message must say the DB was kept: {message}");
    assert!(
        message.contains("/data/db/hedgedoc-src.db"),
        "message must name the kept DB: {message}"
    );
    assert!(message.contains("/data/hedgedoc/src was deleted"));
    let message = cleanup_after_delete(&outcome, Some("busy"));
    assert!(message.contains("could not be deleted: busy"));
}

/// A source that fails to initialize at startup must stay in memory with an
/// Error status, and therefore survive the config round-trip.
#[test]
fn build_source_lossless_keeps_failing_entry_with_error_status() {
    let url = "not a valid url";
    let built = build_source(url, "/data", None, build_note(url, Err("no such note".to_string())));
    assert!(built.is_err());
    let source = build_source_lossless(url, "/data", None, built);
    assert_eq!(source.note.url, "not a valid url");
    assert!(source.note.last_error.is_some(), "failing source must carry an Error status");
    // The entry survives the config persistence round-trip.
    let entries = all_hedgedoc_entries(&vec![source]);
    assert_eq!(entries.len(), 1);
    assert_eq!(entries[0].url, "not a valid url");
}

/// A source configured at startup that slugifies onto a configured collection
/// must stop the server, not silently route to the wrong database.
#[test]
fn test_startup_hedgedoc_slug_collision_is_rejected() {
    let uri = "https://pad.example.com/notes";
    let slug = slug_for_note(uri, None);
    let collections = vec![ResolvedCollection {
        name: "Notes".to_string(),
        slug: slug.clone(),
        coll_dir: "/tmp/notes".to_string(),
        db_path: "/tmp/notes.db".to_string(),
        owner: None,
    }];
    let sources = vec![HedgedocSource {
        source_uri: uri.to_string(),
        collection: ResolvedCollection {
            name: uri.to_string(),
            slug,
            coll_dir: "/tmp/hedge".to_string(),
            db_path: "/tmp/hedge.db".to_string(),
            owner: None,
        },
        note: test_note_for(uri),
    }];
    assert!(check_startup_slug_collisions(&collections, &sources).is_err());
    assert!(check_startup_slug_collisions(&collections, &[]).is_ok());
}

/// Two notes whose IDs slugify identically stay distinct: the slug ends in a
/// hash of the full URL, so `abc+1` and `abc-1` do not collide.
#[test]
fn test_notes_slugifying_alike_stay_distinct() {
    let a = slug_for_note("https://pad.example.com/abc+1", None);
    let b = slug_for_note("https://pad.example.com/abc-1", None);
    assert_ne!(a, b, "the URL hash must keep look-alike note IDs apart");
}

/// Two users adding notes from the same host must get separate collections,
/// databases and owners.
#[test]
fn notes_from_one_host_are_never_shared_between_users() {
    let build = |url: &str, owner: &str| {
        let note = build_note(url, Ok(("Deck".to_string(), "deck.md".to_string())));
        let built = build_source(url, "/data", Some(owner.to_string()), note);
        build_source_lossless(url, "/data", Some(owner.to_string()), built)
    };
    let alice = build("https://pad.example.com/alice-note", "alice@example.com");
    let bob = build("https://pad.example.com/bob-note", "bob@example.com");

    assert_ne!(alice.collection.slug, bob.collection.slug);
    assert_ne!(alice.collection.db_path, bob.collection.db_path);
    assert_ne!(alice.collection.coll_dir, bob.collection.coll_dir);
    assert_eq!(alice.collection.owner.as_deref(), Some("alice@example.com"));
    assert_eq!(bob.collection.owner.as_deref(), Some("bob@example.com"));

    // The config round-trip keeps each entry with its own owner.
    let entries = all_hedgedoc_entries(&vec![alice, bob]);
    assert_eq!(entries.len(), 2);
    assert_eq!(entries[0].owner.as_deref(), Some("alice@example.com"));
    assert_eq!(entries[1].owner.as_deref(), Some("bob@example.com"));
}

/// Two users may add the very same public note. They must not share a slug,
/// and therefore not a review database.
#[test]
fn same_note_added_by_two_users_gets_two_slugs() {
    let url = "https://pad.example.com/shared";
    let alice = slug_for_note(url, Some("alice@example.com"));
    let bob = slug_for_note(url, Some("bob@example.com"));
    assert_ne!(alice, bob);
}

/// Deleting your own note must not remove another user's note with the same
/// URL.
#[test]
fn commit_delete_only_removes_the_callers_note() {
    let url = "https://n.example.com/shared";
    let mut sources = vec![
        test_source_owned_by("https://n.example.com", url, Some("alice@example.com")),
        test_source_owned_by("https://n.example.com", url, Some("bob@example.com")),
    ];
    let outcome = commit_delete(&sources, url, Some("alice@example.com")).unwrap();
    assert_eq!(outcome.removed.owner.as_deref(), Some("alice@example.com"));
    commit(&mut sources, outcome.snapshot, Ok(())).unwrap();
    assert_eq!(sources.len(), 1);
    assert_eq!(sources[0].collection.owner.as_deref(), Some("bob@example.com"));
}

/// The same note added by two users is not a duplicate for the second user.
#[test]
fn commit_add_allows_the_same_note_for_a_different_owner() {
    let url = "https://n.example.com/shared";
    let mut sources = vec![test_source_owned_by(
        "https://n.example.com",
        url,
        Some("alice@example.com"),
    )];
    let added = commit_add(
        &sources,
        url,
        Some("bob@example.com"),
        test_source_owned_by("https://n.example.com", url, Some("bob@example.com")),
    );
    assert!(added.is_ok());
    commit(&mut sources, added.unwrap(), Ok(())).unwrap();
    assert_eq!(sources.len(), 2);
}

/// A configured collection whose slug equals that of a note must be reported as
/// a collision.
#[test]
fn test_hedgedoc_slug_collision_is_detected() {
    let source_uri = "demo@hedgedoc.example.org";
    let hedgedoc_slug = slug_for_note(source_uri, None);
    let colliding = ResolvedCollection {
        name: "Sneaky".to_string(),
        slug: hedgedoc_slug.clone(),
        coll_dir: "/tmp/sneaky".to_string(),
        db_path: "/tmp/sneaky.db".to_string(),
        owner: None,
    };
    let harmless = ResolvedCollection {
        name: "Fine".to_string(),
        slug: "fine".to_string(),
        coll_dir: "/tmp/fine".to_string(),
        db_path: "/tmp/fine.db".to_string(),
        owner: None,
    };

    let collections = vec![harmless, colliding];
    let hit = find_slug_collision(&hedgedoc_slug, &collections);
    assert_eq!(hit.map(|c| c.name.as_str()), Some("Sneaky"));
    assert!(find_slug_collision("something-else", &collections).is_none());
}

#[test]
fn a_deletion_undoes_an_addition() {
    let url = "https://n.example.com/doc2";
    let sources = vec![test_source_for("https://n.example.com", "https://n.example.com/doc1")];
    let added =
        commit_add(&sources, url, None, test_source_for("https://n.example.com", url)).unwrap();
    assert!(owns_note(&added, url, None));
    let left = commit_delete(&added, url, None).unwrap().snapshot;
    assert_eq!(left.len(), 1);
    assert_eq!(left[0].note.url, sources[0].note.url);
}

#[test]
fn a_sync_is_recorded_for_its_note() {
    let url = "https://n.example.com/doc1";
    let mut sources = vec![test_source_for("https://n.example.com", url)];
    let slug = slug_for_note(url, None);
    record_sync(&mut sources, &slug, Err("timed out".to_string()));
    assert_eq!(sources[0].note.last_error.as_deref(), Some("timed out"));
    assert!(!fetched(&sources, url, None));
    record_sync(&mut sources, &slug, Ok(("Verbs".to_string(), "verbs.md".to_string())));
    assert_eq!(sources[0].note.last_error, None);
    assert_eq!(sources[0].note.deck_name, "Verbs");
    assert!(fetched(&sources, url, None));
    record_sync(&mut sources, "unknown", Err("x".to_string()));
    assert_eq!(sources[0].note.last_error, None);
}

#[test]
fn new_notes_are_checked() {
    let url = "https://n.example.com/doc1";
    let sources = vec![test_source_for("https://n.example.com", url)];
    let ok = check_new_note(" https://n.example.com/doc2/?x ", true, &sources, None, &[]);
    assert_eq!(ok.ok().as_deref(), Some("https://n.example.com/doc2"));
    assert!(check_new_note("", true, &sources, None, &[]).is_err());
    assert!(check_new_note("http://n.example.com/doc2", true, &sources, None, &[]).is_err());
    assert!(check_new_note("https://n.example.com/doc2", false, &sources, None, &[]).is_err());
    assert!(check_new_note(url, true, &sources, None, &[]).is_err());
    let taken = ResolvedCollection {
        name: "Taken".to_string(),
        slug: slug_for_note("https://n.example.com/doc2", None),
        coll_dir: String::new(),
        db_path: String::new(),
        owner: None,
    };
    assert!(
        check_new_note("https://n.example.com/doc2", true, &sources, None, &[taken]).is_err()
    );
}

#[test]
fn a_user_sees_their_own_notes() {
    let url = "https://n.example.com/shared";
    let sources = vec![
        test_source_owned_by("https://n.example.com", url, Some("alice@example.com")),
        test_source_owned_by("https://n.example.com", url, Some("bob@example.com")),
    ];
    let notes = notes_of(&sources, Some("bob@example.com"));
    assert_eq!(notes.len(), 1);
    assert_eq!(notes[0].collection.owner.as_deref(), Some("bob@example.com"));
    assert!(notes_of(&sources, None).is_empty());
}

#[test]
fn counts_are_shown_where_they_are_known() {
    let source = test_source_for("https://n.example.com", "https://n.example.com/doc1");
    let info = collection_info(&source.collection, Some((7, 3)));
    assert_eq!((info.total_cards, info.due_today), (7, 3));
    let infos = build_combined_infos(vec![info], &vec![source], &vec![None]);
    assert_eq!(infos.len(), 2);
    assert_eq!((infos[1].total_cards, infos[1].due_today), (0, 0));
}

#[test]
fn a_sync_fails_when_all_notes_fail() {
    assert_eq!(sync_flash(true, true).kind_str(), "success");
    assert_eq!(sync_flash(false, false).kind_str(), "success");
    assert_eq!(sync_flash(false, true).kind_str(), "error");
}

// What a note holds.

#[test]
fn yaml_settings_are_parted_from_the_note() {
    let markdown = "---\ntitle: Verbs\n---\n\n# Heading\nQ: a\nA: b\n";
    let (settings, body) = split_yaml_frontmatter(markdown).unwrap();
    assert_eq!(settings, "title: Verbs");
    assert_eq!(body, "\n# Heading\nQ: a\nA: b\n");
    assert_eq!(frontmatter_title(markdown).as_deref(), Some("Verbs"));
    assert_eq!(extract_title(markdown, "x"), "Verbs");
    assert!(strip_leading_yaml_frontmatter(markdown).ends_with("# Heading\nQ: a\nA: b\n"));
    assert!(split_yaml_frontmatter("# Heading\n").is_none());
    assert_eq!(extract_title("text\n# Heading\n", "x"), "Heading");
    assert_eq!(extract_title("text\n", "x"), "x");
}

#[test]
fn deck_names_are_flat() {
    assert!(!sanitize_deck_name("a/b", "x").contains('/'));
    assert_eq!(sanitize_deck_name("  ", "x"), "x");
    assert_eq!(sanitize_deck_name(" a/b/ ", "x"), "a - b -");
    assert_eq!(sanitize_deck_name("a - b -", "y"), "a - b -");
    assert_eq!(sanitize_deck_name(" ", " "), "Deck");
}

#[test]
fn a_stored_note_carries_its_deck() {
    let url = "https://n.example.com/abc123";
    let stored = stored_note(url, "---\ntitle: My \"best\" verbs\n---\nQ: a\nA: b\n").unwrap();
    assert_eq!(stored.deck_name, "My \"best\" verbs");
    assert_eq!(stored.file_name, note_file_name(url));
    assert_eq!(stored.tmp_name, format!(".{}.tmp", note_file_name(url)));
    let (settings, body) = split_yaml_frontmatter(&stored.content).unwrap();
    let value: toml::Value = toml::from_str(&settings).unwrap();
    assert_eq!(value.as_table().unwrap()["name"].as_str(), Some("My \"best\" verbs"));
    assert!(body.contains("Q: a\nA: b"));
    assert!(wrap_with_deck_frontmatter("Q: a\nA: b\n", "Verbs")
        .unwrap()
        .starts_with("---\nname = \"Verbs\"\n---\n"));
}

// Files in a repository.

#[test]
fn github_blob_becomes_raw() {
    let (kind, url) = raw_url("https://github.com/me/cards/blob/main/es/verbs.md").unwrap();
    assert_eq!(kind, SourceKind::Git);
    assert_eq!(
        url.as_str(),
        "https://raw.githubusercontent.com/me/cards/main/es/verbs.md"
    );
}

#[test]
fn gitlab_blob_becomes_raw() {
    let (kind, url) = raw_url("https://gitlab.com/me/cards/-/blob/main/es/verbs.md").unwrap();
    assert_eq!(kind, SourceKind::Git);
    assert_eq!(
        url.as_str(),
        "https://gitlab.com/me/cards/-/raw/main/es/verbs.md"
    );
}

#[test]
fn gitea_src_branch_becomes_raw() {
    let (kind, url) = raw_url("https://codeberg.org/me/cards/src/branch/main/es/verbs.md").unwrap();
    assert_eq!(kind, SourceKind::Git);
    assert_eq!(
        url.as_str(),
        "https://codeberg.org/me/cards/raw/branch/main/es/verbs.md"
    );
}

#[test]
fn already_raw_md_url_is_unchanged() {
    let (kind, url) = raw_url("https://example.com/some/where/verbs.md").unwrap();
    assert_eq!(kind, SourceKind::Git);
    assert_eq!(url.as_str(), "https://example.com/some/where/verbs.md");
}

#[test]
fn hedgedoc_note_is_not_git() {
    let (kind, _) = raw_url("https://notes.example.com/abc123").unwrap();
    assert_eq!(kind, SourceKind::Hedgedoc);
    let (kind, _) = raw_url("https://notes.example.com/s/abc123").unwrap();
    assert_eq!(kind, SourceKind::Hedgedoc);
}

#[test]
fn query_and_fragment_are_dropped() {
    let (_, url) = raw_url("https://github.com/me/cards/blob/main/a.md?plain=1#L3").unwrap();
    assert_eq!(
        url.as_str(),
        "https://raw.githubusercontent.com/me/cards/main/a.md"
    );
}

#[test]
fn non_https_is_rejected() {
    assert!(raw_url("http://github.com/me/cards/blob/main/a.md").is_err());
}

#[test]
fn the_badge_never_disagrees_with_the_fetch_target() {
    for url in [
        "https://github.com/me/cards/blob/main/a.md",
        "https://gitlab.com/me/cards/-/blob/main/a.md",
        "https://codeberg.org/me/cards/src/branch/main/a.md",
        "https://example.com/raw/a.md",
        "https://notes.example.com/abc123",
        "https://notes.example.com/s/abc123",
    ] {
        let (kind, _) = raw_url(url).unwrap();
        assert_eq!(detect_kind(url), kind, "disagreed for {url}");
    }
}

#[test]
fn sources_have_a_label() {
    assert_ne!(SourceKind::Git.label(), SourceKind::Hedgedoc.label());
}
