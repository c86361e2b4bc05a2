//! The configuration of the server.

use hashcards_web::error::Fallible;
use hashcards_web::serve::config::{
    check_slug_collisions, default_answer_controls, default_branch, default_commit_author_email,
    default_commit_author_name, default_host, default_oidc_scopes, default_poll_interval,
    default_port, default_session_timeout_minutes, default_true, slugify, AnswerControlsConfig,
    CollectionEntry, CustomDeckEntry, DeckMember, DefaultsSection, GitSection, HedgedocEntry,
    OidcSection, ResolvedCollection, ResolvedServeConfig, ServeConfig, ServerSection,
};
use hashcards_web::serve::decks::{find_custom_deck, ResolvedCustomDeck};
use hashcards_web::types::performance::Real;

/// A configuration that says where the data is and nothing else.
fn config_in(data_dir: &str) -> ServeConfig {
    ServeConfig {
        server: ServerSection {
            host: default_host(),
            port: default_port(),
            data_dir: data_dir.to_string(),
            session_timeout_minutes: default_session_timeout_minutes(),
        },
        git: None,
        defaults: DefaultsSection {
            answer_controls: default_answer_controls(),
            bury_siblings: default_true(),
            jitter: Real { bits: 0.05f64.to_bits() },
        },
        oidc: None,
        collections: Vec::new(),
        hedgedoc: Vec::new(),
        decks: Vec::new(),
    }
}

fn entry(name: &str, path: &str, owner: Option<&str>) -> CollectionEntry {
    CollectionEntry {
        name: name.to_string(),
        path: path.to_string(),
        owner: owner.map(|o| o.to_string()),
    }
}

fn deck(name: &str, member: &str, owner: Option<&str>) -> CustomDeckEntry {
    CustomDeckEntry {
        name: name.to_string(),
        members: vec![member.to_string()],
        owner: owner.map(|o| o.to_string()),
    }
}

fn oidc(session_secret: &str) -> OidcSection {
    OidcSection {
        issuer_url: "https://idp.example.com".to_string(),
        client_id: "abc".to_string(),
        client_secret: "secret".to_string(),
        external_url: "https://hashcards.example.com".to_string(),
        session_secret: session_secret.to_string(),
        scopes: default_oidc_scopes(),
    }
}

const LONG_SECRET: &str = "a-very-long-random-session-secret-value";

fn resolve(config: ServeConfig) -> Fallible<ResolvedServeConfig> {
    ResolvedServeConfig::from_toml(config, "/work")
}

fn error_of(config: ServeConfig) -> String {
    match resolve(config) {
        Ok(_) => panic!("expected an error"),
        Err(e) => e.to_text(),
    }
}

/// With no `host` key in the configuration, the server must bind to localhost,
/// not to all interfaces.
#[test]
fn test_default_host_is_localhost() -> Fallible<()> {
    let config = config_in("/var/lib/hashcards");
    assert_eq!(config.server.host, "127.0.0.1");
    assert_eq!(resolve(config)?.host, "127.0.0.1");
    Ok(())
}

/// An absolute collection path (e.g. `path = "/etc"`) must be rejected.
#[test]
fn test_absolute_collection_path_rejected() -> Fallible<()> {
    let mut config = config_in("/var/lib/hashcards");
    config.collections.push(entry("Evil", "/etc", None));
    assert!(error_of(config).contains("must be relative"));
    Ok(())
}

/// A collection path with `..` components must be rejected.
#[test]
fn test_parent_collection_path_rejected() -> Fallible<()> {
    let mut config = config_in("/var/lib/hashcards");
    config.collections.push(entry("Evil", "../../etc", None));
    assert!(error_of(config).contains(".."));
    Ok(())
}

/// A well-formed relative collection path still resolves under
/// {data_dir}/repo.
#[test]
fn test_relative_collection_path_accepted() -> Fallible<()> {
    let mut config = config_in("/work/var-lib-hashcards");
    config.collections.push(entry("Japanese", "japanese", None));
    let resolved = resolve(config)?;
    assert_eq!(resolved.collections.len(), 1);
    assert_eq!(resolved.collections[0].coll_dir, "/work/var-lib-hashcards/repo/japanese");
    Ok(())
}

/// `a/b` and `a-b` slugify identically and must be rejected with a message
/// naming both collections.
#[test]
fn test_slug_collision_in_config_is_rejected() -> Fallible<()> {
    let mut config = config_in("/tmp/hc-test-data");
    config.collections.push(entry("Alpha Slash", "a/b", None));
    config.collections.push(entry("Alpha Dash", "a-b", None));
    let msg = error_of(config);
    assert!(msg.contains("Alpha Slash"), "must name the first collection: {msg}");
    assert!(msg.contains("Alpha Dash"), "must name the second collection: {msg}");
    assert!(msg.contains("a-b"), "must name the colliding slug: {msg}");
    Ok(())
}

/// Distinct slugs still load fine.
#[test]
fn test_distinct_slugs_are_accepted() -> Fallible<()> {
    let mut config = config_in("/tmp/hc-test-data");
    config.collections.push(entry("Alpha", "alpha", None));
    config.collections.push(entry("Beta", "beta", None));
    let resolved = resolve(config)?;
    assert_eq!(resolved.collections.len(), 2);
    Ok(())
}

/// When `[oidc]` is present, every collection must declare an `owner`.
#[test]
fn test_oidc_requires_owner_on_every_collection() -> Fallible<()> {
    let mut config = config_in("/work/var-lib-hashcards-oidc-owner-test");
    config.oidc = Some(oidc(LONG_SECRET));
    config.collections.push(entry("Japanese", "japanese", None));
    let e = error_of(config);
    assert!(
        e.contains("Japanese") && e.contains("owner"),
        "error should name the offending collection and mention `owner`: {e}"
    );
    Ok(())
}

/// When `[oidc]` is present and every collection has an `owner`, the
/// configuration loads cleanly and the owner is lowercased.
#[test]
fn test_oidc_with_owner_on_every_collection_loads() -> Fallible<()> {
    let mut config = config_in("/work/var-lib-hashcards-oidc-owner-ok-test");
    config.oidc = Some(oidc(LONG_SECRET));
    config.collections.push(entry("Japanese", "japanese", Some("Me@Example.com")));
    let resolved = resolve(config)?;
    assert_eq!(resolved.collections[0].owner.as_deref(), Some("me@example.com"));
    assert!(resolved.oidc.is_some());
    Ok(())
}

/// Without `[oidc]`, an `owner`-less collection loads exactly as before.
#[test]
fn test_no_oidc_owner_field_is_inert() -> Fallible<()> {
    let mut config = config_in("/work/var-lib-hashcards-no-oidc-test");
    config.collections.push(entry("Japanese", "japanese", None));
    let resolved = resolve(config)?;
    assert!(resolved.oidc.is_none());
    assert_eq!(resolved.collections[0].owner, None);
    Ok(())
}

/// A short `session_secret` must be rejected with a message the operator can
/// act on.
#[test]
fn test_short_session_secret_is_rejected() -> Fallible<()> {
    let mut config = config_in("/work/var-lib-hashcards-short-secret-test");
    config.oidc = Some(oidc("hunter2"));
    config.collections.push(entry("Japanese", "japanese", Some("me@example.com")));
    let e = error_of(config);
    assert!(e.contains("session_secret"), "error should name the offending setting: {e}");
    Ok(())
}

/// An `owner` with no `[oidc]` section means nobody is ever logged in. Refuse
/// to start.
#[test]
fn test_owner_without_oidc_is_rejected() -> Fallible<()> {
    let mut config = config_in("/work/var-lib-hashcards-owner-no-oidc-test");
    config.collections.push(entry("Japanese", "japanese", Some("me@example.com")));
    let e = error_of(config);
    assert!(
        e.contains("Japanese") && e.contains("oidc"),
        "error should name the collection and mention [oidc]: {e}"
    );
    Ok(())
}

/// `[[hedgedoc]]` owners are lowercased just like collection owners.
#[test]
fn test_hedgedoc_owner_is_lowercased() -> Fallible<()> {
    let mut config = config_in("/work/var-lib-hashcards-hedgedoc-owner-case-test");
    config.oidc = Some(oidc(LONG_SECRET));
    config.hedgedoc.push(HedgedocEntry {
        url: "https://pad.example.com/abc".to_string(),
        owner: Some("Me@Example.com".to_string()),
    });
    let resolved = resolve(config)?;
    assert_eq!(resolved.hedgedoc_entries[0].owner.as_deref(), Some("me@example.com"));
    Ok(())
}

/// A `[[deck]]` member must be `collection-slug/deck-name`.
#[test]
fn test_malformed_deck_member_is_rejected() -> Fallible<()> {
    let mut config = config_in("/work/var-lib-hashcards-deck-member-test");
    config.decks.push(deck("Mixed", "no-separator", None));
    let e = error_of(config);
    assert!(
        e.contains("Mixed") && e.contains("no-separator"),
        "error should name the deck and the bad member: {e}"
    );
    Ok(())
}

/// With `[oidc]` on, every deck needs an owner.
#[test]
fn test_oidc_requires_owner_on_every_deck() -> Fallible<()> {
    let mut config = config_in("/work/var-lib-hashcards-deck-owner-test");
    config.oidc = Some(oidc(LONG_SECRET));
    config.decks.push(deck("Mixed", "japanese/Verbs", None));
    let e = error_of(config);
    assert!(
        e.contains("Mixed") && e.contains("owner"),
        "error should name the deck and mention `owner`: {e}"
    );
    Ok(())
}

/// A deck owner is lowercased, and a deck with no `[oidc]` may not declare one
/// at all.
#[test]
fn test_deck_owner_is_lowercased_and_rejected_without_oidc() -> Fallible<()> {
    let mut config = config_in("/work/var-lib-hashcards-deck-owner-case-test");
    config.oidc = Some(oidc(LONG_SECRET));
    config.decks.push(deck("Mixed", "japanese/Verbs", Some("Me@Example.com")));
    let resolved = resolve(config)?;
    assert_eq!(resolved.custom_decks[0].owner.as_deref(), Some("me@example.com"));

    let mut config = config_in("/work/var-lib-hashcards-deck-owner-case-test");
    config.decks.push(deck("Mixed", "japanese/Verbs", Some("me@example.com")));
    assert!(
        resolve(config).is_err(),
        "an `owner` without [oidc] must be rejected for decks too"
    );
    Ok(())
}

#[test]
fn a_secret_of_thirty_two_bytes_is_long_enough() {
    let mut config = config_in("/data");
    config.oidc = Some(oidc("0123456789abcdef0123456789abcde"));
    assert!(resolve(config).is_err());
    let mut config = config_in("/data");
    config.oidc = Some(oidc("0123456789abcdef0123456789abcdef"));
    assert!(resolve(config).is_ok());
}

#[test]
fn a_relative_data_directory_lies_in_the_working_directory() -> Fallible<()> {
    let mut config = config_in("data");
    config.collections.push(entry("Japanese", "ja/n5", None));
    config.git = Some(GitSection {
        repo_url: Some("https://example.com/cards.git".to_string()),
        branch: default_branch(),
        poll_interval_minutes: default_poll_interval(),
        commit_author_name: default_commit_author_name(),
        commit_author_email: default_commit_author_email(),
    });
    let resolved = resolve(config)?;
    assert_eq!(resolved.collections[0].coll_dir, "/work/data/repo/ja/n5");
    assert_eq!(resolved.collections[0].slug, "ja-n5");
    assert!(resolved.collections[0].db_path.starts_with("/work/data/db/"));
    let git = resolved.git.unwrap();
    assert_eq!(git.repo_dir, "/work/data/repo");
    assert_eq!(git.branch, "main");
    Ok(())
}

#[test]
fn the_place_of_a_configuration_is_recorded() -> Fallible<()> {
    let resolved = resolve(config_in("/data"))?;
    assert_eq!(resolved.config_path, None);
    let resolved = resolved.with_config_path("/etc/hashcards.toml".to_string());
    assert_eq!(resolved.config_path.as_deref(), Some("/etc/hashcards.toml"));
    Ok(())
}

#[test]
fn defaults_are_conservative() {
    assert_eq!(default_port(), 8000);
    assert_eq!(default_session_timeout_minutes(), 1440);
    assert_eq!(default_answer_controls(), AnswerControlsConfig::Full);
    assert!(default_true());
    assert_eq!(default_oidc_scopes(), vec!["openid", "email", "profile"]);
}

#[test]
fn members_are_written_as_they_are_read() {
    let member = DeckMember::parse("japanese/Verbs/Past").unwrap();
    assert_eq!(member.collection_slug, "japanese");
    assert_eq!(member.deck_name, "Verbs/Past");
    assert_eq!(member.encode(), "japanese/Verbs/Past");
    assert!(DeckMember::parse("no-separator").is_none());
    assert!(DeckMember::parse("/Verbs").is_none());
    assert!(DeckMember::parse("japanese/").is_none());
}

#[test]
fn slugs_hold_no_slash() {
    assert_eq!(slugify("a/b"), "a-b");
    assert_eq!(slugify("Me@Example.com"), "Me-Example.com");
    assert_eq!(slugify(&slugify("x y/z")), slugify("x y/z"));
    assert_eq!(slugify("d\u{ed}a 1"), "d\u{ed}a-1");
    assert_eq!(entry("Japanese", "ja/n5", None).slug(), "ja-n5");
}

#[test]
fn collisions_are_found_among_collections() {
    let rc = |name: &str, slug: &str| ResolvedCollection {
        name: name.to_string(),
        slug: slug.to_string(),
        coll_dir: String::new(),
        db_path: String::new(),
        owner: None,
    };
    assert!(check_slug_collisions(&[rc("A", "a"), rc("B", "b")]).is_ok());
    assert!(check_slug_collisions(&[rc("A", "a"), rc("B", "b"), rc("C", "a")]).is_err());
}

#[test]
fn custom_decks_are_scoped_to_their_owner() {
    let decks = vec![ResolvedCustomDeck {
        name: "Mixed".to_string(),
        slug: "deck-mixed".to_string(),
        owner: Some("alice@example.com".to_string()),
        members: Vec::new(),
    }];
    assert!(find_custom_deck(&decks, "deck-mixed", Some("alice@example.com")).is_some());
    assert!(find_custom_deck(&decks, "deck-mixed", Some("bob@example.com")).is_none());
    assert!(find_custom_deck(&decks, "deck-mixed", None).is_none());
    assert!(find_custom_deck(&decks, "other", Some("alice@example.com")).is_none());
}
