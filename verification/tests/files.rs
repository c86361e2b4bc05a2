//! The card folder of a user.

use hashcards_web::error::Fallible;
use hashcards_web::parser::{strip_frontmatter_with_offset, Parser};
use hashcards_web::serve::files::{
    after_migration, after_parse, becomes_collection, buffer_deck_name, check_collection_folder,
    check_empty, check_file, check_free, check_present, check_unchanged, collection_folder,
    created_message, db_path_for, deleted_message, is_shown, join_rel, non_empty_children,
    parse_buffer, planned_entry, planned_rename, read_tree, renamed_message, validate_name, Listed,
    NewEntryForm, RenameForm, SaveForm, SaveStep, CARD_TEMPLATE,
};
use hashcards_web::serve::local::{
    collection_names, discover_local_collections, folder_id, fresh_id, recorded_id, Existing,
    FolderId, FoundEntry, Ground, IdPolicy, LocalRoot, LOCAL_META_FILE,
};

fn fixture() -> Fallible<(&'static str, LocalRoot)> {
    let dir = "/data";
    let root = LocalRoot::open(dir, Some("Me@Example.com"))?;
    Ok((dir, root))
}

/// What is on disk when the card folder is there and nothing in it.
fn bare(root: &LocalRoot) -> Ground {
    Ground {
        existing: Some(Existing { is_symlink: false, canonical: root.path().to_string() }),
        root: root.path().to_string(),
    }
}

/// The normalized path is free of the `.` components a client can put in:
/// `./Spanish` and `Spanish` name one collection.
#[test]
fn resolving_normalizes_away_dot_components() -> Fallible<()> {
    let (_dir, root) = fixture()?;
    let ground = bare(&root);
    let plain = root.resolve_entry("Spanish/verbs.md", &ground)?;
    for path in ["./Spanish/verbs.md", "Spanish/./verbs.md", "Spanish//verbs.md"] {
        let entry = root.resolve_entry(path, &ground)?;
        assert_eq!(entry.rel, plain.rel, "for `{path}`");
        assert_eq!(entry.path, plain.path, "for `{path}`");
    }
    // The root itself still names nothing inside the tree.
    assert!(root.resolve_entry(".", &ground).is_err());
    assert!(root.resolve_entry("./", &ground).is_err());
    assert!(root.resolve_entry("./..", &ground).is_err());
    Ok(())
}

#[test]
fn user_dir_is_slugified_and_lowercased() -> Fallible<()> {
    let (dir, root) = fixture()?;
    assert_eq!(root.path(), format!("{dir}/local/me-example.com"));
    Ok(())
}

#[test]
fn anonymous_user_gets_the_default_tree() -> Fallible<()> {
    let dir = "/data";
    let root = LocalRoot::open(dir, None)?;
    assert_eq!(root.path(), format!("{dir}/local/default"));
    Ok(())
}

#[test]
fn resolves_a_path_that_does_not_exist_yet() -> Fallible<()> {
    let (_dir, root) = fixture()?;
    let resolved = root.resolve("Spanish/verbs.md", &bare(&root))?;
    assert_eq!(resolved, format!("{}/Spanish/verbs.md", root.path()));
    Ok(())
}

#[test]
fn rejects_parent_components() -> Fallible<()> {
    let (_dir, root) = fixture()?;
    assert!(root.resolve("../escape.md", &bare(&root)).is_err());
    assert!(root.resolve("Spanish/../../escape.md", &bare(&root)).is_err());
    Ok(())
}

/// The root is not addressable: deleting resolves the path it is given and
/// removes it, and `.` would have named the whole card folder.
#[test]
fn rejects_the_root_itself() -> Fallible<()> {
    let (_dir, root) = fixture()?;
    assert!(root.resolve(".", &bare(&root)).is_err());
    assert!(root.resolve("./", &bare(&root)).is_err());
    assert!(root.resolve("/", &bare(&root)).is_err());
    assert!(root.resolve("  ", &bare(&root)).is_err());
    Ok(())
}

#[test]
fn rejects_absolute_paths() -> Fallible<()> {
    let (_dir, root) = fixture()?;
    assert!(root.resolve("/etc/passwd", &bare(&root)).is_err());
    Ok(())
}

#[test]
fn rejects_empty_paths() -> Fallible<()> {
    let (_dir, root) = fixture()?;
    assert!(root.resolve("", &bare(&root)).is_err());
    assert!(root.resolve("   ", &bare(&root)).is_err());
    Ok(())
}

#[test]
fn rejects_escape_through_a_symlinked_directory() -> Fallible<()> {
    let (dir, root) = fixture()?;
    let outside = |is_symlink| Ground {
        existing: Some(Existing { is_symlink, canonical: format!("{dir}/outside") }),
        root: root.path().to_string(),
    };
    assert!(root.resolve("link/evil.md", &outside(true)).is_err());
    assert!(root.resolve("link/evil.md", &outside(false)).is_err());
    let nothing = Ground { existing: None, root: root.path().to_string() };
    assert!(root.resolve("link/evil.md", &nothing).is_err());
    Ok(())
}

#[test]
fn collection_id_is_created_once_and_then_reused() -> Fallible<()> {
    let first = fresh_id(1, 2, "/data/local/default/Spanish");
    assert_eq!(first.len(), 8);
    match folder_id(recorded_id(first.clone()), IdPolicy::CreateMissing) {
        FolderId::Known(second) => assert_eq!(first, second),
        _ => panic!("an id that is recorded must be reused"),
    }
    assert!(matches!(
        folder_id(recorded_id(String::new()), IdPolicy::CreateMissing),
        FolderId::Create
    ));
    Ok(())
}

#[test]
fn two_folders_get_different_ids() -> Fallible<()> {
    assert_ne!(fresh_id(1, 2, "/data/A"), fresh_id(1, 2, "/data/B"));
    assert_ne!(fresh_id(1, 2, "/data/A"), fresh_id(3, 2, "/data/A"));
    Ok(())
}

fn found(name: &str, is_dir: bool) -> FoundEntry {
    FoundEntry { name: name.to_string(), is_dir, is_symlink: false }
}

/// The folders under these names, each with an id of its own.
fn with_ids(names: Vec<String>) -> Vec<(String, Option<String>)> {
    names
        .into_iter()
        .map(|name| {
            let id = fresh_id(1, 2, &name);
            (name, Some(id))
        })
        .collect()
}

#[test]
fn discovery_returns_one_collection_per_top_level_folder() -> Fallible<()> {
    let (dir, root) = fixture()?;
    let names = collection_names(&vec![
        found("Spanish", true),
        found("Medicine", true),
        found("loose.md", false),
    ]);
    let found = discover_local_collections(
        &root,
        &format!("{dir}/db"),
        Some("me@example.com"),
        &with_ids(names),
    );
    assert_eq!(found.len(), 2);
    assert_eq!(found[0].name, "Medicine");
    assert_eq!(found[1].name, "Spanish");
    assert_eq!(found[1].owner, Some("me@example.com".to_string()));
    Ok(())
}

#[test]
fn discovered_db_path_is_named_from_the_id_not_the_slug() -> Fallible<()> {
    let (dir, root) = fixture()?;
    let db_dir = format!("{dir}/db");
    let id = fresh_id(1, 2, "Spanish");
    let found = discover_local_collections(
        &root,
        &db_dir,
        None,
        &vec![("Spanish".to_string(), Some(id.clone()))],
    );
    assert_eq!(found[0].db_path, format!("{db_dir}/{id}.db"));
    Ok(())
}

#[test]
fn discovery_skips_a_folder_whose_metadata_is_broken() -> Fallible<()> {
    // One unreadable file must not take every other local collection down with
    // it.
    let (dir, root) = fixture()?;
    let found = discover_local_collections(
        &root,
        &format!("{dir}/db"),
        None,
        &vec![
            ("Medicine".to_string(), Some("12345678".to_string())),
            ("Spanish".to_string(), None),
        ],
    );
    assert_eq!(found.len(), 1);
    assert_eq!(found[0].name, "Medicine");
    Ok(())
}

#[test]
fn read_only_discovery_writes_no_metadata_file() -> Fallible<()> {
    let (dir, root) = fixture()?;
    assert!(matches!(folder_id(None, IdPolicy::ExistingOnly), FolderId::Skip));
    let found = discover_local_collections(
        &root,
        &format!("{dir}/db"),
        None,
        &vec![("Spanish".to_string(), None)],
    );
    assert!(found.is_empty(), "a folder with no id yet must be skipped");
    Ok(())
}

#[test]
fn discovery_keeps_one_of_two_folders_that_slugify_alike() -> Fallible<()> {
    // Both names slugify to `Verbs-1`; serving both would make
    // `/collection/Verbs-1` mean whichever came first.
    let (dir, root) = fixture()?;
    let names = collection_names(&vec![found("Verbs-1", true), found("Verbs 1", true)]);
    let found = discover_local_collections(&root, &format!("{dir}/db"), None, &with_ids(names));
    assert_eq!(found.len(), 1);
    assert_eq!(found[0].name, "Verbs 1", "the first name by sort order wins");
    Ok(())
}

#[test]
fn opening_a_tree_does_not_create_it() -> Fallible<()> {
    let root = LocalRoot::open("/no/such/place", Some("me@example.com"))?;
    assert!(!std::path::Path::new(root.path()).exists());
    Ok(())
}

#[test]
fn an_owner_without_a_name_has_no_folder() {
    assert!(LocalRoot::open("/data", Some("")).is_err());
}

#[test]
fn hidden_folders_and_links_are_no_collections() {
    let mut link = found("Link", true);
    link.is_symlink = true;
    assert!(collection_names(&vec![found(".git", true), link]).is_empty());
}

// The tree.

fn file(name: &str) -> Listed {
    Listed { name: name.to_string(), is_dir: false, is_symlink: false, below: Vec::new() }
}

fn folder(name: &str, below: Vec<Listed>) -> Listed {
    Listed { name: name.to_string(), is_dir: true, is_symlink: false, below }
}

#[test]
fn tree_lists_folders_before_files_depth_first() -> Fallible<()> {
    let spanish = folder("Spanish", vec![file("verbs.md"), file(LOCAL_META_FILE)]);
    let tree = read_tree(&vec![file("a.md"), spanish]);
    let paths: Vec<&str> = tree.iter().map(|e| e.rel_path.as_str()).collect();
    assert_eq!(paths, vec!["Spanish", "Spanish/verbs.md", "a.md"]);
    assert!(tree[0].is_dir);
    assert_eq!(tree[1].depth, 1);
    Ok(())
}

/// Each folder stands directly before what it holds, at every depth.
#[test]
fn folders_stand_before_what_they_hold() {
    let mut link = folder("Link", vec![file("x.md")]);
    link.is_symlink = true;
    let tree = read_tree(&vec![
        file("z.md"),
        folder("B", vec![file("b.md"), folder("Inner", vec![file("i.md"), file("note.txt")])]),
        link,
        folder("A", Vec::new()),
        folder(".git", vec![file("c.md")]),
    ]);
    let rows: Vec<(&str, &str, bool, usize)> = tree
        .iter()
        .map(|e| (e.rel_path.as_str(), e.name.as_str(), e.is_dir, e.depth))
        .collect();
    assert_eq!(
        rows,
        vec![
            ("A", "A", true, 0),
            ("B", "B", true, 0),
            ("B/Inner", "Inner", true, 1),
            ("B/Inner/i.md", "i.md", false, 2),
            ("B/b.md", "b.md", false, 1),
            ("z.md", "z.md", false, 0),
        ]
    );
}

#[test]
fn tree_hides_the_metadata_file_and_dotfiles() -> Fallible<()> {
    assert!(read_tree(&vec![file(LOCAL_META_FILE), file(".hidden")]).is_empty());
    assert!(!is_shown(LOCAL_META_FILE));
    assert!(is_shown("verbs.md"));
    Ok(())
}

#[test]
fn names_must_be_single_components() {
    assert!(validate_name("verbs.md").is_ok());
    assert!(validate_name("Spanish").is_ok());
    assert!(validate_name("a/b").is_err());
    assert!(validate_name("..").is_err());
    assert!(validate_name("").is_err());
    assert!(validate_name(LOCAL_META_FILE).is_err());
}

#[test]
fn a_non_empty_folder_is_not_deleted() -> Fallible<()> {
    // The metadata file alone must not count as "non-empty".
    let names = vec!["verbs.md".to_string(), LOCAL_META_FILE.to_string()];
    assert_eq!(non_empty_children(&names), vec!["verbs.md".to_string()]);
    assert!(check_empty("Spanish", &non_empty_children(&names)).is_err());
    let names = vec![LOCAL_META_FILE.to_string()];
    assert!(non_empty_children(&names).is_empty());
    assert!(check_empty("Spanish", &Vec::new()).is_ok());
    Ok(())
}

#[test]
fn sync_never_writes_into_the_local_root() -> Fallible<()> {
    // The local root must not sit under the directory that git and source sync
    // own, or a pull could overwrite user writing.
    let dir = "/data";
    let root = LocalRoot::open(dir, None)?;
    assert!(!root.path().starts_with(&format!("{dir}/repo")));
    Ok(())
}

#[test]
fn db_path_comes_from_the_top_level_folder_id() -> Fallible<()> {
    assert_eq!(collection_folder("Spanish/verbs.md")?, "Spanish");
    assert!(check_collection_folder("Spanish", true).is_ok());
    let id = fresh_id(1, 2, "Spanish");
    assert_eq!(db_path_for("/data/db", &id), format!("/data/db/{id}.db"));
    Ok(())
}

#[test]
fn a_file_outside_any_collection_folder_is_rejected() -> Fallible<()> {
    assert!(collection_folder("loose.md").is_err());
    assert!(collection_folder("").is_err());
    assert!(check_collection_folder("loose.md", false).is_err());
    Ok(())
}

#[test]
fn parse_buffer_names_the_deck_after_the_file() -> Fallible<()> {
    let parsed = parse_buffer("Spanish/verbs.md", "Q: the cat\nA: el gato\n")?;
    assert_eq!(parsed.cards.len(), 1);
    assert_eq!(parsed.cards[0].deck_name(), "verbs");
    assert_eq!(buffer_deck_name("verbs"), "verbs");
    Ok(())
}

#[test]
fn parse_buffer_honours_toml_frontmatter_offset() -> Fallible<()> {
    let text = "---\nname = \"Custom\"\n---\n\nQ: a\nA: b\n";
    let parsed = parse_buffer("Spanish/verbs.md", text)?;
    assert_eq!(parsed.cards.len(), 1);
    assert_eq!(parsed.cards[0].range(), (4, 5));
    Ok(())
}

#[test]
fn card_template_parses_into_two_cards() -> Fallible<()> {
    let (content, offset) = strip_frontmatter_with_offset(CARD_TEMPLATE)?;
    let parser = Parser::new("My deck".to_string(), "t.md".to_string(), offset);
    let parsed = parser.parse_with_duplicates(&content)?;
    assert_eq!(parsed.cards.len(), 2);
    Ok(())
}

#[test]
fn entries_are_planned_where_they_are_asked_for() -> Fallible<()> {
    let form = |parent: &str, name: &str| NewEntryForm {
        parent: parent.to_string(),
        name: name.to_string(),
    };
    assert_eq!(planned_entry(&form("", "Spanish"), true)?, "Spanish");
    assert_eq!(planned_entry(&form("Spanish", "verbs"), false)?, "Spanish/verbs.md");
    assert_eq!(planned_entry(&form("Spanish", "verbs.md"), false)?, "Spanish/verbs.md");
    assert!(planned_entry(&form("Spanish", "a/b"), false).is_err());
    assert!(becomes_collection("Spanish", true));
    assert!(!becomes_collection("Spanish/nested", true));
    assert!(!becomes_collection("loose.md", false));
    assert_eq!(created_message("Spanish", true), "Created folder `Spanish`.");
    assert_eq!(created_message("a.md", false), "Created `a.md`.");
    assert!(check_free("a.md", false).is_ok());
    assert!(check_free("a.md", true).is_err());
    Ok(())
}

#[test]
fn renames_stay_in_their_folder() -> Fallible<()> {
    let form = |path: &str, name: &str| RenameForm {
        path: path.to_string(),
        name: name.to_string(),
    };
    assert_eq!(planned_rename(&form("Spanish/verbs.md", "nouns"), true)?, "Spanish/nouns.md");
    assert_eq!(planned_rename(&form("Spanish", "Espanol"), false)?, "Espanol");
    assert!(planned_rename(&form("Spanish", ".."), false).is_err());
    assert_eq!(renamed_message("x"), "Renamed to `x`.");
    assert_eq!(deleted_message("x"), "Deleted `x`.");
    assert!(check_present("x", true).is_ok());
    assert!(check_present("x", false).is_err());
    assert_eq!(join_rel("", "a"), "a");
    assert_eq!(join_rel("b", "a"), "b/a");
    Ok(())
}

#[test]
fn a_save_is_checked_and_taken_back() {
    let form = SaveForm { content: "Q: a\nA: b\n".to_string(), mtime: 5 };
    assert!(check_unchanged(&form, 5).is_ok());
    assert!(check_unchanged(&form, 6).is_err());
    assert!(check_file("a.md", true).is_ok());
    assert!(check_file("a.md", false).is_err());
    assert!(matches!(after_parse(Ok(3)), SaveStep::Migrate(3)));
    assert!(matches!(
        after_parse(Err("bad".to_string())),
        SaveStep::Revert(m) if m == "Not saved \u{2014} bad"
    ));
    assert!(matches!(after_migration(3, 0, Ok(0)), SaveStep::Saved(_)));
    assert!(matches!(after_migration(3, 0, Err("x".to_string())), SaveStep::Revert(_)));
}

#[test]
fn the_template_is_a_deck() {
    assert!(CARD_TEMPLATE.starts_with("---\nname = "));
    assert!(CARD_TEMPLATE.contains("\nQ: "));
    assert!(CARD_TEMPLATE.contains("\nC: "));
}
