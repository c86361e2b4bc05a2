//! The HedgeDoc notes that a server keeps.

use vstd::prelude::*;
use crate::error::{fail, ErrorReport, Fallible};
use crate::flash::Flash;
use crate::list;
use crate::path;
use crate::serve::config;
use crate::serve::config::{HedgedocEntry, ResolvedCollection};
use crate::serve::frontmatter;
use crate::serve::frontmatter::{extract_title, sanitize_deck_name, wrap_with_deck_frontmatter};
use crate::serve::hedgedoc;
use crate::serve::hedgedoc::{
    normalize_hedgedoc_url, note_id_from_url, slug_for_note,
    source_display_name, source_uri_from_url,
};
use crate::serve::state::{CollectionInfo, HedgedocNote, HedgedocSource};
use crate::text;
use crate::toml_table;
use crate::types::card_hash;
use crate::url;

verus! {

/// What a note is called before its title is known: its id, and the host it
/// lives on.
pub open spec fn placeholder_name(address: Seq<char>) -> Seq<char> {
    match hedgedoc::source_uri(address) {
        Some(uri) => hedgedoc::display_name(uri) + " / "@ + hedgedoc::id_or_address(address),
        None => hedgedoc::id_or_address(address),
    }
}

/// What a note is called before its title is known.
pub fn note_display_name(address: &str) -> (result: String)
    ensures
        result@ == placeholder_name(address@),
{
    let id = hedgedoc::id_or_address_of(address);
    match source_uri_from_url(address) {
        Some(uri) => {
            let host = source_display_name(uri.as_str());
            text::cat3(host.as_str(), " / ", id.as_str())
        },
        None => id,
    }
}

/// Whether `c` is the collection of a note: its directory and its database
/// are named by the slug of the note.
pub open spec fn note_collection(
    address: Seq<char>,
    data_dir: Seq<char>,
    owner: Option<Seq<char>>,
    c: ResolvedCollection,
) -> bool {
    let slug = hedgedoc::note_slug(address, owner);
    &&& c.name@ == placeholder_name(address)
    &&& c.slug@ == slug
    &&& c.coll_dir@ == path::join_path(path::join_path(data_dir, "hedgedoc"@), slug)
    &&& c.db_path@ == path::join_path(path::join_path(data_dir, "db"@), slug + ".db"@)
    &&& text::opt_text(c.owner) == owner
}

/// The collection of a note.
pub fn resolved_collection(address: &str, data_dir: &str, owner: Option<String>) -> (result:
    ResolvedCollection)
    ensures
        note_collection(address@, data_dir@, text::opt_text(owner), result),
        result.owner == owner,
{
    let slug = match &owner {
        Some(o) => slug_for_note(address, Some(o.as_str())),
        None => slug_for_note(address, None),
    };
    let notes = path::join(data_dir, "hedgedoc");
    let coll_dir = path::join(notes.as_str(), slug.as_str());
    let dbs = path::join(data_dir, "db");
    let file = text::cat2(slug.as_str(), ".db");
    let db_path = path::join(dbs.as_str(), file.as_str());
    ResolvedCollection { name: note_display_name(address), slug, coll_dir, db_path, owner }
}

/// The name of the file of a note.
pub open spec fn file_name(address: Seq<char>) -> Seq<char> {
    let id = hedgedoc::id_or_address(address);
    hedgedoc::stem(id) + "-"@ + card_hash::short_digest(id) + ".md"@
}

/// The name of the file of a note.
pub fn note_file_name(address: &str) -> (result: String)
    ensures
        result@ == file_name(address@),
{
    let id = hedgedoc::id_or_address_of(address);
    let stem = hedgedoc::stem_of(id.as_str());
    let digits = card_hash::short_digest_of(id.as_str());
    let mut result = text::cat3(stem.as_str(), "-", digits.as_str());
    result.append(".md");
    result
}

/// The id of a note, or a default.
pub open spec fn id_or(address: Seq<char>, default: Seq<char>) -> Seq<char> {
    match hedgedoc::note_id(address) {
        Some(id) => id,
        None => default,
    }
}

fn id_or_of(address: &str, default: &str) -> (result: String)
    ensures
        result@ == id_or(address@, default@),
{
    match note_id_from_url(address) {
        Some(id) => id,
        None => default.to_owned(),
    }
}

/// The name that the file of a note had before it was told apart from others by
/// a digest. A file of that name holds the same note, so it has to go; `None`
/// where it is the current one.
pub fn legacy_note_file(address: &str, current: &str) -> (result: Option<String>)
    ensures
        ({
            let legacy = hedgedoc::stem(id_or(address@, "note"@)) + ".md"@;
            text::opt_text(result) == if legacy == current@ {
                None
            } else {
                Some(legacy)
            }
        }),
{
    let id = id_or_of(address, "note");
    let stem = hedgedoc::stem_of(id.as_str());
    let legacy = text::cat2(stem.as_str(), ".md");
    if text::same(legacy.as_str(), current) {
        None
    } else {
        Some(legacy)
    }
}

/// A note as it is stored.
pub struct StoredNote {
    pub deck_name: String,
    pub file_name: String,
    /// The file that the text is written to before it takes its name.
    pub tmp_name: String,
    pub content: String,
}

/// The name of the deck that a note becomes.
pub open spec fn note_deck(address: Seq<char>, markdown: Seq<char>) -> Seq<char> {
    let id = id_or(address, ""@);
    frontmatter::deck_name(
        match frontmatter::title(markdown) {
            Some(t) => t,
            None => id,
        },
        id,
    )
}

/// Turns the text of a note into the file of a deck.
pub fn stored_note(address: &str, markdown: &str) -> (result: Fallible<StoredNote>)
    ensures
        ({
            let deck = note_deck(address@, markdown@);
            match frontmatter::toml_pair("name"@, deck) {
                Ok(settings) => result matches Ok(r) && {
                    &&& r.deck_name@ == deck
                    &&& r.file_name@ == file_name(address@)
                    &&& r.tmp_name@ == "."@ + file_name(address@) + ".tmp"@
                    &&& r.content@ == frontmatter::framed(settings, markdown@)
                },
                Err(e) => result matches Err(r) && r@ == "TOML serialization error: "@ + e,
            }
        }),
{
    let id = id_or_of(address, "");
    let title = extract_title(markdown, id.as_str());
    let deck_name = sanitize_deck_name(title.as_str(), id.as_str());
    match wrap_with_deck_frontmatter(markdown, deck_name.as_str()) {
        Ok(content) => {
            let file_name = note_file_name(address);
            let tmp_name = text::cat3(".", file_name.as_str(), ".tmp");
            Ok(StoredNote { deck_name, file_name, tmp_name, content })
        },
        Err(e) => Err(e),
    }
}

/// A note that could not be fetched.
pub fn error_note(address: &str, message: String) -> (result: HedgedocNote)
    ensures
        result.url@ == address@,
        result.deck_name@ == id_or(address@, "note"@),
        result.file_name@ == file_name(address@),
        result.last_error == Some(message),
{
    HedgedocNote {
        url: address.to_owned(),
        deck_name: id_or_of(address, "note"),
        file_name: note_file_name(address),
        last_error: Some(message),
    }
}

/// A note after its first synchronisation, which gave the names of its deck
/// and its file, or an error. The error is kept with the note.
pub fn build_note(address: &str, synced: Result<(String, String), String>) -> (result: HedgedocNote)
    ensures
        result.url@ == address@,
        match synced {
            Ok((deck, file)) => result.deck_name == deck && result.file_name == file
                && result.last_error is None,
            Err(message) => result.deck_name@ == id_or(address@, "note"@) && result.file_name@
                == file_name(address@) && result.last_error == Some(message),
        },
{
    match synced {
        Ok((deck, file)) => HedgedocNote {
            url: address.to_owned(),
            deck_name: deck,
            file_name: file,
            last_error: None,
        },
        Err(message) => error_note(address, message),
    }
}

/// A source for a note. A note that could be fetched is called by its own
/// title.
pub fn build_source(
    address: &str,
    data_dir: &str,
    owner: Option<String>,
    note: HedgedocNote,
) -> (result: Fallible<HedgedocSource>)
    ensures
        match hedgedoc::source_uri(address@) {
            None => result matches Err(e) && e@ == "Cannot derive source URI from URL: "@
                + address@,
            Some(uri) => result matches Ok(s) && {
                &&& s.source_uri@ == uri
                &&& s.note == note
                &&& exists|c: ResolvedCollection|
                    {
                        &&& #[trigger] note_collection(
                            address@,
                            data_dir@,
                            text::opt_text(owner),
                            c,
                        )
                        &&& s.collection == (ResolvedCollection {
                            name: if note.last_error is None {
                                note.deck_name
                            } else {
                                c.name
                            },
                            ..c
                        })
                    }
            },
        },
{
    match source_uri_from_url(address) {
        None => {
            let message = text::cat2("Cannot derive source URI from URL: ", address);
            fail(message.as_str())
        },
        Some(source_uri) => {
            let mut collection = resolved_collection(address, data_dir, owner);
            let ghost c = collection;
            if note.last_error.is_none() {
                collection.name = note.deck_name.clone();
            }
            proof {
                assert(note_collection(address@, data_dir@, text::opt_text(owner), c));
            }
            Ok(HedgedocSource { source_uri, collection, note })
        },
    }
}

/// A source for a note, whatever became of building one: where that failed, the
/// source stands for the note and carries the error, so that a configured note
/// is never lost.
pub fn build_source_lossless(
    address: &str,
    data_dir: &str,
    owner: Option<String>,
    built: Fallible<HedgedocSource>,
) -> (result: HedgedocSource)
    ensures
        match built {
            Ok(s) => result == s,
            Err(e) => {
                &&& result.source_uri@ == match hedgedoc::source_uri(address@) {
                    Some(uri) => uri,
                    None => address@,
                }
                &&& note_collection(
                    address@,
                    data_dir@,
                    text::opt_text(owner),
                    result.collection,
                )
                &&& result.note.url@ == address@
                &&& result.note.deck_name@ == id_or(address@, "note"@)
                &&& result.note.file_name@ == file_name(address@)
                &&& text::opt_text(result.note.last_error) == Some("error: "@ + e@)
            },
        },
{
    match built {
        Ok(s) => s,
        Err(e) => {
            let source_uri = match source_uri_from_url(address) {
                Some(uri) => uri,
                None => address.to_owned(),
            };
            let collection = resolved_collection(address, data_dir, owner);
            let note = error_note(address, e.to_text());
            HedgedocSource { source_uri, collection, note }
        },
    }
}

/// A source after its note was fetched.
pub open spec fn synced(source: HedgedocSource, deck: String, file: String) -> HedgedocSource {
    HedgedocSource {
        collection: ResolvedCollection { name: deck, ..source.collection },
        note: HedgedocNote {
            deck_name: deck,
            file_name: file,
            last_error: None,
            ..source.note
        },
        ..source
    }
}

/// Records that the note of a source was fetched: its title becomes the name
/// of the collection.
pub fn apply_sync_result(source: &mut HedgedocSource, deck_name: String, file_name: String)
    ensures
        *final(source) == synced(*old(source), deck_name, file_name),
{
    source.collection.name = deck_name.clone();
    source.note.deck_name = deck_name;
    source.note.file_name = file_name;
    source.note.last_error = None;
}

/// The place of the first source with a slug; the number of sources if there
/// is none.
pub open spec fn source_with_slug(sources: Seq<HedgedocSource>, slug: Seq<char>) -> int
    decreases sources.len(),
{
    if sources.len() == 0 {
        0
    } else if sources[0].collection.slug@ == slug {
        0
    } else {
        1 + source_with_slug(sources.skip(1), slug)
    }
}

/// A source after a synchronisation.
pub open spec fn recorded(
    source: HedgedocSource,
    outcome: Result<(String, String), String>,
) -> HedgedocSource {
    match outcome {
        Ok((deck, file)) => synced(source, deck, file),
        Err(message) => HedgedocSource {
            note: HedgedocNote { last_error: Some(message), ..source.note },
            ..source
        },
    }
}

/// Records what a synchronisation gave with the source that has the slug. A
/// source that has gone in the meantime stays gone.
pub fn record_sync(
    sources: &mut Vec<HedgedocSource>,
    slug: &str,
    outcome: Result<(String, String), String>,
)
    ensures
        ({
            let i = source_with_slug(old(sources)@, slug@);
            final(sources)@ == if i < old(sources)@.len() {
                old(sources)@.update(i, recorded(old(sources)@[i], outcome))
            } else {
                old(sources)@
            }
        }),
{
    let ghost before = sources@;
    let mut i: usize = 0;
    proof {
        assert(before.skip(0) == before);
    }
    while i < sources.len()
        invariant
            i <= sources@.len(),
            before == old(sources)@,
            sources@ == before,
            source_with_slug(before, slug@) == i + source_with_slug(before.skip(i as int), slug@),
        decreases sources@.len() - i,
    {
        proof {
            assert(before.skip(i as int)[0] == before[i as int]);
            assert(before.skip(i as int).skip(1) == before.skip(i + 1));
        }
        if text::same(sources[i].collection.slug.as_str(), slug) {
            let mut source = sources[i].clone();
            match outcome {
                Ok((deck, file)) => {
                    apply_sync_result(&mut source, deck, file);
                },
                Err(message) => {
                    source.note.last_error = Some(message);
                },
            }
            sources.set(i, source);
            return ;
        }
        i += 1;
    }
}

/// Whether a source is the note of this owner.
pub open spec fn is_note_of(address: Seq<char>, owner: Option<Seq<char>>) -> spec_fn(
    HedgedocSource,
) -> bool {
    |s: HedgedocSource| s.note.url@ == address && text::opt_text(s.collection.owner) == owner
}

/// Whether a source is another note than this one of this owner.
pub open spec fn is_other_than(address: Seq<char>, owner: Option<Seq<char>>) -> spec_fn(
    HedgedocSource,
) -> bool {
    |s: HedgedocSource| !is_note_of(address, owner)(s)
}

/// Whether an owner has a note.
pub open spec fn has_note(
    sources: Seq<HedgedocSource>,
    address: Seq<char>,
    owner: Option<Seq<char>>,
) -> bool {
    exists|i: int| 0 <= i < sources.len() && is_note_of(address, owner)(#[trigger] sources[i])
}

fn is_note(source: &HedgedocSource, address: &str, owner: Option<&str>) -> (result: bool)
    ensures
        result == is_note_of(address@, text::opt_str(owner))(*source),
{
    text::same(source.note.url.as_str(), address) && text::same_opt(
        &source.collection.owner,
        owner,
    )
}

/// The place of the first source that is the note of this owner.
fn note_position(sources: &Vec<HedgedocSource>, address: &str, owner: Option<&str>) -> (result:
    usize)
    ensures
        result <= sources@.len(),
        result < sources@.len() ==> is_note_of(address@, text::opt_str(owner))(
            sources@[result as int],
        ),
        forall|j: int|
            0 <= j < result ==> !is_note_of(address@, text::opt_str(owner))(#[trigger] sources@[j]),
{
    let mut i: usize = 0;
    while i < sources.len() && !is_note(&sources[i], address, owner)
        invariant
            i <= sources@.len(),
            forall|j: int|
                0 <= j < i ==> !is_note_of(address@, text::opt_str(owner))(#[trigger] sources@[j]),
        decreases sources@.len() - i,
    {
        i += 1;
    }
    i
}

/// Whether an owner has a note. The same note of another user does not count.
pub fn owns_note(sources: &Vec<HedgedocSource>, address: &str, owner: Option<&str>) -> (result:
    bool)
    ensures
        result == has_note(sources@, address@, text::opt_str(owner)),
{
    let i = note_position(sources, address, owner);
    i < sources.len()
}

fn copied_sources(sources: &Vec<HedgedocSource>) -> (result: Vec<HedgedocSource>)
    ensures
        result@ == sources@,
{
    let mut result: Vec<HedgedocSource> = Vec::new();
    let mut i: usize = 0;
    while i < sources.len()
        invariant
            i <= sources@.len(),
            result@ == sources@.take(i as int),
        decreases sources@.len() - i,
    {
        result.push(sources[i].clone());
        i += 1;
        proof {
            assert(sources@.take(i as int) == sources@.take(i - 1).push(sources@[i - 1]));
        }
    }
    proof {
        assert(sources@.take(i as int) == sources@);
    }
    result
}

/// The sources with one more, unless its owner has the note already. Nothing
/// is changed yet: the list that comes back is written to the configuration
/// first, and takes the place of the old one when that has worked.
pub fn commit_add(
    sources: &Vec<HedgedocSource>,
    address: &str,
    owner: Option<&str>,
    new_source: HedgedocSource,
) -> (result: Fallible<Vec<HedgedocSource>>)
    ensures
        if has_note(sources@, address@, text::opt_str(owner)) {
            result matches Err(e) && e@ == "HedgeDoc note is already configured: "@ + address@
        } else {
            result matches Ok(updated) && updated@ == sources@.push(new_source)
        },
{
    if owns_note(sources, address, owner) {
        let message = text::cat2("HedgeDoc note is already configured: ", address);
        return fail(message.as_str());
    }
    let mut updated = copied_sources(sources);
    updated.push(new_source);
    Ok(updated)
}

/// What the deletion of a note leaves, and the collection that goes.
pub struct DeleteOutcome {
    pub snapshot: Vec<HedgedocSource>,
    pub removed: ResolvedCollection,
}

/// The sources without a note, and the collection of that note. The same note
/// of another owner stays. Nothing is changed yet, as with an addition.
pub fn commit_delete(sources: &Vec<HedgedocSource>, address: &str, owner: Option<&str>) -> (result:
    Fallible<DeleteOutcome>)
    ensures
        if has_note(sources@, address@, text::opt_str(owner)) {
            result matches Ok(outcome) && {
                &&& outcome.snapshot@ == list::keep(
                    sources@,
                    is_other_than(address@, text::opt_str(owner)),
                )
                &&& exists|i: int|
                    {
                        &&& 0 <= i < sources@.len()
                        &&& #[trigger] sources@[i].collection == outcome.removed
                        &&& is_note_of(address@, text::opt_str(owner))(sources@[i])
                        &&& forall|j: int|
                            0 <= j < i ==> !is_note_of(address@, text::opt_str(owner))(
                                #[trigger] sources@[j],
                            )
                    }
            }
        } else {
            result matches Err(e) && e@ == "No HedgeDoc source with this URL: "@ + address@
        },
{
    let at = note_position(sources, address, owner);
    if at >= sources.len() {
        let message = text::cat2("No HedgeDoc source with this URL: ", address);
        return fail(message.as_str());
    }
    let removed = sources[at].collection.clone();
    let ghost p = is_other_than(address@, text::opt_str(owner));
    let mut snapshot: Vec<HedgedocSource> = Vec::new();
    let mut i: usize = 0;
    while i < sources.len()
        invariant
            i <= sources@.len(),
            p == is_other_than(address@, text::opt_str(owner)),
            snapshot@ == list::keep(sources@.take(i as int), p),
        decreases sources@.len() - i,
    {
        if !is_note(&sources[i], address, owner) {
            snapshot.push(sources[i].clone());
        }
        proof {
            list::lemma_keep_step(sources@, p, i as int);
        }
        i += 1;
    }
    proof {
        assert(sources@.take(i as int) == sources@);
        assert(sources@[at as int].collection == removed);
    }
    Ok(DeleteOutcome { snapshot, removed })
}

/// Makes a planned list of sources the current one, once it has been written
/// to the configuration. Where writing failed, nothing changes and the failure
/// is passed on.
pub fn commit(
    sources: &mut Vec<HedgedocSource>,
    updated: Vec<HedgedocSource>,
    persisted: Fallible<()>,
) -> (result: Fallible<()>)
    ensures
        match persisted {
            Ok(_) => result is Ok && final(sources)@ == updated@,
            Err(e) => result == Err::<(), ErrorReport>(e) && final(sources)@ == old(sources)@,
        },
{
    match persisted {
        Ok(_) => {
            *sources = updated;
            Ok(())
        },
        Err(e) => Err(e),
    }
}

/// After the deletion of a note its owner does not have it any more, and every
/// other note, of the same owner or of another, is still there.
pub proof fn law_a_deletion_takes_one_note(
    sources: Seq<HedgedocSource>,
    address: Seq<char>,
    owner: Option<Seq<char>>,
)
    ensures
        ({
            let after = list::keep(sources, is_other_than(address, owner));
            &&& !has_note(after, address, owner)
            &&& forall|a: Seq<char>, o: Option<Seq<char>>|
                a != address || o != owner ==> (#[trigger] has_note(after, a, o) <==> has_note(
                    sources,
                    a,
                    o,
                ))
        }),
{
    let p = is_other_than(address, owner);
    let after = list::keep(sources, p);
    list::lemma_keep(sources, p);
    assert forall|i: int| 0 <= i < after.len() implies p(#[trigger] after[i])
        && sources.contains(after[i]) by {
        assert(after.contains(after[i]));
    }
    assert forall|a: Seq<char>, o: Option<Seq<char>>| a != address || o != owner implies (
    #[trigger] has_note(after, a, o) <==> has_note(sources, a, o)) by {
        if has_note(after, a, o) {
            let i = choose|i: int| 0 <= i < after.len() && is_note_of(a, o)(#[trigger] after[i]);
            let j = choose|j: int| 0 <= j < sources.len() && sources[j] == after[i];
            assert(is_note_of(a, o)(sources[j]));
        }
        if has_note(sources, a, o) {
            let i = choose|i: int|
                0 <= i < sources.len() && is_note_of(a, o)(#[trigger] sources[i]);
            assert(p(sources[i]));
            assert(sources.contains(sources[i]));
            assert(after.contains(sources[i]));
            let j = choose|j: int| 0 <= j < after.len() && after[j] == sources[i];
            assert(is_note_of(a, o)(after[j]));
        }
    }
}

/// Deleting a note that was just added gives back the notes that were there
/// before.
pub proof fn law_a_deletion_undoes_an_addition(
    sources: Seq<HedgedocSource>,
    source: HedgedocSource,
    address: Seq<char>,
    owner: Option<Seq<char>>,
)
    requires
        !has_note(sources, address, owner),
        is_note_of(address, owner)(source),
    ensures
        list::keep(sources.push(source), is_other_than(address, owner)) == sources,
{
    let p = is_other_than(address, owner);
    assert(sources.push(source).drop_last() == sources);
    assert forall|i: int| 0 <= i < sources.len() implies p(#[trigger] sources[i]) by {
        if !p(sources[i]) {
            assert(is_note_of(address, owner)(sources[i]));
        }
    }
    list::lemma_keep_everything(sources, p);
}

/// What is said of a deletion once the files of the note are gone, or `failure`
/// kept them from going. The database of reviews is kept.
pub fn cleanup_after_delete(outcome: &DeleteOutcome, failure: Option<&str>) -> (result: String)
    ensures
        result@ == match failure {
            Some(e) => "Note removed, but its directory "@ + outcome.removed.coll_dir@
                + " could not be deleted: "@ + e@ + ". The review database at "@
                + outcome.removed.db_path@ + " was kept."@,
            None => "Note removed. Its directory "@ + outcome.removed.coll_dir@
                + " was deleted. The review database at "@ + outcome.removed.db_path@
                + " was kept, so your review history survives if you re-add this note."@,
        },
{
    let dir = outcome.removed.coll_dir.as_str();
    let db = outcome.removed.db_path.as_str();
    match failure {
        Some(e) => text::cat7(
            "Note removed, but its directory ",
            dir,
            " could not be deleted: ",
            e,
            ". The review database at ",
            db,
            " was kept.",
        ),
        None => text::cat5(
            "Note removed. Its directory ",
            dir,
            " was deleted. The review database at ",
            db,
            " was kept, so your review history survives if you re-add this note.",
        ),
    }
}

/// A collection as the list of collections shows it. Cards that could not be
/// counted are none.
pub open spec fn info_of(c: ResolvedCollection, counts: Option<(usize, usize)>) -> CollectionInfo {
    CollectionInfo {
        name: c.name,
        slug: c.slug,
        total_cards: match counts {
            Some((total, _)) => total,
            None => 0,
        },
        due_today: match counts {
            Some((_, due)) => due,
            None => 0,
        },
        owner: c.owner,
    }
}

/// A collection as the list of collections shows it.
pub fn collection_info(c: &ResolvedCollection, counts: Option<(usize, usize)>) -> (result:
    CollectionInfo)
    ensures
        result == info_of(*c, counts),
{
    let (total_cards, due_today): (usize, usize) = match counts {
        Some((total, due)) => (total, due),
        None => (0, 0),
    };
    CollectionInfo {
        name: c.name.clone(),
        slug: c.slug.clone(),
        total_cards,
        due_today,
        owner: c.owner.clone(),
    }
}

/// A note as the list of collections shows it.
pub fn collection_info_for_source(source: &HedgedocSource, counts: Option<(usize, usize)>) -> (result:
    CollectionInfo)
    ensures
        result == info_of(source.collection, counts),
{
    collection_info(&source.collection, counts)
}

/// The counts at a place, if they were made.
pub open spec fn counts_at(counts: Seq<Option<(usize, usize)>>, i: int) -> Option<(usize, usize)> {
    if 0 <= i < counts.len() {
        counts[i]
    } else {
        None
    }
}

/// The list of collections: those of the configuration, then the notes.
pub fn build_combined_infos(
    static_infos: Vec<CollectionInfo>,
    sources: &Vec<HedgedocSource>,
    counts: &Vec<Option<(usize, usize)>>,
) -> (result: Vec<CollectionInfo>)
    ensures
        result@ == static_infos@ + Seq::new(
            sources@.len(),
            |i: int| info_of(sources@[i].collection, counts_at(counts@, i)),
        ),
{
    let mut infos = static_infos;
    let mut i: usize = 0;
    while i < sources.len()
        invariant
            i <= sources@.len(),
            infos@ == static_infos@ + Seq::new(
                i as nat,
                |i: int| info_of(sources@[i].collection, counts_at(counts@, i)),
            ),
        decreases sources@.len() - i,
    {
        let count = if i < counts.len() {
            counts[i]
        } else {
            None
        };
        infos.push(collection_info_for_source(&sources[i], count));
        i += 1;
        proof {
            assert(infos@ =~= static_infos@ + Seq::new(
                i as nat,
                |i: int| info_of(sources@[i].collection, counts_at(counts@, i)),
            ));
        }
    }
    infos
}

/// A source as an entry of the configuration.
pub open spec fn entry_of(source: HedgedocSource) -> HedgedocEntry {
    HedgedocEntry { url: source.note.url, owner: source.collection.owner }
}

/// The sources as entries of the configuration.
pub fn all_hedgedoc_entries(sources: &Vec<HedgedocSource>) -> (result: Vec<HedgedocEntry>)
    ensures
        result@ == sources@.map_values(|s: HedgedocSource| entry_of(s)),
{
    let mut result: Vec<HedgedocEntry> = Vec::new();
    let mut i: usize = 0;
    while i < sources.len()
        invariant
            i <= sources@.len(),
            result@ == sources@.take(i as int).map_values(|s: HedgedocSource| entry_of(s)),
        decreases sources@.len() - i,
    {
        result.push(
            HedgedocEntry {
                url: sources[i].note.url.clone(),
                owner: sources[i].collection.owner.clone(),
            },
        );
        i += 1;
        proof {
            assert(sources@.take(i as int) == sources@.take(i - 1).push(sources@[i - 1]));
            assert(result@ =~= sources@.take(i as int).map_values(
                |s: HedgedocSource| entry_of(s),
            ));
        }
    }
    proof {
        assert(sources@.take(i as int) == sources@);
    }
    result
}

/// The form that adds a note.
pub struct AddHedgedocForm {
    pub url: String,
}

/// The form that deletes a note.
pub struct DeleteHedgedocForm {
    pub url: String,
}

/// What keeps a note from being added, as the page then says it. The address
/// comes as the user typed it.
pub open spec fn add_error(
    typed: Seq<char>,
    has_data_dir: bool,
    sources: Seq<HedgedocSource>,
    owner: Option<Seq<char>>,
    collections: Seq<ResolvedCollection>,
) -> Option<Seq<char>> {
    let t = text::trim(typed);
    if t.len() == 0 {
        Some("Enter a HedgeDoc URL."@)
    } else {
        match hedgedoc::address_error(t) {
            Some(e) => Some("error: "@ + e),
            None => {
                let address = hedgedoc::kept_form(url::url_text(t)->Ok_0);
                let slug = hedgedoc::note_slug(address, owner);
                let pairs = config::labelled(collections);
                let i = config::first_with_slug(pairs, slug);
                if !has_data_dir {
                    Some(
                        "Cannot add HedgeDoc source: no data directory is configured. Start hashcards-web with --config."@,
                    )
                } else if has_note(sources, address, owner) {
                    Some("This note is already added."@)
                } else if hedgedoc::source_uri(address) is None {
                    Some("Could not parse a HedgeDoc note URL from: "@ + address)
                } else if i < collections.len() {
                    Some(
                        "Cannot add this HedgeDoc source: its collection slug '"@ + slug
                            + "' collides with the configured collection '"@ + collections[i].name@
                            + "'. Rename that collection or use a different source."@,
                    )
                } else {
                    None
                }
            },
        }
    }
}

/// Decides on a request to add a note: gives the address in the form in which
/// it is kept, or what the page says.
pub fn check_new_note(
    typed: &str,
    has_data_dir: bool,
    sources: &Vec<HedgedocSource>,
    owner: Option<&str>,
    collections: &[ResolvedCollection],
) -> (result: Result<String, Flash>)
    ensures
        ({
            let refused = add_error(
                typed@,
                has_data_dir,
                sources@,
                text::opt_str(owner),
                collections@,
            );
            match result {
                Ok(address) => refused is None && address@ == hedgedoc::kept_form(
                    url::url_text(text::trim(typed@))->Ok_0,
                ),
                Err(flash) => refused == Some(flash.message@) && flash.kind is Error,
            }
        }),
{
    if text::trim_of(typed).is_empty() {
        return Err(Flash::error("Enter a HedgeDoc URL."));
    }
    let address = match normalize_hedgedoc_url(typed) {
        Ok(address) => address,
        Err(e) => {
            let message = e.to_text();
            return Err(Flash::error(message.as_str()));
        },
    };
    if !has_data_dir {
        return Err(
            Flash::error(
                "Cannot add HedgeDoc source: no data directory is configured. Start hashcards-web with --config.",
            ),
        );
    }
    if owns_note(sources, address.as_str(), owner) {
        return Err(Flash::error("This note is already added."));
    }
    if source_uri_from_url(address.as_str()).is_none() {
        let message = text::cat2(
            "Could not parse a HedgeDoc note URL from: ",
            address.as_str(),
        );
        return Err(Flash::error(message.as_str()));
    }
    let slug = slug_for_note(address.as_str(), owner);
    let i = config::slug_position(collections, slug.as_str());
    proof {
        config::lemma_first_with_slug(config::labelled(collections@), slug@);
    }
    if i < collections.len() {
        let message = text::cat5(
            "Cannot add this HedgeDoc source: its collection slug '",
            slug.as_str(),
            "' collides with the configured collection '",
            collections[i].name.as_str(),
            "'. Rename that collection or use a different source.",
        );
        return Err(Flash::error(message.as_str()));
    }
    Ok(address)
}

/// A note that may be added gets a slug that no configured collection has.
pub proof fn law_added_notes_have_their_own_slugs(
    typed: Seq<char>,
    sources: Seq<HedgedocSource>,
    owner: Option<Seq<char>>,
    collections: Seq<ResolvedCollection>,
)
    requires
        add_error(typed, true, sources, owner, collections) is None,
    ensures
        ({
            let address = hedgedoc::kept_form(url::url_text(text::trim(typed))->Ok_0);
            &&& !has_note(sources, address, owner)
            &&& forall|i: int|
                0 <= i < collections.len() ==> (#[trigger] collections[i]).slug@
                    != hedgedoc::note_slug(address, owner)
        }),
{
    let address = hedgedoc::kept_form(url::url_text(text::trim(typed))->Ok_0);
    let slug = hedgedoc::note_slug(address, owner);
    let pairs = config::labelled(collections);
    config::lemma_first_with_slug(pairs, slug);
    assert forall|i: int| 0 <= i < collections.len() implies (#[trigger] collections[i]).slug@
        != slug by {
        assert(pairs[i].1 == collections[i].slug@);
    }
}

/// Whether the note of an owner is among the sources and was fetched.
pub fn fetched(sources: &Vec<HedgedocSource>, address: &str, owner: Option<&str>) -> (result: bool)
    ensures
        result == exists|i: int|
            0 <= i < sources@.len() && is_note_of(address@, text::opt_str(owner))(
                #[trigger] sources@[i],
            ) && sources@[i].note.last_error is None,
{
    let mut i: usize = 0;
    while i < sources.len()
        invariant
            i <= sources@.len(),
            forall|j: int|
                0 <= j < i ==> !(is_note_of(address@, text::opt_str(owner))(#[trigger] sources@[j])
                    && sources@[j].note.last_error is None),
        decreases sources@.len() - i,
    {
        if is_note(&sources[i], address, owner) && sources[i].note.last_error.is_none() {
            return true;
        }
        i += 1;
    }
    false
}

/// Whether a source belongs to an owner.
pub open spec fn owned_by(owner: Option<Seq<char>>) -> spec_fn(HedgedocSource) -> bool {
    |s: HedgedocSource| text::opt_text(s.collection.owner) == owner
}

/// The notes of one owner: those that a page shows and that a user may have
/// synchronised.
pub fn notes_of(sources: &Vec<HedgedocSource>, owner: Option<&str>) -> (result: Vec<
    HedgedocSource,
>)
    ensures
        result@ == list::keep(sources@, owned_by(text::opt_str(owner))),
{
    let mut result: Vec<HedgedocSource> = Vec::new();
    let mut i: usize = 0;
    let ghost p = owned_by(text::opt_str(owner));
    while i < sources.len()
        invariant
            i <= sources@.len(),
            p == owned_by(text::opt_str(owner)),
            result@ == list::keep(sources@.take(i as int), p),
        decreases sources@.len() - i,
    {
        if text::same_opt(&sources[i].collection.owner, owner) {
            result.push(sources[i].clone());
        }
        proof {
            list::lemma_keep_step(sources@, p, i as int);
        }
        i += 1;
    }
    proof {
        assert(sources@.take(i as int) == sources@);
    }
    result
}

/// A user never sees the note of another one.
pub proof fn law_notes_are_scoped_to_their_owner(
    sources: Seq<HedgedocSource>,
    owner: Option<Seq<char>>,
    s: HedgedocSource,
)
    ensures
        list::keep(sources, owned_by(owner)).contains(s) <==> sources.contains(s)
            && text::opt_text(s.collection.owner) == owner,
{
    list::lemma_keep(sources, owned_by(owner));
}

/// What a page says after the notes of a user were synchronised.
pub fn sync_flash(any_success: bool, any_notes: bool) -> (result: Flash)
    ensures
        if any_success || !any_notes {
            result.kind is Success && result.message@ == "HedgeDoc sync finished."@
        } else {
            result.kind is Error && result.message@
                == "HedgeDoc sync failed for all notes; see the statuses below."@
        },
{
    if any_success || !any_notes {
        Flash::success("HedgeDoc sync finished.")
    } else {
        Flash::error("HedgeDoc sync failed for all notes; see the statuses below.")
    }
}

/// An entry of the configuration as the keys and texts of a table. An owner
/// that is left out would make the configuration invalid, and give the note
/// another slug and an empty database.
pub open spec fn row(entry: HedgedocEntry) -> Seq<(Seq<char>, Seq<char>)> {
    match entry.owner {
        Some(owner) => seq![("url"@, entry.url@), ("owner"@, owner@)],
        None => seq![("url"@, entry.url@)],
    }
}

/// The tables that are written for the entries of a configuration.
pub fn entry_rows(entries: &Vec<HedgedocEntry>) -> (result: Vec<Vec<(String, String)>>)
    ensures
        toml_table::row_views(result@) == entries@.map_values(|e: HedgedocEntry| row(e)),
        result@.len() == entries@.len(),
{
    let mut result: Vec<Vec<(String, String)>> = Vec::new();
    let mut i: usize = 0;
    while i < entries.len()
        invariant
            i <= entries@.len(),
            result@.len() == i,
            toml_table::row_views(result@) == entries@.take(i as int).map_values(|e: HedgedocEntry| row(e)),
        decreases entries@.len() - i,
    {
        let mut one: Vec<(String, String)> = Vec::new();
        one.push(("url".to_owned(), entries[i].url.clone()));
        if let Some(owner) = &entries[i].owner {
            one.push(("owner".to_owned(), owner.clone()));
        }
        proof {
            assert(one@.map_values(|p: (String, String)| (p.0@, p.1@)) =~= row(entries@[i as int]));
        }
        let ghost before = result@;
        result.push(one);
        i += 1;
        proof {
            assert(entries@.take(i as int) == entries@.take(i - 1).push(entries@[i - 1]));
            assert(toml_table::row_views(result@) =~= toml_table::row_views(before).push(
                one@.map_values(|p: (String, String)| (p.0@, p.1@)),
            ));
            assert(toml_table::row_views(result@) =~= entries@.take(i as int).map_values(
                |e: HedgedocEntry| row(e),
            ));
        }
    }
    proof {
        assert(entries@.take(i as int) == entries@);
    }
    result
}

/// What is written for an entry tells its address and its owner.
pub proof fn law_rows_keep_owners(a: HedgedocEntry, b: HedgedocEntry)
    requires
        row(a) == row(b),
    ensures
        a.url@ == b.url@,
        text::opt_text(a.owner) == text::opt_text(b.owner),
{
    assert(row(a)[0].1 == a.url@);
    assert(row(b)[0].1 == b.url@);
    assert(a.owner is Some <==> row(a).len() == 2);
    assert(b.owner is Some <==> row(b).len() == 2);
    if a.owner is Some {
        assert(row(a)[1].1 == a.owner->Some_0@);
        assert(row(b)[1].1 == b.owner->Some_0@);
    }
}

/// The table of a configuration with these notes in place of its own.
pub open spec fn with_notes(
    table: Map<Seq<char>, Seq<char>>,
    entries: Seq<HedgedocEntry>,
) -> Map<Seq<char>, Seq<char>> {
    if entries.len() == 0 {
        table.remove("hedgedoc"@)
    } else {
        table.insert(
            "hedgedoc"@,
            toml_table::toml_rows(entries.map_values(|e: HedgedocEntry| row(e))),
        )
    }
}

/// Puts these notes into a configuration, in place of its own.
pub fn persisted_entries(content: &str, entries: &Vec<HedgedocEntry>) -> (result: Fallible<String>)
    ensures
        match toml_table::toml_read(content@) {
            Err(e) => result matches Err(r) && r@ == "TOML error: "@ + e,
            Ok(table) => match toml_table::toml_written(with_notes(table, entries@)) {
                Ok(t) => result matches Ok(r) && r@ == t,
                Err(e) => result matches Err(r) && r@ == "TOML serialization error: "@ + e,
            },
        },
{
    match toml_table::read_table(content) {
        Err(e) => {
            let message = text::cat2("TOML error: ", e.as_str());
            fail(message.as_str())
        },
        Ok(table) => {
            let mut table = table;
            if entries.len() == 0 {
                toml_table::take_out(&mut table, "hedgedoc");
            } else {
                let rows = entry_rows(entries);
                toml_table::put_rows(&mut table, "hedgedoc", &rows);
            }
            match toml_table::write_table(&table) {
                Ok(t) => Ok(t),
                Err(e) => {
                    let message = text::cat2("TOML serialization error: ", e.as_str());
                    fail(message.as_str())
                },
            }
        },
    }
}

/// Saving the notes keeps every other key of a configuration, with its value,
/// and adds none; the notes themselves are there if and only if there are any.
pub proof fn law_other_settings_are_kept(
    table: Map<Seq<char>, Seq<char>>,
    entries: Seq<HedgedocEntry>,
    key: Seq<char>,
)
    ensures
        key != "hedgedoc"@ ==> (with_notes(table, entries).contains_key(key)
            <==> table.contains_key(key)),
        key != "hedgedoc"@ && table.contains_key(key) ==> with_notes(table, entries)[key]
            == table[key],
        with_notes(table, entries).contains_key("hedgedoc"@) <==> entries.len() > 0,
{
}

/// A note that was fetched goes by its new name and file and has no error; one
/// that was not keeps everything and has one. Neither changes where it comes from
/// or where it is kept.
pub proof fn law_fetching_changes_the_note_only(
    source: HedgedocSource,
    deck: String,
    file: String,
    message: String,
)
    ensures
        ({
            let a = recorded(source, Ok((deck, file)));
            let b = recorded(source, Err(message));
            &&& a.collection.name == deck && a.note.deck_name == deck
            &&& a.note.file_name == file
            &&& a.note.last_error is None
            &&& b.note.last_error == Some(message)
            &&& b.collection == source.collection
            &&& b.note.deck_name == source.note.deck_name
            &&& b.note.file_name == source.note.file_name
            &&& a.note.url == source.note.url && b.note.url == source.note.url
            &&& a.collection.slug == source.collection.slug
            &&& a.collection.coll_dir == source.collection.coll_dir
            &&& a.collection.db_path == source.collection.db_path
            &&& a.collection.owner == source.collection.owner
        }),
{
}

/// A collection is shown with its own numbers, or with none where they are not
/// known.
pub proof fn law_collections_are_shown_with_their_numbers(
    c: ResolvedCollection,
    total: usize,
    due: usize,
)
    ensures
        info_of(c, Some((total, due))).total_cards == total,
        info_of(c, Some((total, due))).due_today == due,
        info_of(c, None).total_cards == 0 && info_of(c, None).due_today == 0,
        info_of(c, Some((total, due))).name == c.name,
        info_of(c, Some((total, due))).slug == c.slug,
        info_of(c, Some((total, due))).owner == c.owner,
        info_of(c, None).name == c.name && info_of(c, None).slug == c.slug && info_of(
            c,
            None,
        ).owner == c.owner,
{
}

/// A note is kept in a card file whose name begins with its identifier.
pub proof fn law_notes_are_card_files(address: Seq<char>)
    ensures
        text::ends_with(file_name(address), ".md"@),
        text::starts_with(
            file_name(address),
            hedgedoc::stem(hedgedoc::id_or_address(address)) + "-"@,
        ),
{
    let id = hedgedoc::id_or_address(address);
    let head = hedgedoc::stem(id) + "-"@;
    let middle = card_hash::short_digest(id);
    assert(file_name(address) =~= head + (middle + ".md"@));
    text::law_beginnings_and_ends_are_found(head, middle + ".md"@, head);
    text::law_beginnings_and_ends_are_found(head + middle, ".md"@, ".md"@);
}

/// A note has a folder and a database of its own, both called by its slug.
pub proof fn law_notes_are_kept_apart(
    address: Seq<char>,
    data_dir: Seq<char>,
    owner: Option<Seq<char>>,
    c: ResolvedCollection,
)
    requires
        note_collection(address, data_dir, owner, c),
        path::is_name(c.slug@),
        path::is_name(c.slug@ + ".db"@),
    ensures
        path::file_name(c.coll_dir@) == Some(c.slug@),
        path::file_name(c.db_path@) == Some(c.slug@ + ".db"@),
        path::inside(c.coll_dir@, path::join_path(data_dir, "hedgedoc"@)) == Some(c.slug@),
        path::inside(c.db_path@, path::join_path(data_dir, "db"@)) == Some(c.slug@ + ".db"@),
        text::opt_text(c.owner) == owner,
        c.slug@ == hedgedoc::note_slug(address, owner),
{
    path::law_files_keep_their_name_in_a_folder(
        path::join_path(data_dir, "hedgedoc"@),
        c.slug@,
    );
    path::law_files_keep_their_name_in_a_folder(
        path::join_path(data_dir, "db"@),
        c.slug@ + ".db"@,
    );
}

/// A note is called by its title, and by its identifier where it has none.
pub proof fn law_notes_are_called_by_their_title(
    address: Seq<char>,
    markdown: Seq<char>,
    t: Seq<char>,
)
    requires
        text::trim(t).len() > 0,
        !text::trim(t).contains('/'),
    ensures
        frontmatter::title(markdown) == Some(t) ==> note_deck(address, markdown) == text::trim(t),
        frontmatter::title(markdown) is None && hedgedoc::note_id(address) == Some(t) ==> note_deck(
            address,
            markdown,
        ) == text::trim(t),
{
    reveal_strlit("a");
    assert("a"@.len() == 1 && "a"@[0] == 'a');
    let blank = Seq::<char>::empty();
    assert(text::trim(blank).len() == 0);
    frontmatter::law_decks_keep_their_name(t, id_or(address, ""@), blank, "a"@, "a"@);
}

/// A note is added exactly if its address is one that can be fetched, there is a
/// place to keep it, the owner does not have it already, and no collection has
/// its slug.
pub proof fn law_notes_are_refused_for_a_reason(
    typed: Seq<char>,
    has_data_dir: bool,
    sources: Seq<HedgedocSource>,
    owner: Option<Seq<char>>,
    collections: Seq<ResolvedCollection>,
)
    ensures
        add_error(typed, has_data_dir, sources, owner, collections) is None <==> {
            let t = text::trim(typed);
            let address = hedgedoc::kept_form(url::url_text(t)->Ok_0);
            &&& t.len() > 0
            &&& url::url_text(t) is Ok
            &&& url::url_scheme(url::url_text(t)->Ok_0) == Some("https"@)
            &&& has_data_dir
            &&& forall|i: int|
                0 <= i < sources.len() ==> (#[trigger] sources[i]).note.url@ != address
                    || text::opt_text(sources[i].collection.owner) != owner
            &&& hedgedoc::source_uri(address) is Some
            &&& forall|i: int|
                0 <= i < collections.len() ==> (#[trigger] collections[i]).slug@
                    != hedgedoc::note_slug(address, owner)
        },
{
    let t = text::trim(typed);
    let address = hedgedoc::kept_form(url::url_text(t)->Ok_0);
    let slug = hedgedoc::note_slug(address, owner);
    let pairs = config::labelled(collections);
    config::lemma_first_with_slug(pairs, slug);
    let k = config::first_with_slug(pairs, slug);
    assert forall|i: int| 0 <= i < collections.len() implies (#[trigger] pairs[i]).1
        == collections[i].slug@ by {}
    if k < collections.len() {
        assert(pairs[k].1 == slug);
        assert(collections[k].slug@ == slug);
    } else {
        assert forall|i: int| 0 <= i < collections.len() implies (#[trigger] collections[i]).slug@
            != slug by {
            assert(pairs[i].1 != slug);
        }
    }
    if has_note(sources, address, owner) {
        let i = choose|i: int|
            0 <= i < sources.len() && is_note_of(address, owner)(#[trigger] sources[i]);
        assert(sources[i].note.url@ == address);
    } else {
        assert forall|i: int| 0 <= i < sources.len() implies (#[trigger] sources[i]).note.url@
            != address || text::opt_text(sources[i].collection.owner) != owner by {
            assert(!is_note_of(address, owner)(sources[i]));
        }
    }
}

/// A note is found by its slug, the first one that has it.
pub proof fn law_the_first_note_with_a_slug_is_found(
    sources: Seq<HedgedocSource>,
    slug: Seq<char>,
)
    ensures
        0 <= source_with_slug(sources, slug) <= sources.len(),
        source_with_slug(sources, slug) < sources.len() ==> sources[source_with_slug(
            sources,
            slug,
        )].collection.slug@ == slug,
        forall|j: int|
            0 <= j < source_with_slug(sources, slug) ==> (
            #[trigger] sources[j]).collection.slug@ != slug,
    decreases sources.len(),
{
    if sources.len() > 0 && sources[0].collection.slug@ != slug {
        let rest = sources.skip(1);
        law_the_first_note_with_a_slug_is_found(rest, slug);
        assert forall|j: int| 0 <= j < source_with_slug(sources, slug) implies (
        #[trigger] sources[j]).collection.slug@ != slug by {
            if j > 0 {
                assert(rest[j - 1] == sources[j]);
            }
        }
    }
}

/// A note is written down with its address and its owner.
pub proof fn law_notes_are_written_with_address_and_owner(source: HedgedocSource)
    ensures
        entry_of(source).url == source.note.url,
        entry_of(source).owner == source.collection.owner,
        row(entry_of(source)).len() == if source.collection.owner is Some {
            2nat
        } else {
            1nat
        },
        row(entry_of(source))[0] == ("url"@, source.note.url@),
        source.collection.owner matches Some(o) ==> row(entry_of(source))[1] == ("owner"@, o@),
{
}

/// A collection has the numbers that were counted for it, where any were.
pub proof fn law_numbers_stay_with_their_collection(
    counts: Seq<Option<(usize, usize)>>,
    i: int,
)
    ensures
        0 <= i < counts.len() ==> counts_at(counts, i) == counts[i],
        i >= counts.len() ==> counts_at(counts, i) is None,
{
}

/// A note that was not fetched yet is called by where it is and its identifier.
pub proof fn law_new_notes_are_called_by_their_identifier(address: Seq<char>)
    ensures
        text::ends_with(placeholder_name(address), hedgedoc::id_or_address(address)),
        hedgedoc::source_uri(address) is None ==> placeholder_name(address)
            == hedgedoc::id_or_address(address),
        hedgedoc::source_uri(address) matches Some(uri) ==> text::starts_with(
            placeholder_name(address),
            hedgedoc::display_name(uri),
        ),
{
    let id = hedgedoc::id_or_address(address);
    let none = Seq::<char>::empty();
    text::law_beginnings_and_ends_are_found(none, id, id);
    assert(none + id =~= id);
    if let Some(uri) = hedgedoc::source_uri(address) {
        let name = hedgedoc::display_name(uri);
        text::law_beginnings_and_ends_are_found(name + " / "@, id, id);
        assert(placeholder_name(address) =~= name + (" / "@ + id));
        text::law_beginnings_and_ends_are_found(name, " / "@ + id, id);
    }
}

} // verus!
