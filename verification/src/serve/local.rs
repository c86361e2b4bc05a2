//! The card folder of a user.

use vstd::prelude::*;
use crate::error::{fail, Fallible};
use crate::list;
use crate::order;
use crate::path;
use crate::serve::config;
use crate::serve::config::{slugify, ResolvedCollection};
use crate::text;
use crate::types::card_hash;

verus! {

/// The folder in which one user writes cards. It lies outside the directory
/// that synchronisation overwrites, so that no pull can touch it.
pub struct LocalRoot {
    pub root: String,
}

/// The name of the folder of a user; that of nobody in particular where there
/// are no logins.
pub open spec fn folder_of(owner: Option<Seq<char>>) -> Seq<char> {
    match owner {
        Some(email) => config::slug(text::lowercase(email)),
        None => "default"@,
    }
}

/// Where the folder of a user lies.
pub open spec fn root_of(data_dir: Seq<char>, owner: Option<Seq<char>>) -> Seq<char> {
    path::join_path(path::join_path(data_dir, "local"@), folder_of(owner))
}

/// Where the folder of a user lies, whether or not it is there yet.
pub fn root_path(data_dir: &str, owner: Option<&str>) -> (result: Fallible<String>)
    ensures
        match result {
            Ok(p) => folder_of(text::opt_str(owner)).len() > 0 && p@ == root_of(
                data_dir@,
                text::opt_str(owner),
            ),
            Err(e) => folder_of(text::opt_str(owner)).len() == 0 && e@
                == "Cannot open a local card folder: the owner name is empty."@,
        },
{
    let who = match owner {
        Some(email) => {
            let lower = email.to_lowercase();
            slugify(lower.as_str())
        },
        None => "default".to_owned(),
    };
    if who.as_str().is_empty() {
        return fail("Cannot open a local card folder: the owner name is empty.");
    }
    let local = path::join(data_dir, "local");
    Ok(path::join(local.as_str(), who.as_str()))
}

/// The folder of a user does not lie in the repository, which synchronisation
/// owns: no pull can touch what a user wrote.
pub proof fn law_card_folders_lie_apart(data_dir: Seq<char>, owner: Option<Seq<char>>)
    requires
        folder_of(owner).len() > 0,
    ensures
        path::inside(root_of(data_dir, owner), config::repo_dir(data_dir)) is None,
{
    let folder = folder_of(owner);
    match owner {
        Some(email) => {
            config::law_slug_is_one_component(text::lowercase(email));
        },
        None => {
            reveal_strlit("default");
        },
    }
    reveal_strlit("local");
    reveal_strlit("repo");
    reveal_strlit(".");
    let local = path::join_path(data_dir, "local"@);
    path::lemma_one_component("local"@);
    path::lemma_one_component("repo"@);
    path::lemma_joined_components(data_dir, "local"@);
    path::lemma_joined_components(data_dir, "repo"@);
    if path::is_absolute(folder) {
        assert(folder.contains(folder[0]));
    }
    path::lemma_joined_components(local, folder);
    let parts = path::components(root_of(data_dir, owner));
    let prefix = path::components(config::repo_dir(data_dir));
    let n = path::components(data_dir).len() as int;
    assert(parts[n] == "local"@);
    assert(prefix[n] == "repo"@);
    assert("local"@[0] != "repo"@[0]);
    if prefix.len() <= parts.len() {
        assert(parts.take(prefix.len() as int)[n] == parts[n]);
    }
}

/// A path that a client sent, once it has been brought into its plain form.
pub struct ResolvedEntry {
    /// The components of the path, with a slash between each two.
    pub rel: String,
    /// Where that is.
    pub path: String,
}

/// What was found on disk for a path.
pub struct Ground {
    /// The deepest part of the path that exists, if any does.
    pub existing: Option<Existing>,
    /// The card folder, with all links followed.
    pub root: String,
}

/// A part of a path that exists.
pub struct Existing {
    pub is_symlink: bool,
    /// Where it leads, with all links followed.
    pub canonical: String,
}

/// What is wrong with a path that a client sent, before anything is looked up.
pub open spec fn name_error(rel: Seq<char>) -> Option<Seq<char>> {
    let t = text::trim(rel);
    if t.len() == 0 {
        Some("No file path was given."@)
    } else if path::is_absolute(t) {
        Some("Path must be relative to your card folder: `"@ + t + "`"@)
    } else if path::has_parent(t) {
        Some("Path must not contain `..` components: `"@ + t + "`"@)
    } else if path::components(t).len() == 0 {
        Some("Path must name something inside your card folder: `"@ + t + "`"@)
    } else {
        None
    }
}

/// The plain form of a path.
pub open spec fn plain(rel: Seq<char>) -> Seq<char> {
    text::join(path::components(text::trim(rel)), "/"@)
}

/// What is wrong with a path, once it has been looked up.
pub open spec fn ground_error(rel: Seq<char>, ground: Ground) -> Option<Seq<char>> {
    let t = text::trim(rel);
    match ground.existing {
        None => Some("Path is outside your card folder: `"@ + t + "`"@),
        Some(e) => if e.is_symlink {
            Some("Path goes through a symbolic link: `"@ + t + "`"@)
        } else if path::inside(e.canonical@, ground.root@) is None {
            Some("Path is outside your card folder: `"@ + t + "`"@)
        } else {
            None
        },
    }
}

impl LocalRoot {
    /// The folder of a user. Nothing is created.
    pub fn open(data_dir: &str, owner: Option<&str>) -> (result: Fallible<LocalRoot>)
        ensures
            match result {
                Ok(r) => folder_of(text::opt_str(owner)).len() > 0 && r.root@ == root_of(
                    data_dir@,
                    text::opt_str(owner),
                ),
                Err(e) => folder_of(text::opt_str(owner)).len() == 0 && e@
                    == "Cannot open a local card folder: the owner name is empty."@,
            },
    {
        match root_path(data_dir, owner) {
            Ok(root) => Ok(LocalRoot { root }),
            Err(e) => Err(e),
        }
    }

    /// Where the folder lies.
    pub fn path(&self) -> (result: &str)
        ensures
            result@ == self.root@,
    {
        self.root.as_str()
    }

    /// Brings a path that a client sent into its plain form. The dots that name
    /// the place they stand in are dropped, so that every later question about
    /// the path has one answer.
    pub fn name_entry(&self, rel: &str) -> (result: Fallible<ResolvedEntry>)
        ensures
            match result {
                Ok(entry) => {
                    &&& name_error(rel@) is None
                    &&& entry.rel@ == plain(rel@)
                    &&& entry.path@ == path::join_path(self.root@, plain(rel@))
                },
                Err(e) => name_error(rel@) == Some(e@),
            },
    {
        let trimmed = text::trim_of(rel);
        if trimmed.is_empty() {
            return fail("No file path was given.");
        }
        if path::absolute(trimmed) {
            let message = text::cat3(
                "Path must be relative to your card folder: `",
                trimmed,
                "`",
            );
            return fail(message.as_str());
        }
        if path::climbs(trimmed) {
            let message = text::cat3("Path must not contain `..` components: `", trimmed, "`");
            return fail(message.as_str());
        }
        let parts = path::components_of(trimmed);
        proof {
            assert(parts@.len() == text::views(parts@).len());
        }
        if parts.len() == 0 {
            let message = text::cat3(
                "Path must name something inside your card folder: `",
                trimmed,
                "`",
            );
            return fail(message.as_str());
        }
        let normalized = text::joined(&parts, "/");
        let joined = path::join(self.root.as_str(), normalized.as_str());
        Ok(ResolvedEntry { rel: normalized, path: joined })
    }

    /// Checks a path that a client sent against what was found on disk: it must
    /// lead through no link and stay inside the folder. Its last part need not
    /// be there yet.
    pub fn resolve_entry(&self, rel: &str, ground: &Ground) -> (result: Fallible<ResolvedEntry>)
        ensures
            match result {
                Ok(entry) => {
                    &&& name_error(rel@) is None
                    &&& ground_error(rel@, *ground) is None
                    &&& entry.rel@ == plain(rel@)
                    &&& entry.path@ == path::join_path(self.root@, plain(rel@))
                },
                Err(e) => Some(e@) == text::first_of(
                    name_error(rel@),
                    ground_error(rel@, *ground),
                ),
            },
    {
        let entry = match self.name_entry(rel) {
            Ok(entry) => entry,
            Err(e) => return Err(e),
        };
        let trimmed = text::trim_of(rel);
        match &ground.existing {
            None => {
                let message = text::cat3("Path is outside your card folder: `", trimmed, "`");
                fail(message.as_str())
            },
            Some(existing) => {
                if existing.is_symlink {
                    let message = text::cat3("Path goes through a symbolic link: `", trimmed, "`");
                    return fail(message.as_str());
                }
                if path::strip_prefix(
                    existing.canonical.as_str(),
                    ground.root.as_str(),
                ).is_none() {
                    let message = text::cat3("Path is outside your card folder: `", trimmed, "`");
                    return fail(message.as_str());
                }
                Ok(entry)
            },
        }
    }

    /// Where a path that a client sent lies, checked as above.
    pub fn resolve(&self, rel: &str, ground: &Ground) -> (result: Fallible<String>)
        ensures
            match result {
                Ok(p) => {
                    &&& name_error(rel@) is None
                    &&& ground_error(rel@, *ground) is None
                    &&& p@ == path::join_path(self.root@, plain(rel@))
                },
                Err(e) => Some(e@) == text::first_of(
                    name_error(rel@),
                    ground_error(rel@, *ground),
                ),
            },
    {
        match self.resolve_entry(rel, ground) {
            Ok(entry) => Ok(entry.path),
            Err(e) => Err(e),
        }
    }
}

/// A path in plain form names the same place as the path it was made of, is
/// not empty, begins and ends with no slash, and leads nowhere up. Making it
/// plain again changes nothing.
pub proof fn law_plain_paths_stay_below_the_folder(rel: Seq<char>)
    requires
        name_error(rel) is None,
    ensures
        path::components(plain(rel)) == path::components(text::trim(rel)),
        plain(rel).len() > 0,
        plain(rel)[0] != '/',
        plain(rel).last() != '/',
        !path::has_parent(plain(rel)),
        text::join(path::components(plain(rel)), "/"@) == plain(rel),
{
    let t = text::trim(rel);
    let pieces = text::split(t, '/');
    let p = path::naming();
    let parts = path::components(t);
    list::lemma_keep(pieces, p);
    text::lemma_split_pieces(t, '/');
    reveal_strlit("/");
    assert(seq!['/'] =~= "/"@);
    assert forall|i: int| 0 <= i < parts.len() implies !(#[trigger] parts[i]).contains('/')
        && p(parts[i]) && parts[i] != ".."@ by {
        assert(parts.contains(parts[i]));
        assert(pieces.contains(parts[i]));
        let j = choose|j: int| 0 <= j < pieces.len() && pieces[j] == parts[i];
        assert(!pieces[j].contains('/'));
    }
    text::lemma_split_of_joined(parts, '/');
    list::lemma_keep_everything(parts, p);
    let joined = plain(rel);
    assert(text::split(joined, '/') == parts);
    if path::has_parent(joined) {
        let i = choose|i: int| 0 <= i < parts.len() && parts[i] == ".."@;
    }
    text::lemma_joined_ends(parts, '/');
    assert(parts[0].contains(parts[0][0]));
    assert(parts.last().contains(parts.last().last()));
}

/// The file in a collection folder that holds its id.
pub const LOCAL_META_FILE: &'static str = ".hashcards.toml";

/// Whether looking at the folders may give one that has no id a new one.
#[derive(Clone, Copy, Debug, PartialEq, Eq)]
pub enum IdPolicy {
    CreateMissing,
    ExistingOnly,
}

/// The id that a folder has on record: an empty one is none.
pub fn recorded_id(id: String) -> (result: Option<String>)
    ensures
        result == if id@.len() == 0 {
            None
        } else {
            Some(id)
        },
{
    if id.as_str().is_empty() {
        None
    } else {
        Some(id)
    }
}

/// What a new id is made of.
pub open spec fn seed(nanos: u128, process: u32, folder: Seq<char>) -> Seq<char> {
    text::decimal(nanos as nat) + ":"@ + text::decimal(process as nat) + ":"@ + folder
}

/// A new id for a folder, made from the clock and the process, so that a folder
/// that is renamed keeps the one it has.
pub fn fresh_id(nanos: u128, process: u32, folder: &str) -> (result: String)
    ensures
        result@ == card_hash::short_digest(seed(nanos, process, folder@)),
{
    let mut text_of = String::new();
    text::push_decimal(&mut text_of, nanos);
    proof {
        assert(text_of@ =~= text::decimal(nanos as nat));
    }
    text_of.append(":");
    text::push_decimal(&mut text_of, process as u128);
    text_of.append(":");
    text_of.append(folder);
    card_hash::short_digest_of(text_of.as_str())
}

/// What is to be done about the id of a folder.
pub enum FolderId {
    /// The folder has this id.
    Known(String),
    /// The folder has none, and gets a new one, which has to be written down.
    Create,
    /// The folder has none, and must not get one now.
    Skip,
}

/// Decides about the id of a folder.
pub fn folder_id(recorded: Option<String>, policy: IdPolicy) -> (result: FolderId)
    ensures
        match recorded {
            Some(id) => result == FolderId::Known(id),
            None => match policy {
                IdPolicy::CreateMissing => result is Create,
                IdPolicy::ExistingOnly => result is Skip,
            },
        },
{
    match recorded {
        Some(id) => FolderId::Known(id),
        None => match policy {
            IdPolicy::CreateMissing => FolderId::Create,
            IdPolicy::ExistingOnly => FolderId::Skip,
        },
    }
}

/// Something that lies in a folder.
pub struct FoundEntry {
    pub name: String,
    pub is_dir: bool,
    pub is_symlink: bool,
}

/// Whether an entry of the card folder is a collection: a folder that is no
/// link and not hidden.
pub open spec fn is_collection() -> spec_fn(FoundEntry) -> bool {
    |e: FoundEntry| e.is_dir && !e.is_symlink && !text::starts_with(e.name@, "."@)
}

/// The names of some entries.
pub open spec fn entry_names(entries: Seq<FoundEntry>) -> Seq<Seq<char>> {
    entries.map_values(|e: FoundEntry| e.name@)
}

/// The names of the collections in a card folder, sorted, so that it does not
/// depend on the file system which of two similar ones comes first.
pub fn collection_names(entries: &Vec<FoundEntry>) -> (result: Vec<String>)
    ensures
        ({
            let names = entry_names(list::keep(entries@, is_collection()));
            text::views(result@) == order::arranged(names, names)
        }),
{
    let mut names: Vec<String> = Vec::new();
    let ghost p = is_collection();
    let mut i: usize = 0;
    proof {
        assert(text::views(names@) =~= entry_names(list::keep(entries@.take(0), p)));
    }
    while i < entries.len()
        invariant
            i <= entries@.len(),
            p == is_collection(),
            text::views(names@) == entry_names(list::keep(entries@.take(i as int), p)),
        decreases entries@.len() - i,
    {
        let e = &entries[i];
        let ghost kept = list::keep(entries@.take(i as int), p);
        proof {
            list::lemma_keep_step(entries@, p, i as int);
        }
        if e.is_dir && !e.is_symlink && !text::has_prefix(e.name.as_str(), ".") {
            let name = e.name.clone();
            proof {
                text::lemma_views_push(names@, name);
                assert(entry_names(kept.push(*e)) =~= entry_names(kept).push(name@));
            }
            names.push(name);
        }
        i += 1;
    }
    proof {
        assert(entries@.take(i as int) == entries@);
    }
    order::sorted(&names)
}

/// The folders that become collections: each that has an id, unless its slug
/// is that of one in front of it.
pub open spec fn served(found: Seq<(Seq<char>, Option<Seq<char>>)>) -> Seq<(Seq<char>, Seq<char>)>
    decreases found.len(),
{
    if found.len() == 0 {
        seq![]
    } else {
        let before = served(found.drop_last());
        let (name, id) = found.last();
        match id {
            Some(id) => if slugs(before).contains(config::slug(name)) {
                before
            } else {
                before.push((name, id))
            },
            None => before,
        }
    }
}

/// The slugs of some folders.
pub open spec fn slugs(folders: Seq<(Seq<char>, Seq<char>)>) -> Seq<Seq<char>> {
    folders.map_values(|f: (Seq<char>, Seq<char>)| config::slug(f.0))
}

/// Names with ids.
pub open spec fn found_views(found: Seq<(String, Option<String>)>) -> Seq<
    (Seq<char>, Option<Seq<char>>),
> {
    found.map_values(|f: (String, Option<String>)| (f.0@, text::opt_text(f.1)))
}

/// Whether `c` is the collection of a folder with an id.
pub open spec fn is_folder_collection(
    c: ResolvedCollection,
    folder: (Seq<char>, Seq<char>),
    root: Seq<char>,
    db_dir: Seq<char>,
    owner: Option<Seq<char>>,
) -> bool {
    &&& c.name@ == folder.0
    &&& c.slug@ == config::slug(folder.0)
    &&& c.coll_dir@ == path::join_path(root, folder.0)
    &&& c.db_path@ == path::join_path(db_dir, folder.1 + ".db"@)
    &&& text::opt_text(c.owner) == text::opt_lowercase(owner)
}

/// The collections of a card folder. The database of one is named by its id,
/// not by its slug, so that it survives a change of the name.
pub fn discover_local_collections(
    root: &LocalRoot,
    db_dir: &str,
    owner: Option<&str>,
    found: &Vec<(String, Option<String>)>,
) -> (result: Vec<ResolvedCollection>)
    ensures
        ({
            let folders = served(found_views(found@));
            &&& result@.len() == folders.len()
            &&& forall|i: int|
                0 <= i < folders.len() ==> is_folder_collection(
                    #[trigger] result@[i],
                    folders[i],
                    root.root@,
                    db_dir@,
                    text::opt_str(owner),
                )
        }),
{
    let ghost all = found_views(found@);
    let mut collections: Vec<ResolvedCollection> = Vec::new();
    let lower: Option<String> = match owner {
        Some(o) => Some(o.to_lowercase()),
        None => None,
    };
    let mut i: usize = 0;
    while i < found.len()
        invariant
            i <= found@.len(),
            all == found_views(found@),
            text::opt_text(lower) == text::opt_lowercase(text::opt_str(owner)),
            collections@.len() == served(all.take(i as int)).len(),
            forall|j: int|
                0 <= j < collections@.len() ==> is_folder_collection(
                    #[trigger] collections@[j],
                    served(all.take(i as int))[j],
                    root.root@,
                    db_dir@,
                    text::opt_str(owner),
                ),
        decreases found@.len() - i,
    {
        let ghost before = served(all.take(i as int));
        proof {
            assert(all.take(i + 1).drop_last() == all.take(i as int));
            assert(all.take(i + 1).last() == (found@[i as int].0@, text::opt_text(
                found@[i as int].1,
            )));
        }
        if let Some(id) = &found[i].1 {
            let name = found[i].0.clone();
            let slug = slugify(name.as_str());
            let mut taken = false;
            let mut k: usize = 0;
            while k < collections.len()
                invariant
                    k <= collections@.len(),
                    collections@.len() == before.len(),
                    forall|j: int|
                        0 <= j < collections@.len() ==> is_folder_collection(
                            #[trigger] collections@[j],
                            before[j],
                            root.root@,
                            db_dir@,
                            text::opt_str(owner),
                        ),
                    taken ==> slugs(before).contains(slug@),
                    !taken ==> forall|j: int| 0 <= j < k ==> #[trigger] slugs(before)[j] != slug@,
                decreases collections@.len() - k,
            {
                if text::same(collections[k].slug.as_str(), slug.as_str()) {
                    proof {
                        assert(is_folder_collection(
                            collections@[k as int],
                            before[k as int],
                            root.root@,
                            db_dir@,
                            text::opt_str(owner),
                        ));
                        assert(slugs(before)[k as int] == slug@);
                    }
                    taken = true;
                }
                k += 1;
            }
            if !taken {
                let file = text::cat2(id.as_str(), ".db");
                let coll_dir = path::join(root.root.as_str(), name.as_str());
                let db_path = path::join(db_dir, file.as_str());
                let owner = lower.clone();
                collections.push(ResolvedCollection { name, slug, coll_dir, db_path, owner });
            }
        }
        i += 1;
    }
    proof {
        assert(all.take(i as int) == all);
    }
    collections
}

/// No two collections of a card folder have the same slug.
pub proof fn law_local_slugs_are_distinct(found: Seq<(Seq<char>, Option<Seq<char>>)>)
    ensures
        slugs(served(found)).no_duplicates(),
    decreases found.len(),
{
    if found.len() > 0 {
        law_local_slugs_are_distinct(found.drop_last());
        let before = served(found.drop_last());
        let (name, id) = found.last();
        if id is Some && !slugs(before).contains(config::slug(name)) {
            let after = before.push((name, id->Some_0));
            assert(slugs(after) =~= slugs(before).push(config::slug(name)));
            assert forall|i: int, j: int|
                0 <= i < slugs(after).len() && 0 <= j < slugs(after).len() && i
                    != j implies slugs(after)[i] != slugs(after)[j] by {
                if i < before.len() && j < before.len() {
                    assert(slugs(before)[i] != slugs(before)[j]);
                } else if i < before.len() {
                    assert(slugs(before).contains(slugs(before)[i]));
                } else {
                    assert(slugs(before).contains(slugs(before)[j]));
                }
            }
        }
    }
}

/// Each owner has one folder below the data, however their address is written;
/// without owners it is called `default`.
pub proof fn law_each_owner_has_one_folder(data_dir: Seq<char>, a: Seq<char>, b: Seq<char>)
    requires
        text::lowercase(a) == text::lowercase(b),
    ensures
        folder_of(Some(a)) == folder_of(Some(b)),
        root_of(data_dir, Some(a)) == root_of(data_dir, Some(b)),
        folder_of(None) == "default"@,
        folder_of(Some(a)).len() == text::lowercase(a).len(),
        path::is_name(folder_of(Some(a))) ==> path::inside(root_of(data_dir, Some(a)), data_dir)
            == Some("local/"@ + folder_of(Some(a))),
{
    let f = folder_of(Some(a));
    config::law_slug_is_one_component(text::lowercase(a));
    if path::is_name(f) {
        reveal_strlit("local");
        reveal_strlit("local/");
        reveal_strlit("/");
        reveal_strlit(".");
        assert("local"@.len() == 5);
        assert("local"@[0] == 'l' && "local"@[1] == 'o' && "local"@[2] == 'c' && "local"@[3] == 'a'
            && "local"@[4] == 'l');
        assert(!"local"@.contains('/'));
        path::lemma_one_component("local"@);
        path::lemma_one_component(f);
        path::lemma_joined_components(data_dir, "local"@);
        path::lemma_joined_components(path::join_path(data_dir, "local"@), f);
        path::law_joined_paths_are_absolute_with_their_base(data_dir, "local"@);
        path::law_joined_paths_are_absolute_with_their_base(
            path::join_path(data_dir, "local"@),
            f,
        );
        let dir = path::components(data_dir);
        let all = path::components(root_of(data_dir, Some(a)));
        assert(all =~= dir + seq!["local"@, f]);
        assert(all.take(dir.len() as int) =~= dir);
        let parts = seq!["local"@, f];
        assert(all.skip(dir.len() as int) =~= parts);
        assert(parts.drop_last() =~= seq!["local"@]);
        assert(text::join(seq!["local"@], "/"@) == "local"@);
        assert(text::join(parts, "/"@) == "local"@ + "/"@ + f);
        assert(text::join(parts, "/"@) =~= "local/"@ + f);
    }
}

/// A path is accepted exactly if it is relative, names something, and does not
/// lead upwards; where it leads must lie in the folder without a link between.
pub proof fn law_paths_are_refused_for_a_reason(rel: Seq<char>, ground: Ground)
    ensures
        name_error(rel) is None <==> {
            let t = text::trim(rel);
            &&& t.len() > 0 && t[0] != '/'
            &&& !text::split(t, '/').contains(".."@)
            &&& path::components(t).len() > 0
        },
        ground_error(rel, ground) is None <==> ground.existing is Some
            && !(ground.existing->0).is_symlink && path::inside(
            (ground.existing->0).canonical@,
            ground.root@,
        ) is Some,
{
}

/// A folder is a collection exactly if it is one itself, no link to one, and not
/// hidden.
pub proof fn law_visible_folders_are_collections(e: FoundEntry)
    ensures
        is_collection()(e) <==> e.is_dir && !e.is_symlink && (e.name@.len() == 0 || e.name@[0]
            != '.'),
{
    reveal_strlit(".");
    if e.name@.len() > 0 {
        assert(e.name@.subrange(0, 1)[0] == e.name@[0]);
        if e.name@[0] == '.' {
            assert(e.name@.subrange(0, 1) =~= "."@);
        }
    }
}

/// Of the folders with one slug the first that has an identifier is served, with
/// that identifier, and nothing else is.
pub proof fn law_the_first_folder_with_a_slug_is_served(
    found: Seq<(Seq<char>, Option<Seq<char>>)>,
    k: int,
)
    requires
        0 <= k < found.len(),
        found[k].1 is Some,
    ensures
        (forall|j: int|
            0 <= j < k && (#[trigger] found[j]).1 is Some ==> config::slug(found[j].0)
                != config::slug(found[k].0)) ==> served(found).contains(
            (found[k].0, found[k].1->0),
        ),
        slugs(served(found)).contains(config::slug(found[k].0)),
        forall|i: int|
            0 <= i < served(found).len() ==> found.contains(
                ((#[trigger] served(found)[i]).0, Some(served(found)[i].1)),
            ),
    decreases found.len(),
{
    let rest = found.drop_last();
    let before = served(rest);
    let all = served(found);
    let last = found[found.len() - 1];
    lemma_served_were_found(found);
    if k < rest.len() {
        assert(rest[k] == found[k]);
        law_the_first_folder_with_a_slug_is_served(rest, k);
        let i = choose|i: int|
            0 <= i < slugs(before).len() && slugs(before)[i] == config::slug(found[k].0);
        assert(slugs(all)[i] == config::slug(found[k].0));
        if forall|j: int|
            0 <= j < k && (#[trigger] found[j]).1 is Some ==> config::slug(found[j].0)
                != config::slug(found[k].0) {
            assert forall|j: int| 0 <= j < k && (#[trigger] rest[j]).1 is Some implies config::slug(
                rest[j].0,
            ) != config::slug(rest[k].0) by {
                assert(rest[j] == found[j]);
            }
            let m = choose|m: int|
                0 <= m < before.len() && before[m] == (found[k].0, found[k].1->0);
            assert(all[m] == before[m]);
        }
    } else if slugs(before).contains(config::slug(last.0)) {
        let i = choose|i: int|
            0 <= i < slugs(before).len() && slugs(before)[i] == config::slug(last.0);
        lemma_served_were_found(rest);
        let pair = (before[i].0, Some(before[i].1));
        assert(rest.contains(pair));
        let j = choose|j: int| 0 <= j < rest.len() && rest[j] == pair;
        assert(found[j] == pair);
    } else {
        assert(all[before.len() as int] == (last.0, last.1->0));
        assert(slugs(all)[before.len() as int] == config::slug(last.0));
    }
}

proof fn lemma_served_were_found(found: Seq<(Seq<char>, Option<Seq<char>>)>)
    ensures
        forall|i: int|
            0 <= i < served(found).len() ==> found.contains(
                ((#[trigger] served(found)[i]).0, Some(served(found)[i].1)),
            ),
    decreases found.len(),
{
    if found.len() > 0 {
        let rest = found.drop_last();
        let before = served(rest);
        let all = served(found);
        lemma_served_were_found(rest);
        assert forall|i: int| 0 <= i < all.len() implies found.contains(
            ((#[trigger] all[i]).0, Some(all[i].1)),
        ) by {
            let pair = (all[i].0, Some(all[i].1));
            if i < before.len() {
                assert(before[i] == all[i]);
                assert(rest.contains(pair));
                let j = choose|j: int| 0 <= j < rest.len() && rest[j] == pair;
                assert(found[j] == pair);
            } else {
                assert(found[found.len() - 1] == pair);
            }
        }
    }
}

/// A card folder is served under its own name, from where it lies, and with the
/// database that its identifier names.
pub proof fn law_folders_are_served_from_where_they_lie(
    c: ResolvedCollection,
    name: Seq<char>,
    id: Seq<char>,
    root: Seq<char>,
    db_dir: Seq<char>,
    owner: Option<Seq<char>>,
)
    requires
        is_folder_collection(c, (name, id), root, db_dir, owner),
        path::is_name(name),
        path::is_name(id + ".db"@),
    ensures
        c.name@ == name,
        path::inside(c.coll_dir@, root) == Some(name),
        path::inside(c.db_path@, db_dir) == Some(id + ".db"@),
        c.slug@ == config::slug(name),
        owner is Some <==> c.owner is Some,
        owner matches Some(o) ==> (c.owner->0)@ == text::lowercase(o),
{
    path::law_files_keep_their_name_in_a_folder(root, name);
    path::law_files_keep_their_name_in_a_folder(db_dir, id + ".db"@);
}

} // verus!
