//! The server's configuration: what a file may say, and what it comes to.

use vstd::prelude::*;
use crate::error::{fail, Fallible};
use crate::path;
use crate::text;
use crate::types::performance::Real;

verus! {

/// A HedgeDoc note named in the configuration.
pub struct HedgedocEntry {
    pub url: String,
    pub owner: Option<String>,
}

/// A deck put together by a user: a named selection of decks drawn from any of
/// the owner's collections, drilled as one session.
///
/// The members are `collection-slug/deck-name` pairs.
pub struct CustomDeckEntry {
    pub name: String,
    pub members: Vec<String>,
    pub owner: Option<String>,
}

/// One member of a custom deck: a collection and a deck within it.
pub struct DeckMember {
    pub collection_slug: String,
    pub deck_name: String,
}

/// What a member text means: the slug before its first `/` and the deck after
/// it, neither of them empty. Deck names may hold further slashes.
pub open spec fn member(raw: Seq<char>) -> Option<(Seq<char>, Seq<char>)> {
    match text::split_once(raw, '/') {
        Some((slug, deck)) => if slug.len() == 0 || deck.len() == 0 {
            None
        } else {
            Some((slug, deck))
        },
        None => None,
    }
}

/// The text that names a member.
pub open spec fn member_text(slug: Seq<char>, deck: Seq<char>) -> Seq<char> {
    slug + "/"@ + deck
}

impl DeckMember {
    /// Reads a member text.
    pub fn parse(raw: &str) -> (result: Option<DeckMember>)
        ensures
            match result {
                Some(m) => member(raw@) == Some((m.collection_slug@, m.deck_name@)),
                None => member(raw@) is None,
            },
    {
        match text::split_once_at(raw, '/') {
            Some((slug, deck)) => {
                if slug.as_str().is_empty() || deck.as_str().is_empty() {
                    None
                } else {
                    Some(DeckMember { collection_slug: slug, deck_name: deck })
                }
            },
            None => None,
        }
    }

    /// Writes a member text.
    pub fn encode(&self) -> (result: String)
        ensures
            result@ == member_text(self.collection_slug@, self.deck_name@),
    {
        text::cat3(self.collection_slug.as_str(), "/", self.deck_name.as_str())
    }
}

/// What is parsed back from a member text is the member it was written from,
/// whenever the slug holds no `/` and neither half is empty.
pub proof fn law_member_round_trip(slug: Seq<char>, deck: Seq<char>)
    requires
        slug.len() > 0,
        deck.len() > 0,
        !slug.contains('/'),
    ensures
        member(member_text(slug, deck)) == Some((slug, deck)),
{
    reveal_strlit("/");
    let raw = member_text(slug, deck);
    assert forall|j: int| 0 <= j < slug.len() implies raw[j] != '/' by {
        assert(slug.contains(slug[j]));
    }
    text::lemma_first_index(raw, '/', slug.len() as int);
    assert(raw.take(slug.len() as int) == slug);
    assert(raw.skip(slug.len() as int + 1) == deck);
}

/// Every text that is accepted as a member is written back as it was.
pub proof fn law_member_text_is_kept(raw: Seq<char>)
    ensures
        member(raw) matches Some((slug, deck)) ==> member_text(slug, deck) == raw,
{
    reveal_strlit("/");
    text::lemma_first_index_bounds(raw, '/');
    let i = text::first_index(raw, '/');
    if i < raw.len() {
        assert(raw.take(i) + "/"@ + raw.skip(i + 1) == raw);
    }
}

/// Where the server listens and what it keeps where.
pub struct ServerSection {
    pub host: String,
    pub port: u16,
    pub data_dir: String,
    /// Drill sessions idle for this many minutes are evicted; 0 disables that.
    pub session_timeout_minutes: u64,
}

/// The address to listen on by default: this machine only. Without a login
/// there is no authentication at all, so every other interface must be asked
/// for.
pub fn default_host() -> (result: String)
    ensures
        result@ == "127.0.0.1"@,
{
    "127.0.0.1".to_owned()
}

/// The port to listen on by default.
pub fn default_port() -> (result: u16)
    ensures
        result == 8000,
{
    8000
}

/// The default idle time before eviction: a day.
pub fn default_session_timeout_minutes() -> (result: u64)
    ensures
        result == 24 * 60,
{
    1440
}

/// The git repository that holds the configured collections.
pub struct GitSection {
    pub repo_url: Option<String>,
    pub branch: String,
    pub poll_interval_minutes: u64,
    /// Author name for commits of edits made in the browser.
    pub commit_author_name: String,
    /// Author email for commits of edits made in the browser.
    pub commit_author_email: String,
}

/// The branch that is followed by default.
pub fn default_branch() -> (result: String)
    ensures
        result@ == "main"@,
{
    "main".to_owned()
}

/// Minutes between two pulls by default.
pub fn default_poll_interval() -> (result: u64)
    ensures
        result == 30,
{
    30
}

/// The default author name for commits.
pub fn default_commit_author_name() -> (result: String)
    ensures
        result@ == "hashcards web edit"@,
{
    "hashcards web edit".to_owned()
}

/// The default author email for commits.
pub fn default_commit_author_email() -> (result: String)
    ensures
        result@ == "hashcards@localhost"@,
{
    "hashcards@localhost".to_owned()
}

/// The login provider.
pub struct OidcSection {
    pub issuer_url: String,
    pub client_id: String,
    pub client_secret: String,
    pub external_url: String,
    pub session_secret: String,
    pub scopes: Vec<String>,
}

/// The scopes that are asked for by default.
pub fn default_oidc_scopes() -> (result: Vec<String>)
    ensures
        text::views(result@) == seq!["openid"@, "email"@, "profile"@],
{
    let result = vec!["openid".to_owned(), "email".to_owned(), "profile".to_owned()];
    proof {
        assert(text::views(result@) =~= seq!["openid"@, "email"@, "profile"@]);
    }
    result
}

/// The shortest session secret, in bytes, that the cookie signing key can be
/// derived from.
pub const MIN_SESSION_SECRET_BYTES: usize = 32;

/// The login provider, checked.
pub struct ResolvedOidc {
    pub issuer_url: String,
    pub client_id: String,
    pub client_secret: String,
    pub external_url: String,
    pub session_secret: String,
    pub scopes: Vec<String>,
}

/// How sessions are run unless something else is asked for.
#[derive(Clone, Copy)]
pub struct DefaultsSection {
    pub answer_controls: AnswerControlsConfig,
    pub bury_siblings: bool,
    /// How far an interval may be moved at random, as a fraction of it.
    pub jitter: Real,
}

/// Which grade buttons are shown.
#[derive(Clone, Copy, Debug, PartialEq, Eq, Structural)]
pub enum AnswerControlsConfig {
    Full,
    Binary,
}

/// The grade buttons that are shown by default: all four.
pub fn default_answer_controls() -> (result: AnswerControlsConfig)
    ensures
        result == AnswerControlsConfig::Full,
{
    AnswerControlsConfig::Full
}

/// Siblings are buried by default.
pub fn default_true() -> (result: bool)
    ensures
        result,
{
    true
}

/// A collection named in the configuration, by its path inside the repository.
pub struct CollectionEntry {
    pub name: String,
    pub path: String,
    pub owner: Option<String>,
}

/// A letter, a digit, `-`, `_` or `.` stands for itself in a slug; everything
/// else becomes `-`.
pub open spec fn slug_char(c: char) -> char {
    if text::alphanumeric(c) || c == '-' || c == '_' || c == '.' {
        c
    } else {
        '-'
    }
}

/// The URL slug of a text.
pub open spec fn slug(s: Seq<char>) -> Seq<char> {
    s.map_values(|c: char| slug_char(c))
}

impl CollectionEntry {
    /// The slug of the collection.
    pub fn slug(&self) -> (result: String)
        ensures
            result@ == slug(self.path@),
    {
        slugify(self.path.as_str())
    }
}

/// The URL slug of a text.
pub fn slugify(s: &str) -> (result: String)
    ensures
        result@ == slug(s@),
{
    let v = text::chars_of(s);
    let mut result = String::new();
    let mut i: usize = 0;
    while i < v.len()
        invariant
            v@ == s@,
            i <= v@.len(),
            result@ == slug(s@).take(i as int),
        decreases v@.len() - i,
    {
        let c = v[i];
        let kept = c.is_alphanumeric() || c == '-' || c == '_' || c == '.';
        result.push(if kept { c } else { '-' });
        i += 1;
        proof {
            assert(slug(s@).take(i as int) == slug(s@).take(i - 1).push(slug_char(c)));
        }
    }
    proof {
        assert(slug(s@).take(i as int) == slug(s@));
    }
    result
}

/// A slug is its own slug.
pub proof fn law_slug_is_stable(s: Seq<char>)
    ensures
        slug(slug(s)) == slug(s),
{
    assert(slug(slug(s)) =~= slug(s));
}

/// A slug has as many characters as the text, and each of them is a letter, a
/// digit, `-`, `_` or `.`: it never holds a `/`.
pub proof fn law_slug_is_one_component(s: Seq<char>)
    ensures
        slug(s).len() == s.len(),
        forall|i: int|
            0 <= i < s.len() ==> {
                let c = #[trigger] slug(s)[i];
                text::alphanumeric(c) || c == '-' || c == '_' || c == '.'
            },
        !slug(s).contains('/'),
{
}

/// The git repository, checked.
pub struct ResolvedGit {
    pub repo_url: String,
    pub branch: String,
    pub poll_interval_minutes: u64,
    pub commit_author_name: String,
    pub commit_author_email: String,
    pub repo_dir: String,
    pub db_dir: String,
}

/// A collection that the server can open.
pub struct ResolvedCollection {
    pub name: String,
    pub slug: String,
    pub coll_dir: String,
    pub db_path: String,
    /// The owner's email in lowercase, where logins are configured.
    pub owner: Option<String>,
}

impl Clone for ResolvedCollection {
    fn clone(&self) -> (result: Self)
        ensures
            result == *self,
    {
        ResolvedCollection {
            name: self.name.clone(),
            slug: self.slug.clone(),
            coll_dir: self.coll_dir.clone(),
            db_path: self.db_path.clone(),
            owner: self.owner.clone(),
        }
    }
}

/// What a configuration file says.
pub struct ServeConfig {
    pub server: ServerSection,
    pub git: Option<GitSection>,
    pub defaults: DefaultsSection,
    pub oidc: Option<OidcSection>,
    pub collections: Vec<CollectionEntry>,
    pub hedgedoc: Vec<HedgedocEntry>,
    pub decks: Vec<CustomDeckEntry>,
}

/// What the server runs with.
pub struct ResolvedServeConfig {
    pub host: String,
    pub port: u16,
    pub git: Option<ResolvedGit>,
    pub defaults: DefaultsSection,
    pub collections: Vec<ResolvedCollection>,
    /// The directory holding the repository and the review databases.
    pub data_dir: Option<String>,
    /// The configuration file, to which changes made in the browser go back.
    pub config_path: Option<String>,
    pub hedgedoc_entries: Vec<HedgedocEntry>,
    pub custom_decks: Vec<CustomDeckEntry>,
    /// Idle sessions are evicted after this many minutes (0 = never).
    pub session_timeout_minutes: u64,
    pub oidc: Option<ResolvedOidc>,
}

/// The name and the slug of each collection.
pub open spec fn labelled(cs: Seq<ResolvedCollection>) -> Seq<(Seq<char>, Seq<char>)> {
    cs.map_values(|c: ResolvedCollection| (c.name@, c.slug@))
}

/// The first place at which a slug is used; the length of the list if there is
/// none.
pub open spec fn first_with_slug(pairs: Seq<(Seq<char>, Seq<char>)>, slug: Seq<char>) -> int
    decreases pairs.len(),
{
    if pairs.len() == 0 || pairs[0].1 == slug {
        0
    } else {
        1 + first_with_slug(pairs.skip(1), slug)
    }
}

pub proof fn lemma_first_with_slug(pairs: Seq<(Seq<char>, Seq<char>)>, slug: Seq<char>)
    ensures
        0 <= first_with_slug(pairs, slug) <= pairs.len(),
        first_with_slug(pairs, slug) < pairs.len() ==> pairs[first_with_slug(pairs, slug)].1
            == slug,
        forall|j: int| 0 <= j < first_with_slug(pairs, slug) ==> (#[trigger] pairs[j]).1 != slug,
    decreases pairs.len(),
{
    if pairs.len() > 0 && pairs[0].1 != slug {
        lemma_first_with_slug(pairs.skip(1), slug);
        assert forall|j: int| 0 <= j < first_with_slug(pairs, slug) implies (
        #[trigger] pairs[j]).1 != slug by {
            if j > 0 {
                assert(pairs[j] == pairs.skip(1)[j - 1]);
            }
        }
    }
}

/// The first place in `cs` at which `slug` is used; the length of `cs` if there
/// is none.
pub fn slug_position(cs: &[ResolvedCollection], slug: &str) -> (result: usize)
    ensures
        result == first_with_slug(labelled(cs@), slug@),
        result <= cs@.len(),
{
    let mut i: usize = 0;
    let ghost pairs = labelled(cs@);
    while i < cs.len() && !text::same(cs[i].slug.as_str(), slug)
        invariant
            i <= cs@.len(),
            pairs == labelled(cs@),
            forall|j: int| 0 <= j < i ==> (#[trigger] pairs[j]).1 != slug@,
        decreases cs@.len() - i,
    {
        i += 1;
    }
    proof {
        lemma_first_with_slug(pairs, slug@);
        if i < pairs.len() {
            assert(pairs[i as int].1 == slug@);
        }
    }
    i
}

/// What is said of two collections that share a slug.
pub open spec fn collision_message(
    first: Seq<char>,
    second: Seq<char>,
    slug: Seq<char>,
) -> Seq<char> {
    "configuration error: collections '"@ + first + "' and '"@ + second
        + "' both map to the URL slug '"@ + slug
        + "'. Rename one of them so their slugs differ."@
}

/// The complaint about the first collection, from place `i` on, whose slug an
/// earlier one has.
pub open spec fn collision(pairs: Seq<(Seq<char>, Seq<char>)>, i: int) -> Option<Seq<char>>
    decreases pairs.len() - i,
{
    if i < 0 || i >= pairs.len() {
        None
    } else {
        let j = first_with_slug(pairs, pairs[i].1);
        if j < i {
            Some(collision_message(pairs[j].0, pairs[i].0, pairs[i].1))
        } else {
            collision(pairs, i + 1)
        }
    }
}

/// Refuses collections that map to the same URL slug: they would silently
/// share one database.
pub fn check_slug_collisions(collections: &[ResolvedCollection]) -> (result: Fallible<()>)
    ensures
        match result {
            Ok(_) => collision(labelled(collections@), 0) is None,
            Err(e) => collision(labelled(collections@), 0) == Some(e@),
        },
{
    let mut i: usize = 0;
    while i < collections.len()
        invariant
            i <= collections@.len(),
            collision(labelled(collections@), i as int) == collision(labelled(collections@), 0),
        decreases collections@.len() - i,
    {
        let j = slug_position(collections, collections[i].slug.as_str());
        if j < i {
            let message = text::cat7(
                "configuration error: collections '",
                collections[j].name.as_str(),
                "' and '",
                collections[i].name.as_str(),
                "' both map to the URL slug '",
                collections[i].slug.as_str(),
                "'. Rename one of them so their slugs differ.",
            );
            return fail(message.as_str());
        }
        i += 1;
    }
    Ok(())
}

/// No complaint is made exactly when no two collections share a slug.
pub proof fn law_no_collision_means_distinct_slugs(cs: Seq<ResolvedCollection>)
    ensures
        collision(labelled(cs), 0) is None <==> forall|i: int, j: int|
            0 <= j < i < cs.len() ==> (#[trigger] cs[i]).slug@ != (#[trigger] cs[j]).slug@,
{
    lemma_collision(labelled(cs), 0);
    let pairs = labelled(cs);
    if collision(pairs, 0) is None {
        assert forall|i: int, j: int| 0 <= j < i < cs.len() implies (#[trigger] cs[i]).slug@ != (
        #[trigger] cs[j]).slug@ by {
            assert(pairs[i].1 != pairs[j].1);
        }
    } else {
        let (i, j) = choose|i: int, j: int|
            0 <= j < i < pairs.len() && (#[trigger] pairs[i]).1 == (#[trigger] pairs[j]).1;
        assert(cs[i].slug@ == cs[j].slug@);
    }
}

proof fn lemma_collision(pairs: Seq<(Seq<char>, Seq<char>)>, from: int)
    requires
        0 <= from <= pairs.len(),
    ensures
        collision(pairs, from) is None <==> forall|i: int, j: int|
            0 <= j < i < pairs.len() && from <= i ==> (#[trigger] pairs[i]).1 != (
            #[trigger] pairs[j]).1,
    decreases pairs.len() - from,
{
    if from < pairs.len() {
        lemma_first_with_slug(pairs, pairs[from].1);
        lemma_collision(pairs, from + 1);
        let at = first_with_slug(pairs, pairs[from].1);
        if at < from {
            assert(pairs[from].1 == pairs[at].1);
        }
    }
}

/// Where the server keeps what it writes.
pub open spec fn data_dir(config: ServeConfig, working_dir: Seq<char>) -> Seq<char> {
    path::join_path(working_dir, config.server.data_dir@)
}

/// Where the clone of the repository is.
pub open spec fn repo_dir(data_dir: Seq<char>) -> Seq<char> {
    path::join_path(data_dir, "repo"@)
}

/// Where the review databases are.
pub open spec fn db_dir(data_dir: Seq<char>) -> Seq<char> {
    path::join_path(data_dir, "db"@)
}

/// What is wrong with the path of a collection: it must stay inside the
/// repository.
pub open spec fn path_error(repo: Seq<char>, entry: CollectionEntry) -> Option<Seq<char>> {
    if path::is_absolute(entry.path@) {
        Some(
            "configuration error: collection path must be relative (it is resolved inside `"@ + repo
                + "`), but `"@ + entry.path@ + "` is absolute"@,
        )
    } else if path::has_parent(entry.path@) {
        Some(
            "configuration error: collection path must not contain `..` components: `"@
                + entry.path@ + "`"@,
        )
    } else {
        None
    }
}

/// What is wrong with the login section.
pub open spec fn oidc_error(oidc: OidcSection) -> Option<Seq<char>> {
    let scopes = text::views(oidc.scopes@);
    let secret = text::byte_len(oidc.session_secret@);
    if !scopes.contains("openid"@) || !scopes.contains("email"@) {
        Some(
            "configuration error: [oidc].scopes must include `openid` and `email` (the email claim is required to match collections to their owner)"@,
        )
    } else if secret < MIN_SESSION_SECRET_BYTES {
        Some(secret_message(secret))
    } else {
        None
    }
}

/// What is said of a session secret of this many bytes.
pub open spec fn secret_message(len: nat) -> Seq<char> {
    "configuration error: [oidc].session_secret must be at least "@ + text::decimal(
        MIN_SESSION_SECRET_BYTES as nat,
    ) + " bytes long (it is "@ + text::decimal(len)
        + "); generate one with `openssl rand -hex 32`"@
}

/// The complaint about a session secret of `len` bytes.
pub fn short_secret(len: usize) -> (result: String)
    ensures
        result@ == secret_message(len as nat),
{
    let least = text::decimal_of(MIN_SESSION_SECRET_BYTES as u64);
    let given = text::decimal_of(len as u64);
    text::cat5(
        "configuration error: [oidc].session_secret must be at least ",
        least.as_str(),
        " bytes long (it is ",
        given.as_str(),
        "); generate one with `openssl rand -hex 32`",
    )
}

/// What is wrong with a member of the deck `name`.
pub open spec fn member_error(name: Seq<char>, raw: Seq<char>) -> Option<Seq<char>> {
    if member(raw) is None {
        Some(
            "configuration error: [[deck]] '"@ + name + "' has the member `"@ + raw
                + "`, which is not in `collection-slug/deck-name` form"@,
        )
    } else {
        None
    }
}

/// What is wrong with a custom deck.
pub open spec fn deck_error(deck: CustomDeckEntry) -> Option<Seq<char>> {
    if text::trim(deck.name@).len() == 0 {
        Some("configuration error: a [[deck]] entry has an empty `name`"@)
    } else {
        text::first_some(
            text::views(deck.members@),
            |raw: Seq<char>| member_error(deck.name@, raw),
        )
    }
}

/// Who is named how, and whether an owner is declared.
pub open spec fn collection_labels(cs: Seq<CollectionEntry>) -> Seq<(Seq<char>, bool)> {
    cs.map_values(|c: CollectionEntry| (c.name@, c.owner is Some))
}

pub open spec fn hedgedoc_labels(hs: Seq<HedgedocEntry>) -> Seq<(Seq<char>, bool)> {
    hs.map_values(|h: HedgedocEntry| (h.url@, h.owner is Some))
}

pub open spec fn deck_labels(ds: Seq<CustomDeckEntry>) -> Seq<(Seq<char>, bool)> {
    ds.map_values(|d: CustomDeckEntry| (d.name@, d.owner is Some))
}

/// The name in a label, if its owner is declared, or is not.
pub open spec fn named_if(owned: bool) -> spec_fn((Seq<char>, bool)) -> Option<Seq<char>> {
    |l: (Seq<char>, bool)|
        if l.1 == owned {
            Some(l.0)
        } else {
            None
        }
}

/// The first label whose owner is declared, or is not.
pub open spec fn first_label(labels: Seq<(Seq<char>, bool)>, owned: bool) -> Option<Seq<char>> {
    text::first_some(labels, named_if(owned))
}

/// `head`, the label and `tail`, if there is a label.
pub open spec fn about(head: Seq<char>, label: Option<Seq<char>>, tail: Seq<char>) -> Option<
    Seq<char>,
> {
    match label {
        Some(l) => Some(head + l + tail),
        None => None,
    }
}

/// What is wrong with the owners. With logins every entry needs one; without
/// them nobody is ever logged in, so an owned entry could not be reached.
pub open spec fn owner_error(config: ServeConfig) -> Option<Seq<char>> {
    let collections = collection_labels(config.collections@);
    let notes = hedgedoc_labels(config.hedgedoc@);
    let decks = deck_labels(config.decks@);
    if config.oidc is Some {
        text::first_of(
            about(
                "configuration error: [oidc] is enabled, so every collection must declare an `owner`, but collection '"@,
                first_label(collections, false),
                "' has none"@,
            ),
            text::first_of(
                about(
                    "configuration error: [oidc] is enabled, so every [[hedgedoc]] entry must declare an `owner`, but the entry for '"@,
                    first_label(notes, false),
                    "' has none"@,
                ),
                about(
                    "configuration error: [oidc] is enabled, so every [[deck]] entry must declare an `owner`, but the deck '"@,
                    first_label(decks, false),
                    "' has none"@,
                ),
            ),
        )
    } else {
        text::first_of(
            about(
                "configuration error: collection '"@,
                first_label(collections, true),
                "' declares an `owner`, but [oidc] is not configured, so nobody is ever logged in and the collection would be unreachable. Add an [oidc] section or remove the `owner`"@,
            ),
            text::first_of(
                about(
                    "configuration error: the [[deck]] entry '"@,
                    first_label(decks, true),
                    "' declares an `owner`, but [oidc] is not configured, so nobody is ever logged in and the deck would be unreachable. Add an [oidc] section or remove the `owner`"@,
                ),
                about(
                    "configuration error: the [[hedgedoc]] entry for '"@,
                    first_label(notes, true),
                    "' declares an `owner`, but [oidc] is not configured, so nobody is ever logged in and the note would be unreachable. Add an [oidc] section or remove the `owner`"@,
                ),
            ),
        )
    }
}

/// What is wrong with the git section.
pub open spec fn git_error(git: Option<GitSection>) -> Option<Seq<char>> {
    match git {
        Some(g) => if g.repo_url is None {
            Some("configuration error: [git] section is present but `repo_url` is missing"@)
        } else {
            None
        },
        None => None,
    }
}

/// The first thing that is wrong with a configuration.
pub open spec fn config_error(config: ServeConfig, working_dir: Seq<char>) -> Option<Seq<char>> {
    let repo = repo_dir(data_dir(config, working_dir));
    let paths = text::first_some(
        config.collections@,
        |c: CollectionEntry| path_error(repo, c),
    );
    let slugs = collision(
        config.collections@.map_values(|c: CollectionEntry| (c.name@, slug(c.path@))),
        0,
    );
    let oidc = match config.oidc {
        Some(o) => oidc_error(o),
        None => None,
    };
    let decks = text::first_some(config.decks@, |d: CustomDeckEntry| deck_error(d));
    text::first_of(
        paths,
        text::first_of(
            slugs,
            text::first_of(
                oidc,
                text::first_of(
                    decks,
                    text::first_of(owner_error(config), git_error(config.git)),
                ),
            ),
        ),
    )
}

/// Whether `rc` is the collection that `entry` declares.
pub open spec fn resolves_entry(
    entry: CollectionEntry,
    data_dir: Seq<char>,
    rc: ResolvedCollection,
) -> bool {
    &&& rc.name@ == entry.name@
    &&& rc.slug@ == slug(entry.path@)
    &&& rc.coll_dir@ == path::join_path(repo_dir(data_dir), entry.path@)
    &&& rc.db_path@ == path::join_path(db_dir(data_dir), slug(entry.path@) + ".db"@)
    &&& text::opt_text(rc.owner) == text::opt_lowercase(text::opt_text(entry.owner))
}

/// Whether `h` is `entry` with its owner in lowercase.
pub open spec fn resolves_note(entry: HedgedocEntry, h: HedgedocEntry) -> bool {
    &&& h.url@ == entry.url@
    &&& text::opt_text(h.owner) == text::opt_lowercase(text::opt_text(entry.owner))
}

/// Whether `d` is `entry` with its owner in lowercase.
pub open spec fn resolves_deck(entry: CustomDeckEntry, d: CustomDeckEntry) -> bool {
    &&& d.name@ == entry.name@
    &&& text::views(d.members@) == text::views(entry.members@)
    &&& text::opt_text(d.owner) == text::opt_lowercase(text::opt_text(entry.owner))
}

/// Whether `r` is what `config` comes to when the server is started in
/// `working_dir`.
pub open spec fn resolves(
    config: ServeConfig,
    working_dir: Seq<char>,
    r: ResolvedServeConfig,
) -> bool {
    let data = data_dir(config, working_dir);
    &&& r.host == config.server.host
    &&& r.port == config.server.port
    &&& r.defaults == config.defaults
    &&& r.session_timeout_minutes == config.server.session_timeout_minutes
    &&& text::opt_text(r.data_dir) == Some(data)
    &&& r.config_path is None
    &&& r.collections@.len() == config.collections@.len()
    &&& forall|i: int|
        0 <= i < r.collections@.len() ==> resolves_entry(
            config.collections@[i],
            data,
            #[trigger] r.collections@[i],
        )
    &&& r.hedgedoc_entries@.len() == config.hedgedoc@.len()
    &&& forall|i: int|
        0 <= i < r.hedgedoc_entries@.len() ==> resolves_note(
            config.hedgedoc@[i],
            #[trigger] r.hedgedoc_entries@[i],
        )
    &&& r.custom_decks@.len() == config.decks@.len()
    &&& forall|i: int|
        0 <= i < r.custom_decks@.len() ==> resolves_deck(
            config.decks@[i],
            #[trigger] r.custom_decks@[i],
        )
    &&& match (config.oidc, r.oidc) {
        (Some(o), Some(p)) => {
            &&& p.issuer_url == o.issuer_url
            &&& p.client_id == o.client_id
            &&& p.client_secret == o.client_secret
            &&& p.external_url == o.external_url
            &&& p.session_secret == o.session_secret
            &&& p.scopes == o.scopes
        },
        (None, None) => true,
        _ => false,
    }
    &&& match (config.git, r.git) {
        (Some(g), Some(h)) => {
            &&& Some(h.repo_url) == g.repo_url
            &&& h.branch == g.branch
            &&& h.poll_interval_minutes == g.poll_interval_minutes
            &&& h.commit_author_name == g.commit_author_name
            &&& h.commit_author_email == g.commit_author_email
            &&& h.repo_dir@ == repo_dir(data)
            &&& h.db_dir@ == db_dir(data)
        },
        (None, None) => true,
        _ => false,
    }
}

fn check_path(repo: &str, entry: &CollectionEntry) -> (result: Option<String>)
    ensures
        text::opt_text(result) == path_error(repo@, *entry),
{
    if path::absolute(entry.path.as_str()) {
        Some(
            text::cat5(
                "configuration error: collection path must be relative (it is resolved inside `",
                repo,
                "`), but `",
                entry.path.as_str(),
                "` is absolute",
            ),
        )
    } else if path::climbs(entry.path.as_str()) {
        Some(
            text::cat3(
                "configuration error: collection path must not contain `..` components: `",
                entry.path.as_str(),
                "`",
            ),
        )
    } else {
        None
    }
}

fn check_paths(repo: &str, entries: &Vec<CollectionEntry>) -> (result: Option<String>)
    ensures
        text::opt_text(result) == text::first_some(
            entries@,
            |c: CollectionEntry| path_error(repo@, c),
        ),
{
    let ghost f = |c: CollectionEntry| path_error(repo@, c);
    let mut i: usize = 0;
    proof {
        assert(entries@.skip(0) == entries@);
    }
    while i < entries.len()
        invariant
            i <= entries@.len(),
            f == (|c: CollectionEntry| path_error(repo@, c)),
            text::first_some(entries@.skip(i as int), f) == text::first_some(entries@, f),
        decreases entries@.len() - i,
    {
        proof {
            assert(entries@.skip(i as int).skip(1) == entries@.skip(i + 1));
        }
        let found = check_path(repo, &entries[i]);
        if found.is_some() {
            return found;
        }
        i += 1;
    }
    None
}

fn resolve_entry(entry: &CollectionEntry, data_dir: &str) -> (result: ResolvedCollection)
    ensures
        resolves_entry(*entry, data_dir@, result),
{
    let slug = entry.slug();
    let repo = path::join(data_dir, "repo");
    let dbs = path::join(data_dir, "db");
    let file = text::cat2(slug.as_str(), ".db");
    ResolvedCollection {
        name: entry.name.clone(),
        coll_dir: path::join(repo.as_str(), entry.path.as_str()),
        db_path: path::join(dbs.as_str(), file.as_str()),
        slug,
        owner: text::lowercased_opt(&entry.owner),
    }
}

fn resolve_entries(entries: &Vec<CollectionEntry>, data_dir: &str) -> (result: Vec<
    ResolvedCollection,
>)
    ensures
        result@.len() == entries@.len(),
        forall|i: int|
            0 <= i < result@.len() ==> resolves_entry(
                entries@[i],
                data_dir@,
                #[trigger] result@[i],
            ),
        labelled(result@) == entries@.map_values(|c: CollectionEntry| (c.name@, slug(c.path@))),
{
    let mut result: Vec<ResolvedCollection> = Vec::new();
    let mut i: usize = 0;
    while i < entries.len()
        invariant
            i <= entries@.len(),
            result@.len() == i,
            forall|j: int|
                0 <= j < i ==> resolves_entry(entries@[j], data_dir@, #[trigger] result@[j]),
        decreases entries@.len() - i,
    {
        result.push(resolve_entry(&entries[i], data_dir));
        i += 1;
    }
    proof {
        assert(labelled(result@) =~= entries@.map_values(
            |c: CollectionEntry| (c.name@, slug(c.path@)),
        ));
    }
    result
}

fn check_oidc(oidc: &OidcSection) -> (result: Option<String>)
    ensures
        text::opt_text(result) == oidc_error(*oidc),
{
    let secret = text::byte_length(oidc.session_secret.as_str());
    if !text::lists(&oidc.scopes, "openid") || !text::lists(&oidc.scopes, "email") {
        Some(
            "configuration error: [oidc].scopes must include `openid` and `email` (the email claim is required to match collections to their owner)".to_owned(),
        )
    } else if secret < MIN_SESSION_SECRET_BYTES {
        Some(short_secret(secret))
    } else {
        None
    }
}

fn check_deck(deck: &CustomDeckEntry) -> (result: Option<String>)
    ensures
        text::opt_text(result) == deck_error(*deck),
{
    if text::trim_of(deck.name.as_str()).is_empty() {
        return Some("configuration error: a [[deck]] entry has an empty `name`".to_owned());
    }
    let ghost raws = text::views(deck.members@);
    let ghost f = |raw: Seq<char>| member_error(deck.name@, raw);
    let mut i: usize = 0;
    proof {
        assert(raws.skip(0) == raws);
    }
    while i < deck.members.len()
        invariant
            i <= deck.members@.len(),
            raws == text::views(deck.members@),
            f == (|raw: Seq<char>| member_error(deck.name@, raw)),
            text::first_some(raws.skip(i as int), f) == text::first_some(raws, f),
            text::trim(deck.name@).len() != 0,
        decreases deck.members@.len() - i,
    {
        proof {
            assert(raws.skip(i as int).skip(1) == raws.skip(i + 1));
            assert(raws.skip(i as int)[0] == deck.members@[i as int]@);
        }
        if DeckMember::parse(deck.members[i].as_str()).is_none() {
            return Some(
                text::cat5(
                    "configuration error: [[deck]] '",
                    deck.name.as_str(),
                    "' has the member `",
                    deck.members[i].as_str(),
                    "`, which is not in `collection-slug/deck-name` form",
                ),
            );
        }
        i += 1;
    }
    None
}

fn check_decks(decks: &Vec<CustomDeckEntry>) -> (result: Option<String>)
    ensures
        text::opt_text(result) == text::first_some(decks@, |d: CustomDeckEntry| deck_error(d)),
{
    let ghost f = |d: CustomDeckEntry| deck_error(d);
    let mut i: usize = 0;
    proof {
        assert(decks@.skip(0) == decks@);
    }
    while i < decks.len()
        invariant
            i <= decks@.len(),
            f == (|d: CustomDeckEntry| deck_error(d)),
            text::first_some(decks@.skip(i as int), f) == text::first_some(decks@, f),
        decreases decks@.len() - i,
    {
        proof {
            assert(decks@.skip(i as int).skip(1) == decks@.skip(i + 1));
        }
        let found = check_deck(&decks[i]);
        if found.is_some() {
            return found;
        }
        i += 1;
    }
    None
}

/// The texts and flags of a list of labels.
pub open spec fn label_views(v: Seq<(String, bool)>) -> Seq<(Seq<char>, bool)> {
    v.map_values(|l: (String, bool)| (l.0@, l.1))
}

fn find_label(labels: &Vec<(String, bool)>, owned: bool) -> (result: Option<String>)
    ensures
        text::opt_text(result) == first_label(label_views(labels@), owned),
{
    let ghost views = label_views(labels@);
    let mut i: usize = 0;
    proof {
        assert(views.skip(0) == views);
    }
    while i < labels.len()
        invariant
            i <= labels@.len(),
            views == label_views(labels@),
            first_label(views.skip(i as int), owned) == first_label(views, owned),
        decreases labels@.len() - i,
    {
        proof {
            assert(views.skip(i as int).skip(1) == views.skip(i + 1));
            assert(views.skip(i as int)[0] == (labels@[i as int].0@, labels@[i as int].1));
        }
        if labels[i].1 == owned {
            return Some(labels[i].0.clone());
        }
        i += 1;
    }
    None
}

fn label_collections(cs: &Vec<CollectionEntry>) -> (result: Vec<(String, bool)>)
    ensures
        label_views(result@) == collection_labels(cs@),
{
    let mut result: Vec<(String, bool)> = Vec::new();
    let mut i: usize = 0;
    while i < cs.len()
        invariant
            i <= cs@.len(),
            result@.len() == i,
            forall|j: int|
                0 <= j < i ==> (#[trigger] result@[j]).0@ == cs@[j].name@ && result@[j].1 == (
                cs@[j].owner is Some),
        decreases cs@.len() - i,
    {
        result.push((cs[i].name.clone(), cs[i].owner.is_some()));
        i += 1;
    }
    proof {
        assert(label_views(result@) =~= collection_labels(cs@));
    }
    result
}

fn label_notes(hs: &Vec<HedgedocEntry>) -> (result: Vec<(String, bool)>)
    ensures
        label_views(result@) == hedgedoc_labels(hs@),
{
    let mut result: Vec<(String, bool)> = Vec::new();
    let mut i: usize = 0;
    while i < hs.len()
        invariant
            i <= hs@.len(),
            result@.len() == i,
            forall|j: int|
                0 <= j < i ==> (#[trigger] result@[j]).0@ == hs@[j].url@ && result@[j].1 == (
                hs@[j].owner is Some),
        decreases hs@.len() - i,
    {
        result.push((hs[i].url.clone(), hs[i].owner.is_some()));
        i += 1;
    }
    proof {
        assert(label_views(result@) =~= hedgedoc_labels(hs@));
    }
    result
}

fn label_decks(ds: &Vec<CustomDeckEntry>) -> (result: Vec<(String, bool)>)
    ensures
        label_views(result@) == deck_labels(ds@),
{
    let mut result: Vec<(String, bool)> = Vec::new();
    let mut i: usize = 0;
    while i < ds.len()
        invariant
            i <= ds@.len(),
            result@.len() == i,
            forall|j: int|
                0 <= j < i ==> (#[trigger] result@[j]).0@ == ds@[j].name@ && result@[j].1 == (
                ds@[j].owner is Some),
        decreases ds@.len() - i,
    {
        result.push((ds[i].name.clone(), ds[i].owner.is_some()));
        i += 1;
    }
    proof {
        assert(label_views(result@) =~= deck_labels(ds@));
    }
    result
}

fn tell(head: &str, label: Option<String>, tail: &str) -> (result: Option<String>)
    ensures
        text::opt_text(result) == about(head@, text::opt_text(label), tail@),
{
    match label {
        Some(l) => Some(text::cat3(head, l.as_str(), tail)),
        None => None,
    }
}

fn check_owners(config: &ServeConfig) -> (result: Option<String>)
    ensures
        text::opt_text(result) == owner_error(*config),
{
    let collections = label_collections(&config.collections);
    let notes = label_notes(&config.hedgedoc);
    let decks = label_decks(&config.decks);
    if config.oidc.is_some() {
        let found = tell(
            "configuration error: [oidc] is enabled, so every collection must declare an `owner`, but collection '",
            find_label(&collections, false),
            "' has none",
        );
        if found.is_some() {
            return found;
        }
        let found = tell(
            "configuration error: [oidc] is enabled, so every [[hedgedoc]] entry must declare an `owner`, but the entry for '",
            find_label(&notes, false),
            "' has none",
        );
        if found.is_some() {
            return found;
        }
        tell(
            "configuration error: [oidc] is enabled, so every [[deck]] entry must declare an `owner`, but the deck '",
            find_label(&decks, false),
            "' has none",
        )
    } else {
        let found = tell(
            "configuration error: collection '",
            find_label(&collections, true),
            "' declares an `owner`, but [oidc] is not configured, so nobody is ever logged in and the collection would be unreachable. Add an [oidc] section or remove the `owner`",
        );
        if found.is_some() {
            return found;
        }
        let found = tell(
            "configuration error: the [[deck]] entry '",
            find_label(&decks, true),
            "' declares an `owner`, but [oidc] is not configured, so nobody is ever logged in and the deck would be unreachable. Add an [oidc] section or remove the `owner`",
        );
        if found.is_some() {
            return found;
        }
        tell(
            "configuration error: the [[hedgedoc]] entry for '",
            find_label(&notes, true),
            "' declares an `owner`, but [oidc] is not configured, so nobody is ever logged in and the note would be unreachable. Add an [oidc] section or remove the `owner`",
        )
    }
}

fn resolve_notes(hs: &Vec<HedgedocEntry>) -> (result: Vec<HedgedocEntry>)
    ensures
        result@.len() == hs@.len(),
        forall|i: int| 0 <= i < result@.len() ==> resolves_note(hs@[i], #[trigger] result@[i]),
{
    let mut result: Vec<HedgedocEntry> = Vec::new();
    let mut i: usize = 0;
    while i < hs.len()
        invariant
            i <= hs@.len(),
            result@.len() == i,
            forall|j: int| 0 <= j < i ==> resolves_note(hs@[j], #[trigger] result@[j]),
        decreases hs@.len() - i,
    {
        result.push(
            HedgedocEntry { url: hs[i].url.clone(), owner: text::lowercased_opt(&hs[i].owner) },
        );
        i += 1;
    }
    result
}

fn resolve_decks(ds: &Vec<CustomDeckEntry>) -> (result: Vec<CustomDeckEntry>)
    ensures
        result@.len() == ds@.len(),
        forall|i: int| 0 <= i < result@.len() ==> resolves_deck(ds@[i], #[trigger] result@[i]),
{
    let mut result: Vec<CustomDeckEntry> = Vec::new();
    let mut i: usize = 0;
    while i < ds.len()
        invariant
            i <= ds@.len(),
            result@.len() == i,
            forall|j: int| 0 <= j < i ==> resolves_deck(ds@[j], #[trigger] result@[j]),
        decreases ds@.len() - i,
    {
        let members = text::copied(&ds[i].members);
        result.push(
            CustomDeckEntry {
                name: ds[i].name.clone(),
                members,
                owner: text::lowercased_opt(&ds[i].owner),
            },
        );
        i += 1;
    }
    result
}

impl ResolvedServeConfig {
    /// Checks a configuration and works out what it comes to for a server that
    /// is started in `working_dir`.
    pub fn from_toml(config: ServeConfig, working_dir: &str) -> (result: Fallible<
        ResolvedServeConfig,
    >)
        ensures
            match result {
                Ok(r) => config_error(config, working_dir@) is None && resolves(
                    config,
                    working_dir@,
                    r,
                ),
                Err(e) => config_error(config, working_dir@) == Some(e@),
            },
    {
        let data_dir = path::join(working_dir, config.server.data_dir.as_str());
        let repo_dir = path::join(data_dir.as_str(), "repo");
        let db_dir = path::join(data_dir.as_str(), "db");

        let wrong = check_paths(repo_dir.as_str(), &config.collections);
        if let Some(message) = wrong {
            return fail(message.as_str());
        }
        let collections = resolve_entries(&config.collections, data_dir.as_str());
        let distinct = check_slug_collisions(collections.as_slice());
        if let Err(e) = distinct {
            return Err(e);
        }
        if let Some(o) = &config.oidc {
            let wrong = check_oidc(o);
            if let Some(message) = wrong {
                return fail(message.as_str());
            }
        }
        let wrong = check_decks(&config.decks);
        if let Some(message) = wrong {
            return fail(message.as_str());
        }
        let wrong = check_owners(&config);
        if let Some(message) = wrong {
            return fail(message.as_str());
        }
        let hedgedoc_entries = resolve_notes(&config.hedgedoc);
        let custom_decks = resolve_decks(&config.decks);
        let git = match config.git {
            None => None,
            Some(g) => match g.repo_url {
                Some(repo_url) => Some(
                    ResolvedGit {
                        repo_url,
                        branch: g.branch,
                        poll_interval_minutes: g.poll_interval_minutes,
                        commit_author_name: g.commit_author_name,
                        commit_author_email: g.commit_author_email,
                        repo_dir,
                        db_dir,
                    },
                ),
                None => {
                    return fail(
                        "configuration error: [git] section is present but `repo_url` is missing",
                    );
                },
            },
        };
        let oidc = match config.oidc {
            None => None,
            Some(o) => Some(
                ResolvedOidc {
                    issuer_url: o.issuer_url,
                    client_id: o.client_id,
                    client_secret: o.client_secret,
                    external_url: o.external_url,
                    session_secret: o.session_secret,
                    scopes: o.scopes,
                },
            ),
        };
        Ok(
            ResolvedServeConfig {
                host: config.server.host,
                port: config.server.port,
                git,
                defaults: config.defaults,
                collections,
                data_dir: Some(data_dir),
                config_path: None,
                hedgedoc_entries,
                custom_decks,
                session_timeout_minutes: config.server.session_timeout_minutes,
                oidc,
            },
        )
    }

    /// The same configuration, with the file that changes go back to.
    pub fn with_config_path(self, config_path: String) -> (result: ResolvedServeConfig)
        ensures
            result == (ResolvedServeConfig { config_path: Some(config_path), ..self }),
    {
        let mut result = self;
        result.config_path = Some(config_path);
        result
    }
}

/// In a configuration that is accepted no two collections share a slug, and
/// so no two share a review database.
pub proof fn law_accepted_slugs_are_distinct(
    config: ServeConfig,
    working_dir: Seq<char>,
    r: ResolvedServeConfig,
)
    requires
        config_error(config, working_dir) is None,
        resolves(config, working_dir, r),
    ensures
        forall|i: int, j: int|
            0 <= j < i < r.collections@.len() ==> (#[trigger] r.collections@[i]).slug@ != (
            #[trigger] r.collections@[j]).slug@,
{
    assert(labelled(r.collections@) =~= config.collections@.map_values(
        |c: CollectionEntry| (c.name@, slug(c.path@)),
    ));
    law_no_collision_means_distinct_slugs(r.collections@);
}

/// In a configuration that is accepted, either logins are configured and
/// everything has an owner, or they are not and nothing has one.
pub proof fn law_owners_go_with_logins(
    config: ServeConfig,
    working_dir: Seq<char>,
    r: ResolvedServeConfig,
)
    requires
        config_error(config, working_dir) is None,
        resolves(config, working_dir, r),
    ensures
        forall|i: int|
            0 <= i < r.collections@.len() ==> ((#[trigger] r.collections@[i]).owner is Some
                <==> r.oidc is Some),
        forall|i: int|
            0 <= i < r.hedgedoc_entries@.len() ==> ((#[trigger] r.hedgedoc_entries@[i]).owner is Some
                <==> r.oidc is Some),
        forall|i: int|
            0 <= i < r.custom_decks@.len() ==> ((#[trigger] r.custom_decks@[i]).owner is Some
                <==> r.oidc is Some),
{
    let owned = config.oidc is Some;
    let collections = collection_labels(config.collections@);
    let notes = hedgedoc_labels(config.hedgedoc@);
    let decks = deck_labels(config.decks@);
    lemma_no_label(collections, !owned);
    lemma_no_label(notes, !owned);
    lemma_no_label(decks, !owned);
    assert forall|i: int| 0 <= i < r.collections@.len() implies ((
    #[trigger] r.collections@[i]).owner is Some <==> r.oidc is Some) by {
        assert(collections[i].1 == owned);
        assert(resolves_entry(
            config.collections@[i],
            data_dir(config, working_dir),
            r.collections@[i],
        ));
    }
    assert forall|i: int| 0 <= i < r.hedgedoc_entries@.len() implies ((
    #[trigger] r.hedgedoc_entries@[i]).owner is Some <==> r.oidc is Some) by {
        assert(notes[i].1 == owned);
        assert(resolves_note(config.hedgedoc@[i], r.hedgedoc_entries@[i]));
    }
    assert forall|i: int| 0 <= i < r.custom_decks@.len() implies ((
    #[trigger] r.custom_decks@[i]).owner is Some <==> r.oidc is Some) by {
        assert(decks[i].1 == owned);
        assert(resolves_deck(config.decks@[i], r.custom_decks@[i]));
    }
}

proof fn lemma_no_label(labels: Seq<(Seq<char>, bool)>, owned: bool)
    ensures
        first_label(labels, owned) is None ==> forall|i: int|
            0 <= i < labels.len() ==> (#[trigger] labels[i]).1 != owned,
{
    let f = named_if(owned);
    text::lemma_first_some_none(labels, f);
    if first_label(labels, owned) is None {
        assert forall|i: int| 0 <= i < labels.len() implies (#[trigger] labels[i]).1 != owned by {
            assert(f(labels[i]) is None);
        }
    }
}

/// In a configuration that is accepted every collection stays inside the
/// repository: its path is relative and never climbs.
pub proof fn law_collections_stay_inside_the_repository(
    config: ServeConfig,
    working_dir: Seq<char>,
    i: int,
)
    requires
        config_error(config, working_dir) is None,
        0 <= i < config.collections@.len(),
    ensures
        !path::is_absolute(config.collections@[i].path@),
        !path::has_parent(config.collections@[i].path@),
{
    let repo = repo_dir(data_dir(config, working_dir));
    let f = |c: CollectionEntry| path_error(repo, c);
    text::lemma_first_some_none(config.collections@, f);
    assert(f(config.collections@[i]) is None);
}

/// Logins are accepted exactly if they ask for the identity and the address, and
/// if the secret has at least 32 bytes.
pub proof fn law_logins_need_an_address_and_a_secret(oidc: OidcSection)
    ensures
        oidc_error(oidc) is None <==> {
            &&& exists|i: int| 0 <= i < oidc.scopes@.len() && (#[trigger] oidc.scopes@[i])@ == "openid"@
            &&& exists|i: int| 0 <= i < oidc.scopes@.len() && (#[trigger] oidc.scopes@[i])@ == "email"@
            &&& text::byte_len(oidc.session_secret@) >= 32
        },
{
    let scopes = text::views(oidc.scopes@);
    if scopes.contains("openid"@) {
        let i = choose|i: int| 0 <= i < scopes.len() && scopes[i] == "openid"@;
        assert(oidc.scopes@[i]@ == "openid"@);
    }
    if scopes.contains("email"@) {
        let i = choose|i: int| 0 <= i < scopes.len() && scopes[i] == "email"@;
        assert(oidc.scopes@[i]@ == "email"@);
    }
    assert forall|i: int| 0 <= i < oidc.scopes@.len() implies scopes.contains(
        (#[trigger] oidc.scopes@[i])@,
    ) by {
        assert(scopes[i] == oidc.scopes@[i]@);
    }
}

/// A deck is accepted exactly if it has a name and each of its members names a
/// collection and a deck.
pub proof fn law_decks_need_a_name_and_members(deck: CustomDeckEntry)
    ensures
        deck_error(deck) is None <==> text::trim(deck.name@).len() > 0 && forall|i: int|
            0 <= i < deck.members@.len() ==> member((#[trigger] deck.members@[i])@) is Some,
{
    let raws = text::views(deck.members@);
    let f = |raw: Seq<char>| member_error(deck.name@, raw);
    text::lemma_first_some_none(raws, f);
    if forall|i: int| 0 <= i < raws.len() ==> f(#[trigger] raws[i]) is None {
        assert forall|i: int| 0 <= i < deck.members@.len() implies member(
            (#[trigger] deck.members@[i])@,
        ) is Some by {
            assert(f(raws[i]) is None);
        }
    }
    if forall|i: int|
        0 <= i < deck.members@.len() ==> member((#[trigger] deck.members@[i])@) is Some {
        assert forall|i: int| 0 <= i < raws.len() implies f(#[trigger] raws[i]) is None by {
            assert(raws[i] == deck.members@[i]@);
        }
    }
}

proof fn lemma_labels(labels: Seq<(Seq<char>, bool)>, owned: bool)
    ensures
        first_label(labels, owned) is None <==> forall|i: int|
            0 <= i < labels.len() ==> (#[trigger] labels[i]).1 != owned,
{
    text::lemma_first_some_none(labels, named_if(owned));
    if forall|i: int| 0 <= i < labels.len() ==> (#[trigger] labels[i]).1 != owned {
        assert forall|i: int| 0 <= i < labels.len() implies named_if(owned)(
            #[trigger] labels[i],
        ) is None by {}
    }
    if first_label(labels, owned) is None {
        assert forall|i: int| 0 <= i < labels.len() implies (#[trigger] labels[i]).1 != owned by {
            assert(named_if(owned)(labels[i]) is None);
        }
    }
}

/// Owners are accepted exactly if there are logins and everything has one, or
/// none and nothing has.
pub proof fn law_owners_are_for_logins(config: ServeConfig)
    ensures
        owner_error(config) is None <==> {
            &&& forall|i: int|
                0 <= i < config.collections@.len() ==> ((
                #[trigger] config.collections@[i]).owner is Some <==> config.oidc is Some)
            &&& forall|i: int|
                0 <= i < config.hedgedoc@.len() ==> ((
                #[trigger] config.hedgedoc@[i]).owner is Some <==> config.oidc is Some)
            &&& forall|i: int|
                0 <= i < config.decks@.len() ==> ((#[trigger] config.decks@[i]).owner is Some
                    <==> config.oidc is Some)
        },
{
    let owned = config.oidc is Some;
    let a = collection_labels(config.collections@);
    let b = hedgedoc_labels(config.hedgedoc@);
    let c = deck_labels(config.decks@);
    lemma_labels(a, !owned);
    lemma_labels(b, !owned);
    lemma_labels(c, !owned);
    assert(owner_error(config) is None <==> first_label(a, !owned) is None && first_label(
        b,
        !owned,
    ) is None && first_label(c, !owned) is None);
    assert((forall|i: int| 0 <= i < a.len() ==> (#[trigger] a[i]).1 == owned) <==> (forall|i: int|
        0 <= i < config.collections@.len() ==> ((
        #[trigger] config.collections@[i]).owner is Some <==> owned))) by {
        assert forall|i: int| 0 <= i < a.len() implies (#[trigger] a[i]).1 == (
        config.collections@[i].owner is Some) by {}
        if forall|i: int| 0 <= i < a.len() ==> (#[trigger] a[i]).1 == owned {
            assert forall|i: int| 0 <= i < config.collections@.len() implies ((
            #[trigger] config.collections@[i]).owner is Some <==> owned) by {
                assert(a[i].1 == owned);
            }
        }
    }
    assert((forall|i: int| 0 <= i < b.len() ==> (#[trigger] b[i]).1 == owned) <==> (forall|i: int|
        0 <= i < config.hedgedoc@.len() ==> ((#[trigger] config.hedgedoc@[i]).owner is Some
            <==> owned))) by {
        assert forall|i: int| 0 <= i < b.len() implies (#[trigger] b[i]).1 == (
        config.hedgedoc@[i].owner is Some) by {}
        if forall|i: int| 0 <= i < b.len() ==> (#[trigger] b[i]).1 == owned {
            assert forall|i: int| 0 <= i < config.hedgedoc@.len() implies ((
            #[trigger] config.hedgedoc@[i]).owner is Some <==> owned) by {
                assert(b[i].1 == owned);
            }
        }
    }
    assert((forall|i: int| 0 <= i < c.len() ==> (#[trigger] c[i]).1 == owned) <==> (forall|i: int|
        0 <= i < config.decks@.len() ==> ((#[trigger] config.decks@[i]).owner is Some
            <==> owned))) by {
        assert forall|i: int| 0 <= i < c.len() implies (#[trigger] c[i]).1 == (
        config.decks@[i].owner is Some) by {}
        if forall|i: int| 0 <= i < c.len() ==> (#[trigger] c[i]).1 == owned {
            assert forall|i: int| 0 <= i < config.decks@.len() implies ((
            #[trigger] config.decks@[i]).owner is Some <==> owned) by {
                assert(c[i].1 == owned);
            }
        }
    }
}

/// A configuration is accepted exactly if every collection lies in the
/// repository, no two have one slug, logins, decks and owners are in order, and a
/// repository that is configured has an address.
pub proof fn law_configurations_are_refused_for_a_reason(
    config: ServeConfig,
    working_dir: Seq<char>,
)
    ensures
        config_error(config, working_dir) is None <==> {
            &&& forall|i: int|
                0 <= i < config.collections@.len() ==> !path::is_absolute(
                    (#[trigger] config.collections@[i]).path@,
                ) && !path::has_parent(config.collections@[i].path@)
            &&& forall|i: int, j: int|
                0 <= j < i < config.collections@.len() ==> slug(
                    (#[trigger] config.collections@[i]).path@,
                ) != slug((#[trigger] config.collections@[j]).path@)
            &&& config.oidc matches Some(o) ==> oidc_error(o) is None
            &&& forall|i: int|
                0 <= i < config.decks@.len() ==> deck_error(#[trigger] config.decks@[i]) is None
            &&& owner_error(config) is None
            &&& config.git matches Some(g) ==> g.repo_url is Some
        },
{
    let repo = repo_dir(data_dir(config, working_dir));
    let cs = config.collections@;
    let ds = config.decks@;
    let f = |c: CollectionEntry| path_error(repo, c);
    let g = |d: CustomDeckEntry| deck_error(d);
    let pairs = cs.map_values(|c: CollectionEntry| (c.name@, slug(c.path@)));
    text::lemma_first_some_none(cs, f);
    text::lemma_first_some_none(ds, g);
    lemma_collision(pairs, 0);
    assert forall|i: int| 0 <= i < cs.len() implies (f(#[trigger] cs[i]) is None
        <==> !path::is_absolute(cs[i].path@) && !path::has_parent(cs[i].path@)) by {}
    assert forall|i: int| 0 <= i < ds.len() implies g(#[trigger] ds[i]) == deck_error(ds[i]) by {}
    assert forall|i: int| 0 <= i < cs.len() implies (#[trigger] pairs[i]).1 == slug(cs[i].path@) by {}
    if forall|i: int, j: int|
        0 <= j < i < pairs.len() && 0 <= i ==> (#[trigger] pairs[i]).1 != (
        #[trigger] pairs[j]).1 {
        assert forall|i: int, j: int| 0 <= j < i < cs.len() implies slug(
            (#[trigger] cs[i]).path@,
        ) != slug((#[trigger] cs[j]).path@) by {
            assert(pairs[i].1 != pairs[j].1);
        }
    }
    if forall|i: int, j: int|
        0 <= j < i < cs.len() ==> slug((#[trigger] cs[i]).path@) != slug(
            (#[trigger] cs[j]).path@,
        ) {
        assert forall|i: int, j: int| 0 <= j < i < pairs.len() && 0 <= i implies (
        #[trigger] pairs[i]).1 != (#[trigger] pairs[j]).1 by {
            assert(slug(cs[i].path@) != slug(cs[j].path@));
        }
    }
}

/// What is served is what is configured: each setting keeps its value, each
/// collection lies where its path says, below the repository, and has a database
/// of its own beside it.
pub proof fn law_settings_are_taken_over(
    config: ServeConfig,
    working_dir: Seq<char>,
    r: ResolvedServeConfig,
    i: int,
)
    requires
        resolves(config, working_dir, r),
        config_error(config, working_dir) is None,
        0 <= i < config.collections@.len(),
        path::is_name(slug(config.collections@[i].path@) + ".db"@),
    ensures
        r.host == config.server.host,
        r.port == config.server.port,
        r.session_timeout_minutes == config.server.session_timeout_minutes,
        r.defaults == config.defaults,
        r.collections@.len() == config.collections@.len(),
        r.collections@[i].name@ == config.collections@[i].name@,
        r.collections@[i].owner is Some <==> config.collections@[i].owner is Some,
        config.collections@[i].owner matches Some(o) ==> (r.collections@[i].owner->0)@
            == text::lowercase(o@),
        path::components(r.collections@[i].coll_dir@) == path::components((r.data_dir->0)@)
            + seq!["repo"@] + path::components(config.collections@[i].path@),
        path::inside(r.collections@[i].db_path@, (r.data_dir->0)@) == Some(
            "db/"@ + slug(config.collections@[i].path@) + ".db"@,
        ),
        r.git is Some <==> config.git is Some,
        r.oidc is Some <==> config.oidc is Some,
{
    let entry = config.collections@[i];
    let data = data_dir(config, working_dir);
    let rc = r.collections@[i];
    assert(resolves_entry(entry, data, rc));
    law_collections_stay_inside_the_repository(config, working_dir, i);
    reveal_strlit("repo");
    reveal_strlit("db");
    reveal_strlit("db/");
    reveal_strlit("/");
    reveal_strlit(".");
    let f = slug(entry.path@) + ".db"@;
    assert("repo"@[0] == 'r' && "repo"@[1] == 'e' && "repo"@[2] == 'p' && "repo"@[3] == 'o');
    assert(!"repo"@.contains('/'));
    assert("db"@[0] == 'd' && "db"@[1] == 'b');
    assert(!"db"@.contains('/'));
    path::lemma_one_component("repo"@);
    path::lemma_one_component("db"@);
    path::lemma_one_component(f);
    path::lemma_joined_components(data, "repo"@);
    path::lemma_joined_components(data, "db"@);
    path::lemma_joined_components(repo_dir(data), entry.path@);
    path::lemma_joined_components(db_dir(data), f);
    path::law_joined_paths_are_absolute_with_their_base(data, "db"@);
    path::law_joined_paths_are_absolute_with_their_base(db_dir(data), f);
    let dir = path::components(data);
    let all = path::components(rc.db_path@);
    let parts = seq!["db"@, f];
    assert(all =~= dir + parts);
    assert(all.take(dir.len() as int) =~= dir);
    assert(all.skip(dir.len() as int) =~= parts);
    assert(parts.drop_last() =~= seq!["db"@]);
    assert(text::join(seq!["db"@], "/"@) == "db"@);
    assert(text::join(parts, "/"@) == "db"@ + "/"@ + f);
    assert("db"@ + "/"@ + f =~= "db/"@ + slug(entry.path@) + ".db"@);
}

/// A relative data directory lies below the working directory; an absolute one is
/// taken as it is.
pub proof fn law_data_lies_below_the_working_directory(
    config: ServeConfig,
    working_dir: Seq<char>,
)
    ensures
        path::is_absolute(config.server.data_dir@) ==> data_dir(config, working_dir)
            == config.server.data_dir@,
        !path::is_absolute(config.server.data_dir@) ==> path::inside(
            data_dir(config, working_dir),
            working_dir,
        ) == Some(text::join(path::components(config.server.data_dir@), "/"@)),
{
    path::law_joined_paths_lie_inside(working_dir, config.server.data_dir@);
}

/// A slug keeps letters, digits and the marks that an address can hold, and puts
/// a dash for everything else.
pub proof fn law_slugs_keep_letters_and_digits(s: Seq<char>, i: int)
    requires
        0 <= i < s.len(),
    ensures
        text::alphanumeric(s[i]) || s[i] == '-' || s[i] == '_' || s[i] == '.' ==> slug(s)[i]
            == s[i],
        !(text::alphanumeric(s[i]) || s[i] == '-' || s[i] == '_' || s[i] == '.') ==> slug(s)[i]
            == '-',
{
}

/// The first path that is refused is told before anything else.
pub proof fn law_the_first_bad_path_is_told(config: ServeConfig, working_dir: Seq<char>, i: int)
    requires
        0 <= i < config.collections@.len(),
        forall|j: int|
            0 <= j < i ==> !path::is_absolute((#[trigger] config.collections@[j]).path@)
                && !path::has_parent(config.collections@[j].path@),
    ensures
        path::is_absolute(config.collections@[i].path@) || path::has_parent(
            config.collections@[i].path@,
        ) ==> config_error(config, working_dir) == path_error(
            repo_dir(data_dir(config, working_dir)),
            config.collections@[i],
        ),
{
    let repo = repo_dir(data_dir(config, working_dir));
    let f = |c: CollectionEntry| path_error(repo, c);
    if path::is_absolute(config.collections@[i].path@) || path::has_parent(
        config.collections@[i].path@,
    ) {
        text::lemma_first_some_at(config.collections@, f, i);
    }
}

/// The logins and the repository that are served are those that are configured,
/// setting by setting, and notes and decks keep what they say; owners are known
/// in lower case.
pub proof fn law_sections_are_taken_over(
    config: ServeConfig,
    working_dir: Seq<char>,
    r: ResolvedServeConfig,
    i: int,
)
    requires
        resolves(config, working_dir, r),
    ensures
        config.oidc matches Some(o) ==> {
            let p = r.oidc->0;
            &&& r.oidc is Some
            &&& p.issuer_url == o.issuer_url
            &&& p.client_id == o.client_id
            &&& p.client_secret == o.client_secret
            &&& p.external_url == o.external_url
            &&& p.session_secret == o.session_secret
            &&& p.scopes == o.scopes
        },
        config.git matches Some(g) ==> {
            let h = r.git->0;
            &&& r.git is Some
            &&& g.repo_url == Some(h.repo_url)
            &&& h.branch == g.branch
            &&& h.poll_interval_minutes == g.poll_interval_minutes
            &&& h.commit_author_name == g.commit_author_name
            &&& h.commit_author_email == g.commit_author_email
            &&& path::components(h.repo_dir@) == path::components((r.data_dir->0)@).push("repo"@)
            &&& path::components(h.db_dir@) == path::components((r.data_dir->0)@).push("db"@)
        },
        r.hedgedoc_entries@.len() == config.hedgedoc@.len(),
        0 <= i < config.hedgedoc@.len() ==> {
            let a = config.hedgedoc@[i];
            let b = r.hedgedoc_entries@[i];
            &&& b.url@ == a.url@
            &&& a.owner is None ==> b.owner is None
            &&& a.owner matches Some(o) ==> b.owner is Some && (b.owner->0)@ == text::lowercase(
                o@,
            )
        },
        r.custom_decks@.len() == config.decks@.len(),
        0 <= i < config.decks@.len() ==> {
            let a = config.decks@[i];
            let b = r.custom_decks@[i];
            &&& b.name@ == a.name@
            &&& b.members@.len() == a.members@.len()
            &&& forall|k: int|
                0 <= k < a.members@.len() ==> (#[trigger] b.members@[k])@ == a.members@[k]@
            &&& a.owner is None ==> b.owner is None
            &&& a.owner matches Some(o) ==> b.owner is Some && (b.owner->0)@ == text::lowercase(
                o@,
            )
        },
{
    let data = data_dir(config, working_dir);
    reveal_strlit("repo");
    reveal_strlit("db");
    reveal_strlit(".");
    assert("repo"@[0] == 'r' && "repo"@[1] == 'e' && "repo"@[2] == 'p' && "repo"@[3] == 'o');
    assert(!"repo"@.contains('/'));
    assert("db"@[0] == 'd' && "db"@[1] == 'b');
    assert(!"db"@.contains('/'));
    path::lemma_one_component("repo"@);
    path::lemma_one_component("db"@);
    path::lemma_joined_components(data, "repo"@);
    path::lemma_joined_components(data, "db"@);
    assert(path::components(repo_dir(data)) =~= path::components(data).push("repo"@));
    assert(path::components(db_dir(data)) =~= path::components(data).push("db"@));
    if 0 <= i < config.hedgedoc@.len() {
        assert(resolves_note(config.hedgedoc@[i], r.hedgedoc_entries@[i]));
    }
    if 0 <= i < config.decks@.len() {
        let a = config.decks@[i];
        let b = r.custom_decks@[i];
        assert(resolves_deck(a, b));
        let x = text::views(a.members@);
        let y = text::views(b.members@);
        assert(x.len() == a.members@.len() && y.len() == b.members@.len());
        assert forall|k: int| 0 <= k < a.members@.len() implies (#[trigger] b.members@[k])@
            == a.members@[k]@ by {
            assert(x[k] == y[k]);
        }
    }
}

} // verus!
