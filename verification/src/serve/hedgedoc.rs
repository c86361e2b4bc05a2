//! Notes on HedgeDoc servers as collections.

use vstd::prelude::*;
use crate::error::{fail, Fallible};
use crate::flash;
use crate::list;
use crate::serve::config;
use crate::serve::config::{slugify, ResolvedCollection};
use crate::serve::source;
use crate::serve::state::HedgedocSource;
use crate::text;
use crate::types::card_hash;
use crate::url;

verus! {

/// The last segment of a path that is not empty.
pub open spec fn last_segment(segments: Option<Seq<Seq<char>>>) -> Option<Seq<char>> {
    match segments {
        Some(all) => {
            let s = list::keep(all, |p: Seq<char>| p.len() > 0);
            if s.len() > 0 {
                Some(s.last())
            } else {
                None
            }
        },
        None => None,
    }
}

/// The last segment of a path that is not empty.
pub fn last_segment_of(segments: &Option<Vec<String>>) -> (result: Option<String>)
    ensures
        text::opt_text(result) == last_segment(url::opt_views(*segments)),
{
    match segments {
        Some(all) => {
            let mut s = source::nonempty(all);
            let ghost v = text::views(s@);
            let last = s.pop();
            proof {
                if v.len() > 0 {
                    assert(v.last() == last->0@);
                }
            }
            last
        },
        None => None,
    }
}

/// The id of the note at an address: the last segment of its path.
pub open spec fn note_id(address: Seq<char>) -> Option<Seq<char>> {
    match url::url_text(address) {
        Ok(u) => last_segment(url::url_segments(u)),
        Err(_) => None,
    }
}

/// The id of the note at an address. Query and fragment do not count.
pub fn note_id_from_url(address: &str) -> (result: Option<String>)
    ensures
        text::opt_text(result) == note_id(address@),
{
    match url::parse(address) {
        Ok(u) => match url::parts(u.as_str()) {
            Some(p) => last_segment_of(&p.segments),
            None => None,
        },
        Err(_) => None,
    }
}

/// The scheme, host and port of an address as one text.
pub open spec fn uri(
    scheme: Option<Seq<char>>,
    host: Option<Seq<char>>,
    port: Option<u16>,
) -> Option<Seq<char>> {
    match (scheme, host) {
        (Some(s), Some(h)) => Some(
            match port {
                Some(p) => s + "://"@ + h + ":"@ + text::decimal(p as nat),
                None => s + "://"@ + h,
            },
        ),
        _ => None,
    }
}

/// The scheme, host and port of an address as one text.
pub fn uri_of(scheme: &str, host: &Option<String>, port: Option<u16>) -> (result: Option<String>)
    ensures
        text::opt_text(result) == uri(Some(scheme@), text::opt_text(*host), port),
{
    match host {
        Some(h) => match port {
            Some(p) => {
                let number = text::decimal_of(p as u64);
                Some(text::cat5(scheme, "://", h.as_str(), ":", number.as_str()))
            },
            None => Some(text::cat3(scheme, "://", h.as_str())),
        },
        None => None,
    }
}

/// Where the note at an address lives.
pub open spec fn source_uri(address: Seq<char>) -> Option<Seq<char>> {
    match url::url_text(address) {
        Ok(u) => uri(url::url_scheme(u), url::url_host(u), url::url_port(u)),
        Err(_) => None,
    }
}

/// Where the note at an address lives.
pub fn source_uri_from_url(address: &str) -> (result: Option<String>)
    ensures
        text::opt_text(result) == source_uri(address@),
{
    match url::parse(address) {
        Ok(u) => match url::parts(u.as_str()) {
            Some(p) => uri_of(p.scheme.as_str(), &p.host, p.port),
            None => None,
        },
        Err(_) => None,
    }
}

/// What is shown for the place where a note lives: its host.
pub open spec fn display_name(source_uri: Seq<char>) -> Seq<char> {
    match url::url_text(source_uri) {
        Ok(u) => match url::url_host(u) {
            Some(h) => h,
            None => source_uri,
        },
        Err(_) => source_uri,
    }
}

/// What is shown for the place where a note lives.
pub fn source_display_name(source_uri: &str) -> (result: String)
    ensures
        result@ == display_name(source_uri@),
{
    if let Ok(u) = url::parse(source_uri) {
        if let Some(p) = url::parts(u.as_str()) {
            if let Some(h) = p.host {
                return h;
            }
        }
    }
    source_uri.to_owned()
}

/// A slug, or the word that stands for an empty one.
pub open spec fn stem(id: Seq<char>) -> Seq<char> {
    if config::slug(id).len() == 0 {
        "note"@
    } else {
        config::slug(id)
    }
}

/// A slug, or the word that stands for an empty one.
pub fn stem_of(id: &str) -> (result: String)
    ensures
        result@ == stem(id@),
{
    let slug = slugify(id);
    if slug.as_str().is_empty() {
        "note".to_owned()
    } else {
        slug
    }
}

/// The id of a note, or its address where it has none.
pub open spec fn id_or_address(address: Seq<char>) -> Seq<char> {
    match note_id(address) {
        Some(id) => id,
        None => address,
    }
}

/// The id of a note, or its address where it has none.
pub fn id_or_address_of(address: &str) -> (result: String)
    ensures
        result@ == id_or_address(address@),
{
    match note_id_from_url(address) {
        Some(id) => id,
        None => address.to_owned(),
    }
}

/// What the slug of a note is made unique by: its owner, if it has one, and
/// its address.
pub open spec fn keyed(address: Seq<char>, owner: Option<Seq<char>>) -> Seq<char> {
    match owner {
        Some(o) => o + "\n"@ + address,
        None => address,
    }
}

/// The slug of a note. It is made from the note and its owner, never from the
/// host, so that two users who add the same note do not share a database.
pub open spec fn note_slug(address: Seq<char>, owner: Option<Seq<char>>) -> Seq<char> {
    "hedgedoc-"@ + stem(id_or_address(address)) + "-"@ + card_hash::short_digest(
        keyed(address, owner),
    )
}

/// A slug tells the digest that it ends in: notes whose keys have different
/// digests have different slugs.
pub proof fn law_slugs_tell_digests(
    a: Seq<char>,
    a_owner: Option<Seq<char>>,
    b: Seq<char>,
    b_owner: Option<Seq<char>>,
)
    requires
        card_hash::short_digest(keyed(a, a_owner)) != card_hash::short_digest(keyed(b, b_owner)),
    ensures
        note_slug(a, a_owner) != note_slug(b, b_owner),
{
    let x = card_hash::short_digest(keyed(a, a_owner));
    let y = card_hash::short_digest(keyed(b, b_owner));
    let s = note_slug(a, a_owner);
    let t = note_slug(b, b_owner);
    card_hash::lemma_short_digest(keyed(a, a_owner));
    card_hash::lemma_short_digest(keyed(b, b_owner));
    assert(s.skip(s.len() - 8) =~= x);
    assert(t.skip(t.len() - 8) =~= y);
}

/// The slug of a note.
pub fn slug_for_note(address: &str, owner: Option<&str>) -> (result: String)
    ensures
        result@ == note_slug(address@, text::opt_str(owner)),
{
    let id = id_or_address_of(address);
    let stem = stem_of(id.as_str());
    let key = match owner {
        Some(o) => text::cat3(o, "\n", address),
        None => address.to_owned(),
    };
    let digits = card_hash::short_digest_of(key.as_str());
    let mut result = text::cat3("hedgedoc-", stem.as_str(), "-");
    result.append(digits.as_str());
    result
}

/// The collection whose slug a new one would take.
pub fn find_slug_collision<'a>(slug: &str, collections: &'a [ResolvedCollection]) -> (result: Option<
    &'a ResolvedCollection,
>)
    ensures
        ({
            let i = config::first_with_slug(config::labelled(collections@), slug@);
            match result {
                Some(c) => 0 <= i < collections@.len() && *c == collections@[i] && c.slug@ == slug@,
                None => forall|j: int|
                    0 <= j < collections@.len() ==> (#[trigger] collections@[j]).slug@ != slug@,
            }
        }),
{
    let i = config::slug_position(collections, slug);
    proof {
        let pairs = config::labelled(collections@);
        config::lemma_first_with_slug(pairs, slug@);
        assert(forall|j: int|
            0 <= j < collections@.len() ==> pairs[j].1 == (#[trigger] collections@[j]).slug@);
    }
    if i < collections.len() {
        Some(&collections[i])
    } else {
        None
    }
}

/// The last place of a slug in a list of labels and slugs; -1 if there is
/// none.
pub open spec fn last_with_slug(pairs: Seq<(Seq<char>, Seq<char>)>, slug: Seq<char>) -> int
    decreases pairs.len(),
{
    if pairs.len() == 0 {
        -1
    } else if pairs.last().1 == slug {
        pairs.len() - 1
    } else {
        last_with_slug(pairs.drop_last(), slug)
    }
}

/// The collections of a server, each with how it is called in a message and
/// with its slug.
pub open spec fn labels_of(collections: Seq<ResolvedCollection>) -> Seq<(Seq<char>, Seq<char>)> {
    collections.map_values(
        |c: ResolvedCollection| ("collection '"@ + c.name@ + "'"@, c.slug@),
    )
}

/// The collections and notes of a server, each with how it is called in a
/// message and with its slug.
pub open spec fn startup_labels(
    collections: Seq<ResolvedCollection>,
    sources: Seq<HedgedocSource>,
) -> Seq<(Seq<char>, Seq<char>)> {
    labels_of(collections) + sources.map_values(
        |s: HedgedocSource| ("HedgeDoc note '"@ + s.note.url@ + "'"@, s.collection.slug@),
    )
}

/// What to do about two notes, or a note and a collection, with one slug.
pub const NOTE_ADVICE: &'static str = "Rename the collection or use a different HedgeDoc source URL so their slugs differ.";

/// The complaint about the first entry, from place `i` of the labels on, whose
/// slug an earlier one has.
pub open spec fn startup_collision(
    pairs: Seq<(Seq<char>, Seq<char>)>,
    i: int,
    advice: Seq<char>,
) -> Option<Seq<char>>
    decreases pairs.len() - i,
{
    if i < 0 || i >= pairs.len() {
        None
    } else {
        let j = last_with_slug(pairs.take(i), pairs[i].1);
        if j >= 0 {
            Some(
                "configuration error: "@ + pairs[j].0 + " and "@ + pairs[i].0
                    + " both map to the URL slug '"@ + pairs[i].1 + "'. "@ + advice,
            )
        } else {
            startup_collision(pairs, i + 1, advice)
        }
    }
}

proof fn lemma_last_with_slug(pairs: Seq<(Seq<char>, Seq<char>)>, slug: Seq<char>)
    ensures
        -1 <= last_with_slug(pairs, slug) < pairs.len(),
        last_with_slug(pairs, slug) >= 0 ==> pairs[last_with_slug(pairs, slug)].1 == slug,
        last_with_slug(pairs, slug) == -1 ==> forall|j: int|
            0 <= j < pairs.len() ==> (#[trigger] pairs[j]).1 != slug,
    decreases pairs.len(),
{
    if pairs.len() > 0 && pairs.last().1 != slug {
        lemma_last_with_slug(pairs.drop_last(), slug);
        if last_with_slug(pairs, slug) == -1 {
            assert forall|j: int| 0 <= j < pairs.len() implies (#[trigger] pairs[j]).1 != slug by {
                if j < pairs.len() - 1 {
                    assert(pairs[j] == pairs.drop_last()[j]);
                }
            }
        }
    }
}

/// The complaint about the first entry, from place `from` on, whose slug an
/// earlier one has.
pub fn collision_from(pairs: &Vec<(String, String)>, from: usize, advice: &str) -> (result: Option<
    String,
>)
    requires
        from <= pairs@.len(),
    ensures
        text::opt_text(result) == startup_collision(
            flash::pair_views(pairs@),
            from as int,
            advice@,
        ),
{
    let ghost all = flash::pair_views(pairs@);
    let mut i: usize = from;
    while i < pairs.len()
        invariant
            from <= i <= pairs@.len(),
            all == flash::pair_views(pairs@),
            startup_collision(all, i as int, advice@) == startup_collision(
                all,
                from as int,
                advice@,
            ),
        decreases pairs@.len() - i,
    {
        let slug = pairs[i].1.as_str();
        let ghost prefix = all.take(i as int);
        let mut j: usize = i;
        proof {
            assert(prefix.take(j as int) == prefix);
            assert(all[i as int] == (pairs@[i as int].0@, pairs@[i as int].1@));
        }
        while j > 0
            invariant
                j <= i < pairs@.len(),
                all == flash::pair_views(pairs@),
                prefix == all.take(i as int),
                all[i as int] == (pairs@[i as int].0@, pairs@[i as int].1@),
                slug@ == all[i as int].1,
                startup_collision(all, i as int, advice@) == startup_collision(
                    all,
                    from as int,
                    advice@,
                ),
                last_with_slug(prefix.take(j as int), slug@) == last_with_slug(prefix, slug@),
            decreases j,
        {
            proof {
                assert(prefix.take(j as int).drop_last() == prefix.take(j - 1));
                assert(prefix.take(j as int).last() == (pairs@[j - 1].0@, pairs@[j - 1].1@));
            }
            if text::same(pairs[j - 1].1.as_str(), slug) {
                let mut message = text::cat7(
                    "configuration error: ",
                    pairs[j - 1].0.as_str(),
                    " and ",
                    pairs[i].0.as_str(),
                    " both map to the URL slug '",
                    slug,
                    "'. ",
                );
                message.append(advice);
                return Some(message);
            }
            j -= 1;
        }
        i += 1;
    }
    None
}

/// How collections are called in a message, with their slugs.
pub fn collection_labels(collections: &[ResolvedCollection]) -> (result: Vec<(String, String)>)
    ensures
        flash::pair_views(result@) == labels_of(collections@),
{
    let ghost all = labels_of(collections@);
    let mut labels: Vec<(String, String)> = Vec::new();
    let mut i: usize = 0;
    proof {
        assert(flash::pair_views(labels@) =~= all.take(0));
    }
    while i < collections.len()
        invariant
            i <= collections@.len(),
            all == labels_of(collections@),
            flash::pair_views(labels@) == all.take(i as int),
        decreases collections@.len() - i,
    {
        let label = text::cat3("collection '", collections[i].name.as_str(), "'");
        let ghost before = labels@;
        labels.push((label, collections[i].slug.clone()));
        proof {
            assert(flash::pair_views(labels@) =~= flash::pair_views(before).push(all[i as int]));
            assert(all.take(i + 1) == all.take(i as int).push(all[i as int]));
        }
        i += 1;
    }
    proof {
        assert(all.take(i as int) == all);
    }
    labels
}

/// Refuses to start with a note whose slug a collection or another note has:
/// it would be drilled and edited against the wrong database.
pub fn check_startup_slug_collisions(
    collections: &[ResolvedCollection],
    sources: &[HedgedocSource],
) -> (result: Fallible<()>)
    ensures
        ({
            let found = startup_collision(
                startup_labels(collections@, sources@),
                collections@.len() as int,
                NOTE_ADVICE@,
            );
            match result {
                Ok(_) => found is None,
                Err(e) => found == Some(e@),
            }
        }),
{
    let ghost pairs = startup_labels(collections@, sources@);
    let ghost n = collections@.len() as int;
    let mut seen = collection_labels(collections);
    let mut k: usize = 0;
    proof {
        assert(flash::pair_views(seen@) =~= pairs.take(n));
    }
    while k < sources.len()
        invariant
            k <= sources@.len(),
            n == collections@.len(),
            pairs == startup_labels(collections@, sources@),
            flash::pair_views(seen@) == pairs.take(n + k),
        decreases sources@.len() - k,
    {
        let label = text::cat3("HedgeDoc note '", sources[k].note.url.as_str(), "'");
        let ghost before = seen@;
        seen.push((label, sources[k].collection.slug.clone()));
        proof {
            assert(flash::pair_views(seen@) =~= flash::pair_views(before).push(pairs[n + k]));
            assert(pairs.take(n + k + 1) == pairs.take(n + k).push(pairs[n + k]));
        }
        k += 1;
    }
    proof {
        assert(pairs.take(n + k) == pairs);
        assert(seen@.len() == flash::pair_views(seen@).len());
    }
    match collision_from(&seen, collections.len(), NOTE_ADVICE) {
        Some(message) => fail(message.as_str()),
        None => Ok(()),
    }
}

/// A server that starts has no two notes with the same slug, and none that
/// shares its slug with a collection.
pub proof fn law_notes_have_their_own_slugs(
    collections: Seq<ResolvedCollection>,
    sources: Seq<HedgedocSource>,
)
    requires
        startup_collision(
            startup_labels(collections, sources),
            collections.len() as int,
            NOTE_ADVICE@,
        ) is None,
    ensures
        forall|i: int, j: int|
            0 <= i < j < sources.len() ==> (#[trigger] sources[i]).collection.slug@ != (
            #[trigger] sources[j]).collection.slug@,
        forall|i: int, j: int|
            0 <= i < collections.len() && 0 <= j < sources.len() ==> (
            #[trigger] collections[i]).slug@ != (#[trigger] sources[j]).collection.slug@,
{
    let pairs = startup_labels(collections, sources);
    let n = collections.len() as int;
    lemma_no_startup_collision(pairs, n, NOTE_ADVICE@);
    assert forall|i: int, j: int| 0 <= i < j < sources.len() implies (
    #[trigger] sources[i]).collection.slug@ != (#[trigger] sources[j]).collection.slug@ by {
        assert(pairs[n + i].1 != pairs[n + j].1);
    }
    assert forall|i: int, j: int|
        0 <= i < collections.len() && 0 <= j < sources.len() implies (
    #[trigger] collections[i]).slug@ != (#[trigger] sources[j]).collection.slug@ by {
        assert(pairs[i].1 != pairs[n + j].1);
    }
}

/// Where there is no complaint, the slugs are distinct.
pub proof fn lemma_no_startup_collision(
    pairs: Seq<(Seq<char>, Seq<char>)>,
    from: int,
    advice: Seq<char>,
)
    requires
        0 <= from <= pairs.len(),
        startup_collision(pairs, from, advice) is None,
    ensures
        forall|i: int, j: int|
            0 <= i < j < pairs.len() && from <= j ==> (#[trigger] pairs[i]).1 != (
            #[trigger] pairs[j]).1,
    decreases pairs.len() - from,
{
    if from < pairs.len() {
        lemma_last_with_slug(pairs.take(from), pairs[from].1);
        lemma_no_startup_collision(pairs, from + 1, advice);
        assert forall|i: int, j: int| 0 <= i < j < pairs.len() && from <= j implies (
        #[trigger] pairs[i]).1 != (#[trigger] pairs[j]).1 by {
            if j == from {
                assert(pairs.take(from)[i] == pairs[i]);
            }
        }
    }
}

/// What is wrong with an address as that of a note. Only secure addresses are
/// fetched.
pub open spec fn address_error(address: Seq<char>) -> Option<Seq<char>> {
    match url::url_text(address) {
        Err(e) => Some("Invalid HedgeDoc URL `"@ + address + "`: "@ + e),
        Ok(u) => if url::url_scheme(u) == Some("https"@) {
            None
        } else {
            Some("HedgeDoc URLs must use HTTPS (got: "@ + address + ")"@)
        },
    }
}

fn invalid_url(address: &str, error: &str) -> (result: String)
    ensures
        result@ == "Invalid HedgeDoc URL `"@ + address@ + "`: "@ + error@,
{
    let mut message = text::cat3("Invalid HedgeDoc URL `", address, "`: ");
    message.append(error);
    message
}

fn is_secure(u: &str) -> (result: bool)
    ensures
        result == (url::url_scheme(u@) == Some("https"@)),
{
    match url::parts(u) {
        Some(p) => text::same(p.scheme.as_str(), "https"),
        None => false,
    }
}

/// Refuses an address that is not safe to fetch.
pub fn validate_hedgedoc_url(address: &str) -> (result: Fallible<()>)
    ensures
        match result {
            Ok(_) => address_error(address@) is None,
            Err(e) => address_error(address@) == Some(e@),
        },
{
    match url::parse(address) {
        Err(e) => {
            let message = invalid_url(address, e.as_str());
            fail(message.as_str())
        },
        Ok(u) => if is_secure(u.as_str()) {
            Ok(())
        } else {
            let message = text::cat3("HedgeDoc URLs must use HTTPS (got: ", address, ")");
            fail(message.as_str())
        },
    }
}

/// The form in which the address of a note is kept: without query, fragment
/// and trailing slash.
pub open spec fn kept_form(u: Seq<char>) -> Seq<char> {
    let b = url::bare(u);
    url::or_same(url::url_popped(b), b)
}

/// Brings the address of a note that a user gave into the form in which it is
/// kept, so that equal notes have equal addresses. The result has no query and
/// no fragment.
pub fn normalize_hedgedoc_url(raw: &str) -> (result: Fallible<String>)
    ensures
        ({
            let t = text::trim(raw@);
            match result {
                Ok(r) => {
                    &&& address_error(t) is None
                    &&& url::url_text(t) matches Ok(u) && r@ == kept_form(u)
                    &&& !r@.contains('?') && !r@.contains('#')
                },
                Err(e) => address_error(t) == Some(e@),
            }
        }),
{
    let trimmed = text::trim_of(raw);
    match url::parse(trimmed) {
        Err(e) => {
            let message = invalid_url(trimmed, e.as_str());
            fail(message.as_str())
        },
        Ok(u) => {
            if !is_secure(u.as_str()) {
                let message = text::cat3("HedgeDoc URLs must use HTTPS (got: ", trimmed, ")");
                return fail(message.as_str());
            }
            let b = url::bare_of(u.as_str());
            match url::popped(b.as_str()) {
                Some(t) => Ok(t),
                None => Ok(b),
            }
        },
    }
}

/// The path of a published note without the `s` in front of it, where there is
/// one.
pub open spec fn unshared(segments: Option<Seq<Seq<char>>>) -> Option<Seq<char>> {
    match segments {
        Some(all) => {
            let s = list::keep(all, |p: Seq<char>| p.len() > 0);
            if s.len() >= 2 && s[0] == "s"@ {
                Some("/"@ + text::join(s.skip(1), "/"@))
            } else {
                None
            }
        },
        None => None,
    }
}

/// The path of a published note without the `s` in front of it.
pub fn unshared_path(segments: &Option<Vec<String>>) -> (result: Option<String>)
    ensures
        text::opt_text(result) == unshared(url::opt_views(*segments)),
{
    match segments {
        Some(all) => {
            let s = source::nonempty(all);
            let ghost v = text::views(s@);
            if s.len() >= 2 && text::same(s[0].as_str(), "s") {
                proof {
                    assert(v[0] == s@[0]@);
                    assert(v.subrange(1, v.len() as int) == v.skip(1));
                }
                let joined = text::joined_range(&s, 1, s.len(), "/");
                Some(text::cat2("/", joined.as_str()))
            } else {
                proof {
                    if s@.len() >= 2 {
                        assert(v[0] == s@[0]@);
                    }
                }
                None
            }
        },
        None => None,
    }
}

/// An address with its published-note prefix taken off.
pub open spec fn unpublished(b: Seq<char>) -> Seq<char> {
    match unshared(url::url_segments(b)) {
        Some(p) => url::or_same(url::url_with_path(b, p), b),
        None => b,
    }
}

/// The address from which the text of the note at `u` is downloaded, if its
/// path can be changed and there is room for that.
pub open spec fn download(u: Seq<char>) -> Option<Seq<char>> {
    let b = url::bare(u);
    let p = unpublished(b);
    match url::url_popped(p) {
        Some(popped) => if (unshared(url::url_segments(b)) matches Some(path) ==> url::roomy(
            b,
            path,
        )) && url::roomy(popped, "download"@) {
            url::url_pushed(popped, "download"@)
        } else {
            None
        },
        None => None,
    }
}

/// The address from which the text of a note is downloaded. A published note
/// is served under `s`, but downloaded from the path without it.
pub fn build_download_url(address: &str) -> (result: Fallible<String>)
    ensures
        match url::url_text(address@) {
            Err(e) => result matches Err(r) && r@ == "Invalid HedgeDoc URL `"@ + address@ + "`: "@
                + e,
            Ok(u) => match download(u) {
                Some(t) => result matches Ok(r) && r@ == t,
                None => result matches Err(r) && r@ == "Cannot modify path for HedgeDoc URL `"@
                    + address@ + "`"@,
            },
        },
{
    match url::parse(address) {
        Err(e) => {
            let message = invalid_url(address, e.as_str());
            fail(message.as_str())
        },
        Ok(u) => {
            let b = url::bare_of(u.as_str());
            match download_from(b.as_str()) {
                Some(t) => Ok(t),
                None => {
                    let message = text::cat3("Cannot modify path for HedgeDoc URL `", address, "`");
                    fail(message.as_str())
                },
            }
        },
    }
}

fn download_from(b: &str) -> (result: Option<String>)
    ensures
        forall|u: Seq<char>|
            #![trigger download(u)]
            url::bare(u) == b@ ==> text::opt_text(result) == download(u),
{
    let path = match url::parts(b) {
        Some(p) => unshared_path(&p.segments),
        None => None,
    };
    let p = match path {
        Some(path) => {
            if !url::has_room(b, path.as_str()) {
                return None;
            }
            match url::with_path(b, path.as_str()) {
                Some(t) => t,
                None => b.to_owned(),
            }
        },
        None => b.to_owned(),
    };
    match url::popped(p.as_str()) {
        None => None,
        Some(popped) => {
            if !url::has_room(popped.as_str(), "download") {
                return None;
            }
            url::pushed(popped.as_str(), "download")
        },
    }
}

/// Decides on the answer to a download. A note that may be read but not edited
/// is answered with a page, which must not be taken for its text.
pub fn check_answer(success: bool, status: &str, content_type: &str, download_url: &str) -> (result:
    Fallible<()>)
    ensures
        match result {
            Ok(_) => success && !text::starts_with(content_type@, "text/html"@),
            Err(e) => {
                ||| !success && e@ == "HedgeDoc fetch returned HTTP "@ + status@ + " for "@
                    + download_url@
                ||| success && text::starts_with(content_type@, "text/html"@) && e@
                    == "HedgeDoc returned an HTML page for "@ + download_url@
                    + " \u{2014} the note's permission level may require sign-in to download (try setting the note to \"Freely\" or \"Editable\" in HedgeDoc)"@
            },
        },
{
    if !success {
        let mut message = text::cat3("HedgeDoc fetch returned HTTP ", status, " for ");
        message.append(download_url);
        return fail(message.as_str());
    }
    if text::has_prefix(content_type, "text/html") {
        let message = text::cat3(
            "HedgeDoc returned an HTML page for ",
            download_url,
            " \u{2014} the note's permission level may require sign-in to download (try setting the note to \"Freely\" or \"Editable\" in HedgeDoc)",
        );
        return fail(message.as_str());
    }
    Ok(())
}

/// A note is known by the last segment of its address that is not empty.
pub proof fn law_notes_are_known_by_their_last_segment(
    front: Seq<Seq<char>>,
    id: Seq<char>,
    scheme: Seq<char>,
    host: Seq<char>,
    port: u16,
)
    requires
        id.len() > 0,
    ensures
        last_segment(Some(front.push(id))) == Some(id),
        last_segment(Some(front.push(id).push(Seq::empty()))) == Some(id),
        last_segment(Some(Seq::empty())) is None,
        last_segment(None) is None,
        uri(Some(scheme), Some(host), None) == Some(scheme + "://"@ + host),
        uri(Some(scheme), Some(host), Some(port)) == Some(
            scheme + "://"@ + host + ":"@ + text::decimal(port as nat),
        ),
        uri(Some(scheme), None, Some(port)) is None,
        uri(None, Some(host), Some(port)) is None,
{
    let p = |x: Seq<char>| x.len() > 0;
    let s = front.push(id);
    let none = Seq::<char>::empty();
    assert(s.drop_last() =~= front);
    assert(s.push(none).drop_last() =~= s);
    assert(list::keep(s, p) == list::keep(front, p).push(id));
    assert(list::keep(s.push(none), p) == list::keep(s, p));
}

/// A shared note is fetched by its own address: the leading `s` goes, and the
/// rest of the path is kept; other addresses are no shared notes.
pub proof fn law_shared_notes_lose_their_mark(rest: Seq<Seq<char>>, first: Seq<char>)
    requires
        rest.len() > 0,
        forall|i: int| 0 <= i < rest.len() ==> (#[trigger] rest[i]).len() > 0,
        first.len() > 0,
    ensures
        unshared(Some(seq!["s"@] + rest)) == Some("/"@ + text::join(rest, "/"@)),
        first != "s"@ ==> unshared(Some(seq![first] + rest)) is None,
        unshared(Some(seq!["s"@])) is None,
        unshared(None) is None,
{
    reveal_strlit("s");
    let p = |x: Seq<char>| x.len() > 0;
    let s = seq!["s"@] + rest;
    list::lemma_keep_everything(s, p);
    assert(s.skip(1) =~= rest);
    list::lemma_keep_everything(seq![first] + rest, p);
    list::lemma_keep_everything(seq!["s"@], p);
}

/// The address of a note is accepted exactly if it is one and goes over HTTPS.
pub proof fn law_notes_are_fetched_over_https(address: Seq<char>)
    ensures
        address_error(address) is None <==> url::url_text(address) is Ok && url::url_scheme(
            url::url_text(address)->Ok_0,
        ) == Some("https"@),
{
}

/// Two owners of one note have two keys, as have two notes of one owner.
pub proof fn law_keys_tell_notes_apart(
    a: Seq<char>,
    b: Seq<char>,
    owner: Seq<char>,
    other: Seq<char>,
)
    requires
        !owner.contains('\n'),
        !other.contains('\n'),
        keyed(a, Some(owner)) == keyed(b, Some(other)),
    ensures
        a == b,
        owner == other,
        keyed(a, None) == a,
{
    reveal_strlit("\n");
    let x = owner + "\n"@ + a;
    let y = other + "\n"@ + b;
    assert(x[owner.len() as int] == '\n');
    assert(y[other.len() as int] == '\n');
    if owner.len() < other.len() {
        assert(other[owner.len() as int] == '\n');
    }
    if other.len() < owner.len() {
        assert(owner[other.len() as int] == '\n');
    }
    assert(x.take(owner.len() as int) =~= owner);
    assert(y.take(other.len() as int) =~= other);
    assert(x.skip(owner.len() as int + 1) =~= a);
    assert(y.skip(other.len() as int + 1) =~= b);
}

/// Where no two slugs agree there is no collision.
pub proof fn law_distinct_slugs_do_not_collide(
    pairs: Seq<(Seq<char>, Seq<char>)>,
    from: int,
    advice: Seq<char>,
)
    requires
        0 <= from <= pairs.len(),
        forall|i: int, j: int|
            0 <= i < j < pairs.len() ==> (#[trigger] pairs[i]).1 != (#[trigger] pairs[j]).1,
    ensures
        startup_collision(pairs, from, advice) is None,
    decreases pairs.len() - from,
{
    if from < pairs.len() {
        lemma_last_with_slug(pairs.take(from), pairs[from].1);
        let j = last_with_slug(pairs.take(from), pairs[from].1);
        if j >= 0 {
            assert(pairs.take(from)[j] == pairs[j]);
        }
        law_distinct_slugs_do_not_collide(pairs, from + 1, advice);
    }
}

/// The slug of a note says what it is and holds the note's identifier.
pub proof fn law_note_slugs_hold_the_identifier(address: Seq<char>, owner: Option<Seq<char>>)
    ensures
        config::slug(id_or_address(address)).len() > 0 ==> text::starts_with(
            note_slug(address, owner),
            "hedgedoc-"@ + config::slug(id_or_address(address)) + "-"@,
        ),
        text::ends_with(
            note_slug(address, owner),
            card_hash::short_digest(keyed(address, owner)),
        ),
{
    let head = "hedgedoc-"@ + stem(id_or_address(address)) + "-"@;
    let tail = card_hash::short_digest(keyed(address, owner));
    text::law_beginnings_and_ends_are_found(head, tail, tail);
}

/// A note is downloaded from beside it: of its address, without what makes it a
/// shared one, the last segment goes and the word `download` comes.
pub proof fn law_notes_are_downloaded_from_beside(u: Seq<char>, b: Seq<char>)
    ensures
        unshared(url::url_segments(b)) is None ==> unpublished(b) == b,
        unshared(url::url_segments(b)) matches Some(p) ==> (url::url_with_path(b, p) matches Some(
            w,
        ) ==> unpublished(b) == w),
        download(u) matches Some(d) ==> (url::url_popped(unpublished(url::bare(u))) is Some
            && url::url_pushed(url::url_popped(unpublished(url::bare(u)))->0, "download"@) == Some(
            d,
        )),
        url::url_popped(unpublished(url::bare(u))) is None ==> download(u) is None,
{
}

} // verus!
