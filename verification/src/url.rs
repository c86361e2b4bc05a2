//! Web addresses.
//!
//! An address is handed around as text, in the form that it is serialized to.

use vstd::prelude::*;
use crate::text;

verus! {

/// What parsing a text as an address gives: the address as it is serialized,
/// or what is wrong with the text.
pub uninterp spec fn url_text(s: Seq<char>) -> Result<Seq<char>, Seq<char>>;

/// The scheme of an address; `None` for a text that is none.
pub uninterp spec fn url_scheme(u: Seq<char>) -> Option<Seq<char>>;

/// The host of an address, if it has one.
pub uninterp spec fn url_host(u: Seq<char>) -> Option<Seq<char>>;

/// The port of an address, where it is not the one of its scheme.
pub uninterp spec fn url_port(u: Seq<char>) -> Option<u16>;

/// The segments of the path of an address, if its path is made of such.
pub uninterp spec fn url_segments(u: Seq<char>) -> Option<Seq<Seq<char>>>;

/// An address without its query.
pub uninterp spec fn url_sans_query(u: Seq<char>) -> Option<Seq<char>>;

/// An address without its fragment.
pub uninterp spec fn url_sans_fragment(u: Seq<char>) -> Option<Seq<char>>;

/// An address without an empty last segment.
pub uninterp spec fn url_popped(u: Seq<char>) -> Option<Seq<char>>;

/// An address with one more segment.
pub uninterp spec fn url_pushed(u: Seq<char>, segment: Seq<char>) -> Option<Seq<char>>;

/// An address with another path.
pub uninterp spec fn url_with_path(u: Seq<char>, path: Seq<char>) -> Option<Seq<char>>;

/// An address with another host.
pub uninterp spec fn url_with_host(u: Seq<char>, host: Seq<char>) -> Option<Seq<char>>;

/// The parts of an address.
pub struct UrlParts {
    pub scheme: String,
    pub host: Option<String>,
    pub port: Option<u16>,
    pub segments: Option<Vec<String>>,
}

/// The texts of a list of segments.
pub open spec fn opt_views(v: Option<Vec<String>>) -> Option<Seq<Seq<char>>> {
    match v {
        Some(v) => Some(text::views(v@)),
        None => None,
    }
}

/// `Url::parse` reads an address, and `to_string` writes it in the form it is
/// kept in, which can be read again: that an address can be read from its own
/// serialization is an invariant of `Url`. What is wrong with a text is told in
/// the words of `ParseError`.
#[verifier::external_body]
pub(crate) fn parse(s: &str) -> (result: Result<String, String>)
    ensures
        match result {
            Ok(u) => url_text(s@) == Ok::<Seq<char>, Seq<char>>(u@),
            Err(e) => url_text(s@) == Err::<Seq<char>, Seq<char>>(e@),
        },
        result matches Ok(u) ==> url_text(u@) is Ok,
{
    match reqwest::Url::parse(s) {
        Ok(url) => Ok(url.to_string()),
        Err(e) => Err(e.to_string()),
    }
}

/// `Url::scheme`, `Url::host_str`, `Url::port` and `Url::path_segments` read
/// the parts of an address. Only that they are functions of the address, and
/// that a text has them where it can be read as one, is said of them.
#[verifier::external_body]
pub(crate) fn parts(u: &str) -> (result: Option<UrlParts>)
    ensures
        match result {
            Some(p) => url_scheme(u@) == Some(p.scheme@) && url_host(u@) == text::opt_text(p.host)
                && url_port(u@) == p.port && url_segments(u@) == opt_views(p.segments),
            None => url_scheme(u@) is None && url_host(u@) is None && url_port(u@) is None
                && url_segments(u@) is None,
        },
        result is Some <==> url_text(u@) is Ok,
{
    let url = reqwest::Url::parse(u).ok()?;
    Some(UrlParts {
        scheme: url.scheme().to_string(),
        host: url.host_str().map(|h| h.to_string()),
        port: url.port(),
        segments: url.path_segments().map(|s| s.map(|p| p.to_string()).collect()),
    })
}

/// `Url::set_query(None)` cuts the query off. A question mark that is left
/// stands behind a number sign, that is, in the fragment: everywhere else it
/// would have begun the query. What is left can be read again, and has the host
/// and the path it had.
#[verifier::external_body]
pub(crate) fn sans_query(u: &str) -> (result: Option<String>)
    ensures
        text::opt_text(result) == url_sans_query(u@),
        result is Some <==> url_text(u@) is Ok,
        result matches Some(t) ==> url_text(t@) is Ok && url_host(t@) == url_host(u@)
            && url_segments(t@) == url_segments(u@),
        result matches Some(t) ==> forall|i: int|
            0 <= i < t@.len() && t@[i] == '?' ==> text::first_index(t@, '#') < i,
{
    let mut url = reqwest::Url::parse(u).ok()?;
    url.set_query(None);
    Some(url.to_string())
}

/// `Url::set_fragment(None)` cuts the fragment off. No number sign is left:
/// everywhere else it would have begun the fragment. There is a query to be
/// left only where a question mark stands before the first number sign. What is
/// left can be read again, and has the host and the path it had.
#[verifier::external_body]
pub(crate) fn sans_fragment(u: &str) -> (result: Option<String>)
    ensures
        text::opt_text(result) == url_sans_fragment(u@),
        result is Some <==> url_text(u@) is Ok,
        result matches Some(t) ==> url_text(t@) is Ok && url_host(t@) == url_host(u@)
            && url_segments(t@) == url_segments(u@),
        result matches Some(t) ==> !t@.contains('#'),
        result matches Some(t) ==> (forall|i: int|
            0 <= i < u@.len() && u@[i] == '?' ==> text::first_index(u@, '#') < i)
            ==> !t@.contains('?'),
{
    let mut url = reqwest::Url::parse(u).ok()?;
    url.set_fragment(None);
    Some(url.to_string())
}

/// `PathSegmentsMut::pop_if_empty` takes an empty last segment away, that is,
/// the slash at the end of a path. An address that has neither query nor
/// fragment gets none by this.
#[verifier::external_body]
pub(crate) fn popped(u: &str) -> (result: Option<String>)
    ensures
        text::opt_text(result) == url_popped(u@),
        result matches Some(t) ==> !u@.contains('?') && !u@.contains('#') ==> !t@.contains('?')
            && !t@.contains('#'),
{
    let mut url = reqwest::Url::parse(u).ok()?;
    url.path_segments_mut().ok()?.pop_if_empty();
    Some(url.to_string())
}

/// Whether an address has room for a text. The parts of an address are found by
/// offsets of 32 bits, and the operations that lengthen it stop the program when
/// the result does not fit into them. A byte of the text takes three at most,
/// and some more are for what stands around it.
pub open spec fn roomy(u: Seq<char>, piece: Seq<char>) -> bool {
    url_text(u) matches Ok(t) ==> text::byte_len(t) + 3 * text::byte_len(piece) + 64 <= u32::MAX
}

/// Whether an address has room for a text.
pub fn has_room(u: &str, piece: &str) -> (result: bool)
    ensures
        result == roomy(u@, piece@),
{
    match parse(u) {
        Ok(t) => {
            let taken: u128 = text::byte_length(t.as_str()) as u128;
            let added: u128 = 3 * (text::byte_length(piece) as u128);
            taken + added + 64 <= u32::MAX as u128
        },
        Err(_) => true,
    }
}

/// Whether every character of a text is an ASCII character.
pub fn is_plain(s: &str) -> (result: bool)
    ensures
        result == text::all_ascii(s@),
{
    let v = text::chars_of(s);
    let mut i: usize = 0;
    while i < v.len()
        invariant
            v@ == s@,
            i <= v@.len(),
            forall|j: int| 0 <= j < i ==> (#[trigger] s@[j] as u32) < 128,
        decreases v@.len() - i,
    {
        if v[i] as u32 >= 128 {
            proof {
                assert((s@[i as int] as u32) >= 128);
            }
            return false;
        }
        i += 1;
    }
    true
}

/// `PathSegmentsMut::push` adds a segment to the path.
#[verifier::external_body]
pub(crate) fn pushed(u: &str, segment: &str) -> (result: Option<String>)
    requires
        roomy(u@, segment@),
    ensures
        text::opt_text(result) == url_pushed(u@, segment@),
{
    let mut url = reqwest::Url::parse(u).ok()?;
    url.path_segments_mut().ok()?.push(segment);
    Some(url.to_string())
}

/// `Url::set_path` replaces the path.
#[verifier::external_body]
pub(crate) fn with_path(u: &str, path: &str) -> (result: Option<String>)
    requires
        roomy(u@, path@),
    ensures
        text::opt_text(result) == url_with_path(u@, path@),
{
    let mut url = reqwest::Url::parse(u).ok()?;
    url.set_path(path);
    Some(url.to_string())
}

/// `Url::set_host` replaces the host, if it can be one. It is asked for hosts in
/// ASCII alone, which do not grow when they are brought into the form of an
/// address.
#[verifier::external_body]
pub(crate) fn with_host(u: &str, host: &str) -> (result: Option<String>)
    requires
        roomy(u@, host@),
        text::all_ascii(host@),
    ensures
        text::opt_text(result) == url_with_host(u@, host@),
{
    let mut url = reqwest::Url::parse(u).ok()?;
    url.set_host(Some(host)).ok()?;
    Some(url.to_string())
}

/// What an operation gives for an address, or the address itself.
pub open spec fn or_same(changed: Option<Seq<char>>, u: Seq<char>) -> Seq<char> {
    match changed {
        Some(t) => t,
        None => u,
    }
}

/// An address without its query and its fragment.
pub open spec fn bare(u: Seq<char>) -> Seq<char> {
    let v = or_same(url_sans_query(u), u);
    or_same(url_sans_fragment(v), v)
}

/// Takes the query and the fragment off an address.
pub fn bare_of(u: &str) -> (result: String)
    ensures
        result@ == bare(u@),
        url_text(u@) is Ok ==> {
            &&& !result@.contains('?')
            &&& !result@.contains('#')
            &&& url_text(result@) is Ok
            &&& url_host(result@) == url_host(u@)
            &&& url_segments(result@) == url_segments(u@)
        },
{
    let v = match sans_query(u) {
        Some(t) => t,
        None => u.to_owned(),
    };
    match sans_fragment(v.as_str()) {
        Some(t) => t,
        None => v,
    }
}

} // verus!
