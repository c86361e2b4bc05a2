//! Paths in links.

use vstd::prelude::*;
use crate::percent;
use crate::percent::{percent_encode, Safe};
use crate::text;
use crate::url;

verus! {

/// A relative path of a file as the path of a link. The slashes between its
/// parts stay; what would end the path or change its meaning is encoded.
pub fn encoded_path(rel: &str) -> (result: String)
    ensures
        result@ == percent::encoded(rel@, percent::safe_in(Safe::Path)),
{
    percent_encode(rel, Safe::Path)
}

/// An encoded path ends nowhere early: it holds no question mark, no number
/// sign, no space and no quotation mark.
pub proof fn law_encoded_paths_stay_whole(rel: Seq<char>)
    ensures
        !percent::encoded(rel, percent::safe_in(Safe::Path)).contains('?'),
        !percent::encoded(rel, percent::safe_in(Safe::Path)).contains('#'),
        !percent::encoded(rel, percent::safe_in(Safe::Path)).contains(' '),
        !percent::encoded(rel, percent::safe_in(Safe::Path)).contains('"'),
{
    let safe = percent::safe_in(Safe::Path);
    percent::law_encoded_texts_are_plain(rel, safe);
    let all = percent::encoded(rel, safe);
    assert forall|i: int| 0 <= i < all.len() implies all[i] != '?' && all[i] != '#' && all[i] != ' '
        && all[i] != '"' by {
        assert(percent::is_plain(all[i], safe));
    }
}

/// Whether an address may become a link: only addresses of the web may, for
/// others could run a script.
pub open spec fn is_linkable(address: Seq<char>) -> bool {
    match url::url_text(address) {
        Ok(u) => url::url_scheme(u) == Some("http"@) || url::url_scheme(u) == Some("https"@),
        Err(_) => false,
    }
}

/// The address itself, if it may become a link.
pub fn safe_href<'a>(address: &'a str) -> (result: Option<&'a str>)
    ensures
        match result {
            Some(href) => is_linkable(address@) && href@ == address@,
            None => !is_linkable(address@),
        },
{
    if let Ok(u) = url::parse(address) {
        if let Some(p) = url::parts(u.as_str()) {
            if text::same(p.scheme.as_str(), "http") || text::same(p.scheme.as_str(), "https") {
                return Some(address);
            }
        }
    }
    None
}

/// An address can be a link exactly if it leads to the web.
pub proof fn law_links_lead_to_the_web(address: Seq<char>, u: Seq<char>)
    ensures
        url::url_text(address) is Err ==> !is_linkable(address),
        url::url_text(address) == Ok::<Seq<char>, Seq<char>>(u) ==> (is_linkable(address)
            <==> url::url_scheme(u) == Some("http"@) || url::url_scheme(u) == Some("https"@)),
{
}

} // verus!
