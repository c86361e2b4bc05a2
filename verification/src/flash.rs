//! Messages that are shown once, after a redirect.

use vstd::prelude::*;
use crate::percent;
use crate::percent::Safe;
use crate::text;

verus! {

/// Whether a message reports success or an error.
#[derive(Clone, Copy, Debug, PartialEq, Eq, Structural)]
pub enum FlashKind {
    Success,
    Error,
}

/// A message that travels across a redirect in the query of its target.
pub struct Flash {
    pub kind: FlashKind,
    pub message: String,
}

/// The word for a kind of message in a query.
pub open spec fn kind_text(kind: FlashKind) -> Seq<char> {
    match kind {
        FlashKind::Success => "success"@,
        FlashKind::Error => "error"@,
    }
}

/// A message as a query value.
pub open spec fn query_value(s: Seq<char>) -> Seq<char> {
    percent::encoded(s, percent::safe_in(Safe::Alphanumeric))
}

/// The target of a redirect to `to` that carries a message.
pub open spec fn flash_url(kind: FlashKind, message: Seq<char>, to: Seq<char>) -> Seq<char> {
    to + (if to.contains('?') {
        "&flash="@
    } else {
        "?flash="@
    }) + query_value(message) + "&kind="@ + kind_text(kind)
}

/// The texts of the pairs of a query.
pub open spec fn pair_views(query: Seq<(String, String)>) -> Seq<(Seq<char>, Seq<char>)> {
    query.map_values(|p: (String, String)| (p.0@, p.1@))
}

/// The value of a key in a query: that of the last pair with the key.
pub open spec fn query_get(query: Seq<(Seq<char>, Seq<char>)>, key: Seq<char>) -> Option<Seq<char>>
    decreases query.len(),
{
    if query.len() == 0 {
        None
    } else if query.last().0 == key {
        Some(query.last().1)
    } else {
        query_get(query.drop_last(), key)
    }
}

/// The value of a key in a query.
pub fn query_value_of(query: &Vec<(String, String)>, key: &str) -> (result: Option<String>)
    ensures
        text::opt_text(result) == query_get(pair_views(query@), key@),
{
    let ghost views = pair_views(query@);
    let mut i: usize = query.len();
    proof {
        assert(views.take(i as int) == views);
    }
    while i > 0
        invariant
            i <= query@.len(),
            views == pair_views(query@),
            query_get(views.take(i as int), key@) == query_get(views, key@),
        decreases i,
    {
        proof {
            assert(views.take(i as int).drop_last() == views.take(i - 1));
            assert(views.take(i as int).last() == (query@[i - 1].0@, query@[i - 1].1@));
        }
        if text::same(query[i - 1].0.as_str(), key) {
            return Some(query[i - 1].1.clone());
        }
        i -= 1;
    }
    None
}

impl Flash {
    /// A message that reports success.
    pub fn success(message: &str) -> (result: Flash)
        ensures
            result.kind == FlashKind::Success,
            result.message@ == message@,
    {
        Flash { kind: FlashKind::Success, message: message.to_owned() }
    }

    /// A message that reports an error.
    pub fn error(message: &str) -> (result: Flash)
        ensures
            result.kind == FlashKind::Error,
            result.message@ == message@,
    {
        Flash { kind: FlashKind::Error, message: message.to_owned() }
    }

    /// The word for the kind of the message.
    pub fn kind_str(&self) -> (result: &'static str)
        ensures
            result@ == kind_text(self.kind),
    {
        match self.kind {
            FlashKind::Success => "success",
            FlashKind::Error => "error",
        }
    }

    /// The target of a redirect to `to` that carries the message.
    pub fn redirect_url(&self, to: &str) -> (result: String)
        ensures
            result@ == flash_url(self.kind, self.message@, to@),
    {
        let encoded = percent::percent_encode(self.message.as_str(), Safe::Alphanumeric);
        text::cat5(
            to,
            if text::has_char(to, '?') { "&flash=" } else { "?flash=" },
            encoded.as_str(),
            "&kind=",
            self.kind_str(),
        )
    }

    /// The message in a query whose values are decoded. A kind that is not
    /// known counts as an error.
    pub fn from_query(query: &Vec<(String, String)>) -> (result: Option<Flash>)
        ensures
            match query_get(pair_views(query@), "flash"@) {
                Some(message) => result matches Some(f) && f.message@ == message && f.kind == if
                    query_get(pair_views(query@), "kind"@) == Some("success"@) {
                    FlashKind::Success
                } else {
                    FlashKind::Error
                },
                None => result is None,
            },
    {
        match query_value_of(query, "flash") {
            None => None,
            Some(message) => {
                let kind = match query_value_of(query, "kind") {
                    Some(word) => if text::same(word.as_str(), "success") {
                        FlashKind::Success
                    } else {
                        FlashKind::Error
                    },
                    None => FlashKind::Error,
                };
                Some(Flash { kind, message })
            },
        }
    }

    /// The CSS class of the banner.
    pub fn css_class(&self) -> (result: &'static str)
        ensures
            result@ == match self.kind {
                FlashKind::Success => "flash flash-success"@,
                FlashKind::Error => "flash flash-error"@,
            },
    {
        match self.kind {
            FlashKind::Success => "flash flash-success",
            FlashKind::Error => "flash flash-error",
        }
    }
}

/// A message comes out of a redirect as it went in: decoding the value in the
/// query gives its bytes, and its kind is the one it had.
pub proof fn law_flash_survives_a_redirect(kind: FlashKind, message: Seq<char>)
    ensures
        percent::decoded(query_value(message)) == vstd::utf8::encode_utf8(message),
        (kind_text(kind) == "success"@) <==> kind == FlashKind::Success,
{
    percent::law_encoding_can_be_undone(message, percent::safe_in(Safe::Alphanumeric));
    reveal_strlit("success");
    reveal_strlit("error");
    assert("success"@.len() == 7);
    assert("error"@.len() == 5);
}

/// Of the pairs with a key the last one counts, and there is a value if and only
/// if there is such a pair.
pub proof fn law_the_last_value_counts(
    before: Seq<(Seq<char>, Seq<char>)>,
    key: Seq<char>,
    value: Seq<char>,
    behind: Seq<(Seq<char>, Seq<char>)>,
)
    requires
        forall|i: int| 0 <= i < behind.len() ==> (#[trigger] behind[i]).0 != key,
    ensures
        query_get(before.push((key, value)) + behind, key) == Some(value),
        query_get(behind, key) is None,
    decreases behind.len(),
{
    let all = before.push((key, value)) + behind;
    if behind.len() > 0 {
        let rest = behind.drop_last();
        assert forall|i: int| 0 <= i < rest.len() implies (#[trigger] rest[i]).0 != key by {
            assert(rest[i] == behind[i]);
        }
        law_the_last_value_counts(before, key, value, rest);
        assert(all.drop_last() =~= before.push((key, value)) + rest);
        assert(all.last() == behind[behind.len() - 1]);
    } else {
        assert(all =~= before.push((key, value)));
    }
}

/// A redirect goes where it was told to, and the message is the first thing that
/// is added to the query.
pub proof fn law_redirects_keep_their_target(kind: FlashKind, message: Seq<char>, to: Seq<char>)
    ensures
        ({
            let url = flash_url(kind, message, to);
            &&& text::starts_with(url, to)
            &&& url.len() > to.len() && url[to.len() as int] == if to.contains('?') {
                '&'
            } else {
                '?'
            }
            &&& exists|value: Seq<char>|
                {
                    &&& #[trigger] percent::decoded(value) == vstd::utf8::encode_utf8(message)
                    &&& url.skip(to.len() as int + 1) == "flash="@ + value + "&kind="@ + (if kind
                        == FlashKind::Success {
                        "success"@
                    } else {
                        "error"@
                    })
                }
        }),
{
    law_flash_survives_a_redirect(kind, message);
    let url = flash_url(kind, message, to);
    reveal_strlit("&flash=");
    reveal_strlit("?flash=");
    reveal_strlit("flash=");
    assert(url.subrange(0, to.len() as int) =~= to);
    let value = query_value(message);
    assert("&flash="@.skip(1) =~= "flash="@);
    assert("?flash="@.skip(1) =~= "flash="@);
    assert(url.skip(to.len() as int + 1) =~= "flash="@ + value + "&kind="@ + kind_text(kind));
}

} // verus!
