//! The style sheets, scripts and fonts of the pages.
//!
//! What a page links is served for good under an address that names its
//! contents, so that a build that changes it changes the address too.

use vstd::prelude::*;
use crate::text;
use crate::types::card_hash;
use crate::types::card_hash::CardHash;

verus! {

/// How long what is served under an address that names its contents is kept.
pub const CACHE_CONTROL_IMMUTABLE: &'static str = "public, max-age=604800, immutable";

/// What is served under any other address is asked for again.
pub const CACHE_CONTROL_REVALIDATE: &'static str = "no-cache";

/// The first sixteen digits of the digest of some bytes.
pub open spec fn fingerprint(data: Seq<u8>) -> Seq<char> {
    card_hash::hash_text(card_hash::hashed(data)).take(16)
}

fn fingerprint_of(data: &Vec<u8>) -> (result: String)
    ensures
        result@ == fingerprint(data@),
{
    let hash = CardHash::hash_bytes(data.as_slice());
    let digits = hash.to_hex();
    proof {
        card_hash::law_hash_text_round_trip(hash);
    }
    let v = text::chars_of(digits.as_str());
    let result = text::string_of(&v, 0, 16);
    proof {
        assert(result@ =~= fingerprint(data@));
    }
    result
}

/// Files as their bytes, one after the other.
pub open spec fn all_bytes(files: Seq<Vec<u8>>) -> Seq<u8>
    decreases files.len(),
{
    if files.len() == 0 {
        seq![]
    } else {
        all_bytes(files.drop_last()) + files.last()@
    }
}

/// The revision of some files that belong together: it names the contents of
/// all of them.
pub fn revision(files: &Vec<Vec<u8>>) -> (result: String)
    ensures
        result@ == fingerprint(all_bytes(files@)),
{
    let mut all: Vec<u8> = Vec::new();
    let mut i: usize = 0;
    while i < files.len()
        invariant
            i <= files@.len(),
            all@ == all_bytes(files@.take(i as int)),
        decreases files@.len() - i,
    {
        proof {
            assert(files@.take(i + 1).drop_last() == files@.take(i as int));
        }
        all.extend_from_slice(files[i].as_slice());
        i += 1;
        proof {
            assert(all@ =~= all_bytes(files@.take(i as int)));
        }
    }
    proof {
        assert(files@.take(i as int) == files@);
    }
    fingerprint_of(&all)
}

/// How long an answer may be kept. At another revision than the current one the
/// address does not name what is served.
pub fn revisioned_cache_control(requested: &str, current: &str) -> (result: &'static str)
    ensures
        result@ == if requested@ == current@ {
            CACHE_CONTROL_IMMUTABLE@
        } else {
            CACHE_CONTROL_REVALIDATE@
        },
{
    if text::same(requested, current) {
        CACHE_CONTROL_IMMUTABLE
    } else {
        CACHE_CONTROL_REVALIDATE
    }
}

/// The folder that the fonts are served from.
pub fn font_dir_url(revision: &str) -> (result: String)
    ensures
        result@ == "/fonts/"@ + revision@,
{
    text::cat2("/fonts/", revision)
}

/// Whether there is a font file of this name.
pub fn is_font(name: &str) -> (result: bool)
    ensures
        result == (name@ == "inter-400.woff2"@ || name@ == "inter-500.woff2"@ || name@
            == "inter-600.woff2"@ || name@ == "jetbrains-mono-400.woff2"@),
{
    text::same(name, "inter-400.woff2") || text::same(name, "inter-500.woff2") || text::same(
        name,
        "inter-600.woff2",
    ) || text::same(name, "jetbrains-mono-400.woff2")
}

/// The address of the script that highlights code.
pub fn hljs_js_url(revision: &str) -> (result: String)
    ensures
        result@ == "/hljs/"@ + revision@ + "/highlight.js"@,
{
    text::cat3("/hljs/", revision, "/highlight.js")
}

/// The address of the style sheet for highlighted code.
pub fn hljs_css_url(revision: &str) -> (result: String)
    ensures
        result@ == "/hljs/"@ + revision@ + "/github.css"@,
{
    text::cat3("/hljs/", revision, "/github.css")
}

/// The address of the script that sets formulas.
pub fn katex_js_url(revision: &str) -> (result: String)
    ensures
        result@ == "/katex/"@ + revision@ + "/katex.js"@,
{
    text::cat3("/katex/", revision, "/katex.js")
}

/// The address of the script for chemical formulas.
pub fn katex_mhchem_js_url(revision: &str) -> (result: String)
    ensures
        result@ == "/katex/"@ + revision@ + "/mhchem.js"@,
{
    text::cat3("/katex/", revision, "/mhchem.js")
}

/// The address of the style sheet for formulas.
pub fn katex_css_url(revision: &str) -> (result: String)
    ensures
        result@ == "/katex/"@ + revision@ + "/katex.css"@,
{
    text::cat3("/katex/", revision, "/katex.css")
}

/// Whether there is a font file for formulas of this name.
pub fn is_katex_font(name: &str) -> (result: bool)
    ensures
        result == katex_fonts().contains(name@),
{
    let ghost all = katex_fonts();
    let names: Vec<&str> = vec![
        "KaTeX_AMS-Regular.woff2",
        "KaTeX_Caligraphic-Bold.woff2",
        "KaTeX_Caligraphic-Regular.woff2",
        "KaTeX_Fraktur-Bold.woff2",
        "KaTeX_Fraktur-Regular.woff2",
        "KaTeX_Main-Bold.woff2",
        "KaTeX_Main-BoldItalic.woff2",
        "KaTeX_Main-Italic.woff2",
        "KaTeX_Main-Regular.woff2",
        "KaTeX_Math-BoldItalic.woff2",
        "KaTeX_Math-Italic.woff2",
        "KaTeX_SansSerif-Bold.woff2",
        "KaTeX_SansSerif-Italic.woff2",
        "KaTeX_SansSerif-Regular.woff2",
        "KaTeX_Script-Regular.woff2",
        "KaTeX_Size1-Regular.woff2",
        "KaTeX_Size2-Regular.woff2",
        "KaTeX_Size3-Regular.woff2",
        "KaTeX_Size4-Regular.woff2",
        "KaTeX_Typewriter-Regular.woff2",
    ];
    proof {
        assert(names@.map_values(|n: &str| n@) =~= all);
    }
    let mut i: usize = 0;
    while i < names.len()
        invariant
            i <= names@.len(),
            all == katex_fonts(),
            names@.map_values(|n: &str| n@) == all,
            forall|k: int| 0 <= k < i ==> #[trigger] all[k] != name@,
        decreases names@.len() - i,
    {
        if text::same(names[i], name) {
            proof {
                assert(all[i as int] == name@);
            }
            return true;
        }
        proof {
            assert(all[i as int] == names@[i as int]@);
        }
        i += 1;
    }
    false
}

/// The names of the font files for formulas.
pub open spec fn katex_fonts() -> Seq<Seq<char>> {
    seq![
        "KaTeX_AMS-Regular.woff2"@,
        "KaTeX_Caligraphic-Bold.woff2"@,
        "KaTeX_Caligraphic-Regular.woff2"@,
        "KaTeX_Fraktur-Bold.woff2"@,
        "KaTeX_Fraktur-Regular.woff2"@,
        "KaTeX_Main-Bold.woff2"@,
        "KaTeX_Main-BoldItalic.woff2"@,
        "KaTeX_Main-Italic.woff2"@,
        "KaTeX_Main-Regular.woff2"@,
        "KaTeX_Math-BoldItalic.woff2"@,
        "KaTeX_Math-Italic.woff2"@,
        "KaTeX_SansSerif-Bold.woff2"@,
        "KaTeX_SansSerif-Italic.woff2"@,
        "KaTeX_SansSerif-Regular.woff2"@,
        "KaTeX_Script-Regular.woff2"@,
        "KaTeX_Size1-Regular.woff2"@,
        "KaTeX_Size2-Regular.woff2"@,
        "KaTeX_Size3-Regular.woff2"@,
        "KaTeX_Size4-Regular.woff2"@,
        "KaTeX_Typewriter-Regular.woff2"@,
    ]
}

/// How the style sheet for formulas, as it is shipped, begins the address of a
/// font.
pub const KATEX_FONT_DIR: &'static str = "url(/katex/fonts/";

/// The style sheet for formulas with addresses of fonts that carry the
/// revision.
pub open spec fn revisioned_css(css: Seq<char>, revision: Seq<char>) -> Seq<char> {
    text::replace_text(css, KATEX_FONT_DIR@, KATEX_FONT_DIR@ + revision + "/"@)
}

/// Points the style sheet for formulas to the fonts of its own revision.
pub fn katex_css(css: &str, revision: &str) -> (result: String)
    ensures
        result@ == revisioned_css(css@, revision@),
{
    let target = text::cat3(KATEX_FONT_DIR, revision, "/");
    text::replaced_text(css, KATEX_FONT_DIR, target.as_str())
}

/// Whether a text begins with what could only be part of a font's address
/// behind its first character.
proof fn lemma_tail_was_there(t: Seq<char>, q: Seq<char>, p: Seq<char>, w: Seq<char>)
    requires
        p.len() > 0,
        w.len() > 0,
        w[0] == p[0],
        !q.contains(p[0]),
        text::starts_with(text::replace_text(t, p, w), q),
    ensures
        text::starts_with(t, q),
    decreases q.len(),
{
    let r = text::replace_text(t, p, w);
    if q.len() == 0 {
        assert(t.subrange(0, 0) =~= q);
    } else {
        assert(r.subrange(0, q.len() as int)[0] == r[0]);
        assert(q[0] == r[0]);
        assert(q.contains(q[0]));
        if t.len() == 0 {
            assert(r.len() == 0);
        } else if text::starts_with(t, p) {
            assert(r[0] == w[0]);
        } else {
            let rest = text::replace_text(t.skip(1), p, w);
            assert(r[0] == t[0]);
            let more = q.skip(1);
            assert(rest.subrange(0, more.len() as int) =~= more) by {
                assert forall|i: int| 0 <= i < more.len() implies rest[i] == more[i] by {
                    assert(r[i + 1] == rest[i]);
                    assert(r.subrange(0, q.len() as int)[i + 1] == r[i + 1]);
                }
            }
            assert(!more.contains(p[0])) by {
                if more.contains(p[0]) {
                    let i = choose|i: int| 0 <= i < more.len() && more[i] == p[0];
                    assert(q[i + 1] == p[0]);
                }
            }
            lemma_tail_was_there(t.skip(1), more, p, w);
            assert(t.subrange(0, q.len() as int) =~= q) by {
                assert forall|i: int| 0 <= i < q.len() implies t[i] == q[i] by {
                    if i > 0 {
                        assert(t.skip(1).subrange(0, more.len() as int)[i - 1] == more[i - 1]);
                        assert(t[i] == t.skip(1)[i - 1]);
                    }
                }
            }
        }
    }
}

/// After a replacement that keeps what it replaces and puts `extra` behind it,
/// nothing is left that has not got it.
proof fn lemma_all_carry(s: Seq<char>, p: Seq<char>, extra: Seq<char>, i: int)
    requires
        p.len() > 0,
        !p.skip(1).contains(p[0]),
        !extra.contains(p[0]),
        text::occurs_at(text::replace_text(s, p, p + extra), p, i),
    ensures
        text::occurs_at(text::replace_text(s, p, p + extra), p + extra, i),
    decreases s.len(),
{
    let w = p + extra;
    let r = text::replace_text(s, p, w);
    if s.len() == 0 {
        assert(r.len() == 0);
    } else if text::starts_with(s, p) {
        let rest = text::replace_text(s.skip(p.len() as int), p, w);
        assert(r == w + rest);
        if i == 0 {
            assert(r.subrange(0, w.len() as int) =~= w);
        } else if i < w.len() {
            assert(r.subrange(i, i + p.len())[0] == r[i]);
            assert(r[i] == w[i]);
            if i < p.len() {
                assert(p.skip(1)[i - 1] == p[i]);
                assert(p.skip(1).contains(p[i]));
            } else {
                assert(extra.contains(extra[i - p.len()]));
            }
        } else {
            let k = i - w.len();
            assert(rest.subrange(k, k + p.len()) =~= r.subrange(i, i + p.len()));
            lemma_all_carry(s.skip(p.len() as int), p, extra, k);
            assert(r.subrange(i, i + w.len()) =~= rest.subrange(k, k + w.len()));
        }
    } else {
        let rest = text::replace_text(s.skip(1), p, w);
        assert(r == seq![s[0]] + rest);
        if i > 0 {
            assert(rest.subrange(i - 1, i - 1 + p.len()) =~= r.subrange(i, i + p.len()));
            lemma_all_carry(s.skip(1), p, extra, i - 1);
            assert(r.subrange(i, i + w.len()) =~= rest.subrange(i - 1, i - 1 + w.len()));
        } else {
            let q = p.skip(1);
            assert(r.subrange(0, p.len() as int)[0] == r[0]);
            assert(rest.subrange(0, q.len() as int) =~= q) by {
                assert forall|j: int| 0 <= j < q.len() implies rest[j] == q[j] by {
                    assert(r.subrange(0, p.len() as int)[j + 1] == r[j + 1]);
                }
            }
            lemma_tail_was_there(s.skip(1), q, p, w);
            assert(s.subrange(0, p.len() as int) =~= p) by {
                assert forall|j: int| 0 <= j < p.len() implies s[j] == p[j] by {
                    if j > 0 {
                        assert(s.skip(1).subrange(0, q.len() as int)[j - 1] == q[j - 1]);
                        assert(s[j] == s.skip(1)[j - 1]);
                    }
                }
            }
        }
    }
}

/// Every address of a font in the style sheet for formulas carries the
/// revision, so that it is never paired with the fonts of another one.
pub proof fn law_every_font_address_carries_the_revision(
    css: Seq<char>,
    revision: Seq<char>,
    i: int,
)
    requires
        !revision.contains('u'),
        text::occurs_at(revisioned_css(css, revision), KATEX_FONT_DIR@, i),
    ensures
        text::occurs_at(revisioned_css(css, revision), KATEX_FONT_DIR@ + revision + "/"@, i),
{
    let p = KATEX_FONT_DIR@;
    let extra = revision + "/"@;
    reveal_strlit("url(/katex/fonts/");
    reveal_strlit("/");
    assert(p + extra =~= p + revision + "/"@);
    assert(p[0] == 'u');
    assert forall|j: int| 0 <= j < extra.len() implies extra[j] != 'u' by {
        if j < revision.len() {
            assert(revision.contains(revision[j]));
        }
    }
    lemma_all_carry(css, p, extra, i);
}

/// The address of the style sheet, which names its contents.
pub fn style_url(css: &Vec<u8>) -> (result: String)
    ensures
        result@ == "/style-"@ + fingerprint(css@) + ".css"@,
{
    let digits = fingerprint_of(css);
    text::cat3("/style-", digits.as_str(), ".css")
}

/// A fingerprint is the beginning of the digest of what it stands for, and files
/// count in their order.
pub proof fn law_fingerprints_begin_digests(data: Seq<u8>, a: Seq<Vec<u8>>, b: Vec<u8>)
    requires
        card_hash::hash_text(card_hash::hashed(data)).len() >= 16,
    ensures
        fingerprint(data).len() == 16,
        fingerprint(data).is_prefix_of(card_hash::hash_text(card_hash::hashed(data))),
        all_bytes(a.push(b)) == all_bytes(a) + b@,
        all_bytes(seq![b]) == b@,
{
    assert(a.push(b).drop_last() =~= a);
    assert(seq![b].drop_last() =~= Seq::<Vec<u8>>::empty());
    let none = Seq::<Vec<u8>>::empty();
    assert(all_bytes(none) =~= Seq::<u8>::empty());
    assert(seq![b].last() == b);
    assert(all_bytes(seq![b]) =~= all_bytes(none) + b@);
    assert(all_bytes(seq![b]) =~= b@);
}

} // verus!
