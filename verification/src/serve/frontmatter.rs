//! The block of settings in front of a note.

use vstd::prelude::*;
use crate::error::{fail, Fallible};
use crate::text;

verus! {

/// Whether the line that closes a block of settings begins behind place `i`.
pub open spec fn closes_at(s: Seq<char>, i: int) -> bool {
    &&& text::occurs_at(s, "\n---"@, i)
    &&& i + 4 == s.len() || text::occurs_at(s, "\n"@, i + 4) || text::occurs_at(s, "\r\n"@, i + 4)
}

/// The first place from `i` on behind which a block of settings is closed.
pub open spec fn closing_from(s: Seq<char>, i: int) -> Option<int>
    decreases s.len() - i,
{
    if i < 0 || i >= s.len() {
        None
    } else if closes_at(s, i) {
        Some(i)
    } else {
        closing_from(s, i + 1)
    }
}

/// A text without a carriage return at its end.
pub open spec fn sans_return(s: Seq<char>) -> Seq<char> {
    if s.len() > 0 && s.last() == '\r' {
        s.drop_last()
    } else {
        s
    }
}

/// A text without the line break it begins with.
pub open spec fn sans_break(s: Seq<char>) -> Seq<char> {
    if text::starts_with(s, "\r\n"@) {
        s.skip(2)
    } else if text::starts_with(s, "\n"@) {
        s.skip(1)
    } else {
        s
    }
}

/// What follows the line that opens a block of settings, if the text begins
/// with one.
pub open spec fn opened(s: Seq<char>) -> Option<Seq<char>> {
    if text::starts_with(s, "---\r\n"@) {
        Some(s.skip(5))
    } else if text::starts_with(s, "---\n"@) {
        Some(s.skip(4))
    } else {
        None
    }
}

/// The settings in front of a note and the text behind them, if the note has a
/// block of settings that is closed.
pub open spec fn parted(markdown: Seq<char>) -> Option<(Seq<char>, Seq<char>)> {
    match opened(text::trim_start(markdown)) {
        Some(after) => match closing_from(after, 0) {
            Some(i) => Some((sans_return(after.take(i)), sans_break(after.skip(i + 4)))),
            None => None,
        },
        None => None,
    }
}

/// The place behind which a block of settings is closed.
fn closing_of(v: &Vec<char>) -> (result: Option<usize>)
    ensures
        match result {
            Some(i) => closing_from(v@, 0) == Some(i as int) && i + 4 <= v@.len(),
            None => closing_from(v@, 0) is None,
        },
{
    let mark = text::chars_of("\n---");
    let feed = text::chars_of("\n");
    let both = text::chars_of("\r\n");
    proof {
        reveal_strlit("\n---");
    }
    let mut i: usize = 0;
    while i < v.len()
        invariant
            i <= v@.len(),
            mark@ == "\n---"@,
            mark@.len() == 4,
            feed@ == "\n"@,
            both@ == "\r\n"@,
            closing_from(v@, 0) == closing_from(v@, i as int),
        decreases v@.len() - i,
    {
        if text::matches_at(v, &mark, i) {
            let j: usize = i + 4;
            if j == v.len() || text::matches_at(v, &feed, j) || text::matches_at(v, &both, j) {
                return Some(i);
            }
        }
        i += 1;
    }
    None
}

/// Splits a note into its settings and the text behind them.
pub fn split_yaml_frontmatter(markdown: &str) -> (result: Option<(String, String)>)
    ensures
        match result {
            Some((settings, body)) => parted(markdown@) == Some((settings@, body@)),
            None => parted(markdown@) is None,
        },
{
    let content = text::trim_start_of(markdown);
    let v = text::chars_of(content);
    proof {
        reveal_strlit("---\n");
        reveal_strlit("---\r\n");
        reveal_strlit("\n");
        reveal_strlit("\r\n");
    }
    let start: usize = if text::has_prefix(content, "---\r\n") {
        5
    } else if text::has_prefix(content, "---\n") {
        4
    } else {
        return None;
    };
    let after_text = text::string_of(&v, start, v.len());
    let after = text::chars_of(after_text.as_str());
    proof {
        assert(after@ == v@.skip(start as int));
    }
    match closing_of(&after) {
        None => None,
        Some(i) => {
            let end: usize = if i > 0 && after[i - 1] == '\r' {
                i - 1
            } else {
                i
            };
            let rest = text::string_of(&after, i + 4, after.len());
            let skip: usize = if text::has_prefix(rest.as_str(), "\r\n") {
                2
            } else if text::has_prefix(rest.as_str(), "\n") {
                1
            } else {
                0
            };
            proof {
                assert(rest@ == after@.skip(i + 4));
                assert(after@.subrange(0, end as int) == sans_return(after@.take(i as int)));
                assert(after@.subrange(i + 4 + skip, after@.len() as int) == sans_break(rest@));
            }
            Some(
                (
                    text::string_of(&after, 0, end),
                    text::string_of(&after, i + 4 + skip, after.len()),
                ),
            )
        },
    }
}

/// Line breaks.
pub open spec fn breaks() -> spec_fn(char) -> bool {
    |c: char| c == '\n' || c == '\r'
}

/// A note without its settings.
pub open spec fn body(markdown: Seq<char>) -> Seq<char> {
    match parted(markdown) {
        Some((_, b)) => text::strip_start(b, breaks()),
        None => markdown,
    }
}

/// A note without its settings and the empty lines behind them.
pub fn strip_leading_yaml_frontmatter(markdown: &str) -> (result: String)
    ensures
        result@ == body(markdown@),
{
    match split_yaml_frontmatter(markdown) {
        None => markdown.to_owned(),
        Some((_, b)) => {
            let v = text::chars_of(b.as_str());
            let mut i: usize = 0;
            proof {
                assert(v@.skip(0) == v@);
            }
            while i < v.len() && (v[i] == '\n' || v[i] == '\r')
                invariant
                    i <= v@.len(),
                    text::strip_start(v@.skip(i as int), breaks()) == text::strip_start(
                        v@,
                        breaks(),
                    ),
                decreases v@.len() - i,
            {
                proof {
                    assert(v@.skip(i as int).skip(1) == v@.skip(i + 1));
                }
                i += 1;
            }
            proof {
                assert(v@.subrange(i as int, v@.len() as int) == v@.skip(i as int));
            }
            text::string_of(&v, i, v.len())
        },
    }
}

/// A text without the quotation marks around it.
pub open spec fn unquoted(s: Seq<char>, mark: char) -> Seq<char> {
    text::strip_end(text::strip_start(s, text::being(mark)), text::being(mark))
}

/// The title that a line of settings gives.
pub open spec fn title_setting(line: Seq<char>) -> Option<Seq<char>> {
    let t = text::trim(line);
    if text::starts_with(t, "title:"@) {
        let title = unquoted(unquoted(text::trim(t.skip(6)), '"'), '\'');
        if title.len() > 0 {
            Some(title)
        } else {
            None
        }
    } else {
        None
    }
}

/// Finds the title of a line of settings.
pub open spec fn finding_title() -> spec_fn(Seq<char>) -> Option<Seq<char>> {
    |line: Seq<char>| title_setting(line)
}

/// The title that the settings of a note give.
pub open spec fn settings_title(markdown: Seq<char>) -> Option<Seq<char>> {
    match parted(markdown) {
        Some((settings, _)) => text::first_some(text::lines(settings), finding_title()),
        None => None,
    }
}

/// What follows a prefix.
fn behind(s: &str, n: usize) -> (result: String)
    requires
        n <= s@.len(),
    ensures
        result@ == s@.skip(n as int),
{
    let v = text::chars_of(s);
    proof {
        assert(v@.subrange(n as int, v@.len() as int) == v@.skip(n as int));
    }
    text::string_of(&v, n, v.len())
}

fn title_setting_of(line: &str) -> (result: Option<String>)
    ensures
        text::opt_text(result) == title_setting(line@),
{
    let t = text::trim_of(line);
    if !text::has_prefix(t, "title:") {
        return None;
    }
    proof {
        reveal_strlit("title:");
    }
    let rest = behind(t, 6);
    let inner = text::strip_end_char(
        text::strip_start_char(text::trim_of(rest.as_str()), '"'),
        '"',
    );
    let title = text::strip_end_char(text::strip_start_char(inner, '\''), '\'');
    if title.is_empty() {
        None
    } else {
        Some(title.to_owned())
    }
}

/// The title that the settings of a note give.
pub fn frontmatter_title(markdown: &str) -> (result: Option<String>)
    ensures
        text::opt_text(result) == settings_title(markdown@),
{
    match split_yaml_frontmatter(markdown) {
        None => None,
        Some((settings, _)) => {
            let lines = text::lines_of(settings.as_str());
            let ghost all = text::views(lines@);
            let mut i: usize = 0;
            proof {
                assert(all.skip(0) == all);
            }
            while i < lines.len()
                invariant
                    i <= lines@.len(),
                    all == text::views(lines@),
                    text::first_some(all.skip(i as int), finding_title()) == text::first_some(
                        all,
                        finding_title(),
                    ),
                    settings_title(markdown@) == text::first_some(all, finding_title()),
                decreases lines@.len() - i,
            {
                let found = title_setting_of(lines[i].as_str());
                proof {
                    assert(all.skip(i as int)[0] == lines@[i as int]@);
                    assert(all.skip(i as int).skip(1) == all.skip(i + 1));
                }
                if found.is_some() {
                    return found;
                }
                i += 1;
            }
            None
        },
    }
}

/// The title that a line gives as a heading.
pub open spec fn heading(line: Seq<char>) -> Option<Seq<char>> {
    let t = text::trim(line);
    if text::starts_with(t, "# "@) && text::trim(t.skip(2)).len() > 0 {
        Some(text::trim(t.skip(2)))
    } else {
        None
    }
}

/// Finds the title of a heading.
pub open spec fn finding_heading() -> spec_fn(Seq<char>) -> Option<Seq<char>> {
    |line: Seq<char>| heading(line)
}

/// The title of a note: that of its settings, else its first heading.
pub open spec fn title(markdown: Seq<char>) -> Option<Seq<char>> {
    text::first_of(
        settings_title(markdown),
        text::first_some(text::lines(markdown), finding_heading()),
    )
}

fn heading_of(line: &str) -> (result: Option<String>)
    ensures
        text::opt_text(result) == heading(line@),
{
    let t = text::trim_of(line);
    if !text::has_prefix(t, "# ") {
        return None;
    }
    proof {
        reveal_strlit("# ");
    }
    let rest = behind(t, 2);
    let title = text::trim_of(rest.as_str());
    if title.is_empty() {
        None
    } else {
        Some(title.to_owned())
    }
}

/// The title of a note, or `fallback` where it has none.
pub fn extract_title(markdown: &str, fallback: &str) -> (result: String)
    ensures
        result@ == match title(markdown@) {
            Some(t) => t,
            None => fallback@,
        },
{
    if let Some(found) = frontmatter_title(markdown) {
        return found;
    }
    let lines = text::lines_of(markdown);
    let ghost all = text::views(lines@);
    let mut i: usize = 0;
    proof {
        assert(all.skip(0) == all);
    }
    while i < lines.len()
        invariant
            i <= lines@.len(),
            all == text::views(lines@),
            text::first_some(all.skip(i as int), finding_heading()) == text::first_some(
                all,
                finding_heading(),
            ),
            title(markdown@) == text::first_some(all, finding_heading()),
        decreases lines@.len() - i,
    {
        let found = heading_of(lines[i].as_str());
        proof {
            assert(all.skip(i as int)[0] == lines@[i as int]@);
            assert(all.skip(i as int).skip(1) == all.skip(i + 1));
        }
        if let Some(t) = found {
            return t;
        }
        i += 1;
    }
    fallback.to_owned()
}

/// The name of the deck of a note: its title, or `fallback`, with no slash in
/// it, because a slash parts the names of nested decks.
pub open spec fn deck_name(name: Seq<char>, fallback: Seq<char>) -> Seq<char> {
    let candidate = if text::trim(name).len() == 0 {
        text::trim(fallback)
    } else {
        text::trim(name)
    };
    let flat = text::trim(text::replace_char(candidate, '/', " - "@));
    if flat.len() == 0 {
        "Deck"@
    } else {
        flat
    }
}

/// The name of the deck of a note.
pub fn sanitize_deck_name(name: &str, fallback: &str) -> (result: String)
    ensures
        result@ == deck_name(name@, fallback@),
{
    let trimmed = text::trim_of(name);
    let candidate = if trimmed.is_empty() {
        text::trim_of(fallback)
    } else {
        trimmed
    };
    let normalized = text::replaced(candidate, '/', " - ");
    let flat = text::trim_of(normalized.as_str());
    if flat.is_empty() {
        "Deck".to_owned()
    } else {
        flat.to_owned()
    }
}

/// The text of a table in TOML that holds one text under one key, or what is
/// wrong with it.
pub uninterp spec fn toml_pair(key: Seq<char>, value: Seq<char>) -> Result<Seq<char>, Seq<char>>;

/// `toml::to_string` writes a table that holds one text under one key. Only
/// that the result depends on the two alone is said of it.
#[verifier::external_body]
fn toml_pair_of(key: &str, value: &str) -> (result: Result<String, String>)
    ensures
        match result {
            Ok(t) => toml_pair(key@, value@) == Ok::<Seq<char>, Seq<char>>(t@),
            Err(e) => toml_pair(key@, value@) == Err::<Seq<char>, Seq<char>>(e@),
        },
{
    let mut table = toml::map::Map::new();
    table.insert(key.to_string(), toml::Value::String(value.to_string()));
    toml::to_string(&toml::Value::Table(table)).map_err(|e| e.to_string())
}

/// A text that ends its last line.
pub open spec fn ended(s: Seq<char>) -> Seq<char> {
    if text::ends_with(s, "\n"@) {
        s
    } else {
        s + "\n"@
    }
}

/// A note with the given settings in front of it, in place of its own.
pub open spec fn framed(settings: Seq<char>, markdown: Seq<char>) -> Seq<char> {
    "---\n"@ + ended(settings) + "---\n\n"@ + body(markdown)
}

/// Puts the given settings in front of a note, in place of its own. The line
/// that closes them stays a line of its own.
pub fn frame(settings: &str, markdown: &str) -> (result: String)
    ensures
        result@ == framed(settings@, markdown@),
{
    let inner = if text::has_suffix(settings, "\n") {
        settings.to_owned()
    } else {
        text::cat2(settings, "\n")
    };
    let rest = strip_leading_yaml_frontmatter(markdown);
    let mut result = text::cat3("---\n", inner.as_str(), "---\n\n");
    result.append(rest.as_str());
    result
}

/// Puts the name of its deck in front of a note, in place of its own settings.
pub fn wrap_with_deck_frontmatter(markdown: &str, deck_name: &str) -> (result: Fallible<String>)
    ensures
        match toml_pair("name"@, deck_name@) {
            Ok(settings) => result matches Ok(r) && r@ == framed(settings, markdown@),
            Err(e) => result matches Err(r) && r@ == "TOML serialization error: "@ + e,
        },
{
    match toml_pair_of("name", deck_name) {
        Ok(settings) => Ok(frame(settings.as_str(), markdown)),
        Err(e) => {
            let message = text::cat2("TOML serialization error: ", e.as_str());
            fail(message.as_str())
        },
    }
}

/// Settings that were put in front of a note are found there again, and the
/// note behind them, as long as no line of the settings begins like the one
/// that closes them.
pub proof fn law_framed_notes_part_again(settings: Seq<char>, markdown: Seq<char>)
    requires
        forall|i: int| 0 <= i < settings.len() ==> !text::occurs_at(settings, "\n---"@, i),
    ensures
        parted(framed(settings, markdown)) == Some(
            (sans_return(ended(settings).drop_last()), "\n"@ + body(markdown)),
        ),
{
    let inner = ended(settings);
    let tail = "---\n\n"@ + body(markdown);
    let after = inner + tail;
    let k = inner.len() - 1;
    assert(framed(settings, markdown) == "---\n"@ + after);
    lemma_opened(after);
    lemma_ended(settings);
    lemma_behind_closing(body(markdown));
    lemma_closed(settings, tail);
    assert(after.take(k) == inner.drop_last());
    assert(after.skip(k + 4) == tail.skip(3));
}

proof fn lemma_opened(after: Seq<char>)
    ensures
        opened(text::trim_start("---\n"@ + after)) == Some(after),
{
    let f = "---\n"@ + after;
    reveal_strlit("---\n");
    reveal_strlit("---\r\n");
    assert(f[0] == '-' && f[3] == '\n');
    assert(text::trim_start(f) == f);
    assert(f.subrange(0, 4) == "---\n"@);
    assert(f.skip(4) == after);
    if text::occurs_at(f, "---\r\n"@, 0) {
        assert(f.subrange(0, 5)[3] == f[3]);
    }
}

proof fn lemma_mark_at(s: Seq<char>, i: int)
    requires
        0 <= i,
        i + 4 <= s.len(),
    ensures
        text::occurs_at(s, "\n---"@, i) <==> s[i] == '\n' && s[i + 1] == '-' && s[i + 2] == '-'
            && s[i + 3] == '-',
{
    reveal_strlit("\n---");
    let piece = s.subrange(i, i + 4);
    assert(piece[0] == s[i] && piece[1] == s[i + 1] && piece[2] == s[i + 2] && piece[3] == s[i + 3]);
    if s[i] == '\n' && s[i + 1] == '-' && s[i + 2] == '-' && s[i + 3] == '-' {
        assert(piece =~= "\n---"@);
    }
}

proof fn lemma_ended(settings: Seq<char>)
    ensures
        ended(settings).len() > 0,
        ended(settings).last() == '\n',
        ended(settings).len() - 1 <= settings.len() <= ended(settings).len(),
        forall|i: int| 0 <= i < settings.len() ==> ended(settings)[i] == settings[i],
{
    reveal_strlit("\n");
    if text::ends_with(settings, "\n"@) {
        assert(settings.subrange(settings.len() - 1, settings.len() as int)[0] == '\n');
    }
}

proof fn lemma_closed(settings: Seq<char>, tail: Seq<char>)
    requires
        forall|i: int| 0 <= i < settings.len() ==> !text::occurs_at(settings, "\n---"@, i),
        tail.len() >= 4,
        tail[0] == '-' && tail[1] == '-' && tail[2] == '-' && tail[3] == '\n',
    ensures
        closing_from(ended(settings) + tail, 0) == Some(ended(settings).len() - 1),
{
    let inner = ended(settings);
    let after = inner + tail;
    let k = inner.len() - 1;
    lemma_ended(settings);
    lemma_mark_at(after, k);
    assert(text::occurs_at(after, "\n"@, k + 4)) by {
        reveal_strlit("\n");
        assert(after.subrange(k + 4, k + 5) =~= "\n"@);
    }
    assert(closes_at(after, k));
    assert forall|i: int| 0 <= i < k implies !closes_at(after, i) by {
        lemma_mark_at(after, i);
        if text::occurs_at(after, "\n---"@, i) {
            assert(after[k] == '\n');
            assert(i + 3 < k);
            lemma_mark_at(settings, i);
        }
    }
    lemma_first_closing(after, 0, k);
}

proof fn lemma_behind_closing(rest: Seq<char>)
    ensures
        ("---\n\n"@ + rest).len() >= 4,
        ("---\n\n"@ + rest)[0] == '-',
        ("---\n\n"@ + rest)[1] == '-',
        ("---\n\n"@ + rest)[2] == '-',
        ("---\n\n"@ + rest)[3] == '\n',
        sans_break(("---\n\n"@ + rest).skip(3)) == "\n"@ + rest,
{
    reveal_strlit("---\n\n");
    reveal_strlit("\n");
    reveal_strlit("\r\n");
    let tail = "---\n\n"@ + rest;
    let t = tail.skip(3);
    assert(t[0] == '\n' && t[1] == '\n');
    assert(t.subrange(0, 1) == "\n"@);
    if text::starts_with(t, "\r\n"@) {
        assert(t.subrange(0, 2)[0] == t[0]);
    }
    assert(t.skip(1) == "\n"@ + rest);
}

proof fn lemma_first_closing(s: Seq<char>, i: int, k: int)
    requires
        0 <= i <= k < s.len(),
        closes_at(s, k),
        forall|j: int| i <= j < k ==> !closes_at(s, j),
    ensures
        closing_from(s, i) == Some(k),
    decreases k - i,
{
    if i < k {
        assert(!closes_at(s, i));
        lemma_first_closing(s, i + 1, k);
    }
}

/// The name of a deck has no slash in it, is not empty, and has no white space
/// at its ends; and it stays as it is if it is made into a name again.
pub proof fn law_deck_names_are_flat(
    name: Seq<char>,
    fallback: Seq<char>,
    other_fallback: Seq<char>,
)
    ensures
        !deck_name(name, fallback).contains('/'),
        deck_name(name, fallback).len() > 0,
        text::trim(deck_name(name, fallback)) == deck_name(name, fallback),
        deck_name(deck_name(name, fallback), other_fallback) == deck_name(name, fallback),
{
    let candidate = if text::trim(name).len() == 0 {
        text::trim(fallback)
    } else {
        text::trim(name)
    };
    reveal_strlit(" - ");
    reveal_strlit("Deck");
    lemma_replaced_is_gone(candidate, '/', " - "@);
    let replaced = text::replace_char(candidate, '/', " - "@);
    lemma_strip_start_part(replaced, '/', |c: char| text::is_white_space(c));
    lemma_strip_end_part(text::trim_start(replaced), '/', |c: char| text::is_white_space(c));
    let result = deck_name(name, fallback);
    lemma_trimmed(replaced);
    lemma_nothing_replaced(result, '/', " - "@);
}

proof fn lemma_stripped_start(s: Seq<char>, p: spec_fn(char) -> bool)
    ensures
        text::strip_start(s, p).len() > 0 ==> !p(text::strip_start(s, p)[0]),
    decreases s.len(),
{
    if s.len() > 0 && p(s[0]) {
        lemma_stripped_start(s.skip(1), p);
    }
}

proof fn lemma_stripped_end(s: Seq<char>, p: spec_fn(char) -> bool)
    ensures
        text::strip_end(s, p).len() > 0 ==> !p(text::strip_end(s, p).last()) && text::strip_end(
            s,
            p,
        )[0] == s[0],
    decreases s.len(),
{
    if s.len() > 0 && p(s.last()) {
        lemma_stripped_end(s.drop_last(), p);
    }
}

proof fn lemma_trimmed(s: Seq<char>)
    ensures
        text::trim(text::trim(s)) == text::trim(s),
{
    let p = |c: char| text::is_white_space(c);
    lemma_stripped_start(s, p);
    lemma_stripped_end(text::trim_start(s), p);
}

proof fn lemma_nothing_replaced(s: Seq<char>, from: char, to: Seq<char>)
    requires
        !s.contains(from),
    ensures
        text::replace_char(s, from, to) == s,
    decreases s.len(),
{
    if s.len() > 0 {
        let rest = s.drop_last();
        assert forall|i: int| 0 <= i < rest.len() implies rest[i] != from by {
            assert(s.contains(s[i]));
        }
        lemma_nothing_replaced(rest, from, to);
        assert(s.contains(s[s.len() - 1]));
        assert(text::replace_char(s, from, to) =~= rest.push(s.last()));
        assert(rest.push(s.last()) =~= s);
    }
}

proof fn lemma_replaced_is_gone(s: Seq<char>, from: char, to: Seq<char>)
    requires
        !to.contains(from),
    ensures
        !text::replace_char(s, from, to).contains(from),
    decreases s.len(),
{
    if s.len() > 0 {
        let rest = s.drop_last();
        lemma_replaced_is_gone(rest, from, to);
        let head = text::replace_char(rest, from, to);
        let tail = text::putting(from, to)(s.last());
        assert(text::replace_char(s, from, to) == head + tail);
        assert forall|i: int| 0 <= i < (head + tail).len() implies (head + tail)[i] != from by {
            if i < head.len() {
                assert(head.contains(head[i]));
            } else {
                assert(tail.contains(tail[i - head.len()]));
            }
        }
    }
}

proof fn lemma_strip_start_part(s: Seq<char>, c: char, p: spec_fn(char) -> bool)
    requires
        !s.contains(c),
    ensures
        !text::strip_start(s, p).contains(c),
    decreases s.len(),
{
    if s.len() > 0 && p(s[0]) {
        assert forall|i: int| 0 <= i < s.skip(1).len() implies s.skip(1)[i] != c by {
            assert(s.contains(s[i + 1]));
        }
        lemma_strip_start_part(s.skip(1), c, p);
    }
}

proof fn lemma_strip_end_part(s: Seq<char>, c: char, p: spec_fn(char) -> bool)
    requires
        !s.contains(c),
    ensures
        !text::strip_end(s, p).contains(c),
    decreases s.len(),
{
    if s.len() > 0 && p(s.last()) {
        assert forall|i: int| 0 <= i < s.drop_last().len() implies s.drop_last()[i] != c by {
            assert(s.contains(s[i]));
        }
        lemma_strip_end_part(s.drop_last(), c, p);
    }
}

/// A note whose first line, behind white space, is not `---` has no settings: it
/// is all body.
pub proof fn law_notes_without_settings_are_all_body(markdown: Seq<char>)
    requires
        ({
            let t = text::trim_start(markdown);
            t.len() < 4 || t[0] != '-' || t[1] != '-' || t[2] != '-' || (t[3] != '\n' && t[3]
                != '\r')
        }),
    ensures
        parted(markdown) is None,
        body(markdown) == markdown,
        settings_title(markdown) is None,
{
    reveal_strlit("---\r\n");
    reveal_strlit("---\n");
    let t = text::trim_start(markdown);
    if text::starts_with(t, "---\r\n"@) {
        let p = t.subrange(0, 5);
        assert(p[0] == t[0] && p[1] == t[1] && p[2] == t[2] && p[3] == t[3]);
    }
    if text::starts_with(t, "---\n"@) {
        let p = t.subrange(0, 4);
        assert(p[0] == t[0] && p[1] == t[1] && p[2] == t[2] && p[3] == t[3]);
    }
}

/// What stands between two lines `---` is a note's settings, and what follows
/// the second is what it holds.
pub proof fn law_settings_stand_between_two_lines(settings: Seq<char>, rest: Seq<char>)
    requires
        forall|i: int| 0 <= i < settings.len() ==> !text::occurs_at(settings, "\n---"@, i),
        settings.len() > 0 ==> settings.last() != '\n' && settings.last() != '\r',
        rest.len() > 0 ==> rest[0] != '\n' && rest[0] != '\r',
    ensures
        parted("---\n"@ + settings + "\n---\n"@ + rest) == Some((settings, rest)),
        body("---\n"@ + settings + "\n---\n"@ + rest) == rest,
{
    reveal_strlit("---\n");
    reveal_strlit("\n---\n");
    reveal_strlit("\n");
    reveal_strlit("\r\n");
    let note = "---\n"@ + settings + "\n---\n"@ + rest;
    let tail = "---\n"@ + rest;
    let inner = ended(settings);
    let after = inner + tail;
    let k = inner.len() - 1;
    assert(!text::ends_with(settings, "\n"@)) by {
        if text::ends_with(settings, "\n"@) {
            assert(settings.subrange(settings.len() - 1, settings.len() as int)[0]
                == settings.last());
        }
    }
    assert(inner =~= settings + "\n"@);
    assert(note =~= "---\n"@ + after);
    lemma_opened(after);
    lemma_ended(settings);
    lemma_closed(settings, tail);
    assert(after.take(k) =~= settings);
    let s = after.skip(k + 4);
    assert(s =~= "\n"@ + rest);
    assert(s[0] == '\n');
    assert(!text::starts_with(s, "\r\n"@)) by {
        if text::starts_with(s, "\r\n"@) {
            assert(s.subrange(0, 2)[0] == s[0]);
        }
    }
    assert(text::starts_with(s, "\n"@)) by {
        assert(s.subrange(0, 1) =~= "\n"@);
    }
    assert(s.skip(1) =~= rest);
}

proof fn lemma_trim_of_trimmed(s: Seq<char>)
    requires
        s.len() > 0 ==> !text::is_white_space(s[0]) && !text::is_white_space(s.last()),
    ensures
        text::trim(s) == s,
        text::trim_start(s) == s,
{
}

proof fn lemma_trim_keeps_words(front: Seq<char>, s: Seq<char>)
    requires
        front.len() > 0,
        s.len() > 0,
        !text::is_white_space(front[0]),
        !text::is_white_space(s.last()),
    ensures
        text::trim(front + s) == front + s,
{
    assert((front + s)[0] == front[0]);
    assert((front + s).last() == s.last());
    lemma_trim_of_trimmed(front + s);
}

/// A heading is what follows a number sign and a blank at the start of a line,
/// and no other line is one.
pub proof fn law_headings_follow_a_number_sign(t: Seq<char>, line: Seq<char>)
    requires
        t.len() > 0,
        !text::is_white_space(t[0]),
        !text::is_white_space(t.last()),
        line.len() < 2 || line[0] != '#' || line[1] != ' ',
        line.len() > 0 ==> !text::is_white_space(line[0]) && !text::is_white_space(line.last()),
    ensures
        heading("# "@ + t) == Some(t),
        heading(line) is None,
{
    reveal_strlit("# ");
    let s = "# "@ + t;
    lemma_trim_keeps_words("# "@, t);
    assert(s.subrange(0, 2) =~= "# "@);
    assert(s.skip(2) =~= t);
    lemma_trim_of_trimmed(t);
    lemma_trim_of_trimmed(line);
    if text::starts_with(line, "# "@) {
        let p = line.subrange(0, 2);
        assert(p[0] == line[0] && p[1] == line[1]);
    }
}

/// A title is set by what follows `title:`, without the quotation marks around
/// it; no other line sets one.
pub proof fn law_titles_are_set_by_their_key(t: Seq<char>, line: Seq<char>)
    requires
        t.len() > 0,
        !text::is_white_space(t[0]),
        !text::is_white_space(t.last()),
        t[0] != '"' && t[0] != '\'' && t.last() != '"' && t.last() != '\'',
        line.len() < 6 || line.take(6) != "title:"@,
        line.len() > 0 ==> !text::is_white_space(line[0]) && !text::is_white_space(line.last()),
    ensures
        title_setting("title: "@ + t) == Some(t),
        title_setting("title: "@ + seq!['"'] + t + seq!['"']) == Some(t),
        title_setting("title: "@ + seq!['\''] + t + seq!['\'']) == Some(t),
        title_setting(line) is None,
{
    reveal_strlit("title:");
    reveal_strlit("title: ");
    lemma_title_behind_key(t);
    let double = seq!['"'] + t + seq!['"'];
    let single = seq!['\''] + t + seq!['\''];
    lemma_title_behind_key(double);
    lemma_title_behind_key(single);
    assert("title: "@ + seq!['"'] + t + seq!['"'] =~= "title: "@ + double);
    assert("title: "@ + seq!['\''] + t + seq!['\''] =~= "title: "@ + single);
    assert(text::trim("title: "@ + t) == "title: "@ + t);
    lemma_unquoted(t, '"');
    lemma_unquoted(t, '\'');
    lemma_no_quotes(single, '"');
    lemma_no_quotes(t, '"');
    lemma_no_quotes(t, '\'');
    lemma_trim_of_trimmed(line);
    if text::starts_with(line, "title:"@) {
        assert(line.subrange(0, 6) =~= line.take(6));
    }
}

proof fn lemma_title_behind_key(t: Seq<char>)
    requires
        t.len() > 0,
        !text::is_white_space(t[0]),
        !text::is_white_space(t.last()),
    ensures
        text::trim("title: "@ + t) == "title: "@ + t,
        text::starts_with("title: "@ + t, "title:"@),
        text::trim(("title: "@ + t).skip(6)) == t,
{
    reveal_strlit("title:");
    reveal_strlit("title: ");
    let s = "title: "@ + t;
    lemma_trim_keeps_words("title: "@, t);
    assert(s.subrange(0, 6) =~= "title:"@);
    let b = s.skip(6);
    assert(b =~= seq![' '] + t);
    assert(b.skip(1) =~= t);
    lemma_trim_of_trimmed(t);
    assert(text::trim_start(b) == text::trim_start(b.skip(1)));
}

proof fn lemma_no_quotes(s: Seq<char>, mark: char)
    requires
        s.len() > 0,
        s[0] != mark,
        s.last() != mark,
    ensures
        unquoted(s, mark) == s,
{
}

proof fn lemma_unquoted(t: Seq<char>, mark: char)
    requires
        t.len() > 0,
        t[0] != mark,
        t.last() != mark,
    ensures
        unquoted(seq![mark] + t + seq![mark], mark) == t,
{
    let s = seq![mark] + t + seq![mark];
    let p = text::being(mark);
    assert(s.skip(1) =~= t + seq![mark]);
    assert((t + seq![mark])[0] == t[0]);
    assert(text::strip_start(s, p) == text::strip_start(s.skip(1), p));
    assert((t + seq![mark]).drop_last() =~= t);
    assert((t + seq![mark]).last() == mark);
    assert(text::strip_end(t + seq![mark], p) == text::strip_end(t, p));
}

/// The title of a note is the one that its settings give; where they give none,
/// it is the first heading.
pub proof fn law_settings_title_goes_before_headings(markdown: Seq<char>, i: int)
    requires
        0 <= i < text::lines(markdown).len(),
        heading(text::lines(markdown)[i]) is Some,
        forall|j: int| 0 <= j < i ==> heading(#[trigger] text::lines(markdown)[j]) is None,
    ensures
        settings_title(markdown) is Some ==> title(markdown) == settings_title(markdown),
        settings_title(markdown) is None ==> title(markdown) == heading(
            text::lines(markdown)[i],
        ),
{
    text::lemma_first_some_at(text::lines(markdown), finding_heading(), i);
}

/// A deck is called by its name where it has one, and else as if it had been
/// named by the fallback. A name without slashes is kept, but for white space
/// around it, and a slash becomes a dash.
pub proof fn law_decks_keep_their_name(
    name: Seq<char>,
    fallback: Seq<char>,
    other: Seq<char>,
    a: Seq<char>,
    b: Seq<char>,
)
    requires
        text::trim(name).len() > 0,
        !text::trim(name).contains('/'),
        text::trim(other).len() == 0,
        a.len() > 0 && b.len() > 0,
        !a.contains('/') && !b.contains('/'),
        !text::is_white_space(a[0]) && !text::is_white_space(b.last()),
    ensures
        deck_name(name, fallback) == text::trim(name),
        deck_name(other, name) == deck_name(name, fallback),
        deck_name(a.push('/') + b, fallback) == a + " - "@ + b,
{
    reveal_strlit(" - ");
    lemma_nothing_replaced(text::trim(name), '/', " - "@);
    lemma_trimmed(name);
    let s = a.push('/') + b;
    assert(s[0] == a[0]);
    assert(s.last() == b.last());
    lemma_trim_of_trimmed(s);
    text::lemma_expand_split(a.push('/'), b, text::putting('/', " - "@));
    lemma_nothing_replaced(a, '/', " - "@);
    lemma_nothing_replaced(b, '/', " - "@);
    assert(a.push('/').drop_last() =~= a);
    let flat = a + " - "@ + b;
    assert(text::replace_char(s, '/', " - "@) =~= flat);
    assert(flat[0] == a[0]);
    assert(flat.last() == b.last());
    lemma_trim_of_trimmed(flat);
}

} // verus!
