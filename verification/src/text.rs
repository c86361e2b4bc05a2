//! Strings as sequences of characters.

use vstd::prelude::*;

verus! {

/// The Unicode `White_Space` property.
pub open spec fn is_white_space(c: char) -> bool {
    let n = c as u32;
    ||| 0x09 <= n <= 0x0d
    ||| n == 0x20
    ||| n == 0x85
    ||| n == 0xa0
    ||| n == 0x1680
    ||| 0x2000 <= n <= 0x200a
    ||| n == 0x2028
    ||| n == 0x2029
    ||| n == 0x202f
    ||| n == 0x205f
    ||| n == 0x3000
}

/// `char::is_whitespace` answers whether the character has the `White_Space`
/// property.
pub assume_specification[ char::is_whitespace ](c: char) -> (result: bool)
    ensures
        result == is_white_space(c),
;

/// The general category `Cc`: the two blocks of control codes.
pub open spec fn is_control_code(c: char) -> bool {
    let n = c as u32;
    n <= 0x1f || 0x7f <= n <= 0x9f
}

/// `char::is_control` answers whether the character is a control code.
pub assume_specification[ char::is_control ](c: char) -> (result: bool)
    ensures
        result == is_control_code(c),
;

/// `String::push` appends one character.
pub assume_specification[ String::push ](s: &mut String, c: char)
    ensures
        final(s)@ == old(s)@.push(c),
;

/// Two string slices are equal when they hold the same characters.
pub assume_specification[ <str as PartialEq>::eq ](a: &str, b: &str) -> (result: bool)
    ensures
        result == (a@ == b@),
;

/// The characters of `s`, one per element.
pub fn chars_of(s: &str) -> (result: Vec<char>)
    ensures
        result@ == s@,
{
    let mut result: Vec<char> = Vec::new();
    for c in it: s.chars()
        invariant
            it.seq() == s@,
            result@ == s@.take(it.index() as int),
    {
        proof {
            assert(s@.take(it.index() + 1) == s@.take(it.index() as int).push(c));
        }
        result.push(c);
    }
    proof {
        assert(s@.take(s@.len() as int) == s@);
    }
    result
}

/// The string holding the characters of `v` from `from` up to `to`.
pub fn string_of(v: &Vec<char>, from: usize, to: usize) -> (result: String)
    requires
        from <= to <= v@.len(),
    ensures
        result@ == v@.subrange(from as int, to as int),
{
    let mut result = String::new();
    let mut i: usize = from;
    while i < to
        invariant
            from <= i <= to <= v@.len(),
            result@ == v@.subrange(from as int, i as int),
        decreases to - i,
    {
        result.push(v[i]);
        i += 1;
        proof {
            assert(v@.subrange(from as int, i as int) == v@.subrange(
                from as int,
                i as int - 1,
            ).push(v@[i - 1]));
        }
    }
    result
}

/// Whether two texts hold the same characters.
pub fn same(a: &str, b: &str) -> (result: bool)
    ensures
        result == (a@ == b@),
{
    *a == *b
}

/// Whether a character is a letter or a digit in the Unicode sense: it has the
/// `Alphabetic` property or one of the numeric general categories.
pub uninterp spec fn unicode_alphanumeric(c: char) -> bool;

/// The letters and digits of ASCII.
pub open spec fn ascii_alphanumeric(c: char) -> bool {
    ||| 'a' <= c <= 'z'
    ||| 'A' <= c <= 'Z'
    ||| '0' <= c <= '9'
}

/// Whether a character is a letter or a digit.
pub open spec fn alphanumeric(c: char) -> bool {
    if (c as u32) < 128 {
        ascii_alphanumeric(c)
    } else {
        unicode_alphanumeric(c)
    }
}

/// `char::is_alphanumeric` accepts the letters and digits. On ASCII these are
/// the familiar sixty-two; beyond it the Unicode tables decide.
pub assume_specification[ char::is_alphanumeric ](c: char) -> (result: bool)
    ensures
        (c as u32) < 128 ==> result == ascii_alphanumeric(c),
        (c as u32) >= 128 ==> result == unicode_alphanumeric(c),
;

/// The lowercase equivalent of a text, by the Unicode case mappings.
pub uninterp spec fn unicode_lowercase(s: Seq<char>) -> Seq<char>;

/// The small letter for an ASCII capital; any other character itself.
pub open spec fn ascii_lower(c: char) -> char {
    if 'A' <= c <= 'Z' {
        ((c as u32) + 32) as char
    } else {
        c
    }
}

/// Whether every character of a text is an ASCII character.
pub open spec fn all_ascii(s: Seq<char>) -> bool {
    forall|i: int| 0 <= i < s.len() ==> (#[trigger] s[i] as u32) < 128
}

/// A text in lowercase.
pub open spec fn lowercase(s: Seq<char>) -> Seq<char> {
    if all_ascii(s) {
        s.map_values(|c: char| ascii_lower(c))
    } else {
        unicode_lowercase(s)
    }
}

/// `str::to_lowercase` gives the lowercase equivalent of a text. On a text of
/// ASCII characters alone it maps each capital letter to its small one; beyond
/// it the Unicode tables decide.
pub assume_specification[ str::to_lowercase ](s: &str) -> (result: String)
    ensures
        all_ascii(s@) ==> result@ == s@.map_values(|c: char| ascii_lower(c)),
        !all_ascii(s@) ==> result@ == unicode_lowercase(s@),
;

/// The texts of a list of strings.
pub open spec fn views(v: Seq<String>) -> Seq<Seq<char>> {
    v.map_values(|s: String| s@)
}

pub proof fn lemma_views_push(v: Seq<String>, s: String)
    ensures
        views(v.push(s)) == views(v).push(s@),
{
    assert(views(v.push(s)) =~= views(v).push(s@));
}

/// Where `c` first stands in `s`; the length of `s` if it does not.
pub open spec fn first_index(s: Seq<char>, c: char) -> int
    decreases s.len(),
{
    if s.len() == 0 || s[0] == c {
        0
    } else {
        1 + first_index(s.skip(1), c)
    }
}

pub proof fn lemma_first_index(s: Seq<char>, c: char, i: int)
    requires
        0 <= i <= s.len(),
        forall|j: int| 0 <= j < i ==> s[j] != c,
        i == s.len() || s[i] == c,
    ensures
        first_index(s, c) == i,
    decreases s.len(),
{
    if i > 0 {
        lemma_first_index(s.skip(1), c, i - 1);
    }
}

pub proof fn lemma_first_index_bounds(s: Seq<char>, c: char)
    ensures
        0 <= first_index(s, c) <= s.len(),
        first_index(s, c) < s.len() ==> s[first_index(s, c)] == c,
        forall|j: int| 0 <= j < first_index(s, c) ==> s[j] != c,
    decreases s.len(),
{
    if s.len() > 0 && s[0] != c {
        lemma_first_index_bounds(s.skip(1), c);
        assert forall|j: int| 0 <= j < first_index(s, c) implies s[j] != c by {
            if j > 0 {
                assert(s[j] == s.skip(1)[j - 1]);
            }
        }
    }
}

/// Where `c` first stands in `v` at or after `from`; the length of `v` if it
/// does not.
pub fn index_from(v: &Vec<char>, from: usize, c: char) -> (result: usize)
    requires
        from <= v@.len(),
    ensures
        from <= result <= v@.len(),
        result - from == first_index(v@.skip(from as int), c),
{
    let mut i: usize = from;
    while i < v.len() && v[i] != c
        invariant
            from <= i <= v@.len(),
            forall|j: int| from <= j < i ==> v@[j] != c,
        decreases v@.len() - i,
    {
        i += 1;
    }
    proof {
        lemma_first_index(v@.skip(from as int), c, i - from);
    }
    i
}

/// The pieces of `s` between the occurrences of `c`; always at least one.
pub open spec fn split(s: Seq<char>, c: char) -> Seq<Seq<char>>
    decreases s.len(),
{
    let i = first_index(s, c);
    if 0 <= i < s.len() {
        seq![s.take(i)] + split(s.skip(i + 1), c)
    } else {
        seq![s]
    }
}

/// A text can be told from its pieces.
pub proof fn lemma_split_injective(a: Seq<char>, b: Seq<char>, c: char)
    requires
        split(a, c) == split(b, c),
    ensures
        a == b,
    decreases a.len(),
{
    lemma_first_index_bounds(a, c);
    lemma_first_index_bounds(b, c);
    let i = first_index(a, c);
    let j = first_index(b, c);
    let sa = split(a, c);
    let sb = split(b, c);
    if i < a.len() && j < b.len() {
        assert(sa[0] == a.take(i) && sb[0] == b.take(j));
        assert(a.take(i).len() == i && b.take(j).len() == j);
        assert(sa.skip(1) =~= split(a.skip(i + 1), c));
        assert(sb.skip(1) =~= split(b.skip(j + 1), c));
        lemma_split_injective(a.skip(i + 1), b.skip(j + 1), c);
        assert(a =~= a.take(i).push(c) + a.skip(i + 1));
        assert(b =~= b.take(j).push(c) + b.skip(j + 1));
    } else if i >= a.len() && j >= b.len() {
        assert(sa[0] == a && sb[0] == b);
    } else if i >= a.len() {
        lemma_split_len(b.skip(j + 1), c);
        assert(sa.len() == 1);
    } else {
        lemma_split_len(a.skip(i + 1), c);
        assert(sb.len() == 1);
    }
}

proof fn lemma_split_len(s: Seq<char>, c: char)
    ensures
        split(s, c).len() >= 1,
    decreases s.len(),
{
    let i = first_index(s, c);
    if 0 <= i < s.len() {
        lemma_split_len(s.skip(i + 1), c);
    }
}

/// The pieces of a text do not hold the character it was split at.
pub proof fn lemma_split_pieces(s: Seq<char>, c: char)
    ensures
        forall|i: int| 0 <= i < split(s, c).len() ==> !(#[trigger] split(s, c)[i]).contains(c),
    decreases s.len(),
{
    lemma_first_index_bounds(s, c);
    let i = first_index(s, c);
    if i < s.len() {
        lemma_split_pieces(s.skip(i + 1), c);
        let rest = split(s.skip(i + 1), c);
        assert forall|k: int| 0 <= k < split(s, c).len() implies !(
        #[trigger] split(s, c)[k]).contains(c) by {
            if k > 0 {
                assert(split(s, c)[k] == rest[k - 1]);
            }
        }
    }
}

/// Pieces that are joined with a `c` between each two, and do not hold one
/// themselves, come back when the text is split.
pub proof fn lemma_split_of_joined(parts: Seq<Seq<char>>, c: char)
    requires
        parts.len() > 0,
        forall|i: int| 0 <= i < parts.len() ==> !(#[trigger] parts[i]).contains(c),
    ensures
        split(join(parts, seq![c]), c) == parts,
    decreases parts.len(),
{
    if parts.len() == 1 {
        lemma_first_index_bounds(parts[0], c);
        assert(split(parts[0], c) =~= parts);
    } else {
        let rest = parts.drop_last();
        assert forall|i: int| 0 <= i < rest.len() implies !(#[trigger] rest[i]).contains(c) by {
            assert(rest[i] == parts[i]);
        }
        lemma_split_of_joined(rest, c);
        lemma_split_append(join(rest, seq![c]), parts.last(), c);
        lemma_first_index_bounds(parts.last(), c);
        assert(split(parts.last(), c) =~= seq![parts.last()]);
        assert(join(parts, seq![c]) =~= join(rest, seq![c]).push(c) + parts.last());
        assert(rest + seq![parts.last()] =~= parts);
    }
}

/// Splitting two texts with a `c` between them gives the pieces of both.
pub proof fn lemma_split_append(s: Seq<char>, t: Seq<char>, c: char)
    ensures
        split(s.push(c) + t, c) == split(s, c) + split(t, c),
    decreases s.len(),
{
    let whole = s.push(c) + t;
    lemma_first_index_bounds(s, c);
    let i = first_index(s, c);
    if i < s.len() {
        lemma_first_index(whole, c, i);
        lemma_split_append(s.skip(i + 1), t, c);
        assert(whole.take(i) =~= s.take(i));
        assert(whole.skip(i + 1) =~= s.skip(i + 1).push(c) + t);
        assert(split(whole, c) =~= split(s, c) + split(t, c));
    } else {
        lemma_first_index(whole, c, s.len() as int);
        assert(whole.take(s.len() as int) =~= s);
        assert(whole.skip(s.len() as int + 1) =~= t);
        assert(split(whole, c) =~= split(s, c) + split(t, c));
    }
}

/// Splits `s` at every `c`.
pub fn split_at_char(s: &str, c: char) -> (result: Vec<String>)
    ensures
        views(result@) == split(s@, c),
        result@.len() >= 1,
{
    let v = chars_of(s);
    let mut result: Vec<String> = Vec::new();
    let mut from: usize = 0;
    proof {
        assert(s@.skip(0) == s@);
        assert(views(result@) + split(s@.skip(0), c) == split(s@, c));
    }
    loop
        invariant_except_break
            views(result@) + split(s@.skip(from as int), c) == split(s@, c),
        invariant
            v@ == s@,
            from <= v@.len(),
        ensures
            views(result@) == split(s@, c),
            result@.len() >= 1,
        decreases v@.len() + 1 - from,
    {
        let at = index_from(&v, from, c);
        let piece = string_of(&v, from, at);
        let ghost before = result@;
        let ghost rest = s@.skip(from as int);
        proof {
            lemma_views_push(before, piece);
            assert(piece@ == rest.take(at - from));
            lemma_first_index_bounds(rest, c);
        }
        result.push(piece);
        if at == v.len() {
            proof {
                assert(rest.take(at - from) == rest);
                assert(views(result@) == views(before) + seq![rest]);
            }
            break;
        }
        from = at + 1;
        proof {
            let i = first_index(rest, c);
            assert(rest.skip(i + 1) == s@.skip(from as int));
            assert(views(before).push(piece@) + split(s@.skip(from as int), c) == views(before) + (
            seq![rest.take(i)] + split(rest.skip(i + 1), c)));
        }
    }
    result
}

/// Splits `s` at the first `c`, which is in neither half.
pub open spec fn split_once(s: Seq<char>, c: char) -> Option<(Seq<char>, Seq<char>)> {
    let i = first_index(s, c);
    if i < s.len() {
        Some((s.take(i), s.skip(i + 1)))
    } else {
        None
    }
}

/// Splits `s` at the first `c`, which is in neither half.
pub fn split_once_at(s: &str, c: char) -> (result: Option<(String, String)>)
    ensures
        match result {
            Some(pair) => split_once(s@, c) == Some((pair.0@, pair.1@)),
            None => split_once(s@, c) is None,
        },
{
    let v = chars_of(s);
    let at = index_from(&v, 0, c);
    proof {
        assert(s@.skip(0) == s@);
    }
    if at < v.len() {
        let head = string_of(&v, 0, at);
        let tail = string_of(&v, at + 1, v.len());
        proof {
            assert(head@ == s@.take(at as int));
            assert(tail@ == s@.skip(at + 1));
        }
        Some((head, tail))
    } else {
        None
    }
}

/// `s` without one carriage return at its end.
pub open spec fn without_cr(s: Seq<char>) -> Seq<char> {
    if s.len() > 0 && s.last() == '\r' {
        s.drop_last()
    } else {
        s
    }
}

/// The lines of a text. A line ends in a line feed, with or without a carriage
/// return before it; the last line need not end in one.
pub open spec fn lines(s: Seq<char>) -> Seq<Seq<char>>
    decreases s.len(),
{
    let i = first_index(s, '\n');
    if s.len() == 0 {
        seq![]
    } else if 0 <= i < s.len() {
        seq![without_cr(s.take(i))] + lines(s.skip(i + 1))
    } else {
        seq![s]
    }
}

/// The lines of `s`, without their line endings.
pub fn lines_of(s: &str) -> (result: Vec<String>)
    ensures
        views(result@) == lines(s@),
{
    let v = chars_of(s);
    let mut result: Vec<String> = Vec::new();
    let mut from: usize = 0;
    proof {
        assert(s@.skip(0) == s@);
        assert(views(result@) + lines(s@.skip(0)) == lines(s@));
    }
    while from < v.len()
        invariant
            v@ == s@,
            from <= v@.len(),
            views(result@) + lines(s@.skip(from as int)) == lines(s@),
        decreases v@.len() - from,
    {
        let at = index_from(&v, from, '\n');
        let ghost before = result@;
        let ghost rest = s@.skip(from as int);
        proof {
            lemma_first_index_bounds(rest, '\n');
        }
        if at == v.len() {
            let piece = string_of(&v, from, at);
            proof {
                lemma_views_push(before, piece);
                assert(piece@ == rest);
                assert(s@.skip(at as int) == Seq::<char>::empty());
                assert(views(before).push(piece@) + lines(s@.skip(at as int)) == views(before)
                    + seq![rest]);
            }
            result.push(piece);
            from = at;
        } else {
            let end: usize = if at > from && v[at - 1] == '\r' {
                at - 1
            } else {
                at
            };
            let piece = string_of(&v, from, end);
            proof {
                let i = first_index(rest, '\n');
                lemma_views_push(before, piece);
                assert(piece@ == without_cr(rest.take(i)));
                assert(rest.skip(i + 1) == s@.skip(at + 1));
                assert(views(before).push(piece@) + lines(s@.skip(at + 1)) == views(before) + (
                seq![without_cr(rest.take(i))] + lines(rest.skip(i + 1))));
            }
            result.push(piece);
            from = at + 1;
        }
    }
    proof {
        assert(s@.skip(from as int) == Seq::<char>::empty());
        assert(views(result@) + lines(s@.skip(from as int)) == views(result@));
    }
    result
}

/// `s` without the characters at its start that satisfy `p`.
pub open spec fn strip_start(s: Seq<char>, p: spec_fn(char) -> bool) -> Seq<char>
    decreases s.len(),
{
    if s.len() > 0 && p(s[0]) {
        strip_start(s.skip(1), p)
    } else {
        s
    }
}

/// `s` without the characters at its end that satisfy `p`.
pub open spec fn strip_end(s: Seq<char>, p: spec_fn(char) -> bool) -> Seq<char>
    decreases s.len(),
{
    if s.len() > 0 && p(s.last()) {
        strip_end(s.drop_last(), p)
    } else {
        s
    }
}

/// `s` without white space at its start.
pub open spec fn trim_start(s: Seq<char>) -> Seq<char> {
    strip_start(s, |c: char| is_white_space(c))
}

/// `s` without white space at its end.
pub open spec fn trim_end(s: Seq<char>) -> Seq<char> {
    strip_end(s, |c: char| is_white_space(c))
}

/// `s` without white space at either end.
pub open spec fn trim(s: Seq<char>) -> Seq<char> {
    trim_end(trim_start(s))
}

/// `s` without white space at its start.
pub fn trim_start_of<'a>(s: &'a str) -> (result: &'a str)
    ensures
        result@ == trim_start(s@),
{
    let v = chars_of(s);
    let mut i: usize = 0;
    proof {
        assert(s@.skip(0) == s@);
    }
    while i < v.len() && v[i].is_whitespace()
        invariant
            v@ == s@,
            i <= v@.len(),
            trim_start(s@.skip(i as int)) == trim_start(s@),
        decreases v@.len() - i,
    {
        proof {
            assert(s@.skip(i as int).skip(1) == s@.skip(i + 1));
        }
        i += 1;
    }
    s.substring_char(i, v.len())
}

/// `s` without white space at its end.
pub fn trim_end_of<'a>(s: &'a str) -> (result: &'a str)
    ensures
        result@ == trim_end(s@),
{
    let v = chars_of(s);
    let mut i: usize = v.len();
    proof {
        assert(s@.take(i as int) == s@);
    }
    while i > 0 && v[i - 1].is_whitespace()
        invariant
            v@ == s@,
            i <= v@.len(),
            trim_end(s@.take(i as int)) == trim_end(s@),
        decreases i,
    {
        proof {
            assert(s@.take(i as int).drop_last() == s@.take(i - 1));
        }
        i -= 1;
    }
    s.substring_char(0, i)
}

/// `s` without white space at either end.
pub fn trim_of<'a>(s: &'a str) -> (result: &'a str)
    ensures
        result@ == trim(s@),
{
    trim_end_of(trim_start_of(s))
}

/// Holds of one character alone.
pub open spec fn being(c: char) -> spec_fn(char) -> bool {
    |x: char| x == c
}

/// `s` without the run of `c` at its end.
pub fn strip_end_char<'a>(s: &'a str, c: char) -> (result: &'a str)
    ensures
        result@ == strip_end(s@, being(c)),
{
    let v = chars_of(s);
    let mut i: usize = v.len();
    let ghost p = being(c);
    proof {
        assert(s@.take(i as int) == s@);
    }
    while i > 0 && v[i - 1] == c
        invariant
            v@ == s@,
            i <= v@.len(),
            p == being(c),
            strip_end(s@.take(i as int), p) == strip_end(s@, p),
        decreases i,
    {
        proof {
            assert(s@.take(i as int).drop_last() == s@.take(i - 1));
        }
        i -= 1;
    }
    s.substring_char(0, i)
}

/// `s` without the run of `c` at its start.
pub fn strip_start_char<'a>(s: &'a str, c: char) -> (result: &'a str)
    ensures
        result@ == strip_start(s@, being(c)),
{
    let v = chars_of(s);
    let mut i: usize = 0;
    let ghost p = being(c);
    proof {
        assert(s@.skip(0) == s@);
    }
    while i < v.len() && v[i] == c
        invariant
            v@ == s@,
            i <= v@.len(),
            p == being(c),
            strip_start(s@.skip(i as int), p) == strip_start(s@, p),
        decreases v@.len() - i,
    {
        proof {
            assert(s@.skip(i as int).skip(1) == s@.skip(i + 1));
        }
        i += 1;
    }
    s.substring_char(i, v.len())
}

/// Whether `p` stands in `s` at index `i`.
pub open spec fn occurs_at(s: Seq<char>, p: Seq<char>, i: int) -> bool {
    0 <= i && i + p.len() <= s.len() && s.subrange(i, i + p.len()) == p
}

/// Whether `s` begins with `p`.
pub open spec fn starts_with(s: Seq<char>, p: Seq<char>) -> bool {
    occurs_at(s, p, 0)
}

/// Whether `s` ends with `p`.
pub open spec fn ends_with(s: Seq<char>, p: Seq<char>) -> bool {
    occurs_at(s, p, s.len() - p.len())
}

/// Whether `p` stands in `v` at index `i`.
pub fn matches_at(v: &Vec<char>, p: &Vec<char>, i: usize) -> (result: bool)
    requires
        i <= v@.len(),
    ensures
        result == occurs_at(v@, p@, i as int),
{
    let n: usize = v.len();
    if p.len() > n - i {
        return false;
    }
    let mut j: usize = 0;
    while j < p.len()
        invariant
            n == v@.len(),
            i <= v@.len(),
            j <= p@.len() <= v@.len() - i,
            forall|k: int| 0 <= k < j ==> v@[i + k] == p@[k],
        decreases p@.len() - j,
    {
        if v[i + j] != p[j] {
            proof {
                assert(v@.subrange(i as int, i + p@.len())[j as int] == v@[i + j]);
            }
            return false;
        }
        j += 1;
    }
    proof {
        assert(v@.subrange(i as int, i + p@.len()) == p@);
    }
    true
}

/// Whether `s` begins with `p`.
pub fn has_prefix(s: &str, p: &str) -> (result: bool)
    ensures
        result == starts_with(s@, p@),
{
    let v = chars_of(s);
    let q = chars_of(p);
    matches_at(&v, &q, 0)
}

/// Whether `s` ends with `p`.
pub fn has_suffix(s: &str, p: &str) -> (result: bool)
    ensures
        result == ends_with(s@, p@),
{
    let v = chars_of(s);
    let q = chars_of(p);
    if q.len() > v.len() {
        return false;
    }
    matches_at(&v, &q, v.len() - q.len())
}

/// Whether `c` stands in `s`.
pub fn has_char(s: &str, c: char) -> (result: bool)
    ensures
        result == s@.contains(c),
{
    let v = chars_of(s);
    let at = index_from(&v, 0, c);
    proof {
        assert(s@.skip(0) == s@);
        lemma_first_index_bounds(s@, c);
    }
    at < v.len()
}

/// Each character of `s` replaced by the text that `f` gives for it.
pub open spec fn expand(s: Seq<char>, f: spec_fn(char) -> Seq<char>) -> Seq<char>
    decreases s.len(),
{
    if s.len() == 0 {
        seq![]
    } else {
        expand(s.drop_last(), f) + f(s.last())
    }
}

pub proof fn lemma_expand_step(s: Seq<char>, f: spec_fn(char) -> Seq<char>, i: int)
    requires
        0 <= i < s.len(),
    ensures
        expand(s.take(i + 1), f) == expand(s.take(i), f) + f(s[i]),
{
    assert(s.take(i + 1).drop_last() == s.take(i));
}

pub proof fn lemma_expand_split(a: Seq<char>, b: Seq<char>, f: spec_fn(char) -> Seq<char>)
    ensures
        expand(a + b, f) == expand(a, f) + expand(b, f),
    decreases b.len(),
{
    if b.len() == 0 {
        assert(a + b == a);
        assert(expand(a, f) + expand(b, f) == expand(a, f));
    } else {
        lemma_expand_split(a, b.drop_last(), f);
        assert((a + b).drop_last() == a + b.drop_last());
        assert(expand(a, f) + (expand(b.drop_last(), f) + f(b.last())) == expand(a, f) + expand(
            b.drop_last(),
            f,
        ) + f(b.last()));
    }
}

/// The rule that puts `to` for `from` and leaves every other character alone.
pub open spec fn putting(from: char, to: Seq<char>) -> spec_fn(char) -> Seq<char> {
    |c: char|
        if c == from {
            to
        } else {
            seq![c]
        }
}

/// `s` with every `from` replaced by `to`.
pub open spec fn replace_char(s: Seq<char>, from: char, to: Seq<char>) -> Seq<char> {
    expand(s, putting(from, to))
}

/// `s` with every `from` replaced by `to`.
pub fn replaced(s: &str, from: char, to: &str) -> (result: String)
    ensures
        result@ == replace_char(s@, from, to@),
{
    let v = chars_of(s);
    let mut result = String::new();
    let ghost f = putting(from, to@);
    let mut i: usize = 0;
    while i < v.len()
        invariant
            v@ == s@,
            i <= v@.len(),
            f == putting(from, to@),
            result@ == expand(s@.take(i as int), f),
        decreases v@.len() - i,
    {
        proof {
            lemma_expand_step(s@, f, i as int);
        }
        let c = v[i];
        if c == from {
            result.append(to);
        } else {
            result.push(c);
        }
        i += 1;
    }
    proof {
        assert(s@.take(i as int) == s@);
    }
    result
}

/// The texts in order, with `sep` between each two of them.
pub open spec fn join(parts: Seq<Seq<char>>, sep: Seq<char>) -> Seq<char>
    decreases parts.len(),
{
    if parts.len() == 0 {
        seq![]
    } else if parts.len() == 1 {
        parts[0]
    } else {
        join(parts.drop_last(), sep) + sep + parts.last()
    }
}

/// Joined pieces begin as the first piece does and end as the last, if neither
/// is empty.
pub proof fn lemma_joined_ends(parts: Seq<Seq<char>>, c: char)
    requires
        parts.len() > 0,
        parts[0].len() > 0,
        parts.last().len() > 0,
    ensures
        join(parts, seq![c]).len() > 0,
        join(parts, seq![c])[0] == parts[0][0],
        join(parts, seq![c]).last() == parts.last().last(),
{
    lemma_joined_begin(parts, c);
}

proof fn lemma_joined_begin(parts: Seq<Seq<char>>, c: char)
    requires
        parts.len() > 0,
        parts[0].len() > 0,
    ensures
        join(parts, seq![c]).len() > 0,
        join(parts, seq![c])[0] == parts[0][0],
    decreases parts.len(),
{
    if parts.len() > 1 {
        lemma_joined_begin(parts.drop_last(), c);
    }
}

/// A text in which every `p` is replaced by `w`, from the front.
pub open spec fn replace_text(s: Seq<char>, p: Seq<char>, w: Seq<char>) -> Seq<char>
    decreases s.len(),
{
    if s.len() == 0 {
        seq![]
    } else if p.len() > 0 && starts_with(s, p) {
        w + replace_text(s.skip(p.len() as int), p, w)
    } else {
        seq![s[0]] + replace_text(s.skip(1), p, w)
    }
}

/// Replaces every `p` in a text by `w`. An empty `p` is nowhere.
pub fn replaced_text(s: &str, p: &str, w: &str) -> (result: String)
    ensures
        result@ == replace_text(s@, p@, w@),
{
    let v = chars_of(s);
    let q = chars_of(p);
    let n: usize = q.len();
    let len: usize = v.len();
    let mut result = String::new();
    let mut i: usize = 0;
    proof {
        assert(v@.skip(0) == v@);
        assert(result@ + replace_text(v@.skip(0), q@, w@) =~= replace_text(s@, p@, w@));
    }
    while i < len
        invariant
            v@ == s@,
            q@ == p@,
            n == q@.len(),
            len == v@.len(),
            i <= len,
            result@ + replace_text(v@.skip(i as int), q@, w@) == replace_text(s@, p@, w@),
        decreases len - i,
    {
        let ghost rest = v@.skip(i as int);
        let ghost before = result@;
        if n > 0 && matches_at(&v, &q, i) {
            proof {
                assert(rest.subrange(0, n as int) =~= v@.subrange(i as int, i + n));
                assert(rest.skip(n as int) =~= v@.skip(i + n));
            }
            result.append(w);
            proof {
                assert(result@ + replace_text(v@.skip(i + n), q@, w@) =~= before + (w@
                    + replace_text(v@.skip(i + n), q@, w@)));
            }
            i += n;
        } else {
            proof {
                if n > 0 && starts_with(rest, q@) {
                    assert(v@.subrange(i as int, i + n) =~= rest.subrange(0, n as int));
                }
                assert(rest.skip(1) =~= v@.skip(i + 1));
            }
            result.push(v[i]);
            proof {
                assert(result@ + replace_text(v@.skip(i + 1), q@, w@) =~= before + (seq![rest[0]]
                    + replace_text(v@.skip(i + 1), q@, w@)));
            }
            i += 1;
        }
    }
    proof {
        assert(v@.skip(i as int) =~= Seq::<char>::empty());
        assert(result@ + replace_text(v@.skip(i as int), q@, w@) =~= result@);
    }
    result
}

/// The strings `from` up to `to` in order, with `sep` between each two of them.
pub fn joined_range(parts: &Vec<String>, from: usize, to: usize, sep: &str) -> (result: String)
    requires
        from <= to <= parts@.len(),
    ensures
        result@ == join(views(parts@).subrange(from as int, to as int), sep@),
{
    let mut result = String::new();
    let mut i: usize = from;
    while i < to
        invariant
            from <= i <= to <= parts@.len(),
            result@ == join(views(parts@).subrange(from as int, i as int), sep@),
        decreases to - i,
    {
        proof {
            let next = views(parts@).subrange(from as int, i + 1);
            assert(next.drop_last() == views(parts@).subrange(from as int, i as int));
            assert(next.last() == parts@[i as int]@);
        }
        if i > from {
            result.append(sep);
        }
        result.append(parts[i].as_str());
        i += 1;
    }
    result
}

/// The strings in order, with `sep` between each two of them.
pub fn joined(parts: &Vec<String>, sep: &str) -> (result: String)
    ensures
        result@ == join(views(parts@), sep@),
{
    let result = joined_range(parts, 0, parts.len(), sep);
    proof {
        assert(views(parts@).subrange(0, parts@.len() as int) == views(parts@));
    }
    result
}

/// The character for a decimal digit.
pub open spec fn digit(n: nat) -> char {
    (48 + n) as char
}

/// A number in decimal notation.
pub open spec fn decimal(n: nat) -> Seq<char>
    decreases n,
{
    if n < 10 {
        seq![digit(n)]
    } else {
        decimal(n / 10).push(digit(n % 10))
    }
}

/// Appends `n` in decimal notation.
pub fn push_decimal(s: &mut String, n: u128)
    ensures
        final(s)@ == old(s)@ + decimal(n as nat),
    decreases n,
{
    if n >= 10 {
        push_decimal(s, n / 10);
    }
    let d: u8 = (n % 10) as u8;
    s.push((48 + d) as char);
    proof {
        assert(n < 10 ==> n % 10 == n);
        assert(s@ == old(s)@ + decimal(n as nat));
    }
}

/// `n` in decimal notation.
pub fn decimal_of(n: u64) -> (result: String)
    ensures
        result@ == decimal(n as nat),
{
    let mut result = String::new();
    push_decimal(&mut result, n as u128);
    proof {
        assert(result@ == decimal(n as nat));
    }
    result
}

/// Two texts, one after the other.
pub fn cat2(a: &str, b: &str) -> (result: String)
    ensures
        result@ == a@ + b@,
{
    let mut result = a.to_owned();
    result.append(b);
    result
}

/// Three texts, one after the other.
pub fn cat3(a: &str, b: &str, c: &str) -> (result: String)
    ensures
        result@ == a@ + b@ + c@,
{
    let mut result = cat2(a, b);
    result.append(c);
    result
}

/// Five texts, one after the other.
pub fn cat5(a: &str, b: &str, c: &str, d: &str, e: &str) -> (result: String)
    ensures
        result@ == a@ + b@ + c@ + d@ + e@,
{
    let mut result = cat3(a, b, c);
    result.append(d);
    result.append(e);
    result
}

/// Seven texts, one after the other.
pub fn cat7(a: &str, b: &str, c: &str, d: &str, e: &str, f: &str, g: &str) -> (result: String)
    ensures
        result@ == a@ + b@ + c@ + d@ + e@ + f@ + g@,
{
    let mut result = cat5(a, b, c, d, e);
    result.append(f);
    result.append(g);
    result
}

/// The text in an optional string.
pub open spec fn opt_text(s: Option<String>) -> Option<Seq<char>> {
    match s {
        Some(s) => Some(s@),
        None => None,
    }
}

/// The text in an optional string slice.
pub open spec fn opt_str(s: Option<&str>) -> Option<Seq<char>> {
    match s {
        Some(s) => Some(s@),
        None => None,
    }
}

/// Whether an optional string holds what an optional slice holds.
pub fn same_opt(a: &Option<String>, b: Option<&str>) -> (result: bool)
    ensures
        result == (opt_text(*a) == opt_str(b)),
{
    match a {
        Some(x) => match b {
            Some(y) => same(x.as_str(), y),
            None => false,
        },
        None => b.is_none(),
    }
}

/// The text of an optional string in lowercase.
pub open spec fn opt_lowercase(s: Option<Seq<char>>) -> Option<Seq<char>> {
    match s {
        Some(s) => Some(lowercase(s)),
        None => None,
    }
}

/// An optional string in lowercase.
pub fn lowercased_opt(s: &Option<String>) -> (result: Option<String>)
    ensures
        opt_text(result) == opt_lowercase(opt_text(*s)),
{
    match s {
        Some(x) => Some(x.as_str().to_lowercase()),
        None => None,
    }
}

/// The first value that `f` gives for an element of `s`, in order.
pub open spec fn first_some<A, B>(s: Seq<A>, f: spec_fn(A) -> Option<B>) -> Option<B>
    decreases s.len(),
{
    if s.len() == 0 {
        None
    } else {
        match f(s[0]) {
            Some(b) => Some(b),
            None => first_some(s.skip(1), f),
        }
    }
}

pub proof fn lemma_first_some_none<A, B>(s: Seq<A>, f: spec_fn(A) -> Option<B>)
    ensures
        first_some(s, f) is None <==> forall|i: int| 0 <= i < s.len() ==> f(#[trigger] s[i]) is None,
    decreases s.len(),
{
    if s.len() > 0 {
        lemma_first_some_none(s.skip(1), f);
        assert forall|i: int| first_some(s, f) is None && 0 <= i < s.len() implies f(
            #[trigger] s[i],
        ) is None by {
            if i > 0 {
                assert(s[i] == s.skip(1)[i - 1]);
            }
        }
        if forall|i: int| 0 <= i < s.len() ==> f(#[trigger] s[i]) is None {
            assert forall|i: int| 0 <= i < s.skip(1).len() implies f(
                #[trigger] s.skip(1)[i],
            ) is None by {
                assert(s.skip(1)[i] == s[i + 1]);
            }
        }
    }
}

/// How many bytes a text takes in UTF-8.
pub open spec fn byte_len(s: Seq<char>) -> nat {
    vstd::utf8::encode_utf8(s).len()
}

/// How many bytes `s` takes.
pub fn byte_length(s: &str) -> (result: usize)
    ensures
        result == byte_len(s@),
{
    s.as_bytes().len()
}

/// The first of two optional values that is there.
pub open spec fn first_of<A>(a: Option<A>, b: Option<A>) -> Option<A> {
    if a is Some {
        a
    } else {
        b
    }
}

/// Whether one of the strings is `x`.
pub fn lists(v: &Vec<String>, x: &str) -> (result: bool)
    ensures
        result == views(v@).contains(x@),
{
    let mut i: usize = 0;
    while i < v.len()
        invariant
            i <= v@.len(),
            forall|j: int| 0 <= j < i ==> #[trigger] views(v@)[j] != x@,
        decreases v@.len() - i,
    {
        if same(v[i].as_str(), x) {
            proof {
                assert(views(v@)[i as int] == x@);
            }
            return true;
        }
        i += 1;
    }
    false
}

/// The same strings again.
pub fn copied(v: &Vec<String>) -> (result: Vec<String>)
    ensures
        views(result@) == views(v@),
{
    let mut result: Vec<String> = Vec::new();
    let mut i: usize = 0;
    while i < v.len()
        invariant
            i <= v@.len(),
            result@.len() == i,
            forall|j: int| 0 <= j < i ==> (#[trigger] result@[j])@ == v@[j]@,
        decreases v@.len() - i,
    {
        result.push(v[i].clone());
        i += 1;
    }
    proof {
        assert(views(result@) =~= views(v@));
    }
    result
}

/// Where `c` last stands in `s`; -1 if it does not.
pub open spec fn last_index(s: Seq<char>, c: char) -> int
    decreases s.len(),
{
    if s.len() == 0 {
        -1
    } else if s.last() == c {
        s.len() - 1
    } else {
        last_index(s.drop_last(), c)
    }
}

pub proof fn lemma_last_index(s: Seq<char>, c: char)
    ensures
        -1 <= last_index(s, c) < s.len(),
        last_index(s, c) >= 0 ==> s[last_index(s, c)] == c,
        forall|j: int| last_index(s, c) < j < s.len() ==> s[j] != c,
    decreases s.len(),
{
    if s.len() > 0 && s.last() != c {
        lemma_last_index(s.drop_last(), c);
        assert forall|j: int| last_index(s, c) < j < s.len() implies s[j] != c by {
            if j < s.len() - 1 {
                assert(s[j] == s.drop_last()[j]);
            }
        }
    }
}

/// One more than the place where `c` last stands in `v`; 0 if it does not.
pub fn after_last_index(v: &Vec<char>, c: char) -> (result: usize)
    ensures
        result == last_index(v@, c) + 1,
        result <= v@.len(),
{
    let mut i: usize = v.len();
    proof {
        lemma_last_index(v@, c);
    }
    while i > 0 && v[i - 1] != c
        invariant
            i <= v@.len(),
            forall|j: int| i <= j < v@.len() ==> v@[j] != c,
            last_index(v@, c) < i,
            last_index(v@, c) >= 0 ==> v@[last_index(v@, c)] == c,
        decreases i,
    {
        i -= 1;
    }
    proof {
        lemma_last_index(v@, c);
    }
    i
}

/// The part of `s` behind the last `c`; all of it where there is none.
pub open spec fn after_last(s: Seq<char>, c: char) -> Seq<char> {
    s.skip(last_index(s, c) + 1)
}

/// The part of `s` behind the last `c`; all of it where there is none.
pub fn behind_last<'a>(s: &'a str, c: char) -> (result: &'a str)
    ensures
        result@ == after_last(s@, c),
{
    let v = chars_of(s);
    let i = after_last_index(&v, c);
    s.substring_char(i, v.len())
}

/// An integer in decimal notation.
pub open spec fn signed_decimal(n: int) -> Seq<char> {
    if n < 0 {
        "-"@ + decimal((-n) as nat)
    } else {
        decimal(n as nat)
    }
}

/// `n` in decimal notation.
pub fn signed_decimal_of(n: i64) -> (result: String)
    ensures
        result@ == signed_decimal(n as int),
{
    if n < 0 {
        let magnitude: u64 = (-(n as i128)) as u64;
        let digits = decimal_of(magnitude);
        cat2("-", digits.as_str())
    } else {
        decimal_of(n as u64)
    }
}

/// How many bytes a character takes in UTF-8.
pub open spec fn width(c: char) -> nat {
    let n = c as u32;
    if n < 0x80 {
        1
    } else if n < 0x800 {
        2
    } else if n < 0x10000 {
        3
    } else {
        4
    }
}

pub proof fn lemma_byte_len_first(s: Seq<char>)
    requires
        s.len() > 0,
    ensures
        byte_len(s) == width(s[0]) + byte_len(s.skip(1)),
{
    let c = s[0];
    vstd::utf8::char_is_scalar(c);
    assert(vstd::utf8::encode_scalar(c as u32).len() == width(c));
    assert(s.skip(1) == s.drop_first());
}

/// How many bytes `c` takes.
pub fn width_of(c: char) -> (result: usize)
    ensures
        result == width(c),
{
    let n: u32 = c as u32;
    if n < 0x80 {
        1
    } else if n < 0x800 {
        2
    } else if n < 0x10000 {
        3
    } else {
        4
    }
}

/// How many characters at the start of `s` fit into `n` bytes.
pub open spec fn fitting(s: Seq<char>, n: nat) -> nat
    decreases s.len(),
{
    if s.len() == 0 || width(s[0]) > n {
        0
    } else {
        1 + fitting(s.skip(1), (n - width(s[0])) as nat)
    }
}

pub proof fn lemma_fitting(s: Seq<char>, n: nat)
    ensures
        fitting(s, n) <= s.len(),
        byte_len(s.take(fitting(s, n) as int)) <= n,
        fitting(s, n) < s.len() ==> byte_len(s.take(fitting(s, n) as int + 1)) > n,
    decreases s.len(),
{
    if s.len() == 0 || width(s[0]) > n {
        assert(s.take(0) == Seq::<char>::empty());
        if s.len() > 0 {
            lemma_byte_len_first(s.take(1));
        }
    } else {
        let rest = s.skip(1);
        let m = (n - width(s[0])) as nat;
        lemma_fitting(rest, m);
        let k = fitting(rest, m) as int;
        lemma_byte_len_first(s.take(k + 1));
        assert(s.take(k + 1).skip(1) == rest.take(k));
        if k < rest.len() {
            lemma_byte_len_first(s.take(k + 2));
            assert(s.take(k + 2).skip(1) == rest.take(k + 1));
        }
    }
}

/// How many characters at the start of `v` fit into `n` bytes.
pub fn fitting_of(v: &Vec<char>, n: usize) -> (result: usize)
    ensures
        result == fitting(v@, n as nat),
        result <= v@.len(),
{
    let mut i: usize = 0;
    let mut left: usize = n;
    proof {
        assert(v@.skip(0) == v@);
    }
    while i < v.len() && width_of(v[i]) <= left
        invariant
            i <= v@.len(),
            i + fitting(v@.skip(i as int), left as nat) == fitting(v@, n as nat),
        decreases v@.len() - i,
    {
        proof {
            assert(v@.skip(i as int).skip(1) == v@.skip(i + 1));
        }
        left = left - width_of(v[i]);
        i += 1;
    }
    i
}

/// The character that begins at byte `n` of `s`, by its place; the length of
/// `s` for the byte behind it. `None` inside a character and beyond the end.
pub open spec fn char_at_byte(s: Seq<char>, n: nat) -> Option<nat>
    decreases s.len(),
{
    if n == 0 {
        Some(0)
    } else if s.len() == 0 || width(s[0]) > n {
        None
    } else {
        match char_at_byte(s.skip(1), (n - width(s[0])) as nat) {
            Some(k) => Some(k + 1),
            None => None,
        }
    }
}

/// The character of `v` that begins at byte `n`, by its place.
pub fn char_at_byte_of(v: &Vec<char>, n: usize) -> (result: Option<usize>)
    ensures
        match result {
            Some(k) => char_at_byte(v@, n as nat) == Some(k as nat) && k <= v@.len(),
            None => char_at_byte(v@, n as nat) is None,
        },
{
    let mut i: usize = 0;
    let mut left: usize = n;
    proof {
        assert(v@.skip(0) == v@);
    }
    while left > 0
        invariant
            i <= v@.len(),
            match char_at_byte(v@.skip(i as int), left as nat) {
                Some(k) => char_at_byte(v@, n as nat) == Some(i as nat + k),
                None => char_at_byte(v@, n as nat) is None,
            },
        decreases left,
    {
        if i == v.len() {
            return None;
        }
        let w = width_of(v[i]);
        if w > left {
            return None;
        }
        proof {
            assert(v@.skip(i as int).skip(1) == v@.skip(i + 1));
        }
        left = left - w;
        i += 1;
    }
    Some(i)
}

/// The number that some digits stand for.
pub open spec fn digits_value(s: Seq<char>) -> Option<nat>
    decreases s.len(),
{
    if s.len() == 0 {
        Some(0)
    } else if !('0' <= s.last() <= '9') {
        None
    } else {
        match digits_value(s.drop_last()) {
            Some(n) => Some(n * 10 + (s.last() as u32 - 48) as nat),
            None => None,
        }
    }
}

/// The number that a text is, if it is one and at most `max`: at least one
/// digit, with nothing else but a plus sign in front.
pub open spec fn number(s: Seq<char>, max: nat) -> Option<nat> {
    let digits = if s.len() > 0 && s[0] == '+' {
        s.skip(1)
    } else {
        s
    };
    match digits_value(digits) {
        Some(n) => if digits.len() > 0 && n <= max {
            Some(n)
        } else {
            None
        },
        None => None,
    }
}

proof fn lemma_digits_value_prefix(s: Seq<char>, i: int)
    requires
        0 <= i <= s.len(),
    ensures
        digits_value(s.take(i)) is None ==> digits_value(s) is None,
        digits_value(s) is Some ==> digits_value(s.take(i)) is Some && digits_value(s.take(i))->0
            <= digits_value(s)->0,
    decreases s.len(),
{
    if i < s.len() {
        lemma_digits_value_prefix(s.drop_last(), i);
        assert(s.drop_last().take(i) == s.take(i));
    } else {
        assert(s.take(i) == s);
    }
}

/// The number that a text is, if it is one that fits.
pub fn number_of(s: &str) -> (result: Option<usize>)
    ensures
        match result {
            Some(n) => number(s@, usize::MAX as nat) == Some(n as nat),
            None => number(s@, usize::MAX as nat) is None,
        },
{
    let v = chars_of(s);
    let start: usize = if v.len() > 0 && v[0] == '+' {
        1
    } else {
        0
    };
    let ghost digits = if s@.len() > 0 && s@[0] == '+' {
        s@.skip(1)
    } else {
        s@
    };
    proof {
        assert(digits =~= s@.skip(start as int));
    }
    if start == v.len() {
        return None;
    }
    let mut n: usize = 0;
    let mut i: usize = start;
    while i < v.len()
        invariant
            v@ == s@,
            start <= i <= v@.len(),
            start < v@.len(),
            digits == s@.skip(start as int),
            digits == if s@.len() > 0 && s@[0] == '+' {
                s@.skip(1)
            } else {
                s@
            },
            digits_value(digits.take(i - start)) == Some(n as nat),
        decreases v@.len() - i,
    {
        let c = v[i];
        proof {
            let k = i - start;
            assert(digits.take(k + 1).drop_last() == digits.take(k));
            assert(digits.take(k + 1).last() == c);
            lemma_digits_value_prefix(digits, k + 1);
        }
        if c < '0' || c > '9' {
            return None;
        }
        let d: usize = (c as u32 - 48) as usize;
        if n > (usize::MAX - d) / 10 {
            proof {
                assert(n * 10 + d > usize::MAX);
            }
            return None;
        }
        n = n * 10 + d;
        i += 1;
    }
    proof {
        assert(digits.take(i - start) == digits);
    }
    Some(n)
}

/// The number that a text is, if it is one that fits.
pub fn number_u64(s: &str) -> (result: Option<u64>)
    ensures
        match result {
            Some(n) => number(s@, u64::MAX as nat) == Some(n as nat),
            None => number(s@, u64::MAX as nat) is None,
        },
{
    let v = chars_of(s);
    let start: usize = if v.len() > 0 && v[0] == '+' {
        1
    } else {
        0
    };
    let ghost digits = if s@.len() > 0 && s@[0] == '+' {
        s@.skip(1)
    } else {
        s@
    };
    proof {
        assert(digits =~= s@.skip(start as int));
    }
    if start == v.len() {
        return None;
    }
    let mut n: u64 = 0;
    let mut i: usize = start;
    while i < v.len()
        invariant
            v@ == s@,
            start <= i <= v@.len(),
            start < v@.len(),
            digits == s@.skip(start as int),
            digits == if s@.len() > 0 && s@[0] == '+' {
                s@.skip(1)
            } else {
                s@
            },
            digits_value(digits.take(i - start)) == Some(n as nat),
        decreases v@.len() - i,
    {
        let c = v[i];
        proof {
            let k = i - start;
            assert(digits.take(k + 1).drop_last() == digits.take(k));
            assert(digits.take(k + 1).last() == c);
            lemma_digits_value_prefix(digits, k + 1);
        }
        if c < '0' || c > '9' {
            return None;
        }
        let d: u64 = (c as u32 - 48) as u64;
        if n > (u64::MAX - d) / 10 {
            proof {
                assert(n * 10 + d > u64::MAX);
            }
            return None;
        }
        n = n * 10 + d;
        i += 1;
    }
    proof {
        assert(digits.take(i - start) == digits);
    }
    Some(n)
}

/// Whether `a` comes before `b` in the order of their characters.
pub open spec fn precedes(a: Seq<char>, b: Seq<char>) -> bool
    decreases a.len(),
{
    if b.len() == 0 {
        false
    } else if a.len() == 0 {
        true
    } else if a[0] != b[0] {
        a[0] < b[0]
    } else {
        precedes(a.skip(1), b.skip(1))
    }
}

pub proof fn lemma_precedes_total(a: Seq<char>, b: Seq<char>)
    ensures
        precedes(a, b) || precedes(b, a) || a == b,
        !(precedes(a, b) && precedes(b, a)),
        a == b ==> !precedes(a, b),
    decreases a.len(),
{
    if a.len() == 0 || b.len() == 0 {
        if a.len() == 0 && b.len() == 0 {
            assert(a =~= b);
        }
    } else if a[0] == b[0] {
        lemma_precedes_total(a.skip(1), b.skip(1));
        if a.skip(1) == b.skip(1) {
            assert(a =~= seq![a[0]] + a.skip(1));
            assert(b =~= seq![b[0]] + b.skip(1));
        }
    }
}

pub proof fn lemma_precedes_transitive(a: Seq<char>, b: Seq<char>, c: Seq<char>)
    requires
        precedes(a, b),
        precedes(b, c),
    ensures
        precedes(a, c),
    decreases a.len(),
{
    if a.len() > 0 && a[0] == b[0] && b[0] == c[0] {
        lemma_precedes_transitive(a.skip(1), b.skip(1), c.skip(1));
    }
}

/// Whether `a` comes before `b` in the order of their characters.
pub fn comes_before(a: &str, b: &str) -> (result: bool)
    ensures
        result == precedes(a@, b@),
{
    let v = chars_of(a);
    let w = chars_of(b);
    let mut i: usize = 0;
    proof {
        assert(a@.skip(0) == a@);
        assert(b@.skip(0) == b@);
    }
    while i < v.len() && i < w.len() && v[i] == w[i]
        invariant
            v@ == a@,
            w@ == b@,
            i <= v@.len(),
            i <= w@.len(),
            precedes(a@.skip(i as int), b@.skip(i as int)) == precedes(a@, b@),
        decreases v@.len() - i,
    {
        proof {
            assert(a@.skip(i as int).skip(1) == a@.skip(i + 1));
            assert(b@.skip(i as int).skip(1) == b@.skip(i + 1));
        }
        i += 1;
    }
    if i == w.len() {
        false
    } else if i == v.len() {
        true
    } else {
        v[i] < w[i]
    }
}

/// Whether a text can be a line: it holds no line feed and does not end in a
/// carriage return.
pub open spec fn is_line(s: Seq<char>) -> bool {
    !s.contains('\n') && (s.len() > 0 ==> s.last() != '\r')
}

proof fn lemma_join_first(parts: Seq<Seq<char>>, sep: Seq<char>)
    requires
        parts.len() >= 2,
    ensures
        join(parts, sep) == parts[0] + sep + join(parts.skip(1), sep),
    decreases parts.len(),
{
    if parts.len() == 2 {
        assert(join(parts.drop_last(), sep) == parts[0]);
        assert(join(parts.skip(1), sep) == parts[1]);
    } else {
        lemma_join_first(parts.drop_last(), sep);
        assert(parts.drop_last().skip(1) == parts.skip(1).drop_last());
        assert(parts.skip(1).last() == parts.last());
        let middle = join(parts.skip(1).drop_last(), sep);
        assert(join(parts.drop_last(), sep) == parts[0] + sep + middle);
        assert(join(parts.skip(1), sep) == middle + sep + parts.last());
        assert(parts[0] + sep + middle + sep + parts.last() =~= parts[0] + sep + (middle + sep
            + parts.last()));
    }
}

/// The lines of texts that are joined by line feeds, with one at the end, are
/// these texts.
pub proof fn lemma_lines_of_joined(parts: Seq<Seq<char>>)
    requires
        parts.len() > 0,
        forall|i: int| 0 <= i < parts.len() ==> is_line(#[trigger] parts[i]),
    ensures
        lines(join(parts, seq!['\n']).push('\n')) == parts,
    decreases parts.len(),
{
    let sep = seq!['\n'];
    let first = parts[0];
    assert(is_line(first));
    let s = join(parts, sep).push('\n');
    let rest = if parts.len() == 1 {
        Seq::<char>::empty()
    } else {
        join(parts.skip(1), sep).push('\n')
    };
    if parts.len() > 1 {
        lemma_join_first(parts, sep);
    }
    assert(s =~= first + sep + rest);
    assert forall|j: int| 0 <= j < first.len() implies s[j] != '\n' by {
        assert(s[j] == first[j]);
        assert(first.contains(first[j]));
    }
    lemma_first_index(s, '\n', first.len() as int);
    assert(s.take(first.len() as int) =~= first);
    assert(s.skip(first.len() as int + 1) =~= rest);
    assert(without_cr(first) == first);
    if parts.len() > 1 {
        let tail = parts.skip(1);
        assert forall|i: int| 0 <= i < tail.len() implies is_line(#[trigger] tail[i]) by {
            assert(tail[i] == parts[i + 1]);
        }
        lemma_lines_of_joined(tail);
        assert(seq![first] + tail =~= parts);
    } else {
        assert(seq![first] + lines(rest) =~= parts);
    }
}

/// A number is written with digits, at least one.
pub proof fn lemma_decimal_digits(n: nat)
    ensures
        decimal(n).len() > 0,
        forall|i: int| 0 <= i < decimal(n).len() ==> '0' <= #[trigger] decimal(n)[i] <= '9',
    decreases n,
{
    if n >= 10 {
        lemma_decimal_digits(n / 10);
    }
}

/// A number that is written is read again, as long as it is allowed.
pub proof fn law_numbers_are_read_as_written(n: nat, max: nat)
    ensures
        digits_value(decimal(n)) == Some(n),
        number(decimal(n), max) == if n <= max {
            Some(n)
        } else {
            None
        },
    decreases n,
{
    lemma_decimal_digits(n);
    assert(digits_value(Seq::<char>::empty()) == Some(0nat));
    assert(decimal(n).last() == digit(n % 10));
    assert('0' <= decimal(n)[0] <= '9');
    if n < 10 {
        assert(decimal(n).drop_last() =~= Seq::<char>::empty());
    } else {
        law_numbers_are_read_as_written(n / 10, max);
        assert(decimal(n).drop_last() =~= decimal(n / 10));
    }
}

/// Trimming takes white space off both ends and nothing else: what is left has
/// none there, and only white space is gone.
pub proof fn law_trimming_takes_white_space_only(s: Seq<char>)
    ensures
        ({
            let t = trim(s);
            &&& t.len() > 0 ==> !is_white_space(t[0]) && !is_white_space(t.last())
            &&& exists|i: int, j: int|
                {
                    &&& 0 <= i <= j <= s.len()
                    &&& t == #[trigger] s.subrange(i, j)
                    &&& forall|k: int|
                        0 <= k < i || j <= k < s.len() ==> is_white_space(#[trigger] s[k])
                }
        }),
{
    let p = |c: char| is_white_space(c);
    let i = lemma_strip_start_is_suffix(s, p);
    let u = trim_start(s);
    let n = lemma_strip_end_is_prefix(u, p);
    let t = trim(s);
    assert(t =~= s.subrange(i, i + n));
    assert forall|k: int| 0 <= k < i || i + n <= k < s.len() implies is_white_space(
        #[trigger] s[k],
    ) by {
        if k < i {
            assert(p(s[k]));
        } else {
            assert(u[k - i] == s[k]);
            assert(p(u[k - i]));
        }
    }
    if t.len() > 0 {
        assert(t[0] == u[0]);
        assert(!p(u[0]));
        assert(!p(t.last()));
    }
}

proof fn lemma_strip_start_is_suffix(s: Seq<char>, p: spec_fn(char) -> bool) -> (i: int)
    ensures
        0 <= i <= s.len(),
        strip_start(s, p) == s.skip(i),
        forall|k: int| 0 <= k < i ==> p(#[trigger] s[k]),
        i < s.len() ==> !p(s[i]),
    decreases s.len(),
{
    if s.len() > 0 && p(s[0]) {
        let j = lemma_strip_start_is_suffix(s.skip(1), p);
        assert(s.skip(1).skip(j) =~= s.skip(j + 1));
        assert forall|k: int| 0 <= k < j + 1 implies p(#[trigger] s[k]) by {
            if k > 0 {
                assert(s.skip(1)[k - 1] == s[k]);
            }
        }
        if j + 1 < s.len() {
            assert(s.skip(1)[j] == s[j + 1]);
        }
        j + 1
    } else {
        assert(s.skip(0) =~= s);
        0
    }
}

proof fn lemma_strip_end_is_prefix(s: Seq<char>, p: spec_fn(char) -> bool) -> (n: int)
    ensures
        0 <= n <= s.len(),
        strip_end(s, p) == s.take(n),
        forall|k: int| n <= k < s.len() ==> p(#[trigger] s[k]),
        n > 0 ==> !p(s[n - 1]),
    decreases s.len(),
{
    if s.len() > 0 && p(s.last()) {
        let m = lemma_strip_end_is_prefix(s.drop_last(), p);
        assert(s.drop_last().take(m) =~= s.take(m));
        assert forall|k: int| m <= k < s.len() implies p(#[trigger] s[k]) by {
            if k < s.len() - 1 {
                assert(s.drop_last()[k] == s[k]);
            }
        }
        m
    } else {
        assert(s.take(s.len() as int) =~= s);
        s.len() as int
    }
}

/// A text is split at the first mark: in front of it there is none, and the two
/// parts with the mark between them are the text.
pub proof fn law_a_text_is_split_at_the_first_mark(s: Seq<char>, c: char)
    ensures
        split_once(s, c) is None <==> !s.contains(c),
        split_once(s, c) matches Some((a, b)) ==> s == a.push(c) + b && !a.contains(c),
{
    lemma_first_index_bounds(s, c);
    let i = first_index(s, c);
    if i < s.len() {
        assert(s.contains(s[i]));
        assert(s =~= s.take(i).push(c) + s.skip(i + 1));
        assert(!s.take(i).contains(c));
    } else {
        assert(!s.contains(c));
    }
}

/// The pieces that a text is split into hold no mark, and with the mark between
/// them they are the text.
pub proof fn law_pieces_are_the_text(s: Seq<char>, c: char)
    ensures
        split(s, c).len() > 0,
        forall|i: int| 0 <= i < split(s, c).len() ==> !(#[trigger] split(s, c)[i]).contains(c),
        join(split(s, c), seq![c]) == s,
    decreases s.len(),
{
    lemma_first_index_bounds(s, c);
    let i = first_index(s, c);
    let all = split(s, c);
    if i < s.len() {
        let rest = split(s.skip(i + 1), c);
        law_pieces_are_the_text(s.skip(i + 1), c);
        assert(all =~= seq![s.take(i)] + rest);
        assert forall|k: int| 0 <= k < all.len() implies !(#[trigger] all[k]).contains(c) by {
            if k > 0 {
                assert(all[k] == rest[k - 1]);
            } else {
                assert(all[0] == s.take(i));
            }
        }
        lemma_join_first(all, seq![c]);
        assert(all.skip(1) =~= rest);
        assert(s =~= s.take(i) + seq![c] + s.skip(i + 1));
    } else {
        assert(join(all, seq![c]) == all[0]);
    }
}

/// A text is a list of lines: the first goes to the first line feed, without a
/// carriage return before it, and the others are the lines of what follows.
pub proof fn law_lines_end_at_line_feeds(first: Seq<char>, rest: Seq<char>)
    requires
        !first.contains('\n'),
    ensures
        lines(first.push('\n') + rest) == seq![
            if first.len() > 0 && first.last() == '\r' {
                first.drop_last()
            } else {
                first
            },
        ] + lines(rest),
        first.len() > 0 ==> lines(first) == seq![first],
        lines(Seq::empty()).len() == 0,
{
    let s = first.push('\n') + rest;
    assert forall|j: int| 0 <= j < first.len() implies s[j] != '\n' by {
        assert(s[j] == first[j]);
        assert(first.contains(first[j]));
    }
    lemma_first_index(s, '\n', first.len() as int);
    assert(s.take(first.len() as int) =~= first);
    assert(s.skip(first.len() as int + 1) =~= rest);
    assert forall|j: int| 0 <= j < first.len() implies first[j] != '\n' by {
        assert(first.contains(first[j]));
    }
    lemma_first_index(first, '\n', first.len() as int);
}

/// Texts are ordered by the first character in which they differ, and a text
/// comes before what it begins.
pub proof fn law_texts_are_ordered_by_the_first_difference(
    common: Seq<char>,
    a: Seq<char>,
    b: Seq<char>,
)
    ensures
        b.len() > 0 ==> precedes(common, common + b),
        a.len() > 0 && b.len() > 0 && a[0] < b[0] ==> precedes(common + a, common + b) && !precedes(
            common + b,
            common + a,
        ),
    decreases common.len(),
{
    if common.len() > 0 {
        law_texts_are_ordered_by_the_first_difference(common.skip(1), a, b);
        assert((common + a).skip(1) =~= common.skip(1) + a);
        assert((common + b).skip(1) =~= common.skip(1) + b);
    } else {
        assert(common + a =~= a);
        assert(common + b =~= b);
    }
}

/// Lowercase writes the letters from A to Z small, in place, and leaves every
/// other ASCII character as it is.
pub proof fn law_lowercase_is_letter_by_letter(s: Seq<char>, i: int)
    requires
        all_ascii(s),
        0 <= i < s.len(),
    ensures
        lowercase(s).len() == s.len(),
        'A' <= s[i] <= 'Z' ==> lowercase(s)[i] as u32 == s[i] as u32 + 32,
        !('A' <= s[i] <= 'Z') ==> lowercase(s)[i] == s[i],
        lowercase(lowercase(s)) == lowercase(s),
{
    let t = lowercase(s);
    assert forall|k: int| 0 <= k < t.len() implies (#[trigger] t[k] as u32) < 128 && ascii_lower(
        t[k],
    ) == t[k] by {
        assert((s[k] as u32) < 128);
    }
    assert(lowercase(t) =~= t);
}

/// A number with a sign: a negative one has a minus in front of its digits.
pub proof fn law_signs_stand_in_front(n: nat)
    ensures
        signed_decimal(n as int) == decimal(n),
        n > 0 ==> signed_decimal(-(n as int)) == seq!['-'] + decimal(n),
{
    reveal_strlit("-");
    assert("-"@ =~= seq!['-']);
}

pub proof fn lemma_first_some_at<A, B>(s: Seq<A>, f: spec_fn(A) -> Option<B>, i: int)
    requires
        0 <= i < s.len(),
        f(s[i]) is Some,
        forall|j: int| 0 <= j < i ==> f(#[trigger] s[j]) is None,
    ensures
        first_some(s, f) == f(s[i]),
    decreases i,
{
    if i > 0 {
        assert(f(s[0]) is None);
        let t = s.skip(1);
        assert forall|j: int| 0 <= j < i - 1 implies f(#[trigger] t[j]) is None by {
            assert(t[j] == s[j + 1]);
        }
        assert(t[i - 1] == s[i]);
        lemma_first_some_at(t, f, i - 1);
    }
}

/// Replacing a text puts the other one for each of its occurrences, from the
/// front on, and leaves what does not hold it as it is.
pub proof fn law_occurrences_are_replaced(
    a: Seq<char>,
    p: Seq<char>,
    w: Seq<char>,
    b: Seq<char>,
)
    requires
        p.len() > 0,
        forall|i: int| 0 <= i < a.len() ==> !occurs_at(a + p + b, p, i),
    ensures
        replace_text(a + p + b, p, w) == a + w + replace_text(b, p, w),
        (forall|i: int| 0 <= i < b.len() ==> !occurs_at(b, p, i)) ==> replace_text(b, p, w) == b,
    decreases a.len(), b.len(),
{
    let s = a + p + b;
    lemma_nothing_to_replace(b, p, w);
    if a.len() == 0 {
        assert(s.subrange(0, p.len() as int) =~= p);
        assert(s.skip(p.len() as int) =~= b);
        assert(a + w =~= w);
    } else {
        let rest = a.skip(1);
        let t = rest + p + b;
        assert(s.skip(1) =~= t);
        assert forall|i: int| 0 <= i < rest.len() implies !occurs_at(t, p, i) by {
            if occurs_at(t, p, i) {
                assert(s.subrange(i + 1, i + 1 + p.len()) =~= t.subrange(i, i + p.len()));
                assert(occurs_at(s, p, i + 1));
            }
        }
        assert(!occurs_at(s, p, 0));
        law_occurrences_are_replaced(rest, p, w, b);
        assert(seq![s[0]] + (rest + w + replace_text(b, p, w)) =~= a + w + replace_text(b, p, w));
    }
}

proof fn lemma_nothing_to_replace(b: Seq<char>, p: Seq<char>, w: Seq<char>)
    ensures
        (forall|i: int| 0 <= i < b.len() ==> !occurs_at(b, p, i)) ==> replace_text(b, p, w) == b,
    decreases b.len(),
{
    if b.len() > 0 && (forall|i: int| 0 <= i < b.len() ==> !occurs_at(b, p, i)) {
        let t = b.skip(1);
        assert forall|i: int| 0 <= i < t.len() implies !occurs_at(t, p, i) by {
            if occurs_at(t, p, i) {
                assert(b.subrange(i + 1, i + 1 + p.len()) =~= t.subrange(i, i + p.len()));
                assert(occurs_at(b, p, i + 1));
            }
        }
        assert(!occurs_at(b, p, 0));
        lemma_nothing_to_replace(t, p, w);
        assert(seq![b[0]] + t =~= b);
    }
}

/// A text ends at a character if and only if that is what it ends with: texts
/// are taken apart as they were put together.
pub proof fn law_beginnings_and_ends_are_found(a: Seq<char>, b: Seq<char>, p: Seq<char>)
    ensures
        starts_with(a + b, a),
        ends_with(a + b, b),
        occurs_at(a + p + b, p, a.len() as int),
        starts_with(b, p) <==> p.len() <= b.len() && b.take(p.len() as int) == p,
        ends_with(b, p) <==> p.len() <= b.len() && b.skip(b.len() - p.len()) == p,
{
    assert((a + b).subrange(0, a.len() as int) =~= a);
    assert((a + b).subrange(a.len() as int, (a + b).len() as int) =~= b);
    assert((a + p + b).subrange(a.len() as int, (a.len() + p.len()) as int) =~= p);
    if p.len() <= b.len() {
        assert(b.subrange(0, p.len() as int) =~= b.take(p.len() as int));
        assert(b.subrange(b.len() - p.len(), b.len() as int) =~= b.skip(b.len() - p.len()));
    }
}

/// White space in front does not matter.
pub proof fn lemma_trim_drops_white_space(blank: Seq<char>, s: Seq<char>)
    requires
        forall|i: int| 0 <= i < blank.len() ==> is_white_space(#[trigger] blank[i]),
    ensures
        trim_start(blank + s) == trim_start(s),
        trim(blank + s) == trim(s),
        s.len() == 0 ==> trim(blank + s).len() == 0,
    decreases blank.len(),
{
    if blank.len() > 0 {
        let rest = blank.skip(1);
        assert(is_white_space(blank[0]));
        assert((blank + s)[0] == blank[0]);
        assert((blank + s).skip(1) =~= rest + s);
        lemma_trim_drops_white_space(rest, s);
    } else {
        assert(blank + s =~= s);
    }
}

pub proof fn lemma_trim_keeps_first(s: Seq<char>)
    requires
        s.len() > 0,
        !is_white_space(s[0]),
    ensures
        trim(s).len() > 0,
        trim(s)[0] == s[0],
{
    let p = |c: char| is_white_space(c);
    let n = lemma_strip_end_is_prefix(s, p);
    if n == 0 {
        assert(p(s[0]));
    }
}

} // verus!
