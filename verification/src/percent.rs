//! Percent encoding of texts in URLs.

use vstd::prelude::*;
use crate::text;

verus! {

/// The capital hexadecimal digit for a number.
pub open spec fn hex_capital(n: int) -> char {
    if n < 10 {
        (48 + n) as char
    } else {
        (55 + n) as char
    }
}

/// The escape for one byte.
pub open spec fn escape(b: u8) -> Seq<char> {
    seq!['%', hex_capital(b as int / 16), hex_capital(b as int % 16)]
}

/// The escapes for some bytes.
pub open spec fn escapes(bytes: Seq<u8>) -> Seq<char>
    decreases bytes.len(),
{
    if bytes.len() == 0 {
        seq![]
    } else {
        escape(bytes[0]) + escapes(bytes.skip(1))
    }
}

/// What stands for a character: itself, if it is an ASCII character that is
/// safe, and otherwise the escapes for its UTF-8 bytes.
pub open spec fn unit(c: char, safe: spec_fn(char) -> bool) -> Seq<char> {
    if (c as u32) < 128 && safe(c) {
        seq![c]
    } else {
        escapes(vstd::utf8::encode_utf8(seq![c]))
    }
}

/// A text in which all but the safe ASCII characters are escaped.
pub open spec fn encoded(s: Seq<char>, safe: spec_fn(char) -> bool) -> Seq<char> {
    text::expand(s, |c: char| unit(c, safe))
}

/// Which characters may stand in a URL as they are.
#[derive(Clone, Copy)]
pub enum Safe {
    /// The letters and digits.
    Alphanumeric,
    /// What neither ends a path nor changes its meaning, the slash between its
    /// components included.
    Path,
    /// What may stand inside one component of a path.
    Segment,
}

/// The ASCII characters that a choice leaves alone.
pub open spec fn is_safe(set: Safe, c: char) -> bool {
    match set {
        Safe::Alphanumeric => text::ascii_alphanumeric(c),
        Safe::Path => !text::is_control_code(c) && !(c == ' ' || c == '"' || c == '#' || c == '%'
            || c == '&' || c == '\'' || c == '+' || c == '<' || c == '>' || c == '?' || c == '['
            || c == '\\' || c == ']' || c == '^' || c == '`' || c == '{' || c == '|' || c == '}'),
        Safe::Segment => !text::is_control_code(c) && !(c == ' ' || c == '#' || c == '?' || c == '%'
            || c == '/'),
    }
}

/// The choice as a predicate.
pub open spec fn safe_in(set: Safe) -> spec_fn(char) -> bool {
    |c: char| is_safe(set, c)
}

fn left_alone(set: Safe, c: char) -> (result: bool)
    ensures
        result == ((c as u32) < 128 && is_safe(set, c)),
{
    let n: u32 = c as u32;
    n < 128 && match set {
        Safe::Alphanumeric => ('a' <= c && c <= 'z') || ('A' <= c && c <= 'Z') || ('0' <= c && c
            <= '9'),
        Safe::Path => !c.is_control() && !(c == ' ' || c == '"' || c == '#' || c == '%' || c == '&'
            || c == '\'' || c == '+' || c == '<' || c == '>' || c == '?' || c == '[' || c == '\\'
            || c == ']' || c == '^' || c == '`' || c == '{' || c == '|' || c == '}'),
        Safe::Segment => !c.is_control() && !(c == ' ' || c == '#' || c == '?' || c == '%' || c
            == '/'),
    }
}

fn hex_capital_of(n: u8) -> (result: char)
    requires
        n < 16,
    ensures
        result == hex_capital(n as int),
{
    if n < 10 {
        (48 + n) as char
    } else {
        (55 + n) as char
    }
}

fn push_escapes(s: &mut String, bytes: &[u8])
    ensures
        final(s)@ == old(s)@ + escapes(bytes@),
{
    let mut i: usize = 0;
    proof {
        assert(bytes@.skip(0) == bytes@);
        assert(s@ + escapes(bytes@.skip(0)) == old(s)@ + escapes(bytes@));
    }
    while i < bytes.len()
        invariant
            i <= bytes@.len(),
            s@ + escapes(bytes@.skip(i as int)) == old(s)@ + escapes(bytes@),
        decreases bytes@.len() - i,
    {
        let b: u8 = bytes[i];
        let ghost before = s@;
        s.push('%');
        s.push(hex_capital_of(b / 16));
        s.push(hex_capital_of(b % 16));
        proof {
            let rest = bytes@.skip(i as int);
            assert(rest.skip(1) == bytes@.skip(i + 1));
            assert(s@ =~= before + escape(b));
            assert(s@ + escapes(rest.skip(1)) =~= before + (escape(b) + escapes(rest.skip(1))));
        }
        i += 1;
    }
    proof {
        assert(bytes@.skip(i as int) == Seq::<u8>::empty());
        assert(s@ + escapes(bytes@.skip(i as int)) =~= s@);
    }
}

/// Escapes all but the safe ASCII characters of a text.
pub fn percent_encode(s: &str, set: Safe) -> (result: String)
    ensures
        result@ == encoded(s@, safe_in(set)),
{
    let ghost safe = safe_in(set);
    let ghost f = |c: char| unit(c, safe);
    let v = text::chars_of(s);
    let mut result = String::new();
    let mut i: usize = 0;
    while i < v.len()
        invariant
            v@ == s@,
            i <= v@.len(),
            safe == safe_in(set),
            f == (|c: char| unit(c, safe)),
            result@ == text::expand(s@.take(i as int), f),
        decreases v@.len() - i,
    {
        let c = v[i];
        proof {
            text::lemma_expand_step(s@, f, i as int);
        }
        if left_alone(set, c) {
            result.push(c);
        } else {
            let mut one = String::new();
            one.push(c);
            proof {
                assert(one@ =~= seq![c]);
            }
            push_escapes(&mut result, one.as_str().as_bytes());
        }
        i += 1;
    }
    proof {
        assert(s@.take(i as int) == s@);
    }
    result
}

/// What a digit of an escape counts.
pub open spec fn capital_value(c: char) -> Option<int> {
    if '0' <= c <= '9' {
        Some(c as u32 - 48)
    } else if 'A' <= c <= 'F' {
        Some(c as u32 - 55)
    } else if 'a' <= c <= 'f' {
        Some(c as u32 - 87)
    } else {
        None
    }
}

/// The bytes that a percent-encoded text stands for: an escape stands for its
/// byte, everything else for itself.
pub open spec fn decoded(s: Seq<char>) -> Seq<u8>
    decreases s.len(),
{
    if s.len() == 0 {
        seq![]
    } else if s[0] == '%' && s.len() >= 3 && capital_value(s[1]) is Some && capital_value(
        s[2],
    ) is Some {
        seq![(capital_value(s[1])->0 * 16 + capital_value(s[2])->0) as u8] + decoded(s.skip(3))
    } else {
        vstd::utf8::encode_utf8(seq![s[0]]) + decoded(s.skip(1))
    }
}

proof fn lemma_decoded_escapes(bytes: Seq<u8>, rest: Seq<char>)
    ensures
        decoded(escapes(bytes) + rest) == bytes + decoded(rest),
    decreases bytes.len(),
{
    if bytes.len() == 0 {
        assert(escapes(bytes) + rest == rest);
        assert(bytes + decoded(rest) == decoded(rest));
    } else {
        let b = bytes[0];
        let more = escapes(bytes.skip(1)) + rest;
        let s = escapes(bytes) + rest;
        lemma_decoded_escapes(bytes.skip(1), rest);
        assert(s =~= escape(b) + more);
        assert(s.skip(3) =~= more);
        assert(s[1] == hex_capital(b as int / 16));
        assert(s[2] == hex_capital(b as int % 16));
        assert(capital_value(hex_capital(b as int / 16)) == Some(b as int / 16));
        assert(capital_value(hex_capital(b as int % 16)) == Some(b as int % 16));
        assert(seq![b] + (bytes.skip(1) + decoded(rest)) =~= bytes + decoded(rest));
    }
}

/// Decoding what was encoded gives the bytes of the text again, provided that
/// the percent sign is not among the safe characters.
pub proof fn law_encoding_can_be_undone(s: Seq<char>, safe: spec_fn(char) -> bool)
    requires
        !safe('%'),
    ensures
        decoded(encoded(s, safe)) == vstd::utf8::encode_utf8(s),
    decreases s.len(),
{
    let f = |c: char| unit(c, safe);
    if s.len() == 0 {
        assert(encoded(s, safe) =~= Seq::<char>::empty());
    } else {
        let c = s[0];
        let rest = s.skip(1);
        let tail = encoded(rest, safe);
        law_encoding_can_be_undone(rest, safe);
        assert(s =~= seq![c] + rest);
        text::lemma_expand_split(seq![c], rest, f);
        assert(seq![c].drop_last() == Seq::<char>::empty());
        assert(text::expand(seq![c], f) =~= unit(c, safe)) by {
            assert(text::expand(seq![c].drop_last(), f) == Seq::<char>::empty());
        }
        assert(encoded(s, safe) == unit(c, safe) + tail);
        let bytes = vstd::utf8::encode_utf8(seq![c]);
        assert(vstd::utf8::encode_utf8(s) == bytes + vstd::utf8::encode_utf8(rest)) by {
            assert(s.drop_first() == rest);
            assert(seq![c].drop_first() == Seq::<char>::empty());
            assert(vstd::utf8::encode_utf8(seq![c].drop_first()) == Seq::<u8>::empty());
            assert(bytes =~= vstd::utf8::encode_scalar(c as u32));
        }
        if (c as u32) < 128 && safe(c) {
            assert((seq![c] + tail).skip(1) =~= tail);
        } else {
            lemma_decoded_escapes(bytes, tail);
        }
    }
}

/// What an encoded text is made of: safe characters, letters, digits and
/// percent signs.
pub open spec fn is_plain(c: char, safe: spec_fn(char) -> bool) -> bool {
    text::ascii_alphanumeric(c) || c == '%' || ((c as u32) < 128 && safe(c))
}

/// An encoded text holds nothing but safe characters, letters, digits and
/// percent signs.
pub proof fn law_encoded_texts_are_plain(s: Seq<char>, safe: spec_fn(char) -> bool)
    ensures
        forall|i: int|
            0 <= i < encoded(s, safe).len() ==> is_plain(#[trigger] encoded(s, safe)[i], safe),
    decreases s.len(),
{
    if s.len() > 0 {
        law_encoded_texts_are_plain(s.drop_last(), safe);
        let c = s.last();
        if !((c as u32) < 128 && safe(c)) {
            lemma_escapes_are_plain(vstd::utf8::encode_utf8(seq![c]));
        }
        let all = encoded(s, safe);
        let head = encoded(s.drop_last(), safe);
        assert(all == head + unit(c, safe));
        assert forall|i: int| 0 <= i < all.len() implies is_plain(#[trigger] all[i], safe) by {
            if i < head.len() {
                assert(all[i] == head[i]);
            } else {
                assert(all[i] == unit(c, safe)[i - head.len()]);
            }
        }
    }
}

/// What is encoded for a query value holds letters, digits and percent signs
/// only, so it neither ends the value nor starts another.
pub proof fn law_query_values_are_plain(s: Seq<char>)
    ensures
        forall|i: int|
            0 <= i < encoded(s, safe_in(Safe::Alphanumeric)).len()
                ==> text::ascii_alphanumeric(
                #[trigger] encoded(s, safe_in(Safe::Alphanumeric))[i],
            ) || encoded(s, safe_in(Safe::Alphanumeric))[i] == '%',
{
    let safe = safe_in(Safe::Alphanumeric);
    law_encoded_texts_are_plain(s, safe);
    let all = encoded(s, safe);
    assert forall|i: int| 0 <= i < all.len() implies text::ascii_alphanumeric(#[trigger] all[i])
        || all[i] == '%' by {
        assert(is_plain(all[i], safe));
    }
}

proof fn lemma_escapes_are_plain(bytes: Seq<u8>)
    ensures
        forall|i: int|
            0 <= i < escapes(bytes).len() ==> text::ascii_alphanumeric(
                #[trigger] escapes(bytes)[i],
            ) || escapes(bytes)[i] == '%',
    decreases bytes.len(),
{
    if bytes.len() > 0 {
        lemma_escapes_are_plain(bytes.skip(1));
        let rest = escapes(bytes.skip(1));
        assert forall|i: int| 0 <= i < escapes(bytes).len() implies text::ascii_alphanumeric(
            #[trigger] escapes(bytes)[i],
        ) || escapes(bytes)[i] == '%' by {
            if i >= 3 {
                assert(escapes(bytes)[i] == rest[i - 3]);
            }
        }
    }
}

proof fn lemma_safe_texts_stay(s: Seq<char>, safe: spec_fn(char) -> bool)
    requires
        forall|i: int| 0 <= i < s.len() ==> (#[trigger] s[i] as u32) < 128 && safe(s[i]),
    ensures
        encoded(s, safe) == s,
    decreases s.len(),
{
    if s.len() > 0 {
        let rest = s.drop_last();
        assert forall|i: int| 0 <= i < rest.len() implies (#[trigger] rest[i] as u32) < 128 && safe(
            rest[i],
        ) by {
            assert(rest[i] == s[i]);
        }
        lemma_safe_texts_stay(rest, safe);
        let c = s[s.len() - 1];
        assert((c as u32) < 128 && safe(c));
        assert(encoded(s, safe) =~= s);
    } else {
        assert(encoded(s, safe) =~= s);
    }
}

/// Letters, digits and the usual marks of a file name are left as they are; in a
/// path the slashes are, too, and in one of its segments they are not.
pub proof fn law_ordinary_names_stay_readable(s: Seq<char>)
    requires
        forall|i: int|
            0 <= i < s.len() ==> text::ascii_alphanumeric(#[trigger] s[i]) || s[i] == '-' || s[i]
                == '_' || s[i] == '.' || s[i] == '/',
    ensures
        encoded(s, safe_in(Safe::Path)) == s,
        !s.contains('/') ==> encoded(s, safe_in(Safe::Segment)) == s,
        !is_safe(Safe::Segment, '/'),
        !is_safe(Safe::Segment, '?') && !is_safe(Safe::Segment, '#') && !is_safe(
            Safe::Segment,
            '%',
        ),
        !is_safe(Safe::Path, '?') && !is_safe(Safe::Path, '#') && !is_safe(Safe::Path, '%')
            && !is_safe(Safe::Path, '"') && !is_safe(Safe::Path, '\'') && !is_safe(
            Safe::Path,
            '<',
        ) && !is_safe(Safe::Path, '>') && !is_safe(Safe::Path, '&'),
        forall|c: char|
            #[trigger] is_safe(Safe::Alphanumeric, c) <==> 'a' <= c <= 'z' || 'A' <= c <= 'Z'
                || '0' <= c <= '9',
{
    lemma_safe_texts_stay(s, safe_in(Safe::Path));
    if !s.contains('/') {
        assert forall|i: int| 0 <= i < s.len() implies (#[trigger] s[i] as u32) < 128 && safe_in(
            Safe::Segment,
        )(s[i]) by {
            assert(s.contains(s[i]));
        }
        lemma_safe_texts_stay(s, safe_in(Safe::Segment));
    }
}

} // verus!
