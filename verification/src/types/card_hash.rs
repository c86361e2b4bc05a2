//! Content addresses.

use vstd::prelude::*;
use crate::error::{fail, Fallible};
use crate::text;

verus! {

/// The BLAKE3 digest of some bytes.
pub uninterp spec fn blake3_digest(data: Seq<u8>) -> Seq<u8>;

/// `blake3::hash` hashes the bytes in the default mode. What it returns is a
/// function of the bytes alone, called [`blake3_digest`] here; nothing more is
/// said of it than that it has 32 bytes, which the type shows.
#[verifier::external_body]
fn blake3_hash(data: &[u8]) -> (result: [u8; 32])
    ensures
        result@ == blake3_digest(data@),
{
    *blake3::hash(data).as_bytes()
}

/// A 256-bit digest, as four words with the most significant first.
#[derive(Clone, Copy, Debug, PartialEq, Eq, Structural)]
pub struct CardHash {
    pub a: u64,
    pub b: u64,
    pub c: u64,
    pub d: u64,
}

/// The number that eight bytes of `s`, from place `i` on, stand for. The first
/// of them is the most significant.
pub open spec fn word(s: Seq<u8>, i: int) -> int {
    let high = s[i] * 0x1000000 + s[i + 1] * 0x10000 + s[i + 2] * 0x100 + s[i + 3];
    let low = s[i + 4] * 0x1000000 + s[i + 5] * 0x10000 + s[i + 6] * 0x100 + s[i + 7];
    high * 0x1_0000_0000 + low
}

fn word_at(s: &[u8; 32], i: usize) -> (result: u64)
    requires
        i <= 24,
    ensures
        result == word(s@, i as int),
{
    let high: u64 = s[i] as u64 * 0x1000000 + s[i + 1] as u64 * 0x10000 + s[i + 2] as u64 * 0x100
        + s[i + 3] as u64;
    let low: u64 = s[i + 4] as u64 * 0x1000000 + s[i + 5] as u64 * 0x10000 + s[i + 6] as u64 * 0x100
        + s[i + 7] as u64;
    high * 0x1_0000_0000 + low
}

/// The digest of some bytes, as a hash.
pub open spec fn hashed(data: Seq<u8>) -> CardHash {
    let s = blake3_digest(data);
    CardHash {
        a: word(s, 0) as u64,
        b: word(s, 8) as u64,
        c: word(s, 16) as u64,
        d: word(s, 24) as u64,
    }
}

/// The character for a hexadecimal digit.
pub open spec fn hex_digit(n: nat) -> char {
    if n < 10 {
        (48 + n) as char
    } else {
        (87 + n) as char
    }
}

/// The last `width` hexadecimal digits of `n`.
pub open spec fn hex(n: nat, width: nat) -> Seq<char>
    decreases width,
{
    if width == 0 {
        seq![]
    } else {
        hex(n / 16, (width - 1) as nat).push(hex_digit(n % 16))
    }
}

/// What a hexadecimal digit counts, in either case.
pub open spec fn digit_value(c: char) -> Option<nat> {
    if '0' <= c <= '9' {
        Some((c as u32 - 48) as nat)
    } else if 'a' <= c <= 'f' {
        Some((c as u32 - 87) as nat)
    } else if 'A' <= c <= 'F' {
        Some((c as u32 - 55) as nat)
    } else {
        None
    }
}

/// The number that hexadecimal digits stand for.
pub open spec fn hex_value(s: Seq<char>) -> Option<nat>
    decreases s.len(),
{
    if s.len() == 0 {
        Some(0)
    } else {
        match (hex_value(s.drop_last()), digit_value(s.last())) {
            (Some(n), Some(d)) => Some(n * 16 + d),
            _ => None,
        }
    }
}

/// The 64 hexadecimal digits of a hash.
pub open spec fn hash_text(h: CardHash) -> Seq<char> {
    hex(h.a as nat, 16) + hex(h.b as nat, 16) + hex(h.c as nat, 16) + hex(h.d as nat, 16)
}

/// The hash that a text of 64 hexadecimal digits names.
pub open spec fn hash_named(s: Seq<char>) -> Option<CardHash> {
    if s.len() != 64 {
        None
    } else {
        match (
            hex_value(s.subrange(0, 16)),
            hex_value(s.subrange(16, 32)),
            hex_value(s.subrange(32, 48)),
            hex_value(s.subrange(48, 64)),
        ) {
            (Some(a), Some(b), Some(c), Some(d)) => Some(
                CardHash { a: a as u64, b: b as u64, c: c as u64, d: d as u64 },
            ),
            _ => None,
        }
    }
}

pub proof fn lemma_hex_len(n: nat, width: nat)
    ensures
        hex(n, width).len() == width,
    decreases width,
{
    if width > 0 {
        lemma_hex_len(n / 16, (width - 1) as nat);
    }
}

/// 16 to the power of `k`.
pub open spec fn pow16(k: nat) -> nat
    decreases k,
{
    if k == 0 {
        1
    } else {
        16 * pow16((k - 1) as nat)
    }
}

proof fn lemma_hex_round_trip(n: nat, width: nat)
    requires
        n < pow16(width),
    ensures
        hex_value(hex(n, width)) == Some(n),
    decreases width,
{
    if width > 0 {
        let rest = (width - 1) as nat;
        assert(n / 16 < pow16(rest)) by (nonlinear_arith)
            requires
                n < 16 * pow16(rest),
        ;
        lemma_hex_round_trip(n / 16, rest);
        let s = hex(n, width);
        assert(s.drop_last() == hex(n / 16, rest));
        assert(digit_value(hex_digit(n % 16)) == Some(n % 16));
    }
}

proof fn lemma_hex_value_bound(s: Seq<char>)
    ensures
        hex_value(s) matches Some(n) ==> n < pow16(s.len()),
    decreases s.len(),
{
    if s.len() > 0 {
        lemma_hex_value_bound(s.drop_last());
    }
}

proof fn lemma_pow16_16()
    ensures
        pow16(16) == 0x1_0000_0000_0000_0000,
{
    reveal_with_fuel(pow16, 17);
}

/// Reading back the digits of a hash gives the hash.
pub proof fn law_hash_text_round_trip(h: CardHash)
    ensures
        hash_text(h).len() == 64,
        hash_named(hash_text(h)) == Some(h),
{
    lemma_pow16_16();
    let (a, b, c, d) = (
        hex(h.a as nat, 16),
        hex(h.b as nat, 16),
        hex(h.c as nat, 16),
        hex(h.d as nat, 16),
    );
    lemma_hex_len(h.a as nat, 16);
    lemma_hex_len(h.b as nat, 16);
    lemma_hex_len(h.c as nat, 16);
    lemma_hex_len(h.d as nat, 16);
    lemma_hex_round_trip(h.a as nat, 16);
    lemma_hex_round_trip(h.b as nat, 16);
    lemma_hex_round_trip(h.c as nat, 16);
    lemma_hex_round_trip(h.d as nat, 16);
    let s = hash_text(h);
    assert(s.subrange(0, 16) == a);
    assert(s.subrange(16, 32) == b);
    assert(s.subrange(32, 48) == c);
    assert(s.subrange(48, 64) == d);
}

/// Different hashes have different digits.
pub proof fn law_hash_text_is_injective(g: CardHash, h: CardHash)
    requires
        hash_text(g) == hash_text(h),
    ensures
        g == h,
{
    law_hash_text_round_trip(g);
    law_hash_text_round_trip(h);
}

fn push_hex(s: &mut String, n: u64, width: usize)
    ensures
        final(s)@ == old(s)@ + hex(n as nat, width as nat),
    decreases width,
{
    if width > 0 {
        push_hex(s, n / 16, width - 1);
        let d: u8 = (n % 16) as u8;
        s.push(if d < 10 { (48 + d) as char } else { (87 + d) as char });
        proof {
            assert(s@ == old(s)@ + hex(n as nat, width as nat));
        }
    } else {
        proof {
            assert(s@ == old(s)@ + hex(n as nat, width as nat));
        }
    }
}

fn digit_of(c: char) -> (result: Option<u8>)
    ensures
        match result {
            Some(d) => digit_value(c) == Some(d as nat) && d < 16,
            None => digit_value(c) is None,
        },
{
    let n: u32 = c as u32;
    if '0' <= c && c <= '9' {
        Some((n - 48) as u8)
    } else if 'a' <= c && c <= 'f' {
        Some((n - 87) as u8)
    } else if 'A' <= c && c <= 'F' {
        Some((n - 55) as u8)
    } else {
        None
    }
}

fn word_named(v: &Vec<char>, from: usize) -> (result: Option<u64>)
    requires
        from + 16 <= v@.len(),
    ensures
        match result {
            Some(w) => hex_value(v@.subrange(from as int, from + 16)) == Some(w as nat),
            None => hex_value(v@.subrange(from as int, from + 16)) is None,
        },
{
    let n: usize = v.len();
    let mut w: u64 = 0;
    let mut i: usize = 0;
    let ghost all = v@.subrange(from as int, from + 16);
    while i < 16
        invariant
            i <= 16,
            n == v@.len(),
            from + 16 <= v@.len(),
            all == v@.subrange(from as int, from + 16),
            hex_value(all.take(i as int)) == Some(w as nat),
        decreases 16 - i,
    {
        proof {
            lemma_pow16_16();
            lemma_hex_value_bound(all.take(i as int));
            lemma_hex_value_bound(all.take(i + 1));
            assert(all.take(i + 1).drop_last() == all.take(i as int));
            lemma_pow16_monotone((i + 1) as nat, 16);
        }
        match digit_of(v[from + i]) {
            Some(d) => {
                proof {
                    assert(hex_value(all.take(i + 1)) == Some((w * 16 + d) as nat));
                }
                w = w * 16 + d as u64;
            },
            None => {
                proof {
                    assert(hex_value(all.take(i + 1)) is None);
                    lemma_hex_value_prefix(all, i + 1);
                }
                return None;
            },
        }
        i += 1;
    }
    proof {
        assert(all.take(16) == all);
    }
    Some(w)
}

proof fn lemma_pow16_monotone(i: nat, j: nat)
    requires
        i <= j,
    ensures
        pow16(i) <= pow16(j),
    decreases j,
{
    if i < j {
        lemma_pow16_monotone(i, (j - 1) as nat);
    }
}

proof fn lemma_hex_value_prefix(s: Seq<char>, i: int)
    requires
        0 <= i <= s.len(),
        hex_value(s.take(i)) is None,
    ensures
        hex_value(s) is None,
    decreases s.len(),
{
    if i < s.len() {
        assert(s.drop_last().take(i) == s.take(i));
        lemma_hex_value_prefix(s.drop_last(), i);
    } else {
        assert(s.take(i) == s);
    }
}

impl CardHash {
    /// The digest of some bytes.
    pub fn hash_bytes(data: &[u8]) -> (result: CardHash)
        ensures
            result == hashed(data@),
    {
        let s = blake3_hash(data);
        CardHash {
            a: word_at(&s, 0),
            b: word_at(&s, 8),
            c: word_at(&s, 16),
            d: word_at(&s, 24),
        }
    }

    /// The 64 hexadecimal digits of the hash.
    pub fn to_hex(&self) -> (result: String)
        ensures
            result@ == hash_text(*self),
    {
        let mut result = String::new();
        push_hex(&mut result, self.a, 16);
        push_hex(&mut result, self.b, 16);
        push_hex(&mut result, self.c, 16);
        push_hex(&mut result, self.d, 16);
        proof {
            assert(result@ == hash_text(*self));
        }
        result
    }

    /// The hash that 64 hexadecimal digits name.
    pub fn from_hex(s: &str) -> (result: Fallible<CardHash>)
        ensures
            match result {
                Ok(h) => hash_named(s@) == Some(h),
                Err(e) => hash_named(s@) is None && e@ == "Invalid card hash: "@ + s@,
            },
    {
        let v = text::chars_of(s);
        if v.len() == 64 {
            let a = word_named(&v, 0);
            let b = word_named(&v, 16);
            let c = word_named(&v, 32);
            let d = word_named(&v, 48);
            if let (Some(a), Some(b), Some(c), Some(d)) = (a, b, c, d) {
                return Ok(CardHash { a, b, c, d });
            }
        }
        let message = text::cat2("Invalid card hash: ", s);
        fail(message.as_str())
    }
}

/// The first eight digits of the digest of a text.
pub open spec fn short_digest(s: Seq<char>) -> Seq<char> {
    hash_text(hashed(vstd::utf8::encode_utf8(s))).take(8)
}

/// A short digest has eight digits.
pub proof fn lemma_short_digest(s: Seq<char>)
    ensures
        short_digest(s).len() == 8,
{
    law_hash_text_round_trip(hashed(vstd::utf8::encode_utf8(s)));
}

/// The first eight digits of the digest of a text.
pub fn short_digest_of(s: &str) -> (result: String)
    ensures
        result@ == short_digest(s@),
{
    let hash = CardHash::hash_bytes(s.as_bytes());
    let digits = hash.to_hex();
    proof {
        law_hash_text_round_trip(hash);
    }
    let v = text::chars_of(digits.as_str());
    let result = text::string_of(&v, 0, 8);
    proof {
        assert(result@ == short_digest(s@));
    }
    result
}

} // verus!
