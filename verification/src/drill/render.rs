//! Small pieces shared by the pages that show cards.

use vstd::prelude::*;
use crate::serve::config::AnswerControlsConfig;
use crate::text;

verus! {

/// Which grade buttons the answer of a card shows.
#[derive(Clone, Copy, Debug, PartialEq, Eq, Structural)]
pub enum AnswerControls {
    /// All four buttons: forgot, hard, good and easy.
    Full,
    /// Two buttons only: forgot and good.
    Binary,
}

impl AnswerControls {
    /// The name of the setting.
    pub fn to_text(&self) -> (result: &'static str)
        ensures
            result@ == match *self {
                AnswerControls::Full => "full"@,
                AnswerControls::Binary => "binary"@,
            },
    {
        match self {
            AnswerControls::Full => "full",
            AnswerControls::Binary => "binary",
        }
    }
}

/// The buttons that a setting asks for.
pub open spec fn controls(config: AnswerControlsConfig) -> AnswerControls {
    match config {
        AnswerControlsConfig::Full => AnswerControls::Full,
        AnswerControlsConfig::Binary => AnswerControls::Binary,
    }
}

impl From<AnswerControlsConfig> for AnswerControls {
    fn from(config: AnswerControlsConfig) -> (result: AnswerControls) {
        match config {
            AnswerControlsConfig::Full => AnswerControls::Full,
            AnswerControlsConfig::Binary => AnswerControls::Binary,
        }
    }
}

impl vstd::std_specs::convert::FromSpecImpl<AnswerControlsConfig> for AnswerControls {
    open spec fn obeys_from_spec() -> bool {
        true
    }

    open spec fn from_spec(config: AnswerControlsConfig) -> AnswerControls {
        controls(config)
    }
}

/// What stands for a character inside a single-quoted JavaScript literal. A
/// backslash goes before the quote, a backslash, a backtick and a dollar sign;
/// a line break, which would end the literal, is written by its letter.
pub open spec fn js_escape(c: char) -> Seq<char> {
    if c == '\n' {
        seq!['\\', 'n']
    } else if c == '\r' {
        seq!['\\', 'r']
    } else if c == '\'' || c == '\\' || c == '`' || c == '$' {
        seq!['\\', c]
    } else {
        seq![c]
    }
}

/// Escapes each character.
pub open spec fn js_escapes() -> spec_fn(char) -> Seq<char> {
    |c: char| js_escape(c)
}

/// A text as it stands inside a single-quoted JavaScript literal.
pub open spec fn js_escaped(s: Seq<char>) -> Seq<char> {
    text::expand(s, js_escapes())
}

/// The character that an escape sequence stands for, by the character behind
/// its backslash.
pub open spec fn js_unescape(c: char) -> Option<char> {
    if c == 'n' {
        Some('\n')
    } else if c == 'r' {
        Some('\r')
    } else if c == '\'' || c == '\\' || c == '`' || c == '$' {
        Some(c)
    } else {
        None
    }
}

/// The value of a single-quoted JavaScript literal with this between its
/// quotes; `None` if a quote or a line break ends the literal early, or an
/// escape sequence is none of those used here.
pub open spec fn js_value(t: Seq<char>) -> Option<Seq<char>>
    decreases t.len(),
{
    if t.len() == 0 {
        Some(seq![])
    } else if t[0] == '\\' {
        if t.len() < 2 {
            None
        } else {
            match (js_unescape(t[1]), js_value(t.skip(2))) {
                (Some(c), Some(rest)) => Some(seq![c] + rest),
                _ => None,
            }
        }
    } else if t[0] == '\'' || t[0] == '\n' || t[0] == '\r' {
        None
    } else {
        match js_value(t.skip(1)) {
            Some(rest) => Some(seq![t[0]] + rest),
            None => None,
        }
    }
}

/// An escaped text between single quotes is one whole JavaScript literal, and
/// its value is the text.
pub proof fn law_literals_mean_their_text(s: Seq<char>)
    ensures
        js_value(js_escaped(s)) == Some(s),
    decreases s.len(),
{
    let f = js_escapes();
    if s.len() > 0 {
        let one = seq![s[0]];
        let rest = s.skip(1);
        let t = js_escaped(s);
        law_literals_mean_their_text(rest);
        assert(one + rest =~= s);
        text::lemma_expand_split(one, rest, f);
        assert(one.drop_last() =~= Seq::<char>::empty());
        assert(text::expand(one.drop_last(), f) =~= Seq::<char>::empty());
        assert(text::expand(one, f) =~= js_escape(s[0]));
        assert(t == js_escape(s[0]) + js_escaped(rest));
        assert(t.skip(js_escape(s[0]).len() as int) =~= js_escaped(rest));
    }
}

/// Escapes a text for a single-quoted JavaScript literal.
pub fn escape_js_string_literal(s: &str) -> (result: String)
    ensures
        result@ == js_escaped(s@),
{
    let v = text::chars_of(s);
    let mut result = String::new();
    let ghost f = js_escapes();
    let mut i: usize = 0;
    while i < v.len()
        invariant
            v@ == s@,
            i <= v@.len(),
            f == js_escapes(),
            result@ == text::expand(s@.take(i as int), f),
        decreases v@.len() - i,
    {
        proof {
            text::lemma_expand_step(s@, f, i as int);
        }
        let c = v[i];
        let ghost before = result@;
        if c == '\n' {
            result.push('\\');
            result.push('n');
        } else if c == '\r' {
            result.push('\\');
            result.push('r');
        } else {
            if c == '\'' || c == '\\' || c == '`' || c == '$' {
                result.push('\\');
            }
            result.push(c);
        }
        proof {
            assert(result@ == before + js_escape(c));
        }
        i += 1;
    }
    proof {
        assert(s@.take(i as int) == s@);
    }
    result
}

/// The answer controls are those that are configured.
pub proof fn law_controls_are_as_configured(config: AnswerControlsConfig)
    ensures
        controls(config) is Full <==> config is Full,
        controls(config) is Binary <==> config is Binary,
{
}

} // verus!
