//! Character classes that the tokenizer and the substitution engine share.

use vstd::prelude::*;

verus! {

/// The character that opens a directive.
pub const SENTINEL: char = '%';

/// ASCII punctuation: the ranges `!`..=`/`, `:`..=`@`, `[`..=`` ` `` and
/// `{`..=`~`. The sentinel is one of these characters.
pub open spec fn spec_is_punctuation(c: char) -> bool {
    ||| '!' <= c <= '/'
    ||| ':' <= c <= '@'
    ||| '[' <= c <= '`'
    ||| '{' <= c <= '~'
}

/// Whether `c` is ASCII punctuation.
#[verifier::when_used_as_spec(spec_is_punctuation)]
pub fn is_punctuation(c: char) -> (b: bool)
    ensures
        b == spec_is_punctuation(c),
{
    ('!' <= c && c <= '/') || (':' <= c && c <= '@') || ('[' <= c && c <= '`') || ('{' <= c
        && c <= '~')
}

/// Whitespace: the characters that Unicode marks as `White_Space`.
/// These are tab, line feed, vertical tab, form feed, carriage return and
/// space, the next-line control U+0085, the no-break space U+00A0, and the
/// spaces and separators U+1680, U+2000..=U+200A, U+2028, U+2029, U+202F,
/// U+205F and U+3000.
pub open spec fn spec_is_whitespace(c: char) -> bool {
    ||| '\u{9}' <= c <= '\u{D}'
    ||| c == ' '
    ||| c == '\u{85}'
    ||| c == '\u{A0}'
    ||| c == '\u{1680}'
    ||| '\u{2000}' <= c <= '\u{200A}'
    ||| c == '\u{2028}'
    ||| c == '\u{2029}'
    ||| c == '\u{202F}'
    ||| c == '\u{205F}'
    ||| c == '\u{3000}'
}

/// Whether `c` is whitespace.
#[verifier::when_used_as_spec(spec_is_whitespace)]
pub fn is_whitespace(c: char) -> (b: bool)
    ensures
        b == spec_is_whitespace(c),
{
    ('\u{9}' <= c && c <= '\u{D}') || c == ' ' || c == '\u{85}' || c == '\u{A0}' || c
        == '\u{1680}' || ('\u{2000}' <= c && c <= '\u{200A}') || c == '\u{2028}' || c
        == '\u{2029}' || c == '\u{202F}' || c == '\u{205F}' || c == '\u{3000}'
}

/// A delimiter ends the name of a directive: whitespace or ASCII
/// punctuation.
pub open spec fn is_delimiter(c: char) -> bool {
    is_whitespace(c) || is_punctuation(c)
}

} // verus!
