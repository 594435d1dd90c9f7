//! Case-folding policy: maps one character to the form under which it is
//! counted, according to the selected [`CaseSense`] mode.

use vstd::prelude::*;

verus! {

/// How characters are folded before they are counted.
#[derive(Clone, Copy, Debug, PartialEq, Eq, Structural)]
pub enum CaseSense {
    /// Full Unicode folding: every character is replaced by its lowercase
    /// form. A character whose lowercase form is more than one character
    /// cannot be represented in the one-to-one character model and makes
    /// the whole counting operation fail.
    Insensitive,
    /// ASCII letters are folded to lowercase; every other character is
    /// counted as it is.
    InsensitiveASCIIOnly,
    /// Every character is counted exactly as it is.
    Sensitive,
}

/// The sequence of characters that the Unicode lowercase mapping yields
/// for `c`. Left uninterpreted: it stands for whatever the host's
/// `char::to_lowercase` produces, which is a function of `c` alone.
pub uninterp spec fn char_lower_seq(c: char) -> Seq<char>;

/// Relies on `char::to_lowercase`: its result depends on the character
/// alone and consists of one or more characters.
#[verifier::external_body]
fn to_lowercase_string(c: char) -> (r: String)
    ensures
        r@ == char_lower_seq(c),
        r@.len() >= 1,
{
    c.to_lowercase().collect()
}

/// ASCII-only lowercase folding: `'A'..='Z'` shift to `'a'..='z'`,
/// everything else stays as it is.
pub open spec fn ascii_lower(c: char) -> char {
    if 65 <= c as u32 && c as u32 <= 90 {
        (c as u32 + 32) as char
    } else {
        c
    }
}

/// The canonical counted form of `c` under `case`, or `None` when the mode
/// is `Insensitive` and the lowercase form of `c` is not a single character.
pub open spec fn spec_fold(case: CaseSense, c: char) -> Option<char> {
    match case {
        CaseSense::Sensitive => Some(c),
        CaseSense::InsensitiveASCIIOnly => Some(ascii_lower(c)),
        CaseSense::Insensitive => if char_lower_seq(c).len() == 1 {
            Some(char_lower_seq(c)[0])
        } else {
            None
        },
    }
}

/// Folds one character under the selected mode.
pub fn fold_char(c: char, case: CaseSense) -> (r: Option<char>)
    ensures
        r == spec_fold(case, c),
{
    match case {
        CaseSense::Sensitive => Some(c),
        CaseSense::InsensitiveASCIIOnly => {
            let u = c as u32;
            if 65 <= u && u <= 90 {
                let l = ((u as u8) + 32) as char;
                Some(l)
            } else {
                Some(c)
            }
        },
        CaseSense::Insensitive => {
            let s = to_lowercase_string(c);
            if s.as_str().unicode_len() == 1 {
                Some(s.as_str().get_char(0))
            } else {
                None
            }
        },
    }
}

} // verus!
