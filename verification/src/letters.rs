//! Letter case, as the standard library's Unicode tables have it.
use crate::text::{
    chars_of, ends_bare, has_no_blank, has_no_capital, is_cjk_spec, lacks, string_of,
};
use vstd::prelude::*;
use vstd::string::*;
use vstd::utf8::*;

verus! {

/// What `str::to_lowercase` makes of a text.
pub uninterp spec fn lowercase(s: Seq<char>) -> Seq<char>;

/// The upper-case form of one character, as `char::to_uppercase` spells it.
pub uninterp spec fn uppercase_char(c: char) -> Seq<char>;

/// Whether `char::is_uppercase` accepts a character.
pub uninterp spec fn is_uppercase_char(c: char) -> bool;

/// One ASCII character in lower case.
pub open spec fn ascii_lower_char(c: char) -> char {
    if 'A' <= c <= 'Z' {
        (c as u32 + 32) as u8 as char
    } else {
        c
    }
}

/// One ASCII character in upper case.
pub open spec fn ascii_upper_char(c: char) -> char {
    if 'a' <= c <= 'z' {
        (c as u32 - 32) as u8 as char
    } else {
        c
    }
}

/// A text with its ASCII letters in lower case.
pub open spec fn ascii_lower(s: Seq<char>) -> Seq<char> {
    Seq::new(s.len(), |i: int| ascii_lower_char(s[i]))
}

/// A character whose case is plain: an ASCII character, ü in either case, or a Han character,
/// which has no case.
pub open spec fn is_plain_char(c: char) -> bool {
    (c as u32) < 128 || c == '\u{fc}' || c == '\u{dc}' || is_cjk_spec(c)
}

pub open spec fn plain_lower_char(c: char) -> char {
    if c == '\u{dc}' {
        '\u{fc}'
    } else {
        ascii_lower_char(c)
    }
}

/// A text of characters whose case is plain.
pub open spec fn is_plain_text(s: Seq<char>) -> bool {
    forall|i: int| 0 <= i < s.len() ==> is_plain_char(#[trigger] s[i])
}

/// Such a text in lower case.
pub open spec fn plain_lower(s: Seq<char>) -> Seq<char> {
    Seq::new(s.len(), |i: int| plain_lower_char(s[i]))
}

/// What holds of the lower case of a text, whatever its letters are. It is in lower case
/// already, is no shorter than the text, and has none of `A` to `Z`. White space comes only of
/// white space, and ü only of ü or `Ü`. Characters whose case is plain change one by one.
pub open spec fn lowers(s: Seq<char>) -> bool {
    let r = lowercase(s);
    &&& lowercase(r) == r
    &&& r.len() >= s.len()
    &&& has_no_capital(r)
    &&& has_no_blank(s) ==> has_no_blank(r)
    &&& ends_bare(s) ==> ends_bare(r)
    &&& lacks(r, '\u{fc}') == (lacks(s, '\u{fc}') && lacks(s, '\u{dc}'))
    &&& is_plain_text(s) ==> r == plain_lower(s)
}

/// Calls `str::to_lowercase`. The result is a function of the text alone: each character gives
/// its lower case by the tables of Unicode, one character or more, and only for `Σ` does it
/// matter where it stands. So what follows holds because it holds of every character: no
/// lower-case form has a lower case other than itself or is one of `A` to `Z`; white space has
/// no case and is no lower case of anything else; `Ü` alone has ü for its lower case. In a
/// text of ASCII characters, ü and Han characters only `A` to `Z` and `Ü` change.
#[verifier::external_body]
fn std_lowercase(s: &str) -> (r: String)
    ensures
        r@ == lowercase(s@),
        lowercase(r@) == r@,
        r@.len() >= s@.len(),
        has_no_capital(r@),
        has_no_blank(s@) ==> has_no_blank(r@),
        ends_bare(s@) ==> ends_bare(r@),
        lacks(r@, '\u{fc}') == (lacks(s@, '\u{fc}') && lacks(s@, '\u{dc}')),
        is_plain_text(s@) ==> r@ == plain_lower(s@),
{
    s.to_lowercase()
}

/// Calls `char::to_uppercase` and puts the characters it yields in a `String`. The result
/// is a function of the character alone; an ASCII character yields one, its ASCII upper case.
#[verifier::external_body]
fn std_uppercase_char(c: char) -> (r: String)
    ensures
        r@ == uppercase_char(c),
        (c as u32) < 128 ==> r@ == seq![ascii_upper_char(c)],
{
    c.to_uppercase().to_string()
}

/// Calls `char::is_uppercase`. The result is a function of the character alone; of the
/// ASCII characters it accepts `A` to `Z`.
#[verifier::external_body]
fn std_is_uppercase(c: char) -> (r: bool)
    ensures
        r == is_uppercase_char(c),
        (c as u32) < 128 ==> r == ('A' <= c <= 'Z'),
{
    c.is_uppercase()
}

/// An ASCII text is plain, and its lower case is that of ASCII.
pub proof fn lemma_ascii_is_plain(s: Seq<char>)
    requires
        is_ascii_chars(s),
    ensures
        is_plain_text(s),
        plain_lower(s) == ascii_lower(s),
{
    assert(plain_lower(s) =~= ascii_lower(s));
}

/// A text in lower case.
pub fn lower_str(s: &str) -> (r: String)
    ensures
        r@ == lowercase(s@),
        is_ascii_chars(s@) ==> r@ == ascii_lower(s@),
        lowers(s@),
{
    proof {
        if is_ascii_chars(s@) {
            lemma_ascii_is_plain(s@);
        }
    }
    std_lowercase(s)
}

/// A row of characters in lower case.
pub fn lower(s: &[char]) -> (r: Vec<char>)
    ensures
        r@ == lowercase(s@),
        is_ascii_chars(s@) ==> r@ == ascii_lower(s@),
        lowers(s@),
{
    proof {
        if is_ascii_chars(s@) {
            lemma_ascii_is_plain(s@);
        }
    }
    let t = string_of(s);
    let l = std_lowercase(t.as_str());
    chars_of(l.as_str())
}

/// The upper-case form of one character.
pub fn upper_char(c: char) -> (r: Vec<char>)
    ensures
        r@ == uppercase_char(c),
        (c as u32) < 128 ==> r@ == seq![ascii_upper_char(c)],
{
    let s = std_uppercase_char(c);
    chars_of(s.as_str())
}

pub fn is_upper(c: char) -> (r: bool)
    ensures
        r == is_uppercase_char(c),
        (c as u32) < 128 ==> r == ('A' <= c <= 'Z'),
{
    std_is_uppercase(c)
}

} // verus!
