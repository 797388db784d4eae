//! Character classes of the Unicode database, as the standard library knows
//! them.
use vstd::prelude::*;

verus! {

/// Whether `c` is an ASCII letter.
pub open spec fn is_ascii_letter(c: char) -> bool {
    'a' <= c <= 'z' || 'A' <= c <= 'Z'
}

/// Whether `c` is an ASCII character.
pub open spec fn is_ascii_char(c: char) -> bool {
    c as u32 <= 0x7f
}

/// `c` in lower case, where it is an ASCII letter.
pub open spec fn ascii_lower(c: char) -> char {
    if 'A' <= c <= 'Z' {
        (c as u32 + 32) as char
    } else {
        c
    }
}

/// Whether `c` has the Unicode `Alphabetic` property.
pub uninterp spec fn alphabetic(c: char) -> bool;

/// Whether `c` is alphabetic or numeric in the Unicode database.
pub uninterp spec fn alphanumeric(c: char) -> bool;

/// `c` in lower case by the Unicode database.
pub uninterp spec fn lower(c: char) -> Seq<char>;

/// `c` in upper case by the Unicode database.
pub uninterp spec fn upper(c: char) -> Seq<char>;

/// `char::is_alphabetic`. Of the ASCII characters, the letters are alphabetic;
/// beyond ASCII the result is named, not described.
#[verifier::external_body]
pub(crate) fn char_alphabetic(c: char) -> (r: bool)
    ensures
        r == alphabetic(c),
        is_ascii_char(c) ==> r == is_ascii_letter(c),
{
    c.is_alphabetic()
}

/// `char::is_alphanumeric`. Of the ASCII characters, the letters and the digits
/// are alphanumeric; beyond ASCII the result is named, not described.
#[verifier::external_body]
pub(crate) fn char_alphanumeric(c: char) -> (r: bool)
    ensures
        r == alphanumeric(c),
        is_ascii_char(c) ==> r == (is_ascii_letter(c) || '0' <= c <= '9'),
{
    c.is_alphanumeric()
}

/// `char::to_lowercase`, collected. An ASCII character gives one character; the
/// others are named, not described.
#[verifier::external_body]
pub(crate) fn char_lower(c: char) -> (r: Vec<char>)
    ensures
        r@ == lower(c),
        is_ascii_char(c) ==> r@ == seq![ascii_lower(c)],
{
    c.to_lowercase().collect()
}

/// `c` in upper case, where it is an ASCII letter.
pub open spec fn ascii_upper(c: char) -> char {
    if 'a' <= c <= 'z' {
        (c as u32 - 32) as char
    } else {
        c
    }
}

/// `char::to_uppercase`, collected. An ASCII character gives one character; the
/// others are named, not described.
#[verifier::external_body]
pub(crate) fn char_upper(c: char) -> (r: Vec<char>)
    ensures
        r@ == upper(c),
        is_ascii_char(c) ==> r@ == seq![ascii_upper(c)],
{
    c.to_uppercase().collect()
}

/// A text in upper case: every character by itself.
pub open spec fn upper_text(s: Seq<char>) -> Seq<char>
    decreases s.len(),
{
    if s.len() == 0 {
        Seq::empty()
    } else {
        upper_text(s.drop_last()) + upper(s.last())
    }
}

/// The characters of a text in upper case.
pub fn to_upper_chars(v: &Vec<char>) -> (r: Vec<char>)
    ensures
        r@ == upper_text(v@),
{
    let mut out: Vec<char> = Vec::new();
    let mut i: usize = 0;
    while i < v.len()
        invariant
            i <= v@.len(),
            out@ == upper_text(v@.take(i as int)),
        decreases v.len() - i,
    {
        let mut u = char_upper(v[i]);
        out.append(&mut u);
        proof {
            assert(v@.take(i + 1).drop_last() =~= v@.take(i as int));
        }
        i += 1;
    }
    proof {
        assert(v@.take(i as int) =~= v@);
    }
    out
}

/// `c` in lower case, where it is an ASCII letter.
pub fn to_ascii_lower(c: char) -> (r: char)
    ensures
        r == ascii_lower(c),
{
    if 'A' <= c && c <= 'Z' {
        ((c as u8) + 32) as char
    } else {
        c
    }
}

/// Lower and upper case of ASCII: only letters change, into the other case, and back.
pub proof fn ascii_cases_go_together(c: char)
    ensures
        ascii_lower(c) != c <==> 'A' <= c <= 'Z',
        ascii_upper(c) != c <==> 'a' <= c <= 'z',
        'A' <= c <= 'Z' ==> 'a' <= ascii_lower(c) <= 'z' && ascii_upper(ascii_lower(c)) == c,
        'a' <= c <= 'z' ==> 'A' <= ascii_upper(c) <= 'Z' && ascii_lower(ascii_upper(c)) == c,
{
}

} // verus!
