//! Decimal numbers as text.
use vstd::prelude::*;

use crate::text::{from_chars, to_chars};

verus! {

/// The decimal digit of `d`, for `d < 10`.
pub open spec fn digit(d: nat) -> char {
    (48 + d) as char
}

/// `n` written in decimal, without leading zeros.
pub open spec fn dec(n: nat) -> Seq<char>
    decreases n,
{
    if n < 10 {
        seq![digit(n)]
    } else {
        dec(n / 10).push(digit(n % 10))
    }
}

/// `count` spaces.
pub open spec fn spaces(count: nat) -> Seq<char> {
    Seq::new(count, |i: int| ' ')
}

/// `n` in decimal, with spaces in front up to `width` characters.
pub open spec fn padded_dec(n: nat, width: nat) -> Seq<char> {
    let d = dec(n);
    if d.len() < width {
        spaces((width - d.len()) as nat) + d
    } else {
        d
    }
}

fn digit_char(d: u8) -> (r: char)
    requires
        d < 10,
    ensures
        r == digit(d as nat),
{
    (48u8 + d) as char
}

/// Appends `n` in decimal.
pub fn push_dec(out: &mut String, n: usize)
    ensures
        final(out)@ == old(out)@ + dec(n as nat),
    decreases n,
{
    if n < 10 {
        out.push(digit_char(n as u8));
    } else {
        push_dec(out, n / 10);
        out.push(digit_char((n % 10) as u8));
    }
}

/// Appends `n` in decimal.
pub fn push_dec_u128(out: &mut String, n: u128)
    ensures
        final(out)@ == old(out)@ + dec(n as nat),
    decreases n,
{
    if n < 10 {
        out.push(digit_char(n as u8));
    } else {
        push_dec_u128(out, n / 10);
        out.push(digit_char((n % 10) as u8));
    }
}

/// `n` in decimal.
pub fn dec_text(n: usize) -> (r: String)
    ensures
        r@ == dec(n as nat),
{
    let mut out = String::new();
    push_dec(&mut out, n);
    proof {
        assert(out@ =~= dec(n as nat));
    }
    out
}

/// `n` in decimal.
pub fn dec_text_u128(n: u128) -> (r: String)
    ensures
        r@ == dec(n as nat),
{
    let mut out = String::new();
    push_dec_u128(&mut out, n);
    proof {
        assert(out@ =~= dec(n as nat));
    }
    out
}

/// Appends `n` in decimal, with spaces in front up to `width` characters.
pub fn push_padded_dec(out: &mut String, n: usize, width: usize)
    ensures
        final(out)@ == old(out)@ + padded_dec(n as nat, width as nat),
{
    let mut text = String::new();
    push_dec(&mut text, n);
    let len: usize = to_chars(&text).len();
    let mut i: usize = len;
    while i < width
        invariant
            len == dec(n as nat).len(),
            len <= i,
            i <= width || i == len,
            out@ == old(out)@ + spaces((i - len) as nat),
        decreases width - i,
    {
        out.push(' ');
        i += 1;
        proof {
            assert(spaces((i - len) as nat) =~= spaces((i - len - 1) as nat).push(' '));
        }
    }
    out.append(&text);
    proof {
        assert(text@ =~= dec(n as nat));
        assert(out@ =~= old(out)@ + padded_dec(n as nat, width as nat));
    }
}

/// `n` in decimal, with spaces in front up to `width` characters.
pub fn padded_dec_text(n: usize, width: usize) -> (r: String)
    ensures
        r@ == padded_dec(n as nat, width as nat),
{
    let mut out = String::new();
    push_padded_dec(&mut out, n, width);
    proof {
        assert(out@ =~= padded_dec(n as nat, width as nat));
    }
    out
}

/// Why a text is not a decimal number.
#[derive(Debug, Clone, Copy, PartialEq, Eq, Structural)]
pub enum NumberError {
    /// There is no text.
    Empty,
    /// A character is not a decimal digit.
    InvalidDigit,
    /// The number does not fit.
    Overflow,
}

/// Whether `c` is an ASCII decimal digit.
pub open spec fn is_digit(c: char) -> bool {
    '0' <= c <= '9'
}

/// The value of the digits `s[..n]`.
pub open spec fn digits_value(s: Seq<char>, n: nat) -> nat
    decreases n,
{
    if n == 0 || n > s.len() {
        0
    } else {
        digits_value(s, (n - 1) as nat) * 10 + (s[n - 1] as u32 - 48) as nat
    }
}

/// The number of digits at the start of `s`, from position `i` on.
pub open spec fn digit_run(s: Seq<char>, i: int) -> int
    decreases s.len() - i,
{
    if 0 <= i < s.len() && is_digit(s[i]) {
        digit_run(s, i + 1)
    } else {
        i
    }
}

/// What the digits of `s` are worth: the first thing that goes wrong from left
/// to right decides.
pub open spec fn digits_number(s: Seq<char>) -> Result<usize, NumberError> {
    let k = digit_run(s, 0);
    if s.len() == 0 {
        Err(NumberError::InvalidDigit)
    } else if digits_value(s, k as nat) > usize::MAX {
        Err(NumberError::Overflow)
    } else if k < s.len() {
        Err(NumberError::InvalidDigit)
    } else {
        Ok(digits_value(s, k as nat) as usize)
    }
}

/// The number that `s` writes: decimal digits, with an optional plus sign in
/// front.
pub open spec fn number(s: Seq<char>) -> Result<usize, NumberError> {
    if s.len() == 0 {
        Err(NumberError::Empty)
    } else if s[0] == '+' {
        digits_number(s.subrange(1, s.len() as int))
    } else {
        digits_number(s)
    }
}

/// What a `NumberError` says.
pub open spec fn number_error_text(e: NumberError) -> Seq<char> {
    match e {
        NumberError::Empty => "cannot parse integer from empty string"@,
        NumberError::InvalidDigit => "invalid digit found in string"@,
        NumberError::Overflow => "number too large to fit in target type"@,
    }
}

impl NumberError {
    /// What the error says.
    pub fn message(self) -> (r: String)
        ensures
            r@ == number_error_text(self),
    {
        match self {
            NumberError::Empty => "cannot parse integer from empty string".to_owned(),
            NumberError::InvalidDigit => "invalid digit found in string".to_owned(),
            NumberError::Overflow => "number too large to fit in target type".to_owned(),
        }
    }
}

/// `digit_run` stays in range and passes only digits.
pub proof fn lemma_digit_run(s: Seq<char>, i: int)
    requires
        0 <= i <= s.len(),
    ensures
        i <= digit_run(s, i) <= s.len(),
        forall|k: int| i <= k < digit_run(s, i) ==> is_digit(#[trigger] s[k]),
        digit_run(s, i) < s.len() ==> !is_digit(s[digit_run(s, i)]),
    decreases s.len() - i,
{
    if i < s.len() && is_digit(s[i]) {
        lemma_digit_run(s, i + 1);
    }
}

/// A longer run of digits is worth no less.
proof fn lemma_digits_grow(s: Seq<char>, n: nat, m: nat)
    requires
        n <= m <= s.len(),
        forall|k: int| 0 <= k < m ==> is_digit(#[trigger] s[k]),
    ensures
        digits_value(s, n) <= digits_value(s, m),
    decreases m - n,
{
    if n < m {
        lemma_digits_grow(s, n, (m - 1) as nat);
        assert(is_digit(s[m - 1]));
    }
}

fn parse_digits(v: &[char]) -> (r: Result<usize, NumberError>)
    ensures
        r == digits_number(v@),
{
    if v.len() == 0 {
        return Err(NumberError::InvalidDigit);
    }
    proof {
        lemma_digit_run(v@, 0);
    }
    let ghost k = digit_run(v@, 0);
    let mut value: usize = 0;
    let mut i: usize = 0;
    while i < v.len()
        invariant
            i <= v@.len(),
            i <= k <= v@.len(),
            k == digit_run(v@, 0),
            forall|j: int| 0 <= j < k ==> is_digit(#[trigger] v@[j]),
            k < v@.len() ==> !is_digit(v@[k]),
            value == digits_value(v@, i as nat),
        decreases v.len() - i,
    {
        let c = v[i];
        if !('0' <= c && c <= '9') {
            return Err(NumberError::InvalidDigit);
        }
        let d: usize = (c as u32 - 48) as usize;
        proof {
            assert(i < k);
            assert(digits_value(v@, (i + 1) as nat) == value * 10 + d);
            lemma_digits_grow(v@, (i + 1) as nat, k as nat);
        }
        match value.checked_mul(10) {
            None => {
                return Err(NumberError::Overflow);
            },
            Some(t) => match t.checked_add(d) {
                None => {
                    return Err(NumberError::Overflow);
                },
                Some(u) => {
                    value = u;
                },
            },
        }
        i += 1;
    }
    Ok(value)
}

/// Reads `s` as a decimal number with an optional plus sign in front.
pub fn parse_usize(s: &str) -> (r: Result<usize, NumberError>)
    ensures
        r == number(s@),
{
    let v = to_chars(s);
    if v.len() == 0 {
        return Err(NumberError::Empty);
    }
    if v[0] == '+' {
        let rest = to_chars(&from_chars(&v, 1, v.len()));
        return parse_digits(&rest);
    }
    parse_digits(&v)
}

proof fn lemma_value_of_prefix(s: Seq<char>, t: Seq<char>, n: nat)
    requires
        n <= s.len(),
        n <= t.len(),
        s.take(n as int) == t.take(n as int),
    ensures
        digits_value(s, n) == digits_value(t, n),
    decreases n,
{
    if n > 0 {
        let m = (n - 1) as nat;
        assert(s.take(m as int) =~= s.take(n as int).take(m as int));
        assert(t.take(m as int) =~= t.take(n as int).take(m as int));
        lemma_value_of_prefix(s, t, m);
        assert(s[m as int] == s.take(n as int)[m as int]);
        assert(t[m as int] == t.take(n as int)[m as int]);
    }
}

/// A number in decimal is made of digits, and they are worth the number.
pub proof fn lemma_dec(n: nat)
    ensures
        dec(n).len() > 0,
        forall|k: int| 0 <= k < dec(n).len() ==> is_digit(#[trigger] dec(n)[k]),
        digits_value(dec(n), dec(n).len()) == n,
    decreases n,
{
    let d = dec(n);
    if n < 10 {
        reveal_with_fuel(digits_value, 2);
        assert(d[0] as u32 == 48 + n);
    } else {
        let head = dec(n / 10);
        lemma_dec(n / 10);
        assert(d.take(head.len() as int) =~= head.take(head.len() as int));
        lemma_value_of_prefix(d, head, head.len());
        assert(d.last() as u32 == 48 + n % 10);
        assert(digits_value(d, d.len()) == digits_value(d, head.len()) * 10 + n % 10);
        assert forall|k: int| 0 <= k < d.len() implies is_digit(#[trigger] d[k]) by {
            if k < head.len() {
                assert(d[k] == head[k]);
            }
        }
    }
}

proof fn lemma_all_digits(s: Seq<char>, i: int)
    requires
        0 <= i <= s.len(),
        forall|k: int| 0 <= k < s.len() ==> is_digit(#[trigger] s[k]),
    ensures
        digit_run(s, i) == s.len(),
    decreases s.len() - i,
{
    if i < s.len() {
        lemma_all_digits(s, i + 1);
    }
}

/// A number written in decimal reads back as that number.
pub proof fn number_reads_back(n: usize)
    ensures
        number(dec(n as nat)) == Ok::<usize, NumberError>(n),
{
    lemma_dec(n as nat);
    lemma_all_digits(dec(n as nat), 0);
    assert(is_digit(dec(n as nat)[0]));
}

/// A number is read digit by digit: one more digit makes it ten times as large and adds
/// the digit, as long as it fits.
pub proof fn digits_count_in_tens(s: Seq<char>, d: nat)
    requires
        s.len() > 0,
        forall|k: int| 0 <= k < s.len() ==> is_digit(#[trigger] s[k]),
        d < 10,
    ensures
        number(seq![digit(d)]) == Ok::<usize, NumberError>(d as usize),
        number(s) matches Ok(n) ==> number(s.push(digit(d))) == (if n * 10 + d <= usize::MAX {
            Ok::<usize, NumberError>((n * 10 + d) as usize)
        } else {
            Err(NumberError::Overflow)
        }),
        number(seq!['+'] + s) == number(s),
{
    let t = s.push(digit(d));
    let one = seq![digit(d)];
    assert(is_digit(s[0]));
    assert(digit(d) as u32 == 48 + d);
    assert(is_digit(digit(d)));
    lemma_all_digits(s, 0);
    lemma_all_digits(t, 0);
    lemma_all_digits(one, 0);
    reveal_with_fuel(digits_value, 2);
    assert(t.take(s.len() as int) =~= s.take(s.len() as int));
    lemma_value_of_prefix(t, s, s.len());
    assert(t[0] == s[0]);
    assert((seq!['+'] + s).subrange(1, s.len() as int + 1) =~= s);
}

/// A text that holds anything but digits behind an optional plus sign is no number.
pub proof fn other_text_is_no_number(s: Seq<char>)
    requires
        s.len() == 0 || s == seq!['+'] || exists|k: int|
            0 <= k < s.len() && !is_digit(#[trigger] s[k]) && !(k == 0 && s[k] == '+'),
    ensures
        number(s) is Err,
{
    if s.len() > 0 {
        let t = if s[0] == '+' {
            s.subrange(1, s.len() as int)
        } else {
            s
        };
        lemma_digit_run(t, 0);
        if s != seq!['+'] {
            let k = choose|k: int|
                0 <= k < s.len() && !is_digit(#[trigger] s[k]) && !(k == 0 && s[k] == '+');
            if s[0] == '+' {
                assert(t[k - 1] == s[k]);
                assert(!is_digit(t[k - 1]));
            } else {
                assert(!is_digit(t[k]));
            }
        }
    }
}

/// A padded number is the number with spaces in front, exactly as wide as asked where the
/// number is not wider.
pub proof fn padding_goes_in_front(n: nat, width: nat)
    ensures
        padded_dec(n, width).len() == if dec(n).len() < width {
            width
        } else {
            dec(n).len()
        },
        padded_dec(n, width).skip(padded_dec(n, width).len() - dec(n).len()) == dec(n),
        forall|k: int|
            0 <= k < padded_dec(n, width).len() - dec(n).len() ==> #[trigger] padded_dec(
                n,
                width,
            )[k] == ' ',
{
    let p = padded_dec(n, width);
    assert(p.skip(p.len() - dec(n).len()) =~= dec(n));
}

} // verus!
