//! Lengths and positions in text, counted in UTF-8 bytes.
use vstd::prelude::*;

use crate::text::{from_chars, to_chars};

verus! {

/// The number of bytes that UTF-8 uses for a character.
pub open spec fn width(c: char) -> nat {
    let u = c as u32;
    if u < 0x80 {
        1
    } else if u < 0x800 {
        2
    } else if u < 0x10000 {
        3
    } else {
        4
    }
}

/// The number of bytes that UTF-8 uses for a text.
pub open spec fn utf8_len(s: Seq<char>) -> nat
    decreases s.len(),
{
    if s.len() == 0 {
        0
    } else {
        utf8_len(s.drop_last()) + width(s.last())
    }
}

/// The number of characters in the longest prefix of `s` that takes at most
/// `max` bytes, counted from the first `n`.
pub open spec fn chars_within(s: Seq<char>, max: nat, n: int) -> int
    decreases n,
{
    if n <= 0 {
        0
    } else if utf8_len(s.take(n)) <= max {
        n
    } else {
        chars_within(s, max, n - 1)
    }
}

/// The longest prefix of `s` that takes at most `max` bytes.
pub open spec fn byte_prefix(s: Seq<char>, max: nat) -> Seq<char> {
    s.take(chars_within(s, max, s.len() as int))
}

/// Whether byte position `at` of `s` lies between two characters, at the start
/// or at the end.
pub open spec fn is_boundary(s: Seq<char>, at: nat) -> bool {
    utf8_len(byte_prefix(s, at)) == at
}

/// A longer prefix takes no fewer bytes.
pub proof fn lemma_utf8_grows(s: Seq<char>, i: int, j: int)
    requires
        0 <= i <= j <= s.len(),
    ensures
        utf8_len(s.take(i)) + (j - i) <= utf8_len(s.take(j)),
    decreases j - i,
{
    if i < j {
        lemma_utf8_grows(s, i, j - 1);
        assert(s.take(j).drop_last() =~= s.take(j - 1));
    }
}

/// `chars_within` picks the longest prefix that fits.
pub proof fn lemma_chars_within(s: Seq<char>, max: nat, n: int)
    requires
        0 <= n <= s.len(),
    ensures
        0 <= chars_within(s, max, n) <= n,
        utf8_len(s.take(chars_within(s, max, n))) <= max,
        chars_within(s, max, n) < n ==> utf8_len(s.take(chars_within(s, max, n) + 1)) > max,
    decreases n,
{
    if n == 0 {
        assert(s.take(0) =~= Seq::<char>::empty());
    } else if utf8_len(s.take(n)) > max {
        lemma_chars_within(s, max, n - 1);
    }
}

fn char_width(c: char) -> (r: usize)
    ensures
        r == width(c),
{
    let u: u32 = c as u32;
    if u < 0x80 {
        1
    } else if u < 0x800 {
        2
    } else if u < 0x10000 {
        3
    } else {
        4
    }
}

/// Whether `s` takes more than `max` bytes.
pub fn longer_than(s: &str, max: usize) -> (r: bool)
    ensures
        r == (utf8_len(s@) > max),
{
    text_bytes(s) > max as u128
}

/// The number of characters in the longest prefix that takes at most `max` bytes.
pub fn chars_before(v: &Vec<char>, max: usize) -> (r: usize)
    ensures
        r == chars_within(v@, max as nat, v@.len() as int),
        r <= v@.len(),
{
    let mut total: u128 = 0;
    let mut i: usize = 0;
    while i < v.len()
        invariant
            i <= v@.len(),
            total <= max,
            total == utf8_len(v@.take(i as int)),
        decreases v.len() - i,
    {
        proof {
            assert(v@.take(i + 1).drop_last() =~= v@.take(i as int));
        }
        let next: u128 = total + char_width(v[i]) as u128;
        if next > max as u128 {
            proof {
                lemma_prefix_ends(v@, max as nat, i as int);
            }
            return i;
        }
        total = next;
        i += 1;
    }
    i
}

/// The longest prefix of `s` that takes at most `max` bytes.
pub fn prefix_within(s: &str, max: usize) -> (r: String)
    ensures
        r@ == byte_prefix(s@, max as nat),
{
    let v = to_chars(s);
    let n = chars_before(&v, max);
    proof {
        assert(v@.subrange(0, n as int) =~= v@.take(n as int));
    }
    from_chars(&v, 0, n)
}

/// The prefix of `i` characters is the longest that fits where it fits and the
/// next one does not.
pub proof fn lemma_prefix_ends(s: Seq<char>, max: nat, i: int)
    requires
        0 <= i < s.len(),
        utf8_len(s.take(i)) <= max,
        utf8_len(s.take(i + 1)) > max,
    ensures
        chars_within(s, max, s.len() as int) == i,
{
    lemma_chars_within(s, max, s.len() as int);
    let k = chars_within(s, max, s.len() as int);
    if k < i {
        lemma_utf8_grows(s, k + 1, i);
    } else if k > i {
        lemma_utf8_grows(s, i + 1, k);
    }
}

/// The number of bytes that the first `n` characters take, where it fits.
pub fn byte_offset(v: &[char], n: usize) -> (r: usize)
    requires
        n <= v@.len(),
        utf8_len(v@) <= usize::MAX,
    ensures
        r == utf8_len(v@.take(n as int)),
{
    proof {
        assert(v@.take(v@.len() as int) =~= v@);
        assert(v@.take(0) =~= Seq::<char>::empty());
    }
    let mut total: usize = 0;
    let mut i: usize = 0;
    while i < n
        invariant
            i <= n <= v@.len(),
            v@.take(v@.len() as int) == v@,
            utf8_len(v@) <= usize::MAX,
            total == utf8_len(v@.take(i as int)),
        decreases n - i,
    {
        proof {
            assert(v@.take(i + 1).drop_last() =~= v@.take(i as int));
            lemma_utf8_grows(v@, i + 1, v@.len() as int);
        }
        total += char_width(v[i]);
        i += 1;
    }
    total
}

/// The number of bytes that `s` takes.
pub fn text_bytes(s: &str) -> (r: u128)
    ensures
        r == utf8_len(s@),
{
    let v = to_chars(s);
    let mut total: u128 = 0;
    let mut i: usize = 0;
    while i < v.len()
        invariant
            i <= v@.len(),
            v@ == s@,
            total <= 4 * i,
            total == utf8_len(v@.take(i as int)),
        decreases v.len() - i,
    {
        proof {
            assert(v@.take(i + 1).drop_last() =~= v@.take(i as int));
        }
        total += char_width(v[i]) as u128;
        i += 1;
    }
    proof {
        assert(v@.take(i as int) =~= v@);
    }
    total
}

proof fn lemma_utf8_append(a: Seq<char>, b: Seq<char>)
    ensures
        utf8_len(a + b) == utf8_len(a) + utf8_len(b),
    decreases b.len(),
{
    if b.len() == 0 {
        assert(a + b =~= a);
    } else {
        lemma_utf8_append(a, b.drop_last());
        assert((a + b).drop_last() =~= a + b.drop_last());
        assert((a + b).last() == b.last());
    }
}

/// Bytes add up: those of two texts are those of both together; an ASCII character takes
/// one, every other takes two to four.
pub proof fn bytes_add_up(a: Seq<char>, b: Seq<char>, c: char)
    ensures
        utf8_len(a + b) == utf8_len(a) + utf8_len(b),
        utf8_len(Seq::empty()) == 0,
        utf8_len(seq![c]) == 1 <==> c as u32 <= 0x7f,
        utf8_len(seq![c]) <= 2 <==> c as u32 <= 0x7ff,
        utf8_len(seq![c]) <= 3 <==> c as u32 <= 0xffff,
        1 <= utf8_len(seq![c]) <= 4,
{
    lemma_utf8_append(a, b);
    assert(seq![c].drop_last() =~= Seq::<char>::empty());
}

/// A prefix within a number of bytes is a prefix, takes no more bytes, and is the longest
/// such.
pub proof fn byte_prefix_is_the_longest(s: Seq<char>, max: nat, k: int)
    requires
        0 <= k <= s.len(),
    ensures
        byte_prefix(s, max).len() <= s.len(),
        byte_prefix(s, max) == s.take(byte_prefix(s, max).len() as int),
        utf8_len(byte_prefix(s, max)) <= max,
        utf8_len(s.take(k)) <= max ==> k <= byte_prefix(s, max).len(),
        utf8_len(s) <= max ==> byte_prefix(s, max) == s,
{
    let n = s.len() as int;
    lemma_chars_within(s, max, n);
    let m = chars_within(s, max, n);
    if utf8_len(s.take(k)) <= max && k > m {
        lemma_utf8_grows(s, m + 1, k);
    }
    assert(s.take(n) =~= s);
}

} // verus!
