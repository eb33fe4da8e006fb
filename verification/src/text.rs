//! Text building blocks: decimal numerals, zero padding, joining with
//! commas, and the characters of a string.

use vstd::prelude::*;

verus! {

/// Calls `String::push`, which appends the character `c`.
#[verifier::external_body]
pub(crate) fn push_char(s: &mut String, c: char)
    ensures
        final(s)@ == old(s)@.push(c),
{
    s.push(c);
}

/// The characters of `s`, in order.
pub fn chars_of(s: &str) -> (r: Vec<char>)
    ensures
        r@ == s@,
{
    broadcast use vstd::string::group_string_axioms;

    let mut r: Vec<char> = Vec::new();
    for c in it: s.chars()
        invariant
            it.seq() == s@,
            r@ == s@.take(it.index()),
    {
        r.push(c);
        proof {
            assert(r@ =~= s@.take(it.index() + 1));
        }
    }
    r
}

/// Appends the characters `cs` to `s`.
pub fn push_chars(s: &mut String, cs: &[char])
    ensures
        final(s)@ == old(s)@ + cs@,
{
    let mut i: usize = 0;
    while i < cs.len()
        invariant
            i <= cs@.len(),
            s@ == old(s)@ + cs@.take(i as int),
        decreases cs@.len() - i,
    {
        push_char(s, cs[i]);
        i = i + 1;
        proof {
            assert(s@ =~= old(s)@ + cs@.take(i as int));
        }
    }
    proof {
        assert(cs@.take(i as int) =~= cs@);
    }
}

/// The character of the decimal digit `d`.
pub open spec fn digit_char(d: int) -> char {
    (48 + d) as char
}

/// Decimal numeral of `v`, without leading zeros ("0" for zero).
pub open spec fn digits_of(v: nat) -> Seq<char>
    decreases v,
{
    if v < 10 {
        seq![digit_char(v as int)]
    } else {
        digits_of(v / 10) + seq![digit_char((v % 10) as int)]
    }
}

/// Decimal numeral of the integer `v`, with a leading '-' when negative.
pub open spec fn signed_digits(v: int) -> Seq<char> {
    if v < 0 {
        seq!['-'] + digits_of((-v) as nat)
    } else {
        digits_of(v as nat)
    }
}

/// `n` copies of the character '0'.
pub open spec fn zeros(n: int) -> Seq<char> {
    Seq::new(if n > 0 {
        n as nat
    } else {
        0
    }, |i: int| '0')
}

/// Decimal numeral of `v`, padded with leading zeros to `width`
/// characters, as `{:0width$}` writes a number.
pub open spec fn zero_padded(v: nat, width: int) -> Seq<char> {
    zeros(width - digits_of(v).len()) + digits_of(v)
}

/// The parts joined into one text, with a ',' between consecutive parts.
pub open spec fn comma_joined(parts: Seq<Seq<char>>) -> Seq<char>
    decreases parts.len(),
{
    if parts.len() == 0 {
        Seq::empty()
    } else if parts.len() == 1 {
        parts[0]
    } else {
        comma_joined(parts.drop_last()) + seq![','] + parts.last()
    }
}

fn digit(d: u64) -> (c: char)
    requires
        d < 10,
    ensures
        c == digit_char(d as int),
{
    let b: u8 = 48 + d as u8;
    b as char
}

/// Appends the decimal numeral of `v`.
pub fn push_digits(s: &mut String, v: u64)
    ensures
        final(s)@ == old(s)@ + digits_of(v as nat),
    decreases v,
{
    if v >= 10 {
        push_digits(s, v / 10);
    }
    push_char(s, digit(v % 10));
    proof {
        if v >= 10 {
            assert(digits_of(v as nat) == digits_of((v / 10) as nat) + seq![
                digit_char((v % 10) as int),
            ]);
        }
    }
}

/// Number of characters of the decimal numeral of `v`.
pub fn digit_count(v: u64) -> (r: usize)
    ensures
        r == digits_of(v as nat).len(),
        r <= 20,
    decreases v,
{
    proof {
        lemma_digits_len_bound(v as nat);
    }
    if v >= 10 {
        digit_count(v / 10) + 1
    } else {
        1
    }
}

spec fn pow10(k: nat) -> nat
    decreases k,
{
    if k == 0 {
        1
    } else {
        10 * pow10((k - 1) as nat)
    }
}

proof fn lemma_digits_len_below(v: nat, k: nat)
    requires
        k >= 1,
        v < pow10(k),
    ensures
        1 <= digits_of(v).len() <= k,
    decreases v,
{
    if v >= 10 {
        assert(pow10(0) == 1);
        assert(pow10(1) == 10);
        assert(k >= 2);
        assert(v / 10 < pow10((k - 1) as nat));
        lemma_digits_len_below(v / 10, (k - 1) as nat);
    }
}

proof fn lemma_digits_len_bound(v: nat)
    requires
        v <= 18446744073709551615,
    ensures
        1 <= digits_of(v).len() <= 20,
{
    reveal_with_fuel(pow10, 21);
    lemma_digits_len_below(v, 20);
}

/// Appends the decimal numeral of `v`, padded with leading zeros to
/// `width` characters.
pub fn push_zero_padded(s: &mut String, v: u64, width: usize)
    ensures
        final(s)@ == old(s)@ + zero_padded(v as nat, width as int),
{
    let len = digit_count(v);
    let mut i: usize = len;
    while i < width
        invariant
            len <= i,
            i <= width || i == len,
            len == digits_of(v as nat).len(),
            s@ == old(s)@ + zeros(i - len),
        decreases width - i,
    {
        push_char(s, '0');
        proof {
            assert(zeros(i + 1 - len) =~= zeros(i - len).push('0'));
        }
        i = i + 1;
    }
    proof {
        if width <= len {
            assert(zeros(width - len) =~= Seq::<char>::empty());
            assert(zeros(i - len) =~= Seq::<char>::empty());
        } else {
            assert(i == width);
        }
    }
    push_digits(s, v);
    proof {
        assert(s@ =~= old(s)@ + zero_padded(v as nat, width as int));
    }
}

/// Appends the decimal numeral of `v`, with a '-' when negative, as
/// `Display` writes an `i32`.
pub fn push_i32(s: &mut String, v: i32)
    ensures
        final(s)@ == old(s)@ + signed_digits(v as int),
{
    if v < 0 {
        push_char(s, '-');
        let m: u64 = (-(v as i64)) as u64;
        push_digits(s, m);
        proof {
            assert(s@ =~= old(s)@ + signed_digits(v as int));
        }
    } else {
        push_digits(s, v as u64);
    }
}

} // verus!
