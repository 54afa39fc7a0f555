//! The restricted 32-symbol text encoding used by unique suffixes.
//!
//! A suffix is rendered as 26 characters drawn from the alphabet
//! `0123456789ABCDEFGHJKMNPQRSTVWXYZ` (digits and uppercase letters without
//! the visually ambiguous I, L, O and U), most significant digit first.  The
//! alphabet is ordered by symbol code, so numeric order of suffix values and
//! lexicographic order of their encodings agree.

use vstd::prelude::*;
use vstd::arithmetic::power::pow;
use vstd::arithmetic::power::lemma_pow_positive;
use vstd::arithmetic::power2::{pow2, lemma_pow2_adds, lemma2_to64, lemma2_to64_rest};
use vstd::arithmetic::div_mod::{
    lemma_div_denominator, lemma_div_multiples_vanish, lemma_fundamental_div_mod,
    lemma_div_is_ordered, lemma_multiply_divide_lt, lemma_small_mod,
};
use vstd::arithmetic::mul::{
    lemma_mul_inequality, lemma_mul_is_associative, lemma_mul_is_commutative,
    lemma_mul_is_distributive_add_other_way, lemma_mul_nonnegative,
    lemma_mul_strict_inequality,
};

verus! {

/// The character that stands for the digit value `d` (for `0 <= d < 32`).
pub open spec fn alphabet_char(d: int) -> char {
    if d == 0 {
        '0'
    } else if d == 1 {
        '1'
    } else if d == 2 {
        '2'
    } else if d == 3 {
        '3'
    } else if d == 4 {
        '4'
    } else if d == 5 {
        '5'
    } else if d == 6 {
        '6'
    } else if d == 7 {
        '7'
    } else if d == 8 {
        '8'
    } else if d == 9 {
        '9'
    } else if d == 10 {
        'A'
    } else if d == 11 {
        'B'
    } else if d == 12 {
        'C'
    } else if d == 13 {
        'D'
    } else if d == 14 {
        'E'
    } else if d == 15 {
        'F'
    } else if d == 16 {
        'G'
    } else if d == 17 {
        'H'
    } else if d == 18 {
        'J'
    } else if d == 19 {
        'K'
    } else if d == 20 {
        'M'
    } else if d == 21 {
        'N'
    } else if d == 22 {
        'P'
    } else if d == 23 {
        'Q'
    } else if d == 24 {
        'R'
    } else if d == 25 {
        'S'
    } else if d == 26 {
        'T'
    } else if d == 27 {
        'V'
    } else if d == 28 {
        'W'
    } else if d == 29 {
        'X'
    } else if d == 30 {
        'Y'
    } else if d == 31 {
        'Z'
    } else {
        '0'
    }
}

/// The digit value of the character `c`, or `-1` when `c` is not in the
/// alphabet.  Decoding is case-insensitive, so each letter is accepted in
/// both cases; the lookalikes I, L, O and U stay outside the alphabet.
pub open spec fn char_value(c: char) -> int {
    if c == '0' {
        0
    } else if c == '1' {
        1
    } else if c == '2' {
        2
    } else if c == '3' {
        3
    } else if c == '4' {
        4
    } else if c == '5' {
        5
    } else if c == '6' {
        6
    } else if c == '7' {
        7
    } else if c == '8' {
        8
    } else if c == '9' {
        9
    } else if c == 'A' || c == 'a' {
        10
    } else if c == 'B' || c == 'b' {
        11
    } else if c == 'C' || c == 'c' {
        12
    } else if c == 'D' || c == 'd' {
        13
    } else if c == 'E' || c == 'e' {
        14
    } else if c == 'F' || c == 'f' {
        15
    } else if c == 'G' || c == 'g' {
        16
    } else if c == 'H' || c == 'h' {
        17
    } else if c == 'J' || c == 'j' {
        18
    } else if c == 'K' || c == 'k' {
        19
    } else if c == 'M' || c == 'm' {
        20
    } else if c == 'N' || c == 'n' {
        21
    } else if c == 'P' || c == 'p' {
        22
    } else if c == 'Q' || c == 'q' {
        23
    } else if c == 'R' || c == 'r' {
        24
    } else if c == 'S' || c == 's' {
        25
    } else if c == 'T' || c == 't' {
        26
    } else if c == 'V' || c == 'v' {
        27
    } else if c == 'W' || c == 'w' {
        28
    } else if c == 'X' || c == 'x' {
        29
    } else if c == 'Y' || c == 'y' {
        30
    } else if c == 'Z' || c == 'z' {
        31
    } else {
        -1
    }
}

/// Whether `c` belongs to the suffix alphabet (in either case).
pub open spec fn is_suffix_char(c: char) -> bool {
    char_value(c) >= 0
}

/// Whether every character of `s` belongs to the suffix alphabet.
pub open spec fn valid_suffix_chars(s: Seq<char>) -> bool {
    forall|i: int| 0 <= i < s.len() ==> is_suffix_char(#[trigger] s[i])
}

/// The `n`-character encoding of the value `v`, most significant digit first.
pub open spec fn encoded_chars(v: int, n: nat) -> Seq<char>
    decreases n,
{
    if n == 0 {
        Seq::empty()
    } else {
        encoded_chars(v / 32, (n - 1) as nat).push(alphabet_char(v % 32))
    }
}

/// The numeric value of `s` read as base-32 digits, most significant first.
pub open spec fn raw_value(s: Seq<char>) -> int
    decreases s.len(),
{
    if s.len() == 0 {
        0
    } else {
        32 * raw_value(s.drop_last()) + char_value(s.last())
    }
}

/// The value a suffix text decodes to.  Twenty-six base-32 digits carry 130
/// bits, two more than a suffix holds, so the leading digit contributes only
/// its low three bits; the digits of any encoded suffix are unaffected, since
/// an encoded leading digit is below eight.
pub open spec fn suffix_value(s: Seq<char>) -> int {
    if s.len() == 0 {
        0
    } else {
        (char_value(s[0]) % 8) * pow(32, (s.len() - 1) as nat) + raw_value(s.drop_first())
    }
}

/// Every alphabet character decodes back to the digit it stands for.
pub proof fn lemma_alphabet_char_value(d: int)
    requires
        0 <= d < 32,
    ensures
        char_value(alphabet_char(d)) == d,
        is_suffix_char(alphabet_char(d)),
{
}

/// Digit values never reach 32.
pub proof fn lemma_char_value_bound(c: char)
    ensures
        -1 <= char_value(c) < 32,
{
}

/// The alphabet lists its symbols in strictly increasing code order.
pub proof fn lemma_alphabet_monotone(d1: int, d2: int)
    requires
        0 <= d1 < d2 < 32,
    ensures
        (alphabet_char(d1) as u32) < (alphabet_char(d2) as u32),
{
}

/// An encoding has exactly the requested number of characters.
pub proof fn lemma_encoded_chars_len(v: int, n: nat)
    ensures
        encoded_chars(v, n).len() == n,
    decreases n,
{
    if n > 0 {
        lemma_encoded_chars_len(v / 32, (n - 1) as nat);
    }
}

/// Every character of an encoding of a nonnegative value is in the alphabet.
pub proof fn lemma_encoded_chars_valid(v: int, n: nat)
    requires
        v >= 0,
    ensures
        valid_suffix_chars(encoded_chars(v, n)),
    decreases n,
{
    if n > 0 {
        lemma_encoded_chars_len(v / 32, (n - 1) as nat);
        lemma_encoded_chars_valid(v / 32, (n - 1) as nat);
        lemma_alphabet_char_value(v % 32);
        assert forall|i: int| 0 <= i < n implies is_suffix_char(
            #[trigger] encoded_chars(v, n)[i],
        ) by {
            if i < n - 1 {
                assert(encoded_chars(v, n)[i] == encoded_chars(v / 32, (n - 1) as nat)[i]);
            }
        }
    }
}

/// The value of a string of alphabet characters is bounded by the power of
/// 32 its length allows.
pub proof fn lemma_raw_value_bounds(s: Seq<char>)
    requires
        valid_suffix_chars(s),
    ensures
        0 <= raw_value(s) < pow(32, s.len()),
    decreases s.len(),
{
    reveal(pow);
    if s.len() == 0 {
    } else {
        assert(valid_suffix_chars(s.drop_last())) by {
            assert(forall|i: int|
                0 <= i < s.len() - 1 ==> s.drop_last()[i] == #[trigger] s[i]);
        }
        lemma_raw_value_bounds(s.drop_last());
        lemma_char_value_bound(s.last());
        assert(is_suffix_char(s.last()));
        let p = pow(32, (s.len() - 1) as nat);
        assert(pow(32, s.len()) == 32 * p);
        assert(raw_value(s.drop_last()) <= p - 1);
        lemma_mul_inequality(raw_value(s.drop_last()), p - 1, 32);
        assert(raw_value(s.drop_last()) * 32 <= (p - 1) * 32);
        lemma_mul_is_commutative(raw_value(s.drop_last()), 32);
        lemma_mul_is_distributive_add_other_way(32, p, -1);
    }
}

/// Reading one more character multiplies the value so far by 32 and adds the
/// new digit.
pub proof fn lemma_raw_value_push(s: Seq<char>, c: char)
    ensures
        raw_value(s.push(c)) == 32 * raw_value(s) + char_value(c),
{
    assert(s.push(c).drop_last() =~= s);
}

/// The leading digit of a string carries the full power of 32 given by the
/// rest of its length.
pub proof fn lemma_raw_value_first(s: Seq<char>)
    requires
        s.len() > 0,
    ensures
        raw_value(s) == char_value(s[0]) * pow(32, (s.len() - 1) as nat) + raw_value(
            s.drop_first(),
        ),
    decreases s.len(),
{
    reveal(pow);
    if s.len() == 1 {
        assert(s.drop_last() =~= Seq::empty());
        assert(s.drop_first() =~= Seq::empty());
        assert(pow(32, 0) == 1);
    } else {
        let dl = s.drop_last();
        lemma_raw_value_first(dl);
        assert(dl[0] == s[0]);
        assert(dl.drop_first() =~= s.drop_first().drop_last());
        assert(s.drop_first().last() == s.last());
        let p = pow(32, (s.len() - 2) as nat);
        assert(raw_value(s) == 32 * (char_value(s[0]) * p + raw_value(s.drop_first().drop_last()))
            + char_value(s.last()));
        assert(raw_value(s.drop_first()) == 32 * raw_value(s.drop_first().drop_last())
            + char_value(s.drop_first().last()));
        assert(pow(32, (s.len() - 1) as nat) == 32 * p);
        assert(32 * (char_value(s[0]) * p) == char_value(s[0]) * (32 * p)) by {
            lemma_mul_is_associative(32, char_value(s[0]), p);
            lemma_mul_is_commutative(32, char_value(s[0]));
            lemma_mul_is_associative(char_value(s[0]), 32, p);
        }
        lemma_mul_is_distributive_add_other_way(
            32,
            char_value(s[0]) * p,
            raw_value(s.drop_first().drop_last()),
        );
    }
}

/// Character `i` of an encoding is the digit of weight `32^(n-1-i)`.
pub proof fn lemma_encoded_chars_index(v: int, n: nat, i: int)
    requires
        v >= 0,
        0 <= i < n,
    ensures
        encoded_chars(v, n)[i] == alphabet_char((v / pow(32, (n - 1 - i) as nat)) % 32),
    decreases n,
{
    reveal(pow);
    lemma_encoded_chars_len(v / 32, (n - 1) as nat);
    if i == n - 1 {
        assert(pow(32, 0) == 1);
        assert(v / 1 == v) by {
            lemma_div_multiples_vanish(v, 1);
        }
    } else {
        lemma_encoded_chars_index(v / 32, (n - 1) as nat, i);
        let k = (n - 2 - i) as nat;
        lemma_pow_positive(32, k);
        lemma_div_denominator(v, 32, pow(32, k));
        assert(pow(32, (n - 1 - i) as nat) == 32 * pow(32, k));
        assert(encoded_chars(v, n)[i] == encoded_chars(v / 32, (n - 1) as nat)[i]);
    }
}

/// Encoding a value in range and reading the digits back returns the value.
pub proof fn lemma_raw_value_round_trip(v: int, n: nat)
    requires
        0 <= v < pow(32, n),
    ensures
        raw_value(encoded_chars(v, n)) == v,
    decreases n,
{
    reveal(pow);
    if n == 0 {
        assert(pow(32, 0) == 1);
    } else {
        let p = pow(32, (n - 1) as nat);
        assert(pow(32, n) == 32 * p);
        lemma_pow_positive(32, (n - 1) as nat);
        lemma_multiply_divide_lt(v, 32, p);
        lemma_raw_value_round_trip(v / 32, (n - 1) as nat);
        lemma_raw_value_push(encoded_chars(v / 32, (n - 1) as nat), alphabet_char(v % 32));
        lemma_alphabet_char_value(v % 32);
        lemma_fundamental_div_mod(v, 32);
    }
}

/// An encoded suffix decodes to the value it was made from: its 26 characters
/// are all in the alphabet and carry the value back exactly.
pub proof fn lemma_suffix_round_trip(v: int)
    requires
        0 <= v < 8 * pow(32, 25),
    ensures
        encoded_chars(v, 26).len() == 26,
        valid_suffix_chars(encoded_chars(v, 26)),
        suffix_value(encoded_chars(v, 26)) == v,
{
    reveal(pow);
    let s = encoded_chars(v, 26);
    lemma_encoded_chars_len(v, 26);
    lemma_encoded_chars_valid(v, 26);
    let p = pow(32, 25);
    lemma_pow_positive(32, 25);
    assert(pow(32, 26) == 32 * p);
    lemma_mul_strict_inequality(8, 32, p);
    lemma_raw_value_round_trip(v, 26);
    lemma_raw_value_first(s);
    lemma_encoded_chars_index(v, 26, 0);
    lemma_multiply_divide_lt(v, p, 8);
    assert(v / p < 8);
    lemma_small_mod((v / p) as nat, 32);
    assert(char_value(s[0]) == v / p) by {
        lemma_alphabet_char_value(v / p);
    }
    lemma_small_mod((v / p) as nat, 8);
    assert(char_value(s[0]) % 8 == char_value(s[0]));
}

/// Reading one more character of a suffix text multiplies the value decoded
/// so far by 32 and adds the new digit.
pub proof fn lemma_suffix_value_step(s: Seq<char>, i: int)
    requires
        1 <= i < s.len(),
    ensures
        suffix_value(s.take(i + 1)) == 32 * suffix_value(s.take(i)) + char_value(s[i]),
{
    reveal(pow);
    let a = s.take(i);
    let b = s.take(i + 1);
    assert(b[0] == s[0] && a[0] == s[0]);
    assert(b.drop_first() =~= a.drop_first().push(s[i]));
    lemma_raw_value_push(a.drop_first(), s[i]);
    let d0 = char_value(s[0]) % 8;
    let p = pow(32, (i - 1) as nat);
    assert(pow(32, i as nat) == 32 * p);
    assert(32 * (d0 * p) == d0 * (32 * p)) by {
        lemma_mul_is_associative(32, d0, p);
        lemma_mul_is_commutative(32, d0);
        lemma_mul_is_associative(d0, 32, p);
    }
    lemma_mul_is_distributive_add_other_way(32, d0 * p, raw_value(a.drop_first()));
}

/// The value of a nonempty suffix text fits under eight times the power of
/// 32 given by the rest of its length.
pub proof fn lemma_suffix_value_bounds(s: Seq<char>)
    requires
        valid_suffix_chars(s),
        s.len() >= 1,
    ensures
        0 <= suffix_value(s) < 8 * pow(32, (s.len() - 1) as nat),
{
    let d0 = char_value(s[0]) % 8;
    let p = pow(32, (s.len() - 1) as nat);
    lemma_pow_positive(32, (s.len() - 1) as nat);
    assert(valid_suffix_chars(s.drop_first())) by {
        assert(forall|i: int|
            0 <= i < s.len() - 1 ==> s.drop_first()[i] == #[trigger] s[i + 1]);
    }
    lemma_raw_value_bounds(s.drop_first());
    lemma_char_value_bound(s[0]);
    assert(is_suffix_char(s[0]) ==> 0 <= d0 <= 7);
    assert(0 <= d0 <= 7);
    lemma_mul_inequality(d0, 7, p);
    lemma_mul_nonnegative(d0, p);
}

/// A power of 32 is the power of 2 with five times the exponent.
pub proof fn lemma_pow32_is_pow2(n: nat)
    ensures
        pow(32, n) == pow2(5 * n),
    decreases n,
{
    reveal(pow);
    if n == 0 {
    } else {
        lemma_pow32_is_pow2((n - 1) as nat);
        lemma_pow2_adds(5, (5 * n - 5) as nat);
        lemma2_to64();
    }
}

/// The powers of two the suffix layout is built from, as literals.
pub proof fn lemma_pow2_large()
    ensures
        pow2(48) == 0x1000000000000,
        pow2(80) == 0x100000000000000000000,
        pow2(125) == 0x20000000000000000000000000000000,
        pow2(128) == 0x100000000000000000000000000000000,
        pow(32, 25) == pow2(125),
        pow(32, 26) == pow2(130),
        8 * pow(32, 25) == pow2(128),
{
    lemma2_to64();
    lemma2_to64_rest();
    lemma_pow2_adds(64, 16);
    lemma_pow2_adds(64, 61);
    lemma_pow2_adds(64, 64);
    lemma_pow2_adds(3, 125);
    lemma_pow32_is_pow2(25);
    lemma_pow32_is_pow2(26);
}

/// Lexicographic order on character strings, comparing symbol codes.
pub open spec fn lex_less(a: Seq<char>, b: Seq<char>) -> bool {
    exists|i: int|
        {
            &&& 0 <= i < a.len()
            &&& i < b.len()
            &&& (forall|j: int| 0 <= j < i ==> a[j] == b[j])
            &&& ((#[trigger] a[i]) as u32) < (b[i] as u32)
        } || (a.len() < b.len() && a =~= b.take(a.len() as int))
}

/// Encodings of the same width order exactly as the values they encode:
/// the timestamp sits in the high-order digits, so later suffixes sort
/// after earlier ones as plain text.
pub proof fn lemma_encoded_chars_order(v1: int, v2: int, n: nat)
    requires
        0 <= v1 < v2 < pow(32, n),
    ensures
        lex_less(encoded_chars(v1, n), encoded_chars(v2, n)),
    decreases n,
{
    reveal(pow);
    if n == 0 {
        assert(pow(32, 0) == 1);
        assert(false);
    } else {
        let p = pow(32, (n - 1) as nat);
        assert(pow(32, n) == 32 * p);
        lemma_pow_positive(32, (n - 1) as nat);
        let q1 = v1 / 32;
        let q2 = v2 / 32;
        lemma_multiply_divide_lt(v1, 32, p);
        lemma_multiply_divide_lt(v2, 32, p);
        lemma_div_is_ordered(v1, v2, 32);
        let a = encoded_chars(q1, (n - 1) as nat);
        let b = encoded_chars(q2, (n - 1) as nat);
        let s1 = encoded_chars(v1, n);
        let s2 = encoded_chars(v2, n);
        lemma_encoded_chars_len(q1, (n - 1) as nat);
        lemma_encoded_chars_len(q2, (n - 1) as nat);
        lemma_fundamental_div_mod(v1, 32);
        lemma_fundamental_div_mod(v2, 32);
        if q1 == q2 {
            assert(v1 % 32 < v2 % 32);
            lemma_alphabet_monotone(v1 % 32, v2 % 32);
            let i = n - 1;
            assert(0 <= i < s1.len() && i < s2.len() && (forall|j: int|
                0 <= j < i ==> s1[j] == s2[j]) && ((s1[i]) as u32) < (s2[i] as u32));
        } else {
            lemma_encoded_chars_order(q1, q2, (n - 1) as nat);
            let i = choose|i: int|
                {
                    &&& 0 <= i < a.len()
                    &&& i < b.len()
                    &&& (forall|j: int| 0 <= j < i ==> a[j] == b[j])
                    &&& ((#[trigger] a[i]) as u32) < (b[i] as u32)
                };
            assert(0 <= i < s1.len() && i < s2.len() && (forall|j: int|
                0 <= j < i ==> s1[j] == s2[j]) && ((s1[i]) as u32) < (s2[i] as u32));
        }
    }
}

} // verus!
