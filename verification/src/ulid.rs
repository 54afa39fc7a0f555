//! The time-ordered unique suffix: a 128-bit value holding a 48-bit
//! millisecond timestamp over 80 bits of randomness, rendered as 26
//! characters of the restricted 32-symbol alphabet.
//!
//! The timestamp occupies the high-order bits and the alphabet is ordered,
//! so suffixes generated at increasing timestamps sort lexicographically as
//! text ([`lemma_generated_order`]).  Encoding and decoding round-trip
//! exactly ([`crate::base32::lemma_suffix_round_trip`]).

use vstd::prelude::*;
use vstd::arithmetic::power::pow;
use vstd::arithmetic::power::{lemma_pow_increases, lemma_pow_positive};
use vstd::arithmetic::power2::pow2;
use vstd::arithmetic::div_mod::{
    lemma_div_multiples_vanish, lemma_mod_division_less_than_divisor, lemma_small_mod,
};
use vstd::arithmetic::mul::{
    lemma_mul_inequality, lemma_mul_is_distributive_add_other_way, lemma_mul_nonnegative,
};
use crate::base32::{
    alphabet_char, char_value, encoded_chars, is_suffix_char,
    lemma_encoded_chars_index, lemma_encoded_chars_len, lemma_encoded_chars_order,
    lemma_encoded_chars_valid, lemma_pow2_large, lemma_suffix_value_bounds,
    lemma_suffix_value_step, lex_less, suffix_value, valid_suffix_chars,
};

verus! {

/// A failure to decode a suffix text.
#[derive(Debug, Clone, Copy, PartialEq, Eq, Structural)]
pub enum DecodeError {
    /// The text is not exactly 26 characters long.
    InvalidLength,
    /// A character of the text is outside the 32-symbol alphabet.
    InvalidCharacter,
}

/// A time-ordered unique suffix: an immutable 128-bit value whose high 48
/// bits hold a millisecond timestamp and whose low 80 bits hold randomness.
#[derive(Debug, Clone, Copy, PartialEq, Eq, Structural)]
pub struct Ulid {
    value: u128,
}

/// The 128-bit value built from a millisecond timestamp and random bits:
/// the timestamp, reduced to 48 bits, over 80 bits of randomness.
pub open spec fn ulid_value(timestamp_ms: int, random: int) -> int {
    (timestamp_ms % pow2(48) as int) * pow2(80) as int + random % pow2(80) as int
}

#[verifier::external_type_specification]
#[verifier::external_body]
pub struct ExSystemTime(std::time::SystemTime);

/// Relies on std::time::SystemTime::now: reads the wall clock.  Nothing is
/// promised of the value.
#[verifier::external_body]
fn system_time_now() -> std::time::SystemTime {
    std::time::SystemTime::now()
}

/// Relies on SystemTime::duration_since, measured from the Unix epoch: the
/// elapsed time since the epoch, or nothing when the clock sits before it.
/// Nothing is promised of the value.
#[verifier::external_body]
fn duration_since_epoch(t: &std::time::SystemTime) -> Option<core::time::Duration> {
    t.duration_since(std::time::UNIX_EPOCH).ok()
}

/// Relies on Duration::as_millis: the duration in whole milliseconds.
/// Nothing is promised of the value.
#[verifier::external_body]
fn duration_millis(d: &core::time::Duration) -> u128 {
    d.as_millis()
}

/// Relies on rand::random: a fresh value drawn from the thread-local
/// cryptographically secure generator.  Nothing can be promised of it.
pub assume_specification<T>[ rand::random::<T> ]() -> (r: T)
    where
        rand::distributions::Standard: rand::distributions::Distribution<T>,
;

/// Relies on String::push: appends the one character to the end.
#[verifier::external_body]
pub(crate) fn push_char(s: &mut String, c: char)
    ensures
        final(s)@ == old(s)@.push(c),
{
    s.push(c);
}

/// The character that stands for the digit `d`.
fn encode_digit(d: u8) -> (c: char)
    requires
        d < 32,
    ensures
        c == alphabet_char(d as int),
{
    match d {
        0 => '0',
        1 => '1',
        2 => '2',
        3 => '3',
        4 => '4',
        5 => '5',
        6 => '6',
        7 => '7',
        8 => '8',
        9 => '9',
        10 => 'A',
        11 => 'B',
        12 => 'C',
        13 => 'D',
        14 => 'E',
        15 => 'F',
        16 => 'G',
        17 => 'H',
        18 => 'J',
        19 => 'K',
        20 => 'M',
        21 => 'N',
        22 => 'P',
        23 => 'Q',
        24 => 'R',
        25 => 'S',
        26 => 'T',
        27 => 'V',
        28 => 'W',
        29 => 'X',
        30 => 'Y',
        _ => 'Z',
    }
}

/// The digit the character `c` stands for, in either case, or nothing when
/// `c` is outside the alphabet.
fn decode_digit(c: char) -> (r: Option<u8>)
    ensures
        match r {
            Some(d) => is_suffix_char(c) && d as int == char_value(c) && d < 32,
            None => !is_suffix_char(c),
        },
{
    match c {
        '0' => Some(0),
        '1' => Some(1),
        '2' => Some(2),
        '3' => Some(3),
        '4' => Some(4),
        '5' => Some(5),
        '6' => Some(6),
        '7' => Some(7),
        '8' => Some(8),
        '9' => Some(9),
        'A' | 'a' => Some(10),
        'B' | 'b' => Some(11),
        'C' | 'c' => Some(12),
        'D' | 'd' => Some(13),
        'E' | 'e' => Some(14),
        'F' | 'f' => Some(15),
        'G' | 'g' => Some(16),
        'H' | 'h' => Some(17),
        'J' | 'j' => Some(18),
        'K' | 'k' => Some(19),
        'M' | 'm' => Some(20),
        'N' | 'n' => Some(21),
        'P' | 'p' => Some(22),
        'Q' | 'q' => Some(23),
        'R' | 'r' => Some(24),
        'S' | 's' => Some(25),
        'T' | 't' => Some(26),
        'V' | 'v' => Some(27),
        'W' | 'w' => Some(28),
        'X' | 'x' => Some(29),
        'Y' | 'y' => Some(30),
        'Z' | 'z' => Some(31),
        _ => None,
    }
}

impl Ulid {
    /// The 128-bit value of this suffix.
    pub closed spec fn spec_value(&self) -> int {
        self.value as int
    }

    /// The value of a suffix always fits in 128 bits.
    pub proof fn lemma_value_in_range(&self)
        ensures
            0 <= self.spec_value() < pow2(128),
    {
        lemma_pow2_large();
    }

    /// Two suffixes are equal exactly when their 128-bit values are equal.
    pub proof fn lemma_value_injective(a: Ulid, b: Ulid)
        ensures
            (a.spec_value() == b.spec_value()) <==> (a == b),
    {
    }

    /// Builds the suffix with the given timestamp and randomness.  The
    /// timestamp is reduced to its low 48 bits, the randomness to its low
    /// 80; passing the parts explicitly keeps generation deterministic for
    /// callers that supply their own entropy.
    pub fn from_parts(timestamp_ms: u64, random: u128) -> (r: Ulid)
        ensures
            r.spec_value() == ulid_value(timestamp_ms as int, random as int),
    {
        proof {
            lemma_pow2_large();
        }
        let ts: u128 = (timestamp_ms % 0x1000000000000) as u128;
        let rnd: u128 = random % 0x100000000000000000000;
        proof {
            lemma_mul_inequality(ts as int, 0xffffffffffff, 0x100000000000000000000);
        }
        Ulid { value: ts * 0x100000000000000000000 + rnd }
    }

    /// Generates a fresh suffix from the current wall-clock time and fresh
    /// randomness.  A clock reading before the Unix epoch counts as zero
    /// milliseconds.
    pub fn new() -> Ulid {
        let now = system_time_now();
        let millis: u128 = match duration_since_epoch(&now) {
            Some(d) => duration_millis(&d),
            None => 0,
        };
        let ts: u64 = (millis % 0x1000000000000) as u64;
        let random: u128 = rand::random();
        Ulid::from_parts(ts, random)
    }

    /// Renders the suffix as its canonical 26-character text, most
    /// significant digit first, every character drawn from the alphabet.
    pub fn encode(&self) -> (r: String)
        ensures
            r@ == encoded_chars(self.spec_value(), 26),
            r@.len() == 26,
            valid_suffix_chars(r@),
    {
        let v: u128 = self.value;
        let ghost vi = v as int;
        let mut out = String::new();
        let mut p: u128 = 0x20000000000000000000000000000000;
        let mut i: usize = 0;
        proof {
            lemma_pow2_large();
            lemma_encoded_chars_len(vi, 26);
            lemma_encoded_chars_valid(vi, 26);
        }
        while i < 26
            invariant
                0 <= i <= 26,
                out@.len() == i,
                i < 26 ==> p as int == pow(32, (25 - i) as nat),
                forall|m: int|
                    0 <= m < i ==> out@[m] == alphabet_char(
                        (vi / pow(32, (25 - m) as nat)) % 32,
                    ),
                vi == v as int,
            decreases 26 - i,
        {
            proof {
                lemma_pow_positive(32, (25 - i) as nat);
            }
            let d: u8 = ((v / p) % 32) as u8;
            let c = encode_digit(d);
            push_char(&mut out, c);
            if i < 25 {
                proof {
                    reveal(pow);
                    assert(pow(32, (25 - i) as nat) == 32 * pow(32, (24 - i) as nat));
                    lemma_pow_positive(32, (24 - i) as nat);
                    lemma_div_multiples_vanish(pow(32, (24 - i) as nat), 32);
                }
                p = p / 32;
            }
            i = i + 1;
        }
        proof {
            assert forall|m: int| 0 <= m < 26 implies out@[m] == encoded_chars(vi, 26)[m] by {
                lemma_encoded_chars_index(vi, 26, m);
            }
            assert(out@ =~= encoded_chars(vi, 26));
        }
        out
    }

    /// Decodes a 26-character suffix text, in either case.  Fails when the
    /// length is not 26 or a character falls outside the alphabet; the
    /// lookalikes I, L, O and U are rejected, not corrected.
    pub fn decode(s: &str) -> (r: Result<Ulid, DecodeError>)
        ensures
            match r {
                Ok(u) => s@.len() == 26 && valid_suffix_chars(s@) && u.spec_value()
                    == suffix_value(s@),
                Err(DecodeError::InvalidLength) => s@.len() != 26,
                Err(DecodeError::InvalidCharacter) => s@.len() == 26 && !valid_suffix_chars(s@),
            },
    {
        let n = s.unicode_len();
        if n != 26 {
            return Err(DecodeError::InvalidLength);
        }
        let c0 = s.get_char(0);
        let d0 = match decode_digit(c0) {
            Some(d) => d,
            None => {
                return Err(DecodeError::InvalidCharacter);
            },
        };
        let mut v: u128 = (d0 % 8) as u128;
        proof {
            reveal(pow);
            assert(s@.take(1).drop_first() =~= Seq::empty());
            assert(v as int == suffix_value(s@.take(1)));
        }
        let mut i: usize = 1;
        while i < 26
            invariant
                1 <= i <= 26,
                s@.len() == 26,
                forall|j: int| 0 <= j < i ==> is_suffix_char(#[trigger] s@[j]),
                v as int == suffix_value(s@.take(i as int)),
            decreases 26 - i,
        {
            let c = s.get_char(i);
            let d = match decode_digit(c) {
                Some(d) => d,
                None => {
                    return Err(DecodeError::InvalidCharacter);
                },
            };
            proof {
                lemma_pow2_large();
                assert(valid_suffix_chars(s@.take(i as int)));
                lemma_suffix_value_bounds(s@.take(i as int));
                lemma_pow_increases(32, (i - 1) as nat, 24);
                lemma_pow_positive(32, (i - 1) as nat);
                reveal(pow);
                assert(pow(32, i as nat) == 32 * pow(32, (i - 1) as nat));
                lemma_mul_inequality(
                    suffix_value(s@.take(i as int)),
                    8 * pow(32, (i - 1) as nat) - 1,
                    32,
                );
                lemma_pow_increases(32, i as nat, 25);
                lemma_suffix_value_step(s@, i as int);
            }
            v = v * 32 + (d as u128);
            i = i + 1;
        }
        proof {
            assert(s@.take(26) =~= s@);
        }
        Ok(Ulid { value: v })
    }
}

/// Law of time ordering: two suffixes generated at strictly increasing
/// timestamps encode to strictly increasing text under lexicographic
/// comparison, whatever their random bits.  Timestamps at or past two to
/// the 48th milliseconds would be reduced and are left out.  Suffixes of one
/// millisecond differ only in randomness and carry no order.
pub proof fn lemma_generated_order(t1: u64, r1: u128, t2: u64, r2: u128)
    requires
        t1 < t2,
        (t2 as int) < pow2(48),
    ensures
        lex_less(
            encoded_chars(ulid_value(t1 as int, r1 as int), 26),
            encoded_chars(ulid_value(t2 as int, r2 as int), 26),
        ),
{
    lemma_pow2_large();
    let p80 = pow2(80) as int;
    lemma_small_mod(t1 as nat, pow2(48));
    lemma_small_mod(t2 as nat, pow2(48));
    let v1 = ulid_value(t1 as int, r1 as int);
    let v2 = ulid_value(t2 as int, r2 as int);
    assert(v1 == t1 * p80 + (r1 as int) % p80);
    assert(v2 == t2 * p80 + (r2 as int) % p80);
    lemma_mul_nonnegative(t1 as int, p80);
    assert((t1 + 1) * p80 == t1 * p80 + p80) by {
        lemma_mul_is_distributive_add_other_way(p80, t1 as int, 1);
    }
    lemma_mul_inequality(t1 + 1, t2 as int, p80);
    lemma_mul_inequality(t2 as int, 0xffffffffffff, p80);
    lemma_mod_division_less_than_divisor(r1 as int, p80);
    lemma_mod_division_less_than_divisor(r2 as int, p80);
    assert(v1 < (t1 + 1) * p80);
    assert(v1 < v2);
    assert(v2 < pow2(128));
    vstd::arithmetic::power2::lemma_pow2_strictly_increases(128, 130);
    lemma_encoded_chars_order(v1, v2, 26);
}

} // verus!
