//! A sortable, globally-unique resource identifier: a short uppercase
//! resource tag followed by a time-ordered unique suffix.
//!
//! A [`ResourceID`] binds a validated resource tag (at least four
//! characters, canonicalized to uppercase) to one [`ulid::Ulid`] suffix.
//! Its canonical text is the uppercased tag followed by the 26-character
//! suffix encoding; [`ResourceID::parse`] splits that text at the fixed
//! four-character tag width and validates both halves, so identifiers whose
//! tag has exactly four characters round-trip through their text
//! ([`lemma_parse_round_trip`]).

use vstd::prelude::*;

pub mod base32;
pub mod ulid;

use vstd::arithmetic::power2::pow2;
use vstd::string::{StrSliceExecFns, StringExecFns};
use crate::base32::{
    encoded_chars, lemma_pow2_large, lemma_suffix_round_trip, suffix_value, valid_suffix_chars,
};
use crate::ulid::{push_char, DecodeError, Ulid};

verus! {

/// The uppercase form of a character: ASCII lowercase letters map to their
/// uppercase counterparts, every other character stays as it is.
pub open spec fn upper_char(c: char) -> char {
    if c == 'a' {
        'A'
    } else if c == 'b' {
        'B'
    } else if c == 'c' {
        'C'
    } else if c == 'd' {
        'D'
    } else if c == 'e' {
        'E'
    } else if c == 'f' {
        'F'
    } else if c == 'g' {
        'G'
    } else if c == 'h' {
        'H'
    } else if c == 'i' {
        'I'
    } else if c == 'j' {
        'J'
    } else if c == 'k' {
        'K'
    } else if c == 'l' {
        'L'
    } else if c == 'm' {
        'M'
    } else if c == 'n' {
        'N'
    } else if c == 'o' {
        'O'
    } else if c == 'p' {
        'P'
    } else if c == 'q' {
        'Q'
    } else if c == 'r' {
        'R'
    } else if c == 's' {
        'S'
    } else if c == 't' {
        'T'
    } else if c == 'u' {
        'U'
    } else if c == 'v' {
        'V'
    } else if c == 'w' {
        'W'
    } else if c == 'x' {
        'X'
    } else if c == 'y' {
        'Y'
    } else if c == 'z' {
        'Z'
    } else {
        c
    }
}

/// The uppercase form of a text, character by character.
pub open spec fn upper_seq(s: Seq<char>) -> Seq<char> {
    Seq::new(s.len(), |i: int| upper_char(s[i]))
}

/// Uppercasing is idempotent: an already uppercased text stays as it is.
pub proof fn lemma_upper_seq_idempotent(s: Seq<char>)
    ensures
        upper_seq(upper_seq(s)) == upper_seq(s),
{
    assert(upper_seq(upper_seq(s)) =~= upper_seq(s));
}

/// The uppercase form of the one character `c`.
fn upper_char_of(c: char) -> (r: char)
    ensures
        r == upper_char(c),
{
    match c {
        'a' => 'A',
        'b' => 'B',
        'c' => 'C',
        'd' => 'D',
        'e' => 'E',
        'f' => 'F',
        'g' => 'G',
        'h' => 'H',
        'i' => 'I',
        'j' => 'J',
        'k' => 'K',
        'l' => 'L',
        'm' => 'M',
        'n' => 'N',
        'o' => 'O',
        'p' => 'P',
        'q' => 'Q',
        'r' => 'R',
        's' => 'S',
        't' => 'T',
        'u' => 'U',
        'v' => 'V',
        'w' => 'W',
        'x' => 'X',
        'y' => 'Y',
        'z' => 'Z',
        _ => c,
    }
}

/// A failure to construct or parse a resource identifier.
#[derive(Debug, Clone)]
pub enum ResourceIDError {
    /// The suffix part of a text could not be decoded.
    UnableToDecodeUlid(DecodeError),
    /// A tag shorter than four characters, carrying the offending tag text.
    InvalidIdentifierResourceLength(String),
}

/// A resource identifier: an uppercase resource tag of at least four
/// characters and one unique suffix.  Identifiers are immutable values;
/// two are equal exactly when their tags and suffix bits are equal.
#[derive(Debug, Clone, Eq)]
pub struct ResourceID {
    resource: String,
    ulid: Ulid,
}

/// What parsing a text yields: the uppercased four-character tag and the
/// decoded suffix value, or nothing when the text is not thirty characters
/// of tag and suffix.
pub open spec fn spec_parse(s: Seq<char>) -> Option<(Seq<char>, int)> {
    if s.len() == 30 && valid_suffix_chars(s.skip(4)) {
        Some((upper_seq(s.take(4)), suffix_value(s.skip(4))))
    } else {
        None
    }
}

/// Uppercases each character of a text.
fn to_upper(s: &str) -> (r: String)
    ensures
        r@ == upper_seq(s@),
{
    let n = s.unicode_len();
    let mut out = String::new();
    let mut i: usize = 0;
    while i < n
        invariant
            0 <= i <= n,
            n == s@.len(),
            out@.len() == i,
            forall|j: int| 0 <= j < i ==> out@[j] == upper_char(s@[j]),
        decreases n - i,
    {
        let c = s.get_char(i);
        let u = upper_char_of(c);
        push_char(&mut out, u);
        i = i + 1;
    }
    proof {
        assert(out@ =~= upper_seq(s@));
    }
    out
}

impl ResourceID {
    /// The characters of the stored tag.
    pub closed spec fn resource_view(&self) -> Seq<char> {
        self.resource@
    }

    /// The 128-bit value of the stored suffix.
    pub closed spec fn suffix_view(&self) -> int {
        self.ulid.spec_value()
    }

    /// Well-formedness: the tag has at least four characters and is already
    /// uppercase, and the suffix value fits in 128 bits.
    pub closed spec fn wf(&self) -> bool {
        &&& self.resource@.len() >= 4
        &&& upper_seq(self.resource@) == self.resource@
        &&& 0 <= self.ulid.spec_value() < pow2(128)
    }

    /// Checks that a tag has at least four characters, returning the
    /// offending tag text otherwise.
    pub fn validate_resource(resource: &str) -> (r: Result<(), ResourceIDError>)
        ensures
            match r {
                Ok(()) => resource@.len() >= 4,
                Err(ResourceIDError::InvalidIdentifierResourceLength(t)) => resource@.len() < 4
                    && t@ == resource@,
                Err(_) => false,
            },
    {
        if resource.unicode_len() < 4 {
            Err(ResourceIDError::InvalidIdentifierResourceLength(String::from_str(resource)))
        } else {
            Ok(())
        }
    }

    /// Creates an identifier with the given tag and a fresh suffix.  The tag
    /// is uppercased; a tag shorter than four characters is rejected.
    pub fn new(resource: &str) -> (r: Result<ResourceID, ResourceIDError>)
        ensures
            match r {
                Ok(id) => resource@.len() >= 4 && id.wf() && id.resource_view() == upper_seq(
                    resource@,
                ),
                Err(ResourceIDError::InvalidIdentifierResourceLength(t)) => resource@.len() < 4
                    && t@ == resource@,
                Err(_) => false,
            },
    {
        let ulid = Ulid::new();
        match Self::validate_resource(resource) {
            Err(e) => Err(e),
            Ok(()) => {
                proof {
                    lemma_upper_seq_idempotent(resource@);
                    ulid.lemma_value_in_range();
                }
                Ok(ResourceID { resource: to_upper(resource), ulid })
            },
        }
    }

    /// The canonical text: the tag followed by the 26-character suffix
    /// encoding.
    pub fn to_text(&self) -> (r: String)
        ensures
            r@ == self.resource_view() + encoded_chars(self.suffix_view(), 26),
    {
        let suffix = self.ulid.encode();
        self.resource.clone().concat(suffix.as_str())
    }

    /// Parses a canonical text: the first four characters are the tag, the
    /// rest the suffix.  Fails with the wrapped suffix error when the suffix
    /// part is not 26 alphabet characters; a text shorter than four
    /// characters has no suffix of that length either.
    pub fn parse(s: &str) -> (r: Result<ResourceID, ResourceIDError>)
        ensures
            match r {
                Ok(id) => id.wf() && spec_parse(s@) == Some(
                    (id.resource_view(), id.suffix_view()),
                ),
                Err(ResourceIDError::UnableToDecodeUlid(DecodeError::InvalidLength)) => s@.len()
                    != 30,
                Err(ResourceIDError::UnableToDecodeUlid(DecodeError::InvalidCharacter)) => s@.len()
                    == 30 && !valid_suffix_chars(s@.skip(4)),
                Err(ResourceIDError::InvalidIdentifierResourceLength(_)) => false,
            },
            r is Ok <==> spec_parse(s@) is Some,
    {
        let n = s.unicode_len();
        if n < 4 {
            return Err(ResourceIDError::UnableToDecodeUlid(DecodeError::InvalidLength));
        }
        let tag = s.substring_char(0, 4);
        let rest = s.substring_char(4, n);
        proof {
            assert(rest@ =~= s@.skip(4));
        }
        let u = match Ulid::decode(rest) {
            Ok(u) => u,
            Err(e) => {
                return Err(ResourceIDError::UnableToDecodeUlid(e));
            },
        };
        match Self::validate_resource(tag) {
            Ok(()) => {},
            Err(e) => {
                return Err(e);
            },
        }
        proof {
            lemma_upper_seq_idempotent(tag@);
            u.lemma_value_in_range();
            assert(tag@ =~= s@.take(4));
        }
        Ok(ResourceID { resource: to_upper(tag), ulid: u })
    }
}

impl PartialEq for ResourceID {
    fn eq(&self, other: &ResourceID) -> bool {
        proof {
            Ulid::lemma_value_injective(self.ulid, other.ulid);
        }
        self.resource.eq(&other.resource) && self.ulid == other.ulid
    }
}

impl vstd::std_specs::cmp::PartialEqSpecImpl for ResourceID {
    open spec fn obeys_eq_spec() -> bool {
        true
    }

    open spec fn eq_spec(&self, other: &ResourceID) -> bool {
        self.resource_view() == other.resource_view() && self.suffix_view() == other.suffix_view()
    }
}

/// Round-trip law: the canonical text of a well-formed identifier whose tag
/// has exactly four characters parses back to the same tag and suffix.
/// Parsing always splits at the fixed four-character tag width, so a longer
/// tag, though accepted at construction, would be split differently and is
/// left out here.
pub proof fn lemma_parse_round_trip(resource: Seq<char>, suffix: int)
    requires
        resource.len() == 4,
        upper_seq(resource) == resource,
        0 <= suffix < pow2(128),
    ensures
        spec_parse(resource + encoded_chars(suffix, 26)) == Some((resource, suffix)),
{
    lemma_pow2_large();
    lemma_suffix_round_trip(suffix);
    let text = resource + encoded_chars(suffix, 26);
    assert(text.skip(4) =~= encoded_chars(suffix, 26));
    assert(text.take(4) =~= resource);
}

} // verus!
