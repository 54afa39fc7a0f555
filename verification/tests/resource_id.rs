use resource_id::ulid::{DecodeError, Ulid};
use resource_id::{ResourceID, ResourceIDError};

const ALPHABET: &str = "0123456789ABCDEFGHJKMNPQRSTVWXYZ";

#[test]
fn resource_id_minimal_length_error() {
    let id = ResourceID::new("foo");

    assert!(id.is_err());
}

#[test]
fn resource_id_serialization() {
    let id = ResourceID::new("user").unwrap();

    assert_eq!(&id.to_text()[..4], "USER");
}

#[test]
fn round_trip_through_text() {
    let id = ResourceID::new("user").unwrap();
    let parsed = ResourceID::parse(&id.to_text()).unwrap();
    assert_eq!(parsed, id);
    assert_eq!(parsed.to_text(), id.to_text());
}

#[test]
fn canonical_text_shape() {
    let id = ResourceID::new("acct").unwrap();
    let text = id.to_text();
    assert_eq!(text.len(), 30);
    assert_eq!(&text[..4], "ACCT");
}

#[test]
fn new_accepts_minimum_length_tag() {
    assert!(ResourceID::new("user").is_ok());
    assert!(ResourceID::new("x").is_err());
    assert!(ResourceID::new("").is_err());
}

#[test]
fn rejected_tag_is_returned() {
    match ResourceID::new("foo") {
        Err(ResourceIDError::InvalidIdentifierResourceLength(t)) => assert_eq!(t, "foo"),
        _ => panic!("expected a tag length error"),
    }
}

#[test]
fn validate_resource_checks_length() {
    assert!(ResourceID::validate_resource("user").is_ok());
    assert!(matches!(
        ResourceID::validate_resource("abc"),
        Err(ResourceIDError::InvalidIdentifierResourceLength(_))
    ));
}

#[test]
fn parse_rejects_bad_suffix_characters() {
    let text = format!("USER{}", "!".repeat(26));
    assert!(matches!(
        ResourceID::parse(&text),
        Err(ResourceIDError::UnableToDecodeUlid(DecodeError::InvalidCharacter))
    ));
}

#[test]
fn parse_rejects_bad_suffix_length() {
    let text = format!("USER{}", "A".repeat(10));
    assert!(matches!(
        ResourceID::parse(&text),
        Err(ResourceIDError::UnableToDecodeUlid(DecodeError::InvalidLength))
    ));
}

#[test]
fn parse_rejects_short_text() {
    assert!(matches!(
        ResourceID::parse("USE"),
        Err(ResourceIDError::UnableToDecodeUlid(DecodeError::InvalidLength))
    ));
}

#[test]
fn parse_uppercases_the_tag() {
    let suffix = Ulid::from_parts(42, 7).encode();
    let id = ResourceID::parse(&format!("user{suffix}")).unwrap();
    assert_eq!(&id.to_text()[..4], "USER");
}

#[test]
fn fresh_identifiers_differ() {
    let a = ResourceID::new("user").unwrap();
    let b = ResourceID::new("user").unwrap();
    assert_ne!(a, b);
}

#[test]
fn encode_uses_only_alphabet_characters() {
    let text = Ulid::new().encode();
    assert_eq!(text.len(), 26);
    for c in text.chars() {
        assert!(ALPHABET.contains(c));
    }
}

#[test]
fn decode_accepts_any_encoded_suffix() {
    let u = Ulid::new();
    let decoded = Ulid::decode(&u.encode()).unwrap();
    assert_eq!(decoded, u);
}

#[test]
fn encode_of_zero_is_all_zero_digits() {
    assert_eq!(Ulid::from_parts(0, 0).encode(), "0".repeat(26));
}

#[test]
fn encode_places_the_timestamp_in_high_digits() {
    // One millisecond sits above the 80 random bits: 2^80 is 32^16, the
    // digit of weight 16.
    assert_eq!(
        Ulid::from_parts(1, 0).encode(),
        format!("{}1{}", "0".repeat(9), "0".repeat(16))
    );
}

#[test]
fn encodings_sort_by_timestamp() {
    let early = Ulid::from_parts(1_000, u128::MAX).encode();
    let late = Ulid::from_parts(1_001, 0).encode();
    assert!(early < late);
}

#[test]
fn timestamp_is_reduced_to_48_bits() {
    assert_eq!(
        Ulid::from_parts(u64::MAX, 5).encode(),
        Ulid::from_parts(0xFFFF_FFFF_FFFF, 5).encode()
    );
}

#[test]
fn decode_is_case_insensitive() {
    let upper = Ulid::decode("01ARZ3NDEKTSV4RRFFQ69G5FAV").unwrap();
    let lower = Ulid::decode("01arz3ndektsv4rrffq69g5fav").unwrap();
    assert_eq!(upper, lower);
    assert_eq!(upper.encode(), "01ARZ3NDEKTSV4RRFFQ69G5FAV");
}

#[test]
fn decode_rejects_lookalike_characters() {
    for text in [
        format!("I{}", "0".repeat(25)),
        format!("L{}", "0".repeat(25)),
        format!("O{}", "0".repeat(25)),
        format!("U{}", "0".repeat(25)),
    ] {
        assert_eq!(Ulid::decode(&text), Err(DecodeError::InvalidCharacter));
    }
}

#[test]
fn decode_rejects_wrong_lengths() {
    assert_eq!(Ulid::decode(""), Err(DecodeError::InvalidLength));
    assert_eq!(Ulid::decode("ABC"), Err(DecodeError::InvalidLength));
    assert_eq!(
        Ulid::decode(&"0".repeat(27)),
        Err(DecodeError::InvalidLength)
    );
}

#[test]
fn full_identifier_round_trip_from_parts() {
    let suffix = Ulid::from_parts(123_456_789, 987_654_321).encode();
    let text = format!("USER{suffix}");
    let id = ResourceID::parse(&text).unwrap();
    assert_eq!(id.to_text(), text);
}
