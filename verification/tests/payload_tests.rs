//! The connection payload codec: exact renderings, round trips, and
//! rejection of malformed strings.

use experiences::payload::{
    encode_connection_payload, encode_timing, i64_to_decimal, parse_connection_payload, parse_i64,
    parse_timing, parse_u64, u64_to_decimal,
};
use experiences::types::{CompressedExperienceEvent, Timing};

#[test]
fn decimal_rendering_is_exact() {
    assert_eq!(u64_to_decimal(0), "0");
    assert_eq!(u64_to_decimal(7), "7");
    assert_eq!(u64_to_decimal(10), "10");
    assert_eq!(u64_to_decimal(90210), "90210");
    assert_eq!(u64_to_decimal(u64::MAX), "18446744073709551615");
    assert_eq!(i64_to_decimal(-1), "-1");
    assert_eq!(i64_to_decimal(0), "0");
    assert_eq!(i64_to_decimal(i64::MIN), "-9223372036854775808");
    assert_eq!(i64_to_decimal(i64::MAX), "9223372036854775807");
}

#[test]
fn unsigned_parsing_accepts_digits_and_rejects_the_rest() {
    assert_eq!(parse_u64("0"), Some(0));
    assert_eq!(parse_u64("00042"), Some(42));
    assert_eq!(parse_u64("18446744073709551615"), Some(u64::MAX));
    assert_eq!(parse_u64("18446744073709551616"), None);
    assert_eq!(parse_u64(""), None);
    assert_eq!(parse_u64("12a"), None);
    assert_eq!(parse_u64("-3"), None);
    assert_eq!(parse_u64(" 3"), None);
}

#[test]
fn signed_parsing_handles_the_full_range() {
    assert_eq!(parse_i64("0"), Some(0));
    assert_eq!(parse_i64("-1"), Some(-1));
    assert_eq!(parse_i64("-9223372036854775808"), Some(i64::MIN));
    assert_eq!(parse_i64("-9223372036854775809"), None);
    assert_eq!(parse_i64("9223372036854775807"), Some(i64::MAX));
    assert_eq!(parse_i64("9223372036854775808"), None);
    assert_eq!(parse_i64("-"), None);
    assert_eq!(parse_i64("-0"), None);
    assert_eq!(parse_i64("--4"), None);
}

#[test]
fn timing_round_trips() {
    for t in [
        Timing::Instant(0),
        Timing::Instant(-123456),
        Timing::Instant(i64::MAX),
        Timing::Period(-5, 5),
        Timing::Period(i64::MIN, i64::MAX),
    ] {
        let s = encode_timing(&t);
        assert_eq!(parse_timing(s.as_str()), Some(t), "timing {:?} did not round trip", t);
    }
    assert_eq!(encode_timing(&Timing::Instant(-9)), "i-9");
    assert_eq!(encode_timing(&Timing::Period(1, 2)), "p1,2");
    assert_eq!(parse_timing(""), None);
    assert_eq!(parse_timing("x4"), None);
    assert_eq!(parse_timing("p12"), None);
    assert_eq!(parse_timing("p1,"), None);
    assert_eq!(parse_timing("i"), None);
}

#[test]
fn payload_rendering_is_exact() {
    let p = CompressedExperienceEvent::Experience(String::from("some-id"));
    assert_eq!(encode_connection_payload(&p), "experience:some-id");
    let c = CompressedExperienceEvent::Create(Timing::Instant(77));
    assert_eq!(encode_connection_payload(&c), "create:i77");
}

#[test]
fn payload_round_trips_and_rejects_garbage() {
    let p = CompressedExperienceEvent::Experience(String::from("11111111-2222-3333-4444-555555555555"));
    let s = encode_connection_payload(&p);
    match parse_connection_payload(s.as_str()) {
        Some(CompressedExperienceEvent::Experience(id)) => {
            assert_eq!(id, "11111111-2222-3333-4444-555555555555")
        }
        other => panic!("unexpected parse: {:?}", other.is_some()),
    }
    let c = CompressedExperienceEvent::Create(Timing::Period(-1, 1));
    let s = encode_connection_payload(&c);
    match parse_connection_payload(s.as_str()) {
        Some(CompressedExperienceEvent::Create(Timing::Period(a, b))) => {
            assert_eq!((a, b), (-1, 1))
        }
        _ => panic!("create payload did not round trip"),
    }
    assert!(parse_connection_payload("").is_none());
    assert!(parse_connection_payload("experience").is_none());
    assert!(parse_connection_payload("create:").is_none());
    assert!(parse_connection_payload("create:q1").is_none());
    assert!(parse_connection_payload("nonsense:abc").is_none());
}

#[test]
fn empty_experience_id_still_round_trips() {
    let p = CompressedExperienceEvent::Experience(String::new());
    let s = encode_connection_payload(&p);
    assert_eq!(s, "experience:");
    match parse_connection_payload(s.as_str()) {
        Some(CompressedExperienceEvent::Experience(id)) => assert_eq!(id, ""),
        _ => panic!("empty id did not round trip"),
    }
}
