//! The ephemeral challenge store and the session-token wire form.

use htmx_intro::challenge::ChallengeStore;
use htmx_intro::token::{format_uuid, parse_uuid};

#[test]
fn consume_returns_state_exactly_once() {
    let mut store: ChallengeStore<u32> = ChallengeStore::new();
    store.begin(5, 100, 7);
    assert_eq!(store.consume(5, 110), Some(7));
    assert_eq!(store.consume(5, 111), None);
}

#[test]
fn consume_of_unknown_id_is_not_found() {
    let mut store: ChallengeStore<u32> = ChallengeStore::new();
    assert_eq!(store.consume(5, 0), None);
}

#[test]
fn consume_after_expiry_is_not_found() {
    let mut store: ChallengeStore<u32> = ChallengeStore::new();
    store.begin(5, 100, 7);
    assert_eq!(store.consume(5, 161), None);
}

#[test]
fn consume_at_deadline_is_still_live() {
    let mut store: ChallengeStore<u32> = ChallengeStore::new();
    store.begin(5, 100, 7);
    assert_eq!(store.consume(5, 160), Some(7));
}

#[test]
fn begin_purges_expired_entries() {
    let mut store: ChallengeStore<u32> = ChallengeStore::new();
    store.begin(1, 0, 10);
    store.begin(2, 100, 20);
    assert_eq!(store.consume(1, 100), None);
    assert_eq!(store.consume(2, 100), Some(20));
}

#[test]
fn independent_ceremonies_do_not_interact() {
    let mut store: ChallengeStore<u32> = ChallengeStore::new();
    store.begin(1, 100, 10);
    store.begin(2, 100, 20);
    assert_eq!(store.consume(1, 110), Some(10));
    assert_eq!(store.consume(2, 110), Some(20));
}

#[test]
fn parse_uuid_round_trip() {
    let v: u128 = 0x12345678_9abc_def0_1234_56789abcdef0;
    let s = uuid::Uuid::from_u128(v).to_string();
    assert_eq!(parse_uuid(&s), Some(v));
}

#[test]
fn parse_uuid_exact_value() {
    assert_eq!(
        parse_uuid("00000000-0000-0000-0000-0000000000ff"),
        Some(255)
    );
    assert_eq!(
        parse_uuid("12345678-9abc-def0-1234-56789abcdef0"),
        Some(0x12345678_9abc_def0_1234_56789abcdef0)
    );
}

#[test]
fn parse_uuid_accepts_uppercase() {
    assert_eq!(
        parse_uuid("12345678-9ABC-DEF0-1234-56789ABCDEF0"),
        Some(0x12345678_9abc_def0_1234_56789abcdef0)
    );
}

#[test]
fn format_uuid_matches_the_canonical_form() {
    let v: u128 = 0x12345678_9abc_def0_1234_56789abcdef0;
    assert_eq!(format_uuid(v), "12345678-9abc-def0-1234-56789abcdef0");
    assert_eq!(format_uuid(v), uuid::Uuid::from_u128(v).to_string());
    assert_eq!(format_uuid(0), "00000000-0000-0000-0000-000000000000");
    assert_eq!(format_uuid(u128::MAX), "ffffffff-ffff-ffff-ffff-ffffffffffff");
}

#[test]
fn format_then_parse_round_trips() {
    for v in [0u128, 1, 255, 0xdead_beef, u128::MAX, u128::MAX - 7] {
        assert_eq!(parse_uuid(&format_uuid(v)), Some(v));
    }
}

#[test]
fn parse_uuid_rejects_malformed() {
    assert_eq!(parse_uuid(""), None);
    assert_eq!(parse_uuid("not-a-uuid"), None);
    assert_eq!(parse_uuid("12345678-9abc-def0-1234-56789abcdef"), None);
    assert_eq!(parse_uuid("12345678-9abc-def0-1234-56789abcdef00"), None);
    assert_eq!(parse_uuid("12345678_9abc_def0_1234_56789abcdef0"), None);
    assert_eq!(parse_uuid("1234567g-9abc-def0-1234-56789abcdef0"), None);
    assert_eq!(parse_uuid("123456789abcdef0123456789abcdef01234"), None);
}
