use ws_relay::identity::{ConnectionId, DIGITS, TEXT_LEN};

fn is_lower_hex(c: char) -> bool {
    matches!(c, '0'..='9' | 'a'..='f')
}

#[test]
fn text_of_a_known_value() {
    let id = ConnectionId::from_u128(0xa1a2a3a4b1b2c1c2d1d2d3d4d5d6d7d8);
    assert_eq!(id.to_text(), "a1a2a3a4-b1b2-c1c2-d1d2-d3d4d5d6d7d8");
}

#[test]
fn text_of_zero_and_of_the_largest_value() {
    assert_eq!(
        ConnectionId::from_u128(0).to_text(),
        "00000000-0000-0000-0000-000000000000"
    );
    assert_eq!(
        ConnectionId::from_u128(u128::MAX).to_text(),
        "ffffffff-ffff-ffff-ffff-ffffffffffff"
    );
}

#[test]
fn text_puts_the_most_significant_digit_first() {
    assert_eq!(
        ConnectionId::from_u128(0x0123456789abcdef_fedcba9876543210).to_text(),
        "01234567-89ab-cdef-fedc-ba9876543210"
    );
    assert_eq!(
        ConnectionId::from_u128(1).to_text(),
        "00000000-0000-0000-0000-000000000001"
    );
    assert_eq!(
        ConnectionId::from_u128(1 << 127).to_text(),
        "80000000-0000-0000-0000-000000000000"
    );
}

#[test]
fn text_is_not_the_decimal_number() {
    let id = ConnectionId::from_u128(255);
    assert_ne!(id.to_text(), "255");
    assert_eq!(id.to_text(), "00000000-0000-0000-0000-0000000000ff");
}

#[test]
fn value_round_trips() {
    let raw = 0x550e8400_e29b_41d4_a716_446655440000u128;
    let id = ConnectionId::from_u128(raw);
    assert_eq!(id.as_u128(), raw);
    assert_eq!(id, ConnectionId::from_u128(raw));
    assert_ne!(id, ConnectionId::from_u128(raw + 1));
}

#[test]
fn generated_identity_has_the_random_layout() {
    for _ in 0..64 {
        let raw = ConnectionId::generate().as_u128();
        assert_eq!((raw >> 76) & 0xf, 4);
        assert_eq!((raw >> 62) & 0x3, 2);
    }
}

#[test]
fn generated_identity_greets_with_a_well_formed_text() {
    for _ in 0..64 {
        let text = ConnectionId::generate().to_text();
        let chars: Vec<char> = text.chars().collect();
        assert_eq!(chars.len(), TEXT_LEN);
        let mut digits = 0;
        for (i, c) in chars.iter().enumerate() {
            if i == 8 || i == 13 || i == 18 || i == 23 {
                assert_eq!(*c, '-');
            } else {
                assert!(is_lower_hex(*c));
                digits += 1;
            }
        }
        assert_eq!(digits, DIGITS);
        assert_eq!(chars[14], '4');
        assert!(matches!(chars[19], '8' | '9' | 'a' | 'b'));
    }
}

#[test]
fn generated_identities_differ() {
    let mut seen: Vec<ConnectionId> = Vec::new();
    for _ in 0..200 {
        let id = ConnectionId::generate();
        assert!(!seen.contains(&id));
        seen.push(id);
    }
}

#[test]
fn distinct_identities_have_distinct_texts() {
    let base = 0x1111_2222_3333_4444_5555_6666_7777_8888u128;
    let text = ConnectionId::from_u128(base).to_text();
    for bit in 0..128 {
        let other = ConnectionId::from_u128(base ^ (1u128 << bit));
        assert_ne!(other.to_text(), text);
    }
}

#[test]
fn text_agrees_with_the_uuid_crate() {
    let raw = 0x67e55044_10b1_426f_9247_bb680e5fe0c8u128;
    let theirs = uuid::Uuid::parse_str("67e55044-10b1-426f-9247-bb680e5fe0c8").unwrap();
    assert_eq!(theirs.as_u128(), raw);
    assert_eq!(ConnectionId::from_u128(raw).to_text(), theirs.hyphenated().to_string());
}
