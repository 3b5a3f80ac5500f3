use stellar_events_api::ledger::event_id::{
    decode_event_id, encode_event_id, event_id, parse_event_id, to_external_id, to_internal_id,
    EventPhase,
};

#[test]
fn event_id_test_event_id_roundtrip() {
    let id = event_id(58000000, EventPhase::Operation, 3, 7);
    assert_eq!(id, "evt_0058000000_1_0003_0_0007");
    let (seq, phase, tx, sub, evt) = parse_event_id(&id).unwrap();
    assert_eq!(seq, 58000000);
    assert_eq!(phase, 1);
    assert_eq!(tx, 3);
    assert_eq!(sub, 0);
    assert_eq!(evt, 7);
}

#[test]
fn event_id_test_event_id_ordering() {
    let before = event_id(100, EventPhase::BeforeAllTxs, 0, 0);
    let op = event_id(100, EventPhase::Operation, 0, 0);
    let after_tx = event_id(100, EventPhase::AfterTx, 0, 0);
    let after_all = event_id(100, EventPhase::AfterAllTxs, 0, 0);
    assert!(before < op);
    assert!(op < after_tx);
    assert!(after_tx < after_all);
}

#[test]
fn event_id_test_parse_invalid_event_id() {
    assert!(parse_event_id("invalid").is_none());
    assert!(parse_event_id("evt_abc_def_ghi_jkl").is_none());
    assert!(parse_event_id("evt_1_2").is_none());
    assert!(parse_event_id("evt_1_2_3").is_none());
}

#[test]
fn event_id_test_encode_decode_roundtrip() {
    let external = encode_event_id(58000000, 1, 3, 0, 7);
    assert!(external.starts_with("evt_"));
    let payload = external.strip_prefix("evt_").unwrap();
    assert_eq!(payload.len(), 23);
    assert!(payload.chars().all(|c| c.is_ascii_alphabetic()));

    let (seq, phase, tx, sub, evt) = decode_event_id(&external).unwrap();
    assert_eq!(seq, 58000000);
    assert_eq!(phase, 1);
    assert_eq!(tx, 3);
    assert_eq!(sub, 0);
    assert_eq!(evt, 7);
}

#[test]
fn event_id_test_encode_decode_all_phases() {
    for (phase, sub) in [(0, 0), (1, 0), (1, 1), (2, 0)] {
        let external = encode_event_id(100, phase, 5, sub, 10);
        let (s, p, t, u, e) = decode_event_id(&external).unwrap();
        assert_eq!((s, p, t, u, e), (100, phase, 5, sub, 10));
    }
}

#[test]
fn event_id_test_decode_invalid_external_ids() {
    assert!(decode_event_id("invalid").is_none());
    assert!(decode_event_id("evt_").is_none());
    assert!(decode_event_id("evt_!!!").is_none());
    assert!(decode_event_id("evt_AAAA").is_none());
}

#[test]
fn event_id_test_to_external_and_back() {
    let internal = event_id(58000000, EventPhase::Operation, 3, 7);
    let external = to_external_id(&internal).unwrap();
    let back = to_internal_id(&external).unwrap();
    assert_eq!(back, internal);
}

#[test]
fn event_id_test_to_internal_id_invalid() {
    assert!(to_internal_id("evt_bad").is_none());
    assert!(to_internal_id("not_an_id").is_none());
}

#[test]
fn external_id_known_value() {
    // multiply, reverse the 112 bits, multiply, then base-32 letters
    assert_eq!(encode_event_id(58000000, 1, 3, 0, 7), "evt_htpnBvmzhopjoBvfoBGqdka");
}

#[test]
fn external_id_is_27_letters_of_the_alphabet() {
    let alphabet = "abcdefghijklmnopqrstuvwxyzBDGNRT";
    for (l, p, t, s, e) in [(0u32, 0u8, 0u32, 0u8, 0u32), (u32::MAX, 2, u32::MAX, 1, u32::MAX), (100, 1, 5, 1, 10)] {
        let x = encode_event_id(l, p, t, s, e);
        assert_eq!(x.len(), 27);
        assert!(x[4..].chars().all(|c| alphabet.contains(c)));
        assert_eq!(decode_event_id(&x), Some((l, p, t, s, e)));
    }
}

#[test]
fn decode_rejects_phase_three_and_sub_two() {
    // Build payloads whose decoded phase is 3 or whose sub-phase is 2 by
    // searching encodings of neighbouring values: none of them may decode.
    let with_phase3 = encode_event_id(1, 3, 0, 0, 0);
    assert!(decode_event_id(&with_phase3).is_none());
    let with_sub2 = encode_event_id(1, 0, 0, 2, 0);
    assert!(decode_event_id(&with_sub2).is_none());
}

#[test]
fn neighbouring_ids_look_different() {
    let a = encode_event_id(100, 1, 0, 0, 0);
    let b = encode_event_id(100, 1, 0, 0, 1);
    assert_ne!(a, b);
}

#[test]
fn parse_accepts_plus_sign_and_rejects_overflow() {
    assert_eq!(parse_event_id("evt_+1_0_0_0_0"), Some((1, 0, 0, 0, 0)));
    assert!(parse_event_id("evt_4294967296_0_0_0_0").is_none());
    assert!(parse_event_id("evt_1_256_0_0_0").is_none());
    assert!(parse_event_id("evt__0_0_0_0").is_none());
}

#[test]
fn internal_ids_are_zero_padded() {
    assert_eq!(event_id(0, EventPhase::BeforeAllTxs, 0, 0), "evt_0000000000_0_0000_0_0000");
    assert_eq!(event_id(u32::MAX, EventPhase::AfterAllTxs, 12345, 99999), "evt_4294967295_2_12345_0_99999");
}

#[test]
fn to_internal_rejects_phase_two_sub_one() {
    let x = encode_event_id(5, 2, 0, 1, 0);
    assert!(decode_event_id(&x).is_some());
    assert!(to_internal_id(&x).is_none());
}
