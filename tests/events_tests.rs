use stellar_events_api::ledger::events::{
    decode_event_id, encode_event_id, event_id, parse_event_id, to_external_id, to_internal_id,
    EventPhase, EventType,
};

#[test]
fn events_test_event_id_roundtrip() {
    let id = event_id(58000000, EventPhase::Operation, 3, 7);
    assert_eq!(id, "evt_0058000000_1_0003_0_0007");
    let (seq, phase, tx, sub, evt) = parse_event_id(&id).unwrap();
    assert_eq!(seq, 58000000);
    assert_eq!(phase, 1);
    assert_eq!(tx, 3);
    assert_eq!(sub, 0);
    assert_eq!(evt, 7);
}

#[test]
fn events_test_event_id_ordering() {
    let before = event_id(100, EventPhase::BeforeAllTxs, 0, 0);
    let op = event_id(100, EventPhase::Operation, 0, 0);
    let after_tx = event_id(100, EventPhase::AfterTx, 0, 0);
    let after_all = event_id(100, EventPhase::AfterAllTxs, 0, 0);
    assert!(before < op);
    assert!(op < after_tx);
    assert!(after_tx < after_all);
}

#[test]
fn events_test_parse_invalid_event_id() {
    assert!(parse_event_id("invalid").is_none());
    assert!(parse_event_id("evt_abc_def_ghi_jkl").is_none());
    assert!(parse_event_id("evt_1_2").is_none());
    assert!(parse_event_id("evt_1_2_3").is_none());
}

#[test]
fn test_event_type_display() {
    assert_eq!(EventType::Contract.to_string(), "contract");
    assert_eq!(EventType::System.to_string(), "system");
    assert_eq!(EventType::Diagnostic.to_string(), "diagnostic");
}

#[test]
fn events_test_encode_decode_roundtrip() {
    let external = encode_event_id(58000000, 1, 3, 0, 7);
    assert!(external.starts_with("evt_"));
    let payload = external.strip_prefix("evt_").unwrap();
    assert_eq!(payload.len(), 23);
    assert!(payload.chars().all(|c| c.is_ascii_alphabetic()));

    let (seq, phase, tx, sub, evt) = decode_event_id(&external).unwrap();
    assert_eq!(seq, 58000000);
    assert_eq!(phase, 1);
    assert_eq!(tx, 3);
    assert_eq!(sub, 0);
    assert_eq!(evt, 7);
}

#[test]
fn events_test_encode_decode_all_phases() {
    for (phase, sub) in [(0, 0), (1, 0), (1, 1), (2, 0)] {
        let external = encode_event_id(100, phase, 5, sub, 10);
        let (s, p, t, u, e) = decode_event_id(&external).unwrap();
        assert_eq!((s, p, t, u, e), (100, phase, 5, sub, 10));
    }
}

#[test]
fn events_test_decode_invalid_external_ids() {
    assert!(decode_event_id("invalid").is_none());
    assert!(decode_event_id("evt_").is_none());
    assert!(decode_event_id("evt_!!!").is_none());
    assert!(decode_event_id("evt_AAAA").is_none());
}

#[test]
fn events_test_to_external_and_back() {
    let internal = event_id(58000000, EventPhase::Operation, 3, 7);
    let external = to_external_id(&internal).unwrap();
    let back = to_internal_id(&external).unwrap();
    assert_eq!(back, internal);
}

#[test]
fn events_test_to_internal_id_invalid() {
    assert!(to_internal_id("evt_bad").is_none());
    assert!(to_internal_id("not_an_id").is_none());
}

#[test]
fn keyed_external_id_known_value() {
    assert_eq!(encode_event_id(58000000, 1, 3, 0, 7), "evt_uahbGGcTBkkgqchhhRaGmsq");
}

#[test]
fn event_type_names_parse_back() {
    assert_eq!(EventType::from_name("contract"), Some(EventType::Contract));
    assert_eq!(EventType::from_name("system"), Some(EventType::System));
    assert_eq!(EventType::from_name("diagnostic"), Some(EventType::Diagnostic));
    assert_eq!(EventType::from_name("CONTRACT"), None);
}
