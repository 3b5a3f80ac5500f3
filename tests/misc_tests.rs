use stellar_events_api::api::error::ApiError;
use stellar_events_api::api::routes::{backfill_target, backfill_window, prepare_query, ListEventsRequest};
use stellar_events_api::api::types::Event;
use stellar_events_api::db::EventRow;
use stellar_events_api::sync::{backoff_seconds, decide_batch, start_ledger, FetchOutcome, SleepReason};

#[test]
fn error_envelopes() {
    let (status, body) = ApiError::BadRequest { message: "bad".to_string(), param: Some("limit".to_string()) }.to_error_response();
    assert_eq!(status, 400);
    assert_eq!(body.error.error_type, "invalid_request_error");
    assert_eq!(body.error.code.as_deref(), Some("invalid_parameter"));
    assert_eq!(body.error.param.as_deref(), Some("limit"));
    let (status, body) = ApiError::NotFound { message: "gone".to_string() }.to_error_response();
    assert_eq!(status, 404);
    assert_eq!(body.error.code.as_deref(), Some("resource_missing"));
    let (status, body) = ApiError::Internal { message: "oops".to_string() }.to_error_response();
    assert_eq!(status, 500);
    assert_eq!(body.error.error_type, "api_error");
    assert!(body.error.code.is_none());
}

#[test]
fn event_from_row() {
    let row = EventRow {
        id: "evt_abc".to_string(),
        ledger_sequence: 5,
        ledger_closed_at: "t".to_string(),
        contract_id: None,
        event_type: "system".to_string(),
        topics: vec!["1".to_string()],
        data: "{}".to_string(),
        tx_hash: "h".to_string(),
    };
    let e = Event::from_row(row);
    assert_eq!(e.url, "/events/evt_abc");
    assert_eq!(e.object, "event");
    assert_eq!(e.ledger_sequence, 5);
}

#[test]
fn backfill_windows() {
    assert_eq!(backfill_window(Some(1000), 950), Some((950, 51)));
    assert_eq!(backfill_window(Some(1000), 10), Some((10, 100)));
    assert_eq!(backfill_window(Some(1000), 1001), None);
    assert_eq!(backfill_window(None, 0), Some((0, 1)));
}

#[test]
fn batch_decisions() {
    let d = decide_batch(&vec![FetchOutcome::Fetched, FetchOutcome::Fetched, FetchOutcome::NotFound], 3);
    assert_eq!(d.advanced, 2);
    assert_eq!(d.sleep, Some(SleepReason::NotFound));
    assert_eq!(d.consecutive_failures, 0);
    let d = decide_batch(&vec![FetchOutcome::Failed, FetchOutcome::Fetched], 3);
    assert_eq!(d.advanced, 0);
    assert_eq!(d.sleep, Some(SleepReason::Error));
    assert_eq!(d.consecutive_failures, 4);
    let d = decide_batch(&vec![FetchOutcome::Fetched], 2);
    assert_eq!(d.sleep, None);
    assert_eq!(d.consecutive_failures, 0);
}

#[test]
fn backoff_doubles_up_to_a_minute() {
    assert_eq!(backoff_seconds(0), 1);
    assert_eq!(backoff_seconds(3), 8);
    assert_eq!(backoff_seconds(5), 32);
    assert_eq!(backoff_seconds(6), 60);
    assert_eq!(backoff_seconds(100), 60);
}

#[test]
fn start_ledger_choice() {
    assert_eq!(start_ledger(Some(7), Some("100"), Some(50)), 7);
    assert_eq!(start_ledger(None, Some("100"), Some(50)), 101);
    assert_eq!(start_ledger(None, Some("x"), Some(50)), 40);
    assert_eq!(start_ledger(None, None, Some(5)), 0);
    assert_eq!(start_ledger(None, None, None), 58_000_000);
}

#[test]
fn backfill_targets() {
    let p = prepare_query(&ListEventsRequest { limit: None, after: None, before: None, q: Some("ledger:42".to_string()) }).ok().unwrap();
    assert_eq!(backfill_target(&p), Some(42));
    let p = prepare_query(&ListEventsRequest { limit: None, after: Some("evt_0000000100_1_0000_0_0000".to_string()), before: None, q: None }).ok().unwrap();
    assert_eq!(backfill_target(&p), Some(100));
    let p = prepare_query(&ListEventsRequest { limit: None, after: None, before: None, q: None }).ok().unwrap();
    assert_eq!(backfill_target(&p), None);
}

#[test]
fn multi_params_from_query_strings() {
    let p = stellar_events_api::api::routes::parse_multi_params("limit=5&q=type%3Asystem&key[]=a&key=b&&flag");
    assert_eq!(p.len(), 4);
    assert_eq!(p[0], ("limit".to_string(), vec!["5".to_string()]));
    assert_eq!(p[1], ("q".to_string(), vec!["type:system".to_string()]));
    assert_eq!(p[2], ("key".to_string(), vec!["a".to_string(), "b".to_string()]));
    assert_eq!(p[3], ("flag".to_string(), vec!["".to_string()]));
    let p = stellar_events_api::api::routes::parse_multi_params("a=1=2");
    assert_eq!(p[0].1[0], "1=2");
}

#[test]
fn tx_without_ledger_message_is_exact() {
    let err = stellar_events_api::api::query_parser::parse_query(&format!("tx:{}", "a".repeat(64))).err().unwrap();
    assert_eq!(err.message, "ledger is required when tx is provided");
}

#[test]
fn skipping_held_ledgers_resets_failures() {
    let mut store = stellar_events_api::db::EventStore::new(1_000_000_000);
    store.record_ledger_cached(10);
    store.record_ledger_cached(11);
    assert_eq!(stellar_events_api::sync::skip_cached(&store, 10, 3), (12, 0));
    assert_eq!(stellar_events_api::sync::skip_cached(&store, 12, 3), (12, 3));
}
