use stellar_events_api::api::routes::{prepare_query, ListEventsRequest};
use stellar_events_api::db::{EventQueryParams, EventStore};
use stellar_events_api::ledger::event_id::{to_internal_id, EventPhase};
use stellar_events_api::ledger::events::{EventType, ExtractedEvent};

const CA: &str = "CAAAAAAAAAAAAAAAAAAAAAAAAAAAAAAAAAAAAAAAAAAAAAAAAAAAAAAAAA";
const CB: &str = "CBBBBBBBBBBBBBBBBBBBBBBBBBBBBBBBBBBBBBBBBBBBBBBBBBBBBBBBBB";

fn event(ledger: u32, tx: u32, idx: u32, ty: EventType, contract: Option<&str>, topics: &[&str], tx_hash: String) -> ExtractedEvent {
    ExtractedEvent {
        ledger_sequence: ledger,
        ledger_closed_at: 1700000000,
        phase: EventPhase::Operation,
        tx_index: tx,
        event_index: idx,
        tx_hash,
        contract_id: contract.map(|c| c.to_string()),
        event_type: ty,
        topics_xdr_json: topics.iter().map(|t| t.to_string()).collect(),
        data_xdr_json: "{}".to_string(),
    }
}

fn fixture() -> Vec<ExtractedEvent> {
    vec![
        event(100, 0, 0, EventType::Contract, Some(CA), &[r#"{"symbol":"transfer"}"#, r#"{"address":"GABC"}"#, r#"{"address":"GDEF"}"#], "a".repeat(64)),
        event(100, 0, 1, EventType::System, None, &[r#"{"symbol":"core_metrics"}"#], "a".repeat(64)),
        event(100, 1, 0, EventType::Contract, Some(CB), &[r#"{"symbol":"transfer"}"#, r#"{"address":"GCCC"}"#, r#"{"address":"GDDD"}"#], "b".repeat(64)),
        event(100, 2, 0, EventType::Contract, Some(CA), &[r#"{"symbol":"mint"}"#, r#"{"address":"GABC"}"#], "c".repeat(64)),
        event(100, 2, 1, EventType::Diagnostic, Some(CA), &[r#"{"symbol":"diag"}"#], "c".repeat(64)),
    ]
}

fn cross_fixture() -> Vec<ExtractedEvent> {
    let mut v = Vec::new();
    for ledger in [100u32, 101, 102] {
        for i in 0..2u32 {
            v.push(event(ledger, i, 0, EventType::Contract, Some(CA), &[r#"{"symbol":"transfer"}"#], format!("{:064x}", ledger * 10 + i)));
        }
    }
    v
}

fn store_with(events: Vec<ExtractedEvent>) -> EventStore {
    let mut store = EventStore::new(24 * 60 * 60);
    store.insert_events(events);
    store
}

fn request(limit: Option<u32>, after: Option<&str>, before: Option<&str>, q: Option<&str>) -> ListEventsRequest {
    ListEventsRequest {
        limit,
        after: after.map(|s| s.to_string()),
        before: before.map(|s| s.to_string()),
        q: q.map(|s| s.to_string()),
    }
}

fn run(store: &EventStore, req: ListEventsRequest) -> stellar_events_api::db::EventQueryResult {
    let params = prepare_query(&req).ok().expect("request is valid");
    store.query_events(&params)
}

#[test]
fn single_type_query() {
    let store = store_with(vec![
        event(100, 0, 0, EventType::Contract, Some(CA), &[r#"{"symbol":"transfer"}"#], "a".repeat(64)),
        event(100, 0, 1, EventType::System, None, &[r#"{"symbol":"core_metrics"}"#], "a".repeat(64)),
    ]);
    let r = run(&store, request(None, None, None, Some("type:system ledger:100")));
    assert_eq!(r.data.len(), 1);
    assert_eq!(r.data[0].event_type, "system");
}

#[test]
fn and_within_group_query() {
    let store = store_with(fixture());
    let q = format!(r#"contract:{} type:contract topic0:{{"symbol":"mint"}} ledger:100"#, CA);
    let r = run(&store, request(None, None, None, Some(&q)));
    assert_eq!(r.data.len(), 1);
    assert_eq!(r.data[0].tx_hash, "c".repeat(64));
    assert_eq!(r.data[0].event_type, "contract");
    assert_eq!(r.data[0].topics[0], r#"{"symbol":"mint"}"#);
}

#[test]
fn dnf_product_query() {
    let q = format!("(type:contract OR type:system) (contract:{} OR contract:{})", CA, CB);
    let filters = stellar_events_api::api::query_parser::parse_query(&q).ok().unwrap();
    assert_eq!(filters.len(), 4);
    let store = store_with(fixture());
    let r = run(&store, request(None, None, None, Some(&q)));
    // contract events of CA or CB: tx 0/0, tx 1/0, tx 2/0, newest first
    let hashes: Vec<String> = r.data.iter().map(|e| e.tx_hash.clone()).collect();
    assert_eq!(hashes, vec!["c".repeat(64), "b".repeat(64), "a".repeat(64)]);
}

#[test]
fn progressive_backward_across_partitions() {
    let store = store_with(cross_fixture());
    let r = run(&store, request(Some(3), None, None, None));
    let ledgers: Vec<u32> = r.data.iter().map(|e| e.ledger_sequence).collect();
    assert_eq!(ledgers, vec![102, 102, 101]);
}

#[test]
fn progressive_pagination_continuation() {
    let store = store_with(cross_fixture());
    let first = run(&store, request(Some(3), None, None, None));
    let next = first.next.clone().unwrap();
    let second = run(&store, request(Some(2), None, Some(&next), None));
    let ledgers: Vec<u32> = second.data.iter().map(|e| e.ledger_sequence).collect();
    assert_eq!(ledgers, vec![101, 100]);
    assert_eq!(second.data[0].tx_hash, format!("{:064x}", 1010));
    assert_eq!(second.data[1].tx_hash, format!("{:064x}", 1001));
    let n1 = to_internal_id(&next).unwrap();
    let n2 = to_internal_id(second.next.as_ref().unwrap()).unwrap();
    assert!(n2 < n1);
}

#[test]
fn pagination_with_pages_of_two() {
    let store = store_with(cross_fixture());
    let page1 = run(&store, request(Some(2), None, None, None));
    assert_eq!(page1.data.iter().map(|e| e.ledger_sequence).collect::<Vec<_>>(), vec![102, 102]);
    let page2 = run(&store, request(Some(2), None, Some(page1.next.as_ref().unwrap()), None));
    assert_eq!(page2.data.iter().map(|e| e.ledger_sequence).collect::<Vec<_>>(), vec![101, 101]);
    let page3 = run(&store, request(Some(2), None, Some(page2.next.as_ref().unwrap()), None));
    assert_eq!(page3.data.iter().map(|e| e.ledger_sequence).collect::<Vec<_>>(), vec![100, 100]);
}

#[test]
fn forward_from_oldest_is_descending_and_after_cursor() {
    let store = store_with(cross_fixture());
    let all = run(&store, request(Some(10), None, None, None));
    assert_eq!(all.data.len(), 6);
    let oldest = all.data.last().unwrap().id.clone();
    let r = run(&store, request(Some(3), Some(&oldest), None, None));
    assert_eq!(r.data.len(), 3);
    let cursor = to_internal_id(&oldest).unwrap();
    let ids: Vec<String> = r.data.iter().map(|e| to_internal_id(&e.id).unwrap()).collect();
    assert!(ids[0] > ids[1] && ids[1] > ids[2]);
    assert!(ids.iter().all(|i| *i > cursor));
}

#[test]
fn cross_ledger_filter_by_contract() {
    let mut events = cross_fixture();
    events[5].contract_id = Some(CB.to_string());
    events[4].contract_id = Some(CB.to_string());
    let store = store_with(events);
    let r = run(&store, request(None, None, None, Some(&format!("contract:{}", CA))));
    assert_eq!(r.data.len(), 4);
    assert!(r.data.iter().all(|e| e.contract_id.as_deref() == Some(CA)));
}

#[test]
fn topic_wildcard_query() {
    let store = store_with(fixture());
    let q = r#"topic0:{"symbol":"transfer"} topic2:{"address":"GDEF"}"#;
    let r = run(&store, request(None, None, None, Some(q)));
    assert_eq!(r.data.len(), 1);
    assert_eq!(r.data[0].tx_hash, "a".repeat(64));
}

#[test]
fn any_topic_query() {
    let store = store_with(fixture());
    let r = run(&store, request(None, None, None, Some(r#"topic:{"address":"GABC"}"#)));
    assert_eq!(r.data.len(), 2);
    let r = run(&store, request(None, None, None, Some(r#"topic:{"address":"GABC"} topic:{"symbol":"mint"}"#)));
    assert_eq!(r.data.len(), 1);
    let r = run(&store, request(None, None, None, Some(r#"topic:{"address":"GZZZ"}"#)));
    assert_eq!(r.data.len(), 0);
}

#[test]
fn tx_filter_with_ledger() {
    let store = store_with(fixture());
    let q = format!("ledger:100 tx:{}", "c".repeat(64));
    let r = run(&store, request(None, None, None, Some(&q)));
    assert_eq!(r.data.len(), 2);
}

#[test]
fn invalid_limits_and_cursors() {
    assert!(prepare_query(&request(Some(0), None, None, None)).is_err());
    assert!(prepare_query(&request(Some(101), None, None, None)).is_err());
    assert!(prepare_query(&request(Some(1), None, None, None)).is_ok());
    assert!(prepare_query(&request(Some(100), None, None, None)).is_ok());
    let c = "evt_0000000100_1_0000_0_0000";
    assert!(prepare_query(&request(None, Some(c), Some(c), None)).is_err());
    assert!(prepare_query(&request(None, Some("garbage"), None, None)).is_err());
    assert!(prepare_query(&request(None, None, None, Some("tx:abc"))).is_err());
    assert!(prepare_query(&request(None, None, None, Some("foo:bar"))).is_err());
}

#[test]
fn default_limit_is_ten() {
    let params: EventQueryParams = prepare_query(&request(None, None, None, None)).ok().unwrap();
    assert_eq!(params.limit, 10);
    assert!(params.filters.is_empty());
}

#[test]
fn partitions_are_sorted_and_deduplicated() {
    let mut events = fixture();
    events.reverse();
    events.push(events[0].clone());
    let store = store_with(events);
    let r = run(&store, request(Some(100), None, None, Some("ledger:100")));
    assert_eq!(r.data.len(), 5);
    let ids: Vec<String> = r.data.iter().map(|e| to_internal_id(&e.id).unwrap()).collect();
    for w in ids.windows(2) {
        assert!(w[0] > w[1]);
    }
}

#[test]
fn inserting_a_cached_ledger_is_a_no_op() {
    let mut store = store_with(fixture());
    store.insert_events(vec![event(100, 9, 9, EventType::Contract, Some(CA), &[], "d".repeat(64))]);
    let r = run(&store, request(Some(100), None, None, Some("ledger:100")));
    assert_eq!(r.data.len(), 5);
    assert_eq!(store.cached_ledger_count(), 1);
    assert_eq!(store.latest_ledger_sequence(), Some(100));
}

#[test]
fn get_event_by_internal_id() {
    let store = store_with(fixture());
    let id = "evt_0000000100_1_0001_0_0000";
    let row = store.get_event(100, id).unwrap();
    assert_eq!(row.tx_hash, "b".repeat(64));
    assert!(store.get_event(100, "evt_0000000100_1_0009_0_0000").is_none());
    assert!(store.get_event(7, id).is_none());
}

#[test]
fn cleanup_removes_expired_and_recomputes_latest() {
    let mut store = EventStore::new(10);
    store.insert_events_at(vec![event(100, 0, 0, EventType::Contract, None, &[], "a".repeat(64))], 0);
    store.insert_events_at(vec![event(105, 0, 0, EventType::Contract, None, &[], "a".repeat(64))], 1000);
    assert_eq!(store.latest_ledger_sequence(), Some(105));
    assert_eq!(store.cleanup_expired_at(10), 1);
    assert_eq!(store.cached_ledger_count(), 1);
    assert_eq!(store.latest_ledger_sequence(), Some(105));
    assert_eq!(store.cleanup_expired_at(1010), 1);
    assert_eq!(store.cached_ledger_count(), 0);
    assert_eq!(store.latest_ledger_sequence(), None);
}

#[test]
fn cleanup_keeps_the_unexpired_maximum() {
    let mut store = EventStore::new(10);
    store.record_ledger_cached_at(300, 0);
    store.record_ledger_cached_at(200, 500);
    assert_eq!(store.latest_ledger_sequence(), Some(300));
    assert_eq!(store.cleanup_expired_at(100), 1);
    assert_eq!(store.latest_ledger_sequence(), Some(200));
}

#[test]
fn uncached_ledgers_in_window() {
    let mut store = EventStore::new(100);
    store.record_ledger_cached_at(11, 0);
    store.record_ledger_cached_at(12, -1000);
    assert_eq!(store.find_uncached_ledgers_at(10, 4, 50), vec![10, 12, 13]);
    assert!(store.is_ledger_cached_at(11, 50));
    assert!(!store.is_ledger_cached_at(12, 50));
    assert_eq!(store.find_uncached_ledgers_at(u32::MAX, 5, 0), vec![u32::MAX]);
}

#[test]
fn sync_state_round_trip() {
    let mut store = EventStore::new(100);
    assert_eq!(store.get_sync_state("last_synced_ledger"), None);
    store.set_sync_state("last_synced_ledger", "123");
    assert_eq!(store.get_sync_state("last_synced_ledger").as_deref(), Some("123"));
}

#[test]
fn rows_carry_closing_time_and_external_id() {
    let store = store_with(fixture());
    let r = run(&store, request(Some(1), None, None, Some("ledger:100")));
    assert_eq!(r.data[0].ledger_closed_at, "2023-11-14T22:13:20+00:00");
    assert_eq!(r.data[0].id.len(), 27);
    assert_eq!(r.next.as_deref(), Some(r.data[0].id.as_str()));
}

#[test]
fn filtered_scan_cursor_is_last_examined() {
    let store = store_with(fixture());
    // newest first: diag (2/1) examined, then mint (2/0) matches
    let r = run(&store, request(Some(1), None, None, Some(r#"ledger:100 topic0:{"symbol":"mint"}"#)));
    assert_eq!(r.data.len(), 1);
    assert_eq!(to_internal_id(r.next.as_ref().unwrap()).unwrap(), "evt_0000000100_1_0002_0_0000");
}

#[test]
fn empty_store_returns_nothing() {
    let store = EventStore::new(100);
    let r = run(&store, request(None, None, None, None));
    assert!(r.data.is_empty());
    assert!(r.next.is_none());
}

#[test]
fn unpadded_after_cursor_is_read_as_its_ledger() {
    let store = store_with(vec![
        event(5, 1, 0, EventType::Contract, Some(CA), &[], "a".repeat(64)),
        event(6, 0, 0, EventType::Contract, Some(CA), &[], "b".repeat(64)),
    ]);
    let r = run(&store, request(Some(10), Some("evt_5_1_0_0_0"), None, None));
    let ledgers: Vec<u32> = r.data.iter().map(|e| e.ledger_sequence).collect();
    assert_eq!(ledgers, vec![6, 5]);
    let cursor = "evt_0000000005_1_0000_0_0000".to_string();
    assert!(r.data.iter().all(|e| to_internal_id(&e.id).unwrap() > cursor));
}

#[test]
fn long_zero_padded_before_cursor_is_read_as_its_ledger() {
    let store = store_with(vec![
        event(4, 0, 0, EventType::Contract, Some(CA), &[], "a".repeat(64)),
        event(6, 0, 0, EventType::Contract, Some(CA), &[], "b".repeat(64)),
    ]);
    let r = run(&store, request(Some(10), None, Some("evt_0000000000000005_1_0000_0_0000"), None));
    let ledgers: Vec<u32> = r.data.iter().map(|e| e.ledger_sequence).collect();
    assert_eq!(ledgers, vec![4]);
}

#[test]
fn prepared_cursors_are_zero_padded() {
    let p = prepare_query(&request(None, Some("evt_5_1_0_0_0"), None, None)).ok().unwrap();
    assert_eq!(p.after.as_deref(), Some("evt_0000000005_1_0000_0_0000"));
}
