use stellar_events_api::api::query_parser::{parse_query, QueryParseErrorKind, MAX_QUERY_LENGTH};

fn json(s: &str) -> serde_json::Value {
    serde_json::from_str(s).unwrap()
}

const CA: &str = "CAAAAAAAAAAAAAAAAAAAAAAAAAAAAAAAAAAAAAAAAAAAAAAAAAAAAAAAAA";
const CB: &str = "CBBBBBBBBBBBBBBBBBBBBBBBBBBBBBBBBBBBBBBBBBBBBBBBBBBBBBBBBB";

// --- 1.1 Single qualifier: type ---

#[test]
fn test_parse_single_type_contract() {
    let filters = parse_query("type:contract").unwrap();
    assert_eq!(filters.len(), 1);
    assert_eq!(filters[0].event_type.as_deref(), Some("contract"));
    assert_eq!(filters[0].contract_id, None);
    assert_eq!(filters[0].topics, None);
}

#[test]
fn test_parse_single_type_system() {
    let filters = parse_query("type:system").unwrap();
    assert_eq!(filters.len(), 1);
    assert_eq!(filters[0].event_type.as_deref(), Some("system"));
}

#[test]
fn test_parse_single_type_diagnostic() {
    let filters = parse_query("type:diagnostic").unwrap();
    assert_eq!(filters.len(), 1);
    assert_eq!(filters[0].event_type.as_deref(), Some("diagnostic"));
}

// --- 1.2 Single qualifier: contract ---

#[test]
fn test_parse_single_contract() {
    let filters = parse_query(&format!("contract:{}", CA)).unwrap();
    assert_eq!(filters.len(), 1);
    assert_eq!(filters[0].contract_id.as_deref(), Some(CA));
    assert_eq!(filters[0].event_type, None);
    assert_eq!(filters[0].topics, None);
}

// --- 1.3 Single qualifier: topic0 ---

#[test]
fn test_parse_single_topic0() {
    let filters = parse_query(r#"topic0:{"symbol":"transfer"}"#).unwrap();
    assert_eq!(filters.len(), 1);
    assert_eq!(filters[0].event_type, None);
    assert_eq!(filters[0].contract_id, None);
    let topics = filters[0].topics.as_ref().unwrap();
    assert_eq!(topics.len(), 1);
    assert_eq!(json(&topics[0]), json(r#"{"symbol": "transfer"}"#));
}

// --- 1.4 Topic with nested JSON ---

#[test]
fn test_parse_topic_nested_json() {
    let filters = parse_query(r#"topic0:{"nested":{"a":"b"}}"#).unwrap();
    assert_eq!(filters.len(), 1);
    let topics = filters[0].topics.as_ref().unwrap();
    assert_eq!(json(&topics[0]), json(r#"{"nested": {"a": "b"}}"#));
}

// --- 1.5 AND: type + contract ---

#[test]
fn test_parse_and_type_contract() {
    let filters = parse_query(&format!("type:contract contract:{}", CA)).unwrap();
    assert_eq!(filters.len(), 1);
    assert_eq!(filters[0].event_type.as_deref(), Some("contract"));
    assert_eq!(filters[0].contract_id.as_deref(), Some(CA));
    assert_eq!(filters[0].topics, None);
}

// --- 1.6 AND: type + topic0 + topic2 (gap at position 1) ---

#[test]
fn test_parse_and_type_topic0_topic2() {
    let filters =
        parse_query(r#"type:contract topic0:{"symbol":"transfer"} topic2:{"address":"GDEF"}"#)
            .unwrap();
    assert_eq!(filters.len(), 1);
    assert_eq!(filters[0].event_type.as_deref(), Some("contract"));
    let topics = filters[0].topics.as_ref().unwrap();
    assert_eq!(topics.len(), 3);
    assert_eq!(json(&topics[0]), json(r#"{"symbol": "transfer"}"#));
    assert!(json(&topics[1]).is_null());
    assert_eq!(json(&topics[2]), json(r#"{"address": "GDEF"}"#));
}

// --- 1.7 OR: two types ---

#[test]
fn test_parse_or_two_types() {
    let filters = parse_query("type:contract OR type:system").unwrap();
    assert_eq!(filters.len(), 2);
    assert_eq!(filters[0].event_type.as_deref(), Some("contract"));
    assert_eq!(filters[1].event_type.as_deref(), Some("system"));
}

// --- 1.8 OR: three-way ---

#[test]
fn test_parse_or_three_way() {
    let filters = parse_query("type:contract OR type:system OR type:diagnostic").unwrap();
    assert_eq!(filters.len(), 3);
    assert_eq!(filters[0].event_type.as_deref(), Some("contract"));
    assert_eq!(filters[1].event_type.as_deref(), Some("system"));
    assert_eq!(filters[2].event_type.as_deref(), Some("diagnostic"));
}

// --- 1.9 Parenthesized group: OR inside AND ---

#[test]
fn test_parse_paren_or_and() {
    let filters =
        parse_query(&format!("(type:contract OR type:system) contract:{}", CA)).unwrap();
    assert_eq!(filters.len(), 2);
    assert_eq!(filters[0].event_type.as_deref(), Some("contract"));
    assert_eq!(filters[0].contract_id.as_deref(), Some(CA));
    assert_eq!(filters[1].event_type.as_deref(), Some("system"));
    assert_eq!(filters[1].contract_id.as_deref(), Some(CA));
}

// --- 1.10 Parenthesized group: OR contracts with shared topic ---

#[test]
fn test_parse_paren_or_contracts_topic() {
    let filters = parse_query(&format!(
        r#"(contract:{} OR contract:{}) topic0:{{"symbol":"transfer"}}"#,
        CA, CB
    ))
    .unwrap();
    assert_eq!(filters.len(), 2);
    assert_eq!(filters[0].contract_id.as_deref(), Some(CA));
    assert_eq!(json(&filters[0].topics.as_ref().unwrap()[0]), json(r#"{"symbol": "transfer"}"#)
    );
    assert_eq!(filters[1].contract_id.as_deref(), Some(CB));
    assert_eq!(json(&filters[1].topics.as_ref().unwrap()[0]), json(r#"{"symbol": "transfer"}"#)
    );
}

// --- 1.11 Nested parentheses ---

#[test]
fn test_parse_nested_parens() {
    let filters = parse_query("((type:contract))").unwrap();
    assert_eq!(filters.len(), 1);
    assert_eq!(filters[0].event_type.as_deref(), Some("contract"));
}

// --- 1.12 DNF cartesian product ---

#[test]
fn test_parse_dnf_cartesian_product() {
    let filters = parse_query(&format!(
        "(type:contract OR type:system) (contract:{} OR contract:{})",
        CA, CB
    ))
    .unwrap();
    assert_eq!(filters.len(), 4);
    // Verify all 4 combinations exist.
    let combos: Vec<(Option<&str>, Option<&str>)> = filters
        .iter()
        .map(|f| (f.event_type.as_deref(), f.contract_id.as_deref()))
        .collect();
    assert!(combos.contains(&(Some("contract"), Some(CA))));
    assert!(combos.contains(&(Some("contract"), Some(CB))));
    assert!(combos.contains(&(Some("system"), Some(CA))));
    assert!(combos.contains(&(Some("system"), Some(CB))));
}

// --- 1.13 Duplicate qualifier: same value collapsed ---

#[test]
fn test_parse_duplicate_same_value() {
    let filters = parse_query("type:contract type:contract").unwrap();
    assert_eq!(filters.len(), 1);
    assert_eq!(filters[0].event_type.as_deref(), Some("contract"));
}

// --- 1.14 Precedence: AND binds tighter than OR ---

#[test]
fn test_parse_precedence_and_over_or() {
    let filters = parse_query(
        r#"type:contract topic0:{"symbol":"transfer"} OR type:system topic0:{"symbol":"core_metrics"}"#,
    )
    .unwrap();
    assert_eq!(filters.len(), 2);
    assert_eq!(filters[0].event_type.as_deref(), Some("contract"));
    assert_eq!(json(&filters[0].topics.as_ref().unwrap()[0]), json(r#"{"symbol": "transfer"}"#)
    );
    assert_eq!(filters[1].event_type.as_deref(), Some("system"));
    assert_eq!(json(&filters[1].topics.as_ref().unwrap()[0]), json(r#"{"symbol": "core_metrics"}"#)
    );
}

// --- 1.15 Extra whitespace ---

#[test]
fn test_parse_extra_whitespace() {
    let filters = parse_query("  type:contract  ").unwrap();
    assert_eq!(filters.len(), 1);
    assert_eq!(filters[0].event_type.as_deref(), Some("contract"));
}

// --- 1.16 Quoted value ---

#[test]
fn test_parse_quoted_value() {
    let filters = parse_query(r#"type:"contract""#).unwrap();
    assert_eq!(filters.len(), 1);
    assert_eq!(filters[0].event_type.as_deref(), Some("contract"));
}

// --- 1.20 Error cases ---

#[test]
fn test_parse_error_empty_query() {
    let err = parse_query("").unwrap_err();
    assert_eq!(err.kind, QueryParseErrorKind::EmptyQuery);
}

#[test]
fn test_parse_error_whitespace_only() {
    let err = parse_query("   ").unwrap_err();
    assert_eq!(err.kind, QueryParseErrorKind::EmptyQuery);
}

#[test]
fn test_parse_error_unknown_key() {
    let err = parse_query("foo:bar").unwrap_err();
    assert_eq!(err.kind, QueryParseErrorKind::UnknownKey);
    assert!(err.message.contains("foo"));
}

#[test]
fn test_parse_error_missing_value() {
    let err = parse_query("type: ").unwrap_err();
    assert_eq!(err.kind, QueryParseErrorKind::MissingValue);
}

#[test]
fn test_parse_error_missing_value_eoi() {
    // "type:" at end of input with nothing after colon should fail as
    // missing value. The tokenizer checks if pos >= len after consuming ':'.
    // In practice "type:" has a space-trimmed trailing, so test "type: "
    // which hits missing_value because next char is space.
    // Also test bare "type:" at absolute end by using it alone in a group.
    let err = parse_query("contract:CA type:").unwrap_err();
    assert_eq!(err.kind, QueryParseErrorKind::MissingValue);
}

#[test]
fn test_parse_error_invalid_type_value() {
    let err = parse_query("type:bogus").unwrap_err();
    assert_eq!(err.kind, QueryParseErrorKind::InvalidValue);
}

#[test]
fn test_parse_error_invalid_type_wrong_case() {
    let err = parse_query("type:CONTRACT").unwrap_err();
    assert_eq!(err.kind, QueryParseErrorKind::InvalidValue);
}

#[test]
fn test_parse_error_unbalanced_open_paren() {
    let err = parse_query("(type:contract").unwrap_err();
    assert_eq!(err.kind, QueryParseErrorKind::UnbalancedParens);
}

#[test]
fn test_parse_error_unbalanced_close_paren() {
    let err = parse_query("type:contract)").unwrap_err();
    // A stray ')' after a complete expression is flagged as an unexpected
    // token rather than unbalanced parens, since the parser has already
    // consumed a valid expression.
    assert!(
        err.kind == QueryParseErrorKind::UnexpectedToken
            || err.kind == QueryParseErrorKind::UnbalancedParens
    );
}

#[test]
fn test_parse_error_empty_parens() {
    let err = parse_query("()").unwrap_err();
    assert_eq!(err.kind, QueryParseErrorKind::UnexpectedToken);
}

#[test]
fn test_parse_error_leading_or() {
    let err = parse_query("OR type:contract").unwrap_err();
    assert_eq!(err.kind, QueryParseErrorKind::UnexpectedToken);
}

#[test]
fn test_parse_error_trailing_or() {
    let err = parse_query("type:contract OR").unwrap_err();
    assert_eq!(err.kind, QueryParseErrorKind::UnexpectedToken);
}

#[test]
fn test_parse_error_consecutive_or() {
    let err = parse_query("type:contract OR OR type:system").unwrap_err();
    assert_eq!(err.kind, QueryParseErrorKind::UnexpectedToken);
}

#[test]
fn test_parse_error_conflicting_qualifiers() {
    let err = parse_query("type:contract type:system").unwrap_err();
    assert_eq!(err.kind, QueryParseErrorKind::ConflictingQualifiers);
}

#[test]
fn test_parse_error_duplicate_topic_position() {
    let err = parse_query(r#"topic0:{"symbol":"a"} topic0:{"symbol":"b"}"#).unwrap_err();
    assert_eq!(err.kind, QueryParseErrorKind::DuplicateTopicPosition);
}

#[test]
fn test_parse_error_unbalanced_braces() {
    let err = parse_query(r#"topic0:{"symbol":"transfer""#).unwrap_err();
    assert_eq!(err.kind, QueryParseErrorKind::UnbalancedBraces);
}

#[test]
fn test_parse_error_unbalanced_quotes() {
    let err = parse_query(r#"type:"contract"#).unwrap_err();
    assert_eq!(err.kind, QueryParseErrorKind::UnbalancedQuotes);
}

#[test]
fn test_parse_error_too_many_filters() {
    // 3 * 2 * 4 = 24 > 20
    let q = format!(
        r#"(type:contract OR type:system OR type:diagnostic) (contract:{} OR contract:{}) (topic0:{{"symbol":"transfer"}} OR topic0:{{"symbol":"mint"}} OR topic0:{{"symbol":"diag"}} OR topic0:{{"symbol":"core_metrics"}})"#,
        CA, CB
    );
    let err = parse_query(&q).unwrap_err();
    assert_eq!(err.kind, QueryParseErrorKind::TooManyFilters);
}

#[test]
fn test_parse_error_conflicting_qualifiers_in_paren_group() {
    let err = parse_query("(type:contract type:system)").unwrap_err();
    assert_eq!(err.kind, QueryParseErrorKind::ConflictingQualifiers);
}

// --- topic (any position) tests ---

#[test]
fn test_parse_single_topic_any() {
    let filters = parse_query(r#"topic:{"symbol":"transfer"}"#).unwrap();
    assert_eq!(filters.len(), 1);
    assert_eq!(filters[0].topics, None);
    let any = filters[0].any_topics.as_ref().unwrap();
    assert_eq!(any.len(), 1);
    assert_eq!(json(&any[0]), json(r#"{"symbol": "transfer"}"#));
}

#[test]
fn test_parse_multiple_topic_any() {
    let filters =
        parse_query(r#"topic:{"symbol":"transfer"} topic:{"symbol":"mint"}"#).unwrap();
    assert_eq!(filters.len(), 1);
    let any = filters[0].any_topics.as_ref().unwrap();
    assert_eq!(any.len(), 2);
    assert_eq!(json(&any[0]), json(r#"{"symbol": "transfer"}"#));
    assert_eq!(json(&any[1]), json(r#"{"symbol": "mint"}"#));
}

#[test]
fn test_parse_topic_any_duplicate_collapsed() {
    let filters =
        parse_query(r#"topic:{"symbol":"transfer"} topic:{"symbol":"transfer"}"#).unwrap();
    assert_eq!(filters.len(), 1);
    let any = filters[0].any_topics.as_ref().unwrap();
    assert_eq!(any.len(), 1);
}

#[test]
fn test_parse_topic_any_with_type() {
    let filters = parse_query(r#"type:contract topic:{"symbol":"transfer"}"#).unwrap();
    assert_eq!(filters.len(), 1);
    assert_eq!(filters[0].event_type.as_deref(), Some("contract"));
    let any = filters[0].any_topics.as_ref().unwrap();
    assert_eq!(json(&any[0]), json(r#"{"symbol": "transfer"}"#));
}

#[test]
fn test_parse_topic_any_with_positional() {
    let filters =
        parse_query(r#"topic:{"symbol":"transfer"} topic0:{"symbol":"transfer"}"#).unwrap();
    assert_eq!(filters.len(), 1);
    let any = filters[0].any_topics.as_ref().unwrap();
    assert_eq!(json(&any[0]), json(r#"{"symbol": "transfer"}"#));
    let positional = filters[0].topics.as_ref().unwrap();
    assert_eq!(json(&positional[0]), json(r#"{"symbol": "transfer"}"#));
}

#[test]
fn test_parse_topic_any_or_expansion() {
    let filters = parse_query(&format!(
        r#"(contract:{} OR contract:{}) topic:{{"symbol":"transfer"}}"#,
        CA, CB
    ))
    .unwrap();
    assert_eq!(filters.len(), 2);
    for f in &filters {
        let any = f.any_topics.as_ref().unwrap();
        assert_eq!(json(&any[0]), json(r#"{"symbol": "transfer"}"#));
    }
    assert_eq!(filters[0].contract_id.as_deref(), Some(CA));
    assert_eq!(filters[1].contract_id.as_deref(), Some(CB));
}

#[test]
fn test_parse_topic_any_invalid_json() {
    let err = parse_query("topic:notjson").unwrap_err();
    assert_eq!(err.kind, QueryParseErrorKind::InvalidValue);
}

// --- ledger and tx tests ---

#[test]
fn test_parse_single_ledger() {
    let filters = parse_query("ledger:58000000").unwrap();
    assert_eq!(filters.len(), 1);
    assert_eq!(filters[0].ledger, Some(58000000));
}

#[test]
fn test_parse_ledger_with_type() {
    let filters = parse_query("ledger:100 type:contract").unwrap();
    assert_eq!(filters.len(), 1);
    assert_eq!(filters[0].ledger, Some(100));
    assert_eq!(filters[0].event_type.as_deref(), Some("contract"));
}

#[test]
fn test_parse_ledger_invalid_value() {
    let err = parse_query("ledger:abc").unwrap_err();
    assert_eq!(err.kind, QueryParseErrorKind::InvalidValue);
    assert!(err.message.contains("invalid value"));
}

#[test]
fn test_parse_ledger_conflicting() {
    let err = parse_query("ledger:100 ledger:200").unwrap_err();
    assert_eq!(err.kind, QueryParseErrorKind::ConflictingQualifiers);
}

#[test]
fn test_parse_ledger_duplicate_same_value() {
    let filters = parse_query("ledger:100 ledger:100").unwrap();
    assert_eq!(filters.len(), 1);
    assert_eq!(filters[0].ledger, Some(100));
}

#[test]
fn test_parse_tx_with_ledger() {
    let tx = "a".repeat(64);
    let filters = parse_query(&format!("ledger:100 tx:{}", tx)).unwrap();
    assert_eq!(filters.len(), 1);
    assert_eq!(filters[0].ledger, Some(100));
    assert_eq!(filters[0].tx.as_deref(), Some(tx.as_str()));
}

#[test]
fn test_parse_tx_without_ledger_error() {
    let tx = "a".repeat(64);
    let err = parse_query(&format!("tx:{}", tx)).unwrap_err();
    assert_eq!(err.kind, QueryParseErrorKind::InvalidValue);
    assert!(err.message.contains("ledger is required"));
}

#[test]
fn test_parse_tx_conflicting() {
    let err = parse_query("ledger:100 tx:abc tx:def").unwrap_err();
    assert_eq!(err.kind, QueryParseErrorKind::ConflictingQualifiers);
}

#[test]
fn test_parse_tx_duplicate_same_value() {
    let filters = parse_query("ledger:100 tx:abc tx:abc").unwrap();
    assert_eq!(filters.len(), 1);
    assert_eq!(filters[0].tx.as_deref(), Some("abc"));
}

// --- Complexity limit tests ---

#[test]
fn test_parse_error_query_too_long() {
    // Build a query that exceeds 1024 bytes.
    // Use repeated OR'd contract qualifiers to build length.
    let mut q = format!("contract:{}", CA);
    while q.len() <= MAX_QUERY_LENGTH {
        q.push_str(&format!(" OR contract:{}", CA));
    }
    assert!(q.len() > MAX_QUERY_LENGTH);
    let err = parse_query(&q).unwrap_err();
    assert_eq!(err.kind, QueryParseErrorKind::QueryTooLong);
}

#[test]
fn test_parse_query_at_max_length() {
    // Build a query that is exactly MAX_QUERY_LENGTH bytes.
    let base = "type:contract";
    let padding_len = MAX_QUERY_LENGTH - base.len();
    let q = format!("{}{}", base, " ".repeat(padding_len));
    assert_eq!(q.len(), MAX_QUERY_LENGTH);
    let result = parse_query(&q);
    assert!(result.is_ok());
}

#[test]
fn test_parse_error_too_many_terms() {
    // Build a query with 21 terms (over the limit of 20).
    let terms: Vec<String> = (0..21).map(|_| "type:contract".to_string()).collect();
    // All same value so they'll collapse without conflicting, but
    // the term count check happens before filter construction.
    let q = terms.join(" ");
    let err = parse_query(&q).unwrap_err();
    assert_eq!(err.kind, QueryParseErrorKind::TooManyTerms);
}

#[test]
fn test_parse_query_at_max_terms() {
    // Build a query with exactly 20 terms — should succeed.
    // Use OR to avoid conflicting qualifier errors within one group.
    let terms: Vec<String> = (0..20).map(|_| "type:contract".to_string()).collect();
    let q = terms.join(" OR ");
    let result = parse_query(&q);
    assert!(result.is_ok());
}

#[test]
fn test_parse_error_nesting_too_deep() {
    // 5 levels of nesting — exceeds the limit of 4.
    let q = "(((((type:contract)))))";
    let err = parse_query(q).unwrap_err();
    assert_eq!(err.kind, QueryParseErrorKind::NestingTooDeep);
}

#[test]
fn test_parse_query_at_max_nesting_depth() {
    // 4 levels of nesting — exactly at the limit.
    let q = "((((type:contract))))";
    let result = parse_query(q);
    assert!(result.is_ok());
}

#[test]
fn dnf_at_exactly_twenty_filters() {
    let q = "(type:contract OR type:system OR type:diagnostic OR type:contract) (ledger:1 OR ledger:2 OR ledger:3 OR ledger:4 OR ledger:5)";
    assert_eq!(parse_query(q).ok().unwrap().len(), 20);
}

#[test]
fn dnf_at_twenty_one_filters() {
    let q = "(type:contract OR type:system OR type:diagnostic) (ledger:1 OR ledger:2 OR ledger:3 OR ledger:4 OR ledger:5 OR ledger:6 OR ledger:7)";
    assert_eq!(parse_query(q).err().unwrap().kind, QueryParseErrorKind::TooManyFilters);
}

#[test]
fn query_at_1025_bytes_is_too_long() {
    let base = "type:contract";
    let q = format!("{}{}", base, " ".repeat(MAX_QUERY_LENGTH + 1 - base.len()));
    assert_eq!(q.len(), 1025);
    assert_eq!(parse_query(&q).err().unwrap().kind, QueryParseErrorKind::QueryTooLong);
}

#[test]
fn twenty_one_or_terms_are_too_many() {
    let terms: Vec<String> = (0..21).map(|_| "type:contract".to_string()).collect();
    let q = terms.join(" OR ");
    assert_eq!(parse_query(&q).err().unwrap().kind, QueryParseErrorKind::TooManyTerms);
}

#[test]
fn duplicate_qualifiers_collapse() {
    let a = parse_query(r#"type:contract topic0:{"a":1} topic:{"b":2}"#).ok().unwrap();
    let b = parse_query(r#"type:contract topic0:{"a":1} topic:{"b":2} type:contract topic0:{"a":1} topic:{"b":2}"#).ok().unwrap();
    assert_eq!(a[0].event_type, b[0].event_type);
    assert_eq!(a[0].topics, b[0].topics);
    assert_eq!(a[0].any_topics, b[0].any_topics);
}

#[test]
fn parsing_twice_gives_equal_filters() {
    let q = format!("(type:contract OR type:system) contract:{}", CA);
    let a = parse_query(&q).ok().unwrap();
    let b = parse_query(&q).ok().unwrap();
    assert_eq!(a.len(), b.len());
    for (x, y) in a.iter().zip(b.iter()) {
        assert_eq!(x.event_type, y.event_type);
        assert_eq!(x.contract_id, y.contract_id);
    }
}

#[test]
fn error_positions_are_byte_offsets() {
    let err = parse_query("type:contract foo:bar").err().unwrap();
    assert_eq!(err.kind, QueryParseErrorKind::UnknownKey);
    assert_eq!(err.position, 14);
    let err = parse_query("contract:é foo:bar").err().unwrap();
    assert_eq!(err.position, 12);
}

#[test]
fn or_inside_a_value_is_not_a_keyword() {
    let f = parse_query("contract:ORACLE").ok().unwrap();
    assert_eq!(f[0].contract_id.as_deref(), Some("ORACLE"));
}

#[test]
fn nested_or_groups_expand() {
    let f = parse_query("(type:contract OR (type:system OR type:diagnostic)) ledger:1").ok().unwrap();
    assert_eq!(f.len(), 3);
    assert_eq!(f[2].event_type.as_deref(), Some("diagnostic"));
    assert_eq!(f[2].ledger, Some(1));
}

#[test]
fn json_values_are_written_back_compactly() {
    let f = parse_query(r#"topic1:{"b": 1,  "a": 2}"#).ok().unwrap();
    let t = f[0].topics.as_ref().unwrap();
    assert_eq!(t[0], "null");
    assert_eq!(json(&t[1]), json(r#"{"a":2,"b":1}"#));
    assert!(!t[1].contains(' '));
}
