//! The partitioned in-memory event store and its query engine.
use vstd::prelude::*;
use vstd::utf8::encode_utf8;
use crate::api::query_parser::{filters_view, null_text};
use crate::ledger::events::{event_type_name, type_from_name, EventType};
use crate::text::{all_digits, dec_padded, digit_value, digits_value, is_digit, lemma_dec_len_bound, lemma_dec_padded, str_eq};
use crate::ledger::event_id::{canonical_cursor, canonicalize_cursor, decode_external, encode_event_id, event_id, external_id, internal_id, parse_event_id, parse_internal, phase_of};
use crate::ledger::events::{EventPhase, ExtractedEvent};
use dashmap::DashMap;
use std::sync::Arc;

verus! {

/// A filter as the specification sees it.
pub struct FilterSpec {
    pub contract_id: Option<Seq<char>>,
    pub event_type: Option<Seq<char>>,
    pub topics: Option<Seq<Seq<char>>>,
    pub any_topics: Option<Seq<Seq<char>>>,
    pub ledger: Option<u32>,
    pub tx: Option<Seq<char>>,
}

/// The view of an optional string.
pub open spec fn opt_view(s: Option<String>) -> Option<Seq<char>> {
    match s {
        Some(t) => Some(t@),
        None => None,
    }
}

/// The view of a list of strings.
pub open spec fn strings_view(v: Seq<String>) -> Seq<Seq<char>> {
    v.map_values(|s: String| s@)
}

/// The view of an optional list of strings.
pub open spec fn opt_strings_view(v: Option<Vec<String>>) -> Option<Seq<Seq<char>>> {
    match v {
        Some(t) => Some(strings_view(t@)),
        None => None,
    }
}

/// A structured event filter. Filters in a list are OR'd; the conditions of one
/// filter are AND'd. Topic values are JSON texts; `null` in `topics` is a wildcard.
#[derive(Debug)]
pub struct EventFilter {
    /// Contract id (strkey) the event must come from.
    pub contract_id: Option<String>,
    /// Event type name: `contract`, `system` or `diagnostic`.
    pub event_type: Option<String>,
    /// Positional topics: the event needs at least as many, equal where not `null`.
    pub topics: Option<Vec<String>>,
    /// Topics that must each appear at some position.
    pub any_topics: Option<Vec<String>>,
    /// Ledger the query is pinned to (routing, not a predicate).
    pub ledger: Option<u32>,
    /// Transaction hash the event must belong to.
    pub tx: Option<String>,
}

impl View for EventFilter {
    type V = FilterSpec;

    open spec fn view(&self) -> FilterSpec {
        FilterSpec {
            contract_id: opt_view(self.contract_id),
            event_type: opt_view(self.event_type),
            topics: opt_strings_view(self.topics),
            any_topics: opt_strings_view(self.any_topics),
            ledger: self.ledger,
            tx: opt_view(self.tx),
        }
    }
}


/// Byte-wise lexicographic order, the order of Rust strings.
pub open spec fn bytes_lt(a: Seq<u8>, b: Seq<u8>) -> bool
    decreases a.len(),
{
    if b.len() == 0 {
        false
    } else if a.len() == 0 {
        true
    } else if a[0] != b[0] {
        a[0] < b[0]
    } else {
        bytes_lt(a.drop_first(), b.drop_first())
    }
}

/// The order of ids: their UTF-8 bytes compared lexicographically.
pub open spec fn id_lt(a: Seq<char>, b: Seq<char>) -> bool {
    bytes_lt(encode_utf8(a), encode_utf8(b))
}

/// `bytes_lt` is irreflexive.
pub proof fn lemma_bytes_lt_irreflexive(a: Seq<u8>)
    ensures
        !bytes_lt(a, a),
    decreases a.len(),
{
    if a.len() > 0 {
        lemma_bytes_lt_irreflexive(a.drop_first());
    }
}

/// `bytes_lt` is transitive.
pub proof fn lemma_bytes_lt_transitive(a: Seq<u8>, b: Seq<u8>, c: Seq<u8>)
    requires
        bytes_lt(a, b),
        bytes_lt(b, c),
    ensures
        bytes_lt(a, c),
    decreases a.len(),
{
    if a.len() > 0 && b.len() > 0 && c.len() > 0 && a[0] == b[0] && b[0] == c[0] {
        lemma_bytes_lt_transitive(a.drop_first(), b.drop_first(), c.drop_first());
    }
}

/// Two different byte strings are ordered one way or the other.
pub proof fn lemma_bytes_lt_total(a: Seq<u8>, b: Seq<u8>)
    ensures
        a == b || bytes_lt(a, b) || bytes_lt(b, a),
    decreases a.len(),
{
    if a.len() > 0 && b.len() > 0 && a[0] == b[0] {
        lemma_bytes_lt_total(a.drop_first(), b.drop_first());
        if a.drop_first() == b.drop_first() {
            assert(a =~= seq![a[0]] + a.drop_first());
            assert(b =~= seq![b[0]] + b.drop_first());
        }
    } else if a.len() == 0 && b.len() == 0 {
        assert(a =~= b);
    }
}

/// The id order is a strict total order.
pub proof fn lemma_id_order(a: Seq<char>, b: Seq<char>, c: Seq<char>)
    ensures
        !id_lt(a, a),
        id_lt(a, b) && id_lt(b, c) ==> id_lt(a, c),
        a == b || id_lt(a, b) || id_lt(b, a),
        id_lt(a, b) ==> !id_lt(b, a),
{
    lemma_bytes_lt_irreflexive(encode_utf8(a));
    if id_lt(a, b) && id_lt(b, c) {
        lemma_bytes_lt_transitive(encode_utf8(a), encode_utf8(b), encode_utf8(c));
    }
    if id_lt(a, b) && id_lt(b, a) {
        lemma_bytes_lt_transitive(encode_utf8(a), encode_utf8(b), encode_utf8(a));
    }
    lemma_bytes_lt_total(encode_utf8(a), encode_utf8(b));
    if encode_utf8(a) == encode_utf8(b) {
        vstd::utf8::encode_utf8_decode_utf8(a);
        vstd::utf8::encode_utf8_decode_utf8(b);
    }
}

/// How two ids compare: -1, 0 or 1.
pub fn compare_ids(a: &str, b: &str) -> (r: i8)
    ensures
        r == -1 <==> id_lt(a@, b@),
        r == 0 <==> a@ == b@,
        r == 1 <==> id_lt(b@, a@),
        r == -1 || r == 0 || r == 1,
{
    let x = a.as_bytes();
    let y = b.as_bytes();
    let ghost xs = encode_utf8(a@);
    let ghost ys = encode_utf8(b@);
    assert(x@ == xs);
    assert(y@ == ys);
    let mut i: usize = 0;
    assert(xs.skip(0) =~= xs);
    assert(ys.skip(0) =~= ys);
    assert(xs.take(0) =~= ys.take(0));
    while i < x.len() && i < y.len() && x[i] == y[i]
        invariant
            x@ == xs,
            y@ == ys,
            i <= xs.len(),
            i <= ys.len(),
            bytes_lt(xs, ys) == bytes_lt(xs.skip(i as int), ys.skip(i as int)),
            bytes_lt(ys, xs) == bytes_lt(ys.skip(i as int), xs.skip(i as int)),
            xs.take(i as int) == ys.take(i as int),
        decreases x.len() - i,
    {
        assert(xs.skip(i as int).drop_first() =~= xs.skip(i + 1));
        assert(ys.skip(i as int).drop_first() =~= ys.skip(i + 1));
        i = i + 1;
        assert(xs.take(i as int) =~= xs.take(i - 1).push(xs[i - 1]));
        assert(ys.take(i as int) =~= ys.take(i - 1).push(ys[i - 1]));
    }
    proof {
        lemma_id_order(a@, b@, b@);
        if i == xs.len() && i == ys.len() {
            assert(xs =~= xs.take(i as int));
            assert(ys =~= ys.take(i as int));
            vstd::utf8::encode_utf8_decode_utf8(a@);
            vstd::utf8::encode_utf8_decode_utf8(b@);
        }
        if a@ == b@ {
            assert(xs == ys);
        }
    }
    if i == x.len() && i == y.len() {
        0
    } else if i == x.len() {
        -1
    } else if i == y.len() {
        1
    } else if x[i] < y[i] {
        -1
    } else {
        1
    }
}


/// An event as the store keeps it. Topics and data are JSON texts.
pub struct StoredEvent {
    /// Internal id, ordered by execution.
    pub id: String,
    /// Opaque id shown to clients.
    pub external_id: String,
    pub ledger_sequence: u32,
    /// Close time of the ledger, RFC 3339.
    pub ledger_closed_at: String,
    pub contract_id: Option<String>,
    pub event_type: EventType,
    pub topics: Vec<String>,
    pub data: String,
    pub tx_hash: String,
}

/// All events of one ledger, in increasing id order, and when they expire.
pub struct LedgerPartition {
    pub events: Vec<StoredEvent>,
    pub expires_at: i64,
}

/// Whether ids strictly increase along `es`.
pub open spec fn sorted_by_id(es: Seq<StoredEvent>) -> bool {
    forall|i: int, j: int| 0 <= i < j < es.len() ==> id_lt(#[trigger] es[i].id@, #[trigger] es[j].id@)
}

/// Whether `id` is the internal id of some event of ledger `seq`.
pub open spec fn id_in_ledger(id: Seq<char>, seq: u32) -> bool {
    exists|p: u8, t: u32, s: u8, e: u32| id == #[trigger] internal_id(seq, p, t, s, e)
}

/// Whether an event's external id encodes the same components as its internal id.
#[verifier::opaque]
pub open spec fn ids_agree(e: StoredEvent) -> bool {
    exists|ph: EventPhase, t: u32, n: u32| e.id@ == #[trigger] internal_id(e.ledger_sequence, ph.phase_sub().0, t, ph.phase_sub().1, n)
        && e.external_id@ == external_id(e.ledger_sequence, ph.phase_sub().0, t, ph.phase_sub().1, n)
}

/// A partition of ledger `seq`: ids strictly increase and every event belongs
/// to `seq`, its id being an internal id of that ledger.
#[verifier::opaque]
pub open spec fn partition_wf(p: LedgerPartition, seq: u32) -> bool {
    &&& sorted_by_id(p.events@)
    &&& forall|i: int| 0 <= i < p.events@.len() ==> (#[trigger] p.events@[i]).ledger_sequence == seq
    &&& forall|i: int| 0 <= i < p.events@.len() ==> id_in_ledger((#[trigger] p.events@[i]).id@, seq)
    &&& forall|i: int| 0 <= i < p.events@.len() ==> ids_agree(#[trigger] p.events@[i])
}

/// Whether the event's topics satisfy a positional pattern (`null` matches anything).
pub open spec fn topics_match(pattern: Seq<Seq<char>>, topics: Seq<String>) -> bool {
    pattern.len() == 0 || (topics.len() >= pattern.len() && forall|i: int|
        0 <= i < pattern.len() ==> (#[trigger] pattern[i]) == null_text() || topics[i]@ == pattern[i])
}

/// Whether `t` appears at some position of `topics`.
pub open spec fn has_topic(topics: Seq<String>, t: Seq<char>) -> bool {
    exists|j: int| 0 <= j < topics.len() && (#[trigger] topics[j])@ == t
}

/// Whether every required topic appears at some position of the event.
pub open spec fn topics_contain(required: Seq<Seq<char>>, topics: Seq<String>) -> bool {
    forall|i: int| 0 <= i < required.len() ==> has_topic(topics, #[trigger] required[i])
}

/// Whether an event satisfies every condition a filter sets.
pub open spec fn filter_matches(f: FilterSpec, e: StoredEvent) -> bool {
    &&& match f.contract_id {
        Some(c) => opt_view(e.contract_id) == Some(c),
        None => true,
    }
    &&& match f.event_type {
        Some(t) => type_from_name(t) == Some(e.event_type),
        None => true,
    }
    &&& match f.topics {
        Some(p) => topics_match(p, e.topics@),
        None => true,
    }
    &&& match f.any_topics {
        Some(r) => topics_contain(r, e.topics@),
        None => true,
    }
    &&& match f.tx {
        Some(t) => e.tx_hash@ == t,
        None => true,
    }
}

/// Whether an event passes a query: the query's transaction, and any filter (or none given).
pub open spec fn event_selected(e: StoredEvent, tx: Option<Seq<char>>, filters: Seq<FilterSpec>) -> bool {
    &&& match tx {
        Some(t) => e.tx_hash@ == t,
        None => true,
    }
    &&& (filters.len() == 0 || exists|i: int| 0 <= i < filters.len() && filter_matches(#[trigger] filters[i], e))
}

/// Parameters of an event query.
#[derive(Debug)]
pub struct EventQueryParams {
    /// Maximum number of events returned.
    pub limit: u32,
    /// Internal id: only events after it.
    pub after: Option<String>,
    /// Internal id: only events before it.
    pub before: Option<String>,
    /// Ledger the query is pinned to.
    pub ledger: Option<u32>,
    /// Transaction hash all results must belong to.
    pub tx: Option<String>,
    /// Filters, OR'd; none means no constraint.
    pub filters: Vec<EventFilter>,
}

fn topic_is_wildcard(t: &String) -> (r: bool)
    ensures
        r == (t@ == null_text()),
{
    proof {
        reveal_strlit("null");
        assert("null"@ =~= null_text());
    }
    str_eq(t.as_str(), "null")
}

impl StoredEvent {
    /// Whether this event satisfies every condition of `filter`.
    pub fn matches_filter(&self, filter: &EventFilter) -> (r: bool)
        ensures
            r == filter_matches(filter@, *self),
    {
        if let Some(cid) = &filter.contract_id {
            match &self.contract_id {
                Some(eid) => {
                    if *eid != *cid {
                        return false;
                    }
                },
                None => return false,
            }
        }
        if let Some(et) = &filter.event_type {
            match EventType::from_name(et.as_str()) {
                Some(t) => {
                    if t != self.event_type {
                        return false;
                    }
                },
                None => return false,
            }
        }
        if let Some(topics) = &filter.topics {
            if topics.len() > 0 {
                let ghost pat = strings_view(topics@);
                if self.topics.len() < topics.len() {
                    return false;
                }
                let mut i: usize = 0;
                while i < topics.len()
                    invariant
                        i <= topics@.len(),
                        pat == strings_view(topics@),
                        filter@.topics == Some(pat),
                        self.topics@.len() >= topics@.len(),
                        forall|k: int| 0 <= k < i ==> (#[trigger] pat[k]) == null_text() || self.topics@[k]@ == pat[k],
                    decreases topics.len() - i,
                {
                    assert(pat[i as int] == topics@[i as int]@);
                    if !topic_is_wildcard(&topics[i]) && self.topics[i] != topics[i] {
                        assert(!topics_match(pat, self.topics@));
                        assert(filter@.topics == Some(pat));
                        return false;
                    }
                    i = i + 1;
                }
                assert(topics_match(pat, self.topics@));
            }
        }
        if let Some(any) = &filter.any_topics {
            let ghost req = strings_view(any@);
            let mut i: usize = 0;
            while i < any.len()
                invariant
                    i <= any@.len(),
                    req == strings_view(any@),
                    filter@.any_topics == Some(req),
                    forall|k: int| 0 <= k < i ==> has_topic(self.topics@, #[trigger] req[k]),
                decreases any.len() - i,
            {
                let mut found = false;
                let mut j: usize = 0;
                while j < self.topics.len()
                    invariant
                        i < any@.len(),
                        j <= self.topics@.len(),
                        req == strings_view(any@),
                        found ==> has_topic(self.topics@, req[i as int]),
                        !found ==> forall|m: int| 0 <= m < j ==> (#[trigger] self.topics@[m])@ != req[i as int],
                    decreases self.topics.len() - j,
                {
                    assert(req[i as int] == any@[i as int]@);
                    if self.topics[j] == any[i] {
                        found = true;
                    }
                    j = j + 1;
                }
                if !found {
                    assert(!has_topic(self.topics@, req[i as int]));
                    assert(filter@.any_topics == Some(req));
                    return false;
                }
                i = i + 1;
            }
            assert(req.len() == any@.len());
            assert(topics_contain(req, self.topics@));
        }
        if let Some(tx) = &filter.tx {
            if self.tx_hash != *tx {
                return false;
            }
        }
        true
    }
}

/// Whether an event passes the query's transaction constraint and its filters.
pub fn event_matches(event: &StoredEvent, params: &EventQueryParams) -> (r: bool)
    ensures
        r == event_selected(*event, opt_view(params.tx), filters_view(params.filters@)),
{
    if let Some(tx) = &params.tx {
        if event.tx_hash != *tx {
            return false;
        }
    }
    if params.filters.len() == 0 {
        return true;
    }
    let ghost fs = filters_view(params.filters@);
    let mut i: usize = 0;
    while i < params.filters.len()
        invariant
            i <= params.filters@.len(),
            fs == filters_view(params.filters@),
            match opt_view(params.tx) {
                Some(t) => event.tx_hash@ == t,
                None => true,
            },
            forall|k: int| 0 <= k < i ==> !filter_matches(#[trigger] fs[k], *event),
        decreases params.filters.len() - i,
    {
        assert(fs[i as int] == params.filters@[i as int]@);
        if event.matches_filter(&params.filters[i]) {
            assert(filter_matches(fs[i as int], *event));
            return true;
        }
        i = i + 1;
    }
    false
}


/// An event row as the specification sees it.
pub struct RowSpec {
    pub id: Seq<char>,
    pub ledger_sequence: u32,
    pub ledger_closed_at: Seq<char>,
    pub contract_id: Option<Seq<char>>,
    pub event_type: Seq<char>,
    pub topics: Seq<Seq<char>>,
    pub data: Seq<char>,
    pub tx_hash: Seq<char>,
}

/// A single event row returned from queries; `id` is the external id.
#[derive(Debug)]
pub struct EventRow {
    pub id: String,
    pub ledger_sequence: u32,
    pub ledger_closed_at: String,
    pub contract_id: Option<String>,
    pub event_type: String,
    pub topics: Vec<String>,
    pub data: String,
    pub tx_hash: String,
}

impl View for EventRow {
    type V = RowSpec;

    open spec fn view(&self) -> RowSpec {
        RowSpec {
            id: self.id@,
            ledger_sequence: self.ledger_sequence,
            ledger_closed_at: self.ledger_closed_at@,
            contract_id: opt_view(self.contract_id),
            event_type: self.event_type@,
            topics: strings_view(self.topics@),
            data: self.data@,
            tx_hash: self.tx_hash@,
        }
    }
}

/// The row shown for a stored event.
pub open spec fn row_of(e: StoredEvent) -> RowSpec {
    RowSpec {
        id: e.external_id@,
        ledger_sequence: e.ledger_sequence,
        ledger_closed_at: e.ledger_closed_at@,
        contract_id: opt_view(e.contract_id),
        event_type: event_type_name(e.event_type),
        topics: strings_view(e.topics@),
        data: e.data@,
        tx_hash: e.tx_hash@,
    }
}

/// The view of a list of rows.
pub open spec fn rows_view(v: Seq<EventRow>) -> Seq<RowSpec> {
    v.map_values(|r: EventRow| r@)
}

/// The rows of a list of events.
pub open spec fn rows_of(es: Seq<StoredEvent>) -> Seq<RowSpec> {
    es.map_values(|e: StoredEvent| row_of(e))
}

/// A copy of a list of strings.
pub fn clone_strings(v: &Vec<String>) -> (r: Vec<String>)
    ensures
        strings_view(r@) == strings_view(v@),
{
    let mut r: Vec<String> = Vec::new();
    let mut i: usize = 0;
    while i < v.len()
        invariant
            i <= v@.len(),
            strings_view(r@) == strings_view(v@).take(i as int),
        decreases v.len() - i,
    {
        let t = v[i].clone();
        let ghost before = r@;
        r.push(t);
        assert(strings_view(r@) =~= strings_view(before).push(v@[i as int]@));
        i = i + 1;
        assert(strings_view(r@) =~= strings_view(v@).take(i as int));
    }
    assert(strings_view(v@).take(i as int) =~= strings_view(v@));
    r
}

fn clone_opt_string(s: &Option<String>) -> (r: Option<String>)
    ensures
        opt_view(r) == opt_view(*s),
{
    match s {
        Some(t) => Some(t.clone()),
        None => None,
    }
}

impl StoredEvent {
    /// The row shown for this event.
    pub fn to_event_row(&self) -> (r: EventRow)
        ensures
            r@ == row_of(*self),
    {
        EventRow {
            id: self.external_id.clone(),
            ledger_sequence: self.ledger_sequence,
            ledger_closed_at: self.ledger_closed_at.clone(),
            contract_id: clone_opt_string(&self.contract_id),
            event_type: self.event_type.to_string(),
            topics: clone_strings(&self.topics),
            data: self.data.clone(),
            tx_hash: self.tx_hash.clone(),
        }
    }
}

/// Whether an event at this position is past a cursor: strictly after it when
/// `after`, otherwise not before it.
pub open spec fn past_cursor(id: Seq<char>, c: Seq<char>, after: bool) -> bool {
    if after {
        id_lt(c, id)
    } else {
        !id_lt(id, c)
    }
}

/// The first position from `k` whose event is past the cursor.
pub open spec fn cursor_point(es: Seq<StoredEvent>, c: Seq<char>, after: bool, k: int) -> int
    decreases es.len() - k,
{
    if k < 0 || k >= es.len() || past_cursor(es[k].id@, c, after) {
        k
    } else {
        cursor_point(es, c, after, k + 1)
    }
}

proof fn lemma_past_cursor_monotone(es: Seq<StoredEvent>, c: Seq<char>, after: bool, i: int, j: int)
    requires
        sorted_by_id(es),
        0 <= i < j < es.len(),
        past_cursor(es[i].id@, c, after),
    ensures
        past_cursor(es[j].id@, c, after),
{
    lemma_id_order(c, es[i].id@, es[j].id@);
    lemma_id_order(es[i].id@, es[j].id@, c);
}

proof fn lemma_cursor_point(es: Seq<StoredEvent>, c: Seq<char>, after: bool, k: int, p: int)
    requires
        0 <= k <= p <= es.len(),
        forall|i: int| 0 <= i < p ==> !past_cursor(#[trigger] es[i].id@, c, after),
        forall|i: int| p <= i < es.len() ==> past_cursor(#[trigger] es[i].id@, c, after),
    ensures
        cursor_point(es, c, after, k) == p,
    decreases p - k,
{
    if k < p {
        lemma_cursor_point(es, c, after, k + 1, p);
    }
}

/// Binary search for the first event past the cursor.
pub fn find_cursor(es: &Vec<StoredEvent>, c: &str, after: bool) -> (r: usize)
    requires
        sorted_by_id(es@),
    ensures
        r as int == cursor_point(es@, c@, after, 0),
        r <= es@.len(),
        forall|i: int| 0 <= i < r ==> !past_cursor(#[trigger] es@[i].id@, c@, after),
        forall|i: int| r <= i < es@.len() ==> past_cursor(#[trigger] es@[i].id@, c@, after),
{
    let mut lo: usize = 0;
    let mut hi: usize = es.len();
    while lo < hi
        invariant
            0 <= lo <= hi <= es@.len(),
            sorted_by_id(es@),
            forall|i: int| 0 <= i < lo ==> !past_cursor(#[trigger] es@[i].id@, c@, after),
            forall|i: int| hi <= i < es@.len() ==> past_cursor(#[trigger] es@[i].id@, c@, after),
        decreases hi - lo,
    {
        let mid = lo + (hi - lo) / 2;
        let o = compare_ids(es[mid].id.as_str(), c);
        let past = if after { o == 1 } else { o != -1 };
        if past {
            proof {
                assert forall|i: int| mid <= i < es@.len() implies past_cursor(#[trigger] es@[i].id@, c@, after) by {
                    if i > mid {
                        lemma_past_cursor_monotone(es@, c@, after, mid as int, i);
                    }
                }
            }
            hi = mid;
        } else {
            proof {
                assert forall|i: int| 0 <= i < mid + 1 implies !past_cursor(#[trigger] es@[i].id@, c@, after) by {
                    if i < mid && past_cursor(es@[i].id@, c@, after) {
                        lemma_past_cursor_monotone(es@, c@, after, i, mid as int);
                    }
                }
            }
            lo = mid + 1;
        }
    }
    proof {
        lemma_cursor_point(es@, c@, after, 0, lo as int);
    }
    lo
}

/// A forward scan from `k` with room for `left` results: the selected events in
/// scan order, and the last event examined.
pub open spec fn scan_forward(es: Seq<StoredEvent>, k: int, left: nat, tx: Option<Seq<char>>, fs: Seq<FilterSpec>) -> (Seq<StoredEvent>, Option<StoredEvent>)
    decreases es.len() - k,
{
    if k < 0 || k >= es.len() || left == 0 {
        (Seq::empty(), None)
    } else {
        let m = event_selected(es[k], tx, fs);
        let (rest, last) = scan_forward(es, k + 1, if m { (left - 1) as nat } else { left }, tx, fs);
        (if m { seq![es[k]] + rest } else { rest }, if last is Some { last } else { Some(es[k]) })
    }
}

/// A backward scan over `es[..k]` with room for `left` results: the selected
/// events in scan order (descending), and the last event examined.
pub open spec fn scan_backward(es: Seq<StoredEvent>, k: int, left: nat, tx: Option<Seq<char>>, fs: Seq<FilterSpec>) -> (Seq<StoredEvent>, Option<StoredEvent>)
    decreases k,
{
    if k <= 0 || k > es.len() || left == 0 {
        (Seq::empty(), None)
    } else {
        let m = event_selected(es[k - 1], tx, fs);
        let (rest, last) = scan_backward(es, k - 1, if m { (left - 1) as nat } else { left }, tx, fs);
        (if m { seq![es[k - 1]] + rest } else { rest }, if last is Some { last } else { Some(es[k - 1]) })
    }
}

/// Scan partitions in order, each from its own start, sharing room for `left` results.
pub open spec fn scan_partitions(lists: Seq<Seq<StoredEvent>>, starts: Seq<int>, i: int, left: nat, forward: bool, tx: Option<Seq<char>>, fs: Seq<FilterSpec>) -> (Seq<StoredEvent>, Option<StoredEvent>)
    decreases lists.len() - i,
{
    if i < 0 || i >= lists.len() || left == 0 {
        (Seq::empty(), None)
    } else {
        let (sel, last) = if forward {
            scan_forward(lists[i], starts[i], left, tx, fs)
        } else {
            scan_backward(lists[i], starts[i], left, tx, fs)
        };
        let room = if sel.len() <= left { (left - sel.len()) as nat } else { 0 };
        let (sel2, last2) = scan_partitions(lists, starts, i + 1, room, forward, tx, fs);
        (sel + sel2, if last2 is Some { last2 } else { last })
    }
}

/// Result of an event query: rows newest first, and the cursor for the next page.
#[derive(Debug)]
pub struct EventQueryResult {
    pub data: Vec<EventRow>,
    /// External id of the last event examined: pass it as `before` to continue
    /// backward, or as `after` to poll forward.
    pub next: Option<String>,
}

/// The external id of an optional event.
pub open spec fn next_of(last: Option<StoredEvent>) -> Option<Seq<char>> {
    match last {
        Some(e) => Some(e.external_id@),
        None => None,
    }
}

proof fn lemma_scan_forward_len(es: Seq<StoredEvent>, k: int, left: nat, tx: Option<Seq<char>>, fs: Seq<FilterSpec>)
    ensures
        scan_forward(es, k, left, tx, fs).0.len() <= left,
    decreases es.len() - k,
{
    if !(k < 0 || k >= es.len() || left == 0) {
        let m = event_selected(es[k], tx, fs);
        lemma_scan_forward_len(es, k + 1, if m { (left - 1) as nat } else { left }, tx, fs);
    }
}

/// Forward scan of one partition from `start`, adding rows to `acc`.
fn scan_forward_exec(es: &Vec<StoredEvent>, start: usize, params: &EventQueryParams, acc: &mut Vec<EventRow>, limit: usize) -> (last: Option<usize>)
    requires
        start <= es@.len(),
        old(acc)@.len() <= limit,
    ensures
        ({
            let (sel, l) = scan_forward(es@, start as int, (limit - old(acc)@.len()) as nat, opt_view(params.tx), filters_view(params.filters@));
            &&& rows_view(final(acc)@) == rows_view(old(acc)@) + rows_of(sel)
            &&& match l {
                Some(e) => last matches Some(x) && x < es@.len() && es@[x as int] == e,
                None => last is None,
            }
        }),
        final(acc)@.len() <= limit,
{
    let ghost tx = opt_view(params.tx);
    let ghost fs = filters_view(params.filters@);
    let ghost acc0 = rows_view(acc@);
    let ghost left0 = (limit - acc@.len()) as nat;
    let mut last: Option<usize> = None;
    let mut k = start;
    while k < es.len() && acc.len() < limit
        invariant
            start <= k <= es@.len(),
            acc@.len() <= limit,
            tx == opt_view(params.tx),
            fs == filters_view(params.filters@),
            ({
                let (sel0, l0) = scan_forward(es@, start as int, left0, tx, fs);
                let (sel, l) = scan_forward(es@, k as int, (limit - acc@.len()) as nat, tx, fs);
                &&& rows_of(sel0) == rows_view(acc@).skip(acc0.len() as int) + rows_of(sel)
                &&& rows_view(acc@).take(acc0.len() as int) == acc0
                &&& acc0.len() <= acc@.len()
                &&& l0 == (if l is Some { l } else { match last { Some(x) => Some(es@[x as int]), None => None } })
                &&& (last matches Some(x) ==> x < k)
                &&& (k == start ==> last is None)
            }),
        decreases es.len() - k,
    {
        let ghost left = (limit - acc@.len()) as nat;
        let ghost before = acc@;
        let m = event_matches(&es[k], params);
        if m {
            let row = es[k].to_event_row();
            acc.push(row);
            proof {
                assert(rows_view(acc@) =~= rows_view(before).push(row_of(es@[k as int])));
            }
        }
        last = Some(k);
        k = k + 1;
        proof {
            let (sel, l) = scan_forward(es@, k as int, (limit - acc@.len()) as nat, tx, fs);
            assert(rows_view(acc@).take(acc0.len() as int) =~= acc0);
            if m {
                assert(rows_of(seq![es@[k - 1]] + sel) =~= seq![row_of(es@[k - 1])] + rows_of(sel));
                assert(rows_view(acc@).skip(acc0.len() as int) =~= rows_view(before).skip(acc0.len() as int).push(row_of(es@[k - 1])));
                assert(rows_view(before).skip(acc0.len() as int) + rows_of(seq![es@[k - 1]] + sel) =~= rows_view(acc@).skip(acc0.len() as int) + rows_of(sel));
            }
        }
    }
    proof {
        assert(rows_of(Seq::<StoredEvent>::empty()) =~= Seq::<RowSpec>::empty());
        assert(rows_view(acc@) =~= acc0 + rows_view(acc@).skip(acc0.len() as int));
        lemma_scan_forward_len(es@, start as int, left0, tx, fs);
    }
    last
}


proof fn lemma_scan_backward_len(es: Seq<StoredEvent>, k: int, left: nat, tx: Option<Seq<char>>, fs: Seq<FilterSpec>)
    ensures
        scan_backward(es, k, left, tx, fs).0.len() <= left,
    decreases k,
{
    if !(k <= 0 || k > es.len() || left == 0) {
        let m = event_selected(es[k - 1], tx, fs);
        lemma_scan_backward_len(es, k - 1, if m { (left - 1) as nat } else { left }, tx, fs);
    }
}

/// Backward scan of one partition over `es[..end]`, adding rows to `acc`.
fn scan_backward_exec(es: &Vec<StoredEvent>, end: usize, params: &EventQueryParams, acc: &mut Vec<EventRow>, limit: usize) -> (last: Option<usize>)
    requires
        end <= es@.len(),
        old(acc)@.len() <= limit,
    ensures
        ({
            let (sel, l) = scan_backward(es@, end as int, (limit - old(acc)@.len()) as nat, opt_view(params.tx), filters_view(params.filters@));
            &&& rows_view(final(acc)@) == rows_view(old(acc)@) + rows_of(sel)
            &&& match l {
                Some(e) => last matches Some(x) && x < es@.len() && es@[x as int] == e,
                None => last is None,
            }
        }),
        final(acc)@.len() <= limit,
{
    let ghost tx = opt_view(params.tx);
    let ghost fs = filters_view(params.filters@);
    let ghost acc0 = rows_view(acc@);
    let ghost left0 = (limit - acc@.len()) as nat;
    let mut last: Option<usize> = None;
    let mut k = end;
    while k > 0 && acc.len() < limit
        invariant
            0 <= k <= end <= es@.len(),
            acc@.len() <= limit,
            tx == opt_view(params.tx),
            fs == filters_view(params.filters@),
            ({
                let (sel0, l0) = scan_backward(es@, end as int, left0, tx, fs);
                let (sel, l) = scan_backward(es@, k as int, (limit - acc@.len()) as nat, tx, fs);
                &&& rows_of(sel0) == rows_view(acc@).skip(acc0.len() as int) + rows_of(sel)
                &&& rows_view(acc@).take(acc0.len() as int) == acc0
                &&& acc0.len() <= acc@.len()
                &&& l0 == (if l is Some { l } else { match last { Some(x) => Some(es@[x as int]), None => None } })
                &&& (last matches Some(x) ==> x < end)
                &&& (k == end ==> last is None)
            }),
        decreases k,
    {
        let ghost before = acc@;
        let m = event_matches(&es[k - 1], params);
        if m {
            let row = es[k - 1].to_event_row();
            acc.push(row);
            proof {
                assert(rows_view(acc@) =~= rows_view(before).push(row_of(es@[k - 1])));
            }
        }
        last = Some(k - 1);
        k = k - 1;
        proof {
            let (sel, l) = scan_backward(es@, k as int, (limit - acc@.len()) as nat, tx, fs);
            assert(rows_view(acc@).take(acc0.len() as int) =~= acc0);
            if m {
                assert(rows_of(seq![es@[k as int]] + sel) =~= seq![row_of(es@[k as int])] + rows_of(sel));
                assert(rows_view(acc@).skip(acc0.len() as int) =~= rows_view(before).skip(acc0.len() as int).push(row_of(es@[k as int])));
                assert(rows_view(before).skip(acc0.len() as int) + rows_of(seq![es@[k as int]] + sel) =~= rows_view(acc@).skip(acc0.len() as int) + rows_of(sel));
            }
        }
    }
    proof {
        assert(rows_of(Seq::<StoredEvent>::empty()) =~= Seq::<RowSpec>::empty());
        assert(rows_view(acc@) =~= acc0 + rows_view(acc@).skip(acc0.len() as int));
        lemma_scan_backward_len(es@, end as int, left0, tx, fs);
    }
    last
}


#[verifier::external_type_specification]
#[verifier::external_body]
#[verifier::reject_recursive_types(K)]
#[verifier::reject_recursive_types(V)]
#[verifier::reject_recursive_types(S)]
pub struct ExDashMap<K, V, S>(DashMap<K, V, S>);

/// The partitions a `DashMap` of partitions holds, by ledger sequence.
pub uninterp spec fn partition_map(m: DashMap<u32, Arc<LedgerPartition>>) -> Map<u32, LedgerPartition>;

/// The entries a `DashMap` of strings holds.
pub uninterp spec fn string_entries(m: DashMap<String, String>) -> Map<Seq<char>, Seq<char>>;

/// Relies on `DashMap::new`: a new map holds nothing.
#[verifier::external_body]
fn new_partition_map() -> (r: DashMap<u32, Arc<LedgerPartition>>)
    ensures
        partition_map(r).dom().is_empty(),
        partition_map(r).dom().finite(),
{
    DashMap::new()
}

/// Relies on `DashMap::get`: the partition stored under `k`, if any (shared, not copied).
#[verifier::external_body]
fn partition_get(m: &DashMap<u32, Arc<LedgerPartition>>, k: u32) -> (r: Option<Arc<LedgerPartition>>)
    ensures
        match r {
            Some(p) => partition_map(*m).dom().contains(k) && *p == partition_map(*m)[k],
            None => !partition_map(*m).dom().contains(k),
        },
{
    match m.get(&k) {
        Some(p) => Some(Arc::clone(p.value())),
        None => None,
    }
}

/// Relies on `DashMap::insert`: afterwards `k` maps to `v`, other keys unchanged.
#[verifier::external_body]
fn partition_insert(m: &mut DashMap<u32, Arc<LedgerPartition>>, k: u32, v: Arc<LedgerPartition>)
    ensures
        partition_map(*final(m)) == partition_map(*old(m)).insert(k, *v),
{
    m.insert(k, v);
}

/// Relies on `DashMap::remove`: afterwards `k` is absent, other keys unchanged.
#[verifier::external_body]
fn partition_remove(m: &mut DashMap<u32, Arc<LedgerPartition>>, k: u32)
    ensures
        partition_map(*final(m)) == partition_map(*old(m)).remove(k),
{
    m.remove(&k);
}

/// Relies on `DashMap::len`: the number of entries.
#[verifier::external_body]
fn partition_count(m: &DashMap<u32, Arc<LedgerPartition>>) -> (r: usize)
    ensures
        r == partition_map(*m).dom().len(),
{
    m.len()
}

/// Relies on `DashMap::iter`: every key once, in no particular order.
#[verifier::external_body]
fn partition_keys(m: &DashMap<u32, Arc<LedgerPartition>>) -> (r: Vec<u32>)
    ensures
        r@.no_duplicates(),
        forall|k: u32| r@.contains(k) <==> partition_map(*m).dom().contains(k),
{
    m.iter().map(|kv| *kv.key()).collect()
}

/// Relies on `DashMap::new`: a new map holds nothing.
#[verifier::external_body]
fn new_string_map() -> (r: DashMap<String, String>)
    ensures
        string_entries(r).dom().is_empty(),
{
    DashMap::new()
}

/// Relies on `DashMap::get`: the value stored under `key`, if any.
#[verifier::external_body]
fn string_get(m: &DashMap<String, String>, key: &str) -> (r: Option<String>)
    ensures
        match r {
            Some(v) => string_entries(*m).dom().contains(key@) && v@ == string_entries(*m)[key@],
            None => !string_entries(*m).dom().contains(key@),
        },
{
    match m.get(key) {
        Some(v) => Some(v.value().clone()),
        None => None,
    }
}

/// Relies on `DashMap::insert`: afterwards `key` maps to `value`.
#[verifier::external_body]
fn string_insert(m: &mut DashMap<String, String>, key: &str, value: &str)
    ensures
        string_entries(*final(m)) == string_entries(*old(m)).insert(key@, value@),
{
    m.insert(key.to_string(), value.to_string());
}

/// Relies on `chrono::Utc::now`: the current Unix time in seconds.
#[verifier::external_body]
pub(crate) fn now_seconds() -> i64 {
    chrono::Utc::now().timestamp()
}

/// The RFC 3339 text chrono gives for a Unix time (empty when out of range).
pub uninterp spec fn rfc3339_text(secs: i64) -> Seq<char>;

/// Relies on `chrono::DateTime::from_timestamp` and `to_rfc3339`.
#[verifier::external_body]
fn rfc3339(secs: i64) -> (r: String)
    ensures
        r@ == rfc3339_text(secs),
{
    match chrono::DateTime::from_timestamp(secs, 0) {
        Some(dt) => dt.to_rfc3339(),
        None => String::new(),
    }
}

/// `a + b`, clamped to the `i64` range.
pub open spec fn clamp_add(a: i64, b: i64) -> i64 {
    let s = a + b;
    if s > i64::MAX {
        i64::MAX
    } else if s < i64::MIN {
        i64::MIN
    } else {
        s as i64
    }
}

fn saturating_add_i64(a: i64, b: i64) -> (r: i64)
    ensures
        r == clamp_add(a, b),
{
    if b > 0 && a > i64::MAX - b {
        i64::MAX
    } else if b < 0 && a < i64::MIN - b {
        i64::MIN
    } else {
        a + b
    }
}

/// The largest element of a set of ledger numbers, or 0 when it is empty.
pub open spec fn max_or_zero(s: Set<u32>, m: u32) -> bool {
    &&& (s.is_empty() ==> m == 0)
    &&& (!s.is_empty() ==> s.contains(m))
    &&& forall|k: u32| s.contains(k) ==> k <= m
}


/// The internal id of an extracted event.
pub open spec fn id_of(ev: ExtractedEvent) -> Seq<char> {
    internal_id(ev.ledger_sequence, ev.phase.phase_sub().0, ev.tx_index, ev.phase.phase_sub().1, ev.event_index)
}

/// Whether `se` is the stored form of `ev`.
#[verifier::opaque]
pub open spec fn stored_from(se: StoredEvent, ev: ExtractedEvent) -> bool {
    &&& se.id@ == id_of(ev)
    &&& se.external_id@ == external_id(ev.ledger_sequence, ev.phase.phase_sub().0, ev.tx_index, ev.phase.phase_sub().1, ev.event_index)
    &&& se.ledger_sequence == ev.ledger_sequence
    &&& se.ledger_closed_at@ == rfc3339_text(ev.ledger_closed_at)
    &&& opt_view(se.contract_id) == opt_view(ev.contract_id)
    &&& se.event_type == ev.event_type
    &&& strings_view(se.topics@) == strings_view(ev.topics_xdr_json@)
    &&& se.data@ == ev.data_xdr_json@
    &&& se.tx_hash@ == ev.tx_hash@
}

fn store_event(ev: &ExtractedEvent) -> (r: StoredEvent)
    ensures
        stored_from(r, *ev),
        r.ledger_sequence == ev.ledger_sequence,
        r.id@ == id_of(*ev),
        ids_agree(r),
{
    let (phase, sub) = ev.phase.as_phase_sub();
    reveal(stored_from);
    let r = StoredEvent {
        id: event_id(ev.ledger_sequence, ev.phase, ev.tx_index, ev.event_index),
        external_id: encode_event_id(ev.ledger_sequence, phase, ev.tx_index, sub, ev.event_index),
        ledger_sequence: ev.ledger_sequence,
        ledger_closed_at: rfc3339(ev.ledger_closed_at),
        contract_id: clone_opt_string(&ev.contract_id),
        event_type: ev.event_type,
        topics: clone_strings(&ev.topics_xdr_json),
        data: ev.data_xdr_json.clone(),
        tx_hash: ev.tx_hash.clone(),
    };
    assert(r.id@ == internal_id(r.ledger_sequence, ev.phase.phase_sub().0, ev.tx_index, ev.phase.phase_sub().1, ev.event_index));
    assert(ids_agree(r)) by {
        reveal(ids_agree);
    }
    r
}

/// Whether some event of `es` has id `id`.
pub open spec fn has_id(es: Seq<StoredEvent>, id: Seq<char>) -> bool {
    exists|i: int| 0 <= i < es.len() && (#[trigger] es[i]).id@ == id
}

/// Insert `e` at its place in id order, unless an event with its id is there already.
fn insert_sorted(es: &mut Vec<StoredEvent>, e: StoredEvent)
    requires
        sorted_by_id(old(es)@),
    ensures
        sorted_by_id(final(es)@),
        has_id(final(es)@, e.id@),
        forall|x: StoredEvent| final(es)@.contains(x) ==> old(es)@.contains(x) || x == e,
        forall|x: StoredEvent| old(es)@.contains(x) ==> final(es)@.contains(x),
{
    let ghost old_es = es@;
    let mut i = es.len();
    let mut stop = false;
    while i > 0 && !stop
        invariant
            i <= es@.len(),
            es@ == old_es,
            sorted_by_id(es@),
            forall|j: int| i <= j < es@.len() ==> id_lt(e.id@, #[trigger] es@[j].id@),
            stop ==> i > 0 && id_lt(es@[i - 1].id@, e.id@),
        decreases i, if stop { 0int } else { 1int },
    {
        let c = compare_ids(es[i - 1].id.as_str(), e.id.as_str());
        if c == 0 {
            assert(es@[i - 1].id@ == e.id@);
            return;
        }
        if c == -1 {
            stop = true;
        } else {
            i = i - 1;
        }
    }
    proof {
        assert forall|j: int| 0 <= j < i implies id_lt(#[trigger] es@[j].id@, e.id@) by {
            if j < i - 1 {
                lemma_id_order(es@[j].id@, es@[i - 1].id@, e.id@);
            }
        }
    }
    es.insert(i, e);
    proof {
        let n = es@;
        assert(n[i as int] == e);
        assert forall|a: int, b: int| 0 <= a < b < n.len() implies id_lt(#[trigger] n[a].id@, #[trigger] n[b].id@) by {
            if a < i && b > i {
                lemma_id_order(n[a].id@, e.id@, n[b].id@);
                assert(n[a] == old_es[a]);
                assert(n[b] == old_es[b - 1]);
            } else if a < i && b < i {
                assert(n[a] == old_es[a]);
                assert(n[b] == old_es[b]);
            } else if a > i {
                assert(n[a] == old_es[a - 1]);
                assert(n[b] == old_es[b - 1]);
            } else if a == i {
                assert(n[b] == old_es[b - 1]);
            } else {
                assert(n[a] == old_es[a]);
            }
        }
        assert forall|x: StoredEvent| n.contains(x) implies old_es.contains(x) || x == e by {
            let k = choose|k: int| 0 <= k < n.len() && n[k] == x;
            if k < i {
                assert(old_es[k] == x);
            } else if k > i {
                assert(old_es[k - 1] == x);
            }
        }
        assert forall|x: StoredEvent| old_es.contains(x) implies n.contains(x) by {
            let k = choose|k: int| 0 <= k < old_es.len() && old_es[k] == x;
            if k < i {
                assert(n[k] == x);
            } else {
                assert(n[k + 1] == x);
            }
        }
    }
}

/// Whether `se` is the stored form of one of `events` in ledger `seq`.
pub open spec fn from_ledger_input(se: StoredEvent, seq: u32, events: Seq<ExtractedEvent>) -> bool {
    exists|j: int| 0 <= j < events.len() && (#[trigger] events[j]).ledger_sequence == seq && stored_from(se, events[j])
}

/// A partition of ledger `seq` built from `events`: each of its events is the
/// stored form of one of theirs in that ledger, and each of theirs in that ledger has its id there.
pub open spec fn partition_holds(es: Seq<StoredEvent>, seq: u32, events: Seq<ExtractedEvent>) -> bool {
    &&& forall|i: int| 0 <= i < es.len() ==> from_ledger_input(#[trigger] es[i], seq, events)
    &&& forall|j: int| 0 <= j < events.len() && (#[trigger] events[j]).ledger_sequence == seq ==> has_id(es, id_of(events[j]))
}

#[verifier::rlimit(40)]
fn build_partition(events: &Vec<ExtractedEvent>, seq: u32) -> (r: Vec<StoredEvent>)
    ensures
        sorted_by_id(r@),
        forall|i: int| 0 <= i < r@.len() ==> (#[trigger] r@[i]).ledger_sequence == seq,
        forall|i: int| 0 <= i < r@.len() ==> id_in_ledger((#[trigger] r@[i]).id@, seq),
        forall|i: int| 0 <= i < r@.len() ==> ids_agree(#[trigger] r@[i]),
        partition_holds(r@, seq, events@),
{
    let mut r: Vec<StoredEvent> = Vec::new();
    let mut j: usize = 0;
    while j < events.len()
        invariant
            j <= events@.len(),
            sorted_by_id(r@),
            forall|i: int| 0 <= i < r@.len() ==> (#[trigger] r@[i]).ledger_sequence == seq,
            forall|i: int| 0 <= i < r@.len() ==> id_in_ledger((#[trigger] r@[i]).id@, seq),
            forall|i: int| 0 <= i < r@.len() ==> ids_agree(#[trigger] r@[i]),
            forall|i: int| 0 <= i < r@.len() ==> from_ledger_input(#[trigger] r@[i], seq, events@),
            forall|k: int| 0 <= k < j && (#[trigger] events@[k]).ledger_sequence == seq ==> has_id(r@, id_of(events@[k])),
        decreases events.len() - j,
    {
        if events[j].ledger_sequence == seq {
            let e = store_event(&events[j]);
            let ghost before = r@;
            let ghost ev = e;
            insert_sorted(&mut r, e);
            proof {
                assert(id_in_ledger(ev.id@, seq)) by {
                    let x = events@[j as int];
                    assert(ev.id@ == internal_id(seq, x.phase.phase_sub().0, x.tx_index, x.phase.phase_sub().1, x.event_index));
                }
                assert forall|i: int| 0 <= i < r@.len() implies (#[trigger] r@[i]).ledger_sequence == seq && id_in_ledger(r@[i].id@, seq) && ids_agree(r@[i]) && from_ledger_input(r@[i], seq, events@) by {
                    assert(r@.contains(r@[i]));
                    if r@[i] != ev {
                        assert(before.contains(r@[i]));
                        let b = choose|b: int| 0 <= b < before.len() && before[b] == r@[i];
                        assert(before[b].ledger_sequence == seq);
                        assert(id_in_ledger(before[b].id@, seq));
                        assert(ids_agree(before[b]));
                        assert(from_ledger_input(before[b], seq, events@));
                    } else {
                        assert(events@[j as int].ledger_sequence == seq && stored_from(r@[i], events@[j as int]));
                    }
                }
                assert forall|k: int| 0 <= k < j + 1 && (#[trigger] events@[k]).ledger_sequence == seq implies has_id(r@, id_of(events@[k])) by {
                    if k < j {
                        let a = choose|a: int| 0 <= a < before.len() && (#[trigger] before[a]).id@ == id_of(events@[k]);
                        assert(before.contains(before[a]));
                        assert(r@.contains(before[a]));
                    }
                }
            }
        }
        j = j + 1;
    }
    r
}

/// Every partition is well formed under its key, and `latest` is the largest key (0 if none).
pub open spec fn store_wf(parts: Map<u32, LedgerPartition>, latest: u32) -> bool {
    &&& parts.dom().finite()
    &&& forall|k: u32| #[trigger] parts.dom().contains(k) ==> partition_wf(parts[k], k)
    &&& max_or_zero(parts.dom(), latest)
}

proof fn lemma_partition_wf_intro(p: LedgerPartition, seq: u32)
    requires
        sorted_by_id(p.events@),
        forall|i: int| 0 <= i < p.events@.len() ==> (#[trigger] p.events@[i]).ledger_sequence == seq,
        forall|i: int| 0 <= i < p.events@.len() ==> id_in_ledger((#[trigger] p.events@[i]).id@, seq),
        forall|i: int| 0 <= i < p.events@.len() ==> ids_agree(#[trigger] p.events@[i]),
    ensures
        partition_wf(p, seq),
{
    reveal(partition_wf);
}

proof fn lemma_store_insert(parts: Map<u32, LedgerPartition>, latest: u32, seq: u32, p: LedgerPartition)
    requires
        store_wf(parts, latest),
        partition_wf(p, seq),
    ensures
        store_wf(parts.insert(seq, p), if seq > latest { seq } else { latest }),
{
    let n = parts.insert(seq, p);
    let m = if seq > latest { seq } else { latest };
    assert forall|k: u32| #[trigger] n.dom().contains(k) implies k <= m by {
        if k != seq {
            assert(parts.dom().contains(k));
        }
    }
    if !parts.dom().is_empty() {
        assert(parts.dom().contains(latest));
    }
    assert(n.dom().contains(seq));
}

proof fn lemma_names_ledger_step(events: Seq<ExtractedEvent>, j: int, k: u32)
    requires
        0 <= j < events.len(),
    ensures
        EventStore::names_ledger(events, j + 1, k) <==> (EventStore::names_ledger(events, j, k) || events[j].ledger_sequence == k),
{
    if EventStore::names_ledger(events, j + 1, k) {
        let w = choose|w: int| 0 <= w < j + 1 && (#[trigger] events[w]).ledger_sequence == k;
        if w < j {
            assert(EventStore::names_ledger(events, j, k));
        }
    }
    if events[j].ledger_sequence == k {
        assert(EventStore::names_ledger(events, j + 1, k));
    }
    if EventStore::names_ledger(events, j, k) {
        let w = choose|w: int| 0 <= w < j && (#[trigger] events[w]).ledger_sequence == k;
        assert(EventStore::names_ledger(events, j + 1, k));
    }
}


/// What a query returns, as the specification sees it: rows and the next cursor.
pub type Outcome = (Seq<RowSpec>, Option<Seq<char>>);

/// The view of a query result.
pub open spec fn outcome_of(r: EventQueryResult) -> Outcome {
    (rows_view(r.data@), opt_view(r.next))
}

/// A query of one partition: forward past `after` (rows then reversed), else
/// backward from `before` (or the end).
pub open spec fn single_outcome(parts: Map<u32, LedgerPartition>, seq: u32, after: Option<Seq<char>>, before: Option<Seq<char>>, limit: nat, tx: Option<Seq<char>>, fs: Seq<FilterSpec>) -> Outcome {
    if !parts.dom().contains(seq) {
        (Seq::empty(), None)
    } else {
        let es = parts[seq].events@;
        match after {
            Some(a) => {
                let (sel, last) = scan_forward(es, cursor_point(es, a, true, 0), limit, tx, fs);
                (rows_of(sel).reverse(), next_of(last))
            },
            None => {
                let end = match before {
                    Some(b) => cursor_point(es, b, false, 0),
                    None => es.len() as int,
                };
                let (sel, last) = scan_backward(es, end, limit, tx, fs);
                (rows_of(sel), next_of(last))
            },
        }
    }
}

/// The event lists of the partitions `ks`, in that order.
pub open spec fn lists_of(parts: Map<u32, LedgerPartition>, ks: Seq<u32>) -> Seq<Seq<StoredEvent>> {
    ks.map_values(|k: u32| parts[k].events@)
}

/// Where the scan of each partition of `ks` starts: at the cursor in the cursor's
/// own ledger, else at the first event (forward) or after the last (backward).
pub open spec fn starts_of(parts: Map<u32, LedgerPartition>, ks: Seq<u32>, cursor: Seq<char>, cl: Option<u32>, forward: bool) -> Seq<int> {
    ks.map_values(|k: u32| if cl == Some(k) {
        cursor_point(parts[k].events@, cursor, forward, 0)
    } else if forward {
        0
    } else {
        parts[k].events@.len() as int
    })
}

/// A query across the partitions `ks`, sharing one limit.
pub open spec fn cross_outcome(parts: Map<u32, LedgerPartition>, ks: Seq<u32>, cursor: Seq<char>, cl: Option<u32>, forward: bool, limit: nat, tx: Option<Seq<char>>, fs: Seq<FilterSpec>) -> Outcome {
    let (sel, last) = scan_partitions(lists_of(parts, ks), starts_of(parts, ks, cursor, cl, forward), 0, limit, forward, tx, fs);
    (if forward { rows_of(sel).reverse() } else { rows_of(sel) }, next_of(last))
}

/// Whether each cursor a query gives parses as an internal id (as `prepare_query` ensures).
pub open spec fn cursors_parse(params: &EventQueryParams) -> bool {
    &&& (params.after is Some ==> parse_internal(params.after->Some_0@) is Some)
    &&& (params.before is Some ==> parse_internal(params.before->Some_0@) is Some)
}

/// The canonical form of an optional cursor.
pub open spec fn opt_canonical(c: Option<String>) -> Option<Seq<char>> {
    match c {
        Some(s) => Some(canonical_cursor(s@)),
        None => None,
    }
}

/// The ledger of an internal id, if it parses.
pub open spec fn cursor_ledger(c: Seq<char>) -> Option<u32> {
    match parse_internal(c) {
        Some(t) => Some(t.0),
        None => None,
    }
}

/// The ledgers a cross-partition scan visits, in order: forward, the held ledgers
/// from the cursor's on, increasing; backward, those up to it, decreasing.
pub open spec fn scan_order(ks: Seq<u32>, dom: Set<u32>, cl: Option<u32>, forward: bool) -> bool {
    &&& forall|i: int, j: int| 0 <= i < j < ks.len() ==> if forward { ks[i] < ks[j] } else { ks[i] > ks[j] }
    &&& forall|k: u32| ks.contains(k) <==> (dom.contains(k) && match cl {
        Some(c) => if forward { k >= c } else { k <= c },
        None => true,
    })
}

/// Whether `k` is among the first `n` keys.
pub open spec fn seen(keys: Seq<u32>, n: int, k: u32) -> bool {
    exists|w: int| 0 <= w < n && #[trigger] keys[w] == k
}


fn reverse_rows(v: Vec<EventRow>) -> (r: Vec<EventRow>)
    ensures
        rows_view(r@) == rows_view(v@).reverse(),
        r@.len() == v@.len(),
{
    let mut v = v;
    let ghost orig = rows_view(v@);
    let mut r: Vec<EventRow> = Vec::new();
    while v.len() > 0
        invariant
            orig.len() == v@.len() + r@.len(),
            rows_view(v@) == orig.take(v@.len() as int),
            rows_view(r@) == orig.reverse().take(r@.len() as int),
        decreases v.len(),
    {
        let ghost n = v@.len();
        let ghost before = r@;
        let ghost vv = v@;
        let x = v.pop().unwrap();
        assert(rows_view(vv)[n - 1] == vv[n - 1]@);
        assert(x@ == orig[n - 1]);
        r.push(x);
        assert(rows_view(v@) =~= orig.take(v@.len() as int));
        assert(rows_view(r@) =~= orig.reverse().take(r@.len() as int));
    }
    assert(orig.reverse().take(r@.len() as int) =~= orig.reverse());
    r
}

fn ascending_insert(v: &mut Vec<u32>, k: u32)
    requires
        forall|i: int, j: int| 0 <= i < j < old(v)@.len() ==> old(v)@[i] < old(v)@[j],
        !old(v)@.contains(k),
    ensures
        forall|i: int, j: int| 0 <= i < j < final(v)@.len() ==> final(v)@[i] < final(v)@[j],
        forall|x: u32| final(v)@.contains(x) <==> (old(v)@.contains(x) || x == k),
{
    let ghost o = v@;
    let mut i = v.len();
    while i > 0 && v[i - 1] > k
        invariant
            i <= v@.len(),
            v@ == o,
            forall|j: int| i <= j < v@.len() ==> v@[j] > k,
        decreases i,
    {
        i = i - 1;
    }
    proof {
        if i > 0 {
            assert(v@[i - 1] != k);
        }
    }
    v.insert(i, k);
    proof {
        let n = v@;
        assert forall|a: int, b: int| 0 <= a < b < n.len() implies n[a] < n[b] by {
            if a < i && b > i {
                assert(n[b] == o[b - 1]);
                if a < i - 1 {
                    assert(o[a] < o[i - 1]);
                }
            } else if a > i {
                assert(n[a] == o[a - 1] && n[b] == o[b - 1]);
            } else if a == i {
                assert(n[b] == o[b - 1]);
            } else if b == i {
                if a < i - 1 {
                    assert(o[a] < o[i - 1]);
                }
            }
        }
        assert forall|x: u32| n.contains(x) <==> (o.contains(x) || x == k) by {
            if n.contains(x) {
                let w = choose|w: int| 0 <= w < n.len() && n[w] == x;
                if w < i {
                    assert(o[w] == x);
                } else if w > i {
                    assert(o[w - 1] == x);
                }
            }
            if o.contains(x) {
                let w = choose|w: int| 0 <= w < o.len() && o[w] == x;
                if w < i {
                    assert(n[w] == x);
                } else {
                    assert(n[w + 1] == x);
                }
            }
            if x == k {
                assert(n[i as int] == k);
            }
        }
    }
}

/// Whether ledger `k` counts as held at time `now`: present and not expired.
pub open spec fn held_at(parts: Map<u32, LedgerPartition>, k: u32, now: i64) -> bool {
    parts.dom().contains(k) && parts[k].expires_at > now
}

/// Whether `r` lists exactly the ledgers of `[start, start + count)` not held at time `now`.
pub open spec fn uncached_exactly(r: Seq<u32>, parts: Map<u32, LedgerPartition>, start: u32, count: u32, now: i64) -> bool {
    forall|k: u32| r.contains(k) <==> (start <= k < start + count && !held_at(parts, k, now))
}

/// Whether `after` keeps exactly the partitions of `before` that are held at time `now`, unchanged.
pub open spec fn kept_exactly(before: Map<u32, LedgerPartition>, after: Map<u32, LedgerPartition>, now: i64) -> bool {
    &&& forall|k: u32| #[trigger] after.dom().contains(k) <==> held_at(before, k, now)
    &&& forall|k: u32| #[trigger] after.dom().contains(k) ==> after[k] == before[k]
}

/// Whether every partition of `after` absent from `before` expires `ttl` seconds after `now`.
pub open spec fn new_partitions_expire(before: Map<u32, LedgerPartition>, after: Map<u32, LedgerPartition>, now: i64, ttl: i64) -> bool {
    forall|k: u32| #[trigger] after.dom().contains(k) && !before.dom().contains(k) ==> after[k].expires_at == clamp_add(now, ttl)
}

/// In-memory event store, partitioned by ledger sequence.
pub struct EventStore {
    ledgers: DashMap<u32, Arc<LedgerPartition>>,
    latest_ledger: u32,
    sync_state: DashMap<String, String>,
    cache_ttl_seconds: i64,
}

impl EventStore {
    /// The partitions held, by ledger sequence.
    pub closed spec fn partitions(&self) -> Map<u32, LedgerPartition> {
        partition_map(self.ledgers)
    }

    /// The latest ledger tracker.
    pub closed spec fn latest(&self) -> u32 {
        self.latest_ledger
    }

    /// The time to live of new partitions, in seconds.
    pub closed spec fn ttl(&self) -> i64 {
        self.cache_ttl_seconds
    }

    /// The sync-state entries.
    pub closed spec fn sync_entries(&self) -> Map<Seq<char>, Seq<char>> {
        string_entries(self.sync_state)
    }

    /// Every partition is well formed under its key, and the tracker is the largest key (0 if none).
    pub open spec fn wf(&self) -> bool {
        store_wf(self.partitions(), self.latest())
    }

    /// An empty store whose partitions live `cache_ttl_seconds`.
    pub fn new(cache_ttl_seconds: i64) -> (r: EventStore)
        ensures
            r.wf(),
            r.partitions() == Map::<u32, LedgerPartition>::empty(),
            r.latest() == 0,
            r.ttl() == cache_ttl_seconds,
            r.sync_entries() == Map::<Seq<char>, Seq<char>>::empty(),
    {
        let r = EventStore {
            ledgers: new_partition_map(),
            latest_ledger: 0,
            sync_state: new_string_map(),
            cache_ttl_seconds,
        };
        assert(r.partitions() =~= Map::<u32, LedgerPartition>::empty());
        assert(r.sync_entries() =~= Map::<Seq<char>, Seq<char>>::empty());
        r
    }

    /// The highest ledger held, `None` when the tracker is 0.
    pub fn latest_ledger_sequence(&self) -> (r: Option<u32>)
        ensures
            r == (if self.latest() == 0 { None } else { Some(self.latest()) }),
    {
        if self.latest_ledger == 0 {
            None
        } else {
            Some(self.latest_ledger)
        }
    }

    /// The number of ledgers held.
    pub fn cached_ledger_count(&self) -> (r: usize)
        ensures
            r == self.partitions().dom().len(),
    {
        partition_count(&self.ledgers)
    }

    /// The sync-state value stored under `key`.
    pub fn get_sync_state(&self, key: &str) -> (r: Option<String>)
        ensures
            match r {
                Some(v) => self.sync_entries().dom().contains(key@) && v@ == self.sync_entries()[key@],
                None => !self.sync_entries().dom().contains(key@),
            },
    {
        string_get(&self.sync_state, key)
    }

    /// Store a sync-state value under `key`.
    pub fn set_sync_state(&mut self, key: &str, value: &str)
        ensures
            final(self).sync_entries() == old(self).sync_entries().insert(key@, value@),
            final(self).partitions() == old(self).partitions(),
            final(self).latest() == old(self).latest(),
            final(self).ttl() == old(self).ttl(),
    {
        string_insert(&mut self.sync_state, key, value);
    }

    /// Whether ledger `seq` is held and has not expired at time `now`.
    pub fn is_ledger_cached_at(&self, ledger_sequence: u32, now: i64) -> (r: bool)
        ensures
            r == (self.partitions().dom().contains(ledger_sequence) && self.partitions()[ledger_sequence].expires_at > now),
    {
        match partition_get(&self.ledgers, ledger_sequence) {
            Some(p) => p.expires_at > now,
            None => false,
        }
    }

    /// Whether ledger `seq` is held and has not expired now.
    pub fn is_ledger_cached(&self, ledger_sequence: u32) -> (r: bool)
        ensures
            r ==> self.partitions().dom().contains(ledger_sequence),
            exists|now: i64| r == #[trigger] held_at(self.partitions(), ledger_sequence, now),
    {
        let now = now_seconds();
        let r = self.is_ledger_cached_at(ledger_sequence, now);
        assert(r == held_at(self.partitions(), ledger_sequence, now));
        r
    }

    /// The ledgers of `[start, start + count)` (clamped to `u32`) that are absent
    /// or expired at time `now`, in increasing order.
    pub fn find_uncached_ledgers_at(&self, start: u32, count: u32, now: i64) -> (r: Vec<u32>)
        ensures
            forall|i: int, j: int| 0 <= i < j < r@.len() ==> r@[i] < r@[j],
            forall|k: u32| r@.contains(k) <==> (start <= k < start + count && !(self.partitions().dom().contains(k) && self.partitions()[k].expires_at > now)),
    {
        let sum: u64 = start as u64 + count as u64;
        let end: u64 = if sum > 0x1_0000_0000 { 0x1_0000_0000 } else { sum };
        let mut r: Vec<u32> = Vec::new();
        let mut k: u64 = start as u64;
        while k < end
            invariant
                start <= k <= end,
                end <= 0x1_0000_0000,
                end == start + count || (end == 0x1_0000_0000 && start + count > 0x1_0000_0000),
                forall|i: int, j: int| 0 <= i < j < r@.len() ==> r@[i] < r@[j],
                forall|i: int| 0 <= i < r@.len() ==> start <= #[trigger] r@[i] && r@[i] < k,
                forall|x: u32| r@.contains(x) <==> (start <= x < k && !(self.partitions().dom().contains(x) && self.partitions()[x].expires_at > now)),
            decreases end - k,
        {
            let ghost before = r@;
            let kk = k as u32;
            assert(kk == k);
            if !self.is_ledger_cached_at(kk, now) {
                r.push(kk);
                proof {
                    assert(r@ == before.push(kk));
                    assert forall|x: u32| r@.contains(x) <==> (start <= x < k + 1 && !(self.partitions().dom().contains(x) && self.partitions()[x].expires_at > now)) by {
                        if x == kk {
                            assert(r@[r@.len() - 1] == kk);
                        }
                        if r@.contains(x) && x != kk {
                            let i = choose|i: int| 0 <= i < r@.len() && r@[i] == x;
                            assert(before[i] == x);
                        }
                        if before.contains(x) {
                            let i = choose|i: int| 0 <= i < before.len() && before[i] == x;
                            assert(r@[i] == x);
                        }
                    }
                }
            } else {
                proof {
                    assert forall|x: u32| r@.contains(x) <==> (start <= x < k + 1 && !(self.partitions().dom().contains(x) && self.partitions()[x].expires_at > now)) by {
                        if r@.contains(x) {
                            let i = choose|i: int| 0 <= i < r@.len() && r@[i] == x;
                            assert(r@[i] < k);
                        }
                    }
                }
            }
            k = k + 1;
        }
        r
    }

    /// The ledgers of `[start, start + count)` that are absent or expired now.
    pub fn find_uncached_ledgers(&self, start: u32, count: u32) -> (r: Vec<u32>)
        ensures
            forall|i: int, j: int| 0 <= i < j < r@.len() ==> r@[i] < r@[j],
            forall|k: u32| r@.contains(k) ==> start <= k < start + count,
            forall|k: u32| start <= k < start + count && !self.partitions().dom().contains(k) ==> r@.contains(k),
            exists|now: i64| #[trigger] uncached_exactly(r@, self.partitions(), start, count, now),
    {
        let now = now_seconds();
        let r = self.find_uncached_ledgers_at(start, count, now);
        assert(uncached_exactly(r@, self.partitions(), start, count, now));
        r
    }

    /// Whether some of the first `n` events belong to ledger `k`.
    pub open spec fn names_ledger(events: Seq<ExtractedEvent>, n: int, k: u32) -> bool {
        exists|j: int| 0 <= j < n && (#[trigger] events[j]).ledger_sequence == k
    }

    /// Insert events, one partition per ledger, at time `now`. A ledger already
    /// held is left as it is; a new one gets its events sorted by id (one per id)
    /// and expires `ttl` seconds after `now`.
    #[verifier::rlimit(100)]
    pub fn insert_events_at(&mut self, events: Vec<ExtractedEvent>, now: i64)
        requires
            old(self).wf(),
        ensures
            final(self).wf(),
            final(self).ttl() == old(self).ttl(),
            final(self).sync_entries() == old(self).sync_entries(),
            forall|k: u32| #[trigger] final(self).partitions().dom().contains(k) <==> (old(self).partitions().dom().contains(k) || Self::names_ledger(events@, events@.len() as int, k)),
            forall|k: u32| #[trigger] old(self).partitions().dom().contains(k) ==> final(self).partitions()[k] == old(self).partitions()[k],
            forall|k: u32| #[trigger] final(self).partitions().dom().contains(k) && !old(self).partitions().dom().contains(k) ==> {
                &&& final(self).partitions()[k].expires_at == clamp_add(now, old(self).ttl())
                &&& partition_holds(final(self).partitions()[k].events@, k, events@)
            },
    {
        let ghost old_parts = self.partitions();
        let expires = saturating_add_i64(now, self.cache_ttl_seconds);
        let mut j: usize = 0;
        while j < events.len()
            invariant
                j <= events@.len(),
                self.wf(),
                self.ttl() == old(self).ttl(),
                self.sync_entries() == old(self).sync_entries(),
                old_parts == old(self).partitions(),
                expires == clamp_add(now, old(self).ttl()),
                forall|k: u32| #[trigger] self.partitions().dom().contains(k) <==> (old_parts.dom().contains(k) || Self::names_ledger(events@, j as int, k)),
                forall|k: u32| #[trigger] old_parts.dom().contains(k) ==> self.partitions()[k] == old_parts[k],
                forall|k: u32| #[trigger] self.partitions().dom().contains(k) && !old_parts.dom().contains(k) ==> {
                    &&& self.partitions()[k].expires_at == expires
                    &&& partition_holds(self.partitions()[k].events@, k, events@)
                },
            decreases events.len() - j,
        {
            let seq = events[j].ledger_sequence;
            let ghost before = self.partitions();
            let ghost latest_before = self.latest();
            proof {
                assert forall|k: u32| Self::names_ledger(events@, j + 1, k) <==> (Self::names_ledger(events@, j as int, k) || k == seq) by {
                    lemma_names_ledger_step(events@, j as int, k);
                }
            }
            if partition_get(&self.ledgers, seq).is_none() {
                let stored = build_partition(&events, seq);
                let partition = LedgerPartition { events: stored, expires_at: expires };
                partition_insert(&mut self.ledgers, seq, Arc::new(partition));
                if seq > self.latest_ledger {
                    self.latest_ledger = seq;
                }
                proof {
                    lemma_partition_wf_intro(partition, seq);
                    lemma_store_insert(before, latest_before, seq, partition);
                    assert(self.partitions().dom() =~= before.dom().insert(seq));
                }
            }
            j = j + 1;
        }
    }

    /// Insert events now (see `insert_events_at`).
    pub fn insert_events(&mut self, events: Vec<ExtractedEvent>)
        requires
            old(self).wf(),
        ensures
            final(self).wf(),
            final(self).ttl() == old(self).ttl(),
            forall|k: u32| #[trigger] final(self).partitions().dom().contains(k) <==> (old(self).partitions().dom().contains(k) || Self::names_ledger(events@, events@.len() as int, k)),
            forall|k: u32| #[trigger] old(self).partitions().dom().contains(k) ==> final(self).partitions()[k] == old(self).partitions()[k],
            forall|k: u32| #[trigger] final(self).partitions().dom().contains(k) && !old(self).partitions().dom().contains(k) ==> partition_holds(final(self).partitions()[k].events@, k, events@),
            final(self).sync_entries() == old(self).sync_entries(),
            exists|now: i64| #[trigger] new_partitions_expire(old(self).partitions(), final(self).partitions(), now, old(self).ttl()),
    {
        let now = now_seconds();
        self.insert_events_at(events, now);
        assert(new_partitions_expire(old(self).partitions(), self.partitions(), now, old(self).ttl()));
    }

    /// Record ledger `seq` as held at time `now`: an empty partition if it is absent.
    pub fn record_ledger_cached_at(&mut self, ledger_sequence: u32, now: i64)
        requires
            old(self).wf(),
        ensures
            final(self).wf(),
            final(self).ttl() == old(self).ttl(),
            final(self).sync_entries() == old(self).sync_entries(),
            old(self).partitions().dom().contains(ledger_sequence) ==> final(self).partitions() == old(self).partitions(),
            !old(self).partitions().dom().contains(ledger_sequence) ==> {
                &&& final(self).partitions().dom() == old(self).partitions().dom().insert(ledger_sequence)
                &&& final(self).partitions()[ledger_sequence].events@.len() == 0
                &&& final(self).partitions()[ledger_sequence].expires_at == clamp_add(now, old(self).ttl())
                &&& forall|k: u32| #[trigger] old(self).partitions().dom().contains(k) ==> final(self).partitions()[k] == old(self).partitions()[k]
            },
    {
        if partition_get(&self.ledgers, ledger_sequence).is_none() {
            let expires = saturating_add_i64(now, self.cache_ttl_seconds);
            let partition = LedgerPartition { events: Vec::new(), expires_at: expires };
            let ghost before = self.partitions();
            partition_insert(&mut self.ledgers, ledger_sequence, Arc::new(partition));
            if ledger_sequence > self.latest_ledger {
                self.latest_ledger = ledger_sequence;
            }
            proof {
                lemma_partition_wf_intro(partition, ledger_sequence);
                lemma_store_insert(before, old(self).latest(), ledger_sequence, partition);
                assert(self.partitions().dom() =~= before.dom().insert(ledger_sequence));
            }
        }
    }

    /// Record ledger `seq` as held now (see `record_ledger_cached_at`).
    pub fn record_ledger_cached(&mut self, ledger_sequence: u32)
        requires
            old(self).wf(),
        ensures
            final(self).wf(),
            final(self).partitions().dom() == old(self).partitions().dom().insert(ledger_sequence),
            forall|k: u32| #[trigger] old(self).partitions().dom().contains(k) ==> final(self).partitions()[k] == old(self).partitions()[k],
            !old(self).partitions().dom().contains(ledger_sequence) ==> final(self).partitions()[ledger_sequence].events@.len() == 0,
            final(self).ttl() == old(self).ttl(),
            final(self).sync_entries() == old(self).sync_entries(),
            exists|now: i64| #[trigger] new_partitions_expire(old(self).partitions(), final(self).partitions(), now, old(self).ttl()),
    {
        let now = now_seconds();
        self.record_ledger_cached_at(ledger_sequence, now);
        assert(new_partitions_expire(old(self).partitions(), self.partitions(), now, old(self).ttl()));
    }

    /// Remove the partitions whose `expires_at <= now`; the tracker becomes the
    /// largest remaining ledger (0 if none). Returns how many were removed.
    pub fn cleanup_expired_at(&mut self, now: i64) -> (r: u64)
        requires
            old(self).wf(),
        ensures
            final(self).wf(),
            final(self).ttl() == old(self).ttl(),
            final(self).sync_entries() == old(self).sync_entries(),
            forall|k: u32| #[trigger] final(self).partitions().dom().contains(k) <==> (old(self).partitions().dom().contains(k) && old(self).partitions()[k].expires_at > now),
            forall|k: u32| #[trigger] final(self).partitions().dom().contains(k) ==> final(self).partitions()[k] == old(self).partitions()[k],
            r as int == old(self).partitions().dom().len() - final(self).partitions().dom().len(),
    {
        let ghost old_parts = self.partitions();
        let keys = partition_keys(&self.ledgers);
        let mut removed: u64 = 0;
        let mut i: usize = 0;
        while i < keys.len()
            invariant
                i <= keys@.len(),
                keys@.no_duplicates(),
                forall|k: u32| keys@.contains(k) <==> old_parts.dom().contains(k),
                old_parts == old(self).partitions(),
                old_parts.dom().finite(),
                self.ttl() == old(self).ttl(),
                self.sync_entries() == old(self).sync_entries(),
                self.latest() == old(self).latest(),
                self.partitions().dom().subset_of(old_parts.dom()),
                forall|k: u32| #[trigger] self.partitions().dom().contains(k) ==> self.partitions()[k] == old_parts[k],
                forall|k: u32| #[trigger] old_parts.dom().contains(k) ==> (self.partitions().dom().contains(k) <==> (old_parts[k].expires_at > now || !seen(keys@, i as int, k))),
                removed as int == old_parts.dom().len() - self.partitions().dom().len(),
                removed <= i,
            decreases keys.len() - i,
        {
            let k = keys[i];
            let ghost before = self.partitions();
            assert(keys@.contains(k));
            assert(!seen(keys@, i as int, k)) by {
                if seen(keys@, i as int, k) {
                    let w = choose|w: int| 0 <= w < i && keys@[w] == k;
                    assert(keys@[w] == keys@[i as int]);
                }
            }
            assert(before.dom().contains(k));
            let p = partition_get(&self.ledgers, k);
            let expired = match p {
                Some(p) => p.expires_at <= now,
                None => false,
            };
            if expired {
                partition_remove(&mut self.ledgers, k);
                removed = removed + 1;
                proof {
                    assert(self.partitions() == before.remove(k));
                    vstd::set_lib::lemma_set_subset_finite(old_parts.dom(), before.dom());
                    assert(before.dom().remove(k).len() == before.dom().len() - 1);
                }
            }
            i = i + 1;
            proof {
                assert forall|x: u32| #[trigger] old_parts.dom().contains(x) implies (self.partitions().dom().contains(x) <==> (old_parts[x].expires_at > now || !seen(keys@, i as int, x))) by {
                    if x != k {
                        assert(seen(keys@, i as int, x) <==> seen(keys@, i - 1, x)) by {
                            if seen(keys@, i as int, x) {
                                let w = choose|w: int| 0 <= w < i && keys@[w] == x;
                            }
                        }
                    } else {
                        assert(keys@[i - 1] == k);
                    }
                }
            }
        }
        proof {
            assert forall|x: u32| #[trigger] old_parts.dom().contains(x) implies seen(keys@, i as int, x) by {
                assert(keys@.contains(x));
                let w = choose|w: int| 0 <= w < keys@.len() && keys@[w] == x;
            }
        }
        let remaining = partition_keys(&self.ledgers);
        let mut m: u32 = 0;
        let mut t: usize = 0;
        while t < remaining.len()
            invariant
                t <= remaining@.len(),
                forall|k: u32| remaining@.contains(k) <==> self.partitions().dom().contains(k),
                forall|w: int| 0 <= w < t ==> remaining@[w] <= m,
                t == 0 ==> m == 0,
                t > 0 ==> exists|w: int| 0 <= w < t && remaining@[w] == m,
            decreases remaining.len() - t,
        {
            if remaining[t] > m || t == 0 {
                m = remaining[t];
            }
            t = t + 1;
        }
        self.latest_ledger = m;
        proof {
            assert forall|k: u32| #[trigger] self.partitions().dom().contains(k) implies k <= m by {
                assert(remaining@.contains(k));
                let w = choose|w: int| 0 <= w < remaining@.len() && remaining@[w] == k;
            }
            if !self.partitions().dom().is_empty() {
                let k = self.partitions().dom().choose();
                assert(remaining@.contains(k));
                assert(t > 0);
                let w = choose|w: int| 0 <= w < t && remaining@[w] == m;
                assert(remaining@.contains(m));
            } else {
                if t > 0 {
                    assert(remaining@.contains(remaining@[0]));
                }
            }
            vstd::set_lib::lemma_set_subset_finite(old_parts.dom(), self.partitions().dom());
        }
        removed
    }

    /// Remove the partitions expired now (see `cleanup_expired_at`).
    pub fn cleanup_expired(&mut self) -> (r: u64)
        requires
            old(self).wf(),
        ensures
            final(self).wf(),
            final(self).partitions().dom().subset_of(old(self).partitions().dom()),
            forall|k: u32| #[trigger] final(self).partitions().dom().contains(k) ==> final(self).partitions()[k] == old(self).partitions()[k],
            r as int == old(self).partitions().dom().len() - final(self).partitions().dom().len(),
            final(self).ttl() == old(self).ttl(),
            final(self).sync_entries() == old(self).sync_entries(),
            exists|now: i64| #[trigger] kept_exactly(old(self).partitions(), final(self).partitions(), now),
    {
        let now = now_seconds();
        let r = self.cleanup_expired_at(now);
        assert(kept_exactly(old(self).partitions(), self.partitions(), now));
        r
    }

    /// Look up an event of ledger `ledger_seq` by internal id.
    pub fn get_event(&self, ledger_seq: u32, internal_id: &str) -> (r: Option<EventRow>)
        requires
            self.wf(),
        ensures
            match r {
                Some(row) => self.partitions().dom().contains(ledger_seq) && exists|i: int| 0 <= i < self.partitions()[ledger_seq].events@.len() && (#[trigger] self.partitions()[ledger_seq].events@[i]).id@ == internal_id@ && row@ == row_of(self.partitions()[ledger_seq].events@[i]),
                None => !self.partitions().dom().contains(ledger_seq) || !has_id(self.partitions()[ledger_seq].events@, internal_id@),
            },
    {
        proof {
            reveal(partition_wf);
        }
        let p = match partition_get(&self.ledgers, ledger_seq) {
            Some(p) => p,
            None => return None,
        };
        let es = &p.events;
        assert(partition_wf(self.partitions()[ledger_seq], ledger_seq));
        let pos = find_cursor(es, internal_id, false);
        if pos < es.len() && compare_ids(es[pos].id.as_str(), internal_id) == 0 {
            Some(es[pos].to_event_row())
        } else {
            proof {
                if has_id(es@, internal_id@) {
                    let w = choose|w: int| 0 <= w < es@.len() && (#[trigger] es@[w]).id@ == internal_id@;
                    lemma_id_order(internal_id@, internal_id@, internal_id@);
                    if w < pos {
                        assert(!past_cursor(es@[w].id@, internal_id@, false));
                    } else if w > pos {
                        assert(past_cursor(es@[pos as int].id@, internal_id@, false));
                        lemma_id_order(internal_id@, es@[pos as int].id@, es@[w].id@);
                        lemma_id_order(es@[pos as int].id@, internal_id@, internal_id@);
                        assert(id_lt(es@[pos as int].id@, es@[w].id@));
                    }
                }
            }
            None
        }
    }

    /// Query one partition. With `after`, scan forward from just past it and
    /// return the rows newest first; otherwise scan backward from `before` (or the end).
    fn query_single_ledger(&self, ledger_seq: u32, params: &EventQueryParams) -> (r: EventQueryResult)
        requires
            self.wf(),
        ensures
            outcome_of(r) == single_outcome(self.partitions(), ledger_seq, opt_canonical(params.after), opt_canonical(params.before), params.limit as nat, opt_view(params.tx), filters_view(params.filters@)),
            r.data@.len() <= params.limit,
    {
        proof {
            reveal(partition_wf);
        }
        let after = match &params.after {
            Some(a) => Some(canonicalize_cursor(a.as_str())),
            None => None,
        };
        let before = match &params.before {
            Some(b) => Some(canonicalize_cursor(b.as_str())),
            None => None,
        };
        let p = match partition_get(&self.ledgers, ledger_seq) {
            Some(p) => p,
            None => return EventQueryResult { data: Vec::new(), next: None },
        };
        let es = &p.events;
        assert(partition_wf(self.partitions()[ledger_seq], ledger_seq));
        let limit = params.limit as usize;
        let mut results: Vec<EventRow> = Vec::new();
        assert(rows_view(results@) =~= Seq::<RowSpec>::empty());
        if let Some(after) = &after {
            let start = find_cursor(es, after.as_str(), true);
            let last = scan_forward_exec(es, start, params, &mut results, limit);
            let next = match last {
                Some(x) => Some(es[x].external_id.clone()),
                None => None,
            };
            let data = reverse_rows(results);
            EventQueryResult { data, next }
        } else {
            let end = match &before {
                Some(before) => find_cursor(es, before.as_str(), false),
                None => es.len(),
            };
            let last = scan_backward_exec(es, end, params, &mut results, limit);
            let next = match last {
                Some(x) => Some(es[x].external_id.clone()),
                None => None,
            };
            EventQueryResult { data: results, next }
        }
    }

    /// The held ledgers in scan order (see `scan_order`).
    fn ordered_ledgers(&self, cl: Option<u32>, forward: bool) -> (ks: Vec<u32>)
        ensures
            scan_order(ks@, self.partitions().dom(), cl, forward),
    {
        let keys = partition_keys(&self.ledgers);
        let mut asc: Vec<u32> = Vec::new();
        let mut i: usize = 0;
        while i < keys.len()
            invariant
                i <= keys@.len(),
                keys@.no_duplicates(),
                forall|a: int, b: int| 0 <= a < b < asc@.len() ==> asc@[a] < asc@[b],
                forall|x: u32| asc@.contains(x) <==> (seen(keys@, i as int, x) && match cl {
                    Some(c) => if forward { x >= c } else { x <= c },
                    None => true,
                }),
            decreases keys.len() - i,
        {
            let k = keys[i];
            let keep = match cl {
                Some(c) => if forward { k >= c } else { k <= c },
                None => true,
            };
            proof {
                assert forall|x: u32| seen(keys@, i + 1, x) <==> (seen(keys@, i as int, x) || x == k) by {
                    if seen(keys@, i + 1, x) {
                        let w = choose|w: int| 0 <= w < i + 1 && keys@[w] == x;
                        if w < i {
                            assert(seen(keys@, i as int, x));
                        }
                    }
                    if x == k {
                        assert(keys@[i as int] == k);
                    }
                }
                if seen(keys@, i as int, k) {
                    let w = choose|w: int| 0 <= w < i && keys@[w] == k;
                    assert(keys@[w] == keys@[i as int]);
                }
            }
            if keep {
                ascending_insert(&mut asc, k);
            }
            i = i + 1;
        }
        proof {
            assert forall|x: u32| seen(keys@, i as int, x) <==> self.partitions().dom().contains(x) by {
                if self.partitions().dom().contains(x) {
                    assert(keys@.contains(x));
                    let w = choose|w: int| 0 <= w < keys@.len() && keys@[w] == x;
                }
                if seen(keys@, i as int, x) {
                    let w = choose|w: int| 0 <= w < i && keys@[w] == x;
                    assert(keys@.contains(x));
                }
            }
        }
        if forward {
            asc
        } else {
            let mut desc: Vec<u32> = Vec::new();
            let mut j = asc.len();
            while j > 0
                invariant
                    j <= asc@.len(),
                    forall|a: int, b: int| 0 <= a < b < asc@.len() ==> asc@[a] < asc@[b],
                    desc@.len() == asc@.len() - j,
                    forall|a: int| 0 <= a < desc@.len() ==> #[trigger] desc@[a] == asc@[asc@.len() - 1 - a],
                decreases j,
            {
                desc.push(asc[j - 1]);
                j = j - 1;
            }
            proof {
                assert forall|x: u32| desc@.contains(x) <==> asc@.contains(x) by {
                    if desc@.contains(x) {
                        let w = choose|w: int| 0 <= w < desc@.len() && desc@[w] == x;
                        assert(asc@[asc@.len() - 1 - w] == x);
                    }
                    if asc@.contains(x) {
                        let w = choose|w: int| 0 <= w < asc@.len() && asc@[w] == x;
                        assert(desc@[asc@.len() - 1 - w] == x);
                    }
                }
            }
            desc
        }
    }

    /// Scan the partitions `ks` in order, sharing the limit, from the cursor's
    /// position in the cursor's own ledger.
    #[verifier::rlimit(100)]
    fn scan_ledgers(&self, ks: &Vec<u32>, cursor: &str, cl: Option<u32>, forward: bool, params: &EventQueryParams) -> (r: EventQueryResult)
        requires
            self.wf(),
            forall|i: int| 0 <= i < ks@.len() ==> self.partitions().dom().contains(#[trigger] ks@[i]),
        ensures
            outcome_of(r) == cross_outcome(self.partitions(), ks@, cursor@, cl, forward, params.limit as nat, opt_view(params.tx), filters_view(params.filters@)),
            r.data@.len() <= params.limit,
    {
        proof {
            reveal(partition_wf);
        }
        let ghost parts = self.partitions();
        let ghost lists = lists_of(parts, ks@);
        let ghost starts = starts_of(parts, ks@, cursor@, cl, forward);
        let ghost tx = opt_view(params.tx);
        let ghost fs = filters_view(params.filters@);
        let limit = params.limit as usize;
        let mut results: Vec<EventRow> = Vec::new();
        let mut next: Option<String> = None;
        let mut i: usize = 0;
        assert(rows_view(results@) =~= Seq::<RowSpec>::empty());
        while i < ks.len() && results.len() < limit
            invariant
                i <= ks@.len(),
                self.wf(),
                parts == self.partitions(),
                lists == lists_of(parts, ks@),
                starts == starts_of(parts, ks@, cursor@, cl, forward),
                tx == opt_view(params.tx),
                fs == filters_view(params.filters@),
                limit == params.limit as usize,
                forall|j: int| 0 <= j < ks@.len() ==> parts.dom().contains(#[trigger] ks@[j]),
                results@.len() <= limit,
                ({
                    let (sel0, l0) = scan_partitions(lists, starts, 0, limit as nat, forward, tx, fs);
                    let (sel, l) = scan_partitions(lists, starts, i as int, (limit - results@.len()) as nat, forward, tx, fs);
                    &&& rows_of(sel0) == rows_view(results@) + rows_of(sel)
                    &&& next_of(l0) == (if l is Some { next_of(l) } else { opt_view(next) })
                }),
            decreases ks.len() - i,
        {
            let k = ks[i];
            proof {
                reveal(partition_wf);
            }
            assert(parts.dom().contains(k));
            let p = match partition_get(&self.ledgers, k) {
                Some(p) => p,
                None => {
                    assert(false);
                    return EventQueryResult { data: Vec::new(), next: None };
                },
            };
            let es = &p.events;
            assert(partition_wf(parts[k], k));
            assert(lists[i as int] == es@);
            let ghost left = (limit - results@.len()) as nat;
            let ghost before = rows_view(results@);
            let last = if forward {
                let start = if cl == Some(k) { find_cursor(es, cursor, true) } else { 0 };
                assert(starts[i as int] == start as int);
                proof {
                    lemma_scan_forward_len(es@, start as int, left, tx, fs);
                }
                scan_forward_exec(es, start, params, &mut results, limit)
            } else {
                let end = if cl == Some(k) { find_cursor(es, cursor, false) } else { es.len() };
                assert(starts[i as int] == end as int);
                proof {
                    lemma_scan_backward_len(es@, end as int, left, tx, fs);
                }
                scan_backward_exec(es, end, params, &mut results, limit)
            };
            let ghost here = if forward {
                scan_forward(lists[i as int], starts[i as int], left, tx, fs)
            } else {
                scan_backward(lists[i as int], starts[i as int], left, tx, fs)
            };
            proof {
                assert(rows_of(here.0 + scan_partitions(lists, starts, i + 1, (limit - results@.len()) as nat, forward, tx, fs).0)
                    =~= rows_of(here.0) + rows_of(scan_partitions(lists, starts, i + 1, (limit - results@.len()) as nat, forward, tx, fs).0));
            }
            match last {
                Some(x) => {
                    next = Some(es[x].external_id.clone());
                },
                None => {},
            }
            i = i + 1;
        }
        proof {
            let room = (limit - results@.len()) as nat;
            if i < ks@.len() {
                assert(room == 0);
            }
            assert(rows_of(Seq::<StoredEvent>::empty()) =~= Seq::<RowSpec>::empty());
            assert(rows_view(results@) + Seq::<RowSpec>::empty() =~= rows_view(results@));
        }
        if forward {
            let data = reverse_rows(results);
            EventQueryResult { data, next }
        } else {
            EventQueryResult { data: results, next }
        }
    }

    /// Query across partitions from a cursor: forward from `after` toward newer
    /// ledgers, else backward from `before` toward older ones.
    fn query_cross_ledger(&self, cursor: &str, forward: bool, params: &EventQueryParams) -> (r: EventQueryResult)
        requires
            self.wf(),
        ensures
            exists|ks: Seq<u32>| scan_order(ks, self.partitions().dom(), cursor_ledger(canonical_cursor(cursor@)), forward) && outcome_of(r) == cross_outcome(self.partitions(), ks, canonical_cursor(cursor@), cursor_ledger(canonical_cursor(cursor@)), forward, params.limit as nat, opt_view(params.tx), filters_view(params.filters@)),
            r.data@.len() <= params.limit,
    {
        let canonical = canonicalize_cursor(cursor);
        let cursor = canonical.as_str();
        let cl = match parse_event_id(cursor) {
            Some(t) => Some(t.0),
            None => None,
        };
        let ks = self.ordered_ledgers(cl, forward);
        proof {
            assert forall|i: int| 0 <= i < ks@.len() implies self.partitions().dom().contains(#[trigger] ks@[i]) by {
                assert(ks@.contains(ks@[i]));
            }
        }
        self.scan_ledgers(&ks, cursor, cl, forward, params)
    }

    /// Query events with cursor pagination and filters; rows are newest first.
    /// A query pinned to a ledger scans that partition alone; otherwise `after`
    /// scans forward across ledgers from the cursor, `before` backward from it,
    /// and with neither the scan runs backward from the latest ledger.
    pub fn query_events(&self, params: &EventQueryParams) -> (r: EventQueryResult)
        requires
            self.wf(),
        ensures
            match params.ledger {
                Some(seq) => outcome_of(r) == single_outcome(self.partitions(), seq, opt_canonical(params.after), opt_canonical(params.before), params.limit as nat, opt_view(params.tx), filters_view(params.filters@)),
                None => match (params.after, params.before) {
                    (Some(a), _) => exists|ks: Seq<u32>| scan_order(ks, self.partitions().dom(), cursor_ledger(canonical_cursor(a@)), true) && outcome_of(r) == cross_outcome(self.partitions(), ks, canonical_cursor(a@), cursor_ledger(canonical_cursor(a@)), true, params.limit as nat, opt_view(params.tx), filters_view(params.filters@)),
                    (None, Some(b)) => exists|ks: Seq<u32>| scan_order(ks, self.partitions().dom(), cursor_ledger(canonical_cursor(b@)), false) && outcome_of(r) == cross_outcome(self.partitions(), ks, canonical_cursor(b@), cursor_ledger(canonical_cursor(b@)), false, params.limit as nat, opt_view(params.tx), filters_view(params.filters@)),
                    (None, None) => exists|ks: Seq<u32>| scan_order(ks, self.partitions().dom(), None, false) && outcome_of(r) == cross_outcome(self.partitions(), ks, Seq::empty(), None, false, params.limit as nat, opt_view(params.tx), filters_view(params.filters@)),
                },
            },
            r.data@.len() <= params.limit,
            cursors_parse(params) ==> rows_newest_first(rows_view(r.data@)),
            cursors_parse(params) && params.after is Some ==> rows_above(rows_view(r.data@), canonical_cursor(params.after->Some_0@)),
            cursors_parse(params) && params.after is None && params.before is Some ==> rows_below(rows_view(r.data@), canonical_cursor(params.before->Some_0@)),
            cursors_parse(params) && params.after is Some ==> next_above(opt_view(r.next), canonical_cursor(params.after->Some_0@)),
            cursors_parse(params) && params.after is None && params.before is Some ==> next_below(opt_view(r.next), canonical_cursor(params.before->Some_0@)),
    {
        let ghost tx = opt_view(params.tx);
        let ghost fs = filters_view(params.filters@);
        let ghost left = params.limit as nat;
        if let Some(seq) = params.ledger {
            let r = self.query_single_ledger(seq, params);
            proof {
                lemma_single_rows(self, seq, opt_canonical(params.after), opt_canonical(params.before), left, tx, fs);
                lemma_single_next(self, seq, opt_canonical(params.after), opt_canonical(params.before), left, tx, fs);
            }
            return r;
        }
        if let Some(after) = &params.after {
            let r = self.query_cross_ledger(after.as_str(), true, params);
            proof {
                if cursors_parse(params) {
                    let t = parse_internal(after@).unwrap();
                    crate::ledger::event_id::lemma_internal_id_round_trip(t.0, t.1, t.2, t.3, t.4);
                    let c = canonical_cursor(after@);
                    let ks = choose|ks: Seq<u32>| scan_order(ks, self.partitions().dom(), cursor_ledger(c), true) && outcome_of(r) == cross_outcome(self.partitions(), ks, c, cursor_ledger(c), true, left, tx, fs);
                    lemma_cross_rows_after(self, ks, t.0, t.1, t.2, t.3, t.4, left, tx, fs);
                    lemma_cross_next(self, ks, t.0, t.1, t.2, t.3, t.4, true, left, tx, fs);
                }
            }
            return r;
        }
        if let Some(before) = &params.before {
            let r = self.query_cross_ledger(before.as_str(), false, params);
            proof {
                if cursors_parse(params) {
                    let t = parse_internal(before@).unwrap();
                    crate::ledger::event_id::lemma_internal_id_round_trip(t.0, t.1, t.2, t.3, t.4);
                    let c = canonical_cursor(before@);
                    let ks = choose|ks: Seq<u32>| scan_order(ks, self.partitions().dom(), cursor_ledger(c), false) && outcome_of(r) == cross_outcome(self.partitions(), ks, c, cursor_ledger(c), false, left, tx, fs);
                    lemma_cross_rows_before(self, ks, t.0, t.1, t.2, t.3, t.4, left, tx, fs);
                    lemma_cross_next(self, ks, t.0, t.1, t.2, t.3, t.4, false, left, tx, fs);
                }
            }
            return r;
        }
        proof {
            reveal_strlit("");
            assert(""@ =~= Seq::<char>::empty());
            assert(cursor_ledger(""@) is None);
            assert(canonical_cursor(""@) == ""@);
        }
        let r = self.query_cross_ledger("", false, params);
        proof {
            let ks = choose|ks: Seq<u32>| scan_order(ks, self.partitions().dom(), None, false) && outcome_of(r) == cross_outcome(self.partitions(), ks, Seq::empty(), None, false, left, tx, fs);
            lemma_cross_rows_latest(self, ks, left, tx, fs);
        }
        r
    }

    /// Nothing to do: there is no query planner.
    pub fn analyze(&self) {
    }
}


/// Within a partition of a well-formed store, ids strictly increase.
pub proof fn lemma_partition_ids_increase(store: &EventStore, k: u32, i: int, j: int)
    requires
        store.wf(),
        store.partitions().dom().contains(k),
        0 <= i < j < store.partitions()[k].events@.len(),
    ensures
        id_lt(store.partitions()[k].events@[i].id@, store.partitions()[k].events@[j].id@),
{
    reveal(partition_wf);
    assert(partition_wf(store.partitions()[k], k));
}

/// Every event a forward scan selects lies at or after its start position, and
/// the selection is in increasing id order.
proof fn lemma_scan_forward_from(es: Seq<StoredEvent>, k: int, left: nat, tx: Option<Seq<char>>, fs: Seq<FilterSpec>)
    requires
        0 <= k,
        sorted_by_id(es),
    ensures
        forall|x: StoredEvent| #[trigger] scan_forward(es, k, left, tx, fs).0.contains(x) ==> exists|i: int| k <= i < es.len() && es[i] == x,
        sorted_by_id(scan_forward(es, k, left, tx, fs).0),
    decreases es.len() - k,
{
    if !(k < 0 || k >= es.len() || left == 0) {
        let m = event_selected(es[k], tx, fs);
        let l2 = if m { (left - 1) as nat } else { left };
        lemma_scan_forward_from(es, k + 1, l2, tx, fs);
        let rest = scan_forward(es, k + 1, l2, tx, fs).0;
        let sel = scan_forward(es, k, left, tx, fs).0;
        if m {
            assert(sel == seq![es[k]] + rest);
            assert forall|x: StoredEvent| #[trigger] sel.contains(x) implies exists|i: int| k <= i < es.len() && es[i] == x by {
                let w = choose|w: int| 0 <= w < sel.len() && sel[w] == x;
                if w > 0 {
                    assert(rest.contains(rest[w - 1]));
                }
            }
            assert forall|a: int, b: int| 0 <= a < b < sel.len() implies id_lt(#[trigger] sel[a].id@, #[trigger] sel[b].id@) by {
                if a == 0 {
                    assert(rest.contains(rest[b - 1]));
                    let j = choose|j: int| k + 1 <= j < es.len() && es[j] == rest[b - 1];
                } else {
                    assert(sel[a] == rest[a - 1] && sel[b] == rest[b - 1]);
                }
            }
        }
    }
}

/// Every event a backward scan over `es[..k]` selects lies before `k`, and the
/// selection is in decreasing id order.
proof fn lemma_scan_backward_from(es: Seq<StoredEvent>, k: int, left: nat, tx: Option<Seq<char>>, fs: Seq<FilterSpec>)
    requires
        k <= es.len(),
        sorted_by_id(es),
    ensures
        forall|x: StoredEvent| #[trigger] scan_backward(es, k, left, tx, fs).0.contains(x) ==> exists|i: int| 0 <= i < k && es[i] == x,
        forall|a: int, b: int| 0 <= a < b < scan_backward(es, k, left, tx, fs).0.len() ==> id_lt(#[trigger] scan_backward(es, k, left, tx, fs).0[b].id@, #[trigger] scan_backward(es, k, left, tx, fs).0[a].id@),
    decreases k,
{
    if !(k <= 0 || k > es.len() || left == 0) {
        let m = event_selected(es[k - 1], tx, fs);
        let l2 = if m { (left - 1) as nat } else { left };
        lemma_scan_backward_from(es, k - 1, l2, tx, fs);
        let rest = scan_backward(es, k - 1, l2, tx, fs).0;
        let sel = scan_backward(es, k, left, tx, fs).0;
        if m {
            assert(sel == seq![es[k - 1]] + rest);
            assert forall|x: StoredEvent| #[trigger] sel.contains(x) implies exists|i: int| 0 <= i < k && es[i] == x by {
                let w = choose|w: int| 0 <= w < sel.len() && sel[w] == x;
                if w > 0 {
                    assert(rest.contains(rest[w - 1]));
                }
            }
            assert forall|a: int, b: int| 0 <= a < b < sel.len() implies id_lt(#[trigger] sel[b].id@, #[trigger] sel[a].id@) by {
                if a == 0 {
                    assert(rest.contains(rest[b - 1]));
                    let j = choose|j: int| 0 <= j < k - 1 && es[j] == rest[b - 1];
                } else {
                    assert(sel[a] == rest[a - 1] && sel[b] == rest[b - 1]);
                }
            }
        }
    }
}

/// A partition query past `after = c` selects only events whose ids are above `c`,
/// in increasing id order (so the reversed rows are newest first).
pub proof fn lemma_after_cursor(es: Seq<StoredEvent>, c: Seq<char>, left: nat, tx: Option<Seq<char>>, fs: Seq<FilterSpec>)
    requires
        sorted_by_id(es),
    ensures
        ({
            let sel = scan_forward(es, cursor_point(es, c, true, 0), left, tx, fs).0;
            &&& forall|x: StoredEvent| #[trigger] sel.contains(x) ==> id_lt(c, x.id@)
            &&& forall|a: int, b: int| 0 <= a < b < sel.len() ==> id_lt(#[trigger] sel[a].id@, #[trigger] sel[b].id@)
        }),
{
    let p = cursor_point(es, c, true, 0);
    lemma_cursor_point_bounds(es, c, true, 0);
    lemma_scan_forward_from(es, p, left, tx, fs);
    let sel = scan_forward(es, p, left, tx, fs).0;
    assert forall|x: StoredEvent| #[trigger] sel.contains(x) implies id_lt(c, x.id@) by {
        let i = choose|i: int| p <= i < es.len() && es[i] == x;
        lemma_past_from_point(es, c, true, i);
    }
}

/// A partition query before `before = c` selects only events whose ids are below `c`,
/// in decreasing id order.
pub proof fn lemma_before_cursor(es: Seq<StoredEvent>, c: Seq<char>, left: nat, tx: Option<Seq<char>>, fs: Seq<FilterSpec>)
    requires
        sorted_by_id(es),
    ensures
        ({
            let sel = scan_backward(es, cursor_point(es, c, false, 0), left, tx, fs).0;
            &&& forall|x: StoredEvent| #[trigger] sel.contains(x) ==> id_lt(x.id@, c)
            &&& forall|a: int, b: int| 0 <= a < b < sel.len() ==> id_lt(#[trigger] sel[b].id@, #[trigger] sel[a].id@)
        }),
{
    let p = cursor_point(es, c, false, 0);
    lemma_cursor_point_bounds(es, c, false, 0);
    lemma_scan_backward_from(es, p, left, tx, fs);
    let sel = scan_backward(es, p, left, tx, fs).0;
    assert forall|x: StoredEvent| #[trigger] sel.contains(x) implies id_lt(x.id@, c) by {
        let i = choose|i: int| 0 <= i < p && es[i] == x;
        lemma_before_point(es, c, i, 0);
    }
}

/// Without a cursor, a partition query selects events in decreasing id order.
pub proof fn lemma_latest_first(es: Seq<StoredEvent>, left: nat, tx: Option<Seq<char>>, fs: Seq<FilterSpec>)
    requires
        sorted_by_id(es),
    ensures
        ({
            let sel = scan_backward(es, es.len() as int, left, tx, fs).0;
            forall|a: int, b: int| 0 <= a < b < sel.len() ==> id_lt(#[trigger] sel[b].id@, #[trigger] sel[a].id@)
        }),
{
    lemma_scan_backward_from(es, es.len() as int, left, tx, fs);
}

proof fn lemma_cursor_point_bounds(es: Seq<StoredEvent>, c: Seq<char>, after: bool, k: int)
    requires
        0 <= k <= es.len(),
    ensures
        k <= cursor_point(es, c, after, k) <= es.len(),
    decreases es.len() - k,
{
    if k < es.len() && !past_cursor(es[k].id@, c, after) {
        lemma_cursor_point_bounds(es, c, after, k + 1);
    }
}

proof fn lemma_past_from_point(es: Seq<StoredEvent>, c: Seq<char>, after: bool, i: int)
    requires
        sorted_by_id(es),
        cursor_point(es, c, after, 0) <= i < es.len(),
    ensures
        past_cursor(es[i].id@, c, after),
{
    lemma_point_is_past(es, c, after, 0);
    lemma_cursor_point_bounds(es, c, after, 0);
    let p = cursor_point(es, c, after, 0);
    if i > p {
        lemma_past_cursor_monotone(es, c, after, p, i);
    }
}

proof fn lemma_point_is_past(es: Seq<StoredEvent>, c: Seq<char>, after: bool, k: int)
    requires
        0 <= k,
        cursor_point(es, c, after, k) < es.len(),
    ensures
        past_cursor(es[cursor_point(es, c, after, k)].id@, c, after),
    decreases es.len() - k,
{
    if k < es.len() && !past_cursor(es[k].id@, c, after) {
        lemma_point_is_past(es, c, after, k + 1);
    }
}

proof fn lemma_before_point(es: Seq<StoredEvent>, c: Seq<char>, i: int, k: int)
    requires
        0 <= k <= i < cursor_point(es, c, false, k),
        i < es.len(),
    ensures
        id_lt(es[i].id@, c),
    decreases i - k,
{
    if k < i {
        lemma_before_point(es, c, i, k + 1);
    }
}


/// Code-point lexicographic order on character sequences.
pub open spec fn chars_lt(a: Seq<char>, b: Seq<char>) -> bool
    decreases a.len(),
{
    if b.len() == 0 {
        false
    } else if a.len() == 0 {
        true
    } else if a[0] != b[0] {
        (a[0] as u32) < (b[0] as u32)
    } else {
        chars_lt(a.drop_first(), b.drop_first())
    }
}

proof fn lemma_ascii_order(a: Seq<char>, b: Seq<char>)
    requires
        vstd::utf8::is_ascii_chars(a),
        vstd::utf8::is_ascii_chars(b),
    ensures
        id_lt(a, b) == chars_lt(a, b),
{
    vstd::utf8::is_ascii_chars_encode_utf8(a);
    vstd::utf8::is_ascii_chars_encode_utf8(b);
    assert(encode_utf8(a) =~= Seq::new(a.len(), |i: int| a[i] as u8));
    assert(encode_utf8(b) =~= Seq::new(b.len(), |i: int| b[i] as u8));
    lemma_ascii_bytes_order(a, b);
}

proof fn lemma_ascii_bytes_order(a: Seq<char>, b: Seq<char>)
    requires
        vstd::utf8::is_ascii_chars(a),
        vstd::utf8::is_ascii_chars(b),
    ensures
        bytes_lt(Seq::new(a.len(), |i: int| a[i] as u8), Seq::new(b.len(), |i: int| b[i] as u8)) == chars_lt(a, b),
    decreases a.len(),
{
    let x = Seq::new(a.len(), |i: int| a[i] as u8);
    let y = Seq::new(b.len(), |i: int| b[i] as u8);
    if a.len() > 0 && b.len() > 0 {
        assert('\0' <= a[0] <= '\u{7f}');
        assert('\0' <= b[0] <= '\u{7f}');
        if a[0] == b[0] {
            let a2 = a.drop_first();
            let b2 = b.drop_first();
            assert(vstd::utf8::is_ascii_chars(a2)) by {
                assert forall|i| 0 <= i < a2.len() implies '\0' <= #[trigger] a2[i] <= '\u{7f}' by {
                    assert(a2[i] == a[i + 1]);
                }
            }
            assert(vstd::utf8::is_ascii_chars(b2)) by {
                assert forall|i| 0 <= i < b2.len() implies '\0' <= #[trigger] b2[i] <= '\u{7f}' by {
                    assert(b2[i] == b[i + 1]);
                }
            }
            lemma_ascii_bytes_order(a2, b2);
            assert(x.drop_first() =~= Seq::new(a2.len(), |i: int| a2[i] as u8));
            assert(y.drop_first() =~= Seq::new(b2.len(), |i: int| b2[i] as u8));
        } else {
            assert((a[0] as u32) < 128 && (b[0] as u32) < 128);
            assert(x[0] == a[0] as u8 && y[0] == b[0] as u8);
            assert((a[0] as u8) != (b[0] as u8));
        }
    }
}

proof fn lemma_chars_lt_prefix(p: Seq<char>, x: Seq<char>, y: Seq<char>)
    ensures
        chars_lt(p + x, p + y) == chars_lt(x, y),
    decreases p.len(),
{
    if p.len() > 0 {
        assert((p + x).drop_first() =~= p.drop_first() + x);
        assert((p + y).drop_first() =~= p.drop_first() + y);
        lemma_chars_lt_prefix(p.drop_first(), x, y);
    } else {
        assert(p + x =~= x);
        assert(p + y =~= y);
    }
}

/// `10^n`.
pub open spec fn pow10(n: nat) -> nat
    decreases n,
{
    if n == 0 {
        1
    } else {
        10 * pow10((n - 1) as nat)
    }
}

proof fn lemma_digits_front(s: Seq<char>)
    requires
        s.len() > 0,
        all_digits(s),
    ensures
        digits_value(s) == digit_value(s[0]) * pow10((s.len() - 1) as nat) + digits_value(s.drop_first()),
        digits_value(s) < pow10(s.len()),
        digit_value(s[0]) < 10,
    decreases s.len(),
{
    let n = s.len();
    assert(is_digit(s[0]));
    let d = digit_value(s.last());
    assert(is_digit(s.last()));
    assert(d < 10);
    assert(pow10(0) == 1);
    assert(pow10(1) == 10 * pow10(0));
    assert(pow10(n) == 10 * pow10((n - 1) as nat));
    if n == 1 {
        assert(s.last() == s[0]);
        assert(s.drop_last() =~= Seq::<char>::empty());
        assert(s.drop_first() =~= Seq::<char>::empty());
        assert(digits_value(s.drop_first()) == 0);
        assert(digits_value(s.drop_last()) == 0);
    } else {
        let t = s.drop_last();
        assert(all_digits(t)) by {
            assert forall|i: int| 0 <= i < t.len() implies is_digit(#[trigger] t[i]) by {
                assert(t[i] == s[i]);
            }
        }
        lemma_digits_front(t);
        assert(t[0] == s[0]);
        assert(s.drop_first().drop_last() =~= t.drop_first());
        assert(s.drop_first().last() == s.last());
        let p = pow10((n - 2) as nat);
        let d0 = digit_value(s[0]);
        let rest = digits_value(t.drop_first());
        assert(digits_value(s) == digits_value(t) * 10 + d);
        assert(digits_value(s.drop_first()) == rest * 10 + d);
        assert(pow10((n - 1) as nat) == 10 * p);
        assert((d0 * p + rest) * 10 + d == d0 * (10 * p) + (rest * 10 + d)) by (nonlinear_arith);
        assert(digits_value(t) < pow10((n - 1) as nat));
        assert(digits_value(t) * 10 + d < pow10((n - 1) as nat) * 10) by (nonlinear_arith)
            requires
                digits_value(t) < pow10((n - 1) as nat),
                d < 10,
        ;
    }
}

proof fn lemma_digits_order(x: Seq<char>, y: Seq<char>, r1: Seq<char>, r2: Seq<char>)
    requires
        x.len() == y.len(),
        all_digits(x),
        all_digits(y),
        digits_value(x) < digits_value(y),
    ensures
        chars_lt(x + r1, y + r2),
    decreases x.len(),
{
    if x.len() == 0 {
        assert(digits_value(x) == 0 && digits_value(y) == 0);
    } else {
        lemma_digits_front(x);
        lemma_digits_front(y);
        let n = (x.len() - 1) as nat;
        let p = pow10(n);
        let a0 = digit_value(x[0]);
        let b0 = digit_value(y[0]);
        let xr = x.drop_first();
        let yr = y.drop_first();
        assert((x + r1)[0] == x[0] && (y + r2)[0] == y[0]);
        if x[0] == y[0] {
            assert(all_digits(xr)) by {
                assert forall|i: int| 0 <= i < xr.len() implies is_digit(#[trigger] xr[i]) by {
                    assert(xr[i] == x[i + 1]);
                }
            }
            assert(all_digits(yr)) by {
                assert forall|i: int| 0 <= i < yr.len() implies is_digit(#[trigger] yr[i]) by {
                    assert(yr[i] == y[i + 1]);
                }
            }
            lemma_digits_order(xr, yr, r1, r2);
            assert((x + r1).drop_first() =~= xr + r1);
            assert((y + r2).drop_first() =~= yr + r2);
        } else {
            lemma_digits_front(yr + seq!['0']);
            if xr.len() > 0 {
                assert(all_digits(yr)) by {
                    assert forall|i: int| 0 <= i < yr.len() implies is_digit(#[trigger] yr[i]) by {
                        assert(yr[i] == y[i + 1]);
                    }
                }
                lemma_digits_bound(yr);
            } else {
                assert(digits_value(yr) == 0);
            }
            assert(digits_value(yr) < p);
            if a0 > b0 {
                assert(a0 * p >= (b0 + 1) * p) by (nonlinear_arith)
                    requires
                        a0 > b0,
                ;
                assert((b0 + 1) * p == b0 * p + p) by (nonlinear_arith);
                assert(false);
            }
            assert(a0 < b0);
            assert((x[0] as u32) < (y[0] as u32));
        }
    }
}

proof fn lemma_digits_bound(s: Seq<char>)
    requires
        s.len() > 0,
        all_digits(s),
    ensures
        digits_value(s) < pow10(s.len()),
{
    lemma_digits_front(s);
}


proof fn lemma_digits_ascii(s: Seq<char>)
    requires
        all_digits(s),
    ensures
        vstd::utf8::is_ascii_chars(s),
{
    assert forall|i| 0 <= i < s.len() implies '\0' <= #[trigger] s[i] <= '\u{7f}' by {
        assert(is_digit(s[i]));
    }
}

proof fn lemma_ascii_concat(a: Seq<char>, b: Seq<char>)
    requires
        vstd::utf8::is_ascii_chars(a),
        vstd::utf8::is_ascii_chars(b),
    ensures
        vstd::utf8::is_ascii_chars(a + b),
{
    assert forall|i| 0 <= i < (a + b).len() implies '\0' <= #[trigger] (a + b)[i] <= '\u{7f}' by {
        if i < a.len() {
            assert((a + b)[i] == a[i]);
        } else {
            assert((a + b)[i] == b[i - a.len()]);
        }
    }
}

/// The part of an internal id after its ledger number.
pub open spec fn id_tail(phase: u8, tx: u32, sub: u8, event: u32) -> Seq<char> {
    seq!['_'] + dec_padded(phase as nat, 1) + seq!['_'] + dec_padded(tx as nat, 4) + seq!['_']
        + dec_padded(sub as nat, 1) + seq!['_'] + dec_padded(event as nat, 4)
}

proof fn lemma_id_shape(l: u32, p: u8, t: u32, s: u8, e: u32)
    ensures
        internal_id(l, p, t, s, e) == crate::ledger::event_id::id_prefix() + (dec_padded(l as nat, 10) + id_tail(p, t, s, e)),
        vstd::utf8::is_ascii_chars(crate::ledger::event_id::id_prefix()),
        vstd::utf8::is_ascii_chars(dec_padded(l as nat, 10) + id_tail(p, t, s, e)),
        dec_padded(l as nat, 10).len() == 10,
        all_digits(dec_padded(l as nat, 10)),
        digits_value(dec_padded(l as nat, 10)) == l,
{
    assert(internal_id(l, p, t, s, e) =~= crate::ledger::event_id::id_prefix() + (dec_padded(l as nat, 10) + id_tail(p, t, s, e)));
    let u = seq!['_'];
    assert(vstd::utf8::is_ascii_chars(u)) by {
        assert forall|i| 0 <= i < u.len() implies '\0' <= #[trigger] u[i] <= '\u{7f}' by {}
    }
    let pre = crate::ledger::event_id::id_prefix();
    assert(vstd::utf8::is_ascii_chars(pre)) by {
        assert forall|i| 0 <= i < pre.len() implies '\0' <= #[trigger] pre[i] <= '\u{7f}' by {}
    }
    lemma_dec_padded(l as nat, 10);
    lemma_dec_padded(p as nat, 1);
    lemma_dec_padded(t as nat, 4);
    lemma_dec_padded(s as nat, 1);
    lemma_dec_padded(e as nat, 4);
    lemma_dec_len_bound(l as nat);
    lemma_digits_ascii(dec_padded(l as nat, 10));
    lemma_digits_ascii(dec_padded(p as nat, 1));
    lemma_digits_ascii(dec_padded(t as nat, 4));
    lemma_digits_ascii(dec_padded(s as nat, 1));
    lemma_digits_ascii(dec_padded(e as nat, 4));
    let a1 = u + dec_padded(p as nat, 1);
    lemma_ascii_concat(u, dec_padded(p as nat, 1));
    let a2 = a1 + u;
    lemma_ascii_concat(a1, u);
    let a3 = a2 + dec_padded(t as nat, 4);
    lemma_ascii_concat(a2, dec_padded(t as nat, 4));
    let a4 = a3 + u;
    lemma_ascii_concat(a3, u);
    let a5 = a4 + dec_padded(s as nat, 1);
    lemma_ascii_concat(a4, dec_padded(s as nat, 1));
    let a6 = a5 + u;
    lemma_ascii_concat(a5, u);
    lemma_ascii_concat(a6, dec_padded(e as nat, 4));
    assert(id_tail(p, t, s, e) == a6 + dec_padded(e as nat, 4));
    lemma_ascii_concat(dec_padded(l as nat, 10), id_tail(p, t, s, e));
}

/// Internal ids of an earlier ledger sort before those of a later one.
pub proof fn lemma_internal_id_ledger_order(a: u32, pa: u8, ta: u32, sa: u8, ea: u32, b: u32, pb: u8, tb: u32, sb: u8, eb: u32)
    requires
        a < b,
    ensures
        id_lt(internal_id(a, pa, ta, sa, ea), internal_id(b, pb, tb, sb, eb)),
{
    lemma_id_shape(a, pa, ta, sa, ea);
    lemma_id_shape(b, pb, tb, sb, eb);
    let pre = crate::ledger::event_id::id_prefix();
    let x = dec_padded(a as nat, 10) + id_tail(pa, ta, sa, ea);
    let y = dec_padded(b as nat, 10) + id_tail(pb, tb, sb, eb);
    lemma_digits_order(dec_padded(a as nat, 10), dec_padded(b as nat, 10), id_tail(pa, ta, sa, ea), id_tail(pb, tb, sb, eb));
    lemma_chars_lt_prefix(pre, x, y);
    lemma_ascii_concat(pre, x);
    lemma_ascii_concat(pre, y);
    lemma_ascii_order(pre + x, pre + y);
}


proof fn lemma_scan_partitions_forward(lists: Seq<Seq<StoredEvent>>, starts: Seq<int>, i: int, left: nat, tx: Option<Seq<char>>, fs: Seq<FilterSpec>)
    requires
        0 <= i <= lists.len(),
        lists.len() == starts.len(),
        forall|j: int| i <= j < lists.len() ==> sorted_by_id(#[trigger] lists[j]) && 0 <= starts[j] <= lists[j].len(),
        forall|j1: int, j2: int, a: int, b: int| i <= j1 < j2 < lists.len() && 0 <= a < lists[j1].len() && 0 <= b < lists[j2].len() ==> id_lt(#[trigger] lists[j1][a].id@, #[trigger] lists[j2][b].id@),
    ensures
        forall|x: StoredEvent| #[trigger] scan_partitions(lists, starts, i, left, true, tx, fs).0.contains(x) ==> exists|j: int, m: int| i <= j < lists.len() && starts[j] <= m < lists[j].len() && lists[j][m] == x,
        sorted_by_id(scan_partitions(lists, starts, i, left, true, tx, fs).0),
    decreases lists.len() - i,
{
    if !(i < 0 || i >= lists.len() || left == 0) {
        let (sel, last) = scan_forward(lists[i], starts[i], left, tx, fs);
        lemma_scan_forward_from(lists[i], starts[i], left, tx, fs);
        let room = if sel.len() <= left { (left - sel.len()) as nat } else { 0 };
        lemma_scan_partitions_forward(lists, starts, i + 1, room, tx, fs);
        let sel2 = scan_partitions(lists, starts, i + 1, room, true, tx, fs).0;
        let all = scan_partitions(lists, starts, i, left, true, tx, fs).0;
        assert(all == sel + sel2);
        assert forall|x: StoredEvent| #[trigger] all.contains(x) implies exists|j: int, m: int| i <= j < lists.len() && starts[j] <= m < lists[j].len() && lists[j][m] == x by {
            let w = choose|w: int| 0 <= w < all.len() && all[w] == x;
            if w < sel.len() {
                assert(sel.contains(sel[w]));
                let m = choose|m: int| starts[i] <= m < lists[i].len() && lists[i][m] == x;
                assert(lists[i][m] == x);
            } else {
                assert(sel2.contains(sel2[w - sel.len()]));
            }
        }
        assert forall|a: int, b: int| 0 <= a < b < all.len() implies id_lt(#[trigger] all[a].id@, #[trigger] all[b].id@) by {
            if a < sel.len() && b >= sel.len() {
                assert(sel.contains(sel[a]));
                assert(sel2.contains(sel2[b - sel.len()]));
                let ma = choose|m: int| starts[i] <= m < lists[i].len() && lists[i][m] == sel[a];
                let (j, mb) = choose|j: int, m: int| i + 1 <= j < lists.len() && starts[j] <= m < lists[j].len() && lists[j][m] == sel2[b - sel.len()];
                assert(id_lt(lists[i][ma].id@, lists[j][mb].id@));
            } else if a >= sel.len() {
                assert(all[a] == sel2[a - sel.len()] && all[b] == sel2[b - sel.len()]);
            }
        }
    }
}

proof fn lemma_scan_partitions_backward(lists: Seq<Seq<StoredEvent>>, starts: Seq<int>, i: int, left: nat, tx: Option<Seq<char>>, fs: Seq<FilterSpec>)
    requires
        0 <= i <= lists.len(),
        lists.len() == starts.len(),
        forall|j: int| i <= j < lists.len() ==> sorted_by_id(#[trigger] lists[j]) && 0 <= starts[j] <= lists[j].len(),
        forall|j1: int, j2: int, a: int, b: int| i <= j1 < j2 < lists.len() && 0 <= a < lists[j1].len() && 0 <= b < lists[j2].len() ==> id_lt(#[trigger] lists[j2][b].id@, #[trigger] lists[j1][a].id@),
    ensures
        forall|x: StoredEvent| #[trigger] scan_partitions(lists, starts, i, left, false, tx, fs).0.contains(x) ==> exists|j: int, m: int| i <= j < lists.len() && 0 <= m < starts[j] && lists[j][m] == x,
        forall|a: int, b: int| 0 <= a < b < scan_partitions(lists, starts, i, left, false, tx, fs).0.len() ==> id_lt(#[trigger] scan_partitions(lists, starts, i, left, false, tx, fs).0[b].id@, #[trigger] scan_partitions(lists, starts, i, left, false, tx, fs).0[a].id@),
    decreases lists.len() - i,
{
    if !(i < 0 || i >= lists.len() || left == 0) {
        let (sel, last) = scan_backward(lists[i], starts[i], left, tx, fs);
        lemma_scan_backward_from(lists[i], starts[i], left, tx, fs);
        let room = if sel.len() <= left { (left - sel.len()) as nat } else { 0 };
        lemma_scan_partitions_backward(lists, starts, i + 1, room, tx, fs);
        let sel2 = scan_partitions(lists, starts, i + 1, room, false, tx, fs).0;
        let all = scan_partitions(lists, starts, i, left, false, tx, fs).0;
        assert(all == sel + sel2);
        assert forall|x: StoredEvent| #[trigger] all.contains(x) implies exists|j: int, m: int| i <= j < lists.len() && 0 <= m < starts[j] && lists[j][m] == x by {
            let w = choose|w: int| 0 <= w < all.len() && all[w] == x;
            if w < sel.len() {
                assert(sel.contains(sel[w]));
                let m = choose|m: int| 0 <= m < starts[i] && lists[i][m] == x;
                assert(lists[i][m] == x);
            } else {
                assert(sel2.contains(sel2[w - sel.len()]));
            }
        }
        assert forall|a: int, b: int| 0 <= a < b < all.len() implies id_lt(#[trigger] all[b].id@, #[trigger] all[a].id@) by {
            if a < sel.len() && b >= sel.len() {
                assert(sel.contains(sel[a]));
                assert(sel2.contains(sel2[b - sel.len()]));
                let ma = choose|m: int| 0 <= m < starts[i] && lists[i][m] == sel[a];
                let (j, mb) = choose|j: int, m: int| i + 1 <= j < lists.len() && 0 <= m < starts[j] && lists[j][m] == sel2[b - sel.len()];
                assert(id_lt(lists[j][mb].id@, lists[i][ma].id@));
            } else if a >= sel.len() {
                assert(all[a] == sel2[a - sel.len()] && all[b] == sel2[b - sel.len()]);
            }
        }
    }
}


proof fn lemma_ids_across_ledgers(store: &EventStore, k1: u32, k2: u32, a: int, b: int)
    requires
        store.wf(),
        store.partitions().dom().contains(k1),
        store.partitions().dom().contains(k2),
        k1 < k2,
        0 <= a < store.partitions()[k1].events@.len(),
        0 <= b < store.partitions()[k2].events@.len(),
    ensures
        id_lt(store.partitions()[k1].events@[a].id@, store.partitions()[k2].events@[b].id@),
{
    reveal(partition_wf);
    assert(partition_wf(store.partitions()[k1], k1));
    assert(partition_wf(store.partitions()[k2], k2));
    let x = store.partitions()[k1].events@[a].id@;
    let y = store.partitions()[k2].events@[b].id@;
    assert(id_in_ledger(x, k1));
    assert(id_in_ledger(y, k2));
    let (ph1, t1, s1, e1) = choose|p: u8, t: u32, s: u8, e: u32| x == #[trigger] internal_id(k1, p, t, s, e);
    let (ph2, t2, s2, e2) = choose|p: u8, t: u32, s: u8, e: u32| y == #[trigger] internal_id(k2, p, t, s, e);
    lemma_internal_id_ledger_order(k1, ph1, t1, s1, e1, k2, ph2, t2, s2, e2);
}

proof fn lemma_id_vs_cursor(store: &EventStore, k: u32, a: int, l: u32, p: u8, t: u32, s: u8, e: u32)
    requires
        store.wf(),
        store.partitions().dom().contains(k),
        0 <= a < store.partitions()[k].events@.len(),
    ensures
        l < k ==> id_lt(internal_id(l, p, t, s, e), store.partitions()[k].events@[a].id@),
        k < l ==> id_lt(store.partitions()[k].events@[a].id@, internal_id(l, p, t, s, e)),
{
    reveal(partition_wf);
    assert(partition_wf(store.partitions()[k], k));
    let x = store.partitions()[k].events@[a].id@;
    assert(id_in_ledger(x, k));
    let (ph1, t1, s1, e1) = choose|p: u8, t: u32, s: u8, e: u32| x == #[trigger] internal_id(k, p, t, s, e);
    if l < k {
        lemma_internal_id_ledger_order(l, p, t, s, e, k, ph1, t1, s1, e1);
    }
    if k < l {
        lemma_internal_id_ledger_order(k, ph1, t1, s1, e1, l, p, t, s, e);
    }
}

/// Across partitions, a query with `after = c` (an internal id) returns only
/// events whose ids are above `c`, selected in increasing id order (so the rows,
/// reversed, are newest first).
pub proof fn lemma_after_cursor_across(store: &EventStore, ks: Seq<u32>, l: u32, p: u8, t: u32, s: u8, e: u32, left: nat, tx: Option<Seq<char>>, fs: Seq<FilterSpec>)
    requires
        store.wf(),
        scan_order(ks, store.partitions().dom(), Some(l), true),
    ensures
        cursor_ledger(internal_id(l, p, t, s, e)) == Some(l),
        ({
            let c = internal_id(l, p, t, s, e);
            let sel = scan_partitions(lists_of(store.partitions(), ks), starts_of(store.partitions(), ks, c, Some(l), true), 0, left, true, tx, fs).0;
            &&& forall|x: StoredEvent| #[trigger] sel.contains(x) ==> id_lt(c, x.id@)
            &&& sorted_by_id(sel)
            &&& forall|x: StoredEvent| #[trigger] sel.contains(x) ==> held_event(store, x)
        }),
{
    reveal(partition_wf);
    crate::ledger::event_id::lemma_internal_id_round_trip(l, p, t, s, e);
    let parts = store.partitions();
    let c = internal_id(l, p, t, s, e);
    let lists = lists_of(parts, ks);
    let starts = starts_of(parts, ks, c, Some(l), true);
    assert forall|j: int| 0 <= j < ks.len() implies parts.dom().contains(#[trigger] ks[j]) by {
        assert(ks.contains(ks[j]));
    }
    assert forall|j: int| 0 <= j < lists.len() implies sorted_by_id(#[trigger] lists[j]) && 0 <= starts[j] <= lists[j].len() by {
        assert(parts.dom().contains(ks[j]));
        assert(partition_wf(parts[ks[j]], ks[j]));
        lemma_cursor_point_bounds(parts[ks[j]].events@, c, true, 0);
    }
    assert forall|j1: int, j2: int, a: int, b: int| 0 <= j1 < j2 < lists.len() && 0 <= a < lists[j1].len() && 0 <= b < lists[j2].len() implies id_lt(#[trigger] lists[j1][a].id@, #[trigger] lists[j2][b].id@) by {
        assert(parts.dom().contains(ks[j1]) && parts.dom().contains(ks[j2]));
        lemma_ids_across_ledgers(store, ks[j1], ks[j2], a, b);
    }
    lemma_scan_partitions_forward(lists, starts, 0, left, tx, fs);
    let sel = scan_partitions(lists, starts, 0, left, true, tx, fs).0;
    assert forall|x: StoredEvent| #[trigger] sel.contains(x) implies held_event(store, x) by {
        let (j, m) = choose|j: int, m: int| 0 <= j < lists.len() && starts[j] <= m < lists[j].len() && lists[j][m] == x;
        assert(parts.dom().contains(ks[j]));
        assert(parts[ks[j]].events@[m] == x);
    }
    assert forall|x: StoredEvent| #[trigger] sel.contains(x) implies id_lt(c, x.id@) by {
        let (j, m) = choose|j: int, m: int| 0 <= j < lists.len() && starts[j] <= m < lists[j].len() && lists[j][m] == x;
        let k = ks[j];
        assert(parts.dom().contains(k));
        assert(ks.contains(k));
        assert(k >= l);
        if k == l {
            assert(partition_wf(parts[k], k));
            lemma_past_from_point(parts[k].events@, c, true, m);
        } else {
            lemma_id_vs_cursor(store, k, m, l, p, t, s, e);
        }
    }
}

/// Across partitions, a query with `before = c` (an internal id) returns only
/// events whose ids are below `c`, newest first.
pub proof fn lemma_before_cursor_across(store: &EventStore, ks: Seq<u32>, l: u32, p: u8, t: u32, s: u8, e: u32, left: nat, tx: Option<Seq<char>>, fs: Seq<FilterSpec>)
    requires
        store.wf(),
        scan_order(ks, store.partitions().dom(), Some(l), false),
    ensures
        cursor_ledger(internal_id(l, p, t, s, e)) == Some(l),
        ({
            let c = internal_id(l, p, t, s, e);
            let sel = scan_partitions(lists_of(store.partitions(), ks), starts_of(store.partitions(), ks, c, Some(l), false), 0, left, false, tx, fs).0;
            &&& forall|x: StoredEvent| #[trigger] sel.contains(x) ==> id_lt(x.id@, c)
            &&& forall|a: int, b: int| 0 <= a < b < sel.len() ==> id_lt(#[trigger] sel[b].id@, #[trigger] sel[a].id@)
            &&& forall|x: StoredEvent| #[trigger] sel.contains(x) ==> held_event(store, x)
        }),
{
    reveal(partition_wf);
    crate::ledger::event_id::lemma_internal_id_round_trip(l, p, t, s, e);
    let parts = store.partitions();
    let c = internal_id(l, p, t, s, e);
    let lists = lists_of(parts, ks);
    let starts = starts_of(parts, ks, c, Some(l), false);
    assert forall|j: int| 0 <= j < ks.len() implies parts.dom().contains(#[trigger] ks[j]) by {
        assert(ks.contains(ks[j]));
    }
    assert forall|j: int| 0 <= j < lists.len() implies sorted_by_id(#[trigger] lists[j]) && 0 <= starts[j] <= lists[j].len() by {
        assert(parts.dom().contains(ks[j]));
        assert(partition_wf(parts[ks[j]], ks[j]));
        lemma_cursor_point_bounds(parts[ks[j]].events@, c, false, 0);
    }
    assert forall|j1: int, j2: int, a: int, b: int| 0 <= j1 < j2 < lists.len() && 0 <= a < lists[j1].len() && 0 <= b < lists[j2].len() implies id_lt(#[trigger] lists[j2][b].id@, #[trigger] lists[j1][a].id@) by {
        assert(parts.dom().contains(ks[j1]) && parts.dom().contains(ks[j2]));
        lemma_ids_across_ledgers(store, ks[j2], ks[j1], b, a);
    }
    lemma_scan_partitions_backward(lists, starts, 0, left, tx, fs);
    let sel = scan_partitions(lists, starts, 0, left, false, tx, fs).0;
    assert forall|x: StoredEvent| #[trigger] sel.contains(x) implies held_event(store, x) by {
        let (j, m) = choose|j: int, m: int| 0 <= j < lists.len() && 0 <= m < starts[j] && lists[j][m] == x;
        assert(parts.dom().contains(ks[j]));
        assert(parts[ks[j]].events@[m] == x);
    }
    assert forall|x: StoredEvent| #[trigger] sel.contains(x) implies id_lt(x.id@, c) by {
        let (j, m) = choose|j: int, m: int| 0 <= j < lists.len() && 0 <= m < starts[j] && lists[j][m] == x;
        let k = ks[j];
        assert(parts.dom().contains(k));
        assert(ks.contains(k));
        assert(k <= l);
        if k == l {
            assert(partition_wf(parts[k], k));
            lemma_before_point(parts[k].events@, c, m, 0);
        } else {
            lemma_id_vs_cursor(store, k, m, l, p, t, s, e);
        }
    }
}

/// Without a cursor, a query across partitions selects events newest first.
pub proof fn lemma_latest_first_across(store: &EventStore, ks: Seq<u32>, left: nat, tx: Option<Seq<char>>, fs: Seq<FilterSpec>)
    requires
        store.wf(),
        scan_order(ks, store.partitions().dom(), None, false),
    ensures
        ({
            let sel = scan_partitions(lists_of(store.partitions(), ks), starts_of(store.partitions(), ks, Seq::empty(), None, false), 0, left, false, tx, fs).0;
            &&& forall|a: int, b: int| 0 <= a < b < sel.len() ==> id_lt(#[trigger] sel[b].id@, #[trigger] sel[a].id@)
            &&& forall|x: StoredEvent| #[trigger] sel.contains(x) ==> held_event(store, x)
        }),
{
    reveal(partition_wf);
    let parts = store.partitions();
    let lists = lists_of(parts, ks);
    let starts = starts_of(parts, ks, Seq::empty(), None, false);
    assert forall|j: int| 0 <= j < ks.len() implies parts.dom().contains(#[trigger] ks[j]) by {
        assert(ks.contains(ks[j]));
    }
    assert forall|j: int| 0 <= j < lists.len() implies sorted_by_id(#[trigger] lists[j]) && 0 <= starts[j] <= lists[j].len() by {
        assert(parts.dom().contains(ks[j]));
        assert(partition_wf(parts[ks[j]], ks[j]));
    }
    assert forall|j1: int, j2: int, a: int, b: int| 0 <= j1 < j2 < lists.len() && 0 <= a < lists[j1].len() && 0 <= b < lists[j2].len() implies id_lt(#[trigger] lists[j2][b].id@, #[trigger] lists[j1][a].id@) by {
        assert(parts.dom().contains(ks[j1]) && parts.dom().contains(ks[j2]));
        lemma_ids_across_ledgers(store, ks[j2], ks[j1], b, a);
    }
    lemma_scan_partitions_backward(lists, starts, 0, left, tx, fs);
    let sel = scan_partitions(lists, starts, 0, left, false, tx, fs).0;
    assert forall|x: StoredEvent| #[trigger] sel.contains(x) implies held_event(store, x) by {
        let (j, m) = choose|j: int, m: int| 0 <= j < lists.len() && 0 <= m < starts[j] && lists[j][m] == x;
        assert(parts.dom().contains(ks[j]));
        assert(parts[ks[j]].events@[m] == x);
    }
}


/// The internal id that `to_internal_id` gives for an external id.
pub open spec fn row_internal(ext: Seq<char>) -> Option<Seq<char>> {
    match decode_external(ext) {
        Some(t) => match phase_of(t.1, t.3) {
            Some(_) => Some(internal_id(t.0, t.1, t.2, t.3, t.4)),
            None => None,
        },
        None => None,
    }
}

/// The row of a stored event carries an external id that converts back to the
/// event's internal id, so what the ordering and cursor lemmas state of selected
/// events holds of the ids of the returned rows.
pub proof fn lemma_row_id_converts_back(store: &EventStore, k: u32, i: int)
    requires
        store.wf(),
        store.partitions().dom().contains(k),
        0 <= i < store.partitions()[k].events@.len(),
    ensures
        row_internal(row_of(store.partitions()[k].events@[i]).id) == Some(store.partitions()[k].events@[i].id@),
{
    reveal(partition_wf);
    reveal(ids_agree);
    let e = store.partitions()[k].events@[i];
    assert(partition_wf(store.partitions()[k], k));
    assert(ids_agree(e));
    let (ph, t, n) = choose|ph: EventPhase, t: u32, n: u32| e.id@ == #[trigger] internal_id(e.ledger_sequence, ph.phase_sub().0, t, ph.phase_sub().1, n)
        && e.external_id@ == external_id(e.ledger_sequence, ph.phase_sub().0, t, ph.phase_sub().1, n);
    crate::ledger::event_id::lemma_id_conversion_round_trip(e.ledger_sequence, ph, t, n);
}


/// Whether `x` is one of the events the store holds.
pub open spec fn held_event(store: &EventStore, x: StoredEvent) -> bool {
    exists|k: u32, i: int| store.partitions().dom().contains(k) && 0 <= i < store.partitions()[k].events@.len() && #[trigger] store.partitions()[k].events@[i] == x
}

/// Whether every row's id converts to an internal id, and those ids strictly
/// decrease along the rows (newest first).
pub open spec fn rows_newest_first(rows: Seq<RowSpec>) -> bool {
    &&& forall|i: int| 0 <= i < rows.len() ==> (#[trigger] row_internal(rows[i].id)) is Some
    &&& forall|i: int, j: int| 0 <= i < j < rows.len() ==> id_lt(row_internal(#[trigger] rows[j].id)->Some_0, row_internal(#[trigger] rows[i].id)->Some_0)
}

/// Whether every row's internal id lies above the cursor `c`.
pub open spec fn rows_above(rows: Seq<RowSpec>, c: Seq<char>) -> bool {
    forall|i: int| 0 <= i < rows.len() ==> (row_internal(#[trigger] rows[i].id) is Some && id_lt(c, row_internal(rows[i].id)->Some_0))
}

/// Whether every row's internal id lies below the cursor `c`.
pub open spec fn rows_below(rows: Seq<RowSpec>, c: Seq<char>) -> bool {
    forall|i: int| 0 <= i < rows.len() ==> (row_internal(#[trigger] rows[i].id) is Some && id_lt(row_internal(rows[i].id)->Some_0, c))
}

proof fn lemma_rows_convert(store: &EventStore, sel: Seq<StoredEvent>)
    requires
        store.wf(),
        forall|x: StoredEvent| #[trigger] sel.contains(x) ==> held_event(store, x),
    ensures
        forall|i: int| 0 <= i < sel.len() ==> row_internal(#[trigger] rows_of(sel)[i].id) == Some(sel[i].id@),
{
    assert forall|i: int| 0 <= i < sel.len() implies row_internal(#[trigger] rows_of(sel)[i].id) == Some(sel[i].id@) by {
        assert(sel.contains(sel[i]));
        let (k, j) = choose|k: u32, j: int| store.partitions().dom().contains(k) && 0 <= j < store.partitions()[k].events@.len() && #[trigger] store.partitions()[k].events@[j] == sel[i];
        lemma_row_id_converts_back(store, k, j);
    }
}

/// Rows of a selection in increasing id order, reversed: newest first, and above
/// a cursor the selection lies above.
proof fn lemma_rows_reversed(store: &EventStore, sel: Seq<StoredEvent>, c: Option<Seq<char>>)
    requires
        store.wf(),
        forall|x: StoredEvent| #[trigger] sel.contains(x) ==> held_event(store, x),
        sorted_by_id(sel),
        c is Some ==> forall|x: StoredEvent| #[trigger] sel.contains(x) ==> id_lt(c->Some_0, x.id@),
    ensures
        rows_newest_first(rows_of(sel).reverse()),
        c is Some ==> rows_above(rows_of(sel).reverse(), c->Some_0),
{
    lemma_rows_convert(store, sel);
    let rows = rows_of(sel).reverse();
    let n = sel.len();
    assert forall|i: int| 0 <= i < n implies rows[i] == row_of(sel[n - 1 - i]) && row_internal(#[trigger] rows[i].id) == Some(sel[n - 1 - i].id@) by {
        assert(rows_of(sel)[n - 1 - i] == row_of(sel[n - 1 - i]));
    }
    assert forall|i: int, j: int| 0 <= i < j < rows.len() implies id_lt(row_internal(#[trigger] rows[j].id)->Some_0, row_internal(#[trigger] rows[i].id)->Some_0) by {
        assert(row_internal(rows[j].id) == Some(sel[n - 1 - j].id@));
        assert(row_internal(rows[i].id) == Some(sel[n - 1 - i].id@));
    }
    if let Some(cc) = c {
        assert forall|i: int| 0 <= i < rows.len() implies (row_internal(#[trigger] rows[i].id) is Some && id_lt(cc, row_internal(rows[i].id)->Some_0)) by {
            assert(row_internal(rows[i].id) == Some(sel[n - 1 - i].id@));
            assert(sel.contains(sel[n - 1 - i]));
        }
    }
}

/// Rows of a selection in decreasing id order: newest first, and below a cursor
/// the selection lies below.
proof fn lemma_rows_in_order(store: &EventStore, sel: Seq<StoredEvent>, c: Option<Seq<char>>)
    requires
        store.wf(),
        forall|x: StoredEvent| #[trigger] sel.contains(x) ==> held_event(store, x),
        forall|a: int, b: int| 0 <= a < b < sel.len() ==> id_lt(#[trigger] sel[b].id@, #[trigger] sel[a].id@),
        c is Some ==> forall|x: StoredEvent| #[trigger] sel.contains(x) ==> id_lt(x.id@, c->Some_0),
    ensures
        rows_newest_first(rows_of(sel)),
        c is Some ==> rows_below(rows_of(sel), c->Some_0),
{
    lemma_rows_convert(store, sel);
    let rows = rows_of(sel);
    assert forall|i: int, j: int| 0 <= i < j < rows.len() implies id_lt(row_internal(#[trigger] rows[j].id)->Some_0, row_internal(#[trigger] rows[i].id)->Some_0) by {
        assert(row_internal(rows[j].id) == Some(sel[j].id@));
        assert(row_internal(rows[i].id) == Some(sel[i].id@));
    }
    if let Some(cc) = c {
        assert forall|i: int| 0 <= i < rows.len() implies (row_internal(#[trigger] rows[i].id) is Some && id_lt(row_internal(rows[i].id)->Some_0, cc)) by {
            assert(row_internal(rows[i].id) == Some(sel[i].id@));
            assert(sel.contains(sel[i]));
        }
    }
}

/// A query of one partition returns rows newest first, above its `after` cursor
/// or below its `before` cursor.
pub proof fn lemma_single_rows(store: &EventStore, seq: u32, after: Option<Seq<char>>, before: Option<Seq<char>>, left: nat, tx: Option<Seq<char>>, fs: Seq<FilterSpec>)
    requires
        store.wf(),
    ensures
        ({
            let rows = single_outcome(store.partitions(), seq, after, before, left, tx, fs).0;
            &&& rows_newest_first(rows)
            &&& (after is Some ==> rows_above(rows, after->Some_0))
            &&& (after is None && before is Some ==> rows_below(rows, before->Some_0))
        }),
{
    reveal(partition_wf);
    let parts = store.partitions();
    if parts.dom().contains(seq) {
        let es = parts[seq].events@;
        assert(partition_wf(parts[seq], seq));
        match after {
            Some(c) => {
                let k = cursor_point(es, c, true, 0);
                lemma_cursor_point_bounds(es, c, true, 0);
                lemma_after_cursor(es, c, left, tx, fs);
                lemma_scan_forward_from(es, k, left, tx, fs);
                let sel = scan_forward(es, k, left, tx, fs).0;
                assert forall|x: StoredEvent| #[trigger] sel.contains(x) implies held_event(store, x) by {
                    let i = choose|i: int| k <= i < es.len() && es[i] == x;
                    assert(parts[seq].events@[i] == x);
                }
                lemma_rows_reversed(store, sel, Some(c));
            },
            None => {
                let end = match before {
                    Some(b) => cursor_point(es, b, false, 0),
                    None => es.len() as int,
                };
                match before {
                    Some(b) => {
                        lemma_cursor_point_bounds(es, b, false, 0);
                        lemma_before_cursor(es, b, left, tx, fs);
                    },
                    None => {
                        lemma_latest_first(es, left, tx, fs);
                    },
                }
                lemma_scan_backward_from(es, end, left, tx, fs);
                let sel = scan_backward(es, end, left, tx, fs).0;
                assert forall|x: StoredEvent| #[trigger] sel.contains(x) implies held_event(store, x) by {
                    let i = choose|i: int| 0 <= i < end && es[i] == x;
                    assert(parts[seq].events@[i] == x);
                }
                lemma_rows_in_order(store, sel, before);
            },
        }
    } else {
        let rows = single_outcome(parts, seq, after, before, left, tx, fs).0;
        assert(rows.len() == 0);
    }
}


/// A forward query across partitions from an internal-id cursor returns rows
/// newest first, all above the cursor.
pub proof fn lemma_cross_rows_after(store: &EventStore, ks: Seq<u32>, l: u32, p: u8, t: u32, s: u8, e: u32, left: nat, tx: Option<Seq<char>>, fs: Seq<FilterSpec>)
    requires
        store.wf(),
        scan_order(ks, store.partitions().dom(), Some(l), true),
    ensures
        ({
            let c = internal_id(l, p, t, s, e);
            let rows = cross_outcome(store.partitions(), ks, c, Some(l), true, left, tx, fs).0;
            &&& rows_newest_first(rows)
            &&& rows_above(rows, c)
        }),
{
    lemma_after_cursor_across(store, ks, l, p, t, s, e, left, tx, fs);
    let c = internal_id(l, p, t, s, e);
    let sel = scan_partitions(lists_of(store.partitions(), ks), starts_of(store.partitions(), ks, c, Some(l), true), 0, left, true, tx, fs).0;
    lemma_rows_reversed(store, sel, Some(c));
}

/// A backward query across partitions from an internal-id cursor returns rows
/// newest first, all below the cursor.
pub proof fn lemma_cross_rows_before(store: &EventStore, ks: Seq<u32>, l: u32, p: u8, t: u32, s: u8, e: u32, left: nat, tx: Option<Seq<char>>, fs: Seq<FilterSpec>)
    requires
        store.wf(),
        scan_order(ks, store.partitions().dom(), Some(l), false),
    ensures
        ({
            let c = internal_id(l, p, t, s, e);
            let rows = cross_outcome(store.partitions(), ks, c, Some(l), false, left, tx, fs).0;
            &&& rows_newest_first(rows)
            &&& rows_below(rows, c)
        }),
{
    lemma_before_cursor_across(store, ks, l, p, t, s, e, left, tx, fs);
    let c = internal_id(l, p, t, s, e);
    let sel = scan_partitions(lists_of(store.partitions(), ks), starts_of(store.partitions(), ks, c, Some(l), false), 0, left, false, tx, fs).0;
    lemma_rows_in_order(store, sel, Some(c));
}

/// A query across partitions without a cursor returns rows newest first.
pub proof fn lemma_cross_rows_latest(store: &EventStore, ks: Seq<u32>, left: nat, tx: Option<Seq<char>>, fs: Seq<FilterSpec>)
    requires
        store.wf(),
        scan_order(ks, store.partitions().dom(), None, false),
    ensures
        rows_newest_first(cross_outcome(store.partitions(), ks, Seq::empty(), None, false, left, tx, fs).0),
{
    lemma_latest_first_across(store, ks, left, tx, fs);
    let sel = scan_partitions(lists_of(store.partitions(), ks), starts_of(store.partitions(), ks, Seq::empty(), None, false), 0, left, false, tx, fs).0;
    lemma_rows_in_order(store, sel, None);
}


proof fn lemma_forward_last(es: Seq<StoredEvent>, k: int, left: nat, tx: Option<Seq<char>>, fs: Seq<FilterSpec>)
    requires
        0 <= k,
    ensures
        scan_forward(es, k, left, tx, fs).1 matches Some(x) ==> exists|i: int| k <= i < es.len() && es[i] == x,
    decreases es.len() - k,
{
    if !(k < 0 || k >= es.len() || left == 0) {
        let m = event_selected(es[k], tx, fs);
        lemma_forward_last(es, k + 1, if m { (left - 1) as nat } else { left }, tx, fs);
    }
}

proof fn lemma_backward_last(es: Seq<StoredEvent>, k: int, left: nat, tx: Option<Seq<char>>, fs: Seq<FilterSpec>)
    requires
        k <= es.len(),
    ensures
        scan_backward(es, k, left, tx, fs).1 matches Some(x) ==> exists|i: int| 0 <= i < k && es[i] == x,
    decreases k,
{
    if !(k <= 0 || k > es.len() || left == 0) {
        let m = event_selected(es[k - 1], tx, fs);
        lemma_backward_last(es, k - 1, if m { (left - 1) as nat } else { left }, tx, fs);
    }
}

proof fn lemma_partitions_last(lists: Seq<Seq<StoredEvent>>, starts: Seq<int>, i: int, left: nat, forward: bool, tx: Option<Seq<char>>, fs: Seq<FilterSpec>)
    requires
        0 <= i <= lists.len(),
        lists.len() == starts.len(),
        forall|j: int| i <= j < lists.len() ==> 0 <= #[trigger] starts[j] <= lists[j].len(),
    ensures
        scan_partitions(lists, starts, i, left, forward, tx, fs).1 matches Some(x) ==> exists|j: int, m: int| i <= j < lists.len() && 0 <= m < lists[j].len() && lists[j][m] == x
            && (if forward { starts[j] <= m } else { m < starts[j] }),
    decreases lists.len() - i,
{
    if !(i < 0 || i >= lists.len() || left == 0) {
        let (sel, last) = if forward {
            scan_forward(lists[i], starts[i], left, tx, fs)
        } else {
            scan_backward(lists[i], starts[i], left, tx, fs)
        };
        if forward {
            lemma_forward_last(lists[i], starts[i], left, tx, fs);
        } else {
            lemma_backward_last(lists[i], starts[i], left, tx, fs);
        }
        let room = if sel.len() <= left { (left - sel.len()) as nat } else { 0 };
        lemma_partitions_last(lists, starts, i + 1, room, forward, tx, fs);
    }
}

/// Whether the next cursor converts to an internal id above `c`.
pub open spec fn next_above(next: Option<Seq<char>>, c: Seq<char>) -> bool {
    next is Some ==> (row_internal(next->Some_0) is Some && id_lt(c, row_internal(next->Some_0)->Some_0))
}

/// Whether the next cursor converts to an internal id below `c`.
pub open spec fn next_below(next: Option<Seq<char>>, c: Seq<char>) -> bool {
    next is Some ==> (row_internal(next->Some_0) is Some && id_lt(row_internal(next->Some_0)->Some_0, c))
}

/// The next cursor of a query of one partition lies past its cursor: above
/// `after`, or below `before`.
pub proof fn lemma_single_next(store: &EventStore, seq: u32, after: Option<Seq<char>>, before: Option<Seq<char>>, left: nat, tx: Option<Seq<char>>, fs: Seq<FilterSpec>)
    requires
        store.wf(),
    ensures
        ({
            let next = single_outcome(store.partitions(), seq, after, before, left, tx, fs).1;
            &&& (after is Some ==> next_above(next, after->Some_0))
            &&& (after is None && before is Some ==> next_below(next, before->Some_0))
        }),
{
    reveal(partition_wf);
    let parts = store.partitions();
    if parts.dom().contains(seq) {
        let es = parts[seq].events@;
        assert(partition_wf(parts[seq], seq));
        match after {
            Some(c) => {
                let k = cursor_point(es, c, true, 0);
                lemma_cursor_point_bounds(es, c, true, 0);
                lemma_forward_last(es, k, left, tx, fs);
                if let Some(x) = scan_forward(es, k, left, tx, fs).1 {
                    let i = choose|i: int| k <= i < es.len() && es[i] == x;
                    lemma_past_from_point(es, c, true, i);
                    lemma_row_id_converts_back(store, seq, i);
                }
            },
            None => {
                if let Some(b) = before {
                    let end = cursor_point(es, b, false, 0);
                    lemma_cursor_point_bounds(es, b, false, 0);
                    lemma_backward_last(es, end, left, tx, fs);
                    if let Some(x) = scan_backward(es, end, left, tx, fs).1 {
                        let i = choose|i: int| 0 <= i < end && es[i] == x;
                        lemma_before_point(es, b, i, 0);
                        lemma_row_id_converts_back(store, seq, i);
                    }
                }
            },
        }
    }
}

/// The next cursor of a query across partitions lies past its internal-id
/// cursor: above it going forward, below it going backward.
pub proof fn lemma_cross_next(store: &EventStore, ks: Seq<u32>, l: u32, p: u8, t: u32, s: u8, e: u32, forward: bool, left: nat, tx: Option<Seq<char>>, fs: Seq<FilterSpec>)
    requires
        store.wf(),
        scan_order(ks, store.partitions().dom(), Some(l), forward),
    ensures
        ({
            let c = internal_id(l, p, t, s, e);
            let next = cross_outcome(store.partitions(), ks, c, Some(l), forward, left, tx, fs).1;
            if forward { next_above(next, c) } else { next_below(next, c) }
        }),
{
    reveal(partition_wf);
    let parts = store.partitions();
    let c = internal_id(l, p, t, s, e);
    let lists = lists_of(parts, ks);
    let starts = starts_of(parts, ks, c, Some(l), forward);
    assert forall|j: int| 0 <= j < ks.len() implies parts.dom().contains(#[trigger] ks[j]) by {
        assert(ks.contains(ks[j]));
    }
    assert forall|j: int| 0 <= j < lists.len() implies 0 <= #[trigger] starts[j] <= lists[j].len() by {
        lemma_cursor_point_bounds(parts[ks[j]].events@, c, forward, 0);
    }
    lemma_partitions_last(lists, starts, 0, left, forward, tx, fs);
    if let Some(x) = scan_partitions(lists, starts, 0, left, forward, tx, fs).1 {
        let (j, m) = choose|j: int, m: int| 0 <= j < lists.len() && 0 <= m < lists[j].len() && lists[j][m] == x
            && (if forward { starts[j] <= m } else { m < starts[j] });
        let k = ks[j];
        assert(ks.contains(k));
        assert(parts[k].events@[m] == x);
        lemma_row_id_converts_back(store, k, m);
        assert(partition_wf(parts[k], k));
        if k == l {
            if forward {
                lemma_past_from_point(parts[k].events@, c, true, m);
            } else {
                lemma_before_point(parts[k].events@, c, m, 0);
            }
        } else {
            lemma_id_vs_cursor(store, k, m, l, p, t, s, e);
        }
    }
}

} // verus!
