//! Validation of list requests into store queries, and the backfill window.
use vstd::prelude::*;
use crate::api::error::ApiError;
use crate::api::query_parser::{compile_query, filters_view, parse_query};
use crate::db::{cursor_ledger, opt_view, strings_view, EventFilter, EventQueryParams, FilterSpec};
use crate::ledger::event_id::{canonical_cursor, canonicalize_cursor, decode_external, internal_id, parse_event_id, parse_internal, phase_of, to_internal_id};
use crate::text::{chars_of, concat3, split_on, split_ranges, string_of_range};

verus! {

/// Default page size.
pub const DEFAULT_LIMIT: u32 = 10;

/// Largest page size.
pub const MAX_LIMIT: u32 = 100;

/// Most ledgers fetched by one backfill.
pub const BACKFILL_BATCH_SIZE: u32 = 100;

/// A list request, from a query string or a JSON body.
#[derive(Debug, Default)]
pub struct ListEventsRequest {
    pub limit: Option<u32>,
    pub after: Option<String>,
    pub before: Option<String>,
    pub q: Option<String>,
}

/// The internal form of a cursor given in internal or external form.
pub open spec fn cursor_internal(c: Seq<char>) -> Option<Seq<char>> {
    if parse_internal(c).is_some() {
        Some(canonical_cursor(c))
    } else {
        match decode_external(c) {
            Some(t) => match phase_of(t.1, t.3) {
                Some(_) => Some(internal_id(t.0, t.1, t.2, t.3, t.4)),
                None => None,
            },
            None => None,
        }
    }
}

/// The ledger of the first filter that names one.
pub open spec fn first_ledger(fs: Seq<FilterSpec>) -> Option<u32>
    decreases fs.len(),
{
    if fs.len() == 0 {
        None
    } else if fs[0].ledger.is_some() {
        fs[0].ledger
    } else {
        first_ledger(fs.drop_first())
    }
}

/// The parameter a rejected request is blamed on, or the accepted query.
pub open spec fn bad_param(e: ApiError) -> Option<Seq<char>> {
    match e {
        ApiError::BadRequest { param, .. } => opt_view(param),
        _ => None,
    }
}

fn bad_request(message: String, param: &str) -> (e: ApiError)
    ensures
        e is BadRequest,
        bad_param(e) == Some(param@),
{
    ApiError::BadRequest { message, param: Some(param.to_string()) }
}

/// Convert a cursor to the zero-padded internal form, accepting the internal or the external form.
pub fn normalize_cursor(c: &str) -> (r: Option<String>)
    ensures
        match cursor_internal(c@) {
            Some(i) => r matches Some(s) && s@ == i,
            None => r is None,
        },
        r is Some ==> parse_internal(r->Some_0@) is Some,
{
    if let Some(t) = parse_event_id(c) {
        proof {
            crate::ledger::event_id::lemma_internal_id_round_trip(t.0, t.1, t.2, t.3, t.4);
        }
        return Some(canonicalize_cursor(c));
    }
    let r = to_internal_id(c);
    proof {
        if let Some(t) = decode_external(c@) {
            crate::ledger::event_id::lemma_internal_id_round_trip(t.0, t.1, t.2, t.3, t.4);
        }
    }
    r
}

fn first_filter_ledger(filters: &Vec<EventFilter>) -> (r: Option<u32>)
    ensures
        r == first_ledger(filters_view(filters@)),
{
    let ghost fs = filters_view(filters@);
    let mut i: usize = 0;
    assert(fs.skip(0) =~= fs);
    while i < filters.len()
        invariant
            i <= filters@.len(),
            fs == filters_view(filters@),
            first_ledger(fs) == first_ledger(fs.skip(i as int)),
        decreases filters.len() - i,
    {
        assert(fs.skip(i as int)[0] == filters@[i as int]@);
        assert(fs.skip(i as int).drop_first() =~= fs.skip(i + 1));
        if filters[i].ledger.is_some() {
            return filters[i].ledger;
        }
        i = i + 1;
    }
    assert(fs.skip(i as int).len() == 0);
    None
}

/// Validate a list request and turn it into a store query: the limit must be in
/// 1..=100 (default 10), `after` and `before` exclude each other, cursors must parse
/// (internal or external form), and `q` must compile; the query is pinned to the
/// first ledger its filters name.
pub fn prepare_query(req: &ListEventsRequest) -> (r: Result<EventQueryParams, ApiError>)
    ensures
        ({
            let limit = match req.limit {
                Some(l) => l,
                None => DEFAULT_LIMIT,
            };
            if limit == 0 || limit > MAX_LIMIT {
                r is Err && bad_param(r->Err_0) == Some("limit"@)
            } else if req.after.is_some() && req.before.is_some() {
                r is Err && bad_param(r->Err_0) == Some("before"@)
            } else if req.after matches Some(a) && cursor_internal(a@) is None {
                r is Err && bad_param(r->Err_0) == Some("after"@)
            } else if req.before matches Some(b) && cursor_internal(b@) is None {
                r is Err && bad_param(r->Err_0) == Some("before"@)
            } else if req.q matches Some(q) && compile_query(q@, vstd::utf8::encode_utf8(q@).len()) is Err {
                r is Err && bad_param(r->Err_0) == Some("q"@)
            } else {
                &&& r is Ok
                &&& r->Ok_0.limit == limit
                &&& r->Ok_0.tx is None
                &&& opt_view(r->Ok_0.after) == (match req.after { Some(a) => cursor_internal(a@), None => None })
                &&& opt_view(r->Ok_0.before) == (match req.before { Some(b) => cursor_internal(b@), None => None })
                &&& filters_view(r->Ok_0.filters@) == (match req.q {
                    Some(q) => compile_query(q@, vstd::utf8::encode_utf8(q@).len())->Ok_0,
                    None => Seq::<FilterSpec>::empty(),
                })
                &&& r->Ok_0.ledger == first_ledger(filters_view(r->Ok_0.filters@))
                &&& crate::db::cursors_parse(&r->Ok_0)
            }
        }),
{
    let limit = match req.limit {
        Some(l) => l,
        None => DEFAULT_LIMIT,
    };
    if limit == 0 || limit > MAX_LIMIT {
        return Err(bad_request(concat3("limit must be between 1 and 100", "", ""), "limit"));
    }
    if req.after.is_some() && req.before.is_some() {
        return Err(bad_request(concat3("after and before cannot be used together", "", ""), "before"));
    }
    let after = match &req.after {
        Some(a) => match normalize_cursor(a.as_str()) {
            Some(c) => Some(c),
            None => return Err(bad_request(concat3("invalid cursor: ", a.as_str(), ""), "after")),
        },
        None => None,
    };
    let before = match &req.before {
        Some(b) => match normalize_cursor(b.as_str()) {
            Some(c) => Some(c),
            None => return Err(bad_request(concat3("invalid cursor: ", b.as_str(), ""), "before")),
        },
        None => None,
    };
    let filters = match &req.q {
        Some(q) => match parse_query(q.as_str()) {
            Ok(f) => f,
            Err(e) => return Err(bad_request(e.message, "q")),
        },
        None => {
            let v: Vec<EventFilter> = Vec::new();
            assert(filters_view(v@) =~= Seq::<FilterSpec>::empty());
            v
        },
    };
    let ledger = first_filter_ledger(&filters);
    Ok(EventQueryParams { limit, after, before, ledger, tx: None, filters })
}

/// The window a backfill for `target` covers: from `target`, at most
/// `BACKFILL_BATCH_SIZE` ledgers, not past `latest`. `None` when `target` is past it.
pub fn backfill_window(latest: Option<u32>, target: u32) -> (r: Option<(u32, u32)>)
    ensures
        ({
            let l: int = match latest {
                Some(x) => x as int,
                None => 0,
            };
            if target > l {
                r is None
            } else {
                r == Some((target, if l - target + 1 < BACKFILL_BATCH_SIZE { (l - target + 1) as u32 } else { BACKFILL_BATCH_SIZE }))
            }
        }),
{
    let l = match latest {
        Some(x) => x,
        None => 0,
    };
    if target > l {
        return None;
    }
    let span: u64 = (l - target) as u64 + 1;
    let count = if span < BACKFILL_BATCH_SIZE as u64 { span as u32 } else { BACKFILL_BATCH_SIZE };
    Some((target, count))
}


/// The ledger a query may need fetched first: the one it is pinned to, else
/// the ledger of its cursor (`after`, then `before`).
pub fn backfill_target(params: &EventQueryParams) -> (r: Option<u32>)
    ensures
        r == match params.ledger {
            Some(l) => Some(l),
            None => match (params.after, params.before) {
                (Some(a), _) => cursor_ledger(a@),
                (None, Some(b)) => cursor_ledger(b@),
                (None, None) => None,
            },
        },
{
    if let Some(l) = params.ledger {
        return Some(l);
    }
    let cursor = match (&params.after, &params.before) {
        (Some(a), _) => a,
        (None, Some(b)) => b,
        (None, None) => return None,
    };
    match parse_event_id(cursor.as_str()) {
        Some(t) => Some(t.0),
        None => None,
    }
}


/// The text urlencoding gives for `s`: percent-escapes decoded, or `s` itself
/// when the decoded bytes are not UTF-8.
pub uninterp spec fn url_decoded(s: Seq<char>) -> Seq<char>;

/// Relies on `urlencoding::decode`: percent-decoding of `s`; its error (the
/// result is not UTF-8) keeps `s` as it is.
#[verifier::external_body]
fn url_decode(s: &str) -> (r: String)
    ensures
        r@ == url_decoded(s@),
{
    match urlencoding::decode(s) {
        Ok(d) => d.into_owned(),
        Err(_) => s.to_string(),
    }
}

/// The position of the first `=` in `p` from `i` on, or the length.
pub open spec fn eq_index(p: Seq<char>, i: int) -> int
    decreases p.len() - i,
{
    if i < 0 || i >= p.len() || p[i] == '=' {
        i
    } else {
        eq_index(p, i + 1)
    }
}

/// `s` without any number of trailing `[]`.
pub open spec fn trim_brackets(s: Seq<char>) -> Seq<char>
    decreases s.len(),
{
    if s.len() >= 2 && s[s.len() - 2] == '[' && s[s.len() - 1] == ']' {
        trim_brackets(s.take(s.len() - 2))
    } else {
        s
    }
}

/// A parameter list: keys in order of first appearance, each with its values in order.
pub type ParamList = Seq<(Seq<char>, Seq<Seq<char>>)>;

/// The position of key `k` in a parameter list, or -1.
pub open spec fn key_index(m: ParamList, k: Seq<char>) -> int
    decreases m.len(),
{
    if m.len() == 0 {
        -1
    } else if key_index(m.drop_last(), k) >= 0 {
        key_index(m.drop_last(), k)
    } else if m.last().0 == k {
        m.len() - 1
    } else {
        -1
    }
}

/// Add value `v` under key `k`.
pub open spec fn add_param(m: ParamList, k: Seq<char>, v: Seq<char>) -> ParamList {
    let i = key_index(m, k);
    if 0 <= i < m.len() {
        m.update(i, (k, m[i].1.push(v)))
    } else {
        m.push((k, seq![v]))
    }
}

/// The parameters of the first `n` `&`-separated pairs of a query string: empty
/// pairs skipped, `key=value` split at the first `=` (no `=`: empty value), both
/// sides URL-decoded, and trailing `[]` dropped from keys.
pub open spec fn params_of(pairs: Seq<Seq<char>>, n: int) -> ParamList
    decreases n,
{
    if n <= 0 || n > pairs.len() {
        Seq::empty()
    } else {
        let m = params_of(pairs, n - 1);
        let p = pairs[n - 1];
        if p.len() == 0 {
            m
        } else {
            let e = eq_index(p, 0);
            let k = p.take(e);
            let v = if e < p.len() { p.skip(e + 1) } else { Seq::empty() };
            add_param(m, trim_brackets(url_decoded(k)), url_decoded(v))
        }
    }
}

/// The view of a parameter list.
pub open spec fn params_view(v: Seq<(String, Vec<String>)>) -> ParamList {
    v.map_values(|e: (String, Vec<String>)| (e.0@, strings_view(e.1@)))
}

fn trimmed_key(s: String) -> (r: String)
    ensures
        r@ == trim_brackets(s@),
{
    let cs = chars_of(s.as_str());
    let mut end = cs.len();
    assert(cs@.take(end as int) =~= cs@);
    while end >= 2 && cs[end - 2] == '[' && cs[end - 1] == ']'
        invariant
            end <= cs@.len(),
            trim_brackets(cs@) == trim_brackets(cs@.take(end as int)),
        decreases end,
    {
        assert(cs@.take(end as int).take(end - 2) =~= cs@.take(end - 2));
        end = end - 2;
    }
    assert(cs@.take(end as int) =~= cs@.subrange(0, end as int));
    string_of_range(&cs, 0, end)
}

fn find_key(m: &Vec<(String, Vec<String>)>, k: &String) -> (r: Option<usize>)
    ensures
        match r {
            Some(i) => i as int == key_index(params_view(m@), k@) && i < m@.len(),
            None => key_index(params_view(m@), k@) == -1,
        },
{
    let ghost pv = params_view(m@);
    let mut i: usize = 0;
    while i < m.len()
        invariant
            i <= m@.len(),
            pv == params_view(m@),
            key_index(pv.take(i as int), k@) == -1,
        decreases m.len() - i,
    {
        assert(pv.take(i + 1).drop_last() =~= pv.take(i as int));
        assert(pv[i as int].0 == m@[i as int].0@);
        if m[i].0 == *k {
            proof {
                lemma_key_index_prefix(pv, i + 1, k@);
            }
            return Some(i);
        }
        i = i + 1;
    }
    assert(pv.take(i as int) =~= pv);
    None
}

proof fn lemma_key_index_found(m: ParamList, k: Seq<char>)
    ensures
        -1 <= key_index(m, k) < m.len(),
        key_index(m, k) >= 0 ==> m[key_index(m, k)].0 == k,
    decreases m.len(),
{
    if m.len() > 0 {
        lemma_key_index_found(m.drop_last(), k);
    }
}

proof fn lemma_key_index_prefix(m: ParamList, n: int, k: Seq<char>)
    requires
        0 < n <= m.len(),
        0 <= key_index(m.take(n), k) < n,
    ensures
        key_index(m, k) == key_index(m.take(n), k),
    decreases m.len() - n,
{
    if n < m.len() {
        assert(m.take(n + 1).drop_last() =~= m.take(n));
        lemma_key_index_prefix(m, n + 1, k);
    } else {
        assert(m.take(n) =~= m);
    }
}

/// Parse a raw query string into keys with their values; both `key=a&key=b`
/// and `key[]=a&key[]=b` give `key` two values.
pub fn parse_multi_params(query: &str) -> (r: Vec<(String, Vec<String>)>)
    ensures
        params_view(r@) == ({
            let pairs = split_on(query@, '&');
            params_of(pairs, pairs.len() as int)
        }),
{
    let cs = chars_of(query);
    let ranges = split_ranges(&cs, 0, '&');
    let ghost pairs = split_on(query@, '&');
    assert(cs@.subrange(0, cs@.len() as int) =~= query@);
    let mut out: Vec<(String, Vec<String>)> = Vec::new();
    let mut j: usize = 0;
    assert(params_view(out@) =~= Seq::<(Seq<char>, Seq<Seq<char>>)>::empty());
    while j < ranges.len()
        invariant
            j <= ranges@.len(),
            ranges@.len() == pairs.len(),
            cs@ == query@,
            pairs == split_on(query@, '&'),
            forall|k: int| 0 <= k < ranges@.len() ==> {
                &&& 0 <= (#[trigger] ranges@[k]).0 <= ranges@[k].1 <= cs@.len()
                &&& cs@.subrange(ranges@[k].0 as int, ranges@[k].1 as int) == pairs[k]
            },
            params_view(out@) == params_of(pairs, j as int),
        decreases ranges.len() - j,
    {
        let (lo, hi) = ranges[j];
        let ghost p = pairs[j as int];
        assert(ranges@[j as int] == (lo, hi));
        if lo < hi {
            let mut e = lo;
            while e < hi && cs[e] != '='
                invariant
                    lo <= e <= hi <= cs@.len(),
                    p == cs@.subrange(lo as int, hi as int),
                    eq_index(p, 0) == eq_index(p, e - lo),
                decreases hi - e,
            {
                e = e + 1;
            }
            let k = string_of_range(&cs, lo, e);
            let v = if e < hi { string_of_range(&cs, e + 1, hi) } else { String::new() };
            proof {
                assert(k@ =~= p.take(e - lo));
                if e < hi {
                    assert(v@ =~= p.skip(e - lo + 1));
                }
            }
            let key = trimmed_key(url_decode(k.as_str()));
            let value = url_decode(v.as_str());
            let ghost before = params_view(out@);
            match find_key(&out, &key) {
                Some(i) => {
                    proof {
                        lemma_key_index_found(before, key@);
                    }
                    let ghost old_out = out@;
                    let mut entry = out.remove(i);
                    let ghost ev = (entry.0@, strings_view(entry.1@));
                    let ghost vv = value@;
                    entry.1.push(value);
                    assert(strings_view(entry.1@) =~= ev.1.push(vv));
                    let ghost ne = entry;
                    out.insert(i, entry);
                    assert(out@ =~= old_out.update(i as int, ne));
                    assert(params_view(out@) =~= before.update(i as int, (key@, before[i as int].1.push(vv))));
                },
                None => {
                    let mut vals: Vec<String> = Vec::new();
                    let ghost vv = value@;
                    vals.push(value);
                    assert(strings_view(vals@) =~= seq![vv]);
                    out.push((key, vals));
                    assert(params_view(out@) =~= before.push((key@, seq![vv])));
                },
            }
        }
        j = j + 1;
    }
    out
}

} // verus!
