//! Decisions of the background tailer; the loop that fetches and sleeps runs outside.
use vstd::prelude::*;
use crate::db::{held_at, EventStore};
use crate::text::parse_unsigned;

verus! {

/// Poll interval when the tailer has caught up, in seconds.
pub const POLL_INTERVAL_SECONDS: u64 = 5;

/// Longest backoff after failures, in seconds.
pub const MAX_BACKOFF_SECONDS: u64 = 60;

/// Ledger to start from when nothing else is known.
pub const FALLBACK_START_LEDGER: u32 = 58_000_000;

/// How fetching one ledger went.
#[derive(Debug, Clone, Copy, PartialEq, Eq, Structural)]
pub enum FetchOutcome {
    Fetched,
    NotFound,
    Failed,
}

/// Why the tailer pauses after a batch.
#[derive(Debug, Clone, Copy, PartialEq, Eq, Structural)]
pub enum SleepReason {
    NotFound,
    Error,
}

/// What to do after a batch of fetches.
#[derive(Debug, Clone, Copy, PartialEq, Eq, Structural)]
pub struct BatchDecision {
    /// How many leading ledgers of the batch to store.
    pub advanced: u32,
    /// Whether to pause, and why.
    pub sleep: Option<SleepReason>,
    /// Consecutive failures after this batch.
    pub consecutive_failures: u32,
}

/// The number of leading fetches that succeeded.
pub open spec fn leading_fetched(o: Seq<FetchOutcome>) -> nat
    decreases o.len(),
{
    if o.len() == 0 || o[0] != FetchOutcome::Fetched {
        0
    } else {
        1 + leading_fetched(o.drop_first())
    }
}

proof fn lemma_leading_bound(o: Seq<FetchOutcome>)
    ensures
        leading_fetched(o) <= o.len(),
        leading_fetched(o) < o.len() ==> o[leading_fetched(o) as int] != FetchOutcome::Fetched,
        forall|i: int| 0 <= i < leading_fetched(o) ==> o[i] == FetchOutcome::Fetched,
    decreases o.len(),
{
    if o.len() > 0 && o[0] == FetchOutcome::Fetched {
        lemma_leading_bound(o.drop_first());
        assert forall|i: int| 0 <= i < leading_fetched(o) implies o[i] == FetchOutcome::Fetched by {
            if i > 0 {
                assert(o[i] == o.drop_first()[i - 1]);
            }
        }
    }
}

/// Process a batch's outcomes in ledger order: store the leading fetched ledgers;
/// stop at the first that is missing (poll later) or failed (back off, one more
/// consecutive failure). A stored ledger resets the failure count.
pub fn decide_batch(outcomes: &Vec<FetchOutcome>, consecutive_failures: u32) -> (r: BatchDecision)
    requires
        outcomes@.len() <= u32::MAX,
    ensures
        r.advanced == leading_fetched(outcomes@),
        ({
            let n = leading_fetched(outcomes@) as int;
            if n == outcomes@.len() {
                r.sleep is None && r.consecutive_failures == (if n > 0 { 0 } else { consecutive_failures })
            } else if outcomes@[n] == FetchOutcome::NotFound {
                r.sleep == Some(SleepReason::NotFound) && r.consecutive_failures == (if n > 0 { 0 } else { consecutive_failures })
            } else {
                r.sleep == Some(SleepReason::Error) && r.consecutive_failures as int == (if n > 0 { 0 } else { consecutive_failures as int }) + 1
                    || (consecutive_failures == u32::MAX && n == 0 && r.consecutive_failures == u32::MAX && r.sleep == Some(SleepReason::Error))
            }
        }),
{
    proof {
        lemma_leading_bound(outcomes@);
    }
    let mut failures = consecutive_failures;
    let mut advanced: u32 = 0;
    let mut i: usize = 0;
    while i < outcomes.len()
        invariant
            i <= outcomes@.len() <= u32::MAX,
            advanced == i,
            forall|j: int| 0 <= j < i ==> outcomes@[j] == FetchOutcome::Fetched,
            failures == (if i > 0 { 0 } else { consecutive_failures }),
            leading_fetched(outcomes@) <= outcomes@.len(),
            leading_fetched(outcomes@) < outcomes@.len() ==> outcomes@[leading_fetched(outcomes@) as int] != FetchOutcome::Fetched,
            forall|j: int| 0 <= j < leading_fetched(outcomes@) ==> outcomes@[j] == FetchOutcome::Fetched,
        decreases outcomes.len() - i,
    {
        match outcomes[i] {
            FetchOutcome::Fetched => {
                advanced = advanced + 1;
                failures = 0;
            },
            FetchOutcome::NotFound => {
                assert(leading_fetched(outcomes@) == i);
                return BatchDecision { advanced, sleep: Some(SleepReason::NotFound), consecutive_failures: failures };
            },
            FetchOutcome::Failed => {
                assert(leading_fetched(outcomes@) == i);
                let f = if failures < u32::MAX { failures + 1 } else { failures };
                return BatchDecision { advanced, sleep: Some(SleepReason::Error), consecutive_failures: f };
            },
        }
        i = i + 1;
    }
    assert(leading_fetched(outcomes@) == i);
    BatchDecision { advanced, sleep: None, consecutive_failures: failures }
}

/// The backoff after `failures` consecutive failures: 2^min(failures, 6) seconds, at most 60.
pub open spec fn backoff_spec(failures: u32) -> u64 {
    let e: nat = if failures < 6 { failures as nat } else { 6 };
    let p = vstd::arithmetic::power2::pow2(e);
    if p < 60 { p as u64 } else { 60 }
}

/// Seconds to wait after `consecutive_failures` failures in a row.
pub fn backoff_seconds(consecutive_failures: u32) -> (r: u64)
    ensures
        r == backoff_spec(consecutive_failures),
{
    let e: u32 = if consecutive_failures < 6 { consecutive_failures } else { 6 };
    let mut p: u64 = 1;
    let mut i: u32 = 0;
    proof {
        vstd::arithmetic::power2::lemma2_to64();
    }
    while i < e
        invariant
            i <= e <= 6,
            p == vstd::arithmetic::power2::pow2(i as nat),
        decreases e - i,
    {
        proof {
            vstd::arithmetic::power2::lemma_pow2_unfold((i + 1) as nat);
            vstd::arithmetic::power2::lemma2_to64();
        }
        p = p * 2;
        i = i + 1;
    }
    if p < MAX_BACKOFF_SECONDS { p } else { MAX_BACKOFF_SECONDS }
}

/// Where the tailer starts: the given ledger; else one past the last synced
/// (if it parses as a ledger number); else ten before the discovered latest;
/// else a fixed recent ledger.
pub fn start_ledger(configured: Option<u32>, last_synced: Option<&str>, discovered: Option<u32>) -> (r: u32)
    ensures
        r == match configured {
            Some(s) => s,
            None => match last_synced {
                Some(t) if parse_unsigned(t@, 0xffff_ffff).is_some() => {
                    let v = parse_unsigned(t@, 0xffff_ffff).unwrap();
                    if v < 0xffff_ffff { (v + 1) as u32 } else { 0xffff_ffff }
                },
                _ => match discovered {
                    Some(d) => if d >= 10 { (d - 10) as u32 } else { 0 },
                    None => FALLBACK_START_LEDGER,
                },
            },
        },
{
    if let Some(s) = configured {
        return s;
    }
    if let Some(t) = last_synced {
        let cs = crate::text::chars_of(t);
        assert(cs@.subrange(0, cs@.len() as int) =~= t@);
        if let Some(v) = crate::text::parse_unsigned_range(&cs, 0, cs.len(), 0xffff_ffff) {
            return if v < 0xffff_ffff { v + 1 } else { v };
        }
    }
    match discovered {
        Some(d) => if d >= 10 { d - 10 } else { 0 },
        None => FALLBACK_START_LEDGER,
    }
}


/// Move past ledgers held at time `now`: the first ledger from `current` on that
/// is not held then (or `u32::MAX`), and the failure count, reset when any
/// ledger was skipped.
pub fn skip_cached_at(store: &EventStore, current: u32, consecutive_failures: u32, now: i64) -> (r: (u32, u32))
    ensures
        r.0 >= current,
        r.1 == (if r.0 > current { 0 } else { consecutive_failures }),
        forall|k: u32| current <= k < r.0 ==> held_at(store.partitions(), k, now),
        r.0 < u32::MAX ==> !held_at(store.partitions(), r.0, now),
{
    let mut next = current;
    let mut failures = consecutive_failures;
    while next < u32::MAX && store.is_ledger_cached_at(next, now)
        invariant
            next >= current,
            failures == (if next > current { 0 } else { consecutive_failures }),
            forall|k: u32| current <= k < next ==> held_at(store.partitions(), k, now),
        decreases u32::MAX - next,
    {
        next = next + 1;
        failures = 0;
    }
    (next, failures)
}

/// Whether `next` is where skipping from `current` stops at time `now`: every
/// ledger before it is held then, and it is not (unless it is `u32::MAX`).
pub open spec fn skipped_to(store: &EventStore, current: u32, next: u32, now: i64) -> bool {
    &&& forall|k: u32| current <= k < next ==> held_at(store.partitions(), k, now)
    &&& (next < u32::MAX ==> !held_at(store.partitions(), next, now))
}

/// Move past ledgers held now (see `skip_cached_at`).
pub fn skip_cached(store: &EventStore, current: u32, consecutive_failures: u32) -> (r: (u32, u32))
    ensures
        r.0 >= current,
        r.1 == (if r.0 > current { 0 } else { consecutive_failures }),
        exists|now: i64| #[trigger] skipped_to(store, current, r.0, now),
{
    let now = crate::db::now_seconds();
    let r = skip_cached_at(store, current, consecutive_failures, now);
    assert(skipped_to(store, current, r.0, now));
    r
}

} // verus!
