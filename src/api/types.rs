//! Response shapes of the HTTP surface, as plain data.
use vstd::prelude::*;
use crate::db::{opt_view, strings_view, EventRow};
use crate::text::concat3;

verus! {

/// A response body to be written as pretty-printed JSON.
pub struct PrettyJson<T>(pub T);

/// Paginated list envelope.
#[derive(Debug)]
pub struct ListResponse<T> {
    pub url: String,
    pub next: Option<String>,
    pub object: String,
    pub data: Vec<T>,
}

/// An event as the API shows it. Topics and data are JSON texts.
#[derive(Debug)]
pub struct Event {
    pub object: String,
    pub id: String,
    pub url: String,
    pub ledger_sequence: u32,
    pub ledger_closed_at: String,
    pub tx_hash: String,
    pub event_type: String,
    pub contract_id: Option<String>,
    pub topics: Vec<String>,
    pub data: String,
}

impl Event {
    /// The API form of a row: object `event`, url `/events/{id}`.
    pub fn from_row(row: EventRow) -> (r: Event)
        ensures
            r.object@ == "event"@,
            r.url@ == "/events/"@ + row.id@,
            r.id@ == row.id@,
            r.ledger_sequence == row.ledger_sequence,
            r.ledger_closed_at@ == row.ledger_closed_at@,
            r.tx_hash@ == row.tx_hash@,
            r.event_type@ == row.event_type@,
            opt_view(r.contract_id) == opt_view(row.contract_id),
            strings_view(r.topics@) == strings_view(row.topics@),
            r.data@ == row.data@,
    {
        let url = concat3("/events/", row.id.as_str(), "");
        proof {
            assert(url@ =~= "/events/"@ + row.id@) by {
                reveal_strlit("");
            }
        }
        Event {
            object: "event".to_string(),
            id: row.id,
            url,
            ledger_sequence: row.ledger_sequence,
            ledger_closed_at: row.ledger_closed_at,
            tx_hash: row.tx_hash,
            event_type: row.event_type,
            contract_id: row.contract_id,
            topics: row.topics,
            data: row.data,
        }
    }
}

/// Error envelope.
#[derive(Debug)]
pub struct ErrorResponse {
    pub error: ErrorBody,
}

/// Error details.
#[derive(Debug)]
pub struct ErrorBody {
    pub error_type: String,
    pub code: Option<String>,
    pub message: String,
    pub param: Option<String>,
}

/// Server status.
#[derive(Debug)]
pub struct StatusResponse {
    pub status: String,
    pub latest_ledger: Option<u32>,
    pub cached_ledgers: usize,
    pub network_passphrase: String,
    pub build: BuildInfo,
}

/// Build metadata.
#[derive(Debug)]
pub struct BuildInfo {
    pub repo: String,
    pub branch: String,
    pub commit: String,
}

} // verus!
