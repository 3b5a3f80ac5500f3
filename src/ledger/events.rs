//! Event records handed to the store, their types, and the XOR-keyed id codec.
use vstd::prelude::*;
pub use crate::ledger::event_id::{event_id, parse_event_id, EventPhase};
use crate::ledger::event_id::{
    b32_decode_spec, b32_text, b32_valid, base32_decode, base32_encode, id_prefix,
    lemma_b32_round_trip, lemma_unpack_pack, modulus, pack, pack_id, parse_internal, phase_of,
    internal_id, unpack, unpack_id,
};
use crate::text::{chars_of, push_char, str_eq};

verus! {

/// The kind of an event.
#[derive(Debug, Clone, Copy, PartialEq, Eq, Structural)]
pub enum EventType {
    Contract,
    System,
    Diagnostic,
}

/// The name of an event type: `contract`, `system` or `diagnostic`.
pub open spec fn event_type_name(t: EventType) -> Seq<char> {
    match t {
        EventType::Contract => seq!['c', 'o', 'n', 't', 'r', 'a', 'c', 't'],
        EventType::System => seq!['s', 'y', 's', 't', 'e', 'm'],
        EventType::Diagnostic => seq!['d', 'i', 'a', 'g', 'n', 'o', 's', 't', 'i', 'c'],
    }
}

/// The event type with this exact name, if any.
pub open spec fn type_from_name(s: Seq<char>) -> Option<EventType> {
    if s == event_type_name(EventType::Contract) {
        Some(EventType::Contract)
    } else if s == event_type_name(EventType::System) {
        Some(EventType::System)
    } else if s == event_type_name(EventType::Diagnostic) {
        Some(EventType::Diagnostic)
    } else {
        None
    }
}

impl EventType {
    /// The name of this type.
    pub fn to_string(&self) -> (r: String)
        ensures
            r@ == event_type_name(*self),
    {
        proof {
            reveal_strlit("contract");
            reveal_strlit("system");
            reveal_strlit("diagnostic");
        }
        match self {
            EventType::Contract => "contract".to_string(),
            EventType::System => "system".to_string(),
            EventType::Diagnostic => "diagnostic".to_string(),
        }
    }

    /// The type with this exact (case-sensitive) name.
    pub fn from_name(s: &str) -> (r: Option<EventType>)
        ensures
            r == type_from_name(s@),
    {
        proof {
            reveal_strlit("contract");
            reveal_strlit("system");
            reveal_strlit("diagnostic");
            assert("contract"@ =~= event_type_name(EventType::Contract));
            assert("system"@ =~= event_type_name(EventType::System));
            assert("diagnostic"@ =~= event_type_name(EventType::Diagnostic));
        }
        if str_eq(s, "contract") {
            Some(EventType::Contract)
        } else if str_eq(s, "system") {
            Some(EventType::System)
        } else if str_eq(s, "diagnostic") {
            Some(EventType::Diagnostic)
        } else {
            None
        }
    }
}

/// An event as extracted from a ledger record. Topics and data are JSON texts.
#[derive(Debug, Clone)]
pub struct ExtractedEvent {
    pub ledger_sequence: u32,
    pub ledger_closed_at: i64,
    pub phase: EventPhase,
    pub tx_index: u32,
    pub event_index: u32,
    pub tx_hash: String,
    pub contract_id: Option<String>,
    pub event_type: EventType,
    pub topics_xdr_json: Vec<String>,
    pub data_xdr_json: String,
}

/// The 112-bit key of the XOR-keyed codec (bytes a3 7b 1c f0 5e d2 94 68 0b e7 3f 81 c6 4d).
pub const XOR_KEY: u128 = 0xa37b_1cf0_5ed2_9468_0be7_3f81_c64d;

/// The XOR-keyed external id of packed components.
pub open spec fn keyed_external_id(ledger: u32, phase: u8, tx: u32, sub: u8, event: u32) -> Seq<char> {
    id_prefix() + b32_text(pack(ledger, phase, tx, sub, event) ^ XOR_KEY)
}

/// What this module's `decode_event_id` yields.
pub open spec fn decode_keyed(s: Seq<char>) -> Option<(u32, u8, u32, u8, u32)> {
    if s.len() >= 4 && s.take(4) == id_prefix() {
        match b32_decode_spec(s.skip(4)) {
            Some(w) => {
                let t = unpack(w ^ XOR_KEY);
                if t.1 > 2 || t.3 > 1 {
                    None
                } else {
                    Some(t)
                }
            },
            None => None,
        }
    } else {
        None
    }
}

proof fn lemma_xor_key(x: u128)
    requires
        (x as nat) < modulus(),
    ensures
        (x ^ XOR_KEY) ^ XOR_KEY == x,
        ((x ^ XOR_KEY) as nat) < modulus(),
{
    assert((x ^ 0xa37b_1cf0_5ed2_9468_0be7_3f81_c64du128) ^ 0xa37b_1cf0_5ed2_9468_0be7_3f81_c64du128 == x
        && (x ^ 0xa37b_1cf0_5ed2_9468_0be7_3f81_c64du128) < 0x1_0000_0000_0000_0000_0000_0000_0000u128)
        by (bit_vector)
        requires
            x < 0x1_0000_0000_0000_0000_0000_0000_0000u128,
    ;
}

/// Encode id components into an external id keyed by XOR.
pub fn encode_event_id(ledger_sequence: u32, phase: u8, tx_index: u32, sub: u8, event_index: u32) -> (r: String)
    ensures
        r@ == keyed_external_id(ledger_sequence, phase, tx_index, sub, event_index),
        r@.len() == 27,
        b32_valid(r@.skip(4)),
{
    let x = pack_id(ledger_sequence, phase, tx_index, sub, event_index);
    let w = x ^ XOR_KEY;
    let payload = base32_encode(w);
    let mut r = String::new();
    push_char(&mut r, 'e');
    push_char(&mut r, 'v');
    push_char(&mut r, 't');
    push_char(&mut r, '_');
    r.append(payload.as_str());
    proof {
        lemma_unpack_pack(ledger_sequence, phase, tx_index, sub, event_index);
        lemma_xor_key(x);
        lemma_b32_round_trip(w);
        assert(r@ =~= keyed_external_id(ledger_sequence, phase, tx_index, sub, event_index));
        assert(r@.skip(4) =~= b32_text(w));
    }
    r
}

/// Decode an XOR-keyed external id back into its components.
pub fn decode_event_id(id: &str) -> (r: Option<(u32, u8, u32, u8, u32)>)
    ensures
        r == decode_keyed(id@),
{
    let cs = chars_of(id);
    if cs.len() < 4 || cs[0] != 'e' || cs[1] != 'v' || cs[2] != 't' || cs[3] != '_' {
        assert(cs@.len() < 4 || cs@.take(4) != id_prefix()) by {
            if cs@.len() >= 4 && cs@.take(4) == id_prefix() {
                assert(cs@[0] == cs@.take(4)[0]);
                assert(cs@[1] == cs@.take(4)[1]);
                assert(cs@[2] == cs@.take(4)[2]);
                assert(cs@[3] == cs@.take(4)[3]);
            }
        }
        return None;
    }
    assert(cs@.take(4) =~= id_prefix());
    if cs.len() != 27 {
        return None;
    }
    let w = match base32_decode(&cs, 4) {
        Some(w) => w,
        None => return None,
    };
    let t = unpack_id(w ^ XOR_KEY);
    if t.1 > 2 || t.3 > 1 {
        return None;
    }
    Some(t)
}

/// Decoding a keyed id gives back its components.
pub proof fn lemma_keyed_id_round_trip(ledger: u32, phase: u8, tx: u32, sub: u8, event: u32)
    requires
        phase <= 2,
        sub <= 1,
    ensures
        decode_keyed(keyed_external_id(ledger, phase, tx, sub, event)) == Some((ledger, phase, tx, sub, event)),
        keyed_external_id(ledger, phase, tx, sub, event).len() == 27,
{
    let x = pack(ledger, phase, tx, sub, event);
    lemma_unpack_pack(ledger, phase, tx, sub, event);
    lemma_xor_key(x);
    lemma_b32_round_trip(x ^ XOR_KEY);
    let s = keyed_external_id(ledger, phase, tx, sub, event);
    assert(s.take(4) =~= id_prefix());
    assert(s.skip(4) =~= b32_text(x ^ XOR_KEY));
}

/// Convert an internal event id to an XOR-keyed external id.
pub fn to_external_id(internal_id: &str) -> (r: Option<String>)
    ensures
        match parse_internal(internal_id@) {
            Some(t) => r.is_some() && r.unwrap()@ == keyed_external_id(t.0, t.1, t.2, t.3, t.4),
            None => r.is_none(),
        },
{
    match parse_event_id(internal_id) {
        Some((ledger, phase, tx, sub, event)) => Some(encode_event_id(ledger, phase, tx, sub, event)),
        None => None,
    }
}

/// Convert an XOR-keyed external id to an internal id.
pub fn to_internal_id(external_id: &str) -> (r: Option<String>)
    ensures
        match decode_keyed(external_id@) {
            Some(t) => match phase_of(t.1, t.3) {
                Some(ph) => r.is_some() && r.unwrap()@ == internal_id(t.0, t.1, t.2, t.3, t.4),
                None => r.is_none(),
            },
            None => r.is_none(),
        },
{
    let (ledger, phase, tx, sub, event) = match decode_event_id(external_id) {
        Some(t) => t,
        None => return None,
    };
    let event_phase = if phase == 0 && sub == 0 {
        EventPhase::BeforeAllTxs
    } else if phase == 1 && sub == 0 {
        EventPhase::Operation
    } else if phase == 1 && sub == 1 {
        EventPhase::AfterTx
    } else if phase == 2 && sub == 0 {
        EventPhase::AfterAllTxs
    } else {
        return None;
    };
    Some(event_id(ledger, event_phase, tx, event))
}

} // verus!
