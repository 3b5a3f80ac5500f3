//! Internal and external event identifiers.
use vstd::prelude::*;
use crate::text::{
    chars_of, dec_padded, lemma_dec_padded, lemma_split_join, lemma_split_single,
    parse_unsigned, parse_unsigned_range, push_char, push_dec_padded, split_on,
    split_ranges,
};

verus! {

/// Execution phase of an event within a ledger, in execution order.
#[derive(Debug, Clone, Copy, PartialEq, Eq, Structural)]
pub enum EventPhase {
    /// Emitted before any transaction is applied.
    BeforeAllTxs,
    /// Emitted while an operation executes.
    Operation,
    /// Emitted after a transaction's operations complete.
    AfterTx,
    /// Emitted after all transactions are applied.
    AfterAllTxs,
}

impl EventPhase {
    /// The `(phase, sub)` pair that orders this phase inside an identifier.
    pub open spec fn phase_sub(self) -> (u8, u8) {
        match self {
            EventPhase::BeforeAllTxs => (0, 0),
            EventPhase::Operation => (1, 0),
            EventPhase::AfterTx => (1, 1),
            EventPhase::AfterAllTxs => (2, 0),
        }
    }

    /// Encode as `(phase, sub)` for use in event ids.
    pub fn as_phase_sub(&self) -> (r: (u8, u8))
        ensures
            r == self.phase_sub(),
    {
        match self {
            EventPhase::BeforeAllTxs => (0, 0),
            EventPhase::Operation => (1, 0),
            EventPhase::AfterTx => (1, 1),
            EventPhase::AfterAllTxs => (2, 0),
        }
    }
}


/// The four characters `evt_` that begin every event id.
pub open spec fn id_prefix() -> Seq<char> {
    seq!['e', 'v', 't', '_']
}

/// The internal id of an event: `evt_{ledger:010}_{phase:01}_{tx:04}_{sub:01}_{event:04}`.
pub open spec fn internal_id(ledger: u32, phase: u8, tx: u32, sub: u8, event: u32) -> Seq<char> {
    id_prefix() + dec_padded(ledger as nat, 10) + seq!['_'] + dec_padded(phase as nat, 1)
        + seq!['_'] + dec_padded(tx as nat, 4) + seq!['_'] + dec_padded(sub as nat, 1)
        + seq!['_'] + dec_padded(event as nat, 4)
}

/// What `parse_event_id` yields: the five `_`-separated numbers after `evt_`.
pub open spec fn parse_internal(s: Seq<char>) -> Option<(u32, u8, u32, u8, u32)> {
    if s.len() >= 4 && s.take(4) == id_prefix() {
        let parts = split_on(s.skip(4), '_');
        if parts.len() == 5 {
            let l = parse_unsigned(parts[0], 0xffff_ffff);
            let p = parse_unsigned(parts[1], 0xff);
            let t = parse_unsigned(parts[2], 0xffff_ffff);
            let u = parse_unsigned(parts[3], 0xff);
            let e = parse_unsigned(parts[4], 0xffff_ffff);
            if l.is_some() && p.is_some() && t.is_some() && u.is_some() && e.is_some() {
                Some(
                    (
                        l.unwrap() as u32,
                        p.unwrap() as u8,
                        t.unwrap() as u32,
                        u.unwrap() as u8,
                        e.unwrap() as u32,
                    ),
                )
            } else {
                None
            }
        } else {
            None
        }
    } else {
        None
    }
}

/// Build the id of an event; its characters order events by execution within a ledger.
pub fn event_id(ledger_sequence: u32, event_phase: EventPhase, tx_index: u32, event_index: u32) -> (r: String)
    ensures
        r@ == internal_id(
            ledger_sequence,
            event_phase.phase_sub().0,
            tx_index,
            event_phase.phase_sub().1,
            event_index,
        ),
{
    let (phase, sub) = event_phase.as_phase_sub();
    format_internal_id(ledger_sequence, phase, tx_index, sub, event_index)
}

/// The zero-padded internal id of the given components.
pub fn format_internal_id(ledger_sequence: u32, phase: u8, tx_index: u32, sub: u8, event_index: u32) -> (r: String)
    ensures
        r@ == internal_id(ledger_sequence, phase, tx_index, sub, event_index),
{
    let mut r = String::new();
    push_char(&mut r, 'e');
    push_char(&mut r, 'v');
    push_char(&mut r, 't');
    push_char(&mut r, '_');
    push_dec_padded(&mut r, ledger_sequence, 10);
    push_char(&mut r, '_');
    push_dec_padded(&mut r, phase as u32, 1);
    push_char(&mut r, '_');
    push_dec_padded(&mut r, tx_index, 4);
    push_char(&mut r, '_');
    push_dec_padded(&mut r, sub as u32, 1);
    push_char(&mut r, '_');
    push_dec_padded(&mut r, event_index, 4);
    assert(r@ =~= internal_id(ledger_sequence, phase, tx_index, sub, event_index));
    r
}

/// A cursor in the zero-padded internal form: an internal id that parses is
/// written out again in that form; anything else is kept as it is.
pub open spec fn canonical_cursor(c: Seq<char>) -> Seq<char> {
    match parse_internal(c) {
        Some(t) => internal_id(t.0, t.1, t.2, t.3, t.4),
        None => c,
    }
}

/// Rewrite a cursor in the zero-padded internal form (see `canonical_cursor`).
pub fn canonicalize_cursor(c: &str) -> (r: String)
    ensures
        r@ == canonical_cursor(c@),
{
    match parse_event_id(c) {
        Some((l, p, t, s, e)) => format_internal_id(l, p, t, s, e),
        None => c.to_string(),
    }
}

/// Parse an internal event id back into `(ledger, phase, tx, sub, event)`.
pub fn parse_event_id(id: &str) -> (r: Option<(u32, u8, u32, u8, u32)>)
    ensures
        r == parse_internal(id@),
{
    let cs = chars_of(id);
    if cs.len() < 4 || cs[0] != 'e' || cs[1] != 'v' || cs[2] != 't' || cs[3] != '_' {
        assert(cs@.len() < 4 || cs@.take(4) != id_prefix()) by {
            if cs@.len() >= 4 && cs@.take(4) == id_prefix() {
                assert(cs@[0] == cs@.take(4)[0]);
                assert(cs@[1] == cs@.take(4)[1]);
                assert(cs@[2] == cs@.take(4)[2]);
                assert(cs@[3] == cs@.take(4)[3]);
            }
        }
        return None;
    }
    assert(cs@.take(4) =~= id_prefix());
    assert(cs@.subrange(4, cs@.len() as int) =~= cs@.skip(4));
    let parts = split_ranges(&cs, 4, '_');
    if parts.len() != 5 {
        return None;
    }
    let l = parse_unsigned_range(&cs, parts[0].0, parts[0].1, 0xffff_ffff);
    let p = parse_unsigned_range(&cs, parts[1].0, parts[1].1, 0xff);
    let t = parse_unsigned_range(&cs, parts[2].0, parts[2].1, 0xffff_ffff);
    let u = parse_unsigned_range(&cs, parts[3].0, parts[3].1, 0xff);
    let e = parse_unsigned_range(&cs, parts[4].0, parts[4].1, 0xffff_ffff);
    match (l, p, t, u, e) {
        (Some(l), Some(p), Some(t), Some(u), Some(e)) => Some((l, p as u8, t, u as u8, e)),
        _ => None,
    }
}

proof fn lemma_digits_no_underscore(n: nat, w: nat)
    ensures
        forall|i: int| 0 <= i < dec_padded(n, w).len() ==> dec_padded(n, w)[i] != '_',
{
    lemma_dec_padded(n, w);
    assert forall|i: int| 0 <= i < dec_padded(n, w).len() implies dec_padded(n, w)[i] != '_' by {
        assert(crate::text::is_digit(dec_padded(n, w)[i]));
    }
}

/// Internal ids parse back to the numbers they were built from.
pub proof fn lemma_internal_id_round_trip(ledger: u32, phase: u8, tx: u32, sub: u8, event: u32)
    ensures
        parse_internal(internal_id(ledger, phase, tx, sub, event)) == Some((ledger, phase, tx, sub, event)),
{
    let d0 = dec_padded(ledger as nat, 10);
    let d1 = dec_padded(phase as nat, 1);
    let d2 = dec_padded(tx as nat, 4);
    let d3 = dec_padded(sub as nat, 1);
    let d4 = dec_padded(event as nat, 4);
    lemma_digits_no_underscore(ledger as nat, 10);
    lemma_digits_no_underscore(phase as nat, 1);
    lemma_digits_no_underscore(tx as nat, 4);
    lemma_digits_no_underscore(sub as nat, 1);
    lemma_digits_no_underscore(event as nat, 4);
    lemma_dec_padded(ledger as nat, 10);
    lemma_dec_padded(phase as nat, 1);
    lemma_dec_padded(tx as nat, 4);
    lemma_dec_padded(sub as nat, 1);
    lemma_dec_padded(event as nat, 4);
    let s = internal_id(ledger, phase, tx, sub, event);
    let x1 = d0 + seq!['_'] + d1;
    let x2 = x1 + seq!['_'] + d2;
    let x3 = x2 + seq!['_'] + d3;
    let x4 = x3 + seq!['_'] + d4;
    assert(s.take(4) =~= id_prefix());
    assert(s.skip(4) =~= x4);
    lemma_split_single(d0, '_');
    lemma_split_join(d0, d1, '_');
    lemma_split_join(x1, d2, '_');
    lemma_split_join(x2, d3, '_');
    lemma_split_join(x3, d4, '_');
    let parts = split_on(x4, '_');
    assert(parts =~= seq![d0, d1, d2, d3, d4]);
    crate::text::lemma_parse_unsigned_widen(d0, ledger as nat, 0xffff_ffff);
    crate::text::lemma_parse_unsigned_widen(d1, phase as nat, 0xff);
    crate::text::lemma_parse_unsigned_widen(d2, tx as nat, 0xffff_ffff);
    crate::text::lemma_parse_unsigned_widen(d3, sub as nat, 0xff);
    crate::text::lemma_parse_unsigned_widen(d4, event as nat, 0xffff_ffff);
}


/// Width mask of the 112-bit values that external ids carry.
pub const MOD_MASK: u128 = 0xffff_ffff_ffff_ffff_ffff_ffff_ffff;

/// The first odd multiplier of the external-id mixing.
pub const MULTIPLIER_A: u128 = 0xb5a4_f317_8d2e_c906_4bf1_73a8_e5d1;

/// The second odd multiplier of the external-id mixing.
pub const MULTIPLIER_B: u128 = 0xe8f2_7c94_a1d5_630b_9e4a_8d17_b3f9;

/// The inverse of `MULTIPLIER_A` modulo 2^112.
pub const INVERSE_A: u128 = 0x9c10_aa71_df77_567e_c7d9_f1a5_9331;

/// The inverse of `MULTIPLIER_B` modulo 2^112.
pub const INVERSE_B: u128 = 0xd2f0_4fc9_bd6d_f7d7_7ff2_f2fa_9e49;

/// 2^112.
pub open spec fn modulus() -> nat {
    0x1_0000_0000_0000_0000_0000_0000_0000
}

/// The letter for a 5-bit value in the id alphabet `a`..`z`, `B D G N R T`.
pub open spec fn b32_char_spec(v: nat) -> char {
    if v == 0 {
        'a'
    } else if v == 1 {
        'b'
    } else if v == 2 {
        'c'
    } else if v == 3 {
        'd'
    } else if v == 4 {
        'e'
    } else if v == 5 {
        'f'
    } else if v == 6 {
        'g'
    } else if v == 7 {
        'h'
    } else if v == 8 {
        'i'
    } else if v == 9 {
        'j'
    } else if v == 10 {
        'k'
    } else if v == 11 {
        'l'
    } else if v == 12 {
        'm'
    } else if v == 13 {
        'n'
    } else if v == 14 {
        'o'
    } else if v == 15 {
        'p'
    } else if v == 16 {
        'q'
    } else if v == 17 {
        'r'
    } else if v == 18 {
        's'
    } else if v == 19 {
        't'
    } else if v == 20 {
        'u'
    } else if v == 21 {
        'v'
    } else if v == 22 {
        'w'
    } else if v == 23 {
        'x'
    } else if v == 24 {
        'y'
    } else if v == 25 {
        'z'
    } else if v == 26 {
        'B'
    } else if v == 27 {
        'D'
    } else if v == 28 {
        'G'
    } else if v == 29 {
        'N'
    } else if v == 30 {
        'R'
    } else {
        'T'
    }
}

/// The 5-bit value of a letter of the id alphabet.
pub open spec fn b32_value_spec(c: char) -> Option<nat> {
    if 'a' <= c && c <= 'z' {
        Some((c as u32 - 'a' as u32) as nat)
    } else if c == 'B' {
        Some(26)
    } else if c == 'D' {
        Some(27)
    } else if c == 'G' {
        Some(28)
    } else if c == 'N' {
        Some(29)
    } else if c == 'R' {
        Some(30)
    } else if c == 'T' {
        Some(31)
    } else {
        None
    }
}

/// Every value below 32 has a letter, and that letter reads back as the value.
pub proof fn lemma_b32_char_value(v: nat)
    requires
        v < 32,
    ensures
        b32_value_spec(b32_char_spec(v)) == Some(v),
{
}

pub(crate) fn b32_char(v: u8) -> (c: char)
    requires
        v < 32,
    ensures
        c == b32_char_spec(v as nat),
{
    if v == 0 {
        'a'
    } else if v == 1 {
        'b'
    } else if v == 2 {
        'c'
    } else if v == 3 {
        'd'
    } else if v == 4 {
        'e'
    } else if v == 5 {
        'f'
    } else if v == 6 {
        'g'
    } else if v == 7 {
        'h'
    } else if v == 8 {
        'i'
    } else if v == 9 {
        'j'
    } else if v == 10 {
        'k'
    } else if v == 11 {
        'l'
    } else if v == 12 {
        'm'
    } else if v == 13 {
        'n'
    } else if v == 14 {
        'o'
    } else if v == 15 {
        'p'
    } else if v == 16 {
        'q'
    } else if v == 17 {
        'r'
    } else if v == 18 {
        's'
    } else if v == 19 {
        't'
    } else if v == 20 {
        'u'
    } else if v == 21 {
        'v'
    } else if v == 22 {
        'w'
    } else if v == 23 {
        'x'
    } else if v == 24 {
        'y'
    } else if v == 25 {
        'z'
    } else if v == 26 {
        'B'
    } else if v == 27 {
        'D'
    } else if v == 28 {
        'G'
    } else if v == 29 {
        'N'
    } else if v == 30 {
        'R'
    } else {
        'T'
    }
}

pub(crate) fn b32_value(c: char) -> (r: Option<u8>)
    ensures
        match b32_value_spec(c) {
            Some(v) => r == Some(v as u8) && v < 32,
            None => r.is_none(),
        },
{
    if 'a' <= c && c <= 'z' {
        Some((c as u32 - 'a' as u32) as u8)
    } else if c == 'B' {
        Some(26)
    } else if c == 'D' {
        Some(27)
    } else if c == 'G' {
        Some(28)
    } else if c == 'N' {
        Some(29)
    } else if c == 'R' {
        Some(30)
    } else if c == 'T' {
        Some(31)
    } else {
        None
    }
}


/// Bit reversal of a 128-bit value, as `u128::reverse_bits` computes it.
pub open spec fn rev128(x: u128) -> u128 {
    let x1 = ((x >> 1) & 0x5555_5555_5555_5555_5555_5555_5555_5555) | ((x & 0x5555_5555_5555_5555_5555_5555_5555_5555) << 1);
    let x2 = ((x1 >> 2) & 0x3333_3333_3333_3333_3333_3333_3333_3333) | ((x1 & 0x3333_3333_3333_3333_3333_3333_3333_3333) << 2);
    let x3 = ((x2 >> 4) & 0x0f0f_0f0f_0f0f_0f0f_0f0f_0f0f_0f0f_0f0f) | ((x2 & 0x0f0f_0f0f_0f0f_0f0f_0f0f_0f0f_0f0f_0f0f) << 4);
    let x4 = ((x3 >> 8) & 0x00ff_00ff_00ff_00ff_00ff_00ff_00ff_00ff) | ((x3 & 0x00ff_00ff_00ff_00ff_00ff_00ff_00ff_00ff) << 8);
    let x5 = ((x4 >> 16) & 0x0000_ffff_0000_ffff_0000_ffff_0000_ffff) | ((x4 & 0x0000_ffff_0000_ffff_0000_ffff_0000_ffff) << 16);
    let x6 = ((x5 >> 32) & 0x0000_0000_ffff_ffff_0000_0000_ffff_ffff) | ((x5 & 0x0000_0000_ffff_ffff_0000_0000_ffff_ffff) << 32);
    (x6 >> 64) | (x6 << 64)
}

/// Reversal of the low 112 bits of a value below 2^112.
pub open spec fn rev112(x: u128) -> u128 {
    rev128(x) >> 16
}

/// `x * c` modulo 2^112.
pub open spec fn mul_mod_spec(x: u128, c: u128) -> u128 {
    ((x as nat * c as nat) % modulus()) as u128
}

/// The mixing that hides the packed components of an external id.
pub open spec fn mix(x: u128) -> u128 {
    mul_mod_spec(rev112(mul_mod_spec(x, MULTIPLIER_A)), MULTIPLIER_B)
}

/// The inverse of `mix` on values below 2^112.
pub open spec fn unmix(w: u128) -> u128 {
    mul_mod_spec(rev112(mul_mod_spec(w, INVERSE_B)), INVERSE_A)
}

/// The five id components packed big-endian into 112 bits.
pub open spec fn pack(ledger: u32, phase: u8, tx: u32, sub: u8, event: u32) -> u128 {
    ((ledger as u128) << 80u128) | ((phase as u128) << 72u128) | ((tx as u128) << 40u128) | ((
    sub as u128) << 32u128) | (event as u128)
}

/// The five id components read back from a packed value.
pub open spec fn unpack(x: u128) -> (u32, u8, u32, u8, u32) {
    (
        ((x >> 80u128) & 0xffff_ffff) as u32,
        ((x >> 72u128) & 0xff) as u8,
        ((x >> 40u128) & 0xffff_ffff) as u32,
        ((x >> 32u128) & 0xff) as u8,
        (x & 0xffff_ffff) as u32,
    )
}

pub(crate) fn reverse_bits(x: u128) -> (r: u128)
    ensures
        r == rev128(x),
{
    let x1 = ((x >> 1) & 0x5555_5555_5555_5555_5555_5555_5555_5555) | ((x & 0x5555_5555_5555_5555_5555_5555_5555_5555) << 1);
    let x2 = ((x1 >> 2) & 0x3333_3333_3333_3333_3333_3333_3333_3333) | ((x1 & 0x3333_3333_3333_3333_3333_3333_3333_3333) << 2);
    let x3 = ((x2 >> 4) & 0x0f0f_0f0f_0f0f_0f0f_0f0f_0f0f_0f0f_0f0f) | ((x2 & 0x0f0f_0f0f_0f0f_0f0f_0f0f_0f0f_0f0f_0f0f) << 4);
    let x4 = ((x3 >> 8) & 0x00ff_00ff_00ff_00ff_00ff_00ff_00ff_00ff) | ((x3 & 0x00ff_00ff_00ff_00ff_00ff_00ff_00ff_00ff) << 8);
    let x5 = ((x4 >> 16) & 0x0000_ffff_0000_ffff_0000_ffff_0000_ffff) | ((x4 & 0x0000_ffff_0000_ffff_0000_ffff_0000_ffff) << 16);
    let x6 = ((x5 >> 32) & 0x0000_0000_ffff_ffff_0000_0000_ffff_ffff) | ((x5 & 0x0000_0000_ffff_ffff_0000_0000_ffff_ffff) << 32);
    (x6 >> 64) | (x6 << 64)
}

proof fn lemma_rev_bits_twice(y: u128, a1: u128, a2: u128, a3: u128, a4: u128, a5: u128, a6: u128, a7: u128, b0: u128, b1: u128, b2: u128, b3: u128, b4: u128, b5: u128, b6: u128, b7: u128)
    by (bit_vector)
    requires
        y >> 112 == 0,
        a1 == ((y >> 1) & 0x5555_5555_5555_5555_5555_5555_5555_5555) | ((y & 0x5555_5555_5555_5555_5555_5555_5555_5555) << 1),
        a2 == ((a1 >> 2) & 0x3333_3333_3333_3333_3333_3333_3333_3333) | ((a1 & 0x3333_3333_3333_3333_3333_3333_3333_3333) << 2),
        a3 == ((a2 >> 4) & 0x0f0f_0f0f_0f0f_0f0f_0f0f_0f0f_0f0f_0f0f) | ((a2 & 0x0f0f_0f0f_0f0f_0f0f_0f0f_0f0f_0f0f_0f0f) << 4),
        a4 == ((a3 >> 8) & 0x00ff_00ff_00ff_00ff_00ff_00ff_00ff_00ff) | ((a3 & 0x00ff_00ff_00ff_00ff_00ff_00ff_00ff_00ff) << 8),
        a5 == ((a4 >> 16) & 0x0000_ffff_0000_ffff_0000_ffff_0000_ffff) | ((a4 & 0x0000_ffff_0000_ffff_0000_ffff_0000_ffff) << 16),
        a6 == ((a5 >> 32) & 0x0000_0000_ffff_ffff_0000_0000_ffff_ffff) | ((a5 & 0x0000_0000_ffff_ffff_0000_0000_ffff_ffff) << 32),
        a7 == (a6 >> 64) | (a6 << 64),
        b0 == a7 >> 16,
        b1 == ((b0 >> 1) & 0x5555_5555_5555_5555_5555_5555_5555_5555) | ((b0 & 0x5555_5555_5555_5555_5555_5555_5555_5555) << 1),
        b2 == ((b1 >> 2) & 0x3333_3333_3333_3333_3333_3333_3333_3333) | ((b1 & 0x3333_3333_3333_3333_3333_3333_3333_3333) << 2),
        b3 == ((b2 >> 4) & 0x0f0f_0f0f_0f0f_0f0f_0f0f_0f0f_0f0f_0f0f) | ((b2 & 0x0f0f_0f0f_0f0f_0f0f_0f0f_0f0f_0f0f_0f0f) << 4),
        b4 == ((b3 >> 8) & 0x00ff_00ff_00ff_00ff_00ff_00ff_00ff_00ff) | ((b3 & 0x00ff_00ff_00ff_00ff_00ff_00ff_00ff_00ff) << 8),
        b5 == ((b4 >> 16) & 0x0000_ffff_0000_ffff_0000_ffff_0000_ffff) | ((b4 & 0x0000_ffff_0000_ffff_0000_ffff_0000_ffff) << 16),
        b6 == ((b5 >> 32) & 0x0000_0000_ffff_ffff_0000_0000_ffff_ffff) | ((b5 & 0x0000_0000_ffff_ffff_0000_0000_ffff_ffff) << 32),
        b7 == (b6 >> 64) | (b6 << 64),
    ensures
        b7 >> 16 == y,
{
}

proof fn lemma_rev112_twice(y: u128)
    requires
        y < 0x1_0000_0000_0000_0000_0000_0000_0000,
    ensures
        rev112(rev112(y)) == y,
        rev112(y) < 0x1_0000_0000_0000_0000_0000_0000_0000,
{
    assert(y >> 112 == 0) by (bit_vector)
        requires
            y < 0x1_0000_0000_0000_0000_0000_0000_0000u128,
    ;
    let a1 = ((y >> 1) & 0x5555_5555_5555_5555_5555_5555_5555_5555) | ((y & 0x5555_5555_5555_5555_5555_5555_5555_5555) << 1);
    let a2 = ((a1 >> 2) & 0x3333_3333_3333_3333_3333_3333_3333_3333) | ((a1 & 0x3333_3333_3333_3333_3333_3333_3333_3333) << 2);
    let a3 = ((a2 >> 4) & 0x0f0f_0f0f_0f0f_0f0f_0f0f_0f0f_0f0f_0f0f) | ((a2 & 0x0f0f_0f0f_0f0f_0f0f_0f0f_0f0f_0f0f_0f0f) << 4);
    let a4 = ((a3 >> 8) & 0x00ff_00ff_00ff_00ff_00ff_00ff_00ff_00ff) | ((a3 & 0x00ff_00ff_00ff_00ff_00ff_00ff_00ff_00ff) << 8);
    let a5 = ((a4 >> 16) & 0x0000_ffff_0000_ffff_0000_ffff_0000_ffff) | ((a4 & 0x0000_ffff_0000_ffff_0000_ffff_0000_ffff) << 16);
    let a6 = ((a5 >> 32) & 0x0000_0000_ffff_ffff_0000_0000_ffff_ffff) | ((a5 & 0x0000_0000_ffff_ffff_0000_0000_ffff_ffff) << 32);
    let a7 = (a6 >> 64) | (a6 << 64);
    let b0 = a7 >> 16;
    let b1 = ((b0 >> 1) & 0x5555_5555_5555_5555_5555_5555_5555_5555) | ((b0 & 0x5555_5555_5555_5555_5555_5555_5555_5555) << 1);
    let b2 = ((b1 >> 2) & 0x3333_3333_3333_3333_3333_3333_3333_3333) | ((b1 & 0x3333_3333_3333_3333_3333_3333_3333_3333) << 2);
    let b3 = ((b2 >> 4) & 0x0f0f_0f0f_0f0f_0f0f_0f0f_0f0f_0f0f_0f0f) | ((b2 & 0x0f0f_0f0f_0f0f_0f0f_0f0f_0f0f_0f0f_0f0f) << 4);
    let b4 = ((b3 >> 8) & 0x00ff_00ff_00ff_00ff_00ff_00ff_00ff_00ff) | ((b3 & 0x00ff_00ff_00ff_00ff_00ff_00ff_00ff_00ff) << 8);
    let b5 = ((b4 >> 16) & 0x0000_ffff_0000_ffff_0000_ffff_0000_ffff) | ((b4 & 0x0000_ffff_0000_ffff_0000_ffff_0000_ffff) << 16);
    let b6 = ((b5 >> 32) & 0x0000_0000_ffff_ffff_0000_0000_ffff_ffff) | ((b5 & 0x0000_0000_ffff_ffff_0000_0000_ffff_ffff) << 32);
    let b7 = (b6 >> 64) | (b6 << 64);
    lemma_rev_bits_twice(y, a1, a2, a3, a4, a5, a6, a7, b0, b1, b2, b3, b4, b5, b6, b7);
    assert(b0 < 0x1_0000_0000_0000_0000_0000_0000_0000) by (bit_vector)
        requires
            b0 == a7 >> 16,
    ;
}


pub(crate) fn mul_mod(x: u128, c: u128) -> (r: u128)
    ensures
        r == mul_mod_spec(x, c),
{
    let v = x.wrapping_mul(c);
    let r = v & MOD_MASK;
    proof {
        assert(r == v % 0x1_0000_0000_0000_0000_0000_0000_0000) by (bit_vector)
            requires
                r == v & 0xffff_ffff_ffff_ffff_ffff_ffff_ffff_u128,
        ;
        let p = x as nat * c as nat;
        vstd::arithmetic::div_mod::lemma_mod_mod(p as int, modulus() as int, 0x1_0000);
        assert(modulus() * 0x1_0000 == 0x1_0000_0000_0000_0000_0000_0000_0000_0000);
    }
    r
}

proof fn lemma_mul_inverse(y: u128, c: u128, ci: u128)
    requires
        (y as nat) < modulus(),
        (c as nat * ci as nat) % modulus() == 1,
    ensures
        mul_mod_spec(mul_mod_spec(y, c), ci) == y,
{
    let m = modulus() as int;
    let yc = y as int * c as int;
    vstd::arithmetic::div_mod::lemma_mul_mod_noop_left(yc, ci as int, m);
    vstd::arithmetic::mul::lemma_mul_is_associative(y as int, c as int, ci as int);
    vstd::arithmetic::div_mod::lemma_mul_mod_noop_right(y as int, c as int * ci as int, m);
    vstd::arithmetic::div_mod::lemma_small_mod(y as nat, m as nat);
    assert(0 <= yc % m < m);
}

/// Unmixing undoes mixing on every value below 2^112.
pub proof fn lemma_unmix_mix(x: u128)
    requires
        (x as nat) < modulus(),
    ensures
        unmix(mix(x)) == x,
        (mix(x) as nat) < modulus(),
{
    assert((MULTIPLIER_A as nat * INVERSE_A as nat) % modulus() == 1);
    assert((MULTIPLIER_B as nat * INVERSE_B as nat) % modulus() == 1);
    let y1 = mul_mod_spec(x, MULTIPLIER_A);
    let y2 = rev112(y1);
    lemma_rev112_twice(y1);
    lemma_mul_inverse(y2, MULTIPLIER_B, INVERSE_B);
    lemma_mul_inverse(x, MULTIPLIER_A, INVERSE_A);
}

proof fn lemma_pack_bits(l: u128, p: u128, t: u128, s: u128, e: u128, x: u128)
    by (bit_vector)
    requires
        l < 0x1_0000_0000,
        p < 0x100,
        t < 0x1_0000_0000,
        s < 0x100,
        e < 0x1_0000_0000,
        x == (l << 80u128) | (p << 72u128) | (t << 40u128) | (s << 32u128) | e,
    ensures
        (x >> 80u128) & 0xffff_ffff == l,
        (x >> 72u128) & 0xff == p,
        (x >> 40u128) & 0xffff_ffff == t,
        (x >> 32u128) & 0xff == s,
        x & 0xffff_ffff == e,
        x < 0x1_0000_0000_0000_0000_0000_0000_0000,
{
}

/// Unpacking recovers what was packed; packed values fit in 112 bits.
pub proof fn lemma_unpack_pack(ledger: u32, phase: u8, tx: u32, sub: u8, event: u32)
    ensures
        unpack(pack(ledger, phase, tx, sub, event)) == (ledger, phase, tx, sub, event),
        (pack(ledger, phase, tx, sub, event) as nat) < modulus(),
{
    lemma_pack_bits(
        ledger as u128,
        phase as u128,
        tx as u128,
        sub as u128,
        event as u128,
        pack(ledger, phase, tx, sub, event),
    );
}

pub(crate) fn pack_id(ledger: u32, phase: u8, tx: u32, sub: u8, event: u32) -> (r: u128)
    ensures
        r == pack(ledger, phase, tx, sub, event),
{
    ((ledger as u128) << 80u128) | ((phase as u128) << 72u128) | ((tx as u128) << 40u128) | ((
    sub as u128) << 32u128) | (event as u128)
}

pub(crate) fn unpack_id(x: u128) -> (r: (u32, u8, u32, u8, u32))
    ensures
        r == unpack(x),
{
    (
        ((x >> 80u128) & 0xffff_ffff) as u32,
        ((x >> 72u128) & 0xff) as u8,
        ((x >> 40u128) & 0xffff_ffff) as u32,
        ((x >> 32u128) & 0xff) as u8,
        (x & 0xffff_ffff) as u32,
    )
}

/// The `i`-th 5-bit digit of a 112-bit value: 22 full digits from the top,
/// then the last two bits padded with three zero bits.
pub open spec fn b32_digit(w: u128, i: int) -> u128 {
    if i < 22 {
        (w >> ((107 - 5 * i) as u128)) & 31
    } else {
        (w & 3) << 3u128
    }
}

/// The 23 letters that spell a 112-bit value.
pub open spec fn b32_text(w: u128) -> Seq<char> {
    Seq::new(23, |i: int| b32_char_spec(b32_digit(w, i) as nat))
}

/// Whether `p` is 23 letters of the id alphabet.
pub open spec fn b32_valid(p: Seq<char>) -> bool {
    p.len() == 23 && forall|i: int| 0 <= i < 23 ==> (#[trigger] b32_value_spec(p[i])).is_some()
}

/// The first `k` digits of `p` read as a big-endian base-32 number.
pub open spec fn b32_fold(p: Seq<char>, k: nat) -> u128
    decreases k,
{
    if k == 0 {
        0
    } else {
        (b32_fold(p, (k - 1) as nat) << 5u128) | (b32_value_spec(p[k - 1]).unwrap() as u128)
    }
}

/// The 112-bit value spelled by 23 letters (the last letter gives two bits).
pub open spec fn b32_decode_spec(p: Seq<char>) -> Option<u128> {
    if b32_valid(p) {
        Some((b32_fold(p, 22) << 2u128) | ((b32_value_spec(p[22]).unwrap() as u128) >> 3u128))
    } else {
        None
    }
}

proof fn lemma_digit_small(w: u128, i: int)
    requires
        0 <= i < 23,
    ensures
        b32_digit(w, i) < 32,
{
    if i < 22 {
        let s = (107 - 5 * i) as u128;
        assert((w >> s) & 31 < 32) by (bit_vector);
    } else {
        assert((w & 3) << 3u128 < 32) by (bit_vector);
    }
}

proof fn lemma_b32_step(w: u128, s: u128)
    by (bit_vector)
    requires
        2 <= s <= 107,
        w >> 112u128 == 0,
    ensures
        ((w >> (s + 5)) << 5u128) | ((w >> s) & 31) == w >> s,
{
}

proof fn lemma_b32_fold(w: u128, k: nat)
    requires
        (w as nat) < modulus(),
        k <= 22,
    ensures
        b32_fold(b32_text(w), k) == w >> ((112 - 5 * k) as u128),
    decreases k,
{
    assert(w >> 112u128 == 0) by (bit_vector)
        requires
            w < 0x1_0000_0000_0000_0000_0000_0000_0000u128,
    ;
    if k > 0 {
        lemma_b32_fold(w, (k - 1) as nat);
        let i = k - 1;
        lemma_digit_small(w, i);
        lemma_b32_char_value(b32_digit(w, i) as nat);
        let s = (107 - 5 * i) as u128;
        lemma_b32_step(w, s);
        assert(s + 5 == (112 - 5 * (k - 1)) as u128);
    }
}

/// Reading the letters of a value below 2^112 gives the value back.
pub proof fn lemma_b32_round_trip(w: u128)
    requires
        (w as nat) < modulus(),
    ensures
        b32_valid(b32_text(w)),
        b32_decode_spec(b32_text(w)) == Some(w),
{
    let p = b32_text(w);
    assert forall|i: int| 0 <= i < 23 implies (#[trigger] b32_value_spec(p[i])).is_some() by {
        lemma_digit_small(w, i);
        lemma_b32_char_value(b32_digit(w, i) as nat);
    }
    lemma_b32_fold(w, 22);
    lemma_digit_small(w, 22);
    lemma_b32_char_value(b32_digit(w, 22) as nat);
    let f = b32_fold(p, 22);
    assert(((w >> 2u128) << 2u128) | (((w & 3) << 3u128) >> 3u128) == w) by (bit_vector);
}

/// Spell a 112-bit value in 23 letters of the id alphabet.
pub(crate) fn base32_encode(w: u128) -> (r: String)
    ensures
        r@ == b32_text(w),
{
    let mut r = String::new();
    let mut i: u32 = 0;
    while i < 22
        invariant
            i <= 22,
            r@ == b32_text(w).take(i as int),
        decreases 22 - i,
    {
        let sh: u128 = (107 - 5 * i) as u128;
        let d = (w >> sh) & 31;
        assert(d < 32) by (bit_vector)
            requires
                d == (w >> sh) & 31,
        ;
        push_char(&mut r, b32_char(d as u8));
        i = i + 1;
        assert(r@ =~= b32_text(w).take(i as int));
    }
    let d = (w & 3) << 3u128;
    assert(d < 32) by (bit_vector)
        requires
            d == (w & 3) << 3u128,
    ;
    push_char(&mut r, b32_char(d as u8));
    assert(r@ =~= b32_text(w));
    r
}

/// Read 23 letters `cs[lo..lo + 23]` of the id alphabet as a 112-bit value.
pub(crate) fn base32_decode(cs: &Vec<char>, lo: usize) -> (r: Option<u128>)
    requires
        lo + 23 == cs@.len(),
    ensures
        r == b32_decode_spec(cs@.skip(lo as int)),
{
    let ghost p = cs@.skip(lo as int);
    let n = cs.len();
    let mut acc: u128 = 0;
    let mut i: usize = 0;
    while i < 22
        invariant
            i <= 22,
            lo + 23 == cs@.len(),
            n == cs@.len(),
            p == cs@.skip(lo as int),
            forall|j: int| 0 <= j < i ==> (#[trigger] b32_value_spec(p[j])).is_some(),
            acc == b32_fold(p, i as nat),
        decreases 22 - i,
    {
        match b32_value(cs[lo + i]) {
            Some(v) => {
                acc = (acc << 5u128) | (v as u128);
            },
            None => {
                assert(b32_value_spec(p[i as int]).is_none());
                return None;
            },
        }
        i = i + 1;
    }
    match b32_value(cs[lo + 22]) {
        Some(v) => {
            assert(b32_valid(p));
            Some((acc << 2u128) | ((v as u128) >> 3u128))
        },
        None => {
            assert(b32_value_spec(p[22]).is_none());
            None
        },
    }
}

/// The external id of packed components: `evt_` and the letters of their mixing.
pub open spec fn external_id(ledger: u32, phase: u8, tx: u32, sub: u8, event: u32) -> Seq<char> {
    id_prefix() + b32_text(mix(pack(ledger, phase, tx, sub, event)))
}

/// What `decode_event_id` yields: the components behind an external id, when the
/// phase is at most 2 and the sub-phase at most 1.
pub open spec fn decode_external(s: Seq<char>) -> Option<(u32, u8, u32, u8, u32)> {
    if s.len() >= 4 && s.take(4) == id_prefix() {
        match b32_decode_spec(s.skip(4)) {
            Some(w) => {
                let t = unpack(unmix(w));
                if t.1 > 2 || t.3 > 1 {
                    None
                } else {
                    Some(t)
                }
            },
            None => None,
        }
    } else {
        None
    }
}

/// Encode id components into an opaque external id of 27 characters.
pub fn encode_event_id(ledger_sequence: u32, phase: u8, tx_index: u32, sub: u8, event_index: u32) -> (r: String)
    ensures
        r@ == external_id(ledger_sequence, phase, tx_index, sub, event_index),
        r@.len() == 27,
        r@.take(4) == id_prefix(),
        b32_valid(r@.skip(4)),
{
    let x = pack_id(ledger_sequence, phase, tx_index, sub, event_index);
    let y = mul_mod(x, MULTIPLIER_A);
    let z = reverse_bits(y) >> 16u128;
    let w = mul_mod(z, MULTIPLIER_B);
    let payload = base32_encode(w);
    let mut r = String::new();
    push_char(&mut r, 'e');
    push_char(&mut r, 'v');
    push_char(&mut r, 't');
    push_char(&mut r, '_');
    r.append(payload.as_str());
    proof {
        lemma_unpack_pack(ledger_sequence, phase, tx_index, sub, event_index);
        lemma_unmix_mix(x);
        lemma_b32_round_trip(w);
        assert(r@ =~= external_id(ledger_sequence, phase, tx_index, sub, event_index));
        assert(r@.skip(4) =~= b32_text(w));
        assert(r@.take(4) =~= id_prefix());
    }
    r
}

/// Decode an external id back into its components.
pub fn decode_event_id(id: &str) -> (r: Option<(u32, u8, u32, u8, u32)>)
    ensures
        r == decode_external(id@),
{
    let cs = chars_of(id);
    if cs.len() < 4 || cs[0] != 'e' || cs[1] != 'v' || cs[2] != 't' || cs[3] != '_' {
        assert(cs@.len() < 4 || cs@.take(4) != id_prefix()) by {
            if cs@.len() >= 4 && cs@.take(4) == id_prefix() {
                assert(cs@[0] == cs@.take(4)[0]);
                assert(cs@[1] == cs@.take(4)[1]);
                assert(cs@[2] == cs@.take(4)[2]);
                assert(cs@[3] == cs@.take(4)[3]);
            }
        }
        return None;
    }
    assert(cs@.take(4) =~= id_prefix());
    if cs.len() != 27 {
        return None;
    }
    let w = match base32_decode(&cs, 4) {
        Some(w) => w,
        None => return None,
    };
    let y = mul_mod(w, INVERSE_B);
    let z = reverse_bits(y) >> 16u128;
    let x = mul_mod(z, INVERSE_A);
    let t = unpack_id(x);
    if t.1 > 2 || t.3 > 1 {
        return None;
    }
    Some(t)
}

/// Decoding an encoded id gives back its components.
pub proof fn lemma_external_id_round_trip(ledger: u32, phase: u8, tx: u32, sub: u8, event: u32)
    requires
        phase <= 2,
        sub <= 1,
    ensures
        decode_external(external_id(ledger, phase, tx, sub, event)) == Some((ledger, phase, tx, sub, event)),
        external_id(ledger, phase, tx, sub, event).len() == 27,
        b32_valid(external_id(ledger, phase, tx, sub, event).skip(4)),
{
    let x = pack(ledger, phase, tx, sub, event);
    lemma_unpack_pack(ledger, phase, tx, sub, event);
    lemma_unmix_mix(x);
    lemma_b32_round_trip(mix(x));
    let s = external_id(ledger, phase, tx, sub, event);
    assert(s.take(4) =~= id_prefix());
    assert(s.skip(4) =~= b32_text(mix(x)));
}


/// The phase whose `(phase, sub)` pair this is, if any.
pub open spec fn phase_of(phase: u8, sub: u8) -> Option<EventPhase> {
    if phase == 0 && sub == 0 {
        Some(EventPhase::BeforeAllTxs)
    } else if phase == 1 && sub == 0 {
        Some(EventPhase::Operation)
    } else if phase == 1 && sub == 1 {
        Some(EventPhase::AfterTx)
    } else if phase == 2 && sub == 0 {
        Some(EventPhase::AfterAllTxs)
    } else {
        None
    }
}

/// Convert an internal event id to an opaque external id.
pub fn to_external_id(internal_id: &str) -> (r: Option<String>)
    ensures
        match parse_internal(internal_id@) {
            Some(t) => r.is_some() && r.unwrap()@ == external_id(t.0, t.1, t.2, t.3, t.4),
            None => r.is_none(),
        },
{
    match parse_event_id(internal_id) {
        Some((ledger, phase, tx, sub, event)) => Some(encode_event_id(ledger, phase, tx, sub, event)),
        None => None,
    }
}

/// Convert an opaque external id to an internal id.
pub fn to_internal_id(external_id: &str) -> (r: Option<String>)
    ensures
        match decode_external(external_id@) {
            Some(t) => match phase_of(t.1, t.3) {
                Some(ph) => r.is_some() && r.unwrap()@ == internal_id(t.0, t.1, t.2, t.3, t.4),
                None => r.is_none(),
            },
            None => r.is_none(),
        },
{
    let (ledger, phase, tx, sub, event) = match decode_event_id(external_id) {
        Some(t) => t,
        None => return None,
    };
    let event_phase = if phase == 0 && sub == 0 {
        EventPhase::BeforeAllTxs
    } else if phase == 1 && sub == 0 {
        EventPhase::Operation
    } else if phase == 1 && sub == 1 {
        EventPhase::AfterTx
    } else if phase == 2 && sub == 0 {
        EventPhase::AfterAllTxs
    } else {
        return None;
    };
    Some(event_id(ledger, event_phase, tx, event))
}

/// An internal id taken to its external form and back is unchanged.
pub proof fn lemma_id_conversion_round_trip(ledger: u32, phase: EventPhase, tx: u32, event: u32)
    ensures
        ({
            let (p, s) = phase.phase_sub();
            let i = internal_id(ledger, p, tx, s, event);
            &&& parse_internal(i) == Some((ledger, p, tx, s, event))
            &&& decode_external(external_id(ledger, p, tx, s, event)) == Some((ledger, p, tx, s, event))
            &&& phase_of(p, s) == Some(phase)
        }),
{
    let (p, s) = phase.phase_sub();
    lemma_internal_id_round_trip(ledger, p, tx, s, event);
    lemma_external_id_round_trip(ledger, p, tx, s, event);
}

} // verus!
