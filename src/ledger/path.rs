//! Object-store layout: where the record batch holding a ledger lives.
use vstd::prelude::*;
use crate::text::{dec, push_char, push_dec_padded};

verus! {

/// Layout of the remote store, read from its configuration document.
#[derive(Debug, Clone)]
pub struct StoreConfig {
    pub network_passphrase: String,
    pub ledgers_per_batch: u32,
    pub batches_per_partition: u32,
    pub compression: String,
    pub version: String,
}

/// The uppercase hexadecimal character of a value below 16.
pub open spec fn hex_char(d: nat) -> char {
    if d == 0 {
        '0'
    } else if d == 1 {
        '1'
    } else if d == 2 {
        '2'
    } else if d == 3 {
        '3'
    } else if d == 4 {
        '4'
    } else if d == 5 {
        '5'
    } else if d == 6 {
        '6'
    } else if d == 7 {
        '7'
    } else if d == 8 {
        '8'
    } else if d == 9 {
        '9'
    } else if d == 10 {
        'A'
    } else if d == 11 {
        'B'
    } else if d == 12 {
        'C'
    } else if d == 13 {
        'D'
    } else if d == 14 {
        'E'
    } else {
        'F'
    }
}

/// Eight uppercase hexadecimal digits of `n`.
pub open spec fn hex8(n: u32) -> Seq<char> {
    Seq::new(8, |i: int| hex_char(((n >> ((28 - 4 * i) as u32)) & 15) as nat))
}

/// `a--b-c` with `a` in hex and `b`, `c` in decimal.
pub open spec fn range_name(prefix: u32, first: u32, last: u32) -> Seq<char> {
    hex8(prefix) + seq!['-', '-'] + dec(first as nat) + seq!['-'] + dec(last as nat)
}

/// The extension of record batch files.
pub open spec fn batch_suffix() -> Seq<char> {
    seq!['.', 'x', 'd', 'r', '.', 'z', 's', 't']
}

/// Whether the layout can place `ledger` without any count exceeding `u32`.
pub open spec fn layout_fits(lpb: u32, bpp: u32, ledger: u32) -> bool {
    &&& lpb > 0
    &&& bpp > 0
    &&& lpb * bpp <= u32::MAX
    &&& (ledger - ledger as int % (lpb * bpp)) + lpb * bpp - 1 <= u32::MAX
}

/// The path of the batch file holding `ledger`, under its partition directory
/// unless partitions and batches both hold a single ledger.
pub open spec fn ledger_path(lpb: u32, bpp: u32, ledger: u32) -> Seq<char> {
    let batch_start = (ledger - ledger % lpb) as u32;
    let batch_end = (batch_start + lpb - 1) as u32;
    let psize = (lpb * bpp) as u32;
    let partition_start = (ledger - ledger % psize) as u32;
    let partition_end = (partition_start + psize - 1) as u32;
    let partition_dir = range_name((u32::MAX - partition_start) as u32, partition_start, partition_end);
    let batch_file = if lpb == 1 {
        hex8((u32::MAX - batch_start) as u32) + seq!['-', '-'] + dec(batch_start as nat) + batch_suffix()
    } else {
        range_name((u32::MAX - batch_start) as u32, batch_start, batch_end) + batch_suffix()
    };
    if bpp == 1 && lpb == 1 {
        batch_file
    } else {
        partition_dir + seq!['/'] + batch_file
    }
}

proof fn lemma_mod_le(x: nat, m: nat)
    requires
        m > 0,
    ensures
        x % m <= x,
{
    vstd::arithmetic::div_mod::lemma_fundamental_div_mod(x as int, m as int);
    assert(x / m >= 0) by (nonlinear_arith)
        requires
            m > 0,
    ;
    assert(m * (x / m) >= 0) by (nonlinear_arith)
        requires
            m > 0,
            x / m >= 0,
    ;
}

proof fn lemma_batch_within_partition(x: nat, lpb: nat, bpp: nat)
    requires
        lpb > 0,
        bpp > 0,
    ensures
        x % (lpb * bpp) - x % lpb + lpb <= lpb * bpp,
{
    let p = lpb * bpp;
    assert(lpb * bpp > 0) by (nonlinear_arith)
        requires
            lpb > 0,
            bpp > 0,
    ;
    let r = x % p;
    vstd::arithmetic::div_mod::lemma_mod_bound(x as int, p as int);
    vstd::arithmetic::div_mod::lemma_mod_mod(x as int, lpb as int, bpp as int);
    vstd::arithmetic::div_mod::lemma_fundamental_div_mod(r as int, lpb as int);
    let q = r / lpb;
    assert(q < bpp) by (nonlinear_arith)
        requires
            r == lpb * q + r % lpb,
            r % lpb >= 0,
            r < lpb * bpp,
            lpb > 0,
    ;
    assert(lpb * q + lpb <= lpb * bpp) by (nonlinear_arith)
        requires
            q < bpp,
            q >= 0,
            lpb > 0,
    ;
}

fn hex_digit(d: u32) -> (c: char)
    requires
        d < 16,
    ensures
        c == hex_char(d as nat),
{
    if d == 0 {
        '0'
    } else if d == 1 {
        '1'
    } else if d == 2 {
        '2'
    } else if d == 3 {
        '3'
    } else if d == 4 {
        '4'
    } else if d == 5 {
        '5'
    } else if d == 6 {
        '6'
    } else if d == 7 {
        '7'
    } else if d == 8 {
        '8'
    } else if d == 9 {
        '9'
    } else if d == 10 {
        'A'
    } else if d == 11 {
        'B'
    } else if d == 12 {
        'C'
    } else if d == 13 {
        'D'
    } else if d == 14 {
        'E'
    } else {
        'F'
    }
}

fn push_hex8(s: &mut String, n: u32)
    ensures
        final(s)@ == old(s)@ + hex8(n),
{
    let ghost start = s@;
    let mut i: u32 = 0;
    while i < 8
        invariant
            i <= 8,
            s@ == start + hex8(n).take(i as int),
        decreases 8 - i,
    {
        let sh: u32 = 28 - 4 * i;
        let d = (n >> sh) & 15;
        assert(d < 16) by (bit_vector)
            requires
                d == (n >> sh) & 15,
        ;
        push_char(s, hex_digit(d));
        i = i + 1;
        assert(s@ =~= start + hex8(n).take(i as int));
    }
    assert(hex8(n).take(8) =~= hex8(n));
}

fn push_dec(s: &mut String, n: u32)
    ensures
        final(s)@ == old(s)@ + dec(n as nat),
{
    push_dec_padded(s, n, 0);
    proof {
        crate::text::lemma_dec(n as nat);
    }
}

fn push_range_name(s: &mut String, prefix: u32, first: u32, last: u32)
    ensures
        final(s)@ == old(s)@ + range_name(prefix, first, last),
{
    let ghost start = s@;
    push_hex8(s, prefix);
    push_char(s, '-');
    push_char(s, '-');
    push_dec(s, first);
    push_char(s, '-');
    push_dec(s, last);
    assert(s@ =~= start + range_name(prefix, first, last));
}

fn push_batch_suffix(s: &mut String)
    ensures
        final(s)@ == old(s)@ + batch_suffix(),
{
    let ghost start = s@;
    push_char(s, '.');
    push_char(s, 'x');
    push_char(s, 'd');
    push_char(s, 'r');
    push_char(s, '.');
    push_char(s, 'z');
    push_char(s, 's');
    push_char(s, 't');
    assert(s@ =~= start + batch_suffix());
}

impl StoreConfig {
    /// Whether the layout can place `ledger_sequence` (what `path_for_ledger` needs).
    pub fn can_place(&self, ledger_sequence: u32) -> (r: bool)
        ensures
            r == layout_fits(self.ledgers_per_batch, self.batches_per_partition, ledger_sequence),
    {
        let lpb = self.ledgers_per_batch as u64;
        let bpp = self.batches_per_partition as u64;
        if lpb == 0 || bpp == 0 {
            return false;
        }
        proof {
            vstd::arithmetic::mul::lemma_mul_upper_bound(lpb as int, 0xffff_ffff, bpp as int, 0xffff_ffff);
        }
        let size = lpb * bpp;
        if size > 0xffff_ffff {
            return false;
        }
        assert(size > 0) by (nonlinear_arith)
            requires
                size == lpb * bpp,
                lpb > 0,
                bpp > 0,
        ;
        let l = ledger_sequence as u64;
        proof {
            lemma_mod_le(l as nat, size as nat);
        }
        let start = l - l % size;
        start + size - 1 <= 0xffff_ffff
    }

    /// The object path, relative to the store root, of the batch file holding `ledger_sequence`.
    pub fn path_for_ledger(&self, ledger_sequence: u32) -> (r: String)
        requires
            layout_fits(self.ledgers_per_batch, self.batches_per_partition, ledger_sequence),
        ensures
            r@ == ledger_path(self.ledgers_per_batch, self.batches_per_partition, ledger_sequence),
    {
        let lpb = self.ledgers_per_batch;
        let bpp = self.batches_per_partition;
        proof {
            lemma_mod_le(ledger_sequence as nat, lpb as nat);
            vstd::arithmetic::mul::lemma_mul_increases(bpp as int, lpb as int);
            lemma_mod_le(ledger_sequence as nat, (lpb * bpp) as nat);
            vstd::arithmetic::div_mod::lemma_mod_mod(ledger_sequence as int, lpb as int, bpp as int);
            vstd::arithmetic::div_mod::lemma_mod_bound(ledger_sequence as int, (lpb * bpp) as int);
            vstd::arithmetic::div_mod::lemma_mod_bound(ledger_sequence as int, lpb as int);
            lemma_mod_le((ledger_sequence as nat % (lpb * bpp) as nat), lpb as nat);
        }
        let batch_start = ledger_sequence - (ledger_sequence % lpb);
        let partition_size = lpb * bpp;
        let partition_start = ledger_sequence - (ledger_sequence % partition_size);
        let partition_end = partition_start + (partition_size - 1);
        assert(batch_start >= partition_start);
        proof {
            lemma_batch_within_partition(ledger_sequence as nat, lpb as nat, bpp as nat);
        }
        let batch_end = batch_start + (lpb - 1);
        let partition_prefix = 0xFFFF_FFFFu32 - partition_start;
        let batch_prefix = 0xFFFF_FFFFu32 - batch_start;
        let mut r = String::new();
        if !(bpp == 1 && lpb == 1) {
            push_range_name(&mut r, partition_prefix, partition_start, partition_end);
            push_char(&mut r, '/');
        }
        if lpb == 1 {
            push_hex8(&mut r, batch_prefix);
            push_char(&mut r, '-');
            push_char(&mut r, '-');
            push_dec(&mut r, batch_start);
        } else {
            push_range_name(&mut r, batch_prefix, batch_start, batch_end);
        }
        push_batch_suffix(&mut r);
        assert(r@ =~= ledger_path(lpb, bpp, ledger_sequence));
        r
    }
}


impl Default for StoreConfig {
    /// The layout of the public network bucket: one ledger per batch, 64000 batches per partition.
    fn default() -> (r: StoreConfig)
        ensures
            r.ledgers_per_batch == 1,
            r.batches_per_partition == 64000,
            r.network_passphrase@ == "Public Global Stellar Network ; September 2015"@,
            r.compression@ == "zstd"@,
            r.version@ == "0.1.0"@,
    {
        StoreConfig {
            network_passphrase: "Public Global Stellar Network ; September 2015".to_string(),
            ledgers_per_batch: 1,
            batches_per_partition: 64000,
            compression: "zstd".to_string(),
            version: "0.1.0".to_string(),
        }
    }
}

} // verus!
