//! The two reduction tables that make one digest update cost O(1).
use vstd::prelude::*;
use crate::poly::{
    append_byte, append_zeros, deg, exit_entry, lemma_deg_range, lemma_deg_top_bit, lemma_deg_unique,
    lemma_poly_mod_deg, lemma_reduce_step, mod_entry, poly_mod,
};
use crate::{POLYNOMIAL, POLYNOMIAL_DEGREE, WINSIZE};

verus! {

/// Exit table entry of `b` for the fixed polynomial and window width.
pub open spec fn exit_table(b: u8) -> u64 {
    exit_entry(b, POLYNOMIAL, WINSIZE as nat)
}

/// Modulo table entry of `b` for the fixed polynomial.
pub open spec fn mod_table(b: u8) -> u64 {
    mod_entry(b, POLYNOMIAL)
}

/// The fixed polynomial has degree 53.
pub proof fn lemma_polynomial_degree()
    ensures
        deg(POLYNOMIAL) == POLYNOMIAL_DEGREE,
{
    assert(0x3DA3358B4DC173u64 >> 53u64 == 1) by (bit_vector);
    lemma_deg_unique(POLYNOMIAL, 53);
}

/// A polynomial of degree below 53 fits in 53 bits.
pub proof fn lemma_below_degree(r: u64)
    requires
        deg(r) < 53,
    ensures
        r < 0x20000000000000,
{
    if r != 0 {
        lemma_deg_top_bit(r);
        let e = deg(r) as u64;
        assert(r >> e == 1 && e < 53 ==> r < 0x20000000000000) by (bit_vector);
    }
}

/// Exit entries are reduced: they fit under the degree of the polynomial.
pub proof fn lemma_exit_table_bound(b: u8)
    ensures
        exit_table(b) < 0x20000000000000,
{
    lemma_polynomial_degree();
    let h = append_zeros(append_byte(0, b, POLYNOMIAL), POLYNOMIAL, (WINSIZE - 2) as nat);
    assert(exit_table(b) == poly_mod((h << 8u64) | 0u64, POLYNOMIAL));
    lemma_poly_mod_deg((h << 8u64) | 0u64, POLYNOMIAL);
    lemma_below_degree(exit_table(b));
}

/// A modulo entry holds `b` itself above bit 53.
pub proof fn lemma_mod_table_top(b: u8)
    ensures
        mod_table(b) >> 53u64 == b as u64,
{
    lemma_polynomial_degree();
    let v = (b as u64) << 53u64;
    let r = poly_mod(v, POLYNOMIAL);
    lemma_poly_mod_deg(v, POLYNOMIAL);
    lemma_below_degree(r);
    assert(mod_table(b) == r | v);
    assert(r < 0x20000000000000 && b < 256 ==> (r | ((b as u64) << 53u64)) >> 53u64 == b as u64)
        by (bit_vector);
}

/// The exit and modulo tables of the fixed polynomial and window width.
pub struct Table {
    modt: [u64; 256],
    outt: [u64; 256],
}

impl Table {
    /// The tables hold the entries of the fixed polynomial and window width.
    pub closed spec fn wf(&self) -> bool {
        forall|b: int|
            0 <= b < 256 ==> self.outt[b] == exit_table(b as u8) && self.modt[b] == mod_table(
                b as u8,
            )
    }

    /// Builds both tables for the fixed polynomial and window width.
    pub fn new() -> (t: Table)
        ensures
            t.wf(),
    {
        let mut t = Table { modt: [0u64; 256], outt: [0u64; 256] };
        t.outt = Table::generate_outt(POLYNOMIAL, WINSIZE);
        t.modt = Table::generate_modt(POLYNOMIAL);
        t
    }

    /// Exit table entry of byte `b`.
    pub fn outt_at(&self, b: u8) -> (r: u64)
        requires
            self.wf(),
        ensures
            r == exit_table(b),
    {
        self.outt[b as usize]
    }

    /// Modulo table entry at index `i`.
    pub fn modt_at(&self, i: u64) -> (r: u64)
        requires
            self.wf(),
            i < 256,
        ensures
            r == mod_table(i as u8),
    {
        self.modt[i as usize]
    }

    /// Degree of `p`: index of its highest set bit, or -1 when `p` is zero.
    pub fn deg(p: u64) -> (r: i64)
        ensures
            r == deg(p),
    {
        let mut mask: u64 = 0x8000000000000000u64;
        assert(0x8000000000000000u64 == 1u64 << 63u64) by (bit_vector);
        for i in 0..64i64
            invariant
                i < 64 ==> mask == 1u64 << ((63 - i) as u64),
                i == 0 || p >> ((64 - i) as u64) == 0,
        {
            let k: u64 = (63 - i) as u64;
            if (mask & p) > 0 {
                assert(k < 64 && (k == 63 || p >> ((k + 1) as u64) == 0) && mask == 1u64 << k
                    && (mask & p) > 0 ==> p >> k == 1) by (bit_vector);
                proof {
                    lemma_deg_unique(p, k);
                }
                return 63 - i;
            }
            assert(k < 64 && (k == 63 || p >> ((k + 1) as u64) == 0) && mask == 1u64 << k
                && (mask & p) == 0 ==> p >> k == 0) by (bit_vector);
            assert(1 <= k < 64 && mask == 1u64 << k ==> mask >> 1u64 == 1u64 << ((k - 1) as u64))
                by (bit_vector);
            mask >>= 1;
        }
        assert(p >> 0u64 == 0 ==> p == 0) by (bit_vector);
        -1
    }

    /// Remainder of `x` divided by `p` over GF(2).
    pub fn modulo(x: u64, p: u64) -> (r: u64)
        requires
            p != 0,
        ensures
            r == poly_mod(x, p),
    {
        let mut out = x;
        proof {
            lemma_deg_range(x);
        }
        while Table::deg(out) >= Table::deg(p)
            invariant
                p != 0,
                -1 <= deg(out),
                poly_mod(out, p) == poly_mod(x, p),
            decreases deg(out) + 1,
        {
            proof {
                lemma_reduce_step(out, p);
            }
            let shift = Table::deg(out) - Table::deg(p);
            out = out ^ (p << (shift as u64));
        }
        out
    }

    /// `hash` with the byte `b` appended, reduced modulo `pol`.
    pub fn append_byte(hash: u64, b: u8, pol: u64) -> (r: u64)
        requires
            pol != 0,
        ensures
            r == append_byte(hash, b, pol),
    {
        let mut out = hash;
        out <<= 8u64;
        out |= b as u64;
        Table::modulo(out, pol)
    }

    /// Exit table for `pol` and a window of `winsize` bytes: entry `b` is the
    /// contribution that byte `b` leaves in the digest when it exits the
    /// window.
    pub fn generate_outt(pol: u64, winsize: usize) -> (r: [u64; 256])
        requires
            pol != 0,
            winsize >= 1,
        ensures
            forall|b: int| 0 <= b < 256 ==> r[b] == exit_entry(b as u8, pol, winsize as nat),
    {
        let mut outt = [0u64; 256];
        for b in 0usize..256
            invariant
                pol != 0,
                winsize >= 1,
                forall|c: int| 0 <= c < b ==> outt[c] == exit_entry(c as u8, pol, winsize as nat),
        {
            let mut hash: u64 = 0;
            hash = Table::append_byte(hash, b as u8, pol);
            for j in 0usize..(winsize - 1)
                invariant
                    pol != 0,
                    hash == append_zeros(append_byte(0, b as u8, pol), pol, j as nat),
            {
                hash = Table::append_byte(hash, 0, pol);
            }
            outt[b] = hash;
        }
        outt
    }

    /// Modulo table for `pol`: entry `b` folds a top byte `b` of the shifted
    /// digest back under the degree of `pol`.
    pub fn generate_modt(pol: u64) -> (r: [u64; 256])
        requires
            pol != 0,
        ensures
            forall|b: int| 0 <= b < 256 ==> r[b] == mod_entry(b as u8, pol),
    {
        let mut modt = [0u64; 256];
        let k = Table::deg(pol);
        proof {
            lemma_deg_range(pol);
        }
        for b in 0usize..256
            invariant
                pol != 0,
                k == deg(pol),
                0 <= k < 64,
                forall|c: int| 0 <= c < b ==> modt[c] == mod_entry(c as u8, pol),
        {
            let v: u64 = (b as u8 as u64) << (k as u64);
            modt[b] = Table::modulo(v, pol);
            modt[b] |= v;
        }
        modt
    }
}

/// `r` holds the exit table and the modulo table of `pol`, in that order.
pub open spec fn tables_of(pol: u64, r: ([u64; 256], [u64; 256])) -> bool {
    forall|b: int|
        0 <= b < 256 ==> r.0[b] == exit_entry(b as u8, pol, WINSIZE as nat) && r.1[b] == mod_entry(
            b as u8,
            pol,
        )
}

/// Both reduction tables of `pol` for the fixed window width: the exit
/// table first, then the modulo table.
pub fn build_tables(pol: u64) -> (r: ([u64; 256], [u64; 256]))
    requires
        pol != 0,
    ensures
        tables_of(pol, r),
{
    (Table::generate_outt(pol, WINSIZE), Table::generate_modt(pol))
}

/// The tables are a function of the polynomial alone: two results of
/// `build_tables` for one polynomial are identical, entry for entry.
pub proof fn law_tables_deterministic(
    pol: u64,
    r1: ([u64; 256], [u64; 256]),
    r2: ([u64; 256], [u64; 256]),
)
    requires
        tables_of(pol, r1),
        tables_of(pol, r2),
    ensures
        r1 == r2,
{
    assert(r1.0 =~= r2.0);
    assert(r1.1 =~= r2.1);
}

} // verus!
