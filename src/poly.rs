//! Polynomials over GF(2) held in a `u64`: degree, remainder of long
//! division, and appending a byte, as spec functions with their lemmas.
use vstd::prelude::*;

verus! {

/// Degree of the polynomial `p`: index of its highest set bit, or -1 for 0.
pub open spec fn deg(p: u64) -> int
    decreases p,
{
    if p == 0 {
        -1
    } else {
        1 + deg(p / 2)
    }
}

/// A nonzero polynomial has a degree in 0..64, and its bits above that
/// degree are clear.
pub proof fn lemma_deg_top_bit(p: u64)
    requires
        p != 0,
    ensures
        0 <= deg(p) < 64,
        p >> (deg(p) as u64) == 1,
    decreases p,
{
    if p == 1 {
        assert(1u64 >> 0u64 == 1) by (bit_vector);
        assert(deg(0) == -1);
    } else {
        let q: u64 = p / 2;
        assert(p > 1 ==> p / 2 != 0) by (bit_vector);
        lemma_deg_top_bit(q);
        let d = deg(q) as u64;
        assert(deg(p) == deg(q) + 1);
        assert(q >> d == 1 && d < 64 && q == p / 2 ==> d < 63 && p >> ((d + 1) as u64) == 1)
            by (bit_vector);
    }
}

/// The degree is the one shift that leaves exactly 1.
pub proof fn lemma_deg_unique(p: u64, d: u64)
    requires
        d < 64,
        p >> d == 1,
    ensures
        deg(p) == d,
{
    assert(p >> d == 1 ==> p != 0) by (bit_vector);
    lemma_deg_top_bit(p);
    let e = deg(p) as u64;
    assert(p >> d == 1 && p >> e == 1 && d < 64 && e < 64 ==> d == e) by (bit_vector);
}

/// Every polynomial has a degree between -1 and 63.
pub proof fn lemma_deg_range(p: u64)
    ensures
        -1 <= deg(p) < 64,
        deg(p) == -1 <==> p == 0,
{
    if p != 0 {
        lemma_deg_top_bit(p);
    }
}

/// One step of long division, which cancels the top bit of `x` with `p`
/// shifted under it, strictly lowers the degree of `x`.
pub proof fn lemma_reduce_step(x: u64, p: u64)
    requires
        p != 0,
        deg(x) >= deg(p),
    ensures
        0 <= deg(x) - deg(p) < 64,
        -1 <= deg(x ^ (p << ((deg(x) - deg(p)) as u64))) < deg(x),
{
    lemma_deg_range(p);
    lemma_deg_range(x);
    lemma_deg_top_bit(p);
    lemma_deg_top_bit(x);
    let dx = deg(x) as u64;
    let dp = deg(p) as u64;
    let y = x ^ (p << ((dx - dp) as u64));
    assert(x >> dx == 1 && p >> dp == 1 && dx < 64 && dp <= dx ==> (x ^ (p << ((dx - dp) as u64)))
        >> dx == 0) by (bit_vector);
    lemma_deg_range(y);
    if y != 0 {
        lemma_deg_top_bit(y);
        let e = deg(y) as u64;
        assert(y >> e == 1 && y >> dx == 0 && e < 64 && dx < 64 ==> e < dx) by (bit_vector);
    }
}

/// Remainder of the polynomial `x` divided by `p` over GF(2): while the
/// degree of `x` reaches that of `p`, `x` is XORed with `p` shifted so
/// that the two top bits meet.
pub open spec fn poly_mod(x: u64, p: u64) -> u64
    decreases deg(x) + 1,
{
    if p == 0 || deg(x) < deg(p) {
        x
    } else {
        proof {
            lemma_reduce_step(x, p);
        }
        poly_mod(x ^ (p << ((deg(x) - deg(p)) as u64)), p)
    }
}

/// A remainder has a lower degree than the divisor.
pub proof fn lemma_poly_mod_deg(x: u64, p: u64)
    requires
        p != 0,
    ensures
        deg(poly_mod(x, p)) < deg(p),
    decreases deg(x) + 1,
{
    lemma_deg_range(x);
    if deg(x) >= deg(p) {
        lemma_reduce_step(x, p);
        lemma_poly_mod_deg(x ^ (p << ((deg(x) - deg(p)) as u64)), p);
    }
}

/// XOR with a polynomial of lower degree keeps the degree.
pub proof fn lemma_deg_xor_lower(x: u64, r: u64)
    requires
        deg(r) < deg(x),
    ensures
        deg(x ^ r) == deg(x),
{
    lemma_deg_range(x);
    lemma_deg_range(r);
    lemma_deg_top_bit(x);
    let dx = deg(x) as u64;
    if r == 0 {
        assert(x ^ 0 == x) by (bit_vector);
    } else {
        lemma_deg_top_bit(r);
        let dr = deg(r) as u64;
        assert(x >> dx == 1 && r >> dr == 1 && dr < dx && dx < 64 ==> (x ^ r) >> dx == 1)
            by (bit_vector);
        lemma_deg_unique(x ^ r, dx);
    }
}

/// Adding a polynomial of degree below that of `p` adds it to the remainder.
pub proof fn lemma_mod_xor_low(x: u64, r: u64, p: u64)
    requires
        p != 0,
        deg(r) < deg(p),
    ensures
        poly_mod(x ^ r, p) == poly_mod(x, p) ^ r,
    decreases deg(x) + 1,
{
    lemma_deg_range(x);
    if deg(x) < deg(p) {
        if deg(r) < deg(x) {
            lemma_deg_xor_lower(x, r);
        } else if deg(x) < deg(r) {
            lemma_deg_xor_lower(r, x);
            assert(x ^ r == r ^ x) by (bit_vector);
        } else {
            lemma_deg_range(r);
            lemma_xor_same_deg_lower(x, r);
            assert(x == 0 ==> x ^ r == r) by (bit_vector);
        }
        assert(poly_mod(x ^ r, p) == x ^ r);
    } else {
        lemma_deg_xor_lower(x, r);
        lemma_reduce_step(x, p);
        let q = p << ((deg(x) - deg(p)) as u64);
        assert((x ^ r) ^ q == (x ^ q) ^ r) by (bit_vector);
        lemma_mod_xor_low(x ^ q, r, p);
        assert(poly_mod(x ^ r, p) == poly_mod((x ^ r) ^ q, p));
    }
}

/// XOR of two polynomials of one degree has a lower degree.
pub proof fn lemma_xor_same_deg_lower(x: u64, r: u64)
    requires
        deg(x) == deg(r),
    ensures
        deg(x ^ r) < deg(x) || x == 0,
{
    lemma_deg_range(x);
    lemma_deg_range(r);
    if x != 0 {
        lemma_deg_top_bit(x);
        lemma_deg_top_bit(r);
        let d = deg(x) as u64;
        let y = x ^ r;
        assert(x >> d == 1 && r >> d == 1 && d < 64 ==> (x ^ r) >> d == 0) by (bit_vector);
        lemma_deg_range(y);
        if y != 0 {
            lemma_deg_top_bit(y);
            let e = deg(y) as u64;
            assert(y >> e == 1 && y >> d == 0 && e < 64 && d < 64 ==> e < d) by (bit_vector);
        }
    }
}

/// Adding a shifted copy of `p` leaves the remainder modulo `p` unchanged.
pub proof fn lemma_mod_multiple(z: u64, p: u64, s: u64)
    requires
        p != 0,
        deg(p) + s < 64,
    ensures
        poly_mod(z ^ (p << s), p) == poly_mod(z, p),
    decreases deg(z) + 1,
{
    lemma_deg_range(z);
    lemma_deg_range(p);
    lemma_deg_top_bit(p);
    let dp = deg(p) as u64;
    let q = p << s;
    assert(p >> dp == 1 && dp + s < 64 ==> (p << s) >> ((dp + s) as u64) == 1) by (bit_vector);
    lemma_deg_unique(q, (dp + s) as u64);
    if deg(z) > deg(q) {
        lemma_deg_xor_lower(z, q);
        lemma_reduce_step(z, p);
        let t = p << ((deg(z) - deg(p)) as u64);
        assert((z ^ q) ^ t == (z ^ t) ^ q) by (bit_vector);
        lemma_mod_multiple(z ^ t, p, s);
    } else if deg(z) == deg(q) {
        assert(((deg(z) - deg(p)) as u64) == s);
    } else {
        lemma_deg_xor_lower(q, z);
        assert(z ^ q == q ^ z) by (bit_vector);
        assert((z ^ q) ^ q == z) by (bit_vector);
        assert(((deg(z ^ q) - deg(p)) as u64) == s);
    }
}

/// The remainder modulo `p` is linear over GF(2).
pub proof fn lemma_mod_linear(x: u64, y: u64, p: u64)
    requires
        p != 0,
    ensures
        poly_mod(x ^ y, p) == poly_mod(x, p) ^ poly_mod(y, p),
    decreases deg(y) + 1,
{
    lemma_deg_range(y);
    if deg(y) < deg(p) {
        lemma_mod_xor_low(x, y, p);
    } else {
        lemma_reduce_step(y, p);
        let s = (deg(y) - deg(p)) as u64;
        let t = p << s;
        lemma_mod_linear(x, y ^ t, p);
        assert(x ^ y == (x ^ (y ^ t)) ^ t) by (bit_vector);
        lemma_mod_multiple(x ^ (y ^ t), p, s);
    }
}

/// The polynomial `hash` multiplied by x^8 (bits shifted out of the word are
/// lost), plus the byte `b`, reduced modulo `p`.
pub open spec fn append_byte(hash: u64, b: u8, p: u64) -> u64 {
    poly_mod((hash << 8u64) | (b as u64), p)
}

/// `h` with `n` zero bytes appended one after another.
pub open spec fn append_zeros(h: u64, p: u64, n: nat) -> u64
    decreases n,
{
    if n == 0 {
        h
    } else {
        append_byte(append_zeros(h, p, (n - 1) as nat), 0, p)
    }
}

/// Exit table entry of byte `b`: the digest of `b` followed by `w - 1` zero
/// bytes, which is what `b` contributes when it leaves a window of width `w`.
pub open spec fn exit_entry(b: u8, p: u64, w: nat) -> u64 {
    append_zeros(append_byte(0, b, p), p, (w - 1) as nat)
}

/// Modulo table entry of `b`: `b` placed just above the degree of `p`,
/// reduced modulo `p`, with `b` itself kept in the high bits.
pub open spec fn mod_entry(b: u8, p: u64) -> u64 {
    let v = (b as u64) << (deg(p) as u64);
    poly_mod(v, p) | v
}

} // verus!
