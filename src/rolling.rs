//! The rolling property of the digest: at every step it is the Rabin
//! fingerprint of the window's bytes, oldest first, whatever came before.
use vstd::prelude::*;
use crate::chunker::{fold_byte, ingest, initial, is_cut, reset, run, slide, Session};
use crate::poly::{
    append_byte, append_zeros, deg, lemma_deg_top_bit, lemma_mod_linear, lemma_mod_xor_low,
    lemma_poly_mod_deg, poly_mod,
};
use crate::table::{lemma_below_degree, lemma_polynomial_degree, mod_table};
use crate::{POLYNOMIAL, WINSIZE};

verus! {

/// Rabin fingerprint of the bytes `w`: each appended in turn to the zero
/// polynomial, modulo the fixed polynomial.
pub open spec fn fingerprint(w: Seq<u8>) -> u64
    decreases w.len(),
{
    if w.len() == 0 {
        0
    } else {
        append_byte(fingerprint(w.drop_last()), w.last(), POLYNOMIAL)
    }
}

/// The window of `s` from its oldest byte, under the cursor, to its newest.
pub open spec fn window_in_order(s: Session) -> Seq<u8> {
    Seq::new(WINSIZE as nat, |i: int| s.window[(s.wpos + i) % (WINSIZE as int)])
}

/// The digest of `s` is the fingerprint of its window, oldest byte first.
pub open spec fn digest_is_window_fingerprint(s: Session) -> bool {
    &&& s.window.len() == WINSIZE
    &&& 0 <= s.wpos < WINSIZE
    &&& s.digest == fingerprint(window_in_order(s))
}

/// Bytewise XOR of two sequences of one length.
pub open spec fn xor_bytes(a: Seq<u8>, b: Seq<u8>) -> Seq<u8> {
    Seq::new(a.len(), |i: int| a[i] ^ b[i])
}

/// `n` zero bytes.
pub open spec fn zeros(n: nat) -> Seq<u8> {
    Seq::new(n, |i: int| 0u8)
}

proof fn lemma_below_bound_deg(r: u64)
    requires
        r < 0x20000000000000,
    ensures
        deg(r) < 53,
{
    if r != 0 {
        lemma_deg_top_bit(r);
        let e = deg(r) as u64;
        assert(r >> e == 1 && r < 0x20000000000000 && e < 64 ==> e < 53) by (bit_vector);
    }
}

proof fn lemma_fingerprint_reduced(w: Seq<u8>)
    ensures
        fingerprint(w) < 0x20000000000000,
{
    if w.len() > 0 {
        lemma_polynomial_degree();
        let h = fingerprint(w.drop_last());
        lemma_poly_mod_deg((h << 8u64) | (w.last() as u64), POLYNOMIAL);
        lemma_below_degree(fingerprint(w));
    }
}

/// The table lookup in `fold_byte` appends a byte exactly as polynomial
/// division does.
pub proof fn lemma_fold_is_append(d: u64, b: u8)
    requires
        d < 0x20000000000000,
    ensures
        fold_byte(d, b) == append_byte(d, b, POLYNOMIAL),
{
    lemma_polynomial_degree();
    let i = (d >> 45u64) as u8;
    assert(d < 0x20000000000000 ==> (d >> 45u64) < 256) by (bit_vector);
    let v = (i as u64) << 53u64;
    let r = poly_mod(v, POLYNOMIAL);
    lemma_poly_mod_deg(v, POLYNOMIAL);
    lemma_below_degree(r);
    let x = (d << 8u64) | (b as u64);
    let low = x ^ v;
    assert(d < 0x20000000000000 && (i as u64) == d >> 45u64 ==> ((d << 8u64) | (b as u64)) ^ ((
    i as u64) << 53u64) < 0x20000000000000) by (bit_vector);
    lemma_below_bound_deg(low);
    assert(mod_table(i) == r | v);
    assert(r < 0x20000000000000 && (i as u64) < 256 ==> r | ((i as u64) << 53u64) == r ^ ((
    i as u64) << 53u64)) by (bit_vector);
    assert(x == v ^ low) by (bit_vector)
        requires
            low == x ^ v,
    ;
    lemma_mod_xor_low(v, low, POLYNOMIAL);
    assert(x ^ (r ^ v) == low ^ r) by (bit_vector)
        requires
            low == x ^ v,
    ;
    assert(r ^ low == low ^ r) by (bit_vector);
}

/// Appending is linear over GF(2) in the polynomial and the byte together.
proof fn lemma_append_linear(h1: u64, b1: u8, h2: u64, b2: u8)
    ensures
        append_byte(h1 ^ h2, b1 ^ b2, POLYNOMIAL) == append_byte(h1, b1, POLYNOMIAL) ^ append_byte(
            h2,
            b2,
            POLYNOMIAL,
        ),
{
    assert(((h1 ^ h2) << 8u64) | ((b1 ^ b2) as u64) == ((h1 << 8u64) | (b1 as u64)) ^ ((h2
        << 8u64) | (b2 as u64))) by (bit_vector);
    lemma_mod_linear((h1 << 8u64) | (b1 as u64), (h2 << 8u64) | (b2 as u64), POLYNOMIAL);
}

/// The fingerprint is linear over GF(2).
proof fn lemma_fingerprint_linear(a: Seq<u8>, b: Seq<u8>)
    requires
        a.len() == b.len(),
    ensures
        fingerprint(xor_bytes(a, b)) == fingerprint(a) ^ fingerprint(b),
    decreases a.len(),
{
    if a.len() == 0 {
        assert(0u64 ^ 0u64 == 0) by (bit_vector);
    } else {
        let x = xor_bytes(a, b);
        assert(x.drop_last() =~= xor_bytes(a.drop_last(), b.drop_last()));
        lemma_fingerprint_linear(a.drop_last(), b.drop_last());
        lemma_append_linear(fingerprint(a.drop_last()), a.last(), fingerprint(b.drop_last()), b.last());
    }
}

/// A leading zero byte does not change the fingerprint.
proof fn lemma_leading_zero(v: Seq<u8>)
    ensures
        fingerprint(seq![0u8] + v) == fingerprint(v),
    decreases v.len(),
{
    lemma_polynomial_degree();
    if v.len() == 0 {
        assert(seq![0u8] + v =~= seq![0u8]);
        assert(seq![0u8].drop_last() =~= Seq::<u8>::empty());
        assert((0u64 << 8u64) | (0u8 as u64) == 0) by (bit_vector);
        assert(deg(0) == -1);
        assert(poly_mod(0, POLYNOMIAL) == 0);
        assert(fingerprint(Seq::<u8>::empty()) == 0);
        assert(fingerprint(seq![0u8]) == append_byte(0, 0, POLYNOMIAL));
    } else {
        assert((seq![0u8] + v).drop_last() =~= seq![0u8] + v.drop_last());
        assert((seq![0u8] + v).last() == v.last());
        lemma_leading_zero(v.drop_last());
    }
}

/// Zero bytes alone fingerprint to zero.
proof fn lemma_zeros_fingerprint(n: nat)
    ensures
        fingerprint(zeros(n)) == 0,
    decreases n,
{
    if n > 0 {
        assert(zeros(n) =~= seq![0u8] + zeros((n - 1) as nat));
        lemma_zeros_fingerprint((n - 1) as nat);
        lemma_leading_zero(zeros((n - 1) as nat));
    }
}

/// A byte followed by `n` zero bytes fingerprints to the byte with `n`
/// zero bytes appended.
proof fn lemma_byte_then_zeros(o: u8, n: nat)
    ensures
        fingerprint(seq![o] + zeros(n)) == append_zeros(append_byte(0, o, POLYNOMIAL), POLYNOMIAL, n),
    decreases n,
{
    if n == 0 {
        assert(seq![o] + zeros(0) =~= seq![o]);
        assert(seq![o].drop_last() =~= Seq::<u8>::empty());
        assert(fingerprint(Seq::<u8>::empty()) == 0);
        assert(fingerprint(seq![o]) == append_byte(0, o, POLYNOMIAL));
    } else {
        assert((seq![o] + zeros(n)).drop_last() =~= seq![o] + zeros((n - 1) as nat));
        assert((seq![o] + zeros(n)).last() == 0);
        lemma_byte_then_zeros(o, (n - 1) as nat);
    }
}

/// Sliding a byte into the window drops its oldest byte and adds `b` as
/// the newest.
proof fn lemma_slide_window(s: Session, b: u8)
    requires
        s.window.len() == WINSIZE,
        0 <= s.wpos < WINSIZE,
    ensures
        window_in_order(slide(s, b)) =~= window_in_order(s).subrange(1, WINSIZE as int).push(b),
{
    let w = window_in_order(s);
    let rest = w.subrange(1, WINSIZE as int);
    let t = slide(s, b);
    assert forall|i: int| 0 <= i < 64 implies #[trigger] window_in_order(t)[i] == rest.push(b)[i] by {
        if s.wpos < 63 {
            assert((s.wpos + 1) % 64 == s.wpos + 1);
        } else {
            assert((s.wpos + 1) % 64 == 0);
        }
        if i < 63 {
            assert(rest[i] == w[i + 1]);
            assert((t.wpos + i) % 64 == (s.wpos + i + 1) % 64);
            assert((s.wpos + i + 1) % 64 != s.wpos);
        } else {
            assert((t.wpos + i) % 64 == s.wpos);
        }
    }
}

/// Sliding a byte into the window keeps the digest equal to the window's
/// fingerprint.
proof fn lemma_slide_keeps(s: Session, b: u8)
    requires
        digest_is_window_fingerprint(s),
    ensures
        digest_is_window_fingerprint(slide(s, b)),
{
    let w = window_in_order(s);
    let o = s.window[s.wpos];
    let rest = w.subrange(1, WINSIZE as int);
    assert(w[0] == o) by {
        assert((s.wpos + 0) % 64 == s.wpos);
    }
    assert(w =~= seq![o] + rest);
    let e = seq![o] + zeros(63);
    lemma_byte_then_zeros(o, 63);
    assert(xor_bytes(w, e) =~= seq![0u8] + rest) by {
        assert(o ^ o == 0) by (bit_vector);
        assert forall|i: int| 1 <= i < 64 implies w[i] ^ e[i] == w[i] by {
            let c = w[i];
            assert(c ^ 0 == c) by (bit_vector);
        }
    }
    lemma_fingerprint_linear(w, e);
    lemma_leading_zero(rest);
    lemma_fingerprint_reduced(rest);
    lemma_fold_is_append(fingerprint(rest), b);
    lemma_slide_window(s, b);
    assert(rest.push(b).drop_last() =~= rest);
}

/// Right after a reset the digest is the fingerprint of the window.
proof fn lemma_reset_matches(s: Session)
    ensures
        digest_is_window_fingerprint(reset(s)),
{
    let c = Session { window: Seq::new(WINSIZE as nat, |i: int| 0u8), wpos: 0, count: 0, digest: 0, ..s };
    assert(window_in_order(c) =~= zeros(64));
    lemma_zeros_fingerprint(64);
    lemma_slide_keeps(c, 1);
}

/// The rolling property: after any stream, the digest is the fingerprint
/// of the window's bytes, oldest first, so it depends on nothing fed before
/// them.
pub proof fn law_digest_is_window_fingerprint(bytes: Seq<u8>)
    ensures
        digest_is_window_fingerprint(run(initial(), bytes).1),
    decreases bytes.len(),
{
    if bytes.len() == 0 {
        lemma_reset_matches(
            Session {
                window: Seq::new(WINSIZE as nat, |i: int| 0u8),
                wpos: 0,
                count: 0,
                pos: 0,
                start: 0,
                digest: 0,
            },
        );
    } else {
        law_digest_is_window_fingerprint(bytes.drop_last());
        let t = run(initial(), bytes.drop_last()).1;
        let u = ingest(t, bytes.last());
        lemma_slide_keeps(t, bytes.last());
        if is_cut(u) {
            lemma_reset_matches(u);
        }
    }
}

/// The window right after a reset: 63 zero bytes, then the byte 1 that
/// primes the digest, followed by the bytes `since` fed after it; only the
/// last `WINSIZE` of them.
pub open spec fn primed_window(since: Seq<u8>) -> Seq<u8> {
    let full = zeros(63).push(1u8) + since;
    full.subrange(full.len() - WINSIZE, full.len() as int)
}

/// Right after a reset the window holds the zero bytes and the byte 1.
proof fn lemma_reset_window(s: Session)
    ensures
        window_in_order(reset(s)) =~= primed_window(Seq::empty()),
{
    let c = Session { window: Seq::new(WINSIZE as nat, |i: int| 0u8), wpos: 0, count: 0, digest: 0, ..s };
    assert(window_in_order(c) =~= zeros(64));
    lemma_slide_window(c, 1);
}

/// Recent bytes: after any stream, the window holds the bytes fed since the
/// last cut (the last `WINSIZE` of them, behind what the reset put there),
/// and the digest is their fingerprint. So whether the next byte cuts
/// depends only on the count since the last cut and those bytes: an edit
/// further back changes nothing.
pub proof fn law_window_holds_recent_bytes(bytes: Seq<u8>)
    ensures
        0 <= run(initial(), bytes).1.count <= bytes.len(),
        window_in_order(run(initial(), bytes).1) == primed_window(
            bytes.subrange(bytes.len() - run(initial(), bytes).1.count, bytes.len() as int),
        ),
        run(initial(), bytes).1.digest == fingerprint(
            primed_window(
                bytes.subrange(bytes.len() - run(initial(), bytes).1.count, bytes.len() as int),
            ),
        ),
    decreases bytes.len(),
{
    law_digest_is_window_fingerprint(bytes);
    let n = bytes.len() as int;
    if n == 0 {
        lemma_reset_window(
            Session {
                window: Seq::new(WINSIZE as nat, |i: int| 0u8),
                wpos: 0,
                count: 0,
                pos: 0,
                start: 0,
                digest: 0,
            },
        );
        assert(bytes.subrange(0, 0) =~= Seq::<u8>::empty());
    } else {
        let p = bytes.drop_last();
        law_window_holds_recent_bytes(p);
        law_digest_is_window_fingerprint(p);
        let t = run(initial(), p).1;
        let u = ingest(t, bytes.last());
        lemma_slide_window(t, bytes.last());
        if is_cut(u) {
            lemma_reset_window(u);
            assert(bytes.subrange(n, n) =~= Seq::<u8>::empty());
        } else {
            let since = p.subrange(n - 1 - t.count, n - 1);
            assert(bytes.subrange(n - u.count, n) =~= since.push(bytes.last()));
            let full = zeros(63).push(1u8) + since;
            assert(zeros(63).push(1u8) + since.push(bytes.last()) =~= full.push(bytes.last()));
            assert(primed_window(since.push(bytes.last())) =~= primed_window(since).subrange(
                1,
                64,
            ).push(bytes.last()));
        }
    }
}

} // verus!
