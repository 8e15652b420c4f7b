//! Properties of the chunking as a whole, over the model in `chunker`.
use vstd::prelude::*;
use crate::chunker::{
    chunk_of, chunks_of, final_chunk, initial, ingest, is_cut, lemma_run_concat, restart, run,
    ChunkView, Session,
};
use crate::poly::{append_byte, append_zeros, deg, poly_mod};
use crate::table::{exit_table, lemma_polynomial_degree};
use crate::{MASK, MAXSIZE, MINSIZE, POLYNOMIAL, WINSIZE};

verus! {

/// Sum of the lengths of the chunks `cs`.
pub open spec fn total_length(cs: Seq<ChunkView>) -> int
    decreases cs.len(),
{
    if cs.len() == 0 {
        0
    } else {
        total_length(cs.drop_last()) + cs.last().length
    }
}

/// The chunks `cs` cover the stream from offset `from` to offset `to`
/// without gap or overlap: each starts where the one before it ends.
pub open spec fn tiles(cs: Seq<ChunkView>, from: int, to: int) -> bool {
    &&& cs.len() == 0 ==> from == to
    &&& cs.len() > 0 ==> cs[0].start == from && cs.last().start + cs.last().length == to
    &&& forall|i: int|
        0 <= i < cs.len() - 1 ==> #[trigger] cs[i].start + cs[i].length == cs[i + 1].start
}

/// What holds of every run from a session whose position is its chunk
/// start plus its count, and whose count is below the largest size.
proof fn lemma_run_facts(s: Session, bytes: Seq<u8>)
    requires
        s.pos == s.start + s.count,
        0 <= s.count < MAXSIZE,
    ensures
        run(s, bytes).1.pos == run(s, bytes).1.start + run(s, bytes).1.count,
        0 <= run(s, bytes).1.count < MAXSIZE,
        run(s, bytes).1.pos == s.pos + bytes.len(),
        tiles(run(s, bytes).0, s.start, run(s, bytes).1.start),
        total_length(run(s, bytes).0) == run(s, bytes).1.start - s.start,
        forall|i: int|
            0 <= i < run(s, bytes).0.len() ==> MINSIZE <= #[trigger] run(s, bytes).0[i].length
                <= MAXSIZE,
        forall|i: int|
            0 <= i < run(s, bytes).0.len() && #[trigger] run(s, bytes).0[i].length < MAXSIZE
                ==> run(s, bytes).0[i].cutfp & MASK == 0,
    decreases bytes.len(),
{
    if bytes.len() > 0 {
        lemma_run_facts(s, bytes.drop_last());
        let (cs, t) = run(s, bytes.drop_last());
        let u = ingest(t, bytes.last());
        if is_cut(u) {
            let ds = cs.push(chunk_of(u));
            assert(ds.drop_last() =~= cs);
            assert forall|i: int| 0 <= i < ds.len() - 1 implies #[trigger] ds[i].start
                + ds[i].length == ds[i + 1].start by {
                if i < cs.len() - 1 {
                    assert(cs[i].start + cs[i].length == cs[i + 1].start);
                }
            }
        }
    }
}

/// Coverage: the chunks of a stream, those cut while it is fed followed by
/// the final one, cover it from offset 0 to its end without gap or overlap,
/// and their lengths add up to its length.
pub proof fn law_coverage(bytes: Seq<u8>)
    ensures
        tiles(chunks_of(bytes), 0, bytes.len() as int),
        total_length(chunks_of(bytes)) == bytes.len(),
{
    let s = initial();
    lemma_run_facts(s, bytes);
    let (cs, t) = run(s, bytes);
    if t.count != 0 {
        let ds = cs.push(chunk_of(t));
        assert(ds.drop_last() =~= cs);
        assert forall|i: int| 0 <= i < ds.len() - 1 implies #[trigger] ds[i].start + ds[i].length
            == ds[i + 1].start by {
            if i < cs.len() - 1 {
                assert(cs[i].start + cs[i].length == cs[i + 1].start);
            }
        }
    }
}

/// Bounded size: every chunk cut while a stream is fed is between the
/// smallest and the largest size; the final chunk, if any, is shorter than
/// the largest size.
pub proof fn law_chunk_sizes(bytes: Seq<u8>)
    ensures
        forall|i: int|
            0 <= i < run(initial(), bytes).0.len() ==> MINSIZE <= #[trigger] run(
                initial(),
                bytes,
            ).0[i].length <= MAXSIZE,
        final_chunk(run(initial(), bytes).1) is Some ==> 0 < final_chunk(
            run(initial(), bytes).1,
        )->0.length < MAXSIZE,
{
    lemma_run_facts(initial(), bytes);
}

/// A chunk cut before it reached the largest size was cut by its content:
/// the low bits of its fingerprint under the mask are all zero.
pub proof fn law_content_cut(bytes: Seq<u8>)
    ensures
        forall|i: int|
            0 <= i < run(initial(), bytes).0.len() && #[trigger] run(initial(), bytes).0[i].length
                < MAXSIZE ==> run(initial(), bytes).0[i].cutfp & MASK == 0,
{
    lemma_run_facts(initial(), bytes);
}

/// An edit after offset `a.len()` leaves every chunk cut within the first
/// `a.len()` bytes as it was: both streams begin with the same chunks.
pub proof fn law_edit_keeps_earlier_chunks(a: Seq<u8>, x: Seq<u8>, y: Seq<u8>)
    ensures
        run(initial(), a + x).0.subrange(0, run(initial(), a).0.len() as int) == run(
            initial(),
            a,
        ).0,
        run(initial(), a + y).0.subrange(0, run(initial(), a).0.len() as int) == run(
            initial(),
            a,
        ).0,
{
    lemma_run_concat(initial(), a, x);
    lemma_run_concat(initial(), a, y);
    let cs = run(initial(), a).0;
    assert((cs + run(run(initial(), a).1, x).0).subrange(0, cs.len() as int) =~= cs);
    assert((cs + run(run(initial(), a).1, y).0).subrange(0, cs.len() as int) =~= cs);
}

/// `s` moved `d` bytes further down the stream.
pub open spec fn shifted(s: Session, d: int) -> Session {
    Session { pos: s.pos + d, start: s.start + d, ..s }
}

/// The chunks `cs` moved `d` bytes further down the stream.
pub open spec fn shifted_chunks(cs: Seq<ChunkView>, d: int) -> Seq<ChunkView> {
    cs.map_values(|c: ChunkView| ChunkView { start: c.start + d, ..c })
}

/// Cuts do not depend on where in the stream the session stands.
proof fn lemma_run_shift(s: Session, d: int, bytes: Seq<u8>)
    ensures
        run(shifted(s, d), bytes).0 == shifted_chunks(run(s, bytes).0, d),
        run(shifted(s, d), bytes).1 == shifted(run(s, bytes).1, d),
    decreases bytes.len(),
{
    if bytes.len() == 0 {
        assert(shifted_chunks(Seq::empty(), d) =~= Seq::empty());
    } else {
        lemma_run_shift(s, d, bytes.drop_last());
        let (cs, t) = run(s, bytes.drop_last());
        let u = ingest(t, bytes.last());
        assert(ingest(shifted(t, d), bytes.last()) == shifted(u, d));
        if is_cut(u) {
            assert(restart(shifted(u, d)) == shifted(restart(u), d));
            assert(shifted_chunks(cs.push(chunk_of(u)), d) =~= shifted_chunks(cs, d).push(
                chunk_of(shifted(u, d)),
            ));
        }
    }
}

/// After a cut the session forgets everything but its position: it is the
/// start-of-stream session moved there.
proof fn lemma_restart_fresh(u: Session)
    ensures
        restart(u) == shifted(initial(), u.pos),
{
    assert(restart(u).window =~= initial().window);
}

/// Once two streams, edited or not, have each just been cut, the same bytes
/// that follow give the same chunks, moved by the difference of the two cut
/// positions.
pub proof fn law_resync_after_cut(u: Session, v: Session, bytes: Seq<u8>)
    ensures
        run(restart(v), bytes).0 == shifted_chunks(run(restart(u), bytes).0, v.pos - u.pos),
{
    lemma_restart_fresh(u);
    lemma_restart_fresh(v);
    lemma_run_shift(restart(u), v.pos - u.pos, bytes);
    assert(shifted(restart(u), v.pos - u.pos) == restart(v));
}

/// An empty stream gives no chunk: none while it is fed, and no final one.
pub proof fn law_empty_stream()
    ensures
        run(initial(), Seq::empty()).0.len() == 0,
        final_chunk(run(initial(), Seq::empty()).1) is None,
        chunks_of(Seq::empty()) == Seq::<ChunkView>::empty(),
{
}

/// Appending zero bytes to the zero polynomial leaves it zero.
proof fn lemma_zeros_stay_zero(n: nat)
    ensures
        append_zeros(0, POLYNOMIAL, n) == 0,
    decreases n,
{
    if n > 0 {
        lemma_zeros_stay_zero((n - 1) as nat);
        assert(deg(0) == -1);
        lemma_polynomial_degree();
        assert((0u64 << 8u64) | 0u64 == 0) by (bit_vector);
        assert(poly_mod(0, POLYNOMIAL) == 0);
    }
}

/// The zero byte leaves nothing in the digest when it exits the window.
pub proof fn law_exit_table_zero()
    ensures
        exit_table(0) == 0,
{
    assert(deg(0) == -1);
    lemma_polynomial_degree();
    assert((0u64 << 8u64) | (0u8 as u64) == 0) by (bit_vector);
    assert(append_byte(0, 0, POLYNOMIAL) == 0);
    lemma_zeros_stay_zero((WINSIZE - 1) as nat);
}

} // verus!
