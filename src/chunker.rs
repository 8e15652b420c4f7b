//! The rolling-hash chunker: a model of its session state as spec values,
//! the run of that model over a byte sequence, and the engine itself.
use vstd::prelude::*;
use crate::table::{exit_table, lemma_exit_table_bound, lemma_mod_table_top, mod_table, Table};
use crate::{MASK, MAXSIZE, MINSIZE, POLSHIFT, WINSIZE};

verus! {

/// A chunk: where it starts in the stream, how many bytes it holds, and the
/// digest at its cut point.
#[derive(Clone, Copy, Debug, PartialEq, Eq, Structural)]
pub struct Chunk {
    pub start: usize,
    pub length: usize,
    pub cutfp: u64,
}

/// Mathematical value of a chunk.
pub struct ChunkView {
    pub start: int,
    pub length: int,
    pub cutfp: u64,
}

impl View for Chunk {
    type V = ChunkView;

    open spec fn view(&self) -> ChunkView {
        ChunkView { start: self.start as int, length: self.length as int, cutfp: self.cutfp }
    }
}

impl Chunk {
    /// The empty chunk at offset 0.
    pub fn new() -> (c: Chunk)
        ensures
            c.start == 0,
            c.length == 0,
            c.cutfp == 0,
    {
        Chunk { start: 0, length: 0, cutfp: 0 }
    }
}

/// Session state of a chunker: the window and its write cursor, the bytes
/// seen since the last cut, the absolute position in the stream, the start
/// of the current chunk, and the digest.
pub struct Session {
    pub window: Seq<u8>,
    pub wpos: int,
    pub count: int,
    pub pos: int,
    pub start: int,
    pub digest: u64,
}

/// Appends byte `b` to a reduced digest: shift it up a byte and fold its
/// top byte back with the modulo table.
pub open spec fn fold_byte(digest: u64, b: u8) -> u64 {
    ((digest << 8u64) | (b as u64)) ^ mod_table((digest >> 45u64) as u8)
}

/// Slides byte `b` into the window: the byte under the cursor leaves and
/// its contribution is removed from the digest, then `b` is appended.
pub open spec fn slide(s: Session, b: u8) -> Session {
    Session {
        window: s.window.update(s.wpos, b),
        wpos: (s.wpos + 1) % (WINSIZE as int),
        digest: fold_byte(s.digest ^ exit_table(s.window[s.wpos]), b),
        ..s
    }
}

/// Clears window, cursor, count and digest, then slides in the byte 1.
pub open spec fn reset(s: Session) -> Session {
    slide(Session { window: Seq::new(WINSIZE as nat, |i: int| 0u8), wpos: 0, count: 0, digest: 0, ..s }, 1)
}

/// One input byte: slide it in and count it.
pub open spec fn ingest(s: Session, b: u8) -> Session {
    let t = slide(s, b);
    Session { count: t.count + 1, pos: t.pos + 1, ..t }
}

/// Whether the session must cut after its last byte.
pub open spec fn is_cut(s: Session) -> bool {
    (s.count >= MINSIZE && s.digest & MASK == 0) || s.count >= MAXSIZE
}

/// The chunk that the session holds since its last cut.
pub open spec fn chunk_of(s: Session) -> ChunkView {
    ChunkView { start: s.start, length: s.count, cutfp: s.digest }
}

/// The session after a cut: reset, with the next chunk starting here.
pub open spec fn restart(s: Session) -> Session {
    Session { start: s.pos, ..reset(s) }
}

/// Feeds `bytes` to the session one at a time: the chunks cut on the way, in
/// order, and the session afterwards.
pub open spec fn run(s: Session, bytes: Seq<u8>) -> (Seq<ChunkView>, Session)
    decreases bytes.len(),
{
    if bytes.len() == 0 {
        (Seq::empty(), s)
    } else {
        let (cs, t) = run(s, bytes.drop_last());
        let u = ingest(t, bytes.last());
        if is_cut(u) {
            (cs.push(chunk_of(u)), restart(u))
        } else {
            (cs, u)
        }
    }
}

/// Feeding two pieces one after the other cuts the same chunks, and leaves
/// the same session, as feeding their concatenation at once.
pub proof fn lemma_run_concat(s: Session, a: Seq<u8>, b: Seq<u8>)
    ensures
        run(s, a + b).0 == run(s, a).0 + run(run(s, a).1, b).0,
        run(s, a + b).1 == run(run(s, a).1, b).1,
    decreases b.len(),
{
    if b.len() == 0 {
        assert(a + b =~= a);
        assert(run(s, a).0 + run(run(s, a).1, b).0 =~= run(s, a).0);
    } else {
        lemma_run_concat(s, a, b.drop_last());
        assert((a + b).drop_last() =~= a + b.drop_last());
        assert((a + b).last() == b.last());
        let t = run(s, a).1;
        let (cs, u) = run(t, b.drop_last());
        let v = ingest(u, b.last());
        if is_cut(v) {
            assert(run(s, a).0 + cs.push(chunk_of(v)) =~= (run(s, a).0 + cs).push(chunk_of(v)));
        }
    }
}

/// Feeding `bytes` advances the absolute position by their number.
pub proof fn lemma_run_pos(s: Session, bytes: Seq<u8>)
    ensures
        run(s, bytes).1.pos == s.pos + bytes.len(),
    decreases bytes.len(),
{
    if bytes.len() > 0 {
        lemma_run_pos(s, bytes.drop_last());
    }
}

/// The session at the start of a stream.
pub open spec fn initial() -> Session {
    reset(
        Session {
            window: Seq::new(WINSIZE as nat, |i: int| 0u8),
            wpos: 0,
            count: 0,
            pos: 0,
            start: 0,
            digest: 0,
        },
    )
}

/// The last chunk of a stream that ends in session `s`, if any byte is left.
pub open spec fn final_chunk(s: Session) -> Option<ChunkView> {
    if s.count == 0 {
        None
    } else {
        Some(chunk_of(s))
    }
}

/// All chunks of a whole stream: those cut while feeding it, then the rest.
pub open spec fn chunks_of(bytes: Seq<u8>) -> Seq<ChunkView> {
    let (cs, t) = run(initial(), bytes);
    match final_chunk(t) {
        Some(c) => cs.push(c),
        None => cs,
    }
}

/// A chunking session over one stream.
pub struct Rabin<'a> {
    window: [u8; WINSIZE],
    wpos: usize,
    count: usize,
    pos: usize,
    start: usize,
    digest: u64,
    table: &'a Table,
}

impl<'a> View for Rabin<'a> {
    type V = Session;

    closed spec fn view(&self) -> Session {
        Session {
            window: self.window@,
            wpos: self.wpos as int,
            count: self.count as int,
            pos: self.pos as int,
            start: self.start as int,
            digest: self.digest,
        }
    }
}

impl<'a> Rabin<'a> {
    /// The tables are the fixed ones, the cursor is inside the window and
    /// the digest is reduced.
    pub closed spec fn ready(&self) -> bool {
        &&& self.table.wf()
        &&& self.wpos < WINSIZE
        &&& self.digest < 0x20000000000000
    }

    /// Ready, and the current chunk is shorter than the largest size.
    pub open spec fn wf(&self) -> bool {
        self.ready() && self@.count < MAXSIZE
    }

    /// A session at the start of a stream.
    pub fn new(table: &'a Table) -> (r: Rabin<'a>)
        requires
            table.wf(),
        ensures
            r.wf(),
            r@ == initial(),
    {
        let mut r = Rabin {
            window: [0u8; WINSIZE],
            wpos: 0,
            count: 0,
            pos: 0,
            start: 0,
            digest: 0,
            table: table,
        };
        r.reset();
        assert(r@.window =~= initial().window);
        r
    }

    /// Clears window, cursor, count and digest, then primes the digest by
    /// sliding in the byte 1.
    pub fn reset(&mut self)
        requires
            old(self).ready(),
        ensures
            final(self).wf(),
            final(self)@ == reset(old(self)@),
    {
        for i in 0usize..WINSIZE
            invariant
                self.ready(),
                self.wpos == old(self).wpos,
                self.count == old(self).count,
                self.pos == old(self).pos,
                self.start == old(self).start,
                self.digest == old(self).digest,
                self.table == old(self).table,
                forall|j: int| 0 <= j < i ==> self.window[j] == 0,
        {
            self.window[i] = 0;
        }
        self.wpos = 0;
        self.count = 0;
        self.digest = 0;
        let ghost cleared = self@;
        assert(cleared.window =~= Seq::new(WINSIZE as nat, |i: int| 0u8));
        self.rabin_slide(1);
    }

    /// Slides byte `b` into the window and updates the digest.
    pub fn rabin_slide(&mut self, b: u8)
        requires
            old(self).ready(),
        ensures
            final(self).ready(),
            final(self)@ == slide(old(self)@, b),
    {
        let out = self.window[self.wpos];
        self.window[self.wpos] = b;
        proof {
            lemma_exit_table_bound(out);
        }
        let e = self.table.outt_at(out);
        let d = self.digest;
        assert(d < 0x20000000000000 && e < 0x20000000000000 ==> d ^ e < 0x20000000000000)
            by (bit_vector);
        self.digest ^= e;
        self.wpos = (self.wpos + 1) % WINSIZE;
        self.rabin_append(b);
    }

    /// Scans `buf` from index `start`, one byte at a time, until a cut. On a
    /// cut it returns the chunk and the index just past its last byte, and
    /// the session restarts; when `buf` ends first it returns -1 and the
    /// session keeps what it has seen, to go on with the next buffer.
    pub fn rabin_next_chunk(&mut self, buf: &[u8], start: usize) -> (r: (Chunk, i64))
        requires
            old(self).wf(),
            start <= buf@.len() ==> old(self)@.pos + (buf@.len() - start) <= usize::MAX,
            buf@.len() < i64::MAX,
        ensures
            final(self).wf(),
            start >= buf@.len() ==> r.1 == -1 && final(self)@ == old(self)@,
            r.1 < 0 ==> r.1 == -1 && r.0.start == 0 && r.0.length == 0 && r.0.cutfp == 0,
            start < buf@.len() && r.1 < 0 ==> run(old(self)@, buf@.subrange(start as int, buf@.len() as int)).0
                =~= Seq::<ChunkView>::empty() && run(old(self)@, buf@.subrange(start as int, buf@.len() as int)).1
                == final(self)@,
            r.1 >= 0 ==> start < r.1 <= buf@.len() && run(old(self)@, buf@.subrange(start as int, r.1 as int)).0
                =~= seq![r.0@] && run(old(self)@, buf@.subrange(start as int, r.1 as int)).1 == final(self)@
                && final(self)@.count == 0,
    {
        let mut i: usize = start;
        while i < buf.len()
            invariant
                start <= i,
                buf@.len() < i64::MAX,
                start < buf@.len() ==> i <= buf@.len(),
                start >= buf@.len() ==> i == start,
                self.wf(),
                self@.pos + (buf@.len() - i) <= usize::MAX,
                start < buf@.len() ==> run(old(self)@, buf@.subrange(start as int, i as int)).0
                    =~= Seq::<ChunkView>::empty(),
                start < buf@.len() ==> run(old(self)@, buf@.subrange(start as int, i as int)).1 == self@,
                start >= buf@.len() ==> self@ == old(self)@,
            decreases buf@.len() - i,
        {
            let b = buf[i];
            let ghost before = self@;
            assert(buf@.subrange(start as int, i + 1).drop_last() =~= buf@.subrange(start as int, i as int));
            self.rabin_slide(b);
            self.count += 1;
            self.pos += 1;
            assert(self@ == ingest(before, b));
            if (self.count >= MINSIZE && (self.digest & MASK) == 0) || self.count >= MAXSIZE {
                let c = Chunk { start: self.start, length: self.count, cutfp: self.digest };
                let ghost cut = self@;
                let pos = self.pos;
                self.reset();
                self.start = pos;
                self.pos = pos;
                assert(self@ == restart(cut));
                let next: i64 = (i + 1) as i64;
                assert(next as int == i + 1);
                return (c, next);
            }
            i += 1;
        }
        (Chunk::new(), -1)
    }

    /// Feeds all of `buf` to the session and returns the chunks cut on the
    /// way, in stream order; the bytes after the last cut stay in the session.
    pub fn feed(&mut self, buf: &[u8]) -> (r: Vec<Chunk>)
        requires
            old(self).wf(),
            old(self)@.pos + buf@.len() <= usize::MAX,
            buf@.len() < i64::MAX,
        ensures
            final(self).wf(),
            r@.map_values(|c: Chunk| c@) =~= run(old(self)@, buf@).0,
            final(self)@ == run(old(self)@, buf@).1,
    {
        let mut out: Vec<Chunk> = Vec::new();
        let mut start: usize = 0;
        assert(buf@.subrange(0, 0) =~= Seq::<u8>::empty());
        loop
            invariant_except_break
                start <= buf@.len(),
                self@.pos == old(self)@.pos + start,
                out@.map_values(|c: Chunk| c@) =~= run(old(self)@, buf@.subrange(0, start as int)).0,
                self@ == run(old(self)@, buf@.subrange(0, start as int)).1,
            invariant
                self.wf(),
                buf@.len() < i64::MAX,
                old(self)@.pos + buf@.len() <= usize::MAX,
            ensures
                out@.map_values(|c: Chunk| c@) =~= run(old(self)@, buf@).0,
                self@ == run(old(self)@, buf@).1,
            decreases buf@.len() - start,
        {
            let ghost before = self@;
            let ghost done = buf@.subrange(0, start as int);
            let (c, next) = self.rabin_next_chunk(buf, start);
            if next < 0 {
                proof {
                    if start < buf@.len() {
                        let rest = buf@.subrange(start as int, buf@.len() as int);
                        lemma_run_concat(old(self)@, done, rest);
                        assert(done + rest =~= buf@);
                    } else {
                        assert(done =~= buf@);
                    }
                }
                break;
            }
            proof {
                let piece = buf@.subrange(start as int, next as int);
                lemma_run_concat(old(self)@, done, piece);
                assert(done + piece =~= buf@.subrange(0, next as int));
                lemma_run_pos(before, piece);
            }
            out.push(c);
            start = next as usize;
        }
        out
    }

    /// Absolute position in the stream: the number of bytes fed so far.
    pub fn position(&self) -> (r: usize)
        ensures
            r == self@.pos,
    {
        self.pos
    }

    /// The last chunk of the stream: what was seen since the last cut, if
    /// anything.
    pub fn rabin_finalize(&self) -> (r: Option<Chunk>)
        requires
            self.wf(),
        ensures
            r is Some <==> final_chunk(self@) is Some,
            r is Some ==> final_chunk(self@) == Some(r->0@),
    {
        if self.count == 0 {
            return None;
        }
        Some(Chunk { start: self.start, length: self.count, cutfp: self.digest })
    }

    /// Appends byte `b` to the digest.
    pub fn rabin_append(&mut self, b: u8)
        requires
            old(self).ready(),
        ensures
            final(self).ready(),
            final(self)@ == (Session { digest: fold_byte(old(self)@.digest, b), ..old(self)@ }),
    {
        let d = self.digest;
        let index: u64 = d >> POLSHIFT;
        assert(d < 0x20000000000000 ==> d >> 45u64 < 256) by (bit_vector);
        let m = self.table.modt_at(index);
        proof {
            lemma_mod_table_top(index as u8);
        }
        assert(d < 0x20000000000000 && m >> 53u64 == d >> 45u64 ==> ((d << 8u64) | (b as u64)) ^ m
            < 0x20000000000000) by (bit_vector);
        self.digest <<= 8u64;
        self.digest |= b as u64;
        self.digest ^= m;
    }
}

/// Mean chunk length of a stream of `total` bytes cut into `chunks` chunks,
/// rounded down; 0 when there is no chunk.
pub fn average_size(total: usize, chunks: usize) -> (r: usize)
    ensures
        chunks > 0 ==> r == total / chunks,
        chunks == 0 ==> r == 0,
{
    if chunks > 0 {
        total / chunks
    } else {
        0
    }
}

/// Cuts a whole stream held in `data` into chunks: those found while
/// scanning it, then the remainder, so that every byte is in one chunk.
pub fn chunk_all(table: &Table, data: &[u8]) -> (r: Vec<Chunk>)
    requires
        table.wf(),
        data@.len() < i64::MAX,
    ensures
        r@.map_values(|c: Chunk| c@) =~= chunks_of(data@),
{
    let mut rabin = Rabin::new(table);
    let n = data.len();
    assert(rabin@.pos == 0 && n == data@.len());
    let mut out = rabin.feed(data);
    let ghost cut = out@;
    match rabin.rabin_finalize() {
        Some(c) => {
            out.push(c);
            assert(out@.map_values(|c: Chunk| c@) =~= cut.map_values(|c: Chunk| c@).push(c@));
        },
        None => {},
    }
    out
}

} // verus!
