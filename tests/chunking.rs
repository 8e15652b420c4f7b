use rabin_cdc::chunker::{average_size, chunk_all, Chunk, Rabin};
use rabin_cdc::table::{build_tables, Table};
use rabin_cdc::{MAXSIZE, MINSIZE, POLYNOMIAL, WINSIZE};

const MIB: usize = 1024 * 1024;

fn lcg_bytes(n: usize, seed: u64) -> Vec<u8> {
    let mut x = seed;
    let mut out = Vec::with_capacity(n);
    for _ in 0..n {
        x = x.wrapping_mul(6364136223846793005).wrapping_add(1442695040888963407);
        out.push((x >> 33) as u8);
    }
    out
}

fn chunk(start: usize, length: usize, cutfp: u64) -> Chunk {
    Chunk { start, length, cutfp }
}

fn feed_in_pieces(table: &Table, data: &[u8], piece: usize) -> Vec<Chunk> {
    let mut r = Rabin::new(table);
    let mut out = Vec::new();
    for buf in data.chunks(piece) {
        out.extend(r.feed(buf));
    }
    if let Some(c) = r.rabin_finalize() {
        out.push(c);
    }
    out
}

fn drain_with_next_chunk(r: &mut Rabin, buf: &[u8], out: &mut Vec<Chunk>) {
    let mut start = 0usize;
    loop {
        let (c, next) = r.rabin_next_chunk(buf, start);
        if next < 0 {
            break;
        }
        out.push(c);
        start = next as usize;
    }
}

fn random_chunks() -> Vec<Chunk> {
    vec![
        chunk(0, 1411201, 5340299388780544),
        chunk(1411201, 2118397, 1010270351654912),
        chunk(3529598, 1081559, 8091010846425088),
        chunk(4611157, 1426941, 4027166190731264),
        chunk(6038098, 253358, 5629709675540160),
    ]
}

#[test]
fn degree_of_polynomials() {
    assert_eq!(Table::deg(0), -1);
    assert_eq!(Table::deg(1), 0);
    assert_eq!(Table::deg(0x100), 8);
    assert_eq!(Table::deg(POLYNOMIAL), 53);
    assert_eq!(Table::deg(u64::MAX), 63);
}

#[test]
fn modulo_reduces_under_the_degree() {
    assert_eq!(Table::modulo(5, POLYNOMIAL), 5);
    assert_eq!(Table::modulo(POLYNOMIAL, POLYNOMIAL), 0);
    assert_eq!(Table::modulo(1u64 << 60, POLYNOMIAL), 0x12ab55b228ad4d);
    assert_eq!(Table::modulo(0b1011, 0b11), 1);
}

#[test]
fn append_byte_shifts_and_reduces() {
    assert_eq!(Table::append_byte(0, 7, POLYNOMIAL), 7);
    assert_eq!(Table::append_byte(1, 0, POLYNOMIAL), 0x100);
    assert_eq!(Table::append_byte(1u64 << 52, 0, POLYNOMIAL), Table::modulo(1u64 << 60, POLYNOMIAL));
}

#[test]
fn table_reference_values() {
    let (outt, modt) = build_tables(POLYNOMIAL);
    assert_eq!(outt[0], 0);
    assert_eq!(outt[1], 0x17eb4232e19216);
    assert_eq!(outt[2], 0x1275b1ee8ee55f);
    assert_eq!(outt[255], 0xb80b98cecc39a);
    assert_eq!(modt[0], 0);
    assert_eq!(modt[1], 0x3da3358b4dc173);
    assert_eq!(modt[2], 0x46e55e9dd64395);
    assert_eq!(modt[255], 0x1ff7ac8a5af476a7);
}

#[test]
fn tables_are_deterministic() {
    let a = build_tables(POLYNOMIAL);
    let b = build_tables(POLYNOMIAL);
    assert_eq!(a.0, b.0);
    assert_eq!(a.1, b.1);
    let t = Table::new();
    for i in 0..256usize {
        assert_eq!(t.outt_at(i as u8), a.0[i]);
        assert_eq!(t.modt_at(i as u64), a.1[i]);
    }
    assert_eq!(Table::generate_outt(POLYNOMIAL, WINSIZE), a.0);
    assert_eq!(Table::generate_modt(POLYNOMIAL), a.1);
}

#[test]
fn empty_input_gives_no_chunk() {
    let t = Table::new();
    let mut r = Rabin::new(&t);
    let (c, next) = r.rabin_next_chunk(&[], 0);
    assert_eq!(next, -1);
    assert_eq!(c, Chunk::new());
    assert!(r.rabin_finalize().is_none());
    assert!(r.feed(&[]).is_empty());
    assert!(chunk_all(&t, &[]).is_empty());
}

#[test]
fn start_past_the_end_consumes_nothing() {
    let t = Table::new();
    let mut r = Rabin::new(&t);
    let (_, next) = r.rabin_next_chunk(&[1, 2, 3], 3);
    assert_eq!(next, -1);
    assert_eq!(r.position(), 0);
    assert!(r.rabin_finalize().is_none());
}

#[test]
fn short_input_is_one_final_chunk() {
    let t = Table::new();
    let cs = chunk_all(&t, b"hello world");
    assert_eq!(cs, vec![chunk(0, 11, 1592022681962203)]);
}

#[test]
fn fresh_session_digest_is_primed() {
    let t = Table::new();
    let mut r = Rabin::new(&t);
    r.rabin_append(0);
    r.rabin_slide(0);
    r.reset();
    let cs = r.feed(b"hello world");
    assert!(cs.is_empty());
    assert_eq!(r.rabin_finalize(), Some(chunk(0, 11, 1592022681962203)));
}

#[test]
fn max_size_forces_exactly_one_chunk() {
    let t = Table::new();
    let data = vec![0xffu8; MAXSIZE];
    let mut r = Rabin::new(&t);
    let cs = r.feed(&data);
    assert_eq!(cs, vec![chunk(0, 8 * MIB, 0x6d9879d4c4d97)]);
    assert_eq!(cs[0].length, MAXSIZE);
    assert!(cs[0].cutfp & 0xFFFFF != 0);
    assert!(r.rabin_finalize().is_none());
}

#[test]
fn one_byte_short_of_max_size_is_not_cut() {
    let t = Table::new();
    let data = vec![0xffu8; MAXSIZE - 1];
    let mut r = Rabin::new(&t);
    assert!(r.feed(&data).is_empty());
    assert_eq!(r.rabin_finalize(), Some(chunk(0, MAXSIZE - 1, 0x6d9879d4c4d97)));
}

#[test]
fn bytes_after_a_forced_cut_start_a_new_chunk() {
    let t = Table::new();
    let data = vec![0xffu8; MAXSIZE + 10];
    let cs = chunk_all(&t, &data);
    assert_eq!(
        cs,
        vec![chunk(0, MAXSIZE, 1928026343099799), chunk(MAXSIZE, 10, 2600434644847063)]
    );
}

#[test]
fn zero_bytes_cut_at_min_size() {
    let t = Table::new();
    let data = vec![0u8; 2 * MIB];
    let cs = chunk_all(&t, &data);
    assert_eq!(cs.len(), 4);
    for (i, c) in cs.iter().enumerate() {
        assert_eq!(*c, chunk(i * MINSIZE, MINSIZE, 0));
    }
}

#[test]
fn random_stream_reference_chunks() {
    let t = Table::new();
    let data = lcg_bytes(6 * MIB, 12345);
    assert_eq!(chunk_all(&t, &data), random_chunks());
}

#[test]
fn chunks_cover_the_stream() {
    let t = Table::new();
    let data = lcg_bytes(6 * MIB, 12345);
    let cs = chunk_all(&t, &data);
    assert_eq!(cs[0].start, 0);
    for w in cs.windows(2) {
        assert_eq!(w[0].start + w[0].length, w[1].start);
    }
    let total: usize = cs.iter().map(|c| c.length).sum();
    assert_eq!(total, data.len());
}

#[test]
fn chunk_sizes_and_content_cuts() {
    let t = Table::new();
    let data = lcg_bytes(6 * MIB, 12345);
    let cs = chunk_all(&t, &data);
    let (last, cut) = cs.split_last().unwrap();
    for c in cut {
        assert!(MINSIZE <= c.length && c.length <= MAXSIZE);
        if c.length < MAXSIZE {
            assert_eq!(c.cutfp & 0xFFFFF, 0);
        }
    }
    assert!(last.length > 0 && last.length < MAXSIZE);
}

#[test]
fn streaming_in_pieces_is_transparent() {
    let t = Table::new();
    let data = lcg_bytes(6 * MIB, 12345);
    let whole = chunk_all(&t, &data);
    assert_eq!(feed_in_pieces(&t, &data, MIB), whole);
    assert_eq!(feed_in_pieces(&t, &data, 333_333), whole);
    assert_eq!(feed_in_pieces(&t, &data, 1_411_201), whole);
}

#[test]
fn next_chunk_split_at_any_point() {
    let t = Table::new();
    let data = lcg_bytes(3 * MIB, 12345);
    let mut one = Rabin::new(&t);
    let mut expected = Vec::new();
    drain_with_next_chunk(&mut one, &data, &mut expected);
    for split in [0usize, 1, 777, 1_411_200, 1_411_201, 1_411_202, 2_000_000, data.len()] {
        let mut r = Rabin::new(&t);
        let mut got = Vec::new();
        drain_with_next_chunk(&mut r, &data[..split], &mut got);
        drain_with_next_chunk(&mut r, &data[split..], &mut got);
        assert_eq!(got, expected);
        assert_eq!(r.rabin_finalize(), one.rabin_finalize());
    }
}

#[test]
fn edit_inside_a_chunk_keeps_the_boundaries() {
    let t = Table::new();
    let data = lcg_bytes(6 * MIB, 12345);
    let mut edited = data.clone();
    edited[5 * MIB + 100] ^= 0x5a;
    let cs = chunk_all(&t, &edited);
    assert_eq!(cs, random_chunks());
}

#[test]
fn edit_keeps_earlier_chunks() {
    let t = Table::new();
    let data = lcg_bytes(6 * MIB, 12345);
    let mut edited = data[..4_000_000].to_vec();
    edited.extend_from_slice(&[1, 2, 3, 4, 5]);
    edited.extend_from_slice(&data[4_000_000..]);
    let before = chunk_all(&t, &data);
    let after = chunk_all(&t, &edited);
    assert_eq!(&after[..2], &before[..2]);
    assert_eq!(after[2], chunk(before[2].start, before[2].length + 5, before[2].cutfp));
    for (a, b) in after[3..].iter().zip(before[3..].iter()) {
        assert_eq!(*a, chunk(b.start + 5, b.length, b.cutfp));
    }
    assert_eq!(after.len(), before.len());
    let total: usize = after.iter().map(|c| c.length).sum();
    assert_eq!(total, edited.len());
}

#[test]
fn average_chunk_size() {
    assert_eq!(average_size(10, 3), 3);
    assert_eq!(average_size(6 * MIB, 5), 1258291);
    assert_eq!(average_size(100, 0), 0);
}

#[test]
fn digest_depends_only_on_the_window() {
    let t = Table::new();
    let tail = lcg_bytes(WINSIZE, 99);
    let mut a = vec![b'A'; 100];
    a.extend_from_slice(&tail);
    let mut b = lcg_bytes(100, 7);
    b.extend_from_slice(&tail);
    let fa = chunk_all(&t, &a);
    let fb = chunk_all(&t, &b);
    assert_eq!(fa.len(), 1);
    assert_eq!(fb.len(), 1);
    assert_eq!(fa[0].cutfp, fb[0].cutfp);
    let mut c = lcg_bytes(100, 7);
    c.extend_from_slice(&tail[1..]);
    c.push(tail[0] ^ 1);
    assert_ne!(chunk_all(&t, &c)[0].cutfp, fa[0].cutfp);
}

#[test]
fn one_byte_digest_is_the_primed_polynomial_with_the_byte() {
    let t = Table::new();
    assert_eq!(chunk_all(&t, &[7]), vec![chunk(0, 1, 0x107)]);
    assert_eq!(chunk_all(&t, &[7, 9]), vec![chunk(0, 2, 0x10709)]);
}
