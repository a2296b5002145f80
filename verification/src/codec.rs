use vstd::prelude::*;

use crate::record::{Point, Triangle};

verus! {

/// Bytes of one encoded record: six 32-bit integers.
pub const RECORD_BYTES: usize = 24;

/// Why a byte string was refused as a record file.
#[derive(Clone, Copy, Debug, PartialEq, Eq, Structural)]
pub enum CodecError {
    /// The length is not an exact multiple of one record's width.
    RaggedLength,
}

/// The four little-endian bytes of a 32-bit integer's two's complement.
pub open spec fn i32_le_bytes(v: i32) -> Seq<u8> {
    let u = (v as int) % 0x100000000;
    seq![
        (u % 256) as u8,
        ((u / 256) % 256) as u8,
        ((u / 65536) % 256) as u8,
        ((u / 16777216) % 256) as u8,
    ]
}

/// The 32-bit integer four little-endian bytes spell.
pub open spec fn i32_of_le(b: Seq<u8>) -> i32 {
    let u = b[0] + 256 * (b[1] as int) + 65536 * (b[2] as int) + 16777216 * (b[3] as int);
    if u < 0x80000000 {
        u as i32
    } else {
        (u - 0x100000000) as i32
    }
}

/// The fixed-width binary encoding of one record: its six coordinates,
/// each as four little-endian bytes, in field order.
pub open spec fn triangle_bytes(t: Triangle) -> Seq<u8> {
    i32_le_bytes(t.a.x) + i32_le_bytes(t.a.y) + i32_le_bytes(t.b.x) + i32_le_bytes(t.b.y)
        + i32_le_bytes(t.c.x) + i32_le_bytes(t.c.y)
}

/// The record 24 bytes spell.
pub open spec fn triangle_of_bytes(b: Seq<u8>) -> Triangle {
    Triangle {
        a: Point { x: i32_of_le(b.subrange(0, 4)), y: i32_of_le(b.subrange(4, 8)) },
        b: Point { x: i32_of_le(b.subrange(8, 12)), y: i32_of_le(b.subrange(12, 16)) },
        c: Point { x: i32_of_le(b.subrange(16, 20)), y: i32_of_le(b.subrange(20, 24)) },
    }
}

/// The flat binary file format: records back to back, no header, no
/// delimiters, no length prefixes.
pub open spec fn records_bytes(s: Seq<Triangle>) -> Seq<u8>
    decreases s.len(),
{
    if s.len() == 0 {
        Seq::empty()
    } else {
        records_bytes(s.drop_last()) + triangle_bytes(s.last())
    }
}

/// Reading back the four bytes of an integer gives the integer.
pub proof fn lemma_i32_round_trip(v: i32)
    ensures
        i32_of_le(i32_le_bytes(v)) == v,
{
    let u = (v as int) % 0x100000000;
    assert(0 <= u && u < 0x100000000) by (nonlinear_arith)
        requires
            u == (v as int) % 0x100000000,
    ;
    if v >= 0 {
        assert(u == v as int) by (nonlinear_arith)
            requires
                0 <= (v as int),
                (v as int) < 0x100000000,
                u == (v as int) % 0x100000000,
        ;
    } else {
        assert(u == v as int + 0x100000000) by (nonlinear_arith)
            requires
                -0x100000000 <= (v as int),
                (v as int) < 0,
                u == (v as int) % 0x100000000,
        ;
    }
    let b0 = u % 256;
    let b1 = (u / 256) % 256;
    let b2 = (u / 65536) % 256;
    let b3 = (u / 16777216) % 256;
    assert(b0 + 256 * b1 + 65536 * b2 + 16777216 * b3 == u) by (nonlinear_arith)
        requires
            0 <= u,
            u < 0x100000000,
            b0 == u % 256,
            b1 == (u / 256) % 256,
            b2 == (u / 65536) % 256,
            b3 == (u / 16777216) % 256,
    ;
    assert(i32_le_bytes(v)[0] == b0 as u8 && i32_le_bytes(v)[1] == b1 as u8 && i32_le_bytes(v)[2]
        == b2 as u8 && i32_le_bytes(v)[3] == b3 as u8);
}

/// Reading back an encoded record gives the record.
pub proof fn lemma_triangle_round_trip(t: Triangle)
    ensures
        triangle_bytes(t).len() == 24,
        triangle_of_bytes(triangle_bytes(t)) == t,
{
    let b = triangle_bytes(t);
    assert(b.subrange(0, 4) =~= i32_le_bytes(t.a.x));
    assert(b.subrange(4, 8) =~= i32_le_bytes(t.a.y));
    assert(b.subrange(8, 12) =~= i32_le_bytes(t.b.x));
    assert(b.subrange(12, 16) =~= i32_le_bytes(t.b.y));
    assert(b.subrange(16, 20) =~= i32_le_bytes(t.c.x));
    assert(b.subrange(20, 24) =~= i32_le_bytes(t.c.y));
    lemma_i32_round_trip(t.a.x);
    lemma_i32_round_trip(t.a.y);
    lemma_i32_round_trip(t.b.x);
    lemma_i32_round_trip(t.b.y);
    lemma_i32_round_trip(t.c.x);
    lemma_i32_round_trip(t.c.y);
}

/// Relies on bincode::serialize: with its default configuration it writes
/// each 32-bit integer of the tuple as four fixed-width little-endian
/// two's-complement bytes, in order, and serialization of plain integers
/// into a vector has no failure path.
#[verifier::external_body]
fn encode_triangle(t: &Triangle) -> (r: Vec<u8>)
    ensures
        r@ == triangle_bytes(*t),
{
    match bincode::serialize(&(t.a.x, t.a.y, t.b.x, t.b.y, t.c.x, t.c.y)) {
        Ok(v) => v,
        // unreachable: writing integers into a vector cannot fail; the arm
        // only keeps the body total
        Err(_) => Vec::new(),
    }
}

/// Relies on bincode::deserialize: with its default configuration it reads
/// six fixed-width little-endian 32-bit integers, which from exactly 24
/// bytes cannot fail.
#[verifier::external_body]
fn decode_triangle(bytes: &Vec<u8>, off: usize) -> (r: Triangle)
    requires
        off + 24 <= bytes@.len(),
    ensures
        r == triangle_of_bytes(bytes@.subrange(off as int, off as int + 24)),
{
    let window = &bytes[off..off + 24];
    match bincode::deserialize::<(i32, i32, i32, i32, i32, i32)>(window) {
        Ok((ax, ay, bx, by, cx, cy)) => Triangle {
            a: Point { x: ax, y: ay },
            b: Point { x: bx, y: by },
            c: Point { x: cx, y: cy },
        },
        // unreachable: 24 bytes always decode; the arm only keeps the body
        // total
        Err(_) => Triangle {
            a: Point { x: 0, y: 0 },
            b: Point { x: 0, y: 0 },
            c: Point { x: 0, y: 0 },
        },
    }
}

/// Encodes records back to back in the flat binary file format.
pub fn encode_records(recs: &Vec<Triangle>) -> (r: Vec<u8>)
    ensures
        r@ == records_bytes(recs@),
        r@.len() == 24 * recs@.len(),
{
    let mut out: Vec<u8> = Vec::new();
    let mut i: usize = 0;
    proof {
        assert(recs@.take(0) =~= Seq::<Triangle>::empty());
    }
    while i < recs.len()
        invariant
            i <= recs@.len(),
            out@ == records_bytes(recs@.take(i as int)),
            out@.len() == 24 * i,
        decreases recs@.len() - i,
    {
        let mut chunk = encode_triangle(&recs[i]);
        proof {
            lemma_triangle_round_trip(recs@[i as int]);
            assert(recs@.take(i as int + 1).drop_last() =~= recs@.take(i as int));
            assert(recs@.take(i as int + 1).last() == recs@[i as int]);
        }
        out.append(&mut chunk);
        i += 1;
    }
    proof {
        assert(recs@.take(recs@.len() as int) =~= recs@);
    }
    out
}

/// Decodes a flat binary record file. The length must be an exact multiple
/// of one record's width; a ragged length is refused before any record is
/// produced.
pub fn decode_records(bytes: &Vec<u8>) -> (r: Result<Vec<Triangle>, CodecError>)
    ensures
        r is Ok <==> bytes@.len() % 24 == 0,
        r is Ok ==> ({
            let v = r->Ok_0;
            &&& v@.len() * 24 == bytes@.len()
            &&& forall|k: int|
                0 <= k < v@.len() ==> #[trigger] v@[k] == triangle_of_bytes(
                    bytes@.subrange(24 * k, 24 * k + 24),
                )
        }),
        !(r is Ok) ==> r == Err::<Vec<Triangle>, CodecError>(CodecError::RaggedLength),
{
    if bytes.len() % 24 != 0 {
        return Err(CodecError::RaggedLength);
    }
    let mut out: Vec<Triangle> = Vec::new();
    let mut off: usize = 0;
    while off < bytes.len()
        invariant
            off <= bytes@.len(),
            off % 24 == 0,
            bytes@.len() % 24 == 0,
            out@.len() * 24 == off,
            forall|k: int|
                0 <= k < out@.len() ==> #[trigger] out@[k] == triangle_of_bytes(
                    bytes@.subrange(24 * k, 24 * k + 24),
                ),
        decreases bytes@.len() - off,
    {
        proof {
            assert(off + 24 <= bytes@.len()) by (nonlinear_arith)
                requires
                    off < bytes@.len(),
                    off % 24 == 0,
                    bytes@.len() % 24 == 0,
                    off >= 0,
            ;
        }
        let t = decode_triangle(bytes, off);
        out.push(t);
        off += 24;
    }
    Ok(out)
}

} // verus!
