//! The wire format: a 24-byte little-endian header followed by the payload.

use vstd::prelude::*;

verus! {

/// Length of the segment header on the wire.
pub const OVERHEAD: usize = 24;

/// Command: the segment carries application data.
pub const CMD_PUSH: u8 = 81;

/// Command: the segment acknowledges one sequence number.
pub const CMD_ACK: u8 = 82;

/// Command: the sender asks for the receiver's window.
pub const CMD_WASK: u8 = 83;

/// Command: the sender tells its window.
pub const CMD_WINS: u8 = 84;

/// The fields a segment carries on the wire.
#[derive(Clone, Copy, Debug, PartialEq, Eq, Structural)]
pub struct Header {
    pub conv: u32,
    pub cmd: u8,
    pub frg: u8,
    pub wnd: u16,
    pub ts: u32,
    pub sn: u32,
    pub una: u32,
    pub len: u32,
}

/// The two bytes of `v`, least significant first.
pub open spec fn le16(v: u16) -> Seq<u8> {
    seq![(v % 256) as u8, (v / 256) as u8]
}

/// The four bytes of `v`, least significant first.
pub open spec fn le32(v: u32) -> Seq<u8> {
    seq![
        (v % 256) as u8,
        ((v / 0x100) % 256) as u8,
        ((v / 0x1_0000) % 256) as u8,
        (v / 0x100_0000) as u8,
    ]
}

/// The number whose little-endian bytes are `b[0]`, `b[1]`.
pub open spec fn from_le16(b: Seq<u8>) -> u16
    recommends
        b.len() == 2,
{
    (b[0] as int + b[1] as int * 0x100) as u16
}

/// The number whose little-endian bytes are `b[0]` to `b[3]`.
pub open spec fn from_le32(b: Seq<u8>) -> u32
    recommends
        b.len() == 4,
{
    (b[0] as int + b[1] as int * 0x100 + b[2] as int * 0x1_0000 + b[3] as int * 0x100_0000) as u32
}

/// Whether `cmd` is one of the four commands of the protocol.
pub open spec fn known_cmd(cmd: u8) -> bool {
    cmd == CMD_PUSH || cmd == CMD_ACK || cmd == CMD_WASK || cmd == CMD_WINS
}

/// The header as it stands on the wire: conv, cmd, frg, wnd, ts, sn, una, len.
pub open spec fn spec_encode_header(h: Header) -> Seq<u8> {
    le32(h.conv) + seq![h.cmd, h.frg] + le16(h.wnd) + le32(h.ts) + le32(h.sn) + le32(h.una) + le32(
        h.len,
    )
}

/// The header that the first 24 bytes of `b` spell.
pub open spec fn spec_decode_header(b: Seq<u8>) -> Header
    recommends
        b.len() >= 24,
{
    Header {
        conv: from_le32(b.subrange(0, 4)),
        cmd: b[4],
        frg: b[5],
        wnd: from_le16(b.subrange(6, 8)),
        ts: from_le32(b.subrange(8, 12)),
        sn: from_le32(b.subrange(12, 16)),
        una: from_le32(b.subrange(16, 20)),
        len: from_le32(b.subrange(20, 24)),
    }
}

/// Reading back the bytes of a 16-bit number gives the number.
pub proof fn lemma_le16_roundtrip(v: u16)
    ensures
        le16(v).len() == 2,
        from_le16(le16(v)) == v,
{
}

/// Reading back the bytes of a 32-bit number gives the number.
pub proof fn lemma_le32_roundtrip(v: u32)
    ensures
        le32(v).len() == 4,
        from_le32(le32(v)) == v,
{
}

/// Writing out the number read from four bytes gives the four bytes.
pub proof fn lemma_le32_bytes_roundtrip(b: Seq<u8>)
    requires
        b.len() == 4,
    ensures
        le32(from_le32(b)) == b,
{
    let b0 = b[0] as int;
    let b1 = b[1] as int;
    let b2 = b[2] as int;
    let b3 = b[3] as int;
    let hi1 = b1 + b2 * 0x100 + b3 * 0x1_0000;
    let hi2 = b2 + b3 * 0x100;
    let v = b0 + b1 * 0x100 + b2 * 0x1_0000 + b3 * 0x100_0000;
    assert(v == b0 + hi1 * 0x100);
    assert(v / 0x100 == hi1 && v % 0x100 == b0);
    assert(hi1 == b1 + hi2 * 0x100);
    assert(hi1 / 0x100 == hi2 && hi1 % 0x100 == b1);
    assert(v / 0x1_0000 == hi2) by {
        assert(v == (b0 + b1 * 0x100) + hi2 * 0x1_0000);
    }
    assert(hi2 / 0x100 == b3 && hi2 % 0x100 == b2);
    assert(v / 0x100_0000 == b3) by {
        assert(v == (b0 + b1 * 0x100 + b2 * 0x1_0000) + b3 * 0x100_0000);
    }
    assert(le32(from_le32(b)) =~= b);
}

/// Writing out the number read from two bytes gives the two bytes.
pub proof fn lemma_le16_bytes_roundtrip(b: Seq<u8>)
    requires
        b.len() == 2,
    ensures
        le16(from_le16(b)) == b,
{
    assert(le16(from_le16(b)) =~= b);
}

/// An encoded header is exactly 24 bytes long.
pub proof fn lemma_header_size(h: Header)
    ensures
        spec_encode_header(h).len() == OVERHEAD,
{
}

/// Decoding an encoded header gives back every field.
pub proof fn lemma_header_roundtrip(h: Header)
    ensures
        spec_decode_header(spec_encode_header(h)) == h,
{
    let b = spec_encode_header(h);
    assert(b.subrange(0, 4) =~= le32(h.conv));
    assert(b.subrange(6, 8) =~= le16(h.wnd));
    assert(b.subrange(8, 12) =~= le32(h.ts));
    assert(b.subrange(12, 16) =~= le32(h.sn));
    assert(b.subrange(16, 20) =~= le32(h.una));
    assert(b.subrange(20, 24) =~= le32(h.len));
    lemma_le32_roundtrip(h.conv);
    lemma_le16_roundtrip(h.wnd);
    lemma_le32_roundtrip(h.ts);
    lemma_le32_roundtrip(h.sn);
    lemma_le32_roundtrip(h.una);
    lemma_le32_roundtrip(h.len);
}

/// Decoding looks at the first 24 bytes only.
pub proof fn lemma_decode_reads_front(b: Seq<u8>, c: Seq<u8>)
    requires
        b.len() >= OVERHEAD,
        c.len() >= OVERHEAD,
        b.subrange(0, OVERHEAD as int) == c.subrange(0, OVERHEAD as int),
    ensures
        spec_decode_header(b) == spec_decode_header(c),
{
    let bf = b.subrange(0, OVERHEAD as int);
    let cf = c.subrange(0, OVERHEAD as int);
    assert(b[4] == bf[4] && c[4] == cf[4]);
    assert(b[5] == bf[5] && c[5] == cf[5]);
    assert(b.subrange(0, 4) =~= bf.subrange(0, 4) && c.subrange(0, 4) =~= cf.subrange(0, 4));
    assert(b.subrange(6, 8) =~= bf.subrange(6, 8) && c.subrange(6, 8) =~= cf.subrange(6, 8));
    assert(b.subrange(8, 12) =~= bf.subrange(8, 12) && c.subrange(8, 12) =~= cf.subrange(8, 12));
    assert(b.subrange(12, 16) =~= bf.subrange(12, 16) && c.subrange(12, 16) =~= cf.subrange(
        12,
        16,
    ));
    assert(b.subrange(16, 20) =~= bf.subrange(16, 20) && c.subrange(16, 20) =~= cf.subrange(
        16,
        20,
    ));
    assert(b.subrange(20, 24) =~= bf.subrange(20, 24) && c.subrange(20, 24) =~= cf.subrange(
        20,
        24,
    ));
}

/// Encoding the header read from 24 bytes gives back the 24 bytes: no two
/// byte strings decode to the same header.
pub proof fn lemma_header_bytes_roundtrip(b: Seq<u8>)
    requires
        b.len() == OVERHEAD,
    ensures
        spec_encode_header(spec_decode_header(b)) == b,
{
    lemma_le32_bytes_roundtrip(b.subrange(0, 4));
    lemma_le16_bytes_roundtrip(b.subrange(6, 8));
    lemma_le32_bytes_roundtrip(b.subrange(8, 12));
    lemma_le32_bytes_roundtrip(b.subrange(12, 16));
    lemma_le32_bytes_roundtrip(b.subrange(16, 20));
    lemma_le32_bytes_roundtrip(b.subrange(20, 24));
    assert(spec_encode_header(spec_decode_header(b)) =~= b);
}

/// Writes `n` at `buf[*p..*p + 4]`, least significant byte first, and moves
/// `p` past it.
pub fn encode32u(buf: &mut [u8], p: &mut usize, n: u32)
    requires
        *old(p) + 4 <= old(buf)@.len(),
    ensures
        *final(p) == *old(p) + 4,
        final(buf)@.len() == old(buf)@.len(),
        final(buf)@.subrange(*old(p) as int, *old(p) + 4) == le32(n),
        forall|i: int|
            0 <= i < old(buf)@.len() && !(*old(p) <= i < *old(p) + 4) ==> final(buf)@[i] == old(
                buf,
            )@[i],
{
    let at: usize = *p;
    buf[at] = (n % 256) as u8;
    buf[at + 1] = ((n / 0x100) % 256) as u8;
    buf[at + 2] = ((n / 0x1_0000) % 256) as u8;
    buf[at + 3] = (n / 0x100_0000) as u8;
    *p = at + 4;
    assert(buf@.subrange(at as int, at + 4) =~= le32(n));
}

/// Writes `n` at `buf[*p..*p + 2]`, least significant byte first, and moves
/// `p` past it.
pub fn encode16u(buf: &mut [u8], p: &mut usize, n: u16)
    requires
        *old(p) + 2 <= old(buf)@.len(),
    ensures
        *final(p) == *old(p) + 2,
        final(buf)@.len() == old(buf)@.len(),
        final(buf)@.subrange(*old(p) as int, *old(p) + 2) == le16(n),
        forall|i: int|
            0 <= i < old(buf)@.len() && !(*old(p) <= i < *old(p) + 2) ==> final(buf)@[i] == old(
                buf,
            )@[i],
{
    let at: usize = *p;
    buf[at] = (n % 256) as u8;
    buf[at + 1] = (n / 0x100) as u8;
    *p = at + 2;
    assert(buf@.subrange(at as int, at + 2) =~= le16(n));
}

/// Reads the little-endian number at `buf[*p..*p + 4]` and moves `p` past it.
pub fn decode32u(buf: &[u8], p: &mut usize) -> (n: u32)
    requires
        *old(p) + 4 <= buf@.len(),
    ensures
        *final(p) == *old(p) + 4,
        n == from_le32(buf@.subrange(*old(p) as int, *old(p) + 4)),
{
    let at: usize = *p;
    let b0: u32 = buf[at] as u32;
    let b1: u32 = buf[at + 1] as u32;
    let b2: u32 = buf[at + 2] as u32;
    let b3: u32 = buf[at + 3] as u32;
    *p = at + 4;
    b0 + b1 * 0x100 + b2 * 0x1_0000 + b3 * 0x100_0000
}

/// Reads the little-endian number at `buf[*p..*p + 2]` and moves `p` past it.
pub fn decode16u(buf: &[u8], p: &mut usize) -> (n: u16)
    requires
        *old(p) + 2 <= buf@.len(),
    ensures
        *final(p) == *old(p) + 2,
        n == from_le16(buf@.subrange(*old(p) as int, *old(p) + 2)),
{
    let at: usize = *p;
    let b0: u16 = buf[at] as u16;
    let b1: u16 = buf[at + 1] as u16;
    *p = at + 2;
    b0 + b1 * 0x100
}

/// The 24 bytes that carry `h` on the wire.
pub fn encode_header(h: &Header) -> (out: [u8; 24])
    ensures
        out@ == spec_encode_header(*h),
{
    let mut out: [u8; 24] = [0u8; 24];
    let mut p: usize = 0;
    encode32u(&mut out, &mut p, h.conv);
    out[4] = h.cmd;
    out[5] = h.frg;
    p = 6;
    encode16u(&mut out, &mut p, h.wnd);
    encode32u(&mut out, &mut p, h.ts);
    encode32u(&mut out, &mut p, h.sn);
    encode32u(&mut out, &mut p, h.una);
    encode32u(&mut out, &mut p, h.len);
    assert(out@ =~= spec_encode_header(*h));
    out
}

/// The header that stands at `buf[at..at + 24]`.
pub fn decode_header(buf: &[u8], at: usize) -> (h: Header)
    requires
        at + 24 <= buf@.len(),
    ensures
        h == spec_decode_header(buf@.subrange(at as int, at + 24)),
{
    let ghost b = buf@.subrange(at as int, at + 24);
    let mut p: usize = at;
    let conv: u32 = decode32u(buf, &mut p);
    let cmd: u8 = buf[p];
    let frg: u8 = buf[p + 1];
    p = p + 2;
    let wnd: u16 = decode16u(buf, &mut p);
    let ts: u32 = decode32u(buf, &mut p);
    let sn: u32 = decode32u(buf, &mut p);
    let una: u32 = decode32u(buf, &mut p);
    let len: u32 = decode32u(buf, &mut p);
    proof {
        assert(b.subrange(0, 4) =~= buf@.subrange(at as int, at + 4));
        assert(b.subrange(6, 8) =~= buf@.subrange(at + 6, at + 8));
        assert(b.subrange(8, 12) =~= buf@.subrange(at + 8, at + 12));
        assert(b.subrange(12, 16) =~= buf@.subrange(at + 12, at + 16));
        assert(b.subrange(16, 20) =~= buf@.subrange(at + 16, at + 20));
        assert(b.subrange(20, 24) =~= buf@.subrange(at + 20, at + 24));
    }
    Header { conv, cmd, frg, wnd, ts, sn, una, len }
}

} // verus!
