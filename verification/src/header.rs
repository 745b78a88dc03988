use vstd::prelude::*;
use crate::checksum::{be16, push_be16};
use crate::flags::TcpFlags;
use crate::seqnum::SeqNum;

verus! {

/// The fixed part of a TCP header, as read from or written to the wire.
#[derive(Debug, Clone, Copy, PartialEq, Eq, Structural)]
pub struct TcpHeader {
    pub src_port: u16,
    pub dst_port: u16,
    pub seq: SeqNum,
    pub ack: SeqNum,
    /// The header length in bytes.
    pub data_offset: u8,
    pub flags: TcpFlags,
    pub window: u16,
    pub checksum: u16,
}

/// The bytes of `x`, most significant first.
pub open spec fn be32(x: u32) -> Seq<u8> {
    seq![
        (x / 0x1000000) as u8,
        ((x / 0x10000) % 256) as u8,
        ((x / 0x100) % 256) as u8,
        (x % 256) as u8,
    ]
}

/// The 16-bit big-endian number at offset `i` of `s`.
pub open spec fn get_be16(s: Seq<u8>, i: int) -> u16 {
    (s[i] as int * 256 + s[i + 1] as int) as u16
}

/// The 32-bit big-endian number at offset `i` of `s`.
pub open spec fn get_be32(s: Seq<u8>, i: int) -> u32 {
    (s[i] as int * 0x1000000 + s[i + 1] as int * 0x10000 + s[i + 2] as int * 0x100 + s[i
        + 3] as int) as u32
}

/// The twenty bytes that `serialize` writes for `h`: the header length is
/// always five words, the checksum and urgent pointer fields zero.
pub open spec fn serialize_spec(h: TcpHeader) -> Seq<u8> {
    be16(h.src_port) + be16(h.dst_port) + be32(h.seq.0) + be32(h.ack.0) + seq![0x50u8, h.flags.bits]
        + be16(h.window) + seq![0u8, 0u8, 0u8, 0u8]
}

/// What `parse` makes of `buf`: the header and the offset at which the
/// payload starts, or nothing when `buf` is shorter than twenty bytes or than
/// the header length it announces.
pub open spec fn parse_spec(buf: Seq<u8>) -> Option<(TcpHeader, int)> {
    if buf.len() < 20 {
        None
    } else {
        let off = (buf[12] / 16) as int * 4;
        if buf.len() < off {
            None
        } else {
            Some(
                (
                    TcpHeader {
                        src_port: get_be16(buf, 0),
                        dst_port: get_be16(buf, 2),
                        seq: SeqNum(get_be32(buf, 4)),
                        ack: SeqNum(get_be32(buf, 8)),
                        data_offset: off as u8,
                        flags: TcpFlags { bits: buf[13] },
                        window: get_be16(buf, 14),
                        checksum: get_be16(buf, 16),
                    },
                    off,
                ),
            )
        }
    }
}

/// Appends the four bytes of `x`, most significant first.
pub fn push_be32(v: &mut Vec<u8>, x: u32)
    ensures
        final(v)@ == old(v)@ + be32(x),
{
    v.push((x / 0x1000000) as u8);
    v.push(((x / 0x10000) % 256) as u8);
    v.push(((x / 0x100) % 256) as u8);
    v.push((x % 256) as u8);
    assert(v@ =~= old(v)@ + be32(x));
}

/// Reads the 16-bit big-endian number at offset `i`.
pub fn read_be16(s: &[u8], i: usize) -> (r: u16)
    requires
        i + 1 < s@.len(),
    ensures
        r == get_be16(s@, i as int),
{
    (s[i] as u16) * 256 + s[i + 1] as u16
}

/// Reads the 32-bit big-endian number at offset `i`.
pub fn read_be32(s: &[u8], i: usize) -> (r: u32)
    requires
        i + 3 < s@.len(),
    ensures
        r == get_be32(s@, i as int),
{
    (s[i] as u32) * 0x1000000 + (s[i + 1] as u32) * 0x10000 + (s[i + 2] as u32) * 0x100 + s[i
        + 3] as u32
}

impl TcpHeader {
    /// Reads a TCP header from the start of `buf` and returns it with the
    /// payload that follows the announced header length.
    pub fn parse(buf: &[u8]) -> (r: Option<(TcpHeader, &[u8])>)
        ensures
            match parse_spec(buf@) {
                None => r is None,
                Some((h, off)) => r matches Some((rh, p)) && rh == h && p@ == buf@.skip(off),
            },
    {
        if buf.len() < 20 {
            return None;
        }
        let src_port = read_be16(buf, 0);
        let dst_port = read_be16(buf, 2);
        let seq = SeqNum(read_be32(buf, 4));
        let ack = SeqNum(read_be32(buf, 8));
        let b12 = buf[12];
        let hi4 = b12 >> 4;
        assert(hi4 == b12 / 16) by (bit_vector)
            requires
                hi4 == b12 >> 4,
        ;
        let data_offset = hi4 * 4;
        let flags = TcpFlags::from_bits_retain(buf[13]);
        let window = read_be16(buf, 14);
        let checksum = read_be16(buf, 16);
        if buf.len() < data_offset as usize {
            return None;
        }
        let payload = vstd::slice::slice_subrange(buf, data_offset as usize, buf.len());
        assert(payload@ =~= buf@.skip(data_offset as int));
        Some(
            (
                TcpHeader {
                    src_port,
                    dst_port,
                    seq,
                    ack,
                    data_offset,
                    flags,
                    window,
                    checksum,
                },
                payload,
            ),
        )
    }

    /// Writes the header as twenty bytes: a five-word header length, a zero
    /// checksum and a zero urgent pointer, whatever `data_offset` and
    /// `checksum` hold.
    pub fn serialize(&self) -> (r: Vec<u8>)
        ensures
            r@ == serialize_spec(*self),
    {
        let mut buf: Vec<u8> = Vec::new();
        push_be16(&mut buf, self.src_port);
        push_be16(&mut buf, self.dst_port);
        push_be32(&mut buf, self.seq.0);
        push_be32(&mut buf, self.ack.0);
        buf.push(0x50);
        buf.push(self.flags.bits());
        push_be16(&mut buf, self.window);
        buf.push(0);
        buf.push(0);
        buf.push(0);
        buf.push(0);
        assert(buf@ =~= serialize_spec(*self));
        buf
    }
}

/// Reading back the bytes of a 16-bit number gives the number.
pub proof fn lemma_be16_roundtrip(x: u16)
    ensures
        get_be16(be16(x), 0) == x,
{
}

/// Reading back the bytes of a 32-bit number gives the number.
pub proof fn lemma_be32_roundtrip(x: u32)
    ensures
        get_be32(be32(x), 0) == x,
{
    let b = be32(x);
    assert(b[0] as int * 0x1000000 + b[1] as int * 0x10000 + b[2] as int * 0x100 + b[3] as int
        == x) by (nonlinear_arith)
        requires
            b[0] == (x / 0x1000000) as u8,
            b[1] == ((x / 0x10000) % 256) as u8,
            b[2] == ((x / 0x100) % 256) as u8,
            b[3] == (x % 256) as u8,
            x <= u32::MAX,
    ;
}

/// Parsing what `serialize` wrote, followed by any payload, gives back the
/// header, with a twenty-byte header length and a zero checksum, and the
/// payload.
pub proof fn law_parse_serialize(h: TcpHeader, payload: Seq<u8>)
    ensures
        parse_spec(serialize_spec(h) + payload) == Some(
            (TcpHeader { data_offset: 20, checksum: 0, ..h }, 20int),
        ),
        (serialize_spec(h) + payload).skip(20) == payload,
{
    let s = serialize_spec(h) + payload;
    assert(s.skip(20) =~= payload);
    lemma_be16_roundtrip(h.src_port);
    lemma_be16_roundtrip(h.dst_port);
    lemma_be16_roundtrip(h.window);
    lemma_be32_roundtrip(h.seq.0);
    lemma_be32_roundtrip(h.ack.0);
    assert(s.subrange(0, 2) =~= be16(h.src_port));
    assert(s.subrange(2, 4) =~= be16(h.dst_port));
    assert(s.subrange(4, 8) =~= be32(h.seq.0));
    assert(s.subrange(8, 12) =~= be32(h.ack.0));
    assert(s.subrange(14, 16) =~= be16(h.window));
    assert(get_be16(s, 0) == get_be16(s.subrange(0, 2), 0));
    assert(get_be16(s, 2) == get_be16(s.subrange(2, 4), 0));
    assert(get_be32(s, 4) == get_be32(s.subrange(4, 8), 0));
    assert(get_be32(s, 8) == get_be32(s.subrange(8, 12), 0));
    assert(get_be16(s, 14) == get_be16(s.subrange(14, 16), 0));
}

} // verus!
