use vstd::prelude::*;
use crate::addr::{Ipv4Address, MacAddress};
use crate::checksum::{
    append_bytes, be16, checksum, checksum_fits, checksum_spec, lemma_words_sum_bound,
    pseudo_header, push_be16, tcp_checksum, tcp_checksum_spec,
};
use crate::header::{
    get_be16, law_parse_serialize, lemma_be16_roundtrip, parse_spec, serialize_spec, TcpHeader,
};
use crate::checksum::{law_checksum_fill, law_tcp_checksum_fill};

verus! {

/// The longest TCP segment the stack builds or re-checksums: a twenty-byte
/// header and up to 65535 bytes of payload.
pub open spec fn max_segment_len() -> nat {
    65555
}

/// The views of a queue of byte vectors.
pub open spec fn frames_view(q: Seq<Vec<u8>>) -> Seq<Seq<u8>> {
    q.map_values(|v: Vec<u8>| v@)
}

/// `s` with the two bytes at `i` and `i + 1` set to `x`, most significant first.
pub open spec fn put_be16(s: Seq<u8>, i: int, x: u16) -> Seq<u8> {
    s.update(i, be16(x)[0]).update(i + 1, be16(x)[1])
}

/// `seg` with its checksum field (bytes 16 and 17) set to the TCP checksum of
/// `seg` as it stands.
pub open spec fn fill_tcp_checksum(src: Ipv4Address, dst: Ipv4Address, seg: Seq<u8>) -> Seq<u8> {
    put_be16(seg, 16, tcp_checksum_spec(src, dst, seg))
}

/// The TCP segment made of header `h` and `payload`, its checksum filled in.
#[verifier::opaque]
pub open spec fn tcp_segment(h: TcpHeader, payload: Seq<u8>, src: Ipv4Address, dst: Ipv4Address) -> Seq<u8> {
    fill_tcp_checksum(src, dst, serialize_spec(h) + payload)
}

/// `seg` with its checksum field cleared and computed again.
pub open spec fn refresh_tcp_checksum(src: Ipv4Address, dst: Ipv4Address, seg: Seq<u8>) -> Seq<u8> {
    fill_tcp_checksum(src, dst, put_be16(seg, 16, 0))
}

/// The IPv4 header of a TCP packet whose payload is `len` bytes long, before
/// its checksum is filled in: version 4, five words, total length cut to 16
/// bits, don't-fragment, time to live 64, protocol 6.
pub open spec fn ipv4_header_raw(src: Ipv4Address, dst: Ipv4Address, len: nat) -> Seq<u8> {
    seq![0x45u8, 0x00u8] + be16(((20 + len) % 0x10000) as u16) + seq![
        0u8,
        0u8,
        0x40u8,
        0x00u8,
        64u8,
        6u8,
        0u8,
        0u8,
    ] + src.bytes() + dst.bytes()
}

/// The IPv4 header with its checksum (bytes 10 and 11) filled in.
pub open spec fn ipv4_header(src: Ipv4Address, dst: Ipv4Address, len: nat) -> Seq<u8> {
    let raw = ipv4_header_raw(src, dst, len);
    put_be16(raw, 10, checksum_spec(raw))
}

/// An Ethernet frame carrying an IPv4 packet that carries `tcp`.
#[verifier::opaque]
pub open spec fn ipv4_tcp_frame(
    dst_mac: MacAddress,
    src_mac: MacAddress,
    src: Ipv4Address,
    dst: Ipv4Address,
    tcp: Seq<u8>,
) -> Seq<u8> {
    dst_mac.bytes() + src_mac.bytes() + seq![0x08u8, 0x00u8] + ipv4_header(src, dst, tcp.len()) + tcp
}

/// The common part of an ARP packet for IPv4 over Ethernet, up to the
/// operation code `op`.
pub open spec fn arp_prefix(dst_mac: Seq<u8>, src_mac: MacAddress, op: u16) -> Seq<u8> {
    dst_mac + src_mac.bytes() + seq![0x08u8, 0x06u8, 0u8, 1u8, 0x08u8, 0x00u8, 6u8, 4u8] + be16(op)
}

/// The ARP request, broadcast, that asks who has `target`.
pub open spec fn arp_request_frame(mac: MacAddress, ip: Ipv4Address, target: Ipv4Address) -> Seq<u8> {
    arp_prefix(Seq::new(6, |i: int| 0xffu8), mac, 1) + mac.bytes() + ip.bytes() + Seq::new(
        6,
        |i: int| 0u8,
    ) + target.bytes()
}

/// The ARP reply telling `peer_mac`/`peer_ip` that `ip` is at `mac`.
pub open spec fn arp_reply_frame(
    mac: MacAddress,
    ip: Ipv4Address,
    peer_mac: MacAddress,
    peer_ip: Ipv4Address,
) -> Seq<u8> {
    arp_prefix(peer_mac.bytes(), mac, 2) + mac.bytes() + ip.bytes() + peer_mac.bytes()
        + peer_ip.bytes()
}

/// Checksum sums over segments of the lengths the stack handles fit in 32 bits.
pub proof fn lemma_segment_fits(src: Ipv4Address, dst: Ipv4Address, seg: Seq<u8>)
    requires
        seg.len() <= 0x10000 + 20,
    ensures
        checksum_fits(pseudo_header(src, dst, seg.len()) + seg),
{
    let s = pseudo_header(src, dst, seg.len()) + seg;
    lemma_words_sum_bound(s);
    assert(0xFFFF * ((s.len() + 1) / 2) <= 0xFFFF * 0x8100) by (nonlinear_arith)
        requires
            s.len() <= 0x10000 + 32,
    ;
}

/// Copies a byte slice into a new vector.
pub fn copy_bytes(src: &[u8]) -> (r: Vec<u8>)
    ensures
        r@ == src@,
{
    let mut v: Vec<u8> = Vec::new();
    append_bytes(&mut v, src);
    assert(v@ =~= src@);
    v
}

/// Sets the two bytes at `i` to `x`, most significant first.
pub fn set_be16(v: &mut Vec<u8>, i: usize, x: u16)
    requires
        i + 1 < old(v)@.len(),
    ensures
        final(v)@ == put_be16(old(v)@, i as int, x),
{
    let _n = v.len();
    v.set(i, (x / 256) as u8);
    v.set(i + 1, (x % 256) as u8);
}

/// Writes the TCP checksum of `seg` into its checksum field.
pub fn fill_checksum(src: Ipv4Address, dst: Ipv4Address, seg: &mut Vec<u8>)
    requires
        18 <= old(seg)@.len() <= max_segment_len(),
    ensures
        final(seg)@ == fill_tcp_checksum(src, dst, old(seg)@),
{
    proof {
        lemma_segment_fits(src, dst, seg@);
    }
    let csum = tcp_checksum(src, dst, seg.as_slice());
    set_be16(seg, 16, csum);
}

/// Builds the TCP segment of header `hdr` and `payload` with its checksum.
pub fn build_segment(hdr: &TcpHeader, payload: &[u8], src: Ipv4Address, dst: Ipv4Address) -> (r: Vec<u8>)
    requires
        payload@.len() <= 0xFFFF,
    ensures
        r@ == tcp_segment(*hdr, payload@, src, dst),
        r@.len() == 20 + payload@.len(),
{
    reveal(tcp_segment);
    let mut seg = hdr.serialize();
    append_bytes(&mut seg, payload);
    fill_checksum(src, dst, &mut seg);
    seg
}

/// A copy of `seg` with its checksum cleared and computed again.
pub fn refresh_checksum(seg: &Vec<u8>, src: Ipv4Address, dst: Ipv4Address) -> (r: Vec<u8>)
    requires
        18 <= seg@.len() <= max_segment_len(),
    ensures
        r@ == refresh_tcp_checksum(src, dst, seg@),
{
    let mut packet = copy_bytes(seg.as_slice());
    set_be16(&mut packet, 16, 0);
    fill_checksum(src, dst, &mut packet);
    packet
}

/// Builds an Ethernet frame carrying an IPv4 packet that carries `tcp_bytes`.
pub fn build_ipv4_tcp_frame(
    dst_mac: MacAddress,
    src_mac: MacAddress,
    src: Ipv4Address,
    dst: Ipv4Address,
    tcp_bytes: &[u8],
) -> (r: Vec<u8>)
    ensures
        r@ == ipv4_tcp_frame(dst_mac, src_mac, src, dst, tcp_bytes@),
{
    reveal(ipv4_tcp_frame);
    let mut hdr: Vec<u8> = Vec::new();
    hdr.push(0x45);
    hdr.push(0x00);
    let total_len = ((20 + tcp_bytes.len() as u128) % 0x10000) as u16;
    push_be16(&mut hdr, total_len);
    hdr.push(0);
    hdr.push(0);
    hdr.push(0x40);
    hdr.push(0x00);
    hdr.push(64);
    hdr.push(6);
    hdr.push(0);
    hdr.push(0);
    append_bytes(&mut hdr, &src.0);
    append_bytes(&mut hdr, &dst.0);
    assert(hdr@ =~= ipv4_header_raw(src, dst, tcp_bytes@.len()));
    proof {
        lemma_words_sum_bound(hdr@);
    }
    let ip_csum = checksum(hdr.as_slice());
    set_be16(&mut hdr, 10, ip_csum);
    let mut frame: Vec<u8> = Vec::new();
    append_bytes(&mut frame, &dst_mac.0);
    append_bytes(&mut frame, &src_mac.0);
    frame.push(0x08);
    frame.push(0x00);
    append_bytes(&mut frame, hdr.as_slice());
    append_bytes(&mut frame, tcp_bytes);
    assert(frame@ =~= ipv4_tcp_frame(dst_mac, src_mac, src, dst, tcp_bytes@));
    frame
}

/// Appends the common part of an ARP packet.
fn push_arp_prefix(v: &mut Vec<u8>, src_mac: MacAddress, op: u16)
    ensures
        final(v)@ == arp_prefix(old(v)@, src_mac, op),
{
    append_bytes(v, &src_mac.0);
    v.push(0x08);
    v.push(0x06);
    v.push(0);
    v.push(1);
    v.push(0x08);
    v.push(0x00);
    v.push(6);
    v.push(4);
    push_be16(v, op);
    assert(v@ =~= arp_prefix(old(v)@, src_mac, op));
}

/// Builds the broadcast ARP request asking who has `target`.
pub fn build_arp_request(mac: MacAddress, ip: Ipv4Address, target: Ipv4Address) -> (r: Vec<u8>)
    ensures
        r@ == arp_request_frame(mac, ip, target),
{
    let mut req: Vec<u8> = Vec::new();
    append_bytes(&mut req, &[0xffu8, 0xff, 0xff, 0xff, 0xff, 0xff]);
    assert(req@ =~= Seq::new(6, |i: int| 0xffu8));
    push_arp_prefix(&mut req, mac, 1);
    append_bytes(&mut req, &mac.0);
    append_bytes(&mut req, &ip.0);
    append_bytes(&mut req, &[0u8, 0, 0, 0, 0, 0]);
    append_bytes(&mut req, &target.0);
    assert(req@ =~= arp_request_frame(mac, ip, target));
    req
}

/// Builds the ARP reply telling `peer_mac`/`peer_ip` that `ip` is at `mac`.
pub fn build_arp_reply(mac: MacAddress, ip: Ipv4Address, peer_mac: MacAddress, peer_ip: Ipv4Address) -> (r: Vec<u8>)
    ensures
        r@ == arp_reply_frame(mac, ip, peer_mac, peer_ip),
{
    let mut reply: Vec<u8> = Vec::new();
    append_bytes(&mut reply, &peer_mac.0);
    push_arp_prefix(&mut reply, mac, 2);
    append_bytes(&mut reply, &mac.0);
    append_bytes(&mut reply, &ip.0);
    append_bytes(&mut reply, &peer_mac.0);
    append_bytes(&mut reply, &peer_ip.0);
    assert(reply@ =~= arp_reply_frame(mac, ip, peer_mac, peer_ip));
    reply
}


/// A segment the stack builds passes the receiver's checks: its TCP checksum
/// is zero, it parses back to its header (with a twenty-byte header length
/// and the checksum it carries) and its payload follows the header.
pub proof fn law_segment_accepted(h: TcpHeader, payload: Seq<u8>, src: Ipv4Address, dst: Ipv4Address)
    ensures
        ({
            let seg = tcp_segment(h, payload, src, dst);
            let c = tcp_checksum_spec(src, dst, serialize_spec(h) + payload);
            &&& tcp_checksum_spec(src, dst, seg) == 0
            &&& parse_spec(seg) == Some((TcpHeader { data_offset: 20, checksum: c, ..h }, 20int))
            &&& seg.skip(20) == payload
            &&& seg.len() == 20 + payload.len()
        }),
{
    reveal(tcp_segment);
    let raw = serialize_spec(h) + payload;
    let c = tcp_checksum_spec(src, dst, raw);
    let seg = tcp_segment(h, payload, src, dst);
    law_tcp_checksum_fill(src, dst, raw);
    law_parse_serialize(h, payload);
    lemma_be16_roundtrip(c);
    assert(seg.subrange(16, 18) =~= be16(c));
    assert(get_be16(seg, 16) == get_be16(seg.subrange(16, 18), 0));
    assert(seg.skip(20) =~= raw.skip(20));
    assert(forall|i: int| 0 <= i < 16 ==> seg[i] == raw[i]);
    assert(seg[12] == raw[12] && seg[13] == raw[13] && seg[14] == raw[14] && seg[15] == raw[15]);
}

/// The frame that carries `tcp` announces IPv4, a five-word header whose
/// checksum checks to zero, protocol TCP, both addresses and a total length
/// of twenty plus the segment (cut to 16 bits); the segment follows the
/// header.
pub proof fn law_frame_fields(
    dst_mac: MacAddress,
    src_mac: MacAddress,
    src: Ipv4Address,
    dst: Ipv4Address,
    tcp: Seq<u8>,
)
    ensures
        ({
            let f = ipv4_tcp_frame(dst_mac, src_mac, src, dst, tcp);
            &&& f.len() == 34 + tcp.len()
            &&& f.subrange(0, 6) == dst_mac.bytes()
            &&& f.subrange(6, 12) == src_mac.bytes()
            &&& get_be16(f, 12) == 0x0800
            &&& f[14] == 0x45
            &&& get_be16(f, 16) == ((20 + tcp.len()) % 0x10000) as u16
            &&& f[23] == 6
            &&& f.subrange(26, 30) == src.bytes()
            &&& f.subrange(30, 34) == dst.bytes()
            &&& checksum_spec(f.subrange(14, 34)) == 0
            &&& f.skip(34) == tcp
        }),
{
    reveal(ipv4_tcp_frame);
    let f = ipv4_tcp_frame(dst_mac, src_mac, src, dst, tcp);
    let raw = ipv4_header_raw(src, dst, tcp.len());
    law_checksum_fill(raw, 10);
    let hdr = ipv4_header(src, dst, tcp.len());
    assert(f.subrange(14, 34) =~= hdr);
    assert(f.subrange(0, 6) =~= dst_mac.bytes());
    assert(f.subrange(6, 12) =~= src_mac.bytes());
    assert(f.subrange(26, 30) =~= src.bytes());
    assert(f.subrange(30, 34) =~= dst.bytes());
    assert(f.skip(34) =~= tcp);
    let len16 = ((20 + tcp.len()) % 0x10000) as u16;
    lemma_be16_roundtrip(len16);
    assert(f.subrange(16, 18) =~= be16(len16));
    assert(get_be16(f, 16) == get_be16(f.subrange(16, 18), 0));
}


/// The payload of a segment the stack builds follows its twenty-byte header.
pub proof fn lemma_segment_payload(h: TcpHeader, payload: Seq<u8>, src: Ipv4Address, dst: Ipv4Address)
    ensures
        tcp_segment(h, payload, src, dst).skip(20) == payload,
{
    law_segment_accepted(h, payload, src, dst);
}

} // verus!
