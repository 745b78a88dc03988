use vstd::prelude::*;
use crate::addr::{Ipv4Address, MacAddress};
use crate::checksum::{append_bytes, be16, checksum, checksum_spec, lemma_words_sum_bound, push_be16};
use crate::frame::{arp_reply_frame, build_arp_reply, copy_bytes, put_be16, set_be16};
use crate::header::{get_be16, read_be16};
use crate::stack::{ihl_of, ip_at, mac_at};

verus! {

/// What the ARP/ICMP responder makes of a frame.
pub enum ProbeOutcome {
    /// An ARP request for our address, answered by `reply`.
    ArpReply { reply: Vec<u8>, sender_mac: MacAddress, target_ip: Ipv4Address },
    /// An ICMP echo request for our address, answered by `reply`; `seq` is
    /// the request's sequence number and `len` the length of its ICMP part.
    EchoReply { reply: Vec<u8>, seq: u16, len: usize },
    /// An IPv4 packet for our address whose header checksum is wrong.
    BadChecksum,
    /// Anything else.
    Ignored,
}

/// The IPv4 header of an ICMP packet whose ICMP part is `len` bytes long,
/// checksum not yet filled in.
pub open spec fn echo_ip_header_raw(src: Ipv4Address, dst: Ipv4Address, len: nat) -> Seq<u8> {
    seq![0x45u8, 0x00u8] + be16(((20 + len) % 0x10000) as u16) + seq![
        0u8,
        0u8,
        0x40u8,
        0x00u8,
        64u8,
        1u8,
        0u8,
        0u8,
    ] + src.bytes() + dst.bytes()
}

/// The ICMP part of a request turned into a reply: type 0, checksum
/// computed afresh over the rest unchanged.
pub open spec fn echo_reply_body(msg: Seq<u8>) -> Seq<u8> {
    let z = msg.update(0, 0).update(2, 0).update(3, 0);
    put_be16(z, 2, checksum_spec(z))
}

/// The echo reply to the request in frame `f`, whose IPv4 header is `ihl`
/// bytes long and whose packet is `total_len` bytes long.
pub open spec fn echo_reply_frame(f: Seq<u8>, our_mac: MacAddress, our_ip: Ipv4Address) -> Seq<u8> {
    let msg = f.subrange(14 + ihl_of(f), 14 + get_be16(f, 16) as int);
    let raw = echo_ip_header_raw(our_ip, ip_at(f, 26), msg.len());
    mac_at(f, 6).bytes() + our_mac.bytes() + seq![0x08u8, 0x00u8] + put_be16(raw, 10, checksum_spec(raw))
        + echo_reply_body(msg)
}

/// An ARP request: an Ethernet/IPv4 request for `our_ip` is answered.
pub open spec fn probe_arp_spec(f: Seq<u8>, our_mac: MacAddress, our_ip: Ipv4Address) -> Option<Seq<u8>> {
    if f.len() < 42 || get_be16(f, 14) != 1 || get_be16(f, 16) != 0x0800 || get_be16(f, 20) != 1
        || ip_at(f, 38) != our_ip {
        None
    } else {
        Some(arp_reply_frame(our_mac, our_ip, mac_at(f, 22), ip_at(f, 28)))
    }
}

/// Whether the IPv4 frame `f` for `our_ip` is one the responder cannot take:
/// its announced header runs past the frame, or its ICMP part would end
/// before its header does.
pub open spec fn probe_malformed(f: Seq<u8>, our_ip: Ipv4Address) -> bool {
    &&& f.len() >= 34
    &&& get_be16(f, 12) == 0x0800
    &&& ip_at(f, 30) == our_ip
    &&& {
        ||| 14 + ihl_of(f) > f.len()
        ||| {
            &&& checksum_spec(f.subrange(14, 14 + ihl_of(f))) == 0
            &&& f[23] == 1
            &&& f.len() >= 14 + get_be16(f, 16)
            &&& ihl_of(f) > get_be16(f, 16)
        }
    }
}

/// An IPv4 packet: for `our_ip`, a bad header checksum is reported, and an
/// echo request of at least eight bytes (type 8, code 0) is answered.
pub open spec fn probe_ipv4_kind(f: Seq<u8>, our_ip: Ipv4Address) -> int {
    if f.len() < 34 || ip_at(f, 30) != our_ip {
        0
    } else if checksum_spec(f.subrange(14, 14 + ihl_of(f))) != 0 {
        1
    } else {
        let start = 14 + ihl_of(f);
        let end = 14 + get_be16(f, 16) as int;
        if f[23] == 1 && f.len() >= end && end - start >= 8 && f[start] == 8 && f[start + 1] == 0 {
            2
        } else {
            0
        }
    }
}

fn read_ip(f: &[u8], i: usize) -> (r: Ipv4Address)
    requires
        i + 3 < f@.len(),
    ensures
        r == ip_at(f@, i as int),
{
    Ipv4Address([f[i], f[i + 1], f[i + 2], f[i + 3]])
}

fn read_mac(f: &[u8], i: usize) -> (r: MacAddress)
    requires
        i + 5 < f@.len(),
    ensures
        r == mac_at(f@, i as int),
{
    MacAddress([f[i], f[i + 1], f[i + 2], f[i + 3], f[i + 4], f[i + 5]])
}

/// Answers an ARP request for `our_ip`.
pub fn probe_handle_arp(frame: &[u8], our_mac: MacAddress, our_ip: Ipv4Address) -> (r: ProbeOutcome)
    ensures
        match probe_arp_spec(frame@, our_mac, our_ip) {
            Some(reply) => r matches ProbeOutcome::ArpReply { reply: v, sender_mac, target_ip } && v@
                == reply && sender_mac == mac_at(frame@, 22) && target_ip == ip_at(frame@, 38),
            None => r is Ignored,
        },
{
    if frame.len() < 42 {
        return ProbeOutcome::Ignored;
    }
    let htype = read_be16(frame, 14);
    let ptype = read_be16(frame, 16);
    let oper = read_be16(frame, 20);
    let target_ip = read_ip(frame, 38);
    if htype != 1 || ptype != 0x0800 || oper != 1 || target_ip != our_ip {
        return ProbeOutcome::Ignored;
    }
    let sender_mac = read_mac(frame, 22);
    let sender_ip = read_ip(frame, 28);
    let reply = build_arp_reply(our_mac, our_ip, sender_mac, sender_ip);
    ProbeOutcome::ArpReply { reply, sender_mac, target_ip }
}

/// Whether the responder cannot take `frame` (see `probe_malformed`).
pub fn probe_is_malformed(frame: &[u8], our_ip: Ipv4Address) -> (r: bool)
    ensures
        r == probe_malformed(frame@, our_ip),
{
    if frame.len() < 34 || read_be16(frame, 12) != 0x0800 || read_ip(frame, 30) != our_ip {
        return false;
    }
    let b14 = frame[14];
    let low = b14 & 0x0F;
    assert(low == b14 % 16) by (bit_vector)
        requires
            low == b14 & 0x0F,
    ;
    let ihl = low as usize * 4;
    if 14 + ihl > frame.len() {
        return true;
    }
    let total_len = read_be16(frame, 16) as usize;
    let ip_hdr = vstd::slice::slice_subrange(frame, 14, 14 + ihl);
    proof {
        lemma_words_sum_bound(ip_hdr@);
    }
    checksum(ip_hdr) == 0 && frame[23] == 1 && frame.len() >= 14 + total_len && ihl > total_len
}

/// Answers an ICMP echo request for `our_ip`.
pub fn probe_handle_ipv4(frame: &[u8], our_mac: MacAddress, our_ip: Ipv4Address) -> (r: ProbeOutcome)
    requires
        get_be16(frame@, 12) == 0x0800,
        !probe_malformed(frame@, our_ip),
    ensures
        probe_ipv4_kind(frame@, our_ip) == 0 ==> r is Ignored,
        probe_ipv4_kind(frame@, our_ip) == 1 ==> r is BadChecksum,
        probe_ipv4_kind(frame@, our_ip) == 2 ==> (r matches ProbeOutcome::EchoReply { reply, seq, len }
            && reply@ == echo_reply_frame(frame@, our_mac, our_ip) && seq == get_be16(
            frame@,
            14 + ihl_of(frame@) + 6,
        ) && len == get_be16(frame@, 16) - ihl_of(frame@)),
{
    if frame.len() < 34 {
        return ProbeOutcome::Ignored;
    }
    let b14 = frame[14];
    let low = b14 & 0x0F;
    assert(low == b14 % 16) by (bit_vector)
        requires
            low == b14 & 0x0F,
    ;
    let ihl = low as usize * 4;
    let total_len = read_be16(frame, 16) as usize;
    let protocol = frame[14 + 9];
    let src_ip = read_ip(frame, 26);
    let dst_ip = read_ip(frame, 30);
    if dst_ip != our_ip {
        return ProbeOutcome::Ignored;
    }
    let ip_hdr = vstd::slice::slice_subrange(frame, 14, 14 + ihl);
    proof {
        lemma_words_sum_bound(ip_hdr@);
    }
    if checksum(ip_hdr) != 0 {
        return ProbeOutcome::BadChecksum;
    }
    if protocol == 1 {
        let msg_start = 14 + ihl;
        let msg_end = 14 + total_len;
        if frame.len() < msg_end || msg_end - msg_start < 8 {
            return ProbeOutcome::Ignored;
        }
        let msg_type = frame[msg_start];
        let msg_code = frame[msg_start + 1];
        if msg_type == 8 && msg_code == 0 {
            let msg_len = msg_end - msg_start;
            let mut hdr: Vec<u8> = Vec::new();
            hdr.push(0x45);
            hdr.push(0x00);
            let ip_total = ((20 + msg_len as u128) % 0x10000) as u16;
            push_be16(&mut hdr, ip_total);
            hdr.push(0);
            hdr.push(0);
            hdr.push(0x40);
            hdr.push(0x00);
            hdr.push(64);
            hdr.push(1);
            hdr.push(0);
            hdr.push(0);
            append_bytes(&mut hdr, &our_ip.0);
            append_bytes(&mut hdr, &src_ip.0);
            assert(hdr@ =~= echo_ip_header_raw(our_ip, src_ip, msg_len as nat));
            proof {
                lemma_words_sum_bound(hdr@);
            }
            let ip_cksum = checksum(hdr.as_slice());
            set_be16(&mut hdr, 10, ip_cksum);
            let msg_src = vstd::slice::slice_subrange(frame, msg_start, msg_end);
            let mut msg = copy_bytes(msg_src);
            msg.set(0, 0);
            set_be16(&mut msg, 2, 0);
            assert(msg@ =~= msg_src@.update(0, 0).update(2, 0).update(3, 0));
            proof {
                lemma_words_sum_bound(msg@);
                assert(0xFFFF * ((msg@.len() + 1) / 2) <= 0xFFFF * 0x8000) by (nonlinear_arith)
                    requires
                        msg@.len() <= 0x10000,
                ;
            }
            let msg_sum = checksum(msg.as_slice());
            set_be16(&mut msg, 2, msg_sum);
            let mut reply: Vec<u8> = Vec::new();
            append_bytes(&mut reply, &frame[6..12]);
            append_bytes(&mut reply, &our_mac.0);
            reply.push(0x08);
            reply.push(0x00);
            append_bytes(&mut reply, hdr.as_slice());
            append_bytes(&mut reply, msg.as_slice());
            proof {
                assert(frame@.subrange(6, 12) =~= mac_at(frame@, 6).bytes());
            }
            assert(reply@ =~= echo_reply_frame(frame@, our_mac, our_ip));
            let seq = read_be16(frame, msg_start + 6);
            return ProbeOutcome::EchoReply { reply, seq, len: msg_len };
        }
    }
    ProbeOutcome::Ignored
}

/// The responder: ARP requests and ICMP echo requests for `our_ip` are
/// answered; frames shorter than an Ethernet header and all other frames
/// are ignored.
pub fn probe_respond(frame: &[u8], our_mac: MacAddress, our_ip: Ipv4Address) -> (r: ProbeOutcome)
    requires
        !probe_malformed(frame@, our_ip),
    ensures
        frame@.len() < 14 ==> r is Ignored,
        frame@.len() >= 14 && get_be16(frame@, 12) == 0x0806 ==> match probe_arp_spec(frame@, our_mac, our_ip) {
            Some(reply) => r matches ProbeOutcome::ArpReply { reply: v, sender_mac, target_ip } && v@
                == reply && sender_mac == mac_at(frame@, 22) && target_ip == ip_at(frame@, 38),
            None => r is Ignored,
        },
        frame@.len() >= 14 && get_be16(frame@, 12) == 0x0800 ==> {
            &&& probe_ipv4_kind(frame@, our_ip) == 0 ==> r is Ignored
            &&& probe_ipv4_kind(frame@, our_ip) == 1 ==> r is BadChecksum
            &&& probe_ipv4_kind(frame@, our_ip) == 2 ==> (r matches ProbeOutcome::EchoReply { reply, seq, len }
                && reply@ == echo_reply_frame(frame@, our_mac, our_ip) && seq == get_be16(
                frame@,
                14 + ihl_of(frame@) + 6,
            ) && len == get_be16(frame@, 16) - ihl_of(frame@))
        },
        frame@.len() >= 14 && get_be16(frame@, 12) != 0x0806 && get_be16(frame@, 12) != 0x0800 ==> r is Ignored,
{
    if frame.len() < 14 {
        return ProbeOutcome::Ignored;
    }
    let ethertype = read_be16(frame, 12);
    if ethertype == 0x0806 {
        probe_handle_arp(frame, our_mac, our_ip)
    } else if ethertype == 0x0800 {
        probe_handle_ipv4(frame, our_mac, our_ip)
    } else {
        ProbeOutcome::Ignored
    }
}


/// An echo reply answers with type 0 and the request's code, identifier,
/// sequence number and data unchanged, and its checksum checks to zero.
pub proof fn law_echo_reply(msg: Seq<u8>)
    requires
        msg.len() >= 4,
    ensures
        ({
            let r = echo_reply_body(msg);
            &&& r.len() == msg.len()
            &&& r[0] == 0
            &&& r[1] == msg[1]
            &&& r.skip(4) == msg.skip(4)
            &&& checksum_spec(r) == 0
        }),
{
    let z = msg.update(0, 0).update(2, 0).update(3, 0);
    crate::checksum::law_checksum_fill(z, 2);
    let r = echo_reply_body(msg);
    assert(r.skip(4) =~= msg.skip(4));
}

} // verus!
