use vstd::prelude::*;
use std::collections::{HashMap, VecDeque};
use crate::addr::{broadcast_mac_spec, Ipv4Address, MacAddress, SocketTuple};
use crate::checksum::{checksum_spec, tcp_checksum_spec};
use crate::conn::{
    carried_header, fin_spec, flush_spec, lemma_tick_one, lemma_wf_same, time_wait_over, handle_timers_spec, max_now, new_conn_view, process_segment_spec,
    syn_ack_spec, tick_one, timers_overflow, add32, ConnView, RttSample, SegmentView, TcpConnection,
    TcpState,
};
use crate::flags::{has_bits, TcpFlags};
use crate::frame::{arp_reply_frame, arp_request_frame, frames_view, ipv4_tcp_frame, tcp_segment};
use crate::header::{get_be16, parse_spec, TcpHeader};
use crate::seqnum::{seq_add, SeqNum};

verus! {

/// The hardware addresses learnt for IPv4 addresses, keyed by the address
/// read as a 32-bit number.
pub struct ArpCache {
    map: HashMap<u32, MacAddress>,
}

impl View for ArpCache {
    type V = Map<u32, MacAddress>;

    closed spec fn view(&self) -> Map<u32, MacAddress> {
        self.map@
    }
}

/// What the cache holds for `ip`.
pub open spec fn arp_lookup(arp: Map<u32, MacAddress>, ip: Ipv4Address) -> Option<MacAddress> {
    if arp.contains_key(ip.key()) {
        Some(arp[ip.key()])
    } else {
        None
    }
}

impl ArpCache {
    /// An empty cache.
    pub fn new() -> (r: ArpCache)
        ensures
            r@ == Map::<u32, MacAddress>::empty(),
    {
        ArpCache { map: HashMap::new() }
    }

    /// Records that `ip` is at `mac`; returns what was recorded before.
    pub fn insert(&mut self, ip: Ipv4Address, mac: MacAddress) -> (r: Option<MacAddress>)
        ensures
            final(self)@ == old(self)@.insert(ip.key(), mac),
            r == arp_lookup(old(self)@, ip),
    {
        broadcast use vstd::std_specs::hash::group_hash_axioms;

        let k = ip.to_key();
        self.map.insert(k, mac)
    }

    /// The hardware address recorded for `ip`.
    pub fn get(&self, ip: &Ipv4Address) -> (r: Option<MacAddress>)
        ensures
            r == arp_lookup(self@, *ip),
    {
        broadcast use vstd::std_specs::hash::group_hash_axioms;

        let k = ip.to_key();
        match self.map.get(&k) {
            Some(m) => Some(*m),
            None => None,
        }
    }
}

/// The plain values of a `Stack`.
#[verifier::ext_equal]
pub struct StackView {
    pub mac: MacAddress,
    pub ip: Ipv4Address,
    pub arp: Map<u32, MacAddress>,
    pub conns: Seq<ConnView>,
    pub listening: Map<u16, TcpState>,
    pub tx: Seq<Seq<u8>>,
    pub isn: u32,
}

/// An Ethernet/IPv4/TCP endpoint: one hardware and one IPv4 address, the
/// hardware addresses it has learnt, its connections, the ports it listens
/// on, and the frames it has to send, oldest first.
pub struct Stack {
    pub mac: MacAddress,
    pub ip: Ipv4Address,
    pub arp_cache: ArpCache,
    pub connections: Vec<TcpConnection>,
    pub listening_ports: HashMap<u16, TcpState>,
    pub tx_queue: VecDeque<Vec<u8>>,
    isn_counter: u32,
}

pub open spec fn conns_view(v: Seq<TcpConnection>) -> Seq<ConnView> {
    v.map_values(|c: TcpConnection| c@)
}

impl View for Stack {
    type V = StackView;

    closed spec fn view(&self) -> StackView {
        StackView {
            mac: self.mac,
            ip: self.ip,
            arp: self.arp_cache@,
            conns: conns_view(self.connections@),
            listening: self.listening_ports@,
            tx: frames_view(self.tx_queue@),
            isn: self.isn_counter,
        }
    }
}

/// Whether `i` is the first position in `conns` of the connection `t`.
pub open spec fn is_first_match(conns: Seq<ConnView>, t: SocketTuple, i: int) -> bool {
    &&& 0 <= i < conns.len()
    &&& conns[i].tuple == t
    &&& forall|j: int| 0 <= j < i ==> conns[j].tuple != t
}

/// The position of the connection `t` in `conns`.
pub open spec fn find_conn(conns: Seq<ConnView>, t: SocketTuple) -> Option<int> {
    if exists|i: int| is_first_match(conns, t, i) {
        Some(choose|i: int| is_first_match(conns, t, i))
    } else {
        None
    }
}

/// `conns` with `c` in place of the connection of the same tuple, or with
/// `c` added at the end when there is none.
pub open spec fn upsert(conns: Seq<ConnView>, c: ConnView) -> Seq<ConnView> {
    match find_conn(conns, c.tuple) {
        Some(i) => conns.update(i, c),
        None => conns.push(c),
    }
}

impl StackView {
    /// Every connection is well formed and no two share a tuple.
    pub open spec fn wf(self) -> bool {
        &&& forall|i: int| 0 <= i < self.conns.len() ==> #[trigger] self.conns[i].wf()
        &&& forall|i: int, j: int|
            0 <= i < j < self.conns.len() ==> #[trigger] self.conns[i].tuple
                != #[trigger] self.conns[j].tuple
    }

    /// The next initial sequence number: the counter advanced by 1043.
    pub open spec fn next_isn(self) -> u32 {
        add32(self.isn, 1043)
    }

    /// The frame in which the stack itself sends `tcp` from `src` to `dst`:
    /// to the hardware address cached for `dst`, or broadcast.
    pub open spec fn frame(self, src: Ipv4Address, dst: Ipv4Address, tcp: Seq<u8>) -> Seq<u8> {
        let dst_mac = match arp_lookup(self.arp, dst) {
            Some(m) => m,
            None => broadcast_mac_spec(),
        };
        ipv4_tcp_frame(dst_mac, self.mac, src, dst, tcp)
    }
}

/// `tcp_connect`: a connection in SynSent with the next initial sequence
/// number, its SYN sent and kept for retransmission.
pub open spec fn tcp_connect_spec(
    s: StackView,
    remote_ip: Ipv4Address,
    remote_port: u16,
    local_port: u16,
    now: u64,
) -> (StackView, SocketTuple) {
    let tuple = SocketTuple { local_ip: s.ip, local_port, remote_ip, remote_port };
    let iss = s.next_isn();
    let hdr = TcpHeader {
        src_port: local_port,
        dst_port: remote_port,
        seq: SeqNum(iss),
        ack: SeqNum(0),
        data_offset: 5,
        flags: TcpFlags { bits: 0x02 },
        window: 65535,
        checksum: 0,
    };
    let seg = tcp_segment(hdr, seq![], s.ip, remote_ip);
    let c0 = new_conn_view(tuple, TcpState::SynSent, s.mac, iss, 0);
    let c1 = ConnView {
        snd_nxt: add32(iss, 1),
        retransmit: seq![
            SegmentView { seq: iss, seq_len: 1, data: seg, sent_at: now, retransmit_count: 0 },
        ],
        ..c0
    };
    (
        StackView {
            isn: iss,
            tx: s.tx.push(s.frame(s.ip, remote_ip, seg)),
            conns: upsert(s.conns, c1),
            ..s
        },
        tuple,
    )
}

/// The answer to a segment for which there is no connection and no
/// listener: a RST, unless the segment is one. It acknowledges what the
/// segment occupied when it carried no ACK, and otherwise takes its sequence
/// number from the segment's acknowledgement.
pub open spec fn rst_spec(s: StackView, local_ip: Ipv4Address, remote_ip: Ipv4Address, hdr: TcpHeader) -> StackView {
    let f = hdr.flags.bits;
    if has_bits(f, 0x04) {
        s
    } else {
        let acked = has_bits(f, 0x10);
        let reply = TcpHeader {
            src_port: hdr.dst_port,
            dst_port: hdr.src_port,
            seq: SeqNum(
                if acked {
                    hdr.ack.0
                } else {
                    0
                },
            ),
            ack: SeqNum(
                if acked {
                    0
                } else {
                    seq_add(
                        hdr.seq.0,
                        if has_bits(f, 0x02) {
                            1
                        } else {
                            0
                        },
                    )
                },
            ),
            data_offset: 5,
            flags: TcpFlags {
                bits: if acked {
                    0x04
                } else {
                    0x14
                },
            },
            window: 0,
            checksum: 0,
        };
        let seg = tcp_segment(reply, seq![], local_ip, remote_ip);
        StackView { tx: s.tx.push(s.frame(local_ip, remote_ip, seg)), ..s }
    }
}

/// A segment for the connection at position `i`: the connection processes
/// it.
pub open spec fn deliver_spec(
    s: StackView,
    i: int,
    hdr: TcpHeader,
    payload: Seq<u8>,
    now: u64,
) -> (StackView, Option<(SocketTuple, RttSample)>) {
    let (c, tx, sample) = process_segment_spec(s.conns[i], hdr, payload, s.tx, now);
    (
        StackView { conns: s.conns.update(i, c), tx, ..s },
        match sample {
            Some(x) => Some((s.conns[i].tuple, x)),
            None => None,
        },
    )
}

/// A segment for no connection: on a listening port a SYN without ACK opens
/// a connection in SynReceived that answers SYN+ACK, and anything else is
/// ignored; on any other port the answer is a RST.
pub open spec fn unmatched_spec(s: StackView, tuple: SocketTuple, hdr: TcpHeader, now: u64) -> StackView {
    if s.listening.contains_key(hdr.dst_port) && s.listening[hdr.dst_port] == TcpState::Listen {
        if has_bits(hdr.flags.bits, 0x02) && !has_bits(hdr.flags.bits, 0x10) {
            let iss = s.next_isn();
            let c0 = new_conn_view(tuple, TcpState::SynReceived, s.mac, iss, hdr.seq.0);
            let c1 = ConnView {
                snd_nxt: add32(iss, 1),
                rcv_nxt: add32(hdr.seq.0, 1),
                snd_wnd: hdr.window,
                ..c0
            };
            let (c2, tx2) = syn_ack_spec(c1, s.tx, now);
            StackView { isn: iss, conns: s.conns.push(c2), tx: tx2, ..s }
        } else {
            s
        }
    } else {
        rst_spec(s, tuple.local_ip, tuple.remote_ip, hdr)
    }
}

/// A TCP segment that arrived from `src_ip` for `dst_ip`: dropped when its
/// checksum or header is bad; otherwise handed to its connection, or to
/// `unmatched_spec` when there is none.
#[verifier::opaque]
pub open spec fn handle_tcp_spec(
    s: StackView,
    src_ip: Ipv4Address,
    dst_ip: Ipv4Address,
    seg: Seq<u8>,
    now: u64,
) -> (StackView, Option<(SocketTuple, RttSample)>) {
    if tcp_checksum_spec(src_ip, dst_ip, seg) != 0 {
        (s, None)
    } else {
        match parse_spec(seg) {
            None => (s, None),
            Some((hdr, off)) => {
                let tuple = SocketTuple {
                    local_ip: dst_ip,
                    local_port: hdr.dst_port,
                    remote_ip: src_ip,
                    remote_port: hdr.src_port,
                };
                match find_conn(s.conns, tuple) {
                    Some(i) => deliver_spec(s, i, hdr, seg.skip(off), now),
                    None => (unmatched_spec(s, tuple, hdr, now), None),
                }
            },
        }
    }
}

/// The four bytes at `i` of `f` as an IPv4 address.
pub open spec fn ip_at(f: Seq<u8>, i: int) -> Ipv4Address {
    Ipv4Address([f[i], f[i + 1], f[i + 2], f[i + 3]])
}

/// The six bytes at `i` of `f` as a hardware address.
pub open spec fn mac_at(f: Seq<u8>, i: int) -> MacAddress {
    MacAddress([f[i], f[i + 1], f[i + 2], f[i + 3], f[i + 4], f[i + 5]])
}

/// The IPv4 header length, in bytes, that the frame `f` announces.
pub open spec fn ihl_of(f: Seq<u8>) -> int {
    (f[14] % 16) as int * 4
}

/// An ARP packet: a request for our address teaches us the sender's address
/// and is answered.
pub open spec fn handle_arp_spec(s: StackView, f: Seq<u8>, src_mac: MacAddress) -> StackView {
    if f.len() < 42 || ip_at(f, 38) != s.ip {
        s
    } else {
        let sender = ip_at(f, 28);
        StackView {
            arp: s.arp.insert(sender.key(), src_mac),
            tx: s.tx.push(arp_reply_frame(s.mac, s.ip, src_mac, sender)),
            ..s
        }
    }
}

/// An IPv4 packet for our address whose header checksum is right teaches us
/// the sender's hardware address; its TCP segment, cut to the packet's total
/// length, goes on to `handle_tcp_spec`.
pub open spec fn handle_ipv4_spec(s: StackView, f: Seq<u8>, src_mac: MacAddress, now: u64) -> (
    StackView,
    Option<(SocketTuple, RttSample)>,
) {
    if f.len() < 34 {
        (s, None)
    } else {
        let ihl = ihl_of(f);
        let total_len = get_be16(f, 16) as int;
        let src_ip = ip_at(f, 26);
        let dst_ip = ip_at(f, 30);
        if dst_ip != s.ip || checksum_spec(f.subrange(14, 14 + ihl)) != 0 {
            (s, None)
        } else {
            let s1 = StackView { arp: s.arp.insert(src_ip.key(), src_mac), ..s };
            if f[23] == 6 {
                if f.len() < 14 + total_len {
                    (s1, None)
                } else {
                    handle_tcp_spec(s1, src_ip, dst_ip, f.subrange(14 + ihl, 14 + total_len), now)
                }
            } else {
                (s1, None)
            }
        }
    }
}

/// Whether the frame is addressed to `s`: to its hardware address or to all.
pub open spec fn for_us(s: StackView, f: Seq<u8>) -> bool {
    mac_at(f, 0) == s.mac || mac_at(f, 0) == broadcast_mac_spec()
}

/// `on_packet`: frames shorter than an Ethernet header, or for another
/// hardware address, are dropped; ARP and IPv4 go to their handlers.
pub open spec fn on_packet_spec(s: StackView, f: Seq<u8>, now: u64) -> (
    StackView,
    Option<(SocketTuple, RttSample)>,
) {
    if f.len() < 14 || !for_us(s, f) {
        (s, None)
    } else {
        let ethertype = get_be16(f, 12);
        if ethertype == 0x0806 {
            (handle_arp_spec(s, f, mac_at(f, 6)), None)
        } else if ethertype == 0x0800 {
            handle_ipv4_spec(s, f, mac_at(f, 6), now)
        } else {
            (s, None)
        }
    }
}

/// The frames on which `on_packet` cannot go on: an IPv4 packet for us whose
/// announced header runs past the frame, or whose TCP segment would end
/// before its header does.
pub open spec fn malformed_ipv4(s: StackView, f: Seq<u8>) -> bool {
    &&& f.len() >= 34
    &&& for_us(s, f)
    &&& get_be16(f, 12) == 0x0800
    &&& ip_at(f, 30) == s.ip
    &&& {
        ||| 14 + ihl_of(f) > f.len()
        ||| {
            &&& checksum_spec(f.subrange(14, 14 + ihl_of(f))) == 0
            &&& f[23] == 6
            &&& f.len() >= 14 + get_be16(f, 16)
            &&& ihl_of(f) > get_be16(f, 16)
        }
    }
}

/// `on_tick` over the connections in order: each runs its timers and sends
/// what its windows allow; those that end up Closed are dropped.
pub open spec fn tick_spec(conns: Seq<ConnView>, tx: Seq<Seq<u8>>, now: u64) -> (Seq<ConnView>, Seq<Seq<u8>>)
    decreases conns.len(),
{
    if conns.len() == 0 {
        (conns, tx)
    } else {
        let (c2, tx2) = tick_one(conns[0], tx, now);
        let (rest, tx3) = tick_spec(conns.subrange(1, conns.len() as int), tx2, now);
        (
            if c2.state == TcpState::Closed {
                rest
            } else {
                seq![c2] + rest
            },
            tx3,
        )
    }
}


pub(crate) proof fn lemma_first_match_unique(conns: Seq<ConnView>, t: SocketTuple, i: int)
    requires
        is_first_match(conns, t, i),
    ensures
        find_conn(conns, t) == Some(i),
{
    let j = choose|j: int| is_first_match(conns, t, j);
    assert(is_first_match(conns, t, j));
    if j < i {
        assert(conns[j].tuple != t);
    }
    if i < j {
        assert(conns[i].tuple != t);
    }
}

proof fn lemma_no_match(conns: Seq<ConnView>, t: SocketTuple)
    requires
        forall|j: int| 0 <= j < conns.len() ==> conns[j].tuple != t,
    ensures
        find_conn(conns, t) is None,
{
}

proof fn lemma_found(conns: Seq<ConnView>, t: SocketTuple)
    requires
        find_conn(conns, t) is Some,
    ensures
        is_first_match(conns, t, find_conn(conns, t).unwrap()),
{
}

proof fn lemma_conns_replace(v: Seq<TcpConnection>, i: int, c: TcpConnection)
    requires
        0 <= i < v.len(),
    ensures
        conns_view(v.remove(i).insert(i, c)) == conns_view(v).update(i, c@),
{
    assert(conns_view(v.remove(i).insert(i, c)) =~= conns_view(v).update(i, c@));
}

proof fn lemma_conns_push(v: Seq<TcpConnection>, c: TcpConnection)
    ensures
        conns_view(v.push(c)) == conns_view(v).push(c@),
{
    assert(conns_view(v.push(c)) =~= conns_view(v).push(c@));
}

proof fn lemma_wf_update(s: StackView, i: int, c: ConnView)
    requires
        s.wf(),
        0 <= i < s.conns.len(),
        c.wf(),
        c.tuple == s.conns[i].tuple,
    ensures
        (StackView { conns: s.conns.update(i, c), ..s }).wf(),
{
    let t = StackView { conns: s.conns.update(i, c), ..s };
    assert forall|a: int, b: int| 0 <= a < b < t.conns.len() implies #[trigger] t.conns[a].tuple
        != #[trigger] t.conns[b].tuple by {
        assert(s.conns[a].tuple != s.conns[b].tuple);
    }
}

proof fn lemma_wf_push(s: StackView, c: ConnView)
    requires
        s.wf(),
        c.wf(),
        find_conn(s.conns, c.tuple) is None,
    ensures
        (StackView { conns: s.conns.push(c), ..s }).wf(),
{
    let t = StackView { conns: s.conns.push(c), ..s };
    assert forall|j: int| 0 <= j < s.conns.len() implies s.conns[j].tuple != c.tuple by {
        if s.conns[j].tuple == c.tuple {
            let k = choose|k: int|
                0 <= k <= j && s.conns[k].tuple == c.tuple && forall|m: int|
                    0 <= m < k ==> s.conns[m].tuple != c.tuple;
            assert(is_first_match(s.conns, c.tuple, k));
        }
    }
    assert forall|a: int, b: int| 0 <= a < b < t.conns.len() implies #[trigger] t.conns[a].tuple
        != #[trigger] t.conns[b].tuple by {
        if b < s.conns.len() {
            assert(s.conns[a].tuple != s.conns[b].tuple);
        }
    }
}

impl Stack {
    /// Every connection is well formed and no two share a tuple.
    pub open spec fn wf(&self) -> bool {
        self@.wf()
    }

    /// The value of the initial-sequence-number counter.
    pub closed spec fn isn(&self) -> u32 {
        self.isn_counter
    }

    /// A stack with no connections, listeners, cached addresses or frames to
    /// send.
    pub fn new(mac: MacAddress, ip: Ipv4Address) -> (r: Stack)
        ensures
            r@ == (StackView {
                mac,
                ip,
                arp: Map::empty(),
                conns: Seq::empty(),
                listening: Map::empty(),
                tx: Seq::empty(),
                isn: 21245643,
            }),
            r.wf(),
    {
        let r = Stack {
            mac,
            ip,
            arp_cache: ArpCache::new(),
            connections: Vec::new(),
            listening_ports: HashMap::new(),
            tx_queue: VecDeque::new(),
            isn_counter: 21245643,
        };
        assert(r@.conns =~= Seq::empty());
        assert(r@.tx =~= Seq::empty());
        r
    }

    /// Listens on `port`: SYNs to it open connections.
    pub fn listen(&mut self, port: u16)
        ensures
            final(self)@ == (StackView {
                listening: old(self)@.listening.insert(port, TcpState::Listen),
                ..old(self)@
            }),
    {
        broadcast use vstd::std_specs::hash::group_hash_axioms;

        self.listening_ports.insert(port, TcpState::Listen);
    }

    fn generate_isn(&mut self) -> (r: SeqNum)
        ensures
            r.0 == old(self)@.next_isn(),
            final(self)@ == (StackView { isn: r.0, ..old(self)@ }),
    {
        self.isn_counter = self.isn_counter.wrapping_add(1043);
        SeqNum(self.isn_counter)
    }

    /// The position of the connection `tuple`.
    fn find_connection(&self, tuple: &SocketTuple) -> (r: Option<usize>)
        ensures
            match r {
                Some(i) => find_conn(self@.conns, *tuple) == Some(i as int) && i < self.connections@.len(),
                None => find_conn(self@.conns, *tuple) is None,
            },
    {
        let mut i: usize = 0;
        while i < self.connections.len()
            invariant
                i <= self.connections@.len(),
                forall|j: int| 0 <= j < i ==> self@.conns[j].tuple != *tuple,
            decreases self.connections@.len() - i,
        {
            if self.connections[i].tuple == *tuple {
                proof {
                    lemma_first_match_unique(self@.conns, *tuple, i as int);
                }
                return Some(i);
            }
            i = i + 1;
        }
        proof {
            lemma_no_match(self@.conns, *tuple);
        }
        None
    }

    /// Wraps a TCP segment that the stack itself sends in an IPv4 packet and
    /// an Ethernet frame, to the cached hardware address of `dst_ip` or to
    /// all.
    fn encapsulate_ipv4_tcp(&self, src_ip: Ipv4Address, dst_ip: Ipv4Address, tcp_bytes: Vec<u8>) -> (r: Vec<u8>)
        ensures
            r@ == self@.frame(src_ip, dst_ip, tcp_bytes@),
    {
        let dst_mac = match self.arp_cache.get(&dst_ip) {
            Some(m) => m,
            None => crate::addr::broadcast_mac(),
        };
        crate::frame::build_ipv4_tcp_frame(dst_mac, self.mac, src_ip, dst_ip, tcp_bytes.as_slice())
    }
}


/// `tcp_send`: the data goes to the end of the connection's send buffer.
pub open spec fn tcp_send_spec(s: StackView, tuple: SocketTuple, data: Seq<u8>) -> StackView {
    match find_conn(s.conns, tuple) {
        Some(i) => StackView {
            conns: s.conns.update(
                i,
                ConnView { send_buffer: s.conns[i].send_buffer + data, ..s.conns[i] },
            ),
            ..s
        },
        None => s,
    }
}

/// `tcp_recv`: all received bytes of the connection, which are then gone
/// from it; nothing when there is no such connection.
pub open spec fn tcp_recv_spec(s: StackView, tuple: SocketTuple) -> (StackView, Seq<u8>) {
    match find_conn(s.conns, tuple) {
        Some(i) => (
            StackView {
                conns: s.conns.update(i, ConnView { receive_buffer: Seq::empty(), ..s.conns[i] }),
                ..s
            },
            s.conns[i].receive_buffer,
        ),
        None => (s, Seq::empty()),
    }
}

/// `tcp_close`: Established moves to FinWait1 and CloseWait to LastAck, each
/// sending a FIN; in any other state nothing happens.
pub open spec fn tcp_close_spec(s: StackView, tuple: SocketTuple, now: u64) -> StackView {
    match find_conn(s.conns, tuple) {
        Some(i) => {
            let c = s.conns[i];
            if c.state == TcpState::Established || c.state == TcpState::CloseWait {
                let next = if c.state == TcpState::Established {
                    TcpState::FinWait1
                } else {
                    TcpState::LastAck
                };
                let (c1, tx1) = fin_spec(ConnView { state: next, ..c }, s.tx, now);
                StackView { conns: s.conns.update(i, c1), tx: tx1, ..s }
            } else {
                s
            }
        },
        None => s,
    }
}

impl Stack {
    /// Puts `conn` in place of the connection with the same tuple, or adds it.
    fn insert_connection(&mut self, conn: TcpConnection)
        requires
            old(self).wf(),
            conn.wf(),
        ensures
            final(self)@ == (StackView { conns: upsert(old(self)@.conns, conn@), ..old(self)@ }),
            final(self).wf(),
    {
        match self.find_connection(&conn.tuple) {
            Some(i) => {
                let ghost v = self.connections@;
                proof {
                    lemma_found(self@.conns, conn.tuple);
                    lemma_conns_replace(v, i as int, conn);
                    lemma_wf_update(self@, i as int, conn@);
                }
                self.connections.remove(i);
                self.connections.insert(i, conn);
                assert(self@ =~= StackView { conns: upsert(old(self)@.conns, conn@), ..old(self)@ });
            },
            None => {
                let ghost v = self.connections@;
                proof {
                    lemma_conns_push(v, conn);
                    lemma_wf_push(self@, conn@);
                }
                self.connections.push(conn);
                assert(self@ =~= StackView { conns: upsert(old(self)@.conns, conn@), ..old(self)@ });
            },
        }
    }

    /// Opens a connection to `remote_ip:remote_port` from `local_port`: sends
    /// a SYN and returns the connection's tuple.
    pub fn tcp_connect(&mut self, remote_ip: Ipv4Address, remote_port: u16, local_port: u16, now: u64) -> (r: SocketTuple)
        requires
            old(self).wf(),
        ensures
            (final(self)@, r) == tcp_connect_spec(old(self)@, remote_ip, remote_port, local_port, now),
            final(self).wf(),
    {
        let tuple = SocketTuple { local_ip: self.ip, local_port, remote_ip, remote_port };
        let iss = self.generate_isn();
        let mut conn = TcpConnection::new(tuple, TcpState::SynSent, self.mac, iss, SeqNum(0));
        conn.snd_nxt = iss.wrapping_add(1);
        let hdr = TcpHeader {
            src_port: local_port,
            dst_port: remote_port,
            seq: iss,
            ack: SeqNum(0),
            data_offset: 5,
            flags: TcpFlags::syn(),
            window: 65535,
            checksum: 0,
        };
        let empty: [u8; 0] = [];
        let seg = crate::frame::build_segment(&hdr, &empty, self.ip, remote_ip);
        assert(empty@ =~= Seq::<u8>::empty());
        let copy = crate::conn::copy_vec(&seg);
        let frame = self.encapsulate_ipv4_tcp(self.ip, remote_ip, copy);
        let ghost txv = self.tx_queue@;
        self.tx_queue.push_back(frame);
        assert(frames_view(self.tx_queue@) =~= frames_view(txv).push(frame@));
        let ghost q = conn.retransmit_queue@;
        let sent = crate::conn::SentSegment {
            seq: iss,
            seq_len: 1,
            data: seg,
            sent_at: now,
            retransmit_count: 0,
        };
        conn.retransmit_queue.push_back(sent);
        assert(crate::conn::segs_view(conn.retransmit_queue@) =~= seq![sent@]);
        assert(conn.wf());
        self.insert_connection(conn);
        assert(self@ =~= tcp_connect_spec(old(self)@, remote_ip, remote_port, local_port, now).0);
        tuple
    }

    /// Appends `data` to the send buffer of the connection `tuple`, if there
    /// is one; it goes out on the next tick.
    pub fn tcp_send(&mut self, tuple: SocketTuple, data: &[u8])
        requires
            old(self).wf(),
        ensures
            final(self)@ == tcp_send_spec(old(self)@, tuple, data@),
            final(self).wf(),
    {
        match self.find_connection(&tuple) {
            Some(i) => {
                proof {
                    lemma_found(self@.conns, tuple);
                }
                let ghost v = self.connections@;
                let mut conn = self.connections.remove(i);
                assert(conn@ == old(self)@.conns[i as int]);
                assert(old(self)@.conns[i as int].wf());
                crate::conn::extend_deque(&mut conn.send_buffer, data);
                proof {
                    lemma_wf_same(old(self)@.conns[i as int], conn@);
                    lemma_conns_replace(v, i as int, conn);
                    lemma_wf_update(old(self)@, i as int, conn@);
                }
                self.connections.insert(i, conn);
                assert(self@ =~= tcp_send_spec(old(self)@, tuple, data@));
            },
            None => {},
        }
    }

    /// Takes all bytes received on the connection `tuple`; nothing when
    /// there is no such connection.
    pub fn tcp_recv(&mut self, tuple: SocketTuple) -> (r: Vec<u8>)
        requires
            old(self).wf(),
        ensures
            (final(self)@, r@) == tcp_recv_spec(old(self)@, tuple),
            final(self).wf(),
    {
        match self.find_connection(&tuple) {
            Some(i) => {
                proof {
                    lemma_found(self@.conns, tuple);
                }
                let ghost v = self.connections@;
                let mut conn = self.connections.remove(i);
                assert(conn@ == old(self)@.conns[i as int]);
                assert(old(self)@.conns[i as int].wf());
                let n = conn.receive_buffer.len();
                let data = crate::conn::drain_front(&mut conn.receive_buffer, n);
                assert(data@ =~= old(self)@.conns[i as int].receive_buffer);
                assert(conn.receive_buffer@ =~= Seq::<u8>::empty());
                proof {
                    lemma_wf_same(old(self)@.conns[i as int], conn@);
                    lemma_conns_replace(v, i as int, conn);
                    lemma_wf_update(old(self)@, i as int, conn@);
                }
                self.connections.insert(i, conn);
                assert(self@ =~= tcp_recv_spec(old(self)@, tuple).0);
                data
            },
            None => {
                let r: Vec<u8> = Vec::new();
                assert(r@ =~= Seq::<u8>::empty());
                r
            },
        }
    }

    /// Starts closing the connection `tuple`: from Established or CloseWait
    /// it sends a FIN.
    pub fn tcp_close(&mut self, tuple: SocketTuple, now: u64)
        requires
            old(self).wf(),
        ensures
            final(self)@ == tcp_close_spec(old(self)@, tuple, now),
            final(self).wf(),
    {
        match self.find_connection(&tuple) {
            Some(i) => {
                proof {
                    lemma_found(self@.conns, tuple);
                }
                let st = self.connections[i].state;
                if st == TcpState::Established || st == TcpState::CloseWait {
                    let ghost v = self.connections@;
                    let mut conn = self.connections.remove(i);
                    assert(conn@ == old(self)@.conns[i as int]);
                    assert(old(self)@.conns[i as int].wf());
                    conn.state = if st == TcpState::Established {
                        TcpState::FinWait1
                    } else {
                        TcpState::LastAck
                    };
                    proof {
                        lemma_wf_same(old(self)@.conns[i as int], conn@);
                    }
                    conn.send_fin(&mut self.tx_queue, now);
                    proof {
                        lemma_conns_replace(v, i as int, conn);
                        lemma_wf_update(old(self)@, i as int, conn@);
                    }
                    self.connections.insert(i, conn);
                    assert(self@ =~= tcp_close_spec(old(self)@, tuple, now));
                }
            },
            None => {},
        }
    }

    /// The tuples of all connections, in the order the stack keeps them.
    pub fn active_connections(&self) -> (r: Vec<SocketTuple>)
        ensures
            r@ == self@.conns.map_values(|c: ConnView| c.tuple),
    {
        let mut r: Vec<SocketTuple> = Vec::new();
        let mut i: usize = 0;
        while i < self.connections.len()
            invariant
                i <= self.connections@.len(),
                r@ == self@.conns.take(i as int).map_values(|c: ConnView| c.tuple),
            decreases self.connections@.len() - i,
        {
            r.push(self.connections[i].tuple);
            i = i + 1;
            assert(r@ =~= self@.conns.take(i as int).map_values(|c: ConnView| c.tuple));
        }
        assert(self@.conns.take(i as int) =~= self@.conns);
        r
    }

    /// The state of the connection `tuple`, if there is one.
    pub fn connection_state(&self, tuple: SocketTuple) -> (r: Option<TcpState>)
        ensures
            r == (match find_conn(self@.conns, tuple) {
                Some(i) => Some(self@.conns[i].state),
                None => None,
            }),
    {
        match self.find_connection(&tuple) {
            Some(i) => Some(self.connections[i].state),
            None => None,
        }
    }
}


/// `resolve_and_populate_dst_mac` on the stack: an IPv4 frame whose
/// destination has no cached hardware address makes the stack ask for it.
pub open spec fn resolve_spec(s: StackView, p: Seq<u8>) -> (StackView, Seq<u8>) {
    if p.len() >= 34 && get_be16(p, 12) == 0x0800 {
        let dst = ip_at(p, 30);
        match arp_lookup(s.arp, dst) {
            Some(m) => (s, m.bytes() + p.skip(6)),
            None => (StackView { tx: s.tx.push(arp_request_frame(s.mac, s.ip, dst)), ..s }, p),
        }
    } else {
        (s, p)
    }
}

proof fn lemma_conns_remove(v: Seq<TcpConnection>, i: int)
    requires
        0 <= i < v.len(),
    ensures
        conns_view(v.remove(i)) == conns_view(v).remove(i),
{
    assert(conns_view(v.remove(i)) =~= conns_view(v).remove(i));
}

proof fn lemma_wf_remove(s: StackView, i: int)
    requires
        s.wf(),
        0 <= i < s.conns.len(),
    ensures
        (StackView { conns: s.conns.remove(i), ..s }).wf(),
{
    let t = StackView { conns: s.conns.remove(i), ..s };
    assert forall|j: int| 0 <= j < t.conns.len() implies #[trigger] t.conns[j].wf() by {
        if j < i {
            assert(t.conns[j] == s.conns[j]);
        } else {
            assert(t.conns[j] == s.conns[j + 1]);
        }
    }
    assert forall|a: int, b: int| 0 <= a < b < t.conns.len() implies #[trigger] t.conns[a].tuple
        != #[trigger] t.conns[b].tuple by {
        let a1 = if a < i {
            a
        } else {
            a + 1
        };
        let b1 = if b < i {
            b
        } else {
            b + 1
        };
        assert(s.conns[a1].tuple != s.conns[b1].tuple);
    }
}

/// Reads the four bytes at `i` as an IPv4 address.
fn read_ip(f: &[u8], i: usize) -> (r: Ipv4Address)
    requires
        i + 3 < f@.len(),
    ensures
        r == ip_at(f@, i as int),
{
    Ipv4Address([f[i], f[i + 1], f[i + 2], f[i + 3]])
}

/// Reads the six bytes at `i` as a hardware address.
fn read_mac(f: &[u8], i: usize) -> (r: MacAddress)
    requires
        i + 5 < f@.len(),
    ensures
        r == mac_at(f@, i as int),
{
    MacAddress([f[i], f[i + 1], f[i + 2], f[i + 3], f[i + 4], f[i + 5]])
}

impl Stack {
    fn send_rst(&mut self, local_ip: Ipv4Address, remote_ip: Ipv4Address, bad_hdr: TcpHeader)
        ensures
            final(self)@ == rst_spec(old(self)@, local_ip, remote_ip, bad_hdr),
    {
        if bad_hdr.flags.contains(TcpFlags::rst()) {
            return ;
        }
        let acked = bad_hdr.flags.contains(TcpFlags::ack());
        let rst_seq = if acked {
            bad_hdr.ack
        } else {
            SeqNum(0)
        };
        let rst_ack = if !acked {
            bad_hdr.seq.wrapping_add(
                if bad_hdr.flags.contains(TcpFlags::syn()) {
                    1
                } else {
                    0
                },
            )
        } else {
            SeqNum(0)
        };
        let mut rst_flags = TcpFlags::rst();
        if !acked {
            rst_flags.insert(TcpFlags::ack());
        }
        assert(0x04u8 | 0x10u8 == 0x14u8) by (bit_vector);
        let reply_hdr = TcpHeader {
            src_port: bad_hdr.dst_port,
            dst_port: bad_hdr.src_port,
            seq: rst_seq,
            ack: rst_ack,
            data_offset: 5,
            flags: rst_flags,
            window: 0,
            checksum: 0,
        };
        let empty: [u8; 0] = [];
        let reply_bytes = crate::frame::build_segment(&reply_hdr, &empty, local_ip, remote_ip);
        assert(empty@ =~= Seq::<u8>::empty());
        let frame = self.encapsulate_ipv4_tcp(local_ip, remote_ip, reply_bytes);
        let ghost txv = self.tx_queue@;
        self.tx_queue.push_back(frame);
        assert(frames_view(self.tx_queue@) =~= frames_view(txv).push(frame@));
        assert(self@ =~= rst_spec(old(self)@, local_ip, remote_ip, bad_hdr));
    }

    fn deliver(&mut self, i: usize, hdr: TcpHeader, payload: &[u8], now: u64) -> (r: Option<(SocketTuple, RttSample)>)
        requires
            old(self).wf(),
            now <= max_now(),
            i < old(self)@.conns.len(),
        ensures
            (final(self)@, r) == deliver_spec(old(self)@, i as int, hdr, payload@, now),
            final(self).wf(),
    {
        let ghost v = self.connections@;
        let mut conn = self.connections.remove(i);
        assert(conn@ == old(self)@.conns[i as int]);
        assert(old(self)@.conns[i as int].wf());
        let tuple = conn.tuple;
        let sample = conn.process_segment(hdr, payload, &mut self.tx_queue, now);
        proof {
            lemma_conns_replace(v, i as int, conn);
            lemma_wf_update(old(self)@, i as int, conn@);
        }
        self.connections.insert(i, conn);
        assert(self@ =~= deliver_spec(old(self)@, i as int, hdr, payload@, now).0);
        match sample {
            Some(x) => Some((tuple, x)),
            None => None,
        }
    }

    fn unmatched(&mut self, tuple: SocketTuple, hdr: TcpHeader, now: u64)
        requires
            old(self).wf(),
            find_conn(old(self)@.conns, tuple) is None,
        ensures
            final(self)@ == unmatched_spec(old(self)@, tuple, hdr, now),
            final(self).wf(),
    {
        broadcast use vstd::std_specs::hash::group_hash_axioms;

        let listening = match self.listening_ports.get(&hdr.dst_port) {
            Some(st) => *st == TcpState::Listen,
            None => false,
        };
        if listening {
            if hdr.flags.contains(TcpFlags::syn()) && !hdr.flags.contains(TcpFlags::ack()) {
                let iss = self.generate_isn();
                let irs = hdr.seq;
                let mut conn = TcpConnection::new(tuple, TcpState::SynReceived, self.mac, iss, irs);
                conn.snd_nxt = iss.wrapping_add(1);
                conn.rcv_nxt = irs.wrapping_add(1);
                conn.snd_wnd = hdr.window;
                proof {
                    lemma_wf_same(
                        new_conn_view(tuple, TcpState::SynReceived, self.mac, iss.0, irs.0),
                        conn@,
                    );
                }
                conn.send_syn_ack(&mut self.tx_queue, now);
                let ghost v = self.connections@;
                proof {
                    lemma_conns_push(v, conn);
                    lemma_wf_push(self@, conn@);
                }
                self.connections.push(conn);
                assert(self@ =~= unmatched_spec(old(self)@, tuple, hdr, now));
            }
        } else {
            self.send_rst(tuple.local_ip, tuple.remote_ip, hdr);
            assert(self@.conns == old(self)@.conns);
        }
    }

    fn handle_tcp(&mut self, src_ip: Ipv4Address, dst_ip: Ipv4Address, tcp_segment: &[u8], now: u64) -> (r: Option<(SocketTuple, RttSample)>)
        requires
            old(self).wf(),
            now <= max_now(),
            tcp_segment@.len() <= 0xFFFF,
        ensures
            (final(self)@, r) == handle_tcp_spec(old(self)@, src_ip, dst_ip, tcp_segment@, now),
            final(self).wf(),
    {
        reveal(handle_tcp_spec);
        proof {
            crate::frame::lemma_segment_fits(src_ip, dst_ip, tcp_segment@);
        }
        if crate::checksum::tcp_checksum(src_ip, dst_ip, tcp_segment) != 0 {
            return None;
        }
        let (hdr, payload) = match TcpHeader::parse(tcp_segment) {
            Some(res) => res,
            None => return None,
        };
        let tuple = SocketTuple {
            local_ip: dst_ip,
            local_port: hdr.dst_port,
            remote_ip: src_ip,
            remote_port: hdr.src_port,
        };
        match self.find_connection(&tuple) {
            Some(i) => {
                proof {
                    lemma_found(self@.conns, tuple);
                }
                self.deliver(i, hdr, payload, now)
            },
            None => {
                self.unmatched(tuple, hdr, now);
                None
            },
        }
    }

    fn handle_arp(&mut self, frame: &[u8], src_mac: MacAddress)
        ensures
            final(self)@ == handle_arp_spec(old(self)@, frame@, src_mac),
            final(self).wf() == old(self).wf(),
    {
        if frame.len() < 42 {
            return ;
        }
        let target_ip = read_ip(frame, 38);
        if target_ip != self.ip {
            return ;
        }
        let sender_ip = read_ip(frame, 28);
        self.arp_cache.insert(sender_ip, src_mac);
        let reply = crate::frame::build_arp_reply(self.mac, self.ip, src_mac, sender_ip);
        let ghost txv = self.tx_queue@;
        self.tx_queue.push_back(reply);
        assert(frames_view(self.tx_queue@) =~= frames_view(txv).push(reply@));
        assert(self@ =~= handle_arp_spec(old(self)@, frame@, src_mac));
    }

    fn handle_ipv4(&mut self, frame: &[u8], src_mac: MacAddress, now: u64) -> (r: Option<(SocketTuple, RttSample)>)
        requires
            old(self).wf(),
            now <= max_now(),
            frame@.len() >= 14,
            for_us(old(self)@, frame@),
            get_be16(frame@, 12) == 0x0800,
            !malformed_ipv4(old(self)@, frame@),
        ensures
            (final(self)@, r) == handle_ipv4_spec(old(self)@, frame@, src_mac, now),
            final(self).wf(),
    {
        if frame.len() < 34 {
            return None;
        }
        let b14 = frame[14];
        let low = b14 & 0x0F;
        assert(low == b14 % 16) by (bit_vector)
            requires
                low == b14 & 0x0F,
        ;
        let ihl = low as usize * 4;
        let total_len = crate::header::read_be16(frame, 16) as usize;
        let protocol = frame[14 + 9];
        let src_ip = read_ip(frame, 26);
        let dst_ip = read_ip(frame, 30);
        if dst_ip != self.ip {
            return None;
        }
        let ip_hdr = vstd::slice::slice_subrange(frame, 14, 14 + ihl);
        proof {
            crate::checksum::lemma_words_sum_bound(ip_hdr@);
        }
        if crate::checksum::checksum(ip_hdr) != 0 {
            return None;
        }
        self.arp_cache.insert(src_ip, src_mac);
        assert(self@ =~= StackView { arp: old(self)@.arp.insert(src_ip.key(), src_mac), ..old(self)@ });
        if protocol == 6 {
            let tcp_start = 14 + ihl;
            let tcp_end = 14 + total_len;
            if frame.len() < tcp_end {
                return None;
            }
            let seg = vstd::slice::slice_subrange(frame, tcp_start, tcp_end);
            return self.handle_tcp(src_ip, dst_ip, seg, now);
        }
        None
    }

    /// Whether `on_packet` cannot take `frame`: an IPv4 packet for this stack
    /// whose announced header runs past the frame, or whose TCP segment would
    /// end before its header does.
    pub fn is_malformed_ipv4(&self, frame: &[u8]) -> (r: bool)
        ensures
            r == malformed_ipv4(self@, frame@),
    {
        if frame.len() < 34 {
            return false;
        }
        let dst_mac = read_mac(frame, 0);
        if dst_mac != self.mac && dst_mac != crate::addr::broadcast_mac() {
            return false;
        }
        if crate::header::read_be16(frame, 12) != 0x0800 {
            return false;
        }
        if read_ip(frame, 30) != self.ip {
            return false;
        }
        let b14 = frame[14];
        let low = b14 & 0x0F;
        assert(low == b14 % 16) by (bit_vector)
            requires
                low == b14 & 0x0F,
        ;
        let ihl = low as usize * 4;
        if 14 + ihl > frame.len() {
            return true;
        }
        let total_len = crate::header::read_be16(frame, 16) as usize;
        let ip_hdr = vstd::slice::slice_subrange(frame, 14, 14 + ihl);
        proof {
            crate::checksum::lemma_words_sum_bound(ip_hdr@);
        }
        crate::checksum::checksum(ip_hdr) == 0 && frame[23] == 6 && frame.len() >= 14 + total_len
            && ihl > total_len
    }

    /// Takes a frame from the wire: ARP requests for our address are
    /// answered, IPv4/TCP segments for us go to their connection or open one
    /// on a listening port, and everything else is dropped. Returns a
    /// round-trip measurement of the connection it names when one has to be
    /// smoothed into that connection's estimate (see `set_rtt_estimate`).
    pub fn on_packet(&mut self, frame: &[u8], now: u64) -> (r: Option<(SocketTuple, RttSample)>)
        requires
            old(self).wf(),
            now <= max_now(),
            !malformed_ipv4(old(self)@, frame@),
        ensures
            (final(self)@, r) == on_packet_spec(old(self)@, frame@, now),
            final(self).wf(),
    {
        if frame.len() < 14 {
            return None;
        }
        let dst_mac = read_mac(frame, 0);
        let src_mac = read_mac(frame, 6);
        let ethertype = crate::header::read_be16(frame, 12);
        if dst_mac != self.mac && dst_mac != crate::addr::broadcast_mac() {
            return None;
        }
        if ethertype == 0x0806 {
            self.handle_arp(frame, src_mac);
            None
        } else if ethertype == 0x0800 {
            self.handle_ipv4(frame, src_mac, now)
        } else {
            None
        }
    }
}


impl Stack {
    /// Runs every connection's timers and sends what its windows allow, in
    /// the order the connections are kept; connections that end up Closed
    /// are dropped.
    pub fn on_tick(&mut self, now: u64)
        requires
            old(self).wf(),
            forall|i: int|
                0 <= i < old(self)@.conns.len() ==> !timers_overflow(#[trigger] old(self)@.conns[i], now),
        ensures
            final(self)@ == ({
                let (conns, tx) = tick_spec(old(self)@.conns, old(self)@.tx, now);
                StackView { conns, tx, ..old(self)@ }
            }),
            final(self).wf(),
    {
        let ghost c0 = old(self)@.conns;
        let ghost mut done: Seq<ConnView> = Seq::empty();
        let ghost mut k: int = 0;
        let mut i: usize = 0;
        proof {
            assert(c0.skip(0) =~= c0);
            let r = tick_spec(c0, old(self)@.tx, now);
            assert(done + r.0 =~= r.0);
            assert(self@.conns =~= done + c0.skip(k));
        }
        while i < self.connections.len()
            invariant
                self.wf(),
                0 <= k <= c0.len(),
                i == done.len(),
                self@.conns == done + c0.skip(k),
                self@ == (StackView { conns: self@.conns, tx: self@.tx, ..old(self)@ }),
                forall|j: int| 0 <= j < c0.len() ==> !timers_overflow(#[trigger] c0[j], now),
                ({
                    let r = tick_spec(c0.skip(k), self@.tx, now);
                    tick_spec(c0, old(self)@.tx, now) == (done + r.0, r.1)
                }),
            decreases self.connections@.len() - i,
        {
            let ghost s0 = self@;
            let ghost v = self.connections@;
            assert(self@.conns[i as int] == c0[k]);
            assert(c0.skip(k).subrange(1, c0.skip(k).len() as int) =~= c0.skip(k + 1));
            let mut conn = self.connections.remove(i);
            proof {
                lemma_conns_remove(v, i as int);
                assert(s0.conns[i as int].wf());
            }
            conn.tick(&mut self.tx_queue, now);
            if conn.state == TcpState::Closed {
                proof {
                    lemma_wf_remove(s0, i as int);
                    assert(done + c0.skip(k + 1) =~= s0.conns.remove(i as int));
                    k = k + 1;
                }
                assert(self@ =~= StackView { conns: self@.conns, tx: self@.tx, ..old(self)@ });
            } else {
                let ghost cv = conn@;
                proof {
                    assert(v.remove(i as int).insert(i as int, conn) =~= v.update(i as int, conn));
                    lemma_conns_replace(v, i as int, conn);
                    lemma_wf_update(s0, i as int, conn@);
                }
                self.connections.insert(i, conn);
                proof {
                    assert(done.push(cv) + c0.skip(k + 1) =~= s0.conns.update(i as int, cv));
                    assert(done + (seq![cv] + tick_spec(c0.skip(k + 1), self@.tx, now).0) =~= done.push(cv)
                        + tick_spec(c0.skip(k + 1), self@.tx, now).0);
                    done = done.push(cv);
                    k = k + 1;
                }
                i = i + 1;
                assert(self@ =~= StackView { conns: self@.conns, tx: self@.tx, ..old(self)@ });
            }
        }
        proof {
            assert(self@.conns.len() == i);
            assert(c0.skip(k).len() == 0);
            assert(done + c0.skip(k) =~= done);
            let r = tick_spec(c0.skip(k), self@.tx, now);
            assert(r.0 =~= c0.skip(k));
            assert(done + r.0 =~= done);
        }
        assert(self@ =~= ({
            let (conns, tx) = tick_spec(old(self)@.conns, old(self)@.tx, now);
            StackView { conns, tx, ..old(self)@ }
        }));
    }

    /// Broadcasts an ARP request for the hardware address of `target_ip`.
    pub fn send_arp_request(&mut self, target_ip: Ipv4Address)
        ensures
            final(self)@ == (StackView {
                tx: old(self)@.tx.push(arp_request_frame(old(self)@.mac, old(self)@.ip, target_ip)),
                ..old(self)@
            }),
    {
        let req = crate::frame::build_arp_request(self.mac, self.ip, target_ip);
        let ghost txv = self.tx_queue@;
        self.tx_queue.push_back(req);
        assert(frames_view(self.tx_queue@) =~= frames_view(txv).push(req@));
        assert(self@ =~= StackView {
            tx: old(self)@.tx.push(arp_request_frame(old(self)@.mac, old(self)@.ip, target_ip)),
            ..old(self)@
        });
    }

    /// Fills in the destination hardware address of an outgoing IPv4 frame
    /// from the cache, or asks for it with an ARP request when it is not
    /// known.
    pub fn resolve_and_populate_dst_mac(&mut self, packet: &mut [u8])
        ensures
            (final(self)@, final(packet)@) == resolve_spec(old(self)@, old(packet)@),
    {
        if packet.len() >= 34 {
            let ethertype = crate::header::read_be16(packet, 12);
            if ethertype == 0x0800 {
                let dst_ip = read_ip(packet, 30);
                match self.arp_cache.get(&dst_ip) {
                    Some(mac) => {
                        let mut j: usize = 0;
                        while j < 6
                            invariant
                                j <= 6,
                                packet@.len() == old(packet)@.len(),
                                old(packet)@.len() >= 34,
                                packet@ =~= mac.bytes().take(j as int) + old(packet)@.skip(j as int),
                            decreases 6 - j,
                        {
                            packet[j] = mac.0[j];
                            j = j + 1;
                            assert(packet@ =~= mac.bytes().take(j as int) + old(packet)@.skip(j as int));
                        }
                        assert(mac.bytes().take(6) =~= mac.bytes());
                    },
                    None => {
                        self.send_arp_request(dst_ip);
                    },
                }
            }
        }
    }
}


proof fn lemma_mac_from_bytes(f: Seq<u8>, i: int, m: MacAddress)
    requires
        0 <= i,
        i + 6 <= f.len(),
        f.subrange(i, i + 6) == m.bytes(),
    ensures
        mac_at(f, i) == m,
{
    broadcast use vstd::array::group_array_axioms;

    let b = f.subrange(i, i + 6);
    assert(b[0] == f[i] && b[1] == f[i + 1] && b[2] == f[i + 2]);
    assert(b[3] == f[i + 3] && b[4] == f[i + 4] && b[5] == f[i + 5]);
    assert(mac_at(f, i).0 =~= m.0);
}

proof fn lemma_ip_from_bytes(f: Seq<u8>, i: int, a: Ipv4Address)
    requires
        0 <= i,
        i + 4 <= f.len(),
        f.subrange(i, i + 4) == a.bytes(),
    ensures
        ip_at(f, i) == a,
{
    broadcast use vstd::array::group_array_axioms;

    let b = f.subrange(i, i + 4);
    assert(b[0] == f[i] && b[1] == f[i + 1] && b[2] == f[i + 2] && b[3] == f[i + 3]);
    assert(ip_at(f, i).0 =~= a.0);
}

/// What one stack sends, another takes: a frame carrying `tcp` from `src`
/// to this stack's address, addressed to its hardware address (or to all),
/// is well formed, teaches the stack the sender's hardware address, and its
/// segment goes to the TCP handler whole.
pub proof fn law_frame_delivered(
    s: StackView,
    dst_mac: MacAddress,
    src_mac: MacAddress,
    src: Ipv4Address,
    tcp: Seq<u8>,
    now: u64,
)
    requires
        dst_mac == s.mac || dst_mac == broadcast_mac_spec(),
        20 + tcp.len() <= 0xFFFF,
    ensures
        ({
            let f = ipv4_tcp_frame(dst_mac, src_mac, src, s.ip, tcp);
            &&& !malformed_ipv4(s, f)
            &&& on_packet_spec(s, f, now) == handle_tcp_spec(
                StackView { arp: s.arp.insert(src.key(), src_mac), ..s },
                src,
                s.ip,
                tcp,
                now,
            )
        }),
{
    let f = ipv4_tcp_frame(dst_mac, src_mac, src, s.ip, tcp);
    crate::frame::law_frame_fields(dst_mac, src_mac, src, s.ip, tcp);
    lemma_mac_from_bytes(f, 0, dst_mac);
    lemma_mac_from_bytes(f, 6, src_mac);
    lemma_ip_from_bytes(f, 26, src);
    lemma_ip_from_bytes(f, 30, s.ip);
    assert(ihl_of(f) == 20);
    assert(f.subrange(34, 34 + tcp.len() as int) =~= tcp);
}

/// A connection's frames, once given the peer's hardware address, reach the
/// peer's connection handler with the header and payload they were built
/// from: the TCP checksum checks, and the header parses back.
pub proof fn law_segment_delivered(
    s: StackView,
    src_mac: MacAddress,
    src: Ipv4Address,
    h: TcpHeader,
    payload: Seq<u8>,
    now: u64,
)
    requires
        40 + payload.len() <= 0xFFFF,
    ensures
        ({
            let seg = tcp_segment(h, payload, src, s.ip);
            let c = tcp_checksum_spec(src, s.ip, crate::header::serialize_spec(h) + payload);
            let h2 = TcpHeader { data_offset: 20, checksum: c, ..h };
            let s1 = StackView { arp: s.arp.insert(src.key(), src_mac), ..s };
            let tuple = SocketTuple {
                local_ip: s.ip,
                local_port: h.dst_port,
                remote_ip: src,
                remote_port: h.src_port,
            };
            on_packet_spec(s, ipv4_tcp_frame(s.mac, src_mac, src, s.ip, seg), now) == match find_conn(
                s1.conns,
                tuple,
            ) {
                Some(i) => deliver_spec(s1, i, h2, payload, now),
                None => (unmatched_spec(s1, tuple, h2, now), None),
            }
        }),
{
    reveal(handle_tcp_spec);
    let seg = tcp_segment(h, payload, src, s.ip);
    crate::frame::law_segment_accepted(h, payload, src, s.ip);
    law_frame_delivered(s, s.mac, src_mac, src, seg, now);
}

/// After a tick no connection is Closed.
pub proof fn law_tick_drops_closed(conns: Seq<ConnView>, tx: Seq<Seq<u8>>, now: u64)
    ensures
        forall|i: int|
            0 <= i < tick_spec(conns, tx, now).0.len() ==> (#[trigger] tick_spec(conns, tx, now).0[i]).state
                != TcpState::Closed,
    decreases conns.len(),
{
    if conns.len() > 0 {
        let (c2, tx2) = tick_one(conns[0], tx, now);
        law_tick_drops_closed(conns.subrange(1, conns.len() as int), tx2, now);
    }
}

/// A tick only takes connections away: there are no more of them than
/// before, each one left has the tuple of one that was there before, and a
/// connection whose TimeWait has run out is gone.
pub proof fn law_tick_only_removes(conns: Seq<ConnView>, tx: Seq<Seq<u8>>, now: u64)
    requires
        forall|a: int, b: int|
            0 <= a < b < conns.len() ==> #[trigger] conns[a].tuple != #[trigger] conns[b].tuple,
    ensures
        ({
            let r = tick_spec(conns, tx, now).0;
            &&& r.len() <= conns.len()
            &&& forall|i: int|
                0 <= i < r.len() ==> exists|j: int| 0 <= j < conns.len() && #[trigger] conns[j].tuple == #[trigger] r[i].tuple
            &&& forall|j: int, i: int|
                0 <= j < conns.len() && time_wait_over(conns[j], now) && 0 <= i < r.len()
                    ==> #[trigger] conns[j].tuple != #[trigger] r[i].tuple
        }),
    decreases conns.len(),
{
    if conns.len() > 0 {
        let tail = conns.subrange(1, conns.len() as int);
        let (c2, tx2) = tick_one(conns[0], tx, now);
        lemma_tick_one(conns[0], tx, now);
        assert forall|a: int, b: int| 0 <= a < b < tail.len() implies #[trigger] tail[a].tuple
            != #[trigger] tail[b].tuple by {
            assert(conns[a + 1].tuple != conns[b + 1].tuple);
        }
        law_tick_only_removes(tail, tx2, now);
        let rest = tick_spec(tail, tx2, now).0;
        let r = tick_spec(conns, tx, now).0;
        assert forall|i: int| 0 <= i < rest.len() implies exists|j: int|
            0 <= j < conns.len() && #[trigger] conns[j].tuple == #[trigger] rest[i].tuple by {
            let j0 = choose|j: int| 0 <= j < tail.len() && #[trigger] tail[j].tuple == rest[i].tuple;
            assert(conns[j0 + 1].tuple == rest[i].tuple);
        }
        assert forall|i: int| 0 <= i < rest.len() implies #[trigger] rest[i].tuple != conns[0].tuple by {
            let j0 = choose|j: int| 0 <= j < tail.len() && #[trigger] tail[j].tuple == rest[i].tuple;
            assert(conns[0].tuple != conns[j0 + 1].tuple);
        }
        assert forall|j: int, i: int|
            0 <= j < conns.len() && time_wait_over(conns[j], now) && 0 <= i < r.len()
                implies #[trigger] conns[j].tuple != #[trigger] r[i].tuple by {
            if j == 0 {
                assert(r == rest);
                assert(rest[i].tuple != conns[0].tuple);
            } else {
                assert(tail[j - 1] == conns[j]);
                if c2.state == TcpState::Closed {
                    assert(r == rest);
                    assert(tail[j - 1].tuple != rest[i].tuple);
                } else if i == 0 {
                    assert(r[0] == c2);
                    assert(conns[0].tuple != conns[j].tuple);
                } else {
                    assert(r[i] == rest[i - 1]);
                    assert(tail[j - 1].tuple != rest[i - 1].tuple);
                }
            }
        }
        assert forall|i: int| 0 <= i < r.len() implies exists|j: int|
            0 <= j < conns.len() && #[trigger] conns[j].tuple == #[trigger] r[i].tuple by {
            if c2.state == TcpState::Closed {
                assert(r[i] == rest[i]);
            } else if i == 0 {
                assert(conns[0].tuple == r[0].tuple);
            } else {
                assert(r[i] == rest[i - 1]);
            }
        }
    }
}

/// Received bytes are handed out once: a second `tcp_recv` right after the
/// first gives nothing.
pub proof fn law_recv_drains(s: StackView, tuple: SocketTuple)
    ensures
        tcp_recv_spec(tcp_recv_spec(s, tuple).0, tuple).1 == Seq::<u8>::empty(),
{
    match find_conn(s.conns, tuple) {
        Some(i) => {
            let s1 = tcp_recv_spec(s, tuple).0;
            assert(is_first_match(s.conns, tuple, i));
            assert(is_first_match(s1.conns, tuple, i));
            lemma_first_match_unique(s1.conns, tuple, i);
        },
        None => {},
    }
}


/// `set_rtt_estimate`: the connection `tuple` takes the smoothed round-trip
/// time and variance and sets its retransmission timeout from them.
pub open spec fn rtt_estimate_spec(s: StackView, tuple: SocketTuple, srtt: u128, rttvar: u128) -> StackView {
    match find_conn(s.conns, tuple) {
        Some(i) => StackView {
            conns: s.conns.update(
                i,
                ConnView {
                    srtt: Some(srtt),
                    rttvar,
                    rto: crate::conn::max_u128((srtt + 4 * rttvar) as u128, crate::conn::millis(100)),
                    ..s.conns[i]
                },
            ),
            ..s
        },
        None => s,
    }
}

impl Stack {
    /// Hands the connection `tuple` the smoothed round-trip time and variance
    /// computed from an `RttSample` that `on_packet` returned for it; the
    /// connection sets its retransmission timeout from them.
    pub fn set_rtt_estimate(&mut self, tuple: SocketTuple, srtt: u128, rttvar: u128)
        requires
            old(self).wf(),
            srtt <= crate::conn::rtt_bound(),
            rttvar <= crate::conn::rtt_bound(),
        ensures
            final(self)@ == rtt_estimate_spec(old(self)@, tuple, srtt, rttvar),
            final(self).wf(),
    {
        match self.find_connection(&tuple) {
            Some(i) => {
                proof {
                    lemma_found(self@.conns, tuple);
                }
                let ghost v = self.connections@;
                let mut conn = self.connections.remove(i);
                assert(conn@ == old(self)@.conns[i as int]);
                assert(old(self)@.conns[i as int].wf());
                conn.set_rtt_estimate(srtt, rttvar);
                proof {
                    lemma_conns_replace(v, i as int, conn);
                    lemma_wf_update(old(self)@, i as int, conn@);
                }
                self.connections.insert(i, conn);
                assert(self@ =~= StackView {
                    conns: old(self)@.conns.update(i as int, conn@),
                    ..old(self)@
                });
            },
            None => {},
        }
    }
}



/// Whether some connection's timers would have to count one retransmission
/// too many at `now`, which `on_tick` cannot do.
pub open spec fn tick_overflows(s: StackView, now: u64) -> bool {
    exists|i: int| 0 <= i < s.conns.len() && timers_overflow(#[trigger] s.conns[i], now)
}

/// The state of the connection `t`, if there is one.
pub open spec fn state_of(s: StackView, t: SocketTuple) -> Option<TcpState> {
    match find_conn(s.conns, t) {
        Some(i) => Some(s.conns[i].state),
        None => None,
    }
}

impl Stack {
    /// Whether `on_tick(now)` cannot run: some connection would have to
    /// count a retransmission of a segment already sent 2^32 - 1 times.
    pub fn tick_would_overflow(&self, now: u64) -> (r: bool)
        ensures
            r == tick_overflows(self@, now),
    {
        let mut i: usize = 0;
        while i < self.connections.len()
            invariant
                i <= self.connections@.len(),
                forall|j: int| 0 <= j < i ==> !timers_overflow(#[trigger] self@.conns[j], now),
            decreases self.connections@.len() - i,
        {
            if self.connections[i].timers_would_overflow(now) {
                assert(timers_overflow(self@.conns[i as int], now));
                return true;
            }
            i = i + 1;
        }
        false
    }
}


/// An outgoing frame with its destination hardware address filled in from
/// the cache: frames of at least 34 bytes are looked up by the address at
/// bytes 30 to 33 (an IPv4 packet's destination); others, and unknown
/// addresses, are left as they are.
pub open spec fn fill_dst(f: Seq<u8>, arp: Map<u32, MacAddress>) -> Seq<u8> {
    if f.len() >= 34 {
        match arp_lookup(arp, ip_at(f, 30)) {
            Some(m) => m.bytes() + f.skip(6),
            None => f,
        }
    } else {
        f
    }
}

impl Stack {
    /// Records that `ip` is at `mac` in the stack's cache.
    pub fn cache_address(&mut self, ip: Ipv4Address, mac: MacAddress)
        ensures
            final(self)@ == (StackView { arp: old(self)@.arp.insert(ip.key(), mac), ..old(self)@ }),
            final(self).wf() == old(self).wf(),
    {
        self.arp_cache.insert(ip, mac);
    }

    /// Takes every queued frame, oldest first, with its destination
    /// hardware address filled in from the cache (see `fill_dst`).
    pub fn take_outgoing(&mut self) -> (r: Vec<Vec<u8>>)
        ensures
            frames_view(r@) == old(self)@.tx.map_values(|f: Seq<u8>| fill_dst(f, old(self)@.arp)),
            final(self)@ == (StackView { tx: Seq::empty(), ..old(self)@ }),
            final(self).wf() == old(self).wf(),
    {
        let mut out: Vec<Vec<u8>> = Vec::new();
        let ghost q0 = frames_view(self.tx_queue@);
        let ghost mut k: int = 0;
        loop
            invariant
                0 <= k <= q0.len(),
                frames_view(self.tx_queue@) == q0.skip(k),
                frames_view(out@) == q0.take(k).map_values(|f: Seq<u8>| fill_dst(f, old(self)@.arp)),
                self@ == (StackView { tx: q0.skip(k), ..old(self)@ }),
            ensures
                k == q0.len(),
                frames_view(out@) == q0.map_values(|f: Seq<u8>| fill_dst(f, old(self)@.arp)),
                self@ == (StackView { tx: Seq::empty(), ..old(self)@ }),
            decreases q0.len() - k,
        {
            let ghost qq = self.tx_queue@;
            match self.tx_queue.pop_front() {
                Some(frame) => {
                    let mut frame = frame;
                    assert(frames_view(qq).len() == qq.len());
                    assert(k < q0.len());
                    assert(frames_view(qq)[0] == qq[0]@);
                    assert(q0.skip(k)[0] == q0[k]);
                    assert(frame@ == q0[k]);
                    if frame.len() >= 34 {
                        let dst_ip = read_ip(frame.as_slice(), 30);
                        match self.arp_cache.get(&dst_ip) {
                            Some(mac) => {
                                let mut j: usize = 0;
                                let ghost f0 = frame@;
                                while j < 6
                                    invariant
                                        j <= 6,
                                        f0.len() >= 34,
                                        frame@ == mac.bytes().take(j as int) + f0.skip(j as int),
                                    decreases 6 - j,
                                {
                                    frame.set(j, mac.0[j]);
                                    j = j + 1;
                                    assert(frame@ =~= mac.bytes().take(j as int) + f0.skip(j as int));
                                }
                                assert(mac.bytes().take(6) =~= mac.bytes());
                            },
                            None => {},
                        }
                    }
                    let ghost fv = frame@;
                    let ghost ov = out@;
                    out.push(frame);
                    proof {
                        assert(frames_view(out@) =~= frames_view(ov).push(fv));
                        assert(q0.take(k + 1) =~= q0.take(k).push(q0[k]));
                        assert(frames_view(self.tx_queue@) =~= frames_view(qq).subrange(1, qq.len() as int));
                        assert(q0.skip(k).subrange(1, q0.skip(k).len() as int) =~= q0.skip(k + 1));
                        k = k + 1;
                        assert(q0.take(k).map_values(|f: Seq<u8>| fill_dst(f, old(self)@.arp))
                            =~= q0.take(k - 1).map_values(|f: Seq<u8>| fill_dst(f, old(self)@.arp)).push(fv));
                    }
                    assert(self@ =~= StackView { tx: q0.skip(k), ..old(self)@ });
                },
                None => {
                    assert(q0.skip(k).len() == 0);
                    assert(q0.take(k) =~= q0);
                    assert(self@ =~= StackView { tx: Seq::empty(), ..old(self)@ });
                    break;
                },
            }
        }
        out
    }
}

/// The answer to a segment that belongs to no connection and no listener
/// is a RST, unless the segment is a RST itself (then nothing is sent). It
/// goes back to the sender's port from the port the segment was for. To a
/// segment carrying ACK it is a bare RST whose sequence number is that
/// acknowledgement number; to one without ACK it is RST+ACK at sequence 0
/// acknowledging the segment's sequence number (plus one for a SYN).
pub proof fn law_rst_answers(s: StackView, local_ip: Ipv4Address, remote_ip: Ipv4Address, hdr: TcpHeader)
    ensures
        has_bits(hdr.flags.bits, 0x04) ==> rst_spec(s, local_ip, remote_ip, hdr) == s,
        !has_bits(hdr.flags.bits, 0x04) ==> ({
            let t = rst_spec(s, local_ip, remote_ip, hdr);
            let acked = has_bits(hdr.flags.bits, 0x10);
            &&& t == (StackView { tx: t.tx, ..s })
            &&& t.tx.len() == s.tx.len() + 1
            &&& t.tx.take(s.tx.len() as int) == s.tx
            &&& carried_header(t.tx.last()) matches Some((h, off)) && off == 20
                && h.src_port == hdr.dst_port && h.dst_port == hdr.src_port
                && has_bits(h.flags.bits, 0x04)
                && (acked ==> h.seq == hdr.ack && h.flags.bits == 0x04)
                && (!acked ==> h.seq.0 == 0 && h.flags.bits == 0x14 && h.ack.0 == seq_add(
                    hdr.seq.0,
                    if has_bits(hdr.flags.bits, 0x02) {
                        1
                    } else {
                        0
                    },
                ))
        }),
{
    if !has_bits(hdr.flags.bits, 0x04) {
        let t = rst_spec(s, local_ip, remote_ip, hdr);
        let acked = has_bits(hdr.flags.bits, 0x10);
        let syn: u32 = if has_bits(hdr.flags.bits, 0x02) { 1 } else { 0 };
        let reply = TcpHeader {
            src_port: hdr.dst_port,
            dst_port: hdr.src_port,
            seq: if acked { hdr.ack } else { SeqNum(0) },
            ack: if acked { SeqNum(0) } else { SeqNum(seq_add(hdr.seq.0, syn)) },
            data_offset: 5,
            flags: TcpFlags { bits: if acked { 0x04 } else { 0x14 } },
            window: 0,
            checksum: 0,
        };
        let seg = tcp_segment(reply, seq![], local_ip, remote_ip);
        let dst_mac = match arp_lookup(s.arp, remote_ip) {
            Some(m) => m,
            None => broadcast_mac_spec(),
        };
        crate::frame::law_frame_fields(dst_mac, s.mac, local_ip, remote_ip, seg);
        crate::frame::law_segment_accepted(reply, seq![], local_ip, remote_ip);
        assert(has_bits(0x04u8, 0x04)) by (bit_vector);
        assert(has_bits(0x14u8, 0x04)) by (bit_vector);
        assert(t.tx.take(s.tx.len() as int) =~= s.tx);
        assert(t =~= StackView { tx: t.tx, ..s });
    }
}

/// Sending appends in every state: for an existing connection, whatever
/// its state, the data goes to the end of its send buffer and nothing else
/// changes; without the connection nothing changes at all.
pub proof fn law_send_appends(s: StackView, tuple: SocketTuple, data: Seq<u8>)
    ensures
        ({
            let t = tcp_send_spec(s, tuple, data);
            match find_conn(s.conns, tuple) {
                Some(i) => {
                    &&& t == (StackView { conns: t.conns, ..s })
                    &&& t.conns.len() == s.conns.len()
                    &&& t.conns[i].send_buffer == s.conns[i].send_buffer + data
                    &&& t.conns[i] == (ConnView { send_buffer: t.conns[i].send_buffer, ..s.conns[i] })
                    &&& forall|j: int| 0 <= j < s.conns.len() && j != i ==> #[trigger] t.conns[j] == s.conns[j]
                },
                None => t == s,
            }
        }),
{
    match find_conn(s.conns, tuple) {
        Some(i) => {
            lemma_found(s.conns, tuple);
            let t = tcp_send_spec(s, tuple, data);
            assert(t =~= StackView { conns: t.conns, ..s });
        },
        None => {},
    }
}

/// Closing an Established or CloseWait connection sends one frame, a FIN
/// that also acknowledges (flags 0x11), at the connection's `snd_nxt` and
/// acknowledging its `rcv_nxt`; the connection moves to FinWait1 or
/// LastAck.
pub proof fn law_close_sends_fin_ack(s: StackView, tuple: SocketTuple, now: u64)
    requires
        find_conn(s.conns, tuple) matches Some(i) && (s.conns[i].state == TcpState::Established
            || s.conns[i].state == TcpState::CloseWait),
    ensures
        ({
            let i = find_conn(s.conns, tuple)->0;
            let c = s.conns[i];
            let t = tcp_close_spec(s, tuple, now);
            &&& t.tx.len() == s.tx.len() + 1
            &&& t.tx.take(s.tx.len() as int) == s.tx
            &&& carried_header(t.tx.last()) matches Some((h, off)) && h.flags.bits == 0x11 && h.seq.0
                == c.snd_nxt && h.ack.0 == c.rcv_nxt
            &&& t.conns[i].state == (if c.state == TcpState::Established {
                TcpState::FinWait1
            } else {
                TcpState::LastAck
            })
        }),
{
    let i = find_conn(s.conns, tuple)->0;
    lemma_found(s.conns, tuple);
    let c = s.conns[i];
    let next = if c.state == TcpState::Established {
        TcpState::FinWait1
    } else {
        TcpState::LastAck
    };
    crate::conn::law_fin_acknowledges(ConnView { state: next, ..c }, s.tx, now);
}

} // verus!
