use wire_core::{checksum, tcp_checksum, Ipv4Address, MacAddress, SeqNum, Stack, TcpState};

const MAC_A: MacAddress = MacAddress([0x02, 0, 0, 0, 0, 0x01]);
const MAC_B: MacAddress = MacAddress([0x02, 0, 0, 0, 0, 0x02]);
const IP_A: Ipv4Address = Ipv4Address([10, 0, 0, 1]);
const IP_B: Ipv4Address = Ipv4Address([10, 0, 0, 2]);

/// Moves every queued frame of `from` to `to`, filling in the destination
/// hardware address from `from`'s cache. Returns how many frames moved.
fn pump(from: &mut Stack, to: &mut Stack, now: u64) -> usize {
    let mut n = 0;
    while let Some(mut frame) = from.tx_queue.pop_front() {
        if frame.len() >= 34 {
            let dst_ip = Ipv4Address(frame[30..34].try_into().unwrap());
            if let Some(mac) = from.arp_cache.get(&dst_ip) {
                frame[0..6].copy_from_slice(&mac.0);
            }
        }
        assert!(!to.is_malformed_ipv4(&frame));
        if let Some((tuple, sample)) = to.on_packet(&frame, now) {
            let diff = if sample.rtt > sample.srtt { sample.rtt - sample.srtt } else { sample.srtt - sample.rtt };
            let rttvar = (sample.rttvar * 3 + diff) / 4;
            let srtt = (sample.srtt * 7 + sample.rtt) / 8;
            to.set_rtt_estimate(tuple, srtt, rttvar);
        }
        n += 1;
    }
    n
}

fn handshake() -> (Stack, Stack, wire_core::SocketTuple) {
    let mut a = Stack::new(MAC_A, IP_A);
    let mut b = Stack::new(MAC_B, IP_B);
    b.listen(8080);
    let t = a.tcp_connect(IP_B, 8080, 40000, 0);
    assert_eq!(pump(&mut a, &mut b, 1_000), 1);
    assert_eq!(pump(&mut b, &mut a, 2_000), 1);
    assert_eq!(pump(&mut a, &mut b, 3_000), 1);
    (a, b, t)
}

#[test]
fn new_stack_is_empty() {
    let s = Stack::new(MAC_A, IP_A);
    assert!(s.active_connections().is_empty());
    assert!(s.tx_queue.is_empty());
    assert!(s.arp_cache.get(&IP_B).is_none());
}

#[test]
fn tcp_connect_sends_a_syn() {
    let mut a = Stack::new(MAC_A, IP_A);
    let t = a.tcp_connect(IP_B, 8080, 40000, 0);
    assert_eq!(t.local_ip, IP_A);
    assert_eq!(t.local_port, 40000);
    assert_eq!(t.remote_ip, IP_B);
    assert_eq!(t.remote_port, 8080);
    assert_eq!(a.connection_state(t), Some(TcpState::SynSent));
    assert_eq!(a.tx_queue.len(), 1);
    let f = &a.tx_queue[0];
    assert_eq!(f.len(), 54);
    // No cached address: broadcast.
    assert_eq!(&f[0..6], &[0xff; 6]);
    assert_eq!(&f[6..12], &MAC_A.0);
    assert_eq!(&f[12..14], &[0x08, 0x00]);
    assert_eq!(checksum(&f[14..34]), 0);
    assert_eq!(tcp_checksum(IP_A, IP_B, &f[34..]), 0);
    // Initial sequence number: the counter 21245643 advanced by 1043.
    assert_eq!(u32::from_be_bytes(f[38..42].try_into().unwrap()), 21246686);
    assert_eq!(f[47], 0x02);
    let conn = &a.connections[0];
    assert_eq!(conn.iss, SeqNum(21246686));
    assert_eq!(conn.snd_nxt, SeqNum(21246687));
    assert_eq!(conn.retransmit_queue.len(), 1);
}

#[test]
fn handshake_establishes_both_sides() {
    let (a, b, t) = handshake();
    assert_eq!(a.connection_state(t), Some(TcpState::Established));
    let bt = b.active_connections();
    assert_eq!(bt.len(), 1);
    assert_eq!(bt[0].local_port, 8080);
    assert_eq!(bt[0].remote_port, 40000);
    assert_eq!(bt[0].remote_ip, IP_A);
    assert_eq!(b.connection_state(bt[0]), Some(TcpState::Established));
    // Each side learnt the other's hardware address.
    assert_eq!(a.arp_cache.get(&IP_B), Some(MAC_B));
    assert_eq!(b.arp_cache.get(&IP_A), Some(MAC_A));
    assert!(a.connections[0].retransmit_queue.is_empty());
    assert!(b.connections[0].retransmit_queue.is_empty());
}

#[test]
fn data_crosses_intact_and_recv_drains() {
    let (mut a, mut b, t) = handshake();
    let data: Vec<u8> = (0..5000u32).map(|i| (i % 251) as u8).collect();
    a.tcp_send(t, &data);
    let bt = b.active_connections()[0];
    let mut got = Vec::new();
    let mut now = 10_000_000u64;
    for _ in 0..20 {
        a.on_tick(now);
        pump(&mut a, &mut b, now);
        got.extend(b.tcp_recv(bt));
        b.on_tick(now);
        pump(&mut b, &mut a, now);
        now += 1_000_000;
    }
    assert_eq!(got, data);
    assert!(b.tcp_recv(bt).is_empty());
    assert!(a.connections[0].send_buffer.is_empty());
    assert!(a.connections[0].retransmit_queue.is_empty());
    // The first acknowledged segment measured the round trip.
    assert!(a.connections[0].srtt.is_some());
}

#[test]
fn first_flush_is_limited_to_the_congestion_window() {
    let (mut a, _b, t) = handshake();
    a.tcp_send(t, &[7u8; 4000]);
    a.on_tick(5_000_000);
    // cwnd starts at one 1460-byte segment.
    assert_eq!(a.tx_queue.len(), 1);
    assert_eq!(a.tx_queue[0].len(), 54 + 1460);
    assert_eq!(a.connections[0].send_buffer.len(), 4000 - 1460);
    assert_eq!(a.connections[0].snd_nxt.wrapping_sub(a.connections[0].snd_una), 1460);
}

#[test]
fn orderly_close_reaches_time_wait_and_closed() {
    let (mut a, mut b, t) = handshake();
    let bt = b.active_connections()[0];
    a.tcp_close(t, 10);
    assert_eq!(a.connection_state(t), Some(TcpState::FinWait1));
    pump(&mut a, &mut b, 20);
    assert_eq!(b.connection_state(bt), Some(TcpState::CloseWait));
    pump(&mut b, &mut a, 30);
    assert_eq!(a.connection_state(t), Some(TcpState::FinWait2));
    b.tcp_close(bt, 40);
    assert_eq!(b.connection_state(bt), Some(TcpState::LastAck));
    pump(&mut b, &mut a, 50);
    assert_eq!(a.connection_state(t), Some(TcpState::TimeWait));
    pump(&mut a, &mut b, 60);
    assert_eq!(b.connection_state(bt), Some(TcpState::Closed));
    b.on_tick(70);
    assert!(b.active_connections().is_empty());
    // TimeWait lasts two seconds.
    a.on_tick(50 + 1_999_999_999);
    assert_eq!(a.connection_state(t), Some(TcpState::TimeWait));
    a.on_tick(50 + 2_000_000_000);
    assert!(a.active_connections().is_empty());
}

#[test]
fn closing_a_connection_in_another_state_does_nothing() {
    let mut a = Stack::new(MAC_A, IP_A);
    let t = a.tcp_connect(IP_B, 8080, 40000, 0);
    a.tx_queue.clear();
    a.tcp_close(t, 5);
    assert_eq!(a.connection_state(t), Some(TcpState::SynSent));
    assert!(a.tx_queue.is_empty());
}

#[test]
fn syn_to_closed_port_is_reset() {
    let mut a = Stack::new(MAC_A, IP_A);
    let mut b = Stack::new(MAC_B, IP_B);
    let t = a.tcp_connect(IP_B, 9999, 40000, 0);
    pump(&mut a, &mut b, 1);
    assert!(b.active_connections().is_empty());
    assert_eq!(b.tx_queue.len(), 1);
    let rst = b.tx_queue[0].clone();
    // RST+ACK acknowledging the SYN.
    assert_eq!(rst[47], 0x14);
    assert_eq!(u32::from_be_bytes(rst[38..42].try_into().unwrap()), 0);
    assert_eq!(u32::from_be_bytes(rst[42..46].try_into().unwrap()), 21246687);
    assert_eq!(tcp_checksum(IP_B, IP_A, &rst[34..]), 0);
    pump(&mut b, &mut a, 2);
    assert_eq!(a.connection_state(t), Some(TcpState::Closed));
    a.on_tick(3);
    assert!(a.active_connections().is_empty());
}

#[test]
fn arp_request_for_us_is_answered_and_learnt() {
    let mut b = Stack::new(MAC_B, IP_B);
    let mut a = Stack::new(MAC_A, IP_A);
    a.send_arp_request(IP_B);
    let req = a.tx_queue.pop_front().unwrap();
    assert_eq!(req.len(), 42);
    assert_eq!(&req[0..6], &[0xff; 6]);
    assert_eq!(&req[20..22], &[0, 1]);
    assert_eq!(&req[38..42], &IP_B.0);
    b.on_packet(&req, 0);
    assert_eq!(b.arp_cache.get(&IP_A), Some(MAC_A));
    let reply = b.tx_queue.pop_front().unwrap();
    assert_eq!(&reply[0..6], &MAC_A.0);
    assert_eq!(&reply[20..22], &[0, 2]);
    assert_eq!(&reply[22..28], &MAC_B.0);
    assert_eq!(&reply[28..32], &IP_B.0);
    assert_eq!(&reply[38..42], &IP_A.0);
}

#[test]
fn frames_for_others_are_dropped() {
    let mut b = Stack::new(MAC_B, IP_B);
    let mut a = Stack::new(MAC_A, IP_A);
    a.send_arp_request(Ipv4Address([10, 0, 0, 9]));
    let req = a.tx_queue.pop_front().unwrap();
    b.on_packet(&req, 0);
    assert!(b.tx_queue.is_empty());
    assert!(b.arp_cache.get(&IP_A).is_none());
    b.on_packet(&[0u8; 13], 0);
    assert!(b.tx_queue.is_empty());
}

#[test]
fn bad_ip_checksum_is_dropped() {
    let mut a = Stack::new(MAC_A, IP_A);
    let mut b = Stack::new(MAC_B, IP_B);
    b.listen(8080);
    a.tcp_connect(IP_B, 8080, 40000, 0);
    let mut f = a.tx_queue.pop_front().unwrap();
    f[24] ^= 1;
    b.on_packet(&f, 0);
    assert!(b.active_connections().is_empty());
    assert!(b.arp_cache.get(&IP_A).is_none());
}

#[test]
fn malformed_ipv4_is_recognised() {
    let b = Stack::new(MAC_B, IP_B);
    let mut f = vec![0u8; 40];
    f[0..6].copy_from_slice(&MAC_B.0);
    f[12] = 0x08;
    f[13] = 0x00;
    f[14] = 0x4f;
    f[30..34].copy_from_slice(&IP_B.0);
    assert!(b.is_malformed_ipv4(&f));
    f[14] = 0x45;
    assert!(!b.is_malformed_ipv4(&f));
}

#[test]
fn resolve_fills_known_addresses_and_asks_for_others() {
    let mut a = Stack::new(MAC_A, IP_A);
    let t = a.tcp_connect(IP_B, 8080, 40000, 0);
    let _ = t;
    let mut f = a.tx_queue.pop_front().unwrap();
    a.resolve_and_populate_dst_mac(&mut f);
    assert_eq!(&f[0..6], &[0xff; 6]);
    assert_eq!(a.tx_queue.len(), 1);
    let req = a.tx_queue.pop_front().unwrap();
    assert_eq!(&req[38..42], &IP_B.0);
    a.arp_cache.insert(IP_B, MAC_B);
    a.resolve_and_populate_dst_mac(&mut f);
    assert_eq!(&f[0..6], &MAC_B.0);
    assert!(a.tx_queue.is_empty());
}

#[test]
fn lost_segment_is_retransmitted_after_rto() {
    let (mut a, _b, t) = handshake();
    a.tcp_send(t, b"ping");
    a.on_tick(1_000_000);
    assert_eq!(a.tx_queue.len(), 1);
    let first = a.tx_queue.pop_front().unwrap();
    // RTO starts at 200 ms.
    a.on_tick(1_000_000 + 199_999_999);
    assert!(a.tx_queue.is_empty());
    a.on_tick(1_000_000 + 200_000_000);
    assert_eq!(a.tx_queue.len(), 1);
    let again = a.tx_queue.pop_front().unwrap();
    assert_eq!(first, again);
    let c = &a.connections[0];
    assert_eq!(c.rto, 400_000_000);
    assert_eq!(c.cwnd, 1460);
    assert_eq!(c.ssthresh, 2920);
    assert_eq!(c.retransmit_queue[0].retransmit_count, 1);
}

#[test]
fn out_of_order_data_is_held_until_the_gap_fills() {
    let (mut a, mut b, t) = handshake();
    let bt = b.active_connections()[0];
    a.connections[0].cwnd = 10_000;
    a.tcp_send(t, &[1u8; 3000]);
    a.on_tick(1_000);
    assert_eq!(a.tx_queue.len(), 3);
    let f1 = a.tx_queue.pop_front().unwrap();
    let f2 = a.tx_queue.pop_front().unwrap();
    let f3 = a.tx_queue.pop_front().unwrap();
    let fill = |mut f: Vec<u8>| {
        f[0..6].copy_from_slice(&MAC_B.0);
        f
    };
    b.on_packet(&fill(f2), 2_000);
    b.on_packet(&fill(f3), 2_000);
    assert!(b.tcp_recv(bt).is_empty());
    assert_eq!(b.connections[0].out_of_order.len(), 2);
    b.on_packet(&fill(f1), 3_000);
    assert_eq!(b.tcp_recv(bt).len(), 3000);
    assert!(b.connections[0].out_of_order.is_empty());
}

#[test]
fn tick_removes_only_the_expired_connection() {
    let (mut a, mut b, t) = handshake();
    let bt = b.active_connections()[0];
    a.tcp_close(t, 10);
    pump(&mut a, &mut b, 20);
    pump(&mut b, &mut a, 30);
    b.tcp_close(bt, 40);
    pump(&mut b, &mut a, 50);
    assert_eq!(a.connection_state(t), Some(TcpState::TimeWait));
    let other = a.tcp_connect(IP_B, 9090, 40001, 50);
    a.on_tick(50 + 2_000_000_000);
    assert_eq!(a.connection_state(t), None);
    assert!(a.connection_state(other).is_some());
    assert_eq!(a.active_connections(), vec![other]);
}
