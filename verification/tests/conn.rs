use std::collections::VecDeque;
use wire_core::{Ipv4Address, MacAddress, SeqNum, SocketTuple, TcpConnection, TcpFlags, TcpHeader, TcpState};

const MAC: MacAddress = MacAddress([0x02, 0, 0, 0, 0, 0x01]);

fn tuple() -> SocketTuple {
    SocketTuple {
        local_ip: Ipv4Address([10, 0, 0, 1]),
        local_port: 1000,
        remote_ip: Ipv4Address([10, 0, 0, 2]),
        remote_port: 2000,
    }
}

fn from_peer(seq: u32, ack: u32, flags: TcpFlags) -> TcpHeader {
    TcpHeader {
        src_port: 2000,
        dst_port: 1000,
        seq: SeqNum(seq),
        ack: SeqNum(ack),
        data_offset: 5,
        flags,
        window: 65535,
        checksum: 0,
    }
}

fn established() -> TcpConnection {
    TcpConnection::new(tuple(), TcpState::Established, MAC, SeqNum(100), SeqNum(500))
}

#[test]
fn new_connection_defaults() {
    let c = established();
    assert_eq!(c.snd_una, SeqNum(100));
    assert_eq!(c.snd_nxt, SeqNum(100));
    assert_eq!(c.rcv_nxt, SeqNum(500));
    assert_eq!(c.cwnd, 1460);
    assert_eq!(c.ssthresh, 65535);
    assert_eq!(c.mss, 1460);
    assert_eq!(c.srtt, None);
    assert_eq!(c.rttvar, 100_000_000);
    assert_eq!(c.rto, 200_000_000);
}

#[test]
fn reset_closes_the_connection() {
    let mut c = established();
    let mut tx = VecDeque::new();
    let r = c.process_segment(from_peer(500, 100, TcpFlags::rst()), &[], &mut tx, 1_000);
    assert!(r.is_none());
    assert_eq!(c.state, TcpState::Closed);
    assert!(tx.is_empty());
}

#[test]
fn data_in_order_is_received_and_acknowledged() {
    let mut c = established();
    let mut tx = VecDeque::new();
    c.process_segment(from_peer(500, 100, TcpFlags::ack()), b"abc", &mut tx, 1_000);
    assert_eq!(c.receive_buffer.iter().copied().collect::<Vec<u8>>(), b"abc".to_vec());
    assert_eq!(c.rcv_nxt, SeqNum(503));
    assert_eq!(tx.len(), 1);
}

#[test]
fn ack_of_new_data_drains_and_opens_the_window() {
    let mut c = established();
    let mut tx = VecDeque::new();
    c.send_buffer.extend(b"hello world".iter());
    c.flush_send_buffer(&mut tx, 0);
    assert_eq!(tx.len(), 1);
    assert_eq!(c.snd_nxt, SeqNum(111));
    assert_eq!(c.retransmit_queue.len(), 1);
    let r = c.process_segment(from_peer(500, 111, TcpFlags::ack()), &[], &mut tx, 50_000_000);
    // The first sample sets the estimate directly.
    assert!(r.is_none());
    assert_eq!(c.snd_una, SeqNum(111));
    assert!(c.retransmit_queue.is_empty());
    assert_eq!(c.cwnd, 2920);
    assert_eq!(c.srtt, Some(50_000_000));
    assert_eq!(c.rttvar, 25_000_000);
    assert_eq!(c.rto, 150_000_000);
}

#[test]
fn later_samples_are_handed_back_for_smoothing() {
    let mut c = established();
    let mut tx = VecDeque::new();
    c.send_buffer.extend(b"one".iter());
    c.flush_send_buffer(&mut tx, 0);
    c.process_segment(from_peer(500, 103, TcpFlags::ack()), &[], &mut tx, 40_000_000);
    c.send_buffer.extend(b"two".iter());
    c.flush_send_buffer(&mut tx, 100_000_000);
    let r = c.process_segment(from_peer(500, 106, TcpFlags::ack()), &[], &mut tx, 120_000_000);
    let s = r.expect("a sample to smooth");
    assert_eq!(s.srtt, 40_000_000);
    assert_eq!(s.rttvar, 20_000_000);
    assert_eq!(s.rtt, 20_000_000);
    c.set_rtt_estimate(37_500_000, 20_000_000);
    assert_eq!(c.rto, 117_500_000);
}

#[test]
fn third_duplicate_ack_retransmits_the_oldest_segment() {
    let mut c = established();
    let mut tx = VecDeque::new();
    c.send_buffer.extend(b"hello world".iter());
    c.flush_send_buffer(&mut tx, 0);
    let first = tx.pop_front().unwrap();
    for _ in 0..2 {
        c.process_segment(from_peer(500, 100, TcpFlags::ack()), &[], &mut tx, 10);
        assert!(tx.is_empty());
    }
    c.process_segment(from_peer(500, 100, TcpFlags::ack()), &[], &mut tx, 10);
    assert_eq!(c.dup_ack_count, 3);
    assert_eq!(c.ssthresh, 2920);
    assert_eq!(c.cwnd, 2920 + 3 * 1460);
    assert_eq!(tx.len(), 1);
    assert_eq!(tx[0], first);
}

#[test]
fn syn_while_connecting_answers_with_syn_ack() {
    let mut c = TcpConnection::new(tuple(), TcpState::SynSent, MAC, SeqNum(100), SeqNum(0));
    let mut tx = VecDeque::new();
    c.process_segment(from_peer(900, 0, TcpFlags::syn()), &[], &mut tx, 5);
    assert_eq!(c.state, TcpState::SynReceived);
    assert_eq!(c.irs, SeqNum(900));
    assert_eq!(c.rcv_nxt, SeqNum(901));
    assert_eq!(tx.len(), 1);
    assert_eq!(tx[0][47], 0x12);
}

#[test]
fn syn_ack_with_wrong_ack_is_ignored() {
    let mut c = TcpConnection::new(tuple(), TcpState::SynSent, MAC, SeqNum(100), SeqNum(0));
    c.snd_nxt = SeqNum(101);
    let mut tx = VecDeque::new();
    c.process_segment(from_peer(900, 555, TcpFlags::syn().union(TcpFlags::ack())), &[], &mut tx, 5);
    assert_eq!(c.state, TcpState::SynSent);
    assert!(tx.is_empty());
}

#[test]
fn data_with_fin_counts_one_more() {
    let mut c = established();
    let mut tx = VecDeque::new();
    c.process_segment(from_peer(500, 100, TcpFlags::ack().union(TcpFlags::fin())), b"abc", &mut tx, 1_000);
    assert_eq!(c.receive_buffer.len(), 3);
    assert_eq!(c.rcv_nxt, SeqNum(504));
    assert_eq!(c.state, TcpState::CloseWait);
}

#[test]
fn filling_a_gap_advances_by_everything_delivered() {
    let mut c = established();
    let mut tx = VecDeque::new();
    c.process_segment(from_peer(503, 100, TcpFlags::ack()), b"defg", &mut tx, 1_000);
    assert_eq!(c.rcv_nxt, SeqNum(500));
    assert!(c.receive_buffer.is_empty());
    c.process_segment(from_peer(500, 100, TcpFlags::ack()), b"abc", &mut tx, 2_000);
    assert_eq!(c.receive_buffer.iter().copied().collect::<Vec<u8>>(), b"abcdefg".to_vec());
    assert_eq!(c.rcv_nxt, SeqNum(507));
    assert!(c.out_of_order.is_empty());
}

#[test]
fn rcv_nxt_wraps_around() {
    let mut c = TcpConnection::new(tuple(), TcpState::Established, MAC, SeqNum(100), SeqNum(u32::MAX - 1));
    let mut tx = VecDeque::new();
    c.process_segment(from_peer(u32::MAX - 1, 100, TcpFlags::ack()), b"wxyz", &mut tx, 1_000);
    assert_eq!(c.rcv_nxt, SeqNum(2));
}

#[test]
fn segment_entering_time_wait_expires_two_seconds_later() {
    let mut c = TcpConnection::new(tuple(), TcpState::FinWait2, MAC, SeqNum(100), SeqNum(500));
    let mut tx = VecDeque::new();
    c.process_segment(from_peer(500, 100, TcpFlags::ack().union(TcpFlags::fin())), &[], &mut tx, 7_000);
    assert_eq!(c.state, TcpState::TimeWait);
    assert_eq!(c.time_wait_expiry, Some(2_000_007_000));
}
