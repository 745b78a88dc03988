use wire_core::{checksum, probe_is_malformed, probe_respond, Ipv4Address, MacAddress, ProbeOutcome};

const OUR_MAC: MacAddress = MacAddress([0x02, 0x00, 0x00, 0x00, 0x00, 0x01]);
const OUR_IP: Ipv4Address = Ipv4Address([192, 168, 99, 2]);
const PEER_MAC: [u8; 6] = [0x0a, 0x0b, 0x0c, 0x0d, 0x0e, 0x0f];
const PEER_IP: [u8; 4] = [192, 168, 99, 1];

fn arp_request(target: [u8; 4]) -> Vec<u8> {
    let mut f = vec![0xffu8; 6];
    f.extend_from_slice(&PEER_MAC);
    f.extend_from_slice(&[0x08, 0x06, 0x00, 0x01, 0x08, 0x00, 6, 4, 0x00, 0x01]);
    f.extend_from_slice(&PEER_MAC);
    f.extend_from_slice(&PEER_IP);
    f.extend_from_slice(&[0u8; 6]);
    f.extend_from_slice(&target);
    f
}

/// An Ethernet frame holding an ICMP echo request with `payload`, from the
/// peer to us.
fn echo_request(seq: u16, payload: &[u8]) -> Vec<u8> {
    let icmp_len = 8 + payload.len();
    let mut f = OUR_MAC.0.to_vec();
    f.extend_from_slice(&PEER_MAC);
    f.extend_from_slice(&[0x08, 0x00]);
    let total = (20 + icmp_len) as u16;
    let mut ip = vec![0x45, 0x00];
    ip.extend_from_slice(&total.to_be_bytes());
    ip.extend_from_slice(&[0x12, 0x34, 0x40, 0x00, 64, 1, 0, 0]);
    ip.extend_from_slice(&PEER_IP);
    ip.extend_from_slice(&OUR_IP.0);
    let c = checksum(&ip);
    ip[10..12].copy_from_slice(&c.to_be_bytes());
    f.extend_from_slice(&ip);
    let mut icmp = vec![8, 0, 0, 0, 0x00, 0x07];
    icmp.extend_from_slice(&seq.to_be_bytes());
    icmp.extend_from_slice(payload);
    let c = checksum(&icmp);
    icmp[2..4].copy_from_slice(&c.to_be_bytes());
    f.extend_from_slice(&icmp);
    f
}

#[test]
fn arp_request_for_us_is_answered() {
    let req = arp_request(OUR_IP.0);
    assert!(!probe_is_malformed(&req, OUR_IP));
    match probe_respond(&req, OUR_MAC, OUR_IP) {
        ProbeOutcome::ArpReply { reply, sender_mac, target_ip } => {
            let mut expected = PEER_MAC.to_vec();
            expected.extend_from_slice(&OUR_MAC.0);
            expected.extend_from_slice(&[0x08, 0x06, 0x00, 0x01, 0x08, 0x00, 6, 4, 0x00, 0x02]);
            expected.extend_from_slice(&OUR_MAC.0);
            expected.extend_from_slice(&OUR_IP.0);
            expected.extend_from_slice(&PEER_MAC);
            expected.extend_from_slice(&PEER_IP);
            assert_eq!(reply, expected);
            assert_eq!(sender_mac.0, PEER_MAC);
            assert_eq!(target_ip.0, OUR_IP.0);
        }
        _ => panic!("expected an ARP reply"),
    }
}

#[test]
fn arp_request_for_another_address_is_ignored() {
    let req = arp_request([192, 168, 99, 77]);
    assert!(matches!(probe_respond(&req, OUR_MAC, OUR_IP), ProbeOutcome::Ignored));
}

#[test]
fn arp_reply_is_not_answered() {
    let mut req = arp_request(OUR_IP.0);
    req[21] = 2;
    assert!(matches!(probe_respond(&req, OUR_MAC, OUR_IP), ProbeOutcome::Ignored));
}

#[test]
fn echo_request_is_answered() {
    let payload = b"abcdefghijklmnopq";
    let req = echo_request(9, payload);
    assert!(!probe_is_malformed(&req, OUR_IP));
    match probe_respond(&req, OUR_MAC, OUR_IP) {
        ProbeOutcome::EchoReply { reply, seq, len } => {
            assert_eq!(seq, 9);
            assert_eq!(len, 8 + payload.len());
            assert_eq!(reply.len(), 14 + 20 + len);
            assert_eq!(&reply[0..6], &PEER_MAC);
            assert_eq!(&reply[6..12], &OUR_MAC.0);
            assert_eq!(&reply[12..14], &[0x08, 0x00]);
            assert_eq!(reply[14], 0x45);
            assert_eq!(u16::from_be_bytes([reply[16], reply[17]]) as usize, 20 + len);
            assert_eq!(&reply[20..22], &[0x40, 0x00]);
            assert_eq!(reply[22], 64);
            assert_eq!(reply[23], 1);
            assert_eq!(&reply[26..30], &OUR_IP.0);
            assert_eq!(&reply[30..34], &PEER_IP);
            assert_eq!(checksum(&reply[14..34]), 0);
            assert_eq!(reply[34], 0);
            assert_eq!(reply[35], 0);
            assert_eq!(checksum(&reply[34..]), 0);
            assert_eq!(&reply[38..], &req[38..]);
        }
        _ => panic!("expected an echo reply"),
    }
}

#[test]
fn bad_ip_checksum_is_reported() {
    let mut req = echo_request(1, b"xy");
    req[24] ^= 0xff;
    assert!(matches!(probe_respond(&req, OUR_MAC, OUR_IP), ProbeOutcome::BadChecksum));
}

#[test]
fn echo_request_to_another_address_is_ignored() {
    let mut req = echo_request(1, b"xy");
    req[33] = 99;
    assert!(matches!(probe_respond(&req, OUR_MAC, OUR_IP), ProbeOutcome::Ignored));
}

#[test]
fn short_frame_is_ignored() {
    assert!(matches!(probe_respond(&[1, 2, 3], OUR_MAC, OUR_IP), ProbeOutcome::Ignored));
}

#[test]
fn header_running_past_frame_is_malformed() {
    let mut req = echo_request(1, b"");
    req[14] = 0x4f;
    req.truncate(40);
    assert!(probe_is_malformed(&req, OUR_IP));
}
