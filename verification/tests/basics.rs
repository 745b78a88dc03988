use wire_core::{checksum, tcp_checksum, Ipv4Address, SeqNum, TcpFlags, TcpHeader};

#[test]
fn seq_wrapping_add_wraps() {
    assert_eq!(SeqNum(10).wrapping_add(5), SeqNum(15));
    assert_eq!(SeqNum(u32::MAX).wrapping_add(1), SeqNum(0));
    assert_eq!(SeqNum(u32::MAX - 2).wrapping_add(5), SeqNum(2));
}

#[test]
fn seq_wrapping_sub_measures_forward_distance() {
    assert_eq!(SeqNum(15).wrapping_sub(SeqNum(10)), 5);
    assert_eq!(SeqNum(2).wrapping_sub(SeqNum(u32::MAX - 2)), 5);
    assert_eq!(SeqNum(10).wrapping_sub(SeqNum(15)), u32::MAX - 4);
}

#[test]
fn seq_add_then_sub_is_identity() {
    for &(a, n) in &[(0u32, 0u32), (1, 2), (u32::MAX, 7), (0x8000_0000, 0x8000_0000)] {
        assert_eq!(SeqNum(a).wrapping_add(n).wrapping_sub(SeqNum(a)), n);
    }
}

#[test]
fn seq_lt_follows_the_circle() {
    assert!(SeqNum(1).lt(SeqNum(2)));
    assert!(!SeqNum(2).lt(SeqNum(1)));
    assert!(!SeqNum(5).lt(SeqNum(5)));
    assert!(SeqNum(u32::MAX).lt(SeqNum(3)));
    assert!(!SeqNum(3).lt(SeqNum(u32::MAX)));
    assert!(SeqNum(0).lt(SeqNum(0x7fff_ffff)));
    assert!(SeqNum(0).lt(SeqNum(0x8000_0000)));
    // Exactly half the circle apart, each comes before the other.
    assert!(SeqNum(0x8000_0000).lt(SeqNum(0)));
    assert!(!SeqNum(0).lt(SeqNum(0x8000_0001)));
}

#[test]
fn seq_lte_includes_equality() {
    assert!(SeqNum(7).lte(SeqNum(7)));
    assert!(SeqNum(7).lte(SeqNum(8)));
    assert!(!SeqNum(8).lte(SeqNum(7)));
}

#[test]
fn flags_contain_insert_union() {
    let f = TcpFlags::syn().union(TcpFlags::ack());
    assert_eq!(f.bits(), 0x12);
    assert!(f.contains(TcpFlags::syn()));
    assert!(f.contains(TcpFlags::ack()));
    assert!(!f.contains(TcpFlags::fin()));
    let mut g = TcpFlags::rst();
    g.insert(TcpFlags::ack());
    assert_eq!(g.bits(), 0x14);
    assert_eq!(TcpFlags::from_bits_retain(0xC1).bits(), 0xC1);
    assert_eq!(TcpFlags::psh().bits(), 0x08);
    assert_eq!(TcpFlags::urg().bits(), 0x20);
}

#[test]
fn checksum_known_values() {
    // The worked example of RFC 1071.
    assert_eq!(checksum(&[0x00, 0x01, 0xf2, 0x03, 0xf4, 0xf5, 0xf6, 0xf7]), 0x220d);
    assert_eq!(checksum(&[]), 0xffff);
    // An odd last byte is the high byte of a word.
    assert_eq!(checksum(&[0x01]), 0xfeff);
    assert_eq!(checksum(&[0xff, 0xff]), 0x0000);
}

#[test]
fn checksum_of_a_real_ipv4_header() {
    let mut hdr = [
        0x45, 0x00, 0x00, 0x73, 0x00, 0x00, 0x40, 0x00, 0x40, 0x11, 0x00, 0x00, 0xc0, 0xa8, 0x00,
        0x01, 0xc0, 0xa8, 0x00, 0xc7,
    ];
    let c = checksum(&hdr);
    assert_eq!(c, 0xb861);
    hdr[10..12].copy_from_slice(&c.to_be_bytes());
    assert_eq!(checksum(&hdr), 0);
}

#[test]
fn checksum_fill_law_on_a_sample() {
    let mut data: Vec<u8> = (0u8..40).map(|i| i.wrapping_mul(37)).collect();
    data[6] = 0;
    data[7] = 0;
    let c = checksum(&data);
    data[6..8].copy_from_slice(&c.to_be_bytes());
    assert_eq!(checksum(&data), 0);
}

#[test]
fn tcp_checksum_covers_the_pseudo_header() {
    let src = Ipv4Address([10, 0, 0, 1]);
    let dst = Ipv4Address([10, 0, 0, 2]);
    let seg = [0x12u8, 0x34, 0x56, 0x78];
    let mut pseudo = vec![10, 0, 0, 1, 10, 0, 0, 2, 0, 6, 0, 4];
    pseudo.extend_from_slice(&seg);
    assert_eq!(tcp_checksum(src, dst, &seg), checksum(&pseudo));
    assert_ne!(tcp_checksum(src, dst, &seg), tcp_checksum(dst, Ipv4Address([10, 0, 0, 3]), &seg));
}

fn sample_header() -> TcpHeader {
    TcpHeader {
        src_port: 40000,
        dst_port: 8080,
        seq: SeqNum(0x01020304),
        ack: SeqNum(0xa0b0c0d0),
        data_offset: 7,
        flags: TcpFlags::ack().union(TcpFlags::psh()),
        window: 0x1234,
        checksum: 0xbeef,
    }
}

#[test]
fn serialize_writes_twenty_bytes() {
    let bytes = sample_header().serialize();
    assert_eq!(
        bytes,
        vec![
            0x9c, 0x40, 0x1f, 0x90, 0x01, 0x02, 0x03, 0x04, 0xa0, 0xb0, 0xc0, 0xd0, 0x50, 0x18,
            0x12, 0x34, 0x00, 0x00, 0x00, 0x00
        ]
    );
}

#[test]
fn parse_of_serialize_gives_the_header_back() {
    let h = sample_header();
    let mut bytes = h.serialize();
    bytes.extend_from_slice(b"hello");
    let (p, payload) = TcpHeader::parse(&bytes).unwrap();
    assert_eq!(p.src_port, 40000);
    assert_eq!(p.dst_port, 8080);
    assert_eq!(p.seq, h.seq);
    assert_eq!(p.ack, h.ack);
    assert_eq!(p.data_offset, 20);
    assert_eq!(p.flags.bits(), 0x18);
    assert_eq!(p.window, 0x1234);
    assert_eq!(p.checksum, 0);
    assert_eq!(payload, b"hello");
}

#[test]
fn parse_rejects_short_buffers() {
    assert!(TcpHeader::parse(&[0u8; 19]).is_none());
    let mut bytes = sample_header().serialize();
    // A header length of 15 words does not fit in 20 bytes.
    bytes[12] = 0xf0;
    assert!(TcpHeader::parse(&bytes).is_none());
}

#[test]
fn parse_honours_the_announced_header_length() {
    let mut bytes = sample_header().serialize();
    bytes[12] = 0x60;
    bytes.extend_from_slice(&[1, 2, 3, 4, 9, 9]);
    let (p, payload) = TcpHeader::parse(&bytes).unwrap();
    assert_eq!(p.data_offset, 24);
    assert_eq!(payload, &[9, 9]);
}
