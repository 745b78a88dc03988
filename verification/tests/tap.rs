use wire_core::tap::{tap_flags, tap_request_name};

#[test]
fn short_name_is_zero_padded() {
    let r = tap_request_name(b"tap0");
    let mut expected = [0u8; 16];
    expected[..4].copy_from_slice(b"tap0");
    assert_eq!(r, expected);
}

#[test]
fn long_name_is_cut_to_fifteen_bytes() {
    let r = tap_request_name(b"abcdefghijklmnopqrstuvwxyz");
    assert_eq!(&r[..15], b"abcdefghijklmno");
    assert_eq!(r[15], 0);
}

#[test]
fn flags_are_tap_without_packet_information() {
    assert_eq!(tap_flags(), 0x1002);
}
