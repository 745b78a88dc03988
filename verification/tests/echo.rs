use wire_core::{tick_due, HttpClient, Ipv4Address, MacAddress, Stack, TcpState};

const MAC_C: MacAddress = MacAddress([0x02, 0, 0, 0, 0, 0x0c]);
const MAC_S: MacAddress = MacAddress([0x02, 0, 0, 0, 0, 0x05]);
const IP_C: Ipv4Address = Ipv4Address([192, 168, 99, 2]);
const IP_S: Ipv4Address = Ipv4Address([192, 168, 99, 1]);

/// Moves every queued frame of `from` to `to`.
fn pump(from: &mut Stack, to: &mut Stack, now: u64) -> usize {
    let mut n = 0;
    for frame in from.take_outgoing() {
        assert!(!to.is_malformed_ipv4(&frame));
        if let Some((tuple, s)) = to.on_packet(&frame, now) {
            let diff = if s.rtt > s.srtt { s.rtt - s.srtt } else { s.srtt - s.rtt };
            to.set_rtt_estimate(tuple, (s.srtt * 7 + s.rtt) / 8, (s.rttvar * 3 + diff) / 4);
        }
        n += 1;
    }
    n
}

fn pair() -> (Stack, Stack) {
    let mut c = Stack::new(MAC_C, IP_C);
    let mut s = Stack::new(MAC_S, IP_S);
    c.cache_address(IP_S, MAC_S);
    s.cache_address(IP_C, MAC_C);
    (c, s)
}

#[test]
fn tick_is_due_after_ten_milliseconds() {
    assert!(!tick_due(0, 9_999_999));
    assert!(tick_due(0, 10_000_000));
    assert!(tick_due(5, 20_000_000));
    assert!(!tick_due(20_000_000, 5));
}

#[test]
fn echo_service_sends_back_what_it_received() {
    let (mut c, mut s) = pair();
    s.listen(8080);
    let t = c.tcp_connect(IP_S, 8080, 50000, 0);
    pump(&mut c, &mut s, 1);
    pump(&mut s, &mut c, 2);
    pump(&mut c, &mut s, 3);
    assert_eq!(c.connection_state(t), Some(TcpState::Established));
    c.tcp_send(t, b"ping pong");
    c.on_tick(4);
    pump(&mut c, &mut s, 5);
    s.echo_all(6);
    s.on_tick(6);
    pump(&mut s, &mut c, 7);
    assert_eq!(c.tcp_recv(t), b"ping pong".to_vec());
}

#[test]
fn echo_service_closes_after_peer_closes() {
    let (mut c, mut s) = pair();
    s.listen(8080);
    let t = c.tcp_connect(IP_S, 8080, 50000, 0);
    pump(&mut c, &mut s, 1);
    pump(&mut s, &mut c, 2);
    pump(&mut c, &mut s, 3);
    c.tcp_close(t, 4);
    pump(&mut c, &mut s, 5);
    let st = s.active_connections()[0];
    assert_eq!(s.connection_state(st), Some(TcpState::CloseWait));
    s.echo_all(6);
    assert_eq!(s.connection_state(st), Some(TcpState::LastAck));
    pump(&mut s, &mut c, 7);
    assert_eq!(c.connection_state(t), Some(TcpState::TimeWait));
}

#[test]
fn http_client_sends_request_and_collects_response() {
    let (mut c, mut s) = pair();
    s.listen(8000);
    let request = b"GET /index.html HTTP/1.1\r\nHost: 192.168.99.1\r\nConnection: close\r\n\r\n";
    let mut client = HttpClient::connect(&mut c, IP_S, 8000, 49152, 0);
    assert!(!client.request_sent);
    assert!(!client.step(&mut c, request, 1));
    assert!(!client.request_sent);
    pump(&mut c, &mut s, 2);
    pump(&mut s, &mut c, 3);
    assert!(!client.step(&mut c, request, 4));
    assert!(client.request_sent);
    c.on_tick(5);
    pump(&mut c, &mut s, 6);
    let st = s.active_connections()[0];
    assert_eq!(s.tcp_recv(st), request.to_vec());
    s.tcp_send(st, b"HTTP/1.1 200 OK\r\n\r\nhello");
    s.on_tick(7);
    s.tcp_close(st, 7);
    pump(&mut s, &mut c, 8);
    assert!(!client.step(&mut c, request, 9));
    assert_eq!(client.response, b"HTTP/1.1 200 OK\r\n\r\nhello".to_vec());
    assert_eq!(c.connection_state(client.tuple), Some(TcpState::LastAck));
    pump(&mut c, &mut s, 10);
    pump(&mut s, &mut c, 11);
    assert_eq!(c.connection_state(client.tuple), Some(TcpState::Closed));
    assert!(!client.step(&mut c, request, 12));
    c.on_tick(13);
    assert_eq!(c.connection_state(client.tuple), None);
    assert!(client.step(&mut c, request, 14));
}

#[test]
fn http_client_without_connection_before_request_is_not_done() {
    let (mut c, _s) = pair();
    let mut client = HttpClient::connect(&mut c, IP_S, 8000, 49152, 0);
    let other = Stack::new(MAC_C, IP_C);
    let mut c2 = other;
    assert!(!client.step(&mut c2, b"x", 1));
    assert!(client.response.is_empty());
}
