use vstd::prelude::*;
use crate::addr::{Ipv4Address, SocketTuple};
use crate::conn::TcpState;
use crate::conn::ConnView;
use crate::stack::{
    find_conn, is_first_match, lemma_first_match_unique, state_of, tcp_close_spec, tcp_connect_spec, tcp_recv_spec, tcp_send_spec, Stack, StackView,
};

verus! {

/// One connection's turn in the echo service: whatever it received is sent
/// back, and a connection whose peer has closed is closed too.
pub open spec fn echo_spec(s: StackView, t: SocketTuple, now: u64) -> StackView {
    let (s1, got) = tcp_recv_spec(s, t);
    let s2 = if got.len() > 0 {
        tcp_send_spec(s1, t, got)
    } else {
        s1
    };
    if state_of(s2, t) == Some(TcpState::CloseWait) {
        tcp_close_spec(s2, t, now)
    } else {
        s2
    }
}

/// The echo service's turn for each of the connections `ts`, in order.
pub open spec fn echo_all_spec(s: StackView, ts: Seq<SocketTuple>, now: u64) -> StackView
    decreases ts.len(),
{
    if ts.len() == 0 {
        s
    } else {
        echo_spec(echo_all_spec(s, ts.drop_last(), now), ts.last(), now)
    }
}

/// The echo service returns what it reads: after its turn, a connection
/// whose peer has not closed has nothing left to read, what it had read
/// waits at the end of its send buffer, and nothing else changes.
pub proof fn law_echo_returns_data(s: StackView, t: SocketTuple, i: int, now: u64)
    requires
        find_conn(s.conns, t) == Some(i),
        s.conns[i].state != TcpState::CloseWait,
    ensures
        echo_spec(s, t, now) == (StackView {
            conns: s.conns.update(
                i,
                ConnView {
                    receive_buffer: Seq::empty(),
                    send_buffer: s.conns[i].send_buffer + s.conns[i].receive_buffer,
                    ..s.conns[i]
                },
            ),
            ..s
        }),
{
    let c = s.conns[i];
    assert(is_first_match(s.conns, t, i));
    let (s1, got) = tcp_recv_spec(s, t);
    assert(is_first_match(s1.conns, t, i));
    lemma_first_match_unique(s1.conns, t, i);
    let s2 = if got.len() > 0 {
        tcp_send_spec(s1, t, got)
    } else {
        s1
    };
    assert(is_first_match(s2.conns, t, i));
    lemma_first_match_unique(s2.conns, t, i);
    assert(c.send_buffer + Seq::<u8>::empty() =~= c.send_buffer);
    assert(s2 =~= StackView {
        conns: s.conns.update(
            i,
            ConnView { receive_buffer: Seq::empty(), send_buffer: c.send_buffer + c.receive_buffer, ..c },
        ),
        ..s
    });
}

/// How often a driver runs the stack's timers: every 10 ms.
pub open spec fn tick_interval_ns() -> u64 {
    10_000_000
}

/// Whether a driver that last ran the timers at `last_tick` runs them at
/// `now`: when at least 10 ms have passed (no time passes when the clock
/// seems to have gone back).
pub fn tick_due(last_tick: u64, now: u64) -> (r: bool)
    ensures
        r == (now >= last_tick && now - last_tick >= tick_interval_ns()),
{
    now >= last_tick && now - last_tick >= 10_000_000
}

impl Stack {
    /// The echo service's turn for the connection `tuple` (see `echo_spec`).
    pub fn echo_connection(&mut self, tuple: SocketTuple, now: u64)
        requires
            old(self).wf(),
        ensures
            final(self)@ == echo_spec(old(self)@, tuple, now),
            final(self).wf(),
    {
        let received = self.tcp_recv(tuple);
        if received.len() > 0 {
            self.tcp_send(tuple, received.as_slice());
        }
        match self.connection_state(tuple) {
            Some(TcpState::CloseWait) => {
                self.tcp_close(tuple, now);
            },
            _ => {},
        }
    }

    /// The echo service's turn for every connection the stack has, in the
    /// order it keeps them (see `echo_all_spec`).
    pub fn echo_all(&mut self, now: u64)
        requires
            old(self).wf(),
        ensures
            final(self)@ == echo_all_spec(
                old(self)@,
                old(self)@.conns.map_values(|c: crate::conn::ConnView| c.tuple),
                now,
            ),
            final(self).wf(),
    {
        let tuples = self.active_connections();
        let ghost ts = tuples@;
        let mut i: usize = 0;
        assert(ts.take(0) =~= Seq::<SocketTuple>::empty());
        while i < tuples.len()
            invariant
                i <= tuples@.len(),
                ts == tuples@,
                self.wf(),
                self@ == echo_all_spec(old(self)@, ts.take(i as int), now),
            decreases tuples@.len() - i,
        {
            assert(ts.take(i + 1).drop_last() =~= ts.take(i as int));
            self.echo_connection(tuples[i], now);
            i = i + 1;
        }
        assert(ts.take(i as int) =~= ts);
    }
}

/// An HTTP client on one connection: whether its request has gone out, and
/// the response bytes received so far.
pub struct HttpClient {
    pub tuple: SocketTuple,
    pub request_sent: bool,
    pub response: Vec<u8>,
}

/// The plain values of an `HttpClient`.
pub struct ClientView {
    pub tuple: SocketTuple,
    pub request_sent: bool,
    pub response: Seq<u8>,
}

impl View for HttpClient {
    type V = ClientView;

    open spec fn view(&self) -> ClientView {
        ClientView { tuple: self.tuple, request_sent: self.request_sent, response: self.response@ }
    }
}

/// One turn of the client: while its connection exists, the request goes
/// out once the connection is established, what arrived is added to the
/// response, and a connection the server has closed is closed too; once
/// the connection is gone after the request went out, the client is done.
/// Returns the new client, the new stack, and whether the client is done.
pub open spec fn client_step_spec(c: ClientView, s: StackView, request: Seq<u8>, now: u64) -> (
    ClientView,
    StackView,
    bool,
) {
    match state_of(s, c.tuple) {
        Some(st) => {
            let send = st == TcpState::Established && !c.request_sent;
            let s1 = if send {
                tcp_send_spec(s, c.tuple, request)
            } else {
                s
            };
            let (s2, got) = tcp_recv_spec(s1, c.tuple);
            let s3 = if st == TcpState::CloseWait {
                tcp_close_spec(s2, c.tuple, now)
            } else {
                s2
            };
            (
                ClientView { request_sent: c.request_sent || send, response: c.response + got, ..c },
                s3,
                false,
            )
        },
        None => (c, s, c.request_sent),
    }
}

impl HttpClient {
    /// Opens the client's connection to `remote_ip:remote_port` from
    /// `local_port`; nothing is sent or received yet.
    pub fn connect(
        stack: &mut Stack,
        remote_ip: Ipv4Address,
        remote_port: u16,
        local_port: u16,
        now: u64,
    ) -> (r: HttpClient)
        requires
            old(stack).wf(),
        ensures
            (final(stack)@, r.tuple) == tcp_connect_spec(old(stack)@, remote_ip, remote_port, local_port, now),
            !r.request_sent,
            r.response@ == Seq::<u8>::empty(),
            final(stack).wf(),
    {
        let tuple = stack.tcp_connect(remote_ip, remote_port, local_port, now);
        HttpClient { tuple, request_sent: false, response: Vec::new() }
    }

    /// One turn of the client (see `client_step_spec`); true when it is done.
    pub fn step(&mut self, stack: &mut Stack, request: &[u8], now: u64) -> (done: bool)
        requires
            old(stack).wf(),
        ensures
            (final(self)@, final(stack)@, done) == client_step_spec(old(self)@, old(stack)@, request@, now),
            final(stack).wf(),
    {
        let tuple = self.tuple;
        match stack.connection_state(tuple) {
            Some(st) => {
                if st == TcpState::Established && !self.request_sent {
                    stack.tcp_send(tuple, request);
                    self.request_sent = true;
                }
                let mut data = stack.tcp_recv(tuple);
                self.response.append(&mut data);
                if st == TcpState::CloseWait {
                    stack.tcp_close(tuple, now);
                }
                false
            },
            None => self.request_sent,
        }
    }
}

} // verus!
