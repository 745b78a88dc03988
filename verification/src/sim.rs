use vstd::prelude::*;
use rand::rngs::SmallRng;
use crate::addr::{Ipv4Address, MacAddress, SocketTuple};
use crate::conn::{max_now, RttSample, TcpState};
use crate::echo::echo_spec;
use crate::frame::frames_view;
use crate::stack::{
    fill_dst, malformed_ipv4, on_packet_spec, rtt_estimate_spec, state_of, tcp_close_spec, tcp_connect_spec,
    tcp_recv_spec, tcp_send_spec, tick_overflows, tick_spec, Stack, StackView,
};

verus! {

/// rand's small, fast, seedable generator.
#[verifier::external_type_specification]
#[verifier::external_body]
pub struct ExSmallRng(SmallRng);

/// rand's `Rng::gen_range` on the inclusive range `lo..=hi` of `u64`: a
/// value from `lo` to `hi` (which one depends on the generator's state, so
/// nothing more is stated; the call panics on an empty range, which the
/// `requires` leaves out).
#[verifier::external_body]
fn gen_between(rng: &mut SmallRng, lo: u64, hi: u64) -> (r: u64)
    requires
        lo <= hi,
    ensures
        lo <= r <= hi,
{
    rand::Rng::gen_range(rng, lo..=hi)
}

/// rand's `Rng::gen::<u64>`: any 64-bit value, depending on the
/// generator's state.
#[verifier::external_body]
fn gen_u64(rng: &mut SmallRng) -> u64 {
    rand::Rng::gen::<u64>(rng)
}

/// Which way a packet travels between the two simulated stacks.
#[derive(Debug, Clone, Copy, PartialEq, Eq, Structural)]
pub enum Direction {
    AtoB,
    BtoA,
}

/// A frame on the simulated wire and the time it arrives.
pub struct ScheduledPacket {
    pub deliver_at: u64,
    pub data: Vec<u8>,
    pub direction: Direction,
}

/// The plain values of a `ScheduledPacket`.
pub struct PacketView {
    pub deliver_at: u64,
    pub data: Seq<u8>,
    pub direction: Direction,
}

impl View for ScheduledPacket {
    type V = PacketView;

    open spec fn view(&self) -> PacketView {
        PacketView { deliver_at: self.deliver_at, data: self.data@, direction: self.direction }
    }
}

/// How a simulated transfer ended.
#[derive(Debug, Clone, Copy, PartialEq, Eq, Structural)]
pub struct SimResult {
    pub seed: u64,
    pub bytes_sent: usize,
    pub bytes_received: usize,
    pub data_match: bool,
    pub connection_closed: bool,
    pub ticks: u64,
}

/// What `deliver_next` did.
#[derive(Debug)]
pub enum Delivery {
    /// No packet was due.
    Idle,
    /// The earliest packet was due and went to its stack, which may have
    /// measured a round trip to be smoothed.
    Delivered { direction: Direction, sample: Option<(SocketTuple, RttSample)> },
    /// The earliest packet was due but is a frame `on_packet` cannot take.
    Malformed,
}

/// Two stacks joined by a simulated wire: B connects to port 8080 of A,
/// sends the test data, A echoes it back, and both close. Times are
/// nanoseconds since the start of the run.
pub struct Simulation {
    pub stack_a: Stack,
    pub stack_b: Stack,
    pub tuple_b: SocketTuple,
    /// The frames in flight, earliest arrival first.
    pub wire: Vec<ScheduledPacket>,
    pub test_data: Vec<u8>,
    pub data_sent: bool,
    pub total_received: Vec<u8>,
    pub ticks: u64,
    pub max_ticks: u64,
    pub now: u64,
}

/// The plain values of a `Simulation`.
#[verifier::ext_equal]
pub struct SimView {
    pub a: StackView,
    pub b: StackView,
    pub tuple_b: SocketTuple,
    pub wire: Seq<PacketView>,
    pub test_data: Seq<u8>,
    pub data_sent: bool,
    pub total: Seq<u8>,
    pub ticks: u64,
    pub max_ticks: u64,
    pub now: u64,
}

pub open spec fn wire_view(w: Seq<ScheduledPacket>) -> Seq<PacketView> {
    w.map_values(|p: ScheduledPacket| p@)
}

impl View for Simulation {
    type V = SimView;

    open spec fn view(&self) -> SimView {
        SimView {
            a: self.stack_a@,
            b: self.stack_b@,
            tuple_b: self.tuple_b,
            wire: wire_view(self.wire@),
            test_data: self.test_data@,
            data_sent: self.data_sent,
            total: self.total_received@,
            ticks: self.ticks,
            max_ticks: self.max_ticks,
            now: self.now,
        }
    }
}

/// Whether the packets are in order of arrival time.
pub open spec fn sorted(w: Seq<PacketView>) -> bool {
    forall|i: int, j: int| 0 <= i < j < w.len() ==> #[trigger] w[i].deliver_at <= #[trigger] w[j].deliver_at
}

/// Where a packet arriving at `t` goes: after every packet that arrives no
/// later.
pub open spec fn insert_pos(w: Seq<PacketView>, t: u64) -> int
    decreases w.len(),
{
    if w.len() == 0 {
        0
    } else if w.last().deliver_at <= t {
        w.len() as int
    } else {
        insert_pos(w.drop_last(), t)
    }
}

/// The most ticks a run may ask for: one more tick of a millisecond each
/// must still leave the clock at a time the stacks accept (`max_now`).
pub open spec fn max_ticks_bound() -> u64 {
    (max_now() / tick_ns() - 1) as u64
}

/// `max_ticks_bound`, for callers of `Simulation::new` to test against.
pub fn max_ticks_limit() -> (r: u64)
    ensures
        r == max_ticks_bound(),
{
    18_446_744_071_708
}

/// One millisecond, the length of an idle tick, in nanoseconds.
pub open spec fn tick_ns() -> u64 {
    1_000_000
}

impl SimView {
    /// Both stacks are well formed, the wire is in order, and the clock has
    /// advanced at most a millisecond per tick.
    pub open spec fn wf(self) -> bool {
        &&& self.a.wf()
        &&& self.b.wf()
        &&& sorted(self.wire)
        &&& self.max_ticks <= max_ticks_bound()
        &&& self.ticks <= self.max_ticks + 1
        &&& self.now as int <= self.ticks as int * tick_ns() as int
    }
}

pub open spec fn mac_a() -> MacAddress {
    MacAddress([0x02u8, 0x00, 0x00, 0x00, 0x00, 0x01])
}

pub open spec fn mac_b() -> MacAddress {
    MacAddress([0x02u8, 0x00, 0x00, 0x00, 0x00, 0x02])
}

pub open spec fn ip_a() -> Ipv4Address {
    Ipv4Address([10u8, 0, 0, 1])
}

pub open spec fn ip_b() -> Ipv4Address {
    Ipv4Address([10u8, 0, 0, 2])
}

/// The test data: byte `i` is `i` mod 256.
pub open spec fn test_pattern(n: nat) -> Seq<u8> {
    Seq::new(n, |i: int| (i % 256) as u8)
}

/// The empty stack with address `mac`/`ip`.
pub open spec fn fresh_stack(mac: MacAddress, ip: Ipv4Address) -> StackView {
    StackView {
        mac,
        ip,
        arp: Map::empty(),
        conns: Seq::empty(),
        listening: Map::empty(),
        tx: Seq::empty(),
        isn: 21245643,
    }
}

/// The start of a run: each stack knows the other's hardware address, A
/// listens on 8080 and B has sent its SYN from port 40000.
pub open spec fn sim_start(data_size: nat, max_ticks: u64) -> SimView {
    let a0 = fresh_stack(mac_a(), ip_a());
    let a = StackView {
        arp: a0.arp.insert(ip_b().key(), mac_b()),
        listening: a0.listening.insert(8080, TcpState::Listen),
        ..a0
    };
    let b0 = fresh_stack(mac_b(), ip_b());
    let b1 = StackView { arp: b0.arp.insert(ip_a().key(), mac_a()), ..b0 };
    let (b, t) = tcp_connect_spec(b1, ip_a(), 8080, 40000, 0);
    SimView {
        a,
        b,
        tuple_b: t,
        wire: Seq::empty(),
        test_data: test_pattern(data_size),
        data_sent: false,
        total: Seq::empty(),
        ticks: 0,
        max_ticks,
        now: 0,
    }
}

/// The start of a tick: the tick is counted, and the run ends when there
/// are no ticks left; otherwise the clock moves a millisecond on, or to the
/// next arrival if that is sooner.
pub open spec fn start_tick_spec(s: SimView) -> (SimView, bool) {
    let ticks = (s.ticks + 1) as u64;
    if ticks > s.max_ticks {
        (SimView { ticks, ..s }, false)
    } else {
        let next = (s.now + tick_ns()) as u64;
        let now = if s.wire.len() > 0 && s.wire[0].deliver_at < next {
            s.wire[0].deliver_at
        } else {
            next
        };
        (SimView { ticks, now, ..s }, true)
    }
}

/// Delivering the earliest packet when it is due.
pub open spec fn deliver_spec(s: SimView) -> (SimView, Delivery) {
    if s.wire.len() == 0 || s.wire[0].deliver_at > s.now {
        (s, Delivery::Idle)
    } else {
        let p = s.wire[0];
        let s1 = SimView { wire: s.wire.subrange(1, s.wire.len() as int), ..s };
        match p.direction {
            Direction::AtoB => if malformed_ipv4(s.b, p.data) {
                (s1, Delivery::Malformed)
            } else {
                let (b, sample) = on_packet_spec(s.b, p.data, s.now);
                (SimView { b, ..s1 }, Delivery::Delivered { direction: p.direction, sample })
            },
            Direction::BtoA => if malformed_ipv4(s.a, p.data) {
                (s1, Delivery::Malformed)
            } else {
                let (a, sample) = on_packet_spec(s.a, p.data, s.now);
                (SimView { a, ..s1 }, Delivery::Delivered { direction: p.direction, sample })
            },
        }
    }
}

/// A stack after `on_tick`.
pub open spec fn ticked(s: StackView, now: u64) -> StackView {
    let (conns, tx) = tick_spec(s.conns, s.tx, now);
    StackView { conns, tx, ..s }
}

/// A's side of the run: the echo service's turn for its first connection
/// (see `echo_spec`).
pub open spec fn echo_side(a: StackView, now: u64) -> StackView {
    if a.conns.len() > 0 {
        echo_spec(a, a.conns[0].tuple, now)
    } else {
        a
    }
}

/// The frames a stack hands to the wire, destinations filled in.
pub open spec fn outgoing(s: StackView, d: Direction) -> Seq<(Seq<u8>, Direction)> {
    s.tx.map_values(|f: Seq<u8>| (fill_dst(f, s.arp), d))
}

/// The rest of a tick: both stacks tick; B sends the test data once its
/// connection is established; A echoes; B collects what comes back and
/// closes once it has it all; then both stacks' frames leave, A's first.
pub open spec fn endpoints_spec(s: SimView) -> (SimView, Seq<(Seq<u8>, Direction)>) {
    let a1 = ticked(s.a, s.now);
    let b1 = ticked(s.b, s.now);
    let send_now = !s.data_sent && state_of(b1, s.tuple_b) == Some(TcpState::Established);
    let b2 = if send_now {
        tcp_send_spec(b1, s.tuple_b, s.test_data)
    } else {
        b1
    };
    let sent = s.data_sent || send_now;
    let a2 = echo_side(a1, s.now);
    let (b3, got) = tcp_recv_spec(b2, s.tuple_b);
    let total = s.total + got;
    let b4 = if sent && total.len() >= s.test_data.len() {
        tcp_close_spec(b3, s.tuple_b, s.now)
    } else {
        b3
    };
    (
        SimView {
            a: StackView { tx: Seq::empty(), ..a2 },
            b: StackView { tx: Seq::empty(), ..b4 },
            data_sent: sent,
            total,
            ..s
        },
        outgoing(a2, Direction::AtoB) + outgoing(b4, Direction::BtoA),
    )
}

/// Whether the run is over: A has no connection left, B's is gone or
/// Closed, and the data went out.
pub open spec fn finished_spec(s: SimView) -> bool {
    &&& s.a.conns.len() == 0
    &&& (state_of(s.b, s.tuple_b) is None || state_of(s.b, s.tuple_b) == Some(TcpState::Closed))
    &&& s.data_sent
}

/// The outcome of a run: whether B got back at least the test data and
/// its beginning matches it, how much of it came back, and whether A has
/// no connection left.
pub open spec fn result_spec(s: SimView, seed: u64) -> SimResult {
    let n = s.test_data.len();
    SimResult {
        seed,
        bytes_sent: n as usize,
        bytes_received: (if s.total.len() <= n {
            s.total.len()
        } else {
            n
        }) as usize,
        data_match: s.total.len() >= n && s.total.take(n as int) == s.test_data,
        connection_closed: s.a.conns.len() == 0,
        ticks: s.ticks,
    }
}

/// The frames of one tick with the way each travels.
pub open spec fn sends_view(v: Seq<(Vec<u8>, Direction)>) -> Seq<(Seq<u8>, Direction)> {
    v.map_values(|p: (Vec<u8>, Direction)| (p.0@, p.1))
}

/// The test data of `n` bytes.
fn test_bytes(n: usize) -> (r: Vec<u8>)
    ensures
        r@ == test_pattern(n as nat),
{
    let mut v: Vec<u8> = Vec::new();
    let mut i: usize = 0;
    while i < n
        invariant
            i <= n,
            v@ == test_pattern(i as nat),
        decreases n - i,
    {
        v.push((i % 256) as u8);
        i = i + 1;
        assert(v@ =~= test_pattern(i as nat));
    }
    v
}

/// Whether `a` begins with `b`.
fn starts_with(a: &Vec<u8>, b: &Vec<u8>) -> (r: bool)
    requires
        a@.len() >= b@.len(),
    ensures
        r == (a@.take(b@.len() as int) == b@),
{
    let mut i: usize = 0;
    while i < b.len()
        invariant
            i <= b@.len(),
            a@.len() >= b@.len(),
            forall|j: int| 0 <= j < i ==> a@[j] == b@[j],
        decreases b@.len() - i,
    {
        if a[i] != b[i] {
            assert(a@.take(b@.len() as int)[i as int] != b@[i as int]);
            return false;
        }
        i = i + 1;
    }
    assert(a@.take(b@.len() as int) =~= b@);
    true
}

/// A packet that arrives at `t` goes after every packet arriving no later
/// and before every packet arriving later, so the wire stays in order of
/// arrival and packets arriving at the same time keep the order in which
/// they were sent.
pub proof fn law_schedule_sorted(w: Seq<PacketView>, p: PacketView)
    requires
        sorted(w),
    ensures
        sorted(w.insert(insert_pos(w, p.deliver_at), p)),
        0 <= insert_pos(w, p.deliver_at) <= w.len(),
        forall|j: int| 0 <= j < insert_pos(w, p.deliver_at) ==> #[trigger] w[j].deliver_at <= p.deliver_at,
        forall|j: int| insert_pos(w, p.deliver_at) <= j < w.len() ==> #[trigger] w[j].deliver_at > p.deliver_at,
    decreases w.len(),
{
    let t = p.deliver_at;
    let k = insert_pos(w, t);
    if w.len() == 0 {
        assert(w.insert(0, p) =~= seq![p]);
    } else if w.last().deliver_at <= t {
        assert(forall|j: int| 0 <= j < w.len() ==> #[trigger] w[j].deliver_at <= w.last().deliver_at);
    } else {
        let d = w.drop_last();
        law_schedule_sorted(d, p);
        assert(forall|j: int| 0 <= j < d.len() ==> #[trigger] d[j] == w[j]);
        assert forall|j: int| 0 <= j < k implies #[trigger] w[j].deliver_at <= t by {
            assert(d[j].deliver_at <= t);
        }
        assert forall|j: int| k <= j < w.len() implies #[trigger] w[j].deliver_at > t by {
            if j < w.len() - 1 {
                assert(d[j].deliver_at > t);
            }
        }
    }
    let r = w.insert(k, p);
    assert forall|i: int, j: int| 0 <= i < j < r.len() implies #[trigger] r[i].deliver_at
        <= #[trigger] r[j].deliver_at by {
        if j < k {
            assert(r[i] == w[i] && r[j] == w[j]);
        } else if j == k {
            assert(r[i] == w[i]);
        } else if i == k {
            assert(r[j] == w[j - 1]);
        } else if i < k {
            assert(r[i] == w[i] && r[j] == w[j - 1]);
        } else {
            assert(r[i] == w[i - 1] && r[j] == w[j - 1]);
        }
    }
}

impl Simulation {
    /// Sets up a run that sends `data_size` bytes and lasts at most
    /// `max_ticks` ticks (see `sim_start`).
    pub fn new(data_size: usize, max_ticks: u64) -> (r: Simulation)
        requires
            max_ticks <= max_ticks_bound(),
        ensures
            r@ == sim_start(data_size as nat, max_ticks),
            r@.wf(),
    {
        let ma = MacAddress([0x02, 0x00, 0x00, 0x00, 0x00, 0x01]);
        let mb = MacAddress([0x02, 0x00, 0x00, 0x00, 0x00, 0x02]);
        let ia = Ipv4Address([10, 0, 0, 1]);
        let ib = Ipv4Address([10, 0, 0, 2]);
        assert(ma == mac_a());
        assert(mb == mac_b());
        assert(ia == ip_a());
        assert(ib == ip_b());
        let mut stack_a = Stack::new(ma, ia);
        let mut stack_b = Stack::new(mb, ib);
        stack_a.cache_address(ib, mb);
        stack_b.cache_address(ia, ma);
        stack_a.listen(8080);
        let tuple_b = stack_b.tcp_connect(ia, 8080, 40000, 0);
        let test_data = test_bytes(data_size);
        let r = Simulation {
            stack_a,
            stack_b,
            tuple_b,
            wire: Vec::new(),
            test_data,
            data_sent: false,
            total_received: Vec::new(),
            ticks: 0,
            max_ticks,
            now: 0,
        };
        assert(r@.wire =~= Seq::<PacketView>::empty());
        assert(r@ =~= sim_start(data_size as nat, max_ticks));
        r
    }

    /// Counts a tick and moves the clock on (see `start_tick_spec`); false
    /// when the run is out of ticks.
    pub fn start_tick(&mut self) -> (r: bool)
        requires
            old(self)@.wf(),
            old(self).ticks <= old(self).max_ticks,
        ensures
            (final(self)@, r) == start_tick_spec(old(self)@),
            final(self)@.wf(),
    {
        self.ticks = self.ticks + 1;
        if self.ticks > self.max_ticks {
            assert(self@ =~= start_tick_spec(old(self)@).0);
            return false;
        }
        let mut next = self.now + 1_000_000;
        if self.wire.len() > 0 && self.wire[0].deliver_at < next {
            next = self.wire[0].deliver_at;
        }
        self.now = next;
        assert(self@ =~= start_tick_spec(old(self)@).0);
        true
    }

    /// Hands the earliest packet on the wire to its stack if it is due (see
    /// `deliver_spec`).
    pub fn deliver_next(&mut self) -> (r: Delivery)
        requires
            old(self)@.wf(),
        ensures
            (final(self)@, r) == deliver_spec(old(self)@),
            final(self)@.wf(),
    {
        if self.wire.len() == 0 || self.wire[0].deliver_at > self.now {
            return Delivery::Idle;
        }
        let ghost w0 = self.wire@;
        let pkt = self.wire.remove(0);
        assert(wire_view(self.wire@) =~= wire_view(w0).subrange(1, w0.len() as int));
        assert(pkt@ == wire_view(w0)[0]);
        let now = self.now;
        match pkt.direction {
            Direction::AtoB => {
                if self.stack_b.is_malformed_ipv4(pkt.data.as_slice()) {
                    assert(self@ =~= deliver_spec(old(self)@).0);
                    return Delivery::Malformed;
                }
                let sample = self.stack_b.on_packet(pkt.data.as_slice(), now);
                assert(self@ =~= deliver_spec(old(self)@).0);
                Delivery::Delivered { direction: Direction::AtoB, sample }
            },
            Direction::BtoA => {
                if self.stack_a.is_malformed_ipv4(pkt.data.as_slice()) {
                    assert(self@ =~= deliver_spec(old(self)@).0);
                    return Delivery::Malformed;
                }
                let sample = self.stack_a.on_packet(pkt.data.as_slice(), now);
                assert(self@ =~= deliver_spec(old(self)@).0);
                Delivery::Delivered { direction: Direction::BtoA, sample }
            },
        }
    }

    /// Hands the connection `tuple` of the stack that received a packet
    /// going `direction` its smoothed round-trip estimate.
    pub fn apply_rtt(&mut self, direction: Direction, tuple: SocketTuple, srtt: u128, rttvar: u128)
        requires
            old(self)@.wf(),
            srtt <= crate::conn::rtt_bound(),
            rttvar <= crate::conn::rtt_bound(),
        ensures
            final(self)@.wf(),
            final(self)@ == match direction {
                Direction::AtoB => SimView {
                    b: rtt_estimate_spec(old(self)@.b, tuple, srtt, rttvar),
                    ..old(self)@
                },
                Direction::BtoA => SimView {
                    a: rtt_estimate_spec(old(self)@.a, tuple, srtt, rttvar),
                    ..old(self)@
                },
            },
    {
        match direction {
            Direction::AtoB => self.stack_b.set_rtt_estimate(tuple, srtt, rttvar),
            Direction::BtoA => self.stack_a.set_rtt_estimate(tuple, srtt, rttvar),
        }
        assert(self@ =~= match direction {
            Direction::AtoB => SimView { b: rtt_estimate_spec(old(self)@.b, tuple, srtt, rttvar), ..old(self)@ },
            Direction::BtoA => SimView { a: rtt_estimate_spec(old(self)@.a, tuple, srtt, rttvar), ..old(self)@ },
        });
    }

    /// Whether `run_endpoints` cannot run now: a stack's `on_tick` would
    /// overflow a retransmission count.
    pub fn endpoints_would_overflow(&self) -> (r: bool)
        ensures
            r == (tick_overflows(self@.a, self@.now) || tick_overflows(self@.b, self@.now)),
    {
        self.stack_a.tick_would_overflow(self.now) || self.stack_b.tick_would_overflow(self.now)
    }
}

impl Simulation {
    /// Puts a frame on the wire, to arrive at `deliver_at` after every
    /// frame that arrives no later (see `law_schedule_sorted`).
    pub fn schedule(&mut self, data: Vec<u8>, direction: Direction, deliver_at: u64)
        requires
            old(self)@.wf(),
        ensures
            final(self)@ == (SimView {
                wire: old(self)@.wire.insert(
                    insert_pos(old(self)@.wire, deliver_at),
                    PacketView { deliver_at, data: data@, direction },
                ),
                ..old(self)@
            }),
            final(self)@.wf(),
    {
        let ghost w = old(self)@.wire;
        let ghost pv = PacketView { deliver_at, data: data@, direction };
        proof {
            law_schedule_sorted(w, pv);
        }
        let mut i: usize = self.wire.len();
        assert(w.take(i as int) =~= w);
        while i > 0 && self.wire[i - 1].deliver_at > deliver_at
            invariant
                i <= self.wire@.len(),
                self@ == old(self)@,
                w == wire_view(self.wire@),
                insert_pos(w, deliver_at) == insert_pos(w.take(i as int), deliver_at),
            decreases i,
        {
            proof {
                let ti = w.take(i as int);
                assert(ti.drop_last() =~= w.take(i - 1));
                assert(ti.last() == w[i - 1]);
            }
            i = i - 1;
        }
        proof {
            if i > 0 {
                assert(w.take(i as int).last() == w[i - 1]);
            }
        }
        let ghost v0 = self.wire@;
        self.wire.insert(i, ScheduledPacket { deliver_at, data, direction });
        assert(wire_view(self.wire@) =~= w.insert(i as int, pv));
        assert(self@ =~= SimView { wire: w.insert(insert_pos(w, deliver_at), pv), ..old(self)@ });
    }

    /// The rest of a tick (see `endpoints_spec`): returns the frames both
    /// stacks hand to the wire, A's first, each with the way it travels.
    pub fn run_endpoints(&mut self) -> (r: Vec<(Vec<u8>, Direction)>)
        requires
            old(self)@.wf(),
            !tick_overflows(old(self)@.a, old(self)@.now),
            !tick_overflows(old(self)@.b, old(self)@.now),
        ensures
            (final(self)@, sends_view(r@)) == endpoints_spec(old(self)@),
            final(self)@.wf(),
    {
        let now = self.now;
        let tuple_b = self.tuple_b;
        self.stack_a.on_tick(now);
        self.stack_b.on_tick(now);
        if !self.data_sent {
            match self.stack_b.connection_state(tuple_b) {
                Some(TcpState::Established) => {
                    self.stack_b.tcp_send(tuple_b, self.test_data.as_slice());
                    self.data_sent = true;
                },
                _ => {},
            }
        }
        let ghost a1 = self.stack_a@;
        let conns_a = self.stack_a.active_connections();
        if conns_a.len() > 0 {
            let tuple_a = conns_a[0];
            assert(tuple_a == a1.conns[0].tuple);
            self.stack_a.echo_connection(tuple_a, now);
        }
        assert(self.stack_a@ == echo_side(a1, now));
        let mut received_b = self.stack_b.tcp_recv(tuple_b);
        self.total_received.append(&mut received_b);
        if self.data_sent && self.total_received.len() >= self.test_data.len() {
            self.stack_b.tcp_close(tuple_b, now);
        }
        let ghost a2 = self.stack_a@;
        let ghost b4 = self.stack_b@;
        let out_a = self.stack_a.take_outgoing();
        let out_b = self.stack_b.take_outgoing();
        let mut r: Vec<(Vec<u8>, Direction)> = Vec::new();
        let mut out_a = out_a;
        let mut out_b = out_b;
        let ghost fa = frames_view(out_a@);
        let ghost fb = frames_view(out_b@);
        let ghost mut k: int = 0;
        assert(fa.skip(0) =~= fa);
        assert(sends_view(r@) =~= fa.take(0).map_values(|f: Seq<u8>| (f, Direction::AtoB)));
        while out_a.len() > 0
            invariant
                0 <= k <= fa.len(),
                frames_view(out_a@) == fa.skip(k),
                sends_view(r@) == fa.take(k).map_values(|f: Seq<u8>| (f, Direction::AtoB)),
            decreases out_a@.len(),
        {
            let ghost oa = out_a@;
            let f = out_a.remove(0);
            proof {
                assert(frames_view(oa).len() == oa.len());
                assert(fa.skip(k)[0] == fa[k]);
                assert(frames_view(oa)[0] == oa[0]@);
            }
            let ghost rv = r@;
            r.push((f, Direction::AtoB));
            proof {
                assert(frames_view(out_a@) =~= frames_view(oa).subrange(1, oa.len() as int));
                assert(frames_view(out_a@) =~= fa.skip(k + 1));
                assert(fa.take(k + 1) =~= fa.take(k).push(fa[k]));
                assert(sends_view(r@) =~= sends_view(rv).push((fa[k], Direction::AtoB)));
                k = k + 1;
                assert(sends_view(r@) =~= fa.take(k).map_values(|f: Seq<u8>| (f, Direction::AtoB)));
            }
        }
        proof {
            assert(fa.take(k) =~= fa);
        }
        let ghost ra = sends_view(r@);
        let ghost mut m: int = 0;
        assert(fb.skip(0) =~= fb);
        assert(sends_view(r@) =~= ra + fb.take(0).map_values(|f: Seq<u8>| (f, Direction::BtoA)));
        while out_b.len() > 0
            invariant
                0 <= m <= fb.len(),
                frames_view(out_b@) == fb.skip(m),
                sends_view(r@) == ra + fb.take(m).map_values(|f: Seq<u8>| (f, Direction::BtoA)),
            decreases out_b@.len(),
        {
            let ghost ob = out_b@;
            let f = out_b.remove(0);
            proof {
                assert(frames_view(ob).len() == ob.len());
                assert(fb.skip(m)[0] == fb[m]);
                assert(frames_view(ob)[0] == ob[0]@);
            }
            let ghost rv = r@;
            r.push((f, Direction::BtoA));
            proof {
                assert(frames_view(out_b@) =~= frames_view(ob).subrange(1, ob.len() as int));
                assert(frames_view(out_b@) =~= fb.skip(m + 1));
                assert(fb.take(m + 1) =~= fb.take(m).push(fb[m]));
                assert(sends_view(r@) =~= sends_view(rv).push((fb[m], Direction::BtoA)));
                m = m + 1;
                assert(sends_view(r@) =~= ra + fb.take(m).map_values(|f: Seq<u8>| (f, Direction::BtoA)));
            }
        }
        proof {
            assert(fb.take(m) =~= fb);
            assert(ra =~= outgoing(a2, Direction::AtoB));
            assert(fb.map_values(|f: Seq<u8>| (f, Direction::BtoA)) =~= outgoing(b4, Direction::BtoA));
        }
        assert(self@ =~= endpoints_spec(old(self)@).0);
        r
    }

    /// Whether the run is over (see `finished_spec`).
    pub fn finished(&self) -> (r: bool)
        ensures
            r == finished_spec(self@),
    {
        let conns_a = self.stack_a.active_connections();
        let b_closed = match self.stack_b.connection_state(self.tuple_b) {
            None => true,
            Some(st) => st == TcpState::Closed,
        };
        conns_a.len() == 0 && b_closed && self.data_sent
    }

    /// The outcome of the run with seed `seed` (see `result_spec`).
    pub fn result(&self, seed: u64) -> (r: SimResult)
        ensures
            r == result_spec(self@, seed),
            r.bytes_received <= r.bytes_sent,
            r.data_match ==> r.bytes_received == r.bytes_sent,
            r.seed == seed,
            r.bytes_sent == self.test_data@.len(),
            self@.wf() ==> r.ticks <= self.max_ticks + 1,
    {
        let n = self.test_data.len();
        let got = self.total_received.len();
        let data_match = got >= n && starts_with(&self.total_received, &self.test_data);
        let conns_a = self.stack_a.active_connections();
        SimResult {
            seed,
            bytes_sent: n,
            bytes_received: if got <= n {
                got
            } else {
                n
            },
            data_match,
            connection_closed: conns_a.len() == 0,
            ticks: self.ticks,
        }
    }
}

impl Simulation {
    /// Puts a frame that was not lost on the wire: it arrives `min_ns` after
    /// now when `min_ns >= max_ns`, and otherwise after a delay drawn from
    /// `min_ns` to `max_ns`. Returns the arrival time.
    pub fn transmit(
        &mut self,
        rng: &mut SmallRng,
        frame: Vec<u8>,
        direction: Direction,
        min_ns: u64,
        max_ns: u64,
    ) -> (at: u64)
        requires
            old(self)@.wf(),
            old(self).now + min_ns <= u64::MAX,
            old(self).now + max_ns <= u64::MAX,
        ensures
            min_ns >= max_ns ==> at == old(self).now + min_ns,
            min_ns < max_ns ==> old(self).now + min_ns <= at <= old(self).now + max_ns,
            final(self)@ == (SimView {
                wire: old(self)@.wire.insert(
                    insert_pos(old(self)@.wire, at),
                    PacketView { deliver_at: at, data: frame@, direction },
                ),
                ..old(self)@
            }),
            final(self)@.wf(),
    {
        let delay = if min_ns >= max_ns {
            min_ns
        } else {
            gen_between(rng, min_ns, max_ns)
        };
        let at = self.now + delay;
        self.schedule(frame, direction, at);
        at
    }

    /// Puts a duplicate of a frame arriving at `at` on the wire: it arrives
    /// a drawn whole number of microseconds, under 100, after `at`. Returns
    /// its arrival time.
    pub fn transmit_duplicate(&mut self, rng: &mut SmallRng, frame: Vec<u8>, direction: Direction, at: u64) -> (dup_at: u64)
        requires
            old(self)@.wf(),
            at + 99_000 <= u64::MAX,
        ensures
            at <= dup_at <= at + 99_000,
            (dup_at - at) % 1000 == 0,
            final(self)@ == (SimView {
                wire: old(self)@.wire.insert(
                    insert_pos(old(self)@.wire, dup_at),
                    PacketView { deliver_at: dup_at, data: frame@, direction },
                ),
                ..old(self)@
            }),
            final(self)@.wf(),
    {
        let jitter = (gen_u64(rng) % 100) * 1000;
        let dup_at = at + jitter;
        self.schedule(frame, direction, dup_at);
        dup_at
    }
}

} // verus!
