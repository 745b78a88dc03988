use vstd::prelude::*;
use std::collections::{BTreeMap, VecDeque};
use crate::addr::{Ipv4Address, MacAddress, SocketTuple};
use crate::flags::{has_bits, TcpFlags};
use crate::frame::{
    build_ipv4_tcp_frame, build_segment, frames_view, ipv4_tcp_frame, max_segment_len,
    refresh_checksum, refresh_tcp_checksum, tcp_segment,
};
use crate::header::{parse_spec, TcpHeader};
use crate::seqnum::{seq_add, seq_diff, seq_lt, seq_lte, SeqNum};

verus! {

broadcast use vstd::std_specs::vecdeque::group_vec_dequeue_axioms;

/// The states of a TCP connection.
#[derive(Debug, Clone, Copy, PartialEq, Eq, Structural)]
pub enum TcpState {
    Closed,
    Listen,
    SynSent,
    SynReceived,
    Established,
    FinWait1,
    FinWait2,
    CloseWait,
    Closing,
    LastAck,
    TimeWait,
}

/// A segment sent and not yet acknowledged. Times are nanoseconds on the
/// caller's clock.
pub struct SentSegment {
    pub seq: SeqNum,
    pub seq_len: u32,
    pub data: Vec<u8>,
    pub sent_at: u64,
    pub retransmit_count: u32,
}

/// The plain values of a `SentSegment`.
pub struct SegmentView {
    pub seq: u32,
    pub seq_len: u32,
    pub data: Seq<u8>,
    pub sent_at: u64,
    pub retransmit_count: u32,
}

impl View for SentSegment {
    type V = SegmentView;

    open spec fn view(&self) -> SegmentView {
        SegmentView {
            seq: self.seq.0,
            seq_len: self.seq_len,
            data: self.data@,
            sent_at: self.sent_at,
            retransmit_count: self.retransmit_count,
        }
    }
}

/// A round-trip time measured against an estimate that has to be smoothed
/// with it: the current smoothed time and variance, and the new measurement,
/// all in nanoseconds.
#[derive(Debug, Clone, Copy, PartialEq, Eq, Structural)]
pub struct RttSample {
    pub srtt: u128,
    pub rttvar: u128,
    pub rtt: u128,
}

/// One TCP connection. Times are nanoseconds on the caller's clock; durations
/// are nanoseconds.
pub struct TcpConnection {
    pub tuple: SocketTuple,
    pub state: TcpState,
    pub local_mac: MacAddress,
    pub snd_una: SeqNum,
    pub snd_nxt: SeqNum,
    pub snd_wnd: u16,
    pub iss: SeqNum,
    pub rcv_nxt: SeqNum,
    pub rcv_wnd: u16,
    pub irs: SeqNum,
    pub retransmit_queue: VecDeque<SentSegment>,
    pub out_of_order: BTreeMap<u32, Vec<u8>>,
    pub send_buffer: VecDeque<u8>,
    pub receive_buffer: VecDeque<u8>,
    pub cwnd: u32,
    pub ssthresh: u32,
    pub dup_ack_count: u8,
    pub srtt: Option<u128>,
    pub rttvar: u128,
    pub rto: u128,
    pub time_wait_expiry: Option<u64>,
    pub mss: u16,
}

/// The plain values of a `TcpConnection`.
#[verifier::ext_equal]
pub struct ConnView {
    pub tuple: SocketTuple,
    pub state: TcpState,
    pub local_mac: MacAddress,
    pub snd_una: u32,
    pub snd_nxt: u32,
    pub snd_wnd: u16,
    pub iss: u32,
    pub rcv_nxt: u32,
    pub rcv_wnd: u16,
    pub irs: u32,
    pub retransmit: Seq<SegmentView>,
    pub out_of_order: Map<u32, Seq<u8>>,
    pub send_buffer: Seq<u8>,
    pub receive_buffer: Seq<u8>,
    pub cwnd: u32,
    pub ssthresh: u32,
    pub dup_ack_count: u8,
    pub srtt: Option<u128>,
    pub rttvar: u128,
    pub rto: u128,
    pub time_wait_expiry: Option<u64>,
    pub mss: u16,
}

pub open spec fn segs_view(q: Seq<SentSegment>) -> Seq<SegmentView> {
    q.map_values(|s: SentSegment| s@)
}

pub open spec fn ooo_view(m: Map<u32, Vec<u8>>) -> Map<u32, Seq<u8>> {
    m.map_values(|v: Vec<u8>| v@)
}

impl View for TcpConnection {
    type V = ConnView;

    open spec fn view(&self) -> ConnView {
        ConnView {
            tuple: self.tuple,
            state: self.state,
            local_mac: self.local_mac,
            snd_una: self.snd_una.0,
            snd_nxt: self.snd_nxt.0,
            snd_wnd: self.snd_wnd,
            iss: self.iss.0,
            rcv_nxt: self.rcv_nxt.0,
            rcv_wnd: self.rcv_wnd,
            irs: self.irs.0,
            retransmit: segs_view(self.retransmit_queue@),
            out_of_order: ooo_view(self.out_of_order@),
            send_buffer: self.send_buffer@,
            receive_buffer: self.receive_buffer@,
            cwnd: self.cwnd,
            ssthresh: self.ssthresh,
            dup_ack_count: self.dup_ack_count,
            srtt: self.srtt,
            rttvar: self.rttvar,
            rto: self.rto,
            time_wait_expiry: self.time_wait_expiry,
            mss: self.mss,
        }
    }
}

/// One millisecond in nanoseconds.
pub open spec fn millis(n: u128) -> u128 {
    (n * 1_000_000) as u128
}

/// The bound kept on the round-trip estimates, 2^100 nanoseconds: above what
/// a `Duration` can hold.
pub open spec fn rtt_bound() -> u128 {
    0x10_0000_0000_0000_0000_0000_0000
}

/// `a + b` on 32 bits, wrapping.
pub open spec fn add32(a: u32, b: u32) -> u32 {
    ((a as int + b as int) % 0x1_0000_0000) as u32
}

/// A length cut to 32 bits, as `as u32` cuts it.
pub open spec fn len32(n: nat) -> u32 {
    (n % 0x1_0000_0000) as u32
}

/// `as u32` on a length is `len32`.
proof fn lemma_len32(n: usize)
    ensures
        n as u32 == len32(n as nat),
{
    let x = n as u64;
    assert(x as u32 == x % 0x1_0000_0000) by (bit_vector);
    assert(n as u32 == (n as u64) as u32) by (bit_vector);
}

/// `a - b`, or zero when `b` is larger.
pub open spec fn sat_sub64(a: u64, b: u64) -> u128 {
    if a >= b {
        (a - b) as u128
    } else {
        0
    }
}

pub open spec fn min_u128(a: u128, b: u128) -> u128 {
    if a <= b {
        a
    } else {
        b
    }
}

pub open spec fn max_u128(a: u128, b: u128) -> u128 {
    if a >= b {
        a
    } else {
        b
    }
}

pub open spec fn max_u32(a: u32, b: u32) -> u32 {
    if a >= b {
        a
    } else {
        b
    }
}

pub open spec fn min_u32(a: u32, b: u32) -> u32 {
    if a <= b {
        a
    } else {
        b
    }
}

/// The first sequence number after segment `s`.
pub open spec fn seg_end(s: SegmentView) -> u32 {
    seq_add(s.seq, s.seq_len)
}

impl ConnView {
    /// What every connection keeps: a nonzero segment size and congestion
    /// window, a slow-start threshold below 2^31, bounded round-trip
    /// estimates, and segments of the sizes the stack builds.
    pub open spec fn wf(self) -> bool {
        &&& self.mss >= 1
        &&& self.cwnd >= 1
        &&& self.ssthresh < 0x8000_0000
        &&& (self.srtt matches Some(s) ==> s <= rtt_bound())
        &&& self.rttvar <= rtt_bound()
        &&& self.rto <= 8 * rtt_bound()
        &&& forall|i: int|
            0 <= i < self.retransmit.len() ==> 18 <= #[trigger] self.retransmit[i].data.len()
                <= max_segment_len()
        &&& self.out_of_order.dom().finite()
    }

    /// The frame that carries `tcp` from this connection: no destination
    /// hardware address yet, the connection's own as source.
    pub open spec fn frame(self, tcp: Seq<u8>) -> Seq<u8> {
        ipv4_tcp_frame(
            MacAddress([0u8, 0u8, 0u8, 0u8, 0u8, 0u8]),
            self.local_mac,
            self.tuple.local_ip,
            self.tuple.remote_ip,
            tcp,
        )
    }

    /// The header this connection sends with sequence number `seq` and flags
    /// `flags`: it acknowledges `rcv_nxt` and offers `rcv_wnd`.
    pub open spec fn header(self, seq: u32, flags: u8) -> TcpHeader {
        TcpHeader {
            src_port: self.tuple.local_port,
            dst_port: self.tuple.remote_port,
            seq: SeqNum(seq),
            ack: SeqNum(self.rcv_nxt),
            data_offset: 5,
            flags: TcpFlags { bits: flags },
            window: self.rcv_wnd,
            checksum: 0,
        }
    }

    /// The segment this connection sends with `seq`, `flags` and `payload`.
    pub open spec fn segment(self, seq: u32, flags: u8, payload: Seq<u8>) -> Seq<u8> {
        tcp_segment(self.header(seq, flags), payload, self.tuple.local_ip, self.tuple.remote_ip)
    }

    /// The frame of a bare acknowledgement of `rcv_nxt` at `snd_nxt`.
    pub open spec fn ack_frame(self) -> Seq<u8> {
        self.frame(self.segment(self.snd_nxt, 0x10, seq![]))
    }

    /// The frame that sends `seg` again, its checksum computed afresh.
    pub open spec fn resend_frame(self, seg: SegmentView) -> Seq<u8> {
        self.frame(refresh_tcp_checksum(self.tuple.local_ip, self.tuple.remote_ip, seg.data))
    }

    /// The retransmission timeout the current estimates give: 200 ms with no
    /// estimate, else the smoothed time plus four variances, at least 100 ms.
    pub open spec fn computed_rto(self) -> u128 {
        match self.srtt {
            None => millis(200),
            Some(s) => max_u128((s + 4 * self.rttvar) as u128, millis(100)),
        }
    }
}

/// `send_syn_ack`: sends SYN+ACK with the initial sequence number and keeps
/// it for retransmission.
pub open spec fn syn_ack_spec(c: ConnView, tx: Seq<Seq<u8>>, now: u64) -> (ConnView, Seq<Seq<u8>>) {
    let seg = c.segment(c.iss, 0x12, seq![]);
    (
        ConnView {
            retransmit: c.retransmit.push(
                SegmentView { seq: c.iss, seq_len: 1, data: seg, sent_at: now, retransmit_count: 0 },
            ),
            ..c
        },
        tx.push(c.frame(seg)),
    )
}

/// `send_fin`: sends FIN+ACK at `snd_nxt`, keeps it for retransmission and
/// counts the FIN in `snd_nxt`.
pub open spec fn fin_spec(c: ConnView, tx: Seq<Seq<u8>>, now: u64) -> (ConnView, Seq<Seq<u8>>) {
    let seg = c.segment(c.snd_nxt, 0x11, seq![]);
    (
        ConnView {
            retransmit: c.retransmit.push(
                SegmentView {
                    seq: c.snd_nxt,
                    seq_len: 1,
                    data: seg,
                    sent_at: now,
                    retransmit_count: 0,
                },
            ),
            snd_nxt: seq_add(c.snd_nxt, 1),
            ..c
        },
        tx.push(c.frame(seg)),
    )
}

/// How many segments at the front of `q` end at or before `ack`.
pub open spec fn acked_count(q: Seq<SegmentView>, ack: u32) -> nat
    decreases q.len(),
{
    if q.len() == 0 {
        0
    } else if seq_lte(seg_end(q[0]), ack) {
        1 + acked_count(q.subrange(1, q.len() as int), ack)
    } else {
        0
    }
}

/// The round-trip time of the first of the `n` front segments of `q` that
/// was sent only once, measured at `now`.
pub open spec fn first_sample(q: Seq<SegmentView>, n: nat, now: u64) -> Option<u128>
    decreases n,
{
    if n == 0 || q.len() == 0 {
        None
    } else if q[0].retransmit_count == 0 {
        Some(sat_sub64(now, q[0].sent_at))
    } else {
        first_sample(q.subrange(1, q.len() as int), (n - 1) as nat, now)
    }
}

/// `update_rtt` for a measurement `rtt`: the first measurement becomes the
/// smoothed time with half of it as variance and sets the timeout; a later
/// one is handed back with the current estimates, for smoothing.
pub open spec fn update_rtt_spec(c: ConnView, rtt: u128) -> (ConnView, Option<RttSample>) {
    match c.srtt {
        None => {
            let c1 = ConnView { srtt: Some(rtt), rttvar: rtt / 2, ..c };
            (ConnView { rto: c1.computed_rto(), ..c1 }, None)
        },
        Some(s) => (c, Some(RttSample { srtt: s, rttvar: c.rttvar, rtt })),
    }
}

/// `drain_retransmit_queue`: drops the segments that `ack` covers and
/// measures the round trip of the first of them sent only once.
pub open spec fn drain_spec(c: ConnView, ack: u32, now: u64) -> (ConnView, Option<RttSample>) {
    let k = acked_count(c.retransmit, ack);
    let c1 = ConnView { retransmit: c.retransmit.skip(k as int), ..c };
    match first_sample(c.retransmit, k, now) {
        None => (c1, None),
        Some(rtt) => update_rtt_spec(c1, rtt),
    }
}


/// The connection `TcpConnection::new` makes.
pub open spec fn new_conn_view(
    tuple: SocketTuple,
    state: TcpState,
    local_mac: MacAddress,
    iss: u32,
    irs: u32,
) -> ConnView {
    ConnView {
        tuple,
        state,
        local_mac,
        snd_una: iss,
        snd_nxt: iss,
        snd_wnd: 65535,
        iss,
        rcv_nxt: irs,
        rcv_wnd: 65535,
        irs,
        retransmit: Seq::empty(),
        out_of_order: Map::empty(),
        send_buffer: Seq::empty(),
        receive_buffer: Seq::empty(),
        cwnd: 1460,
        ssthresh: 65535,
        dup_ack_count: 0,
        srtt: None,
        rttvar: millis(100),
        rto: millis(200),
        time_wait_expiry: None,
        mss: 1460,
    }
}

proof fn lemma_segs_push(q: Seq<SentSegment>, s: SentSegment)
    ensures
        segs_view(q.push(s)) == segs_view(q).push(s@),
{
    assert(segs_view(q.push(s)) =~= segs_view(q).push(s@));
}

proof fn lemma_segs_rest(q: Seq<SentSegment>)
    requires
        q.len() > 0,
    ensures
        segs_view(q.subrange(1, q.len() as int)) == segs_view(q).subrange(1, q.len() as int),
{
    assert(segs_view(q.subrange(1, q.len() as int)) =~= segs_view(q).subrange(1, q.len() as int));
}

/// Appends a frame to the transmit queue.
pub fn push_frame(tx: &mut VecDeque<Vec<u8>>, f: Vec<u8>)
    ensures
        frames_view(final(tx)@) == frames_view(old(tx)@).push(f@),
{
    tx.push_back(f);
    assert(frames_view(tx@) =~= frames_view(old(tx)@).push(f@));
}

impl TcpConnection {
    /// The connection's spec-level well-formedness.
    pub open spec fn wf(&self) -> bool {
        self@.wf()
    }

    /// A connection in `state` with initial sequence numbers `iss` (ours) and
    /// `irs` (the peer's), full windows, a 1460-byte segment size and no
    /// round-trip estimate.
    pub fn new(tuple: SocketTuple, state: TcpState, local_mac: MacAddress, iss: SeqNum, irs: SeqNum) -> (r: TcpConnection)
        ensures
            r@ == new_conn_view(tuple, state, local_mac, iss.0, irs.0),
            r.wf(),
    {
        let r = TcpConnection {
            tuple,
            state,
            local_mac,
            snd_una: iss,
            snd_nxt: iss,
            snd_wnd: 65535,
            iss,
            rcv_nxt: irs,
            rcv_wnd: 65535,
            irs,
            retransmit_queue: VecDeque::new(),
            out_of_order: BTreeMap::new(),
            send_buffer: VecDeque::new(),
            receive_buffer: VecDeque::new(),
            cwnd: 1460,
            ssthresh: 65535,
            dup_ack_count: 0,
            srtt: None,
            rttvar: 100_000_000,
            rto: 200_000_000,
            time_wait_expiry: None,
            mss: 1460,
        };
        assert(r@.retransmit =~= Seq::empty());
        assert(r@.out_of_order =~= Map::empty());
        assert(r@ =~= new_conn_view(tuple, state, local_mac, iss.0, irs.0));
        r
    }

    /// Wraps a TCP segment of this connection in an IPv4 packet and an
    /// Ethernet frame with no destination address yet.
    fn encapsulate_ipv4_tcp(&self, tcp_bytes: Vec<u8>) -> (r: Vec<u8>)
        ensures
            r@ == self@.frame(tcp_bytes@),
    {
        build_ipv4_tcp_frame(
            MacAddress([0, 0, 0, 0, 0, 0]),
            self.local_mac,
            self.tuple.local_ip,
            self.tuple.remote_ip,
            tcp_bytes.as_slice(),
        )
    }

    /// The header this connection sends with `seq` and `flags`.
    fn make_header(&self, seq: SeqNum, flags: TcpFlags) -> (h: TcpHeader)
        ensures
            h == self@.header(seq.0, flags.bits),
    {
        TcpHeader {
            src_port: self.tuple.local_port,
            dst_port: self.tuple.remote_port,
            seq,
            ack: self.rcv_nxt,
            data_offset: 5,
            flags,
            window: self.rcv_wnd,
            checksum: 0,
        }
    }

    pub(crate) fn send_syn_ack(&mut self, tx_queue: &mut VecDeque<Vec<u8>>, now: u64)
        requires
            old(self).wf(),
        ensures
            (final(self)@, frames_view(final(tx_queue)@)) == syn_ack_spec(
                old(self)@,
                frames_view(old(tx_queue)@),
                now,
            ),
            final(self).wf(),
    {
        let hdr = self.make_header(self.iss, TcpFlags::syn().union(TcpFlags::ack()));
        assert(0x02u8 | 0x10u8 == 0x12u8) by (bit_vector);
        let empty: [u8; 0] = [];
        let seg = build_segment(&hdr, &empty, self.tuple.local_ip, self.tuple.remote_ip);
        assert(empty@ =~= Seq::<u8>::empty());
        let copy = copy_vec(&seg);
        push_frame(tx_queue, self.encapsulate_ipv4_tcp(copy));
        let ghost q = self.retransmit_queue@;
        let s = SentSegment { seq: self.iss, seq_len: 1, data: seg, sent_at: now, retransmit_count: 0 };
        proof {
            lemma_segs_push(q, s);
        }
        self.retransmit_queue.push_back(s);
        assert(self@ =~= syn_ack_spec(old(self)@, frames_view(old(tx_queue)@), now).0);
    }

    pub(crate) fn send_fin(&mut self, tx_queue: &mut VecDeque<Vec<u8>>, now: u64)
        requires
            old(self).wf(),
        ensures
            (final(self)@, frames_view(final(tx_queue)@)) == fin_spec(
                old(self)@,
                frames_view(old(tx_queue)@),
                now,
            ),
            final(self).wf(),
    {
        let hdr = self.make_header(self.snd_nxt, TcpFlags::fin().union(TcpFlags::ack()));
        assert(0x01u8 | 0x10u8 == 0x11u8) by (bit_vector);
        let empty: [u8; 0] = [];
        let seg = build_segment(&hdr, &empty, self.tuple.local_ip, self.tuple.remote_ip);
        assert(empty@ =~= Seq::<u8>::empty());
        let copy = copy_vec(&seg);
        push_frame(tx_queue, self.encapsulate_ipv4_tcp(copy));
        let ghost q = self.retransmit_queue@;
        let s = SentSegment { seq: self.snd_nxt, seq_len: 1, data: seg, sent_at: now, retransmit_count: 0 };
        proof {
            lemma_segs_push(q, s);
        }
        self.retransmit_queue.push_back(s);
        self.snd_nxt = self.snd_nxt.wrapping_add(1);
        assert(self@ =~= fin_spec(old(self)@, frames_view(old(tx_queue)@), now).0);
    }

    fn send_empty_ack(&self, tx_queue: &mut VecDeque<Vec<u8>>)
        ensures
            frames_view(final(tx_queue)@) == frames_view(old(tx_queue)@).push(self@.ack_frame()),
    {
        let hdr = self.make_header(self.snd_nxt, TcpFlags::ack());
        let empty: [u8; 0] = [];
        let seg = build_segment(&hdr, &empty, self.tuple.local_ip, self.tuple.remote_ip);
        assert(empty@ =~= Seq::<u8>::empty());
        push_frame(tx_queue, self.encapsulate_ipv4_tcp(seg));
    }

    /// The retransmission timeout the current estimates give.
    fn compute_rto(&self) -> (r: u128)
        requires
            self.wf(),
        ensures
            r == self@.computed_rto(),
            r <= 8 * rtt_bound(),
    {
        match self.srtt {
            None => 200_000_000,
            Some(srtt) => {
                let v = srtt + self.rttvar * 4;
                if v >= 100_000_000 {
                    v
                } else {
                    100_000_000
                }
            },
        }
    }

    fn update_rtt(&mut self, rtt: u128) -> (r: Option<RttSample>)
        requires
            old(self).wf(),
            rtt <= u64::MAX,
        ensures
            (final(self)@, r) == update_rtt_spec(old(self)@, rtt),
            final(self).wf(),
    {
        match self.srtt {
            None => {
                assert(u64::MAX <= rtt_bound());
                self.srtt = Some(rtt);
                self.rttvar = rtt / 2;
                assert(self@.retransmit == old(self)@.retransmit);
                assert(self@.out_of_order == old(self)@.out_of_order);
                assert(self@.srtt matches Some(s) ==> s <= rtt_bound());
                assert(self@.rto <= 8 * rtt_bound());
                self.rto = self.compute_rto();
                None
            },
            Some(srtt) => Some(RttSample { srtt, rttvar: self.rttvar, rtt }),
        }
    }

    /// Takes a smoothed round-trip time and variance, computed from an
    /// `RttSample` this connection handed back, and sets the retransmission
    /// timeout from them.
    pub fn set_rtt_estimate(&mut self, srtt: u128, rttvar: u128)
        requires
            old(self).wf(),
            srtt <= rtt_bound(),
            rttvar <= rtt_bound(),
        ensures
            final(self)@ == (ConnView {
                srtt: Some(srtt),
                rttvar,
                rto: max_u128((srtt + 4 * rttvar) as u128, millis(100)),
                ..old(self)@
            }),
            final(self).wf(),
    {
        self.srtt = Some(srtt);
        self.rttvar = rttvar;
        self.rto = self.compute_rto();
    }

    fn drain_retransmit_queue(&mut self, ack: SeqNum, now: u64) -> (r: Option<RttSample>)
        requires
            old(self).wf(),
        ensures
            (final(self)@, r) == drain_spec(old(self)@, ack.0, now),
            final(self).wf(),
    {
        let mut rtt_sample: Option<u128> = None;
        let ghost q0 = self@.retransmit;
        let ghost mut k: nat = 0;
        loop
            invariant
                self.wf(),
                k <= q0.len(),
                self@ == (ConnView { retransmit: q0.skip(k as int), ..old(self)@ }),
                acked_count(q0, ack.0) == k + acked_count(q0.skip(k as int), ack.0),
                rtt_sample == first_sample(q0, k, now),
                rtt_sample matches Some(x) ==> x <= u64::MAX,
            ensures
                k == acked_count(q0, ack.0),
                self@ == (ConnView { retransmit: q0.skip(k as int), ..old(self)@ }),
                rtt_sample == first_sample(q0, k, now),
                rtt_sample matches Some(x) ==> x <= u64::MAX,
                self.wf(),
            decreases self.retransmit_queue@.len(),
        {
            if self.retransmit_queue.len() == 0 {
                break;
            }
            let front = &self.retransmit_queue[0];
            let seg_end = front.seq.wrapping_add(front.seq_len);
            if seg_end.lte(ack) {
                let ghost rest = q0.skip(k as int);
                assert(rest[0] == self@.retransmit[0]);
                let ghost qq = self.retransmit_queue@;
                let seg = self.retransmit_queue.pop_front().unwrap();
                proof {
                    lemma_segs_rest(qq);
                    assert(rest.subrange(1, rest.len() as int) =~= q0.skip(k as int + 1));
                    lemma_first_sample_split(q0, k, k + 1, now);
                    assert(first_sample(rest.subrange(1, rest.len() as int), 0, now) is None);
                    assert(first_sample(rest, 1, now) == (if rest[0].retransmit_count == 0 {
                        Some(sat_sub64(now, rest[0].sent_at))
                    } else {
                        None
                    }));
                    assert(q0.skip(k as int).subrange(1, rest.len() as int) =~= q0.skip(k as int + 1));
                }
                if seg.retransmit_count == 0 && rtt_sample.is_none() {
                    rtt_sample = Some(now.saturating_sub(seg.sent_at) as u128);
                }
                proof {
                    k = k + 1;
                }
                assert(self@.retransmit =~= q0.skip(k as int));
                assert(self@ =~= ConnView { retransmit: q0.skip(k as int), ..old(self)@ });
            } else {
                break;
            }
        }
        match rtt_sample {
            Some(rtt) => self.update_rtt(rtt),
            None => None,
        }
    }
}

proof fn lemma_first_sample_split(q: Seq<SegmentView>, k: nat, n: nat, now: u64)
    requires
        k <= n,
        n <= q.len(),
    ensures
        first_sample(q, n, now) == (if first_sample(q, k, now) is Some {
            first_sample(q, k, now)
        } else {
            first_sample(q.skip(k as int), (n - k) as nat, now)
        }),
    decreases k,
{
    if k == 0 {
        assert(q.skip(0) =~= q);
    } else if q[0].retransmit_count == 0 {
    } else {
        let r = q.subrange(1, q.len() as int);
        lemma_first_sample_split(r, (k - 1) as nat, (n - 1) as nat, now);
        assert(r.skip(k - 1) =~= q.skip(k as int));
    }
}

/// Growing the congestion window by `mss * mss / cwnd` never wraps.
proof fn lemma_cwnd_growth(cwnd: u32, mss: u16)
    requires
        cwnd >= 1,
    ensures
        cwnd as int + (mss as int * mss as int) / cwnd as int <= u32::MAX,
{
    let m = mss as int * mss as int;
    assert(m <= 65535 * 65535) by (nonlinear_arith)
        requires
            m == mss as int * mss as int,
            mss <= 65535,
    ;
    if cwnd as int > m {
        vstd::arithmetic::div_mod::lemma_basic_div(m, cwnd as int);
    } else if cwnd >= 65536 {
        vstd::arithmetic::div_mod::lemma_div_is_ordered_by_denominator(m, 65536, cwnd as int);
        vstd::arithmetic::div_mod::lemma_div_is_ordered(m, 4294836225int, 65536);
    } else {
        vstd::arithmetic::div_mod::lemma_div_is_ordered_by_denominator(m, 1, cwnd as int);
    }
}

impl TcpConnection {
    fn process_ack(&mut self, hdr: &TcpHeader, tx_queue: &mut VecDeque<Vec<u8>>, now: u64) -> (r: Option<RttSample>)
        requires
            old(self).wf(),
        ensures
            (final(self)@, frames_view(final(tx_queue)@), r) == process_ack_spec(
                old(self)@,
                *hdr,
                frames_view(old(tx_queue)@),
                now,
            ),
            final(self).wf(),
    {
        if !hdr.flags.contains(TcpFlags::ack()) {
            return None;
        }
        if self.snd_una.lt(hdr.ack) && hdr.ack.lte(self.snd_nxt) {
            self.dup_ack_count = 0;
            self.snd_una = hdr.ack;
            self.snd_wnd = hdr.window;
            assert(self@.retransmit == old(self)@.retransmit);
            assert(self@.out_of_order == old(self)@.out_of_order);
            let sample = self.drain_retransmit_queue(hdr.ack, now);
            self.rto = self.compute_rto();
            let mss = self.mss as u32;
            if self.cwnd < self.ssthresh {
                self.cwnd = self.cwnd.wrapping_add(mss);
            } else {
                proof {
                    lemma_cwnd_growth(self.cwnd, self.mss);
                }
                assert(mss as int * mss as int <= 4294836225) by (nonlinear_arith)
                    requires
                        mss <= 65535,
                ;
                let grow = (mss * mss) / self.cwnd;
                assert(grow == (self.mss as int * self.mss as int) / self.cwnd as int);
                self.cwnd = self.cwnd.wrapping_add(grow);
            }
            sample
        } else if hdr.ack == self.snd_una && self.retransmit_queue.len() > 0 {
            self.dup_ack_count = self.dup_ack_count.saturating_add(1);
            if self.dup_ack_count == 3 {
                let mss = self.mss as u32;
                let half = self.cwnd / 2;
                let two = 2 * mss;
                self.ssthresh = if half >= two {
                    half
                } else {
                    two
                };
                self.cwnd = self.ssthresh + 3 * mss;
                let packet = refresh_checksum(
                    &self.retransmit_queue[0].data,
                    self.tuple.local_ip,
                    self.tuple.remote_ip,
                );
                let frame = self.encapsulate_ipv4_tcp(packet);
                push_frame(tx_queue, frame);
            }
            None
        } else {
            None
        }
    }
}

/// Appends the bytes of `src` to a byte queue.
pub fn extend_deque(d: &mut VecDeque<u8>, src: &[u8])
    ensures
        final(d)@ == old(d)@ + src@,
{
    let mut i: usize = 0;
    while i < src.len()
        invariant
            i <= src@.len(),
            d@ == old(d)@ + src@.take(i as int),
        decreases src@.len() - i,
    {
        d.push_back(src[i]);
        i = i + 1;
        assert(d@ =~= old(d)@ + src@.take(i as int));
    }
    assert(src@.take(i as int) =~= src@);
}

/// Takes the first `n` bytes off a byte queue.
pub fn drain_front(d: &mut VecDeque<u8>, n: usize) -> (r: Vec<u8>)
    requires
        n <= old(d)@.len(),
    ensures
        r@ == old(d)@.take(n as int),
        final(d)@ == old(d)@.skip(n as int),
{
    let mut out: Vec<u8> = Vec::new();
    let mut i: usize = 0;
    while i < n
        invariant
            i <= n,
            n <= old(d)@.len(),
            out@ == old(d)@.take(i as int),
            d@ == old(d)@.skip(i as int),
        decreases n - i,
    {
        let b = d.pop_front().unwrap();
        out.push(b);
        i = i + 1;
        assert(out@ =~= old(d)@.take(i as int));
        assert(d@ =~= old(d)@.skip(i as int));
    }
    out
}

/// `u32` keys are ordered as the map's specification needs.
proof fn lemma_u32_keys_ordered()
    ensures
        vstd::laws_cmp::obeys_cmp::<u32>(),
{
    broadcast use vstd::laws_cmp::group_laws_cmp;

}

proof fn lemma_ooo_remove(m: Map<u32, Vec<u8>>, k: u32)
    ensures
        ooo_view(m.remove(k)) == ooo_view(m).remove(k),
{
    assert(ooo_view(m.remove(k)) =~= ooo_view(m).remove(k));
}

proof fn lemma_ooo_insert(m: Map<u32, Vec<u8>>, k: u32, v: Vec<u8>)
    ensures
        ooo_view(m.insert(k, v)) == ooo_view(m).insert(k, v@),
{
    assert(ooo_view(m.insert(k, v)) =~= ooo_view(m).insert(k, v@));
}

impl TcpConnection {
    fn reassemble_out_of_order(&mut self)
        requires
            old(self).wf(),
        ensures
            ({
                let r = reassemble(
                    old(self)@.receive_buffer,
                    old(self)@.rcv_nxt,
                    old(self)@.out_of_order,
                );
                final(self)@ == ConnView {
                    receive_buffer: r.0,
                    rcv_nxt: r.1,
                    out_of_order: r.2,
                    ..old(self)@
                }
            }),
            final(self).wf(),
    {
        broadcast use vstd::std_specs::btree::group_btree_axioms;

        proof {
            lemma_u32_keys_ordered();
        }

        let ghost r = reassemble(
            old(self)@.receive_buffer,
            old(self)@.rcv_nxt,
            old(self)@.out_of_order,
        );
        loop
            invariant
                self.wf(),
                old(self).wf(),
                reassemble(self@.receive_buffer, self@.rcv_nxt, self@.out_of_order) == r,
                self@ == (ConnView {
                    receive_buffer: self@.receive_buffer,
                    rcv_nxt: self@.rcv_nxt,
                    out_of_order: self@.out_of_order,
                    ..old(self)@
                }),
            ensures
                self.wf(),
                self@ == (ConnView {
                    receive_buffer: r.0,
                    rcv_nxt: r.1,
                    out_of_order: r.2,
                    ..old(self)@
                }),
            decreases self.out_of_order@.dom().len(),
        {
            let key = self.rcv_nxt.0;
            let ghost m = self.out_of_order@;
            match self.out_of_order.remove(&key) {
                Some(stored) => {
                    proof {
                        lemma_ooo_remove(m, key);
                        assert(self@.out_of_order.dom().finite());
                    }
                    extend_deque(&mut self.receive_buffer, stored.as_slice());
                    proof {
                        lemma_len32(stored.len());
                    }
                    self.rcv_nxt = self.rcv_nxt.wrapping_add(stored.len() as u32);
                    assert(self.out_of_order@.dom().finite());
                    assert(self@.out_of_order.dom() =~= self.out_of_order@.dom());
                    assert(self@.retransmit == old(self)@.retransmit);
                },
                None => {
                    assert(self.out_of_order@ =~= m);
                    break;
                },
            }
        }
    }

    fn established_data(&mut self, seq: SeqNum, payload: &[u8], tx_queue: &mut VecDeque<Vec<u8>>)
        requires
            old(self).wf(),
        ensures
            (final(self)@, frames_view(final(tx_queue)@)) == established_data_spec(
                old(self)@,
                seq.0,
                payload@,
                frames_view(old(tx_queue)@),
            ),
            final(self).wf(),
    {
        broadcast use vstd::std_specs::btree::group_btree_axioms;

        proof {
            lemma_u32_keys_ordered();
        }

        if seq == self.rcv_nxt {
            extend_deque(&mut self.receive_buffer, payload);
            proof {
                lemma_len32(payload.len());
            }
            self.rcv_nxt = self.rcv_nxt.wrapping_add(payload.len() as u32);
            self.reassemble_out_of_order();
            self.send_empty_ack(tx_queue);
        } else if self.rcv_nxt.lt(seq) {
            let ghost m = self.out_of_order@;
            let stored = crate::frame::copy_bytes(payload);
            proof {
                lemma_ooo_insert(m, seq.0, stored);
            }
            self.out_of_order.insert(seq.0, stored);
            self.send_empty_ack(tx_queue);
        } else {
            self.send_empty_ack(tx_queue);
        }
    }
}

impl TcpConnection {
    fn on_syn_sent(&mut self, hdr: &TcpHeader, tx_queue: &mut VecDeque<Vec<u8>>, now: u64) -> (r: Option<RttSample>)
        requires
            old(self).wf(),
        ensures
            (final(self)@, frames_view(final(tx_queue)@), r) == syn_sent_spec(
                old(self)@,
                *hdr,
                frames_view(old(tx_queue)@),
                now,
            ),
            final(self).wf(),
    {
        if hdr.flags.contains(TcpFlags::syn()) && hdr.flags.contains(TcpFlags::ack()) {
            if hdr.ack == self.snd_nxt {
                self.irs = hdr.seq;
                self.rcv_nxt = hdr.seq.wrapping_add(1);
                self.snd_una = hdr.ack;
                self.snd_wnd = hdr.window;
                self.retransmit_queue.clear();
                self.state = TcpState::Established;
                assert(self@.retransmit =~= Seq::<SegmentView>::empty());
                self.send_empty_ack(tx_queue);
            }
        } else if hdr.flags.contains(TcpFlags::syn()) {
            self.irs = hdr.seq;
            self.rcv_nxt = hdr.seq.wrapping_add(1);
            self.state = TcpState::SynReceived;
            assert(self@.retransmit == old(self)@.retransmit);
            self.send_syn_ack(tx_queue, now);
        }
        None
    }

    fn on_syn_received(&mut self, hdr: &TcpHeader) -> (r: Option<RttSample>)
        requires
            old(self).wf(),
        ensures
            (final(self)@, r) == ({
                let s = syn_received_spec(old(self)@, *hdr, Seq::empty());
                (s.0, s.2)
            }),
            final(self).wf(),
    {
        if hdr.flags.contains(TcpFlags::ack()) && hdr.ack == self.snd_nxt {
            self.state = TcpState::Established;
            self.snd_una = hdr.ack;
            self.snd_wnd = hdr.window;
            self.retransmit_queue.clear();
            assert(self@.retransmit =~= Seq::<SegmentView>::empty());
        }
        None
    }

    fn on_established(
        &mut self,
        hdr: &TcpHeader,
        payload: &[u8],
        tx_queue: &mut VecDeque<Vec<u8>>,
        now: u64,
    ) -> (r: Option<RttSample>)
        requires
            old(self).wf(),
        ensures
            (final(self)@, frames_view(final(tx_queue)@), r) == established_spec(
                old(self)@,
                *hdr,
                payload@,
                frames_view(old(tx_queue)@),
                now,
            ),
            final(self).wf(),
    {
        let sample = self.process_ack(hdr, tx_queue, now);
        if payload.len() > 0 {
            self.established_data(hdr.seq, payload, tx_queue);
        }
        if hdr.flags.contains(TcpFlags::fin()) {
            self.rcv_nxt = self.rcv_nxt.wrapping_add(1);
            self.state = TcpState::CloseWait;
            self.send_empty_ack(tx_queue);
        }
        sample
    }

    fn on_fin_wait1(&mut self, hdr: &TcpHeader, tx_queue: &mut VecDeque<Vec<u8>>, now: u64) -> (r: Option<RttSample>)
        requires
            old(self).wf(),
            now <= max_now(),
        ensures
            (final(self)@, frames_view(final(tx_queue)@), r) == fin_wait1_spec(
                old(self)@,
                *hdr,
                frames_view(old(tx_queue)@),
                now,
            ),
            final(self).wf(),
    {
        let sample = self.process_ack(hdr, tx_queue, now);
        if hdr.flags.contains(TcpFlags::fin()) {
            self.rcv_nxt = self.rcv_nxt.wrapping_add(1);
            self.send_empty_ack(tx_queue);
            if self.snd_una == self.snd_nxt {
                self.state = TcpState::TimeWait;
                self.time_wait_expiry = Some(now + 2_000_000_000);
            } else {
                self.state = TcpState::Closing;
            }
        } else if self.snd_una == self.snd_nxt {
            self.state = TcpState::FinWait2;
        }
        sample
    }

    fn on_fin_wait2(
        &mut self,
        hdr: &TcpHeader,
        payload: &[u8],
        tx_queue: &mut VecDeque<Vec<u8>>,
        now: u64,
    ) -> (r: Option<RttSample>)
        requires
            old(self).wf(),
            now <= max_now(),
        ensures
            (final(self)@, frames_view(final(tx_queue)@), r) == fin_wait2_spec(
                old(self)@,
                *hdr,
                payload@,
                frames_view(old(tx_queue)@),
                now,
            ),
            final(self).wf(),
    {
        let sample = self.process_ack(hdr, tx_queue, now);
        if payload.len() > 0 {
            if hdr.seq == self.rcv_nxt {
                extend_deque(&mut self.receive_buffer, payload);
                proof {
                    lemma_len32(payload.len());
                }
                self.rcv_nxt = self.rcv_nxt.wrapping_add(payload.len() as u32);
                self.send_empty_ack(tx_queue);
            }
        }
        if hdr.flags.contains(TcpFlags::fin()) {
            self.rcv_nxt = self.rcv_nxt.wrapping_add(1);
            self.send_empty_ack(tx_queue);
            self.state = TcpState::TimeWait;
            self.time_wait_expiry = Some(now + 2_000_000_000);
        }
        sample
    }

    /// What the connection does with a segment addressed to it: a reset
    /// closes it in any state; otherwise the state decides. Frames to send go
    /// to the back of `tx_queue`. Returns a round-trip measurement when one
    /// has to be smoothed into the current estimate (see `set_rtt_estimate`).
    pub fn process_segment(
        &mut self,
        hdr: TcpHeader,
        payload: &[u8],
        tx_queue: &mut VecDeque<Vec<u8>>,
        now: u64,
    ) -> (r: Option<RttSample>)
        requires
            old(self).wf(),
            now <= max_now(),
        ensures
            (final(self)@, frames_view(final(tx_queue)@), r) == process_segment_spec(
                old(self)@,
                hdr,
                payload@,
                frames_view(old(tx_queue)@),
                now,
            ),
            final(self).wf(),
            final(self).tuple == old(self).tuple,
    {
        reveal(process_segment_spec);
        if hdr.flags.contains(TcpFlags::rst()) {
            self.state = TcpState::Closed;
            return None;
        }
        match self.state {
            TcpState::SynSent => self.on_syn_sent(&hdr, tx_queue, now),
            TcpState::SynReceived => self.on_syn_received(&hdr),
            TcpState::Established => self.on_established(&hdr, payload, tx_queue, now),
            TcpState::FinWait1 => self.on_fin_wait1(&hdr, tx_queue, now),
            TcpState::FinWait2 => self.on_fin_wait2(&hdr, payload, tx_queue, now),
            TcpState::Closing => {
                let sample = self.process_ack(&hdr, tx_queue, now);
                if self.snd_una == self.snd_nxt {
                    self.state = TcpState::TimeWait;
                    self.time_wait_expiry = Some(now + 2_000_000_000);
                }
                sample
            },
            TcpState::CloseWait => self.process_ack(&hdr, tx_queue, now),
            TcpState::LastAck => {
                if hdr.flags.contains(TcpFlags::ack()) && hdr.ack == self.snd_nxt {
                    self.state = TcpState::Closed;
                }
                None
            },
            TcpState::TimeWait => {
                if hdr.flags.contains(TcpFlags::fin()) {
                    self.send_empty_ack(tx_queue);
                    self.time_wait_expiry = Some(now + 2_000_000_000);
                }
                None
            },
            _ => None,
        }
    }
}

impl TcpConnection {
    /// Sends as much of the send buffer as the windows allow, in segments of
    /// at most `mss` bytes, keeping each for retransmission.
    pub fn flush_send_buffer(&mut self, tx_queue: &mut VecDeque<Vec<u8>>, now: u64)
        requires
            old(self).wf(),
        ensures
            (final(self)@, frames_view(final(tx_queue)@)) == flush_spec(
                old(self)@,
                frames_view(old(tx_queue)@),
                now,
            ),
            final(self).wf(),
            final(self).tuple == old(self).tuple,
    {
        loop
            invariant
                self.wf(),
                self.tuple == old(self).tuple,
                flush_spec(self@, frames_view(tx_queue@), now) == flush_spec(
                    old(self)@,
                    frames_view(old(tx_queue)@),
                    now,
                ),
            ensures
                self.wf(),
                self.tuple == old(self).tuple,
                (self@, frames_view(tx_queue@)) == flush_spec(
                    old(self)@,
                    frames_view(old(tx_queue)@),
                    now,
                ),
            decreases self.send_buffer@.len(),
        {
            if self.send_buffer.len() == 0 {
                break;
            }
            let in_flight = self.snd_nxt.wrapping_sub(self.snd_una);
            let wnd = self.snd_wnd as u32;
            let limit = if self.cwnd <= wnd {
                self.cwnd
            } else {
                wnd
            };
            let window = limit.saturating_sub(in_flight);
            if window == 0 {
                break;
            }
            let mut chunk_len = window as usize;
            if (self.mss as usize) < chunk_len {
                chunk_len = self.mss as usize;
            }
            if self.send_buffer.len() < chunk_len {
                chunk_len = self.send_buffer.len();
            }
            if chunk_len == 0 {
                break;
            }
            let ghost c0 = self@;
            assert(chunk_len == flush_len(c0));
            let chunk = drain_front(&mut self.send_buffer, chunk_len);
            let hdr = self.make_header(self.snd_nxt, TcpFlags::ack().union(TcpFlags::psh()));
            assert(0x10u8 | 0x08u8 == 0x18u8) by (bit_vector);
            let seg = build_segment(&hdr, chunk.as_slice(), self.tuple.local_ip, self.tuple.remote_ip);
            let copy = copy_vec(&seg);
            push_frame(tx_queue, self.encapsulate_ipv4_tcp(copy));
            let ghost q = self.retransmit_queue@;
            let s = SentSegment {
                seq: self.snd_nxt,
                seq_len: chunk.len() as u32,
                data: seg,
                sent_at: now,
                retransmit_count: 0,
            };
            proof {
                lemma_segs_push(q, s);
            }
            self.retransmit_queue.push_back(s);
            self.snd_nxt = self.snd_nxt.wrapping_add(chunk.len() as u32);
            assert(self@ =~= flush_next(c0, now));
        }
    }
}

impl TcpConnection {
    fn drop_acked_segments(&mut self)
        requires
            old(self).wf(),
        ensures
            final(self)@ == drop_acked(old(self)@),
            final(self).wf(),
    {
        let ghost q0 = self@.retransmit;
        let ghost ack = self.snd_una.0;
        let ghost mut k: nat = 0;
        loop
            invariant
                self.wf(),
                k <= q0.len(),
                ack == self.snd_una.0,
                self@ == (ConnView { retransmit: q0.skip(k as int), ..old(self)@ }),
                acked_count(q0, ack) == k + acked_count(q0.skip(k as int), ack),
            ensures
                self.wf(),
                k == acked_count(q0, ack),
                self@ == (ConnView { retransmit: q0.skip(k as int), ..old(self)@ }),
            decreases self.retransmit_queue@.len(),
        {
            if self.retransmit_queue.len() == 0 {
                assert(q0.skip(k as int).len() == 0);
                break;
            }
            let front = &self.retransmit_queue[0];
            assert(q0.skip(k as int)[0] == self@.retransmit[0]);
            if front.seq.wrapping_add(front.seq_len).lte(self.snd_una) {
                let ghost rest = q0.skip(k as int);
                assert(rest[0] == self@.retransmit[0]);
                let ghost qq = self.retransmit_queue@;
                self.retransmit_queue.pop_front();
                proof {
                    lemma_segs_rest(qq);
                    assert(rest.subrange(1, rest.len() as int) =~= q0.skip(k as int + 1));
                    k = k + 1;
                }
                assert(self@.retransmit =~= q0.skip(k as int));
                assert(self@ =~= ConnView { retransmit: q0.skip(k as int), ..old(self)@ });
            } else {
                break;
            }
        }
        assert(self@ =~= drop_acked(old(self)@));
    }

    /// Closes the connection when TimeWait has run out; otherwise forgets the
    /// acknowledged segments and sends the oldest unacknowledged one again
    /// when it has waited a full timeout, backing the timeout off.
    pub fn handle_timers(&mut self, now: u64, tx_queue: &mut VecDeque<Vec<u8>>)
        requires
            old(self).wf(),
            !timers_overflow(old(self)@, now),
        ensures
            (final(self)@, frames_view(final(tx_queue)@)) == handle_timers_spec(
                old(self)@,
                now,
                frames_view(old(tx_queue)@),
            ),
            final(self).wf(),
            final(self).tuple == old(self).tuple,
    {
        if let Some(expiry) = self.time_wait_expiry {
            if now >= expiry {
                self.state = TcpState::Closed;
                return ;
            }
        }
        self.drop_acked_segments();
        if self.retransmit_queue.len() > 0 {
            let ghost c1 = self@;
            assert(c1.retransmit[0].data.len() >= 18);
            let waited = now.saturating_sub(self.retransmit_queue[0].sent_at) as u128;
            if waited >= self.rto {
                let mss = self.mss as u32;
                let half = self.cwnd / 2;
                let two = 2 * mss;
                self.ssthresh = if half >= two {
                    half
                } else {
                    two
                };
                self.cwnd = mss;
                let doubled = self.rto * 2;
                self.rto = if doubled <= 60_000_000_000 {
                    doubled
                } else {
                    60_000_000_000
                };
                assert(self.retransmit_queue@[0].data@ == c1.retransmit[0].data);
                let packet = refresh_checksum(
                    &self.retransmit_queue[0].data,
                    self.tuple.local_ip,
                    self.tuple.remote_ip,
                );
                let frame = self.encapsulate_ipv4_tcp(packet);
                push_frame(tx_queue, frame);
                let ghost qq = self.retransmit_queue@;
                let mut front = self.retransmit_queue.pop_front().unwrap();
                front.sent_at = now;
                front.retransmit_count = front.retransmit_count + 1;
                let ghost front_v = front@;
                self.retransmit_queue.push_front(front);
                proof {
                    assert(segs_view(self.retransmit_queue@) =~= segs_view(qq).update(0, front_v));
                }
                assert(self@.retransmit =~= drop_acked(old(self)@).retransmit.update(0, front_v));
            }
        }
    }
}

/// Well-formedness depends only on the segment size, the congestion
/// state, the round-trip estimates and the stored segments.
pub proof fn lemma_wf_same(a: ConnView, b: ConnView)
    requires
        a.wf(),
        b.mss == a.mss,
        b.cwnd == a.cwnd,
        b.ssthresh == a.ssthresh,
        b.srtt == a.srtt,
        b.rttvar == a.rttvar,
        b.rto == a.rto,
        b.retransmit == a.retransmit,
        b.out_of_order == a.out_of_order,
    ensures
        b.wf(),
{
}

/// A copy of a byte vector.
pub fn copy_vec(v: &Vec<u8>) -> (r: Vec<u8>)
    ensures
        r@ == v@,
{
    crate::frame::copy_bytes(v.as_slice())
}


/// `process_ack`: an acknowledgement of new data advances `snd_una`, takes
/// the peer's window, drops what it covers from the retransmission queue and
/// opens the congestion window (by a segment below the threshold, by a
/// fraction of one above it); the third duplicate acknowledgement of data in
/// flight halves the threshold and sends the oldest segment again.
pub open spec fn process_ack_spec(c: ConnView, hdr: TcpHeader, tx: Seq<Seq<u8>>, now: u64) -> (
    ConnView,
    Seq<Seq<u8>>,
    Option<RttSample>,
) {
    let ack = hdr.ack.0;
    if !has_bits(hdr.flags.bits, 0x10) {
        (c, tx, None)
    } else if seq_lt(c.snd_una, ack) && seq_lte(ack, c.snd_nxt) {
        let c1 = ConnView { dup_ack_count: 0, snd_una: ack, snd_wnd: hdr.window, ..c };
        let (c2, sample) = drain_spec(c1, ack, now);
        let c3 = ConnView { rto: c2.computed_rto(), ..c2 };
        let cwnd = if c3.cwnd < c3.ssthresh {
            add32(c3.cwnd, c3.mss as u32)
        } else {
            add32(c3.cwnd, ((c3.mss as int * c3.mss as int) / c3.cwnd as int) as u32)
        };
        (ConnView { cwnd, ..c3 }, tx, sample)
    } else if ack == c.snd_una && c.retransmit.len() > 0 {
        let dup: u8 = if c.dup_ack_count == 255 {
            255
        } else {
            (c.dup_ack_count + 1) as u8
        };
        if dup == 3 {
            let ss = max_u32((c.cwnd / 2) as u32, (2 * c.mss) as u32);
            (
                ConnView { dup_ack_count: dup, ssthresh: ss, cwnd: (ss + 3 * c.mss) as u32, ..c },
                tx.push(c.resend_frame(c.retransmit[0])),
                None,
            )
        } else {
            (ConnView { dup_ack_count: dup, ..c }, tx, None)
        }
    } else {
        (c, tx, None)
    }
}

/// Moves the stored out-of-order data that starts at `nxt` to the end of the
/// received bytes, as long as there is some.
pub open spec fn reassemble(rb: Seq<u8>, nxt: u32, ooo: Map<u32, Seq<u8>>) -> (
    Seq<u8>,
    u32,
    Map<u32, Seq<u8>>,
)
    decreases ooo.dom().len(),
    when ooo.dom().finite()
{
    if ooo.contains_key(nxt) {
        let d = ooo[nxt];
        reassemble(rb + d, add32(nxt, len32(d.len())), ooo.remove(nxt))
    } else {
        (rb, nxt, ooo)
    }
}

/// Data received in Established: in order, it is delivered with whatever
/// stored data now follows it; ahead of `rcv_nxt`, it is stored; behind, it
/// is dropped. Each case answers with an acknowledgement.
pub open spec fn established_data_spec(c: ConnView, seq: u32, payload: Seq<u8>, tx: Seq<Seq<u8>>) -> (
    ConnView,
    Seq<Seq<u8>>,
) {
    if seq == c.rcv_nxt {
        let (rb, nxt, ooo) = reassemble(
            c.receive_buffer + payload,
            add32(c.rcv_nxt, len32(payload.len())),
            c.out_of_order,
        );
        let c1 = ConnView { receive_buffer: rb, rcv_nxt: nxt, out_of_order: ooo, ..c };
        (c1, tx.push(c1.ack_frame()))
    } else if seq_lt(c.rcv_nxt, seq) {
        let c1 = ConnView { out_of_order: c.out_of_order.insert(seq, payload), ..c };
        (c1, tx.push(c1.ack_frame()))
    } else {
        (c, tx.push(c.ack_frame()))
    }
}

/// Two seconds in nanoseconds: how long TimeWait lasts.
pub open spec fn time_wait_ns() -> u64 {
    2_000_000_000
}

/// The latest time the stack accepts, so that a TimeWait expiry still fits.
pub open spec fn max_now() -> u64 {
    (u64::MAX - time_wait_ns()) as u64
}

/// Enters TimeWait, to expire two seconds after `now`.
pub open spec fn enter_time_wait(c: ConnView, now: u64) -> ConnView {
    ConnView { state: TcpState::TimeWait, time_wait_expiry: Some((now + time_wait_ns()) as u64), ..c }
}

/// `c` with one more sequence number received (a FIN).
pub open spec fn count_fin(c: ConnView) -> ConnView {
    ConnView { rcv_nxt: add32(c.rcv_nxt, 1), ..c }
}

/// A segment in SynSent: SYN+ACK acknowledging our SYN establishes the
/// connection and is acknowledged; a bare SYN (simultaneous open) moves to
/// SynReceived and answers SYN+ACK.
pub open spec fn syn_sent_spec(c: ConnView, hdr: TcpHeader, tx: Seq<Seq<u8>>, now: u64) -> (
    ConnView,
    Seq<Seq<u8>>,
    Option<RttSample>,
) {
    let f = hdr.flags.bits;
    if has_bits(f, 0x02) && has_bits(f, 0x10) {
        if hdr.ack.0 == c.snd_nxt {
            let c1 = ConnView {
                irs: hdr.seq.0,
                rcv_nxt: add32(hdr.seq.0, 1),
                snd_una: hdr.ack.0,
                snd_wnd: hdr.window,
                retransmit: Seq::empty(),
                state: TcpState::Established,
                ..c
            };
            (c1, tx.push(c1.ack_frame()), None)
        } else {
            (c, tx, None)
        }
    } else if has_bits(f, 0x02) {
        let c1 = ConnView {
            irs: hdr.seq.0,
            rcv_nxt: add32(hdr.seq.0, 1),
            state: TcpState::SynReceived,
            ..c
        };
        let (c2, tx2) = syn_ack_spec(c1, tx, now);
        (c2, tx2, None)
    } else {
        (c, tx, None)
    }
}

/// A segment in SynReceived: the acknowledgement of our SYN establishes the
/// connection.
pub open spec fn syn_received_spec(c: ConnView, hdr: TcpHeader, tx: Seq<Seq<u8>>) -> (
    ConnView,
    Seq<Seq<u8>>,
    Option<RttSample>,
) {
    if has_bits(hdr.flags.bits, 0x10) && hdr.ack.0 == c.snd_nxt {
        (
            ConnView {
                state: TcpState::Established,
                snd_una: hdr.ack.0,
                snd_wnd: hdr.window,
                retransmit: Seq::empty(),
                ..c
            },
            tx,
            None,
        )
    } else {
        (c, tx, None)
    }
}

/// A segment in Established: the acknowledgement, then the data, then a FIN,
/// which moves to CloseWait and is acknowledged.
pub open spec fn established_spec(
    c: ConnView,
    hdr: TcpHeader,
    payload: Seq<u8>,
    tx: Seq<Seq<u8>>,
    now: u64,
) -> (ConnView, Seq<Seq<u8>>, Option<RttSample>) {
    let (c1, tx1, sample) = process_ack_spec(c, hdr, tx, now);
    let (c2, tx2) = if payload.len() > 0 {
        established_data_spec(c1, hdr.seq.0, payload, tx1)
    } else {
        (c1, tx1)
    };
    if has_bits(hdr.flags.bits, 0x01) {
        let c3 = ConnView { state: TcpState::CloseWait, ..count_fin(c2) };
        (c3, tx2.push(c3.ack_frame()), sample)
    } else {
        (c2, tx2, sample)
    }
}

/// A segment in FinWait1: the acknowledgement; then a FIN is acknowledged
/// and leads to TimeWait if our FIN is acknowledged too, else to Closing;
/// without a FIN, the acknowledgement of our FIN leads to FinWait2.
pub open spec fn fin_wait1_spec(c: ConnView, hdr: TcpHeader, tx: Seq<Seq<u8>>, now: u64) -> (
    ConnView,
    Seq<Seq<u8>>,
    Option<RttSample>,
) {
    let (c1, tx1, sample) = process_ack_spec(c, hdr, tx, now);
    if has_bits(hdr.flags.bits, 0x01) {
        let c2 = count_fin(c1);
        let tx2 = tx1.push(c2.ack_frame());
        if c2.snd_una == c2.snd_nxt {
            (enter_time_wait(c2, now), tx2, sample)
        } else {
            (ConnView { state: TcpState::Closing, ..c2 }, tx2, sample)
        }
    } else if c1.snd_una == c1.snd_nxt {
        (ConnView { state: TcpState::FinWait2, ..c1 }, tx1, sample)
    } else {
        (c1, tx1, sample)
    }
}

/// A segment in FinWait2: the acknowledgement; in-order data is delivered
/// and acknowledged (nothing is stored out of order); a FIN is acknowledged
/// and leads to TimeWait.
pub open spec fn fin_wait2_spec(
    c: ConnView,
    hdr: TcpHeader,
    payload: Seq<u8>,
    tx: Seq<Seq<u8>>,
    now: u64,
) -> (ConnView, Seq<Seq<u8>>, Option<RttSample>) {
    let (c1, tx1, sample) = process_ack_spec(c, hdr, tx, now);
    let (c2, tx2) = if payload.len() > 0 && hdr.seq.0 == c1.rcv_nxt {
        let c2 = ConnView {
            receive_buffer: c1.receive_buffer + payload,
            rcv_nxt: add32(c1.rcv_nxt, len32(payload.len())),
            ..c1
        };
        (c2, tx1.push(c2.ack_frame()))
    } else {
        (c1, tx1)
    };
    if has_bits(hdr.flags.bits, 0x01) {
        let c3 = count_fin(c2);
        (enter_time_wait(c3, now), tx2.push(c3.ack_frame()), sample)
    } else {
        (c2, tx2, sample)
    }
}

/// A segment in Closing: the acknowledgement of our FIN leads to TimeWait.
pub open spec fn closing_spec(c: ConnView, hdr: TcpHeader, tx: Seq<Seq<u8>>, now: u64) -> (
    ConnView,
    Seq<Seq<u8>>,
    Option<RttSample>,
) {
    let (c1, tx1, sample) = process_ack_spec(c, hdr, tx, now);
    if c1.snd_una == c1.snd_nxt {
        (enter_time_wait(c1, now), tx1, sample)
    } else {
        (c1, tx1, sample)
    }
}

/// A segment in LastAck: the acknowledgement of our FIN closes.
pub open spec fn last_ack_spec(c: ConnView, hdr: TcpHeader, tx: Seq<Seq<u8>>) -> (
    ConnView,
    Seq<Seq<u8>>,
    Option<RttSample>,
) {
    if has_bits(hdr.flags.bits, 0x10) && hdr.ack.0 == c.snd_nxt {
        (ConnView { state: TcpState::Closed, ..c }, tx, None)
    } else {
        (c, tx, None)
    }
}

/// A segment in TimeWait: a repeated FIN is acknowledged again and restarts
/// the two-second wait.
pub open spec fn time_wait_spec(c: ConnView, hdr: TcpHeader, tx: Seq<Seq<u8>>, now: u64) -> (
    ConnView,
    Seq<Seq<u8>>,
    Option<RttSample>,
) {
    if has_bits(hdr.flags.bits, 0x01) {
        (
            ConnView { time_wait_expiry: Some((now + time_wait_ns()) as u64), ..c },
            tx.push(c.ack_frame()),
            None,
        )
    } else {
        (c, tx, None)
    }
}

/// `process_segment`: what a connection does with a segment addressed to
/// it. A reset closes it in any state; otherwise the state decides.
#[verifier::opaque]
pub open spec fn process_segment_spec(
    c: ConnView,
    hdr: TcpHeader,
    payload: Seq<u8>,
    tx: Seq<Seq<u8>>,
    now: u64,
) -> (ConnView, Seq<Seq<u8>>, Option<RttSample>) {
    if has_bits(hdr.flags.bits, 0x04) {
        (ConnView { state: TcpState::Closed, ..c }, tx, None)
    } else {
        match c.state {
            TcpState::SynSent => syn_sent_spec(c, hdr, tx, now),
            TcpState::SynReceived => syn_received_spec(c, hdr, tx),
            TcpState::Established => established_spec(c, hdr, payload, tx, now),
            TcpState::FinWait1 => fin_wait1_spec(c, hdr, tx, now),
            TcpState::FinWait2 => fin_wait2_spec(c, hdr, payload, tx, now),
            TcpState::Closing => closing_spec(c, hdr, tx, now),
            TcpState::CloseWait => process_ack_spec(c, hdr, tx, now),
            TcpState::LastAck => last_ack_spec(c, hdr, tx),
            TcpState::TimeWait => time_wait_spec(c, hdr, tx, now),
            _ => (c, tx, None),
        }
    }
}

/// How much room the windows leave beyond what is in flight.
pub open spec fn send_window(c: ConnView) -> u32 {
    let in_fl = seq_diff(c.snd_nxt, c.snd_una);
    let limit = min_u32(c.cwnd, c.snd_wnd as u32);
    if limit >= in_fl {
        (limit - in_fl) as u32
    } else {
        0
    }
}

/// The size of the next chunk `flush_send_buffer` sends: the room in the
/// windows, at most one segment size, at most what is buffered.
pub open spec fn flush_len(c: ConnView) -> int {
    let w = send_window(c) as int;
    let n0 = if w <= c.mss as int {
        w
    } else {
        c.mss as int
    };
    if n0 <= c.send_buffer.len() {
        n0
    } else {
        c.send_buffer.len() as int
    }
}

/// The ACK+PSH segment that carries the next chunk.
pub open spec fn flush_segment(c: ConnView) -> Seq<u8> {
    c.segment(c.snd_nxt, 0x18, c.send_buffer.take(flush_len(c)))
}

/// The connection after sending the next chunk: the chunk leaves the send
/// buffer, its segment is kept for retransmission and `snd_nxt` counts it.
pub open spec fn flush_next(c: ConnView, now: u64) -> ConnView {
    let n = flush_len(c);
    ConnView {
        send_buffer: c.send_buffer.skip(n),
        retransmit: c.retransmit.push(
            SegmentView {
                seq: c.snd_nxt,
                seq_len: n as u32,
                data: flush_segment(c),
                sent_at: now,
                retransmit_count: 0,
            },
        ),
        snd_nxt: add32(c.snd_nxt, n as u32),
        ..c
    }
}

/// `flush_send_buffer`: while there are bytes to send and the smaller of the
/// congestion and send windows leaves room beyond what is in flight, sends
/// the next chunk of at most one segment size as an ACK+PSH segment at
/// `snd_nxt` and keeps it for retransmission.
pub open spec fn flush_spec(c: ConnView, tx: Seq<Seq<u8>>, now: u64) -> (ConnView, Seq<Seq<u8>>)
    decreases c.send_buffer.len(),
{
    if flush_len(c) <= 0 {
        (c, tx)
    } else {
        flush_spec(flush_next(c, now), tx.push(c.frame(flush_segment(c))), now)
    }
}

/// The connection after dropping the segments `snd_una` covers.
pub open spec fn drop_acked(c: ConnView) -> ConnView {
    ConnView { retransmit: c.retransmit.skip(acked_count(c.retransmit, c.snd_una) as int), ..c }
}

/// Whether the retransmission timer of `c` has run out at `now`.
pub open spec fn rto_expired(c: ConnView, now: u64) -> bool {
    let c1 = drop_acked(c);
    c1.retransmit.len() > 0 && sat_sub64(now, c1.retransmit[0].sent_at) >= c1.rto
}

/// Whether TimeWait has run out at `now`.
pub open spec fn time_wait_over(c: ConnView, now: u64) -> bool {
    c.time_wait_expiry matches Some(e) && now >= e
}

/// Whether `handle_timers` at `now` would have to count a retransmission of
/// a segment already sent 2^32 - 1 times again, where the count overflows.
pub open spec fn timers_overflow(c: ConnView, now: u64) -> bool {
    !time_wait_over(c, now) && rto_expired(c, now) && drop_acked(c).retransmit[0].retransmit_count
        == u32::MAX
}

/// `handle_timers`: an expired TimeWait closes the connection; otherwise the
/// acknowledged segments are dropped and, when the oldest one left has waited
/// a full timeout, the threshold is halved, the window shrinks to one
/// segment, the timeout doubles up to 60 s and that segment goes out again.
pub open spec fn handle_timers_spec(c: ConnView, now: u64, tx: Seq<Seq<u8>>) -> (ConnView, Seq<Seq<u8>>) {
    if time_wait_over(c, now) {
        (ConnView { state: TcpState::Closed, ..c }, tx)
    } else {
        let c1 = drop_acked(c);
        if rto_expired(c, now) {
            let seg = c1.retransmit[0];
            let seg2 = SegmentView { sent_at: now, retransmit_count: (seg.retransmit_count + 1) as u32, ..seg };
            (
                ConnView {
                    ssthresh: max_u32((c1.cwnd / 2) as u32, (2 * c1.mss) as u32),
                    cwnd: c1.mss as u32,
                    rto: min_u128((c1.rto * 2) as u128, (60_000u128 * 1_000_000) as u128),
                    retransmit: c1.retransmit.update(0, seg2),
                    ..c1
                },
                tx.push(c1.resend_frame(seg)),
            )
        } else {
            (c1, tx)
        }
    }
}


/// One tick of a connection: its timers, then as much of its send buffer as
/// the windows allow.
#[verifier::opaque]
pub open spec fn tick_one(c: ConnView, tx: Seq<Seq<u8>>, now: u64) -> (ConnView, Seq<Seq<u8>>) {
    let (c1, tx1) = handle_timers_spec(c, now, tx);
    flush_spec(c1, tx1, now)
}

impl TcpConnection {
    /// One tick: `handle_timers`, then `flush_send_buffer`.
    pub fn tick(&mut self, tx_queue: &mut VecDeque<Vec<u8>>, now: u64)
        requires
            old(self).wf(),
            !timers_overflow(old(self)@, now),
        ensures
            (final(self)@, frames_view(final(tx_queue)@)) == tick_one(old(self)@, frames_view(old(tx_queue)@), now),
            final(self).wf(),
            final(self).tuple == old(self).tuple,
    {
        reveal(tick_one);
        self.handle_timers(now, tx_queue);
        self.flush_send_buffer(tx_queue, now);
    }
}


/// The payloads of the segments of `q`, one after the other.
pub open spec fn payloads(q: Seq<SegmentView>) -> Seq<u8>
    decreases q.len(),
{
    if q.len() == 0 {
        Seq::empty()
    } else {
        payloads(q.drop_last()) + q.last().data.skip(20)
    }
}

/// The bytes sent and not yet acknowledged.
pub open spec fn in_flight(c: ConnView) -> u32 {
    seq_diff(c.snd_nxt, c.snd_una)
}

/// The most the windows let be in flight.
pub open spec fn send_limit(c: ConnView) -> u32 {
    min_u32(c.cwnd, c.snd_wnd as u32)
}

proof fn lemma_payloads_concat(a: Seq<SegmentView>, b: Seq<SegmentView>)
    ensures
        payloads(a + b) == payloads(a) + payloads(b),
    decreases b.len(),
{
    if b.len() == 0 {
        assert(a + b =~= a);
        assert(payloads(a) + payloads(b) =~= payloads(a));
    } else {
        lemma_payloads_concat(a, b.drop_last());
        assert((a + b).drop_last() =~= a + b.drop_last());
        assert(payloads(a) + payloads(b.drop_last()) + b.last().data.skip(20) =~= payloads(a) + (
        payloads(b.drop_last()) + b.last().data.skip(20)));
    }
}

/// Sending splits the send buffer without losing, repeating or reordering a
/// byte: the payloads of the new segments, followed by what is left, are the
/// buffer as it was; `snd_nxt` advances by what was sent; the segments kept
/// before stay; and when no more than the windows allow was in flight, no
/// more is after.
proof fn lemma_flush_buffer(c: ConnView, tx: Seq<Seq<u8>>, now: u64)
    ensures
        ({
            let c2 = flush_spec(c, tx, now).0;
            &&& c.retransmit.len() <= c2.retransmit.len()
            &&& c2.retransmit.take(c.retransmit.len() as int) == c.retransmit
            &&& payloads(c2.retransmit.skip(c.retransmit.len() as int)) + c2.send_buffer
                == c.send_buffer
        }),
    decreases c.send_buffer.len(),
{
    if flush_len(c) <= 0 {
        assert(c.retransmit.take(c.retransmit.len() as int) =~= c.retransmit);
        assert(c.retransmit.skip(c.retransmit.len() as int) =~= Seq::<SegmentView>::empty());
        assert(payloads(Seq::<SegmentView>::empty()) + c.send_buffer =~= c.send_buffer);
    } else {
        let n = flush_len(c);
        let chunk = c.send_buffer.take(n);
        let c1 = flush_next(c, now);
        let tx1 = tx.push(c.frame(flush_segment(c)));
        lemma_flush_buffer(c1, tx1, now);
        let c2 = flush_spec(c1, tx1, now).0;
        assert(flush_spec(c, tx, now).0 == c2);
        crate::frame::lemma_segment_payload(
            c.header(c.snd_nxt, 0x18),
            chunk,
            c.tuple.local_ip,
            c.tuple.remote_ip,
        );
        let sv = c1.retransmit.last();
        assert(sv.data.skip(20) == chunk);
        let m = c.retransmit.len() as int;
        assert(c2.retransmit.take(m) =~= c1.retransmit.take(m + 1).take(m));
        assert(c1.retransmit.take(m) =~= c.retransmit);
        let rest = c2.retransmit.skip(m + 1);
        assert(c2.retransmit.skip(m) =~= seq![sv] + rest);
        lemma_payloads_concat(seq![sv], rest);
        assert(seq![sv].drop_last() =~= Seq::<SegmentView>::empty());
        assert(seq![sv].last() == sv);
        assert(payloads(Seq::<SegmentView>::empty()) =~= Seq::<u8>::empty());
        assert(payloads(seq![sv]) == payloads(seq![sv].drop_last()) + sv.data.skip(20));
        assert(payloads(seq![sv]) =~= chunk);
        assert(chunk + payloads(rest) + c2.send_buffer =~= chunk + (payloads(rest) + c2.send_buffer));
        assert(chunk + c1.send_buffer =~= c.send_buffer);
    }
}

proof fn lemma_add32_twice(a: u32, n: u32, k: int)
    requires
        k >= 0,
    ensures
        add32(add32(a, n), (k % 0x1_0000_0000) as u32) == add32(a, ((n + k) % 0x1_0000_0000) as u32),
{
    let m: int = 0x1_0000_0000;
    let x = (a as int + n as int) % m;
    let y = (x + k % m) % m;
    let z = (a as int + (n as int + k) % m) % m;
    vstd::arithmetic::div_mod::lemma_add_mod_noop(a as int + n as int, k, m);
    vstd::arithmetic::div_mod::lemma_add_mod_noop(a as int, n as int + k, m);
    vstd::arithmetic::div_mod::lemma_mod_twice(a as int, m);
    assert(y == (a as int + n as int + k) % m);
    assert(z == (a as int + n as int + k) % m);
}

proof fn lemma_diff_after_add(nxt: u32, una: u32, n: u32)
    requires
        seq_diff(nxt, una) + n < 0x1_0000_0000,
    ensures
        seq_diff(add32(nxt, n), una) == seq_diff(nxt, una) + n,
{
    let m: int = 0x1_0000_0000;
    let d = seq_diff(nxt, una) as int;
    let s = add32(nxt, n) as int;
    vstd::arithmetic::div_mod::lemma_fundamental_div_mod(nxt as int - una as int, m);
    vstd::arithmetic::div_mod::lemma_fundamental_div_mod(nxt as int + n as int, m);
    vstd::arithmetic::div_mod::lemma_fundamental_div_mod(s - una as int, m);
    vstd::arithmetic::div_mod::lemma_sub_mod_noop(nxt as int + n as int, una as int, m);
    vstd::arithmetic::div_mod::lemma_add_mod_noop(nxt as int - una as int, n as int, m);
    vstd::arithmetic::div_mod::lemma_small_mod((d + n) as nat, m as nat);
    vstd::arithmetic::div_mod::lemma_mod_twice(nxt as int + n as int, m);
    assert((s - una as int) % m == ((nxt as int + n as int) - una as int) % m) by {
        vstd::arithmetic::div_mod::lemma_sub_mod_noop(nxt as int + n as int, una as int, m);
        vstd::arithmetic::div_mod::lemma_sub_mod_noop(s, una as int, m);
    }
}

proof fn lemma_flush_numbers(c: ConnView, tx: Seq<Seq<u8>>, now: u64)
    ensures
        ({
            let c2 = flush_spec(c, tx, now).0;
            let k = c.send_buffer.len() - c2.send_buffer.len();
            &&& 0 <= k
            &&& c2.snd_nxt == add32(c.snd_nxt, (k % 0x1_0000_0000) as u32)
            &&& c2.snd_una == c.snd_una
            &&& send_limit(c2) == send_limit(c)
            &&& (in_flight(c) <= send_limit(c) ==> in_flight(c2) == in_flight(c) + k
                && in_flight(c2) <= send_limit(c))
        }),
    decreases c.send_buffer.len(),
{
    if flush_len(c) > 0 {
        let n = flush_len(c);
        let c1 = flush_next(c, now);
        let tx1 = tx.push(c.frame(flush_segment(c)));
        lemma_flush_numbers(c1, tx1, now);
        let c2 = flush_spec(c1, tx1, now).0;
        assert(flush_spec(c, tx, now).0 == c2);
        let k1 = c1.send_buffer.len() - c2.send_buffer.len();
        assert(c.send_buffer.len() - c2.send_buffer.len() == n + k1);
        lemma_add32_twice(c.snd_nxt, n as u32, k1);
        if in_flight(c) <= send_limit(c) {
            lemma_diff_after_add(c.snd_nxt, c.snd_una, n as u32);
        } else {
            assert(send_window(c) == 0);
        }
    }
}

/// Sending splits the send buffer without losing, repeating or reordering a
/// byte: the payloads of the new segments, followed by what is left, are the
/// buffer as it was; `snd_nxt` advances by what was sent; the segments kept
/// before stay; and when no more than the windows allow was in flight, no
/// more is after.
pub proof fn law_flush_conserves_bytes(c: ConnView, tx: Seq<Seq<u8>>, now: u64)
    ensures
        ({
            let c2 = flush_spec(c, tx, now).0;
            let k = c.send_buffer.len() - c2.send_buffer.len();
            &&& c.retransmit.len() <= c2.retransmit.len()
            &&& c2.retransmit.take(c.retransmit.len() as int) == c.retransmit
            &&& payloads(c2.retransmit.skip(c.retransmit.len() as int)) + c2.send_buffer
                == c.send_buffer
            &&& 0 <= k
            &&& c2.snd_nxt == add32(c.snd_nxt, (k % 0x1_0000_0000) as u32)
            &&& c2.snd_una == c.snd_una
            &&& send_limit(c2) == send_limit(c)
            &&& (in_flight(c) <= send_limit(c) ==> in_flight(c2) == in_flight(c) + k
                && in_flight(c2) <= send_limit(c))
        }),
{
    lemma_flush_buffer(c, tx, now);
    lemma_flush_numbers(c, tx, now);
}


/// Reassembly keeps what was received as a prefix, only takes stored data
/// away, and leaves nothing stored at the new `rcv_nxt`: whatever could be
/// delivered was.
pub proof fn law_reassemble(rb: Seq<u8>, nxt: u32, ooo: Map<u32, Seq<u8>>)
    requires
        ooo.dom().finite(),
    ensures
        ({
            let (rb2, nxt2, ooo2) = reassemble(rb, nxt, ooo);
            &&& rb.len() <= rb2.len()
            &&& rb2.take(rb.len() as int) == rb
            &&& ooo2.dom().subset_of(ooo.dom())
            &&& !ooo2.contains_key(nxt2)
        }),
    decreases ooo.dom().len(),
{
    if ooo.contains_key(nxt) {
        let d = ooo[nxt];
        law_reassemble(rb + d, add32(nxt, len32(d.len())), ooo.remove(nxt));
        let rb2 = reassemble(rb, nxt, ooo).0;
        assert(rb2.take(rb.len() as int) =~= (rb + d).take(rb.len() as int));
        assert((rb + d).take(rb.len() as int) =~= rb);
        assert(rb2.take((rb + d).len() as int).take(rb.len() as int) =~= rb2.take(rb.len() as int));
    } else {
        assert(rb.take(rb.len() as int) =~= rb);
    }
}

/// `rcv_nxt` moves on, modulo 2^32, by exactly what reassembly adds to the
/// received bytes.
proof fn lemma_reassemble_count(rb: Seq<u8>, nxt: u32, ooo: Map<u32, Seq<u8>>)
    requires
        ooo.dom().finite(),
    ensures
        ({
            let (rb2, nxt2, ooo2) = reassemble(rb, nxt, ooo);
            &&& rb.len() <= rb2.len()
            &&& nxt2 as int == (nxt + (rb2.len() - rb.len())) % 0x1_0000_0000
        }),
    decreases ooo.dom().len(),
{
    let m: int = 0x1_0000_0000;
    if ooo.contains_key(nxt) {
        let d = ooo[nxt];
        let n1 = add32(nxt, len32(d.len()));
        lemma_reassemble_count(rb + d, n1, ooo.remove(nxt));
        let rb2 = reassemble(rb, nxt, ooo).0;
        let r = rb2.len() - (rb + d).len();
        vstd::arithmetic::div_mod::lemma_add_mod_noop_right(nxt as int, d.len() as int, m);
        assert(n1 as int == (nxt + d.len()) % m);
        vstd::arithmetic::div_mod::lemma_add_mod_noop_right(r, nxt + d.len(), m);
        assert(r + (nxt + d.len()) == nxt + (rb2.len() - rb.len()));
    } else {
        assert(nxt as int % m == nxt);
    }
}

/// Received data is counted exactly: in Established, a segment without RST
/// keeps what was received as a prefix, and `rcv_nxt` advances, modulo
/// 2^32, by the bytes newly received in order plus one for a FIN.
pub proof fn law_rcv_nxt_counts(c: ConnView, hdr: TcpHeader, payload: Seq<u8>, tx: Seq<Seq<u8>>, now: u64)
    requires
        c.wf(),
        c.state == TcpState::Established,
        !has_bits(hdr.flags.bits, 0x04),
    ensures
        ({
            let c2 = process_segment_spec(c, hdr, payload, tx, now).0;
            let fin: int = if has_bits(hdr.flags.bits, 0x01) {
                1
            } else {
                0
            };
            &&& c.receive_buffer.len() <= c2.receive_buffer.len()
            &&& c2.receive_buffer.take(c.receive_buffer.len() as int) == c.receive_buffer
            &&& c2.rcv_nxt as int == (c.rcv_nxt + (c2.receive_buffer.len() - c.receive_buffer.len()) + fin)
                % 0x1_0000_0000
        }),
{
    reveal(process_segment_spec);
    let m: int = 0x1_0000_0000;
    let (c1, tx1, sample) = process_ack_spec(c, hdr, tx, now);
    assert(c1.receive_buffer == c.receive_buffer && c1.rcv_nxt == c.rcv_nxt && c1.out_of_order
        == c.out_of_order);
    let (c2, tx2) = if payload.len() > 0 {
        established_data_spec(c1, hdr.seq.0, payload, tx1)
    } else {
        (c1, tx1)
    };
    assert(c.receive_buffer.len() <= c2.receive_buffer.len() && c2.receive_buffer.take(
        c.receive_buffer.len() as int,
    ) == c.receive_buffer) by {
        if payload.len() > 0 && hdr.seq.0 == c1.rcv_nxt {
            let rb0 = c.receive_buffer + payload;
            law_reassemble(rb0, add32(c1.rcv_nxt, len32(payload.len())), c1.out_of_order);
            assert(c2.receive_buffer.take(rb0.len() as int).take(c.receive_buffer.len() as int)
                =~= c2.receive_buffer.take(c.receive_buffer.len() as int));
            assert(rb0.take(c.receive_buffer.len() as int) =~= c.receive_buffer);
        } else {
            assert(c.receive_buffer.take(c.receive_buffer.len() as int) =~= c.receive_buffer);
        }
    }
    assert(c2.rcv_nxt as int == (c.rcv_nxt + (c2.receive_buffer.len() - c.receive_buffer.len())) % m) by {
        if payload.len() > 0 && hdr.seq.0 == c1.rcv_nxt {
            let rb0 = c.receive_buffer + payload;
            let n0 = add32(c1.rcv_nxt, len32(payload.len()));
            lemma_reassemble_count(rb0, n0, c1.out_of_order);
            let r = c2.receive_buffer.len() - rb0.len();
            vstd::arithmetic::div_mod::lemma_add_mod_noop_right(c.rcv_nxt as int, payload.len() as int, m);
            assert(n0 as int == (c.rcv_nxt + payload.len()) % m);
            vstd::arithmetic::div_mod::lemma_add_mod_noop_right(r, c.rcv_nxt + payload.len(), m);
            assert(r + (c.rcv_nxt + payload.len()) == c.rcv_nxt + (c2.receive_buffer.len()
                - c.receive_buffer.len()));
        } else {
            assert(c.rcv_nxt as int % m == c.rcv_nxt);
        }
    }
    if has_bits(hdr.flags.bits, 0x01) {
        let x = c.rcv_nxt + (c2.receive_buffer.len() - c.receive_buffer.len());
        vstd::arithmetic::div_mod::lemma_add_mod_noop_right(1, x, m);
        assert(add32(c2.rcv_nxt, 1) as int == (c2.rcv_nxt + 1) % m);
    }
}

/// Sending keeps a connection's tuple and state.
proof fn lemma_flush_keeps(c: ConnView, tx: Seq<Seq<u8>>, now: u64)
    ensures
        flush_spec(c, tx, now).0.tuple == c.tuple,
        flush_spec(c, tx, now).0.state == c.state,
    decreases c.send_buffer.len(),
{
    if flush_len(c) > 0 {
        lemma_flush_keeps(flush_next(c, now), tx.push(c.frame(flush_segment(c))), now);
    }
}

/// A tick keeps a connection's tuple, and closes it when its TimeWait has
/// run out.
pub(crate) proof fn lemma_tick_one(c: ConnView, tx: Seq<Seq<u8>>, now: u64)
    ensures
        tick_one(c, tx, now).0.tuple == c.tuple,
        time_wait_over(c, now) ==> tick_one(c, tx, now).0.state == TcpState::Closed,
{
    reveal(tick_one);
    let (c1, tx1) = handle_timers_spec(c, now, tx);
    lemma_flush_keeps(c1, tx1, now);
}

/// The moves a segment without RST can make between two different states.
pub open spec fn segment_move(from: TcpState, to: TcpState) -> bool {
    match (from, to) {
        (TcpState::SynSent, TcpState::Established) => true,
        (TcpState::SynSent, TcpState::SynReceived) => true,
        (TcpState::SynReceived, TcpState::Established) => true,
        (TcpState::Established, TcpState::CloseWait) => true,
        (TcpState::FinWait1, TcpState::FinWait2) => true,
        (TcpState::FinWait1, TcpState::Closing) => true,
        (TcpState::FinWait1, TcpState::TimeWait) => true,
        (TcpState::FinWait2, TcpState::TimeWait) => true,
        (TcpState::Closing, TcpState::TimeWait) => true,
        (TcpState::LastAck, TcpState::Closed) => true,
        _ => false,
    }
}

/// A segment keeps the connection's state or makes one of the moves of
/// `segment_move`, or, with RST, closes it; entering TimeWait sets its
/// expiry two seconds after `now`.
pub proof fn law_state_moves(c: ConnView, hdr: TcpHeader, payload: Seq<u8>, tx: Seq<Seq<u8>>, now: u64)
    requires
        now <= max_now(),
    ensures
        ({
            let c2 = process_segment_spec(c, hdr, payload, tx, now).0;
            &&& c2.state == c.state || segment_move(c.state, c2.state) || (c2.state == TcpState::Closed
                && has_bits(hdr.flags.bits, 0x04))
            &&& c2.state == TcpState::TimeWait && c.state != TcpState::TimeWait ==> c2.time_wait_expiry
                == Some((now + time_wait_ns()) as u64) && now + time_wait_ns() <= u64::MAX
        }),
{
    reveal(process_segment_spec);
}

/// A reset closes the connection whatever its state, and sends nothing.
pub proof fn law_reset_closes(c: ConnView, hdr: TcpHeader, payload: Seq<u8>, tx: Seq<Seq<u8>>, now: u64)
    requires
        has_bits(hdr.flags.bits, 0x04),
    ensures
        process_segment_spec(c, hdr, payload, tx, now).0.state == TcpState::Closed,
        process_segment_spec(c, hdr, payload, tx, now).1 == tx,
{
    reveal(process_segment_spec);
}


impl TcpConnection {
    /// Whether `handle_timers` at `now` would have to count one
    /// retransmission too many (see `timers_overflow`).
    pub fn timers_would_overflow(&self, now: u64) -> (r: bool)
        ensures
            r == timers_overflow(self@, now),
    {
        if let Some(e) = self.time_wait_expiry {
            if now >= e {
                return false;
            }
        }
        let ghost q = self@.retransmit;
        let ghost ack = self.snd_una.0;
        let n = self.retransmit_queue.len();
        let mut k: usize = 0;
        assert(q.skip(0) =~= q);
        loop
            invariant
                n == q.len(),
                q == self@.retransmit,
                ack == self.snd_una.0,
                k <= n,
                acked_count(q, ack) == k + acked_count(q.skip(k as int), ack),
            ensures
                k <= n,
                k == acked_count(q, ack),
            decreases n - k,
        {
            if k == n {
                assert(q.skip(k as int) =~= Seq::<SegmentView>::empty());
                break;
            }
            let seg = &self.retransmit_queue[k];
            assert(q.skip(k as int)[0] == q[k as int]);
            if seg.seq.wrapping_add(seg.seq_len).lte(self.snd_una) {
                assert(q.skip(k as int).subrange(1, q.skip(k as int).len() as int) =~= q.skip(
                    k as int + 1,
                ));
                k = k + 1;
            } else {
                break;
            }
        }
        if k == n {
            assert(drop_acked(self@).retransmit.len() == 0);
            return false;
        }
        let seg = &self.retransmit_queue[k];
        assert(drop_acked(self@).retransmit[0] == q[k as int]);
        let waited = now.saturating_sub(seg.sent_at) as u128;
        waited >= self.rto && seg.retransmit_count == u32::MAX
    }
}

/// The TCP header that an Ethernet/IPv4 frame of the stack carries after
/// its 34 bytes of Ethernet and IPv4 headers, with its length.
pub open spec fn carried_header(f: Seq<u8>) -> Option<(TcpHeader, int)> {
    parse_spec(f.skip(34))
}

/// A segment a connection sends carries what it was made with: the
/// connection's ports, sequence number `seq`, `rcv_nxt` as acknowledgement,
/// the flags `flags`, and a twenty-byte header.
pub proof fn lemma_sent_header(c: ConnView, seq: u32, flags: u8, payload: Seq<u8>)
    ensures
        carried_header(c.frame(c.segment(seq, flags, payload))) matches Some((h, off)) && off == 20
            && h.seq.0 == seq && h.ack.0 == c.rcv_nxt && h.flags.bits == flags && h.src_port
            == c.tuple.local_port && h.dst_port == c.tuple.remote_port,
{
    let seg = c.segment(seq, flags, payload);
    crate::frame::law_frame_fields(
        MacAddress([0u8, 0u8, 0u8, 0u8, 0u8, 0u8]),
        c.local_mac,
        c.tuple.local_ip,
        c.tuple.remote_ip,
        seg,
    );
    crate::frame::law_segment_accepted(c.header(seq, flags), payload, c.tuple.local_ip, c.tuple.remote_ip);
}

/// Closing sends a FIN that also acknowledges: the one frame added carries
/// flags FIN and ACK (0x11), sequence number `snd_nxt` and `rcv_nxt` as
/// acknowledgement, and the FIN takes up one sequence number.
pub proof fn law_fin_acknowledges(c: ConnView, tx: Seq<Seq<u8>>, now: u64)
    ensures
        ({
            let (c2, tx2) = fin_spec(c, tx, now);
            &&& tx2.len() == tx.len() + 1
            &&& tx2.take(tx.len() as int) == tx
            &&& carried_header(tx2.last()) matches Some((h, off)) && h.flags.bits == 0x11 && h.seq.0
                == c.snd_nxt && h.ack.0 == c.rcv_nxt
            &&& c2.snd_nxt as int == (c.snd_nxt + 1) % 0x1_0000_0000
        }),
{
    lemma_sent_header(c, c.snd_nxt, 0x11, seq![]);
    let tx2 = fin_spec(c, tx, now).1;
    assert(tx2.take(tx.len() as int) =~= tx);
}

/// A bare acknowledgement carries the ACK flag alone (0x10), at `snd_nxt`,
/// acknowledging `rcv_nxt`.
pub proof fn law_ack_frame(c: ConnView)
    ensures
        carried_header(c.ack_frame()) matches Some((h, off)) && h.flags.bits == 0x10 && h.seq.0
            == c.snd_nxt && h.ack.0 == c.rcv_nxt,
{
    lemma_sent_header(c, c.snd_nxt, 0x10, seq![]);
}

/// A data segment carries ACK and PSH (0x18), at `snd_nxt`, acknowledging
/// `rcv_nxt`.
pub proof fn law_data_segment(c: ConnView)
    ensures
        carried_header(c.frame(flush_segment(c))) matches Some((h, off)) && h.flags.bits == 0x18
            && h.seq.0 == c.snd_nxt && h.ack.0 == c.rcv_nxt,
{
    lemma_sent_header(c, c.snd_nxt, 0x18, c.send_buffer.take(flush_len(c)));
}

/// `acked_count` counts the front segments that `ack` covers: all of them
/// end at or before `ack`, and the next one, if any, does not.
proof fn lemma_acked_count(q: Seq<SegmentView>, ack: u32)
    ensures
        acked_count(q, ack) <= q.len(),
        forall|j: int| 0 <= j < acked_count(q, ack) ==> seq_lte(seg_end(#[trigger] q[j]), ack),
        acked_count(q, ack) < q.len() ==> !seq_lte(seg_end(q[acked_count(q, ack) as int]), ack),
    decreases q.len(),
{
    if q.len() > 0 && seq_lte(seg_end(q[0]), ack) {
        let t = q.subrange(1, q.len() as int);
        lemma_acked_count(t, ack);
        assert forall|j: int| 0 <= j < acked_count(q, ack) implies seq_lte(seg_end(#[trigger] q[j]), ack) by {
            if j > 0 {
                assert(q[j] == t[j - 1]);
            }
        }
        if acked_count(q, ack) < q.len() {
            assert(q[acked_count(q, ack) as int] == t[acked_count(t, ack) as int]);
        }
    }
}

/// When the retransmission timer runs out, the segment sent again is the
/// oldest one not yet acknowledged: every segment before it in the queue
/// ends at or before `snd_una` and it does not. It goes out again with a
/// fresh checksum as the one frame added, and it heads the queue, stamped
/// with `now` and one more retransmission; the acknowledged ones are gone.
pub proof fn law_timer_resends_oldest(c: ConnView, now: u64, tx: Seq<Seq<u8>>)
    requires
        !time_wait_over(c, now),
        rto_expired(c, now),
    ensures
        ({
            let k = acked_count(c.retransmit, c.snd_una) as int;
            let seg = c.retransmit[k];
            let (c2, tx2) = handle_timers_spec(c, now, tx);
            &&& 0 <= k < c.retransmit.len()
            &&& forall|j: int| 0 <= j < k ==> seq_lte(seg_end(#[trigger] c.retransmit[j]), c.snd_una)
            &&& !seq_lte(seg_end(seg), c.snd_una)
            &&& tx2 == tx.push(c.resend_frame(seg))
            &&& c2.retransmit.len() == c.retransmit.len() - k
            &&& c2.retransmit[0] == (SegmentView {
                sent_at: now,
                retransmit_count: (seg.retransmit_count + 1) as u32,
                ..seg
            })
            &&& forall|j: int| 0 < j < c2.retransmit.len() ==> #[trigger] c2.retransmit[j] == c.retransmit[j + k]
        }),
{
    lemma_acked_count(c.retransmit, c.snd_una);
}

/// A half-closed connection still receives: in FinWait2, a segment without
/// RST that starts at `rcv_nxt` has its whole payload appended to the
/// received bytes, with an acknowledgement sent, and `rcv_nxt` advances by
/// exactly the payload plus one for a FIN; any other segment adds nothing
/// to the received bytes.
pub proof fn law_fin_wait2_receives(c: ConnView, hdr: TcpHeader, payload: Seq<u8>, tx: Seq<Seq<u8>>, now: u64)
    requires
        c.state == TcpState::FinWait2,
        !has_bits(hdr.flags.bits, 0x04),
    ensures
        ({
            let (c2, tx2, r) = process_segment_spec(c, hdr, payload, tx, now);
            let fin: int = if has_bits(hdr.flags.bits, 0x01) {
                1
            } else {
                0
            };
            let takes = payload.len() > 0 && hdr.seq.0 == c.rcv_nxt;
            &&& takes ==> c2.receive_buffer == c.receive_buffer + payload && tx2.len() > tx.len()
                && c2.rcv_nxt as int == (c.rcv_nxt + payload.len() + fin) % 0x1_0000_0000
            &&& !takes ==> c2.receive_buffer == c.receive_buffer && c2.rcv_nxt as int == (c.rcv_nxt
                + fin) % 0x1_0000_0000
        }),
{
    reveal(process_segment_spec);
    let m: int = 0x1_0000_0000;
    vstd::arithmetic::div_mod::lemma_add_mod_noop_right(c.rcv_nxt as int, payload.len() as int, m);
    let x = c.rcv_nxt + payload.len();
    vstd::arithmetic::div_mod::lemma_add_mod_noop_right(1, x, m);
    vstd::arithmetic::div_mod::lemma_add_mod_noop_right(1, c.rcv_nxt as int, m);
    assert(c.rcv_nxt as int % m == c.rcv_nxt);
}

} // verus!
