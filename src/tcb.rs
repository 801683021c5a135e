//! The transmission control block: per-connection state, the send and
//! receive sequence spaces, the retransmission and reassembly queues, RTT
//! estimation and congestion control.
//!
//! Times are milliseconds on a clock chosen by the caller, passed in as `now`.

use vstd::prelude::*;
use crate::seqnum::{seq_diff, seq_lt_spec, wrapping_diff, lemma_diff_add};

verus! {

/// The four-tuple naming a connection: address and port of each end, an
/// address as a big-endian 32-bit value.
#[derive(Clone, Copy, Debug, PartialEq, Eq, Hash, Structural)]
pub struct Quad {
    pub src_addr: u32,
    pub src_port: u16,
    pub dst_addr: u32,
    pub dst_port: u16,
}

#[derive(Clone, Copy, Debug, PartialEq, Eq, Structural)]
pub enum TcpState {
    Closed,
    Listen,
    SynSent,
    SynRcvd,
    Established,
    FinWait1,
    FinWait2,
    CloseWait,
    Closing,
    LastAck,
    TimeWait,
}

/// Send sequence space.
#[derive(Clone, Copy, Debug)]
pub struct SendSequence {
    /// oldest unacknowledged sequence number
    pub una: u32,
    /// next sequence number to be sent
    pub nxt: u32,
    /// window the peer advertised
    pub wnd: u16,
    /// urgent pointer
    pub up: u16,
    /// segment sequence number used for the last window update
    pub wl1: u32,
    /// segment acknowledgment number used for the last window update
    pub wl2: u32,
    /// initial send sequence number
    pub iss: u32,
}

/// Receive sequence space.
#[derive(Clone, Copy, Debug)]
pub struct ReceiveSequence {
    /// next sequence number expected
    pub nxt: u32,
    /// window we advertise
    pub wnd: u16,
    /// urgent pointer
    pub up: u16,
    /// initial receive sequence number
    pub irs: u32,
}

/// A queued segment: outstanding in the retransmission queue, or received
/// ahead of order in the reassembly queue.
#[derive(Clone, Debug)]
pub struct Segment {
    pub seq: u32,
    pub ack: u32,
    pub flags: u8,
    pub window: u16,
    pub data: Vec<u8>,
    /// when it was first sent or received
    pub timestamp: Option<u64>,
    /// how many times it has been retransmitted
    pub retransmit_count: u32,
    /// when it is due for retransmission
    pub retransmit_at: Option<u64>,
}

#[derive(Clone, Copy, Debug)]
pub struct WindowManagement {
    /// maximum segment size
    pub mss: u16,
    /// window scale factor
    pub scale: u8,
    /// effective send window
    pub effective_wnd: u32,
    /// congestion window
    pub cwnd: u32,
    /// slow-start threshold
    pub ssthresh: u32,
}

#[derive(Clone, Copy, Debug)]
pub struct TcpTimers {
    /// retransmission timeout, ms
    pub rto: u32,
    /// smoothed round-trip time, ms
    pub srtt: u32,
    /// round-trip time variation, ms
    pub rttvar: u32,
    /// when TIME-WAIT began
    pub time_wait: Option<u64>,
    /// when data was last sent
    pub last_send: Option<u64>,
    /// when an acceptable ACK last came in
    pub last_ack: Option<u64>,
    /// the earliest retransmission deadline over the queue
    pub retransmit_timer: Option<u64>,
    /// retransmission timeouts since the last acceptable ACK
    pub consecutive_timeouts: u32,
}

/// The transmission control block of one connection.
#[derive(Clone, Debug)]
pub struct Tcb {
    pub quad: Quad,
    pub state: TcpState,
    pub snd: SendSequence,
    pub rcv: ReceiveSequence,
    pub retransmission_queue: Vec<Segment>,
    pub reassembly_queue: Vec<Segment>,
    pub window: WindowManagement,
    pub timers: TcpTimers,
}

/// What the retransmission timer asks of the caller.
#[derive(Clone, Debug)]
pub enum RetransmitAction {
    Retransmit { seq: u32, flags: u8, data: Vec<u8>, attempt: u32 },
    GiveUp { seq: u32, reason: String },
}

pub const FLAG_FIN: u8 = 0x01;
pub const FLAG_SYN: u8 = 0x02;
pub const FLAG_RST: u8 = 0x04;
pub const FLAG_PSH: u8 = 0x08;
pub const FLAG_ACK: u8 = 0x10;
pub const FLAG_URG: u8 = 0x20;

pub const DEFAULT_MSS: u16 = 1460;
pub const DEFAULT_RCV_WND: u16 = 65535;
pub const INITIAL_RTO_MS: u32 = 1000;
pub const MIN_RTO_MS: u32 = 1000;
pub const MAX_RTO_MS: u32 = 60000;
/// The floor on RTTVAR in the RTO formula after the first sample, ms.
pub const RTTVAR_FLOOR_MS: u32 = 25;
/// The attempt count at which the retransmission engine gives up.
pub const MAX_RETRANSMITS: u32 = 15;
/// The largest power of two the backoff multiplies the RTO by.
pub const MAX_BACKOFF_SHIFT: u32 = 6;
/// Twice the maximum segment lifetime, ms.
pub const TWO_MSL_MS: u64 = 240000;

/// Bit `bit` (a power of two) is set in `flags`.
pub open spec fn flag_set(flags: u8, bit: u8) -> bool {
    (flags / bit) % 2 == 1
}

pub fn has_flag(flags: u8, bit: u8) -> (r: bool)
    requires
        bit > 0,
    ensures
        r == flag_set(flags, bit),
{
    (flags / bit) % 2 == 1
}

/// The sequence space a segment occupies: its payload, plus one for SYN and
/// one for FIN.
pub open spec fn segment_len(flags: u8, data_len: nat) -> nat {
    data_len + (if flag_set(flags, FLAG_SYN) { 1nat } else { 0nat }) + (if flag_set(flags, FLAG_FIN) {
        1nat
    } else {
        0nat
    })
}

pub open spec fn seg_len(s: Segment) -> nat {
    segment_len(s.flags, s.data@.len())
}

/// `now + ms`, held at the largest time the clock can show.
pub open spec fn later(now: u64, ms: u64) -> u64 {
    if now + ms > u64::MAX {
        u64::MAX
    } else {
        (now + ms) as u64
    }
}

/// The earliest retransmission deadline in `q`.
pub open spec fn min_deadline(q: Seq<Segment>) -> Option<u64>
    decreases q.len(),
{
    if q.len() == 0 {
        None
    } else {
        let rest = min_deadline(q.drop_last());
        match (rest, q.last().retransmit_at) {
            (None, d) => d,
            (Some(a), None) => Some(a),
            (Some(a), Some(b)) => Some(if a <= b { a } else { b }),
        }
    }
}

/// The backoff interval after `count` timeouts: `rto * 2^min(count, 6)`, at
/// most 60 s.
pub open spec fn backoff_ms(rto: u32, count: u32) -> u64 {
    let shift: nat = if count < 6 { count as nat } else { 6 };
    let v = rto as int * vstd::arithmetic::power2::pow2(shift) as int;
    if v > 60000 { 60000 } else { v as u64 }
}

/// The RTT estimator after sample `r`: SRTT, RTTVAR and the clamped RTO.
pub open spec fn rtt_after(srtt: u32, rttvar: u32, r: u32) -> (u32, u32, u32) {
    if srtt == 0 {
        let s = r;
        let v = r / 2;
        (s, v as u32, clamp_rto(s + 4 * v))
    } else {
        let diff: int = if srtt > r { srtt - r } else { r - srtt };
        let v = (3 * rttvar + diff) / 4;
        let s = (7 * srtt + r) / 8;
        let vf = if v > 25 { v } else { 25 };
        (s as u32, v as u32, clamp_rto(s + 4 * vf))
    }
}

pub open spec fn clamp_rto(x: int) -> u32 {
    if x < 1000 {
        1000
    } else if x > 60000 {
        60000
    } else {
        x as u32
    }
}

/// The congestion window after an acceptable ACK: slow start below
/// ssthresh, congestion avoidance at or above it.
pub open spec fn cwnd_after_ack(cwnd: u32, ssthresh: u32, mss: u16) -> u32 {
    let inc: int = if cwnd < ssthresh {
        mss as int
    } else {
        let i = (mss as int * mss as int) / cwnd as int;
        if i < 1 { 1 } else { i }
    };
    if cwnd + inc > u32::MAX { u32::MAX } else { (cwnd + inc) as u32 }
}

/// The slow-start threshold after a timeout: `max(FlightSize / 2, 2 * MSS)`.
pub open spec fn ssthresh_after_timeout(flight: nat, mss: u16) -> u32 {
    let half = flight / 2;
    if half > 2 * mss { half as u32 } else { (2 * mss) as u32 }
}

impl Segment {
    pub open spec fn well_queued(&self, una: u32, flight: nat) -> bool {
        &&& self.retransmit_at is Some
        &&& self.timestamp is Some
        &&& seg_len(*self) >= 1
        &&& seq_diff(self.seq, una) + seg_len(*self) <= flight
    }
}

impl Tcb {
    /// Bytes (and SYN/FIN units) sent and not yet acknowledged.
    pub open spec fn flight(&self) -> nat {
        seq_diff(self.snd.nxt, self.snd.una)
    }

    /// The invariant every event keeps.
    pub open spec fn wf(&self) -> bool {
        &&& MIN_RTO_MS <= self.timers.rto <= MAX_RTO_MS
        &&& self.window.mss > 0
        &&& self.window.cwnd >= self.window.mss
        &&& self.flight() < 0x8000_0000
        &&& forall|i: int|
            0 <= i < self.retransmission_queue@.len()
                ==> #[trigger] self.retransmission_queue@[i].well_queued(
                self.snd.una,
                self.flight(),
            )
        &&& self.timers.retransmit_timer == min_deadline(self.retransmission_queue@)
        &&& self.reassembly_wf()
    }

    /// Every segment waiting for reassembly holds data, starts after RCV.NXT
    /// within 2^16, and they are sorted by start without overlap.
    pub open spec fn reassembly_wf(&self) -> bool {
        let q = self.reassembly_queue@;
        &&& forall|i: int|
            0 <= i < q.len() ==> {
                &&& 0 < seq_diff(#[trigger] q[i].seq, self.rcv.nxt) < 0x10000
                &&& 1 <= q[i].data@.len() <= 0x10000
            }
        &&& forall|i: int, j: int|
            0 <= i < j < q.len() ==> seq_diff(#[trigger] q[i].seq, self.rcv.nxt)
                + q[i].data@.len() <= seq_diff(#[trigger] q[j].seq, self.rcv.nxt)
    }

    /// A fresh control block in CLOSED: windows, MSS 1460, cwnd 10 MSS,
    /// ssthresh unbounded, RTO 1 s, nothing queued, no timer.
    pub fn new(quad: Quad) -> (r: Self)
        ensures
            r.wf(),
            r.quad == quad,
            r.state == TcpState::Closed,
            r.snd.una == 0 && r.snd.nxt == 0 && r.snd.wnd == 0 && r.snd.iss == 0,
            r.rcv.nxt == 0 && r.rcv.wnd == DEFAULT_RCV_WND && r.rcv.irs == 0,
            r.retransmission_queue@.len() == 0,
            r.reassembly_queue@.len() == 0,
            r.window.mss == DEFAULT_MSS,
            r.window.cwnd == 10 * DEFAULT_MSS,
            r.window.ssthresh == u32::MAX,
            r.timers.rto == INITIAL_RTO_MS,
            r.timers.srtt == 0 && r.timers.rttvar == 0,
            r.timers.retransmit_timer is None,
            r.timers.time_wait is None,
            r.timers.consecutive_timeouts == 0,
    {
        Tcb {
            quad,
            state: TcpState::Closed,
            snd: SendSequence { una: 0, nxt: 0, wnd: 0, up: 0, wl1: 0, wl2: 0, iss: 0 },
            rcv: ReceiveSequence { nxt: 0, wnd: DEFAULT_RCV_WND, up: 0, irs: 0 },
            retransmission_queue: Vec::new(),
            reassembly_queue: Vec::new(),
            window: WindowManagement {
                mss: DEFAULT_MSS,
                scale: 0,
                effective_wnd: 65535,
                cwnd: 10 * (DEFAULT_MSS as u32),
                ssthresh: u32::MAX,
            },
            timers: TcpTimers {
                rto: INITIAL_RTO_MS,
                srtt: 0,
                rttvar: 0,
                time_wait: None,
                last_send: None,
                last_ack: None,
                retransmit_timer: None,
                consecutive_timeouts: 0,
            },
        }
    }

    /// Active open: SYN-SENT with SND.UNA = SND.NXT = ISS = `iss` and nothing
    /// outstanding. The SYN itself goes out through `queue_for_retransmission`.
    pub fn active_open(&mut self, iss: u32)
        requires
            old(self).wf(),
        ensures
            final(self).wf(),
            final(self).state == TcpState::SynSent,
            final(self).snd == (SendSequence { una: iss, nxt: iss, iss, ..old(self).snd }),
            final(self).retransmission_queue@.len() == 0,
            final(self).timers == (TcpTimers { retransmit_timer: None, ..old(self).timers }),
            final(self).rcv == old(self).rcv,
            final(self).window == old(self).window,
            final(self).quad == old(self).quad,
    {
        self.state = TcpState::SynSent;
        self.snd.iss = iss;
        self.snd.nxt = iss;
        self.snd.una = iss;
        self.retransmission_queue = Vec::new();
        self.timers.retransmit_timer = None;
    }

    /// Passive open: LISTEN.
    pub fn passive_open(&mut self)
        requires
            old(self).wf(),
        ensures
            final(self).wf(),
            *final(self) == (Tcb { state: TcpState::Listen, ..*old(self) }),
    {
        self.state = TcpState::Listen;
    }

    /// Process a received SYN at `now`. In LISTEN: IRS = `seq`,
    /// RCV.NXT = `seq` + 1, SND.WND = `window`, ISS = SND.UNA = `iss`; the
    /// SYN-ACK at ISS is sent and queued for retransmission, so
    /// SND.NXT = ISS + 1; SYN-RCVD. In SYN-SENT the same on the receive side,
    /// the send side kept, SYN-RCVD (an ACK of our SYN then completes the
    /// handshake). Elsewhere nothing changes.
    pub fn process_syn(&mut self, seq: u32, window: u16, iss: u32, now: u64)
        requires
            old(self).wf(),
        ensures
            final(self).wf(),
            old(self).state != TcpState::Listen ==> send_order_kept(*old(self), *final(self)),
            final(self).quad == old(self).quad,
            final(self).window == old(self).window,
            old(self).state == TcpState::Listen ==> {
                let q = final(self).retransmission_queue@;
                &&& final(self).state == TcpState::SynRcvd
                &&& final(self).rcv == (ReceiveSequence {
                    irs: seq,
                    nxt: seq.wrapping_add(1),
                    ..old(self).rcv
                })
                &&& final(self).snd == (SendSequence {
                    wnd: window,
                    iss,
                    una: iss,
                    nxt: iss.wrapping_add(1),
                    ..old(self).snd
                })
                &&& q.len() == 1
                &&& q[0].seq == iss && q[0].ack == 0 && q[0].flags == FLAG_SYN | FLAG_ACK
                &&& q[0].window == 0 && q[0].data@.len() == 0
                &&& q[0].timestamp == Some(now) && q[0].retransmit_count == 0
                &&& q[0].retransmit_at == Some(later(now, old(self).timers.rto as u64))
                &&& final(self).reassembly_queue@.len() == 0
                &&& final(self).timers == (TcpTimers {
                    last_send: Some(now),
                    retransmit_timer: Some(later(now, old(self).timers.rto as u64)),
                    ..old(self).timers
                })
            },
            old(self).state == TcpState::SynSent ==> {
                &&& final(self).state == TcpState::SynRcvd
                &&& final(self).rcv == (ReceiveSequence {
                    irs: seq,
                    nxt: seq.wrapping_add(1),
                    ..old(self).rcv
                })
                &&& final(self).snd == (SendSequence { wnd: window, ..old(self).snd })
                &&& final(self).retransmission_queue@ == old(self).retransmission_queue@
                &&& final(self).reassembly_queue@.len() == 0
                &&& final(self).timers == old(self).timers
            },
            old(self).state != TcpState::Listen && old(self).state != TcpState::SynSent
                ==> *final(self) == *old(self),
    {
        match self.state {
            TcpState::Listen => {
                self.rcv.irs = seq;
                self.rcv.nxt = seq.wrapping_add(1);
                self.snd.wnd = window;
                self.snd.iss = iss;
                self.snd.una = iss;
                self.snd.nxt = iss.wrapping_add(1);
                self.retransmission_queue = Vec::new();
                self.reassembly_queue = Vec::new();
                self.timers.retransmit_timer = None;
                self.state = TcpState::SynRcvd;
                proof {
                    lemma_diff_add(iss, 1);
                    assert(self.flight() == 1);
                }
                assert((FLAG_SYN | FLAG_ACK) == 0x12u8) by (bit_vector);
                assert(segment_len(FLAG_SYN | FLAG_ACK, 0) == 1);
                self.queue_for_retransmission(iss, FLAG_SYN | FLAG_ACK, Vec::new(), now);
                proof {
                    let q = self.retransmission_queue@;
                    assert(q.drop_last().len() == 0);
                    assert(q[0] == q.last());
                    lemma_min_deadline_push(Seq::empty(), q[0]);
                    assert(q =~= Seq::<Segment>::empty().push(q[0]));
                }
            },
            TcpState::SynSent => {
                self.rcv.irs = seq;
                self.rcv.nxt = seq.wrapping_add(1);
                self.snd.wnd = window;
                self.reassembly_queue = Vec::new();
                self.state = TcpState::SynRcvd;
            },
            _ => {},
        }
    }

    /// Record, at `now`, a sent segment that takes sequence space (data,
    /// SYN or FIN) and is already counted in SND.NXT: it joins the
    /// retransmission queue, first sent at `now` and due at `now` + RTO, and
    /// the timer becomes the earliest deadline over the queue. The send
    /// sequence space is left alone.
    pub fn queue_for_retransmission(&mut self, seq: u32, flags: u8, data: Vec<u8>, now: u64)
        requires
            old(self).wf(),
            segment_len(flags, data@.len()) >= 1,
            seq_diff(seq, old(self).snd.una) + segment_len(flags, data@.len()) <= old(self).flight(),
        ensures
            final(self).wf(),
            send_order_kept(*old(self), *final(self)),
            final(self).snd == old(self).snd,
            final(self).retransmission_queue@.drop_last() == old(self).retransmission_queue@,
            ({
                let q = final(self).retransmission_queue@.last();
                &&& final(self).retransmission_queue@.len() == old(
                    self,
                ).retransmission_queue@.len() + 1
                &&& q.seq == seq && q.ack == 0 && q.flags == flags && q.window == 0
                &&& q.data@ == data@
                &&& q.timestamp == Some(now) && q.retransmit_count == 0
                &&& q.retransmit_at == Some(later(now, old(self).timers.rto as u64))
            }),
            final(self).timers == (TcpTimers {
                last_send: Some(now),
                retransmit_timer: Some(
                    match old(self).timers.retransmit_timer {
                        Some(t) => if t <= later(now, old(self).timers.rto as u64) {
                            t
                        } else {
                            later(now, old(self).timers.rto as u64)
                        },
                        None => later(now, old(self).timers.rto as u64),
                    },
                ),
                ..old(self).timers
            }),
            final(self).timers.retransmit_timer == min_deadline(final(self).retransmission_queue@),
            final(self).state == old(self).state,
            final(self).rcv == old(self).rcv,
            final(self).window == old(self).window,
            final(self).quad == old(self).quad,
            final(self).reassembly_queue@ == old(self).reassembly_queue@,
    {
        let ghost q0 = self.retransmission_queue@;
        let ghost old_self = *self;
        let retransmit_at = now.saturating_add(self.timers.rto as u64);
        let segment = Segment {
            seq,
            ack: 0,
            flags,
            window: 0,
            data,
            timestamp: Some(now),
            retransmit_count: 0,
            retransmit_at: Some(retransmit_at),
        };
        self.retransmission_queue.push(segment);
        self.timers.last_send = Some(now);
        self.timers.retransmit_timer = match self.timers.retransmit_timer {
            Some(t) => Some(if t <= retransmit_at { t } else { retransmit_at }),
            None => Some(retransmit_at),
        };
        proof {
            let q = self.retransmission_queue@;
            assert(q.drop_last() =~= q0);
            lemma_min_deadline_push(q0, q.last());
            assert forall|i: int| 0 <= i < q.len() implies #[trigger] q[i].well_queued(
                self.snd.una,
                self.flight(),
            ) by {
                if i < q0.len() {
                    assert(q[i] == q0[i]);
                    assert(q0[i].well_queued(old_self.snd.una, old_self.flight()));
                }
            }
            lemma_send_order(old_self, *self);
        }
    }

    /// Send a segment that takes sequence space (data, SYN or FIN) at
    /// SND.NXT, at `now`: SND.NXT moves past it and it is queued for
    /// retransmission. Returns its sequence number.
    pub fn send_segment(&mut self, flags: u8, data: Vec<u8>, now: u64) -> (r: u32)
        requires
            old(self).wf(),
            segment_len(flags, data@.len()) >= 1,
            old(self).flight() + segment_len(flags, data@.len()) < 0x8000_0000,
        ensures
            final(self).wf(),
            send_order_kept(*old(self), *final(self)),
            r == old(self).snd.nxt,
            final(self).snd == (SendSequence {
                nxt: ((old(self).snd.nxt + segment_len(flags, data@.len())) % 0x1_0000_0000) as u32,
                ..old(self).snd
            }),
            final(self).flight() == old(self).flight() + segment_len(flags, data@.len()),
            final(self).retransmission_queue@.drop_last() == old(self).retransmission_queue@,
            ({
                let q = final(self).retransmission_queue@.last();
                &&& final(self).retransmission_queue@.len() == old(
                    self,
                ).retransmission_queue@.len() + 1
                &&& q.seq == old(self).snd.nxt && q.ack == 0 && q.flags == flags && q.window == 0
                &&& q.data@ == data@
                &&& q.timestamp == Some(now) && q.retransmit_count == 0
                &&& q.retransmit_at == Some(later(now, old(self).timers.rto as u64))
            }),
            final(self).timers == (TcpTimers {
                last_send: Some(now),
                retransmit_timer: min_deadline(final(self).retransmission_queue@),
                ..old(self).timers
            }),
            final(self).state == old(self).state,
            final(self).rcv == old(self).rcv,
            final(self).window == old(self).window,
            final(self).quad == old(self).quad,
            final(self).reassembly_queue@ == old(self).reassembly_queue@,
    {
        let ghost old_self = *self;
        let seq = self.snd.nxt;
        let syn: u64 = if has_flag(flags, FLAG_SYN) { 1 } else { 0 };
        let fin: u64 = if has_flag(flags, FLAG_FIN) { 1 } else { 0 };
        let len: u64 = data.len() as u64 + syn + fin;
        self.snd.nxt = self.snd.nxt.wrapping_add(len as u32);
        proof {
            lemma_diff_add(seq, len as nat);
            assert(self.flight() == old_self.flight() + len);
            let q = self.retransmission_queue@;
            assert forall|i: int| 0 <= i < q.len() implies #[trigger] q[i].well_queued(
                self.snd.una,
                self.flight(),
            ) by {
                assert(q[i].well_queued(old_self.snd.una, old_self.flight()));
            }
        }
        self.queue_for_retransmission(seq, flags, data, now);
        proof {
            lemma_send_order(old_self, *self);
        }
        seq
    }

    /// Fold RTT sample `measured_rtt` (ms) into the estimator: the first
    /// sample sets SRTT = R, RTTVAR = R/2, RTO = SRTT + 4 RTTVAR; later ones
    /// RTTVAR = (3 RTTVAR + |SRTT - R|)/4, SRTT = (7 SRTT + R)/8,
    /// RTO = SRTT + 4 max(RTTVAR, 25). RTO is clamped to [1 s, 60 s].
    pub fn update_rtt(&mut self, measured_rtt: u32)
        requires
            old(self).wf(),
        ensures
            final(self).wf(),
            send_order_kept(*old(self), *final(self)),
            (final(self).timers.srtt, final(self).timers.rttvar, final(self).timers.rto)
                == rtt_after(old(self).timers.srtt, old(self).timers.rttvar, measured_rtt),
            final(self).timers == (TcpTimers {
                srtt: final(self).timers.srtt,
                rttvar: final(self).timers.rttvar,
                rto: final(self).timers.rto,
                ..old(self).timers
            }),
            final(self).snd == old(self).snd,
            final(self).rcv == old(self).rcv,
            final(self).window == old(self).window,
            final(self).state == old(self).state,
            final(self).quad == old(self).quad,
            final(self).retransmission_queue@ == old(self).retransmission_queue@,
            final(self).reassembly_queue@ == old(self).reassembly_queue@,
    {
        let r = measured_rtt as u64;
        let rto: u64;
        if self.timers.srtt == 0 {
            let v = r / 2;
            self.timers.srtt = measured_rtt;
            self.timers.rttvar = v as u32;
            rto = r + 4 * v;
        } else {
            let srtt = self.timers.srtt as u64;
            let diff = if srtt > r { srtt - r } else { r - srtt };
            let v = (3 * (self.timers.rttvar as u64) + diff) / 4;
            let s = (7 * srtt + r) / 8;
            self.timers.rttvar = v as u32;
            self.timers.srtt = s as u32;
            let vf = if v > RTTVAR_FLOOR_MS as u64 { v } else { RTTVAR_FLOOR_MS as u64 };
            rto = s + 4 * vf;
        }
        self.timers.rto = if rto < MIN_RTO_MS as u64 {
            MIN_RTO_MS
        } else if rto > MAX_RTO_MS as u64 {
            MAX_RTO_MS
        } else {
            rto as u32
        };
    }

    /// The usable send window: `min(SND.WND, cwnd)` less what is in flight,
    /// or zero.
    pub fn available_window(&self) -> (r: u32)
        requires
            self.wf(),
        ensures
            ({
                let w: int = if (self.snd.wnd as u32) < self.window.cwnd {
                    self.snd.wnd as int
                } else {
                    self.window.cwnd as int
                };
                r == if w > self.flight() { w - self.flight() } else { 0 }
            }),
    {
        let in_flight = wrapping_diff(self.snd.nxt, self.snd.una);
        let wnd = if (self.snd.wnd as u32) < self.window.cwnd {
            self.snd.wnd as u32
        } else {
            self.window.cwnd
        };
        wnd.saturating_sub(in_flight)
    }

    /// TIME-WAIT has lasted 2MSL (240 s) by `now`.
    pub fn is_time_wait_expired(&self, now: u64) -> (r: bool)
        ensures
            r == time_wait_expired(*self, now),
    {
        match self.timers.time_wait {
            Some(start) => now.saturating_sub(start) >= TWO_MSL_MS,
            None => false,
        }
    }

    /// How long from `now` until the retransmission timer fires (zero if it
    /// is due), or `None` when no timer is set.
    pub fn time_until_retransmit(&self, now: u64) -> (r: Option<u64>)
        ensures
            r == match self.timers.retransmit_timer {
                Some(t) => Some(if t > now { (t - now) as u64 } else { 0u64 }),
                None => None::<u64>,
            },
    {
        match self.timers.retransmit_timer {
            Some(t) => Some(if t > now { t - now } else { 0 }),
            None => None,
        }
    }

    /// An ACK is acceptable when SND.UNA < ack <= SND.NXT in sequence space.
    pub open spec fn ack_acceptable(&self, ack: u32) -> bool {
        0 < seq_diff(ack, self.snd.una) <= self.flight()
    }

    fn is_ack_acceptable(&self, ack: u32) -> (r: bool)
        ensures
            r == self.ack_acceptable(ack),
    {
        let d = wrapping_diff(ack, self.snd.una);
        0 < d && d <= wrapping_diff(self.snd.nxt, self.snd.una)
    }
}

/// The RFC 793 acceptance test for a segment of `len` units at `seq`
/// against RCV.NXT and RCV.WND.
pub open spec fn segment_acceptable(rcv_nxt: u32, rcv_wnd: u16, seq: u32, len: nat) -> bool {
    if len == 0 {
        if rcv_wnd == 0 {
            seq == rcv_nxt
        } else {
            seq_diff(seq, rcv_nxt) < rcv_wnd
        }
    } else if rcv_wnd == 0 {
        false
    } else {
        seq_diff(seq, rcv_nxt) < rcv_wnd || seq_diff(
            ((seq + len - 1) % 0x1_0000_0000) as u32,
            rcv_nxt,
        ) < rcv_wnd
    }
}

impl Tcb {
    /// The segment acceptance test against the receive window.
    pub fn is_segment_acceptable(&self, seq: u32, len: u32) -> (r: bool)
        ensures
            r == segment_acceptable(self.rcv.nxt, self.rcv.wnd, seq, len as nat),
    {
        if len == 0 {
            if self.rcv.wnd == 0 {
                seq == self.rcv.nxt
            } else {
                wrapping_diff(seq, self.rcv.nxt) < self.rcv.wnd as u32
            }
        } else if self.rcv.wnd == 0 {
            false
        } else {
            let seg_end = seq.wrapping_add(len - 1);
            wrapping_diff(seq, self.rcv.nxt) < self.rcv.wnd as u32 || wrapping_diff(
                seg_end,
                self.rcv.nxt,
            ) < self.rcv.wnd as u32
        }
    }

    /// Congestion response to a retransmission timeout:
    /// ssthresh = max(FlightSize / 2, 2 MSS), cwnd = MSS.
    fn handle_timeout(&mut self)
        requires
            old(self).wf(),
        ensures
            final(self).wf(),
            *final(self) == (Tcb {
                window: WindowManagement {
                    ssthresh: ssthresh_after_timeout(old(self).flight(), old(self).window.mss),
                    cwnd: old(self).window.mss as u32,
                    ..old(self).window
                },
                ..*old(self)
            }),
    {
        let flight_size = wrapping_diff(self.snd.nxt, self.snd.una);
        let half = flight_size / 2;
        let floor = 2 * (self.window.mss as u32);
        self.window.ssthresh = if half > floor { half } else { floor };
        self.window.cwnd = self.window.mss as u32;
    }
}

/// Segment `s` is due for retransmission at `now`.
pub open spec fn due(s: Segment, now: u64) -> bool {
    match s.retransmit_at {
        Some(t) => t <= now,
        None => false,
    }
}

pub open spec fn sat_add_u32(x: u32, k: nat) -> u32 {
    if x + k > u32::MAX {
        u32::MAX
    } else {
        (x + k) as u32
    }
}

/// The positions, in order, of the segments among the first `n` of `q`
/// that are due at `now`.
pub open spec fn due_positions(q: Seq<Segment>, now: u64, n: nat) -> Seq<int>
    decreases n,
{
    if n == 0 {
        Seq::empty()
    } else {
        let rest = due_positions(q, now, (n - 1) as nat);
        if due(q[n - 1], now) {
            rest.push(n - 1)
        } else {
            rest
        }
    }
}

/// `a` is the action the timer emits for `s` after bumping its count: give
/// up from the fifteenth attempt on, else retransmit it as it stands.
pub open spec fn action_for(a: RetransmitAction, s: Segment) -> bool {
    match a {
        RetransmitAction::Retransmit { seq, flags, data, attempt } => {
            &&& s.retransmit_count < MAX_RETRANSMITS
            &&& seq == s.seq
            &&& flags == s.flags
            &&& data@ == s.data@
            &&& attempt == s.retransmit_count
        },
        RetransmitAction::GiveUp { seq, .. } => {
            &&& s.retransmit_count >= MAX_RETRANSMITS
            &&& seq == s.seq
        },
    }
}

/// The segment `s` after one sweep at `now` with base RTO `rto`.
pub open spec fn swept(s: Segment, t: Segment, now: u64, rto: u32) -> bool {
    &&& t.seq == s.seq
    &&& t.ack == s.ack
    &&& t.flags == s.flags
    &&& t.window == s.window
    &&& t.data@ == s.data@
    &&& t.timestamp == s.timestamp
    &&& if due(s, now) {
        &&& t.retransmit_count == sat_add_u32(s.retransmit_count, 1)
        &&& t.retransmit_at == Some(later(now, backoff_ms(rto, t.retransmit_count)))
    } else {
        &&& t.retransmit_count == s.retransmit_count
        &&& t.retransmit_at == s.retransmit_at
    }
}

proof fn lemma_due_positions_bound(q: Seq<Segment>, now: u64, n: nat)
    ensures
        forall|j: int|
            0 <= j < due_positions(q, now, n).len() ==> 0 <= #[trigger] due_positions(
                q,
                now,
                n,
            )[j] < n,
    decreases n,
{
    if n > 0 {
        lemma_due_positions_bound(q, now, (n - 1) as nat);
        let rest = due_positions(q, now, (n - 1) as nat);
        assert forall|j: int| 0 <= j < due_positions(q, now, n).len() implies 0
            <= #[trigger] due_positions(q, now, n)[j] < n by {
            if j < rest.len() {
                assert(due_positions(q, now, n)[j] == rest[j]);
            }
        }
    }
}

proof fn lemma_min_deadline_push(q: Seq<Segment>, s: Segment)
    ensures
        min_deadline(q.push(s)) == match (min_deadline(q), s.retransmit_at) {
            (None, d) => d,
            (Some(a), None) => Some(a),
            (Some(a), Some(b)) => Some(if a <= b { a } else { b }),
        },
{
    assert(q.push(s).drop_last() =~= q);
}

fn backoff(rto: u32, count: u32) -> (r: u64)
    requires
        rto <= MAX_RTO_MS,
    ensures
        r == backoff_ms(rto, count),
{
    proof {
        vstd::arithmetic::power2::lemma2_to64();
    }
    let shift = if count < MAX_BACKOFF_SHIFT { count } else { MAX_BACKOFF_SHIFT };
    let mult: u64 = match shift {
        0 => 1,
        1 => 2,
        2 => 4,
        3 => 8,
        4 => 16,
        5 => 32,
        _ => 64,
    };
    let v = (rto as u64) * mult;
    if v > MAX_RTO_MS as u64 { MAX_RTO_MS as u64 } else { v }
}

fn copy_bytes(v: &Vec<u8>) -> (r: Vec<u8>)
    ensures
        r@ == v@,
{
    vstd::slice::slice_to_vec(v.as_slice())
}

/// The retransmission timer is due at `now`.
pub open spec fn timer_due(t: Tcb, now: u64) -> bool {
    match t.timers.retransmit_timer {
        Some(d) => d <= now,
        None => false,
    }
}

/// `b` and `actions` are what a timer sweep at `now` makes of `a`. If the
/// timer is unset or not yet due, nothing changes and nothing is returned.
/// Otherwise every due segment has its count bumped and its deadline moved
/// to `now + min(RTO * 2^min(count, 6), 60 s)`, and yields, in queue order,
/// `GiveUp` from the fifteenth attempt on, else `Retransmit`; each adds to
/// the consecutive-timeout count; if any was due, the congestion response
/// runs; the timer becomes the earliest remaining deadline.
pub open spec fn swept_by(a: Tcb, b: Tcb, actions: Seq<RetransmitAction>, now: u64) -> bool {
    &&& !timer_due(a, now) ==> b == a && actions.len() == 0
    &&& timer_due(a, now) ==> {
        let q = a.retransmission_queue@;
        let q2 = b.retransmission_queue@;
        let pos = due_positions(q, now, q.len());
        &&& q2.len() == q.len()
        &&& forall|i: int| 0 <= i < q.len() ==> swept(#[trigger] q[i], q2[i], now, a.timers.rto)
        &&& actions.len() == pos.len()
        &&& forall|j: int| 0 <= j < pos.len() ==> action_for(#[trigger] actions[j], q2[pos[j]])
        &&& b.timers == (TcpTimers {
            consecutive_timeouts: sat_add_u32(a.timers.consecutive_timeouts, pos.len()),
            retransmit_timer: min_deadline(q2),
            ..a.timers
        })
        &&& pos.len() > 0 ==> b.window == (WindowManagement {
            ssthresh: ssthresh_after_timeout(a.flight(), a.window.mss),
            cwnd: a.window.mss as u32,
            ..a.window
        })
        &&& pos.len() == 0 ==> b.window == a.window
        &&& pos.len() > 0 ==> b.window.cwnd == b.window.mss && b.window.ssthresh >= 2
            * b.window.mss
    }
    &&& b.snd == a.snd
    &&& b.rcv == a.rcv
    &&& b.state == a.state
    &&& b.quad == a.quad
    &&& b.reassembly_queue@ == a.reassembly_queue@
}

/// A sweep's actions include giving up.
pub open spec fn gives_up(actions: Seq<RetransmitAction>) -> bool {
    exists|j: int| 0 <= j < actions.len() && (#[trigger] actions[j]) is GiveUp
}

/// TIME-WAIT of `t` has lasted 2MSL by `now`.
pub open spec fn time_wait_expired(t: Tcb, now: u64) -> bool {
    match t.timers.time_wait {
        Some(start) => now >= start + TWO_MSL_MS,
        None => false,
    }
}

impl Tcb {
    /// The timer sweep at `now`. If the timer is unset or not yet due,
    /// nothing changes and nothing is returned. Otherwise every due segment
    /// has its count bumped and its deadline moved to
    /// `now + min(RTO * 2^min(count, 6), 60 s)`, and yields, in queue order,
    /// `GiveUp` from the fifteenth attempt on, else `Retransmit`; each adds
    /// to the consecutive-timeout count; if any was due, the congestion
    /// response runs; the timer becomes the earliest remaining deadline.
    pub fn check_retransmission_timeout(&mut self, now: u64) -> (actions: Vec<RetransmitAction>)
        requires
            old(self).wf(),
        ensures
            final(self).wf(),
            send_order_kept(*old(self), *final(self)),
            swept_by(*old(self), *final(self), actions@, now),
            timer_due(*old(self), now) ==> forall|i: int|
                0 <= i < final(self).retransmission_queue@.len() && due(
                    old(self).retransmission_queue@[i],
                    now,
                ) ==> {
                    let d = (#[trigger] final(self).retransmission_queue@[i]).retransmit_at->0;
                    &&& d <= now + 60000
                    &&& d <= now + old(self).timers.rto as int * vstd::arithmetic::power2::pow2(
                        final(self).retransmission_queue@[i].retransmit_count as nat,
                    ) as int
                },
    {
        match self.timers.retransmit_timer {
            Some(t) => {
                if now < t {
                    return Vec::new();
                }
            },
            None => {
                return Vec::new();
            },
        }
        let ghost q0 = self.retransmission_queue@;
        let ghost old_self = *self;
        let rto = self.timers.rto;
        let mut rest: Vec<Segment> = Vec::new();
        std::mem::swap(&mut rest, &mut self.retransmission_queue);
        let n = rest.len();
        let mut actions: Vec<RetransmitAction> = Vec::new();
        let mut next_timer: Option<u64> = None;
        let mut timed_out: usize = 0;
        let mut i: usize = 0;
        while i < n
            invariant
                n == q0.len(),
                i <= n,
                rest@ == q0.subrange(i as int, n as int),
                self.retransmission_queue@.len() == i,
                forall|k: int|
                    0 <= k < i ==> swept(
                        #[trigger] q0[k],
                        self.retransmission_queue@[k],
                        now,
                        rto,
                    ),
                next_timer == min_deadline(self.retransmission_queue@),
                timed_out == due_positions(q0, now, i as nat).len(),
                timed_out <= i,
                actions@.len() == timed_out,
                forall|j: int|
                    0 <= j < timed_out ==> action_for(
                        #[trigger] actions@[j],
                        self.retransmission_queue@[due_positions(q0, now, i as nat)[j]],
                    ),
                self.timers == (TcpTimers {
                    consecutive_timeouts: sat_add_u32(
                        old_self.timers.consecutive_timeouts,
                        timed_out as nat,
                    ),
                    ..old_self.timers
                }),
                self.snd == old_self.snd,
                self.rcv == old_self.rcv,
                self.state == old_self.state,
                self.quad == old_self.quad,
                self.window == old_self.window,
                self.reassembly_queue@ == old_self.reassembly_queue@,
                rto == old_self.timers.rto,
                rto <= MAX_RTO_MS,
            decreases n - i,
        {
            let mut seg = rest.remove(0);
            assert(seg == q0[i as int]);
            let ghost before = self.retransmission_queue@;
            let is_due = match seg.retransmit_at {
                Some(at) => at <= now,
                None => false,
            };
            if is_due {
                let count = seg.retransmit_count.saturating_add(1);
                seg.retransmit_count = count;
                seg.retransmit_at = Some(now.saturating_add(backoff(rto, count)));
                self.timers.consecutive_timeouts = self.timers.consecutive_timeouts.saturating_add(
                    1,
                );
                timed_out = timed_out + 1;
                if count >= MAX_RETRANSMITS {
                    actions.push(
                        RetransmitAction::GiveUp {
                            seq: seg.seq,
                            reason: "Maximum retransmission attempts exceeded".to_string(),
                        },
                    );
                } else {
                    actions.push(
                        RetransmitAction::Retransmit {
                            seq: seg.seq,
                            flags: seg.flags,
                            data: copy_bytes(&seg.data),
                            attempt: count,
                        },
                    );
                }
            }
            proof {
                lemma_min_deadline_push(before, seg);
            }
            next_timer = match (next_timer, seg.retransmit_at) {
                (None, d) => d,
                (Some(a), None) => Some(a),
                (Some(a), Some(b)) => Some(if a <= b { a } else { b }),
            };
            self.retransmission_queue.push(seg);
            proof {
                let q2 = self.retransmission_queue@;
                assert(q2.drop_last() == before);
                lemma_due_positions_bound(q0, now, i as nat);
                let pos = due_positions(q0, now, (i + 1) as nat);
                assert forall|j: int| 0 <= j < timed_out implies action_for(
                    #[trigger] actions@[j],
                    q2[pos[j]],
                ) by {
                    if j < due_positions(q0, now, i as nat).len() {
                        assert(pos[j] == due_positions(q0, now, i as nat)[j]);
                        assert(q2[pos[j]] == before[pos[j]]);
                    }
                }
                assert(rest@ =~= q0.subrange(i + 1, n as int));
            }
            i = i + 1;
        }
        assert(q0.subrange(0, n as int) =~= q0);
        let ghost q2 = self.retransmission_queue@;
        self.timers.retransmit_timer = next_timer;
        proof {
            assert(old_self.wf());
            assert forall|k: int| 0 <= k < q2.len() implies #[trigger] q2[k].well_queued(
                self.snd.una,
                self.flight(),
            ) by {
                assert(swept(q0[k], q2[k], now, rto));
                assert(q0[k].well_queued(old_self.snd.una, old_self.flight()));
            }
            assert(self.reassembly_wf());
            assert(self.wf());
        }
        proof {
            assert forall|k: int|
                0 <= k < q2.len() && due(q0[k], now) implies {
                    let d = (#[trigger] q2[k]).retransmit_at->0;
                    &&& d <= now + 60000
                    &&& d <= now + rto as int * vstd::arithmetic::power2::pow2(
                        q2[k].retransmit_count as nat,
                    ) as int
                } by {
                assert(swept(q0[k], q2[k], now, rto));
                lemma_backoff_bound(rto, q2[k].retransmit_count);
            }
        }
        if timed_out > 0 {
            self.handle_timeout();
        }
        actions
    }
}

/// Segment `s` lies wholly below `ack`, counting from `una`.
pub open spec fn fully_acked(s: Segment, una: u32, ack: u32) -> bool {
    seq_diff(s.seq, una) + seg_len(s) <= seq_diff(ack, una)
}

/// The positions, in order, of the segments among the first `n` of `q`
/// that an ACK of `ack` leaves outstanding.
pub open spec fn kept_positions(q: Seq<Segment>, una: u32, ack: u32, n: nat) -> Seq<int>
    decreases n,
{
    if n == 0 {
        Seq::empty()
    } else {
        let rest = kept_positions(q, una, ack, (n - 1) as nat);
        if !fully_acked(q[n - 1], una, ack) {
            rest.push(n - 1)
        } else {
            rest
        }
    }
}

/// `t` is what remains of the outstanding segment `s` after an ACK of
/// `ack`: a segment that the ACK reaches into loses the acknowledged units
/// from its front (its SYN first, then payload) and starts at `ack`; every
/// remaining segment is due again at `deadline`.
pub open spec fn trimmed(s: Segment, t: Segment, una: u32, ack: u32, deadline: u64) -> bool {
    let a = seq_diff(ack, una);
    let o = seq_diff(s.seq, una);
    &&& t.ack == s.ack
    &&& t.window == s.window
    &&& t.timestamp == s.timestamp
    &&& t.retransmit_count == s.retransmit_count
    &&& t.retransmit_at == Some(deadline)
    &&& if o >= a {
        &&& t.seq == s.seq
        &&& t.flags == s.flags
        &&& t.data@ == s.data@
    } else {
        let k = a - o;
        &&& t.seq == ack
        &&& if flag_set(s.flags, FLAG_SYN) {
            &&& t.flags == s.flags - FLAG_SYN
            &&& t.data@ == s.data@.subrange(k - 1, s.data@.len() as int)
        } else {
            &&& t.flags == s.flags
            &&& t.data@ == s.data@.subrange(k, s.data@.len() as int)
        }
    }
}

/// The state an acceptable ACK leads to; `all` says whether it
/// acknowledges everything sent.
pub open spec fn state_after_ack(state: TcpState, all: bool) -> TcpState {
    if !all {
        state
    } else {
        match state {
            TcpState::SynRcvd => TcpState::Established,
            TcpState::FinWait1 => TcpState::FinWait2,
            TcpState::Closing => TcpState::TimeWait,
            TcpState::LastAck => TcpState::Closed,
            _ => state,
        }
    }
}

/// An RTT sample is taken from the oldest outstanding segment when this
/// ACK covers it whole and it was never retransmitted (Karn).
pub open spec fn rtt_sampled(q: Seq<Segment>, una: u32, ack: u32) -> bool {
    &&& q.len() > 0
    &&& q[0].retransmit_count == 0
    &&& q[0].timestamp is Some
    &&& fully_acked(q[0], una, ack)
}

/// The sample: time since the segment was first sent, in ms, held to 32 bits.
pub open spec fn rtt_sample(now: u64, sent: u64) -> u32 {
    let d: int = if now > sent { now - sent } else { 0 };
    if d > u32::MAX { u32::MAX } else { d as u32 }
}

proof fn lemma_kept_positions_bound(q: Seq<Segment>, una: u32, ack: u32, n: nat)
    ensures
        forall|j: int|
            0 <= j < kept_positions(q, una, ack, n).len() ==> 0 <= #[trigger] kept_positions(
                q,
                una,
                ack,
                n,
            )[j] < n,
    decreases n,
{
    if n > 0 {
        lemma_kept_positions_bound(q, una, ack, (n - 1) as nat);
        let rest = kept_positions(q, una, ack, (n - 1) as nat);
        assert forall|j: int| 0 <= j < kept_positions(q, una, ack, n).len() implies 0
            <= #[trigger] kept_positions(q, una, ack, n)[j] < n by {
            if j < rest.len() {
                assert(kept_positions(q, una, ack, n)[j] == rest[j]);
            }
        }
    }
}

/// A queue whose deadlines are all `d` has minimum deadline `d`.
proof fn lemma_min_deadline_uniform(q: Seq<Segment>, d: u64)
    requires
        forall|i: int| 0 <= i < q.len() ==> (#[trigger] q[i]).retransmit_at == Some(d),
    ensures
        min_deadline(q) == if q.len() == 0 { None } else { Some(d) },
    decreases q.len(),
{
    if q.len() > 0 {
        let p = q.drop_last();
        assert forall|i: int| 0 <= i < p.len() implies (#[trigger] p[i]).retransmit_at == Some(d) by {
            assert(p[i] == q[i]);
        }
        lemma_min_deadline_uniform(p, d);
        assert(q.last() == q[q.len() - 1]);
    }
}

/// Remove the first `k` units (SYN first, then payload) from a segment
/// that an ACK reaches into; it then starts at `ack`.
fn trim_front(seg: Segment, k: u32, ack: u32) -> (t: Segment)
    requires
        1 <= k < seg_len(seg),
    ensures
        t.seq == ack,
        t.ack == seg.ack,
        t.window == seg.window,
        t.timestamp == seg.timestamp,
        t.retransmit_count == seg.retransmit_count,
        t.retransmit_at == seg.retransmit_at,
        seg_len(t) == seg_len(seg) - k,
        if flag_set(seg.flags, FLAG_SYN) {
            &&& t.flags == seg.flags - FLAG_SYN
            &&& t.data@ == seg.data@.subrange(k - 1, seg.data@.len() as int)
        } else {
            &&& t.flags == seg.flags
            &&& t.data@ == seg.data@.subrange(k as int, seg.data@.len() as int)
        },
{
    let syn = has_flag(seg.flags, FLAG_SYN);
    let (flags, skip) = if syn {
        (seg.flags - FLAG_SYN, (k - 1) as usize)
    } else {
        (seg.flags, k as usize)
    };
    assert(flag_set(flags, FLAG_FIN) == flag_set(seg.flags, FLAG_FIN));
    assert(!flag_set(flags, FLAG_SYN));
    let len = seg.data.len();
    let data = vstd::slice::slice_to_vec(
        vstd::slice::slice_subrange(seg.data.as_slice(), skip, len),
    );
    Segment {
        seq: ack,
        ack: seg.ack,
        flags,
        window: seg.window,
        data,
        timestamp: seg.timestamp,
        retransmit_count: seg.retransmit_count,
        retransmit_at: seg.retransmit_at,
    }
}

fn seg_len_exec(seg: &Segment) -> (r: u64)
    requires
        seg.data@.len() < 0x1_0000_0000,
    ensures
        r == seg_len(*seg),
{
    let syn: u64 = if has_flag(seg.flags, FLAG_SYN) { 1 } else { 0 };
    let fin: u64 = if has_flag(seg.flags, FLAG_FIN) { 1 } else { 0 };
    seg.data.len() as u64 + syn + fin
}

/// The outstanding segments after an ACK of `ack`, `acked` units past
/// `una`: fully acknowledged ones dropped, one the ACK reaches into trimmed,
/// all due again at `deadline`.
fn prune_acknowledged(
    rest: Vec<Segment>,
    una: u32,
    ack: u32,
    flight: u32,
    deadline: u64,
) -> (out: Vec<Segment>)
    requires
        forall|k: int| 0 <= k < rest@.len() ==> #[trigger] rest@[k].well_queued(una, flight as nat),
        0 < seq_diff(ack, una) <= flight < 0x8000_0000,
    ensures
        ({
            let kept = kept_positions(rest@, una, ack, rest@.len());
            &&& out@.len() == kept.len()
            &&& forall|j: int|
                0 <= j < kept.len() ==> trimmed(rest@[#[trigger] kept[j]], out@[j], una, ack, deadline)
            &&& forall|j: int|
                0 <= j < out@.len() ==> {
                    &&& (#[trigger] out@[j]).well_queued(ack, (flight - seq_diff(ack, una)) as nat)
                    &&& out@[j].retransmit_at == Some(deadline)
                }
        }),
{
    let acked = wrapping_diff(ack, una);
    let mut rest = rest;
    let ghost q0 = rest@;
    let mut out: Vec<Segment> = Vec::new();
    let n = rest.len();
    let mut i: usize = 0;
    while i < n
        invariant
            n == q0.len(),
            i <= n,
            rest@ == q0.subrange(i as int, n as int),
            forall|k: int| 0 <= k < q0.len() ==> #[trigger] q0[k].well_queued(
                una,
                flight as nat,
            ),
            0 < acked <= flight < 0x8000_0000,
            acked == seq_diff(ack, una),
            out@.len() == kept_positions(q0, una, ack, i as nat).len(),
            forall|j: int|
                0 <= j < out@.len() ==> trimmed(
                    q0[#[trigger] kept_positions(q0, una, ack, i as nat)[j]],
                    out@[j],
                    una,
                    ack,
                    deadline,
                ),
            forall|j: int|
                0 <= j < out@.len() ==> {
                    &&& (#[trigger] out@[j]).well_queued(
                        ack,
                        (flight - acked) as nat,
                    )
                    &&& out@[j].retransmit_at == Some(deadline)
                },
        decreases n - i,
    {
        let seg = rest.remove(0);
        assert(seg == q0[i as int]);
        assert(seg.well_queued(una, flight as nat));
        let ghost before = out@;
        let off = wrapping_diff(seg.seq, una);
        let len = seg_len_exec(&seg);
        proof {
            lemma_kept_positions_bound(q0, una, ack, i as nat);
        }
        if off as u64 + len > acked as u64 {
            let mut kept = if off >= acked {
                seg
            } else {
                trim_front(seg, acked - off, ack)
            };
            kept.retransmit_at = Some(deadline);
            proof {
                if off >= acked {
                    assert(seq_diff(kept.seq, una) == seq_diff(kept.seq, ack) + acked);
                } else {
                    vstd::arithmetic::div_mod::lemma_mod_self_0(0x1_0000_0000int);
                }
            }
            out.push(kept);
            proof {
                let q2 = out@;
                let pos = kept_positions(q0, una, ack, (i + 1) as nat);
                assert forall|j: int| 0 <= j < q2.len() implies trimmed(
                    q0[#[trigger] pos[j]],
                    q2[j],
                    una,
                    ack,
                    deadline,
                ) by {
                    if j < before.len() {
                        assert(pos[j] == kept_positions(q0, una, ack, i as nat)[j]);
                        assert(q2[j] == before[j]);
                    }
                }
                assert forall|j: int| 0 <= j < q2.len() implies {
                    &&& (#[trigger] q2[j]).well_queued(ack, (flight - acked) as nat)
                    &&& q2[j].retransmit_at == Some(deadline)
                } by {
                    if j < before.len() {
                        assert(q2[j] == before[j]);
                    }
                }
            }
        } else {
            proof {
                assert(kept_positions(q0, una, ack, (i + 1) as nat) == kept_positions(
                    q0,
                    una,
                    ack,
                    i as nat,
                ));
            }
        }
        proof {
            assert(rest@ =~= q0.subrange(i + 1, n as int));
        }
        i = i + 1;
    }
    assert(q0.subrange(0, n as int) =~= q0);
    out
}

impl Tcb {
    /// Karn's rule: take an RTT sample from the oldest outstanding segment
    /// only when an ACK of `ack` covers it whole and it was never
    /// retransmitted.
    fn sample_rtt(&mut self, ack: u32, now: u64)
        requires
            old(self).wf(),
            old(self).ack_acceptable(ack),
        ensures
            final(self).wf(),
            if rtt_sampled(old(self).retransmission_queue@, old(self).snd.una, ack) {
                (final(self).timers.srtt, final(self).timers.rttvar, final(self).timers.rto)
                    == rtt_after(
                    old(self).timers.srtt,
                    old(self).timers.rttvar,
                    rtt_sample(now, old(self).retransmission_queue@[0].timestamp->0),
                )
            } else {
                &&& final(self).timers.srtt == old(self).timers.srtt
                &&& final(self).timers.rttvar == old(self).timers.rttvar
                &&& final(self).timers.rto == old(self).timers.rto
            },
            final(self).timers == (TcpTimers {
                srtt: final(self).timers.srtt,
                rttvar: final(self).timers.rttvar,
                rto: final(self).timers.rto,
                ..old(self).timers
            }),
            final(self).snd == old(self).snd,
            final(self).rcv == old(self).rcv,
            final(self).window == old(self).window,
            final(self).state == old(self).state,
            final(self).quad == old(self).quad,
            final(self).retransmission_queue@ == old(self).retransmission_queue@,
            final(self).reassembly_queue@ == old(self).reassembly_queue@,
    {
        if self.retransmission_queue.len() > 0 {
            let una = self.snd.una;
            let front = &self.retransmission_queue[0];
            proof {
                assert(front.well_queued(una, self.flight()));
            }
            let end = wrapping_diff(front.seq, una) as u64 + seg_len_exec(front);
            if front.retransmit_count == 0 && end <= wrapping_diff(ack, una) as u64 {
                match front.timestamp {
                    Some(sent) => {
                        let d = now.saturating_sub(sent);
                        let sample: u32 = if d > u32::MAX as u64 { u32::MAX } else { d as u32 };
                        self.update_rtt(sample);
                    },
                    None => {},
                }
            }
        }
    }

    /// The congestion window after an acceptable ACK.
    fn grow_cwnd(&mut self)
        requires
            old(self).window.cwnd >= old(self).window.mss > 0,
        ensures
            *final(self) == (Tcb {
                window: WindowManagement {
                    cwnd: cwnd_after_ack(
                        old(self).window.cwnd,
                        old(self).window.ssthresh,
                        old(self).window.mss,
                    ),
                    ..old(self).window
                },
                ..*old(self)
            }),
    {
        let mss = self.window.mss as u32;
        if self.window.cwnd < self.window.ssthresh {
            self.window.cwnd = self.window.cwnd.saturating_add(mss);
        } else {
            assert(mss * mss <= 65535 * 65535) by (nonlinear_arith)
                requires
                    mss <= 65535,
            ;
            let increment = (mss * mss) / self.window.cwnd;
            self.window.cwnd = self.window.cwnd.saturating_add(
                if increment < 1 { 1 } else { increment },
            );
        }
    }
}

impl Tcb {
    /// Process an ACK of `ack` advertising `window`, received at `now`.
    ///
    /// An ACK outside (SND.UNA, SND.NXT] -- a duplicate, or one for data
    /// never sent -- changes nothing and yields `false`. An acceptable one
    /// yields `true`: an RTT sample is taken only from a never-retransmitted
    /// oldest segment that it covers; SND.UNA = `ack`, SND.WND = `window`;
    /// fully acknowledged segments leave the queue and one it reaches into is
    /// trimmed; the rest are due again at `now` + RTO, or the timer is
    /// cleared when none remain; cwnd grows by slow start or congestion
    /// avoidance; and an ACK of everything sent completes the handshake,
    /// FIN-WAIT-1, CLOSING (TIME-WAIT starts at `now`) or LAST-ACK.
    #[verifier::rlimit(40)]
    pub fn process_ack(&mut self, ack: u32, window: u16, now: u64) -> (r: bool)
        requires
            old(self).wf(),
        ensures
            final(self).wf(),
            send_order_kept(*old(self), *final(self)),
            r == old(self).ack_acceptable(ack),
            !r ==> *final(self) == *old(self),
            old(self).retransmission_queue@.len() > 0
                && old(self).retransmission_queue@[0].retransmit_count > 0 ==> {
                &&& final(self).timers.srtt == old(self).timers.srtt
                &&& final(self).timers.rttvar == old(self).timers.rttvar
                &&& final(self).timers.rto == old(self).timers.rto
            },
            r ==> {
                let q = old(self).retransmission_queue@;
                let q2 = final(self).retransmission_queue@;
                let una = old(self).snd.una;
                let kept = kept_positions(q, una, ack, q.len());
                let rto = final(self).timers.rto;
                &&& final(self).snd == (SendSequence { una: ack, wnd: window, ..old(self).snd })
                &&& if rtt_sampled(q, una, ack) {
                    (final(self).timers.srtt, final(self).timers.rttvar, rto) == rtt_after(
                        old(self).timers.srtt,
                        old(self).timers.rttvar,
                        rtt_sample(now, q[0].timestamp->0),
                    )
                } else {
                    &&& final(self).timers.srtt == old(self).timers.srtt
                    &&& final(self).timers.rttvar == old(self).timers.rttvar
                    &&& rto == old(self).timers.rto
                }
                &&& q2.len() == kept.len()
                &&& forall|j: int|
                    0 <= j < kept.len() ==> trimmed(
                        q[#[trigger] kept[j]],
                        q2[j],
                        una,
                        ack,
                        later(now, rto as u64),
                    )
                &&& final(self).timers.retransmit_timer == if q2.len() == 0 {
                    None
                } else {
                    Some(later(now, rto as u64))
                }
                &&& final(self).timers.consecutive_timeouts == 0
                &&& final(self).timers.last_ack == Some(now)
                &&& final(self).timers.last_send == old(self).timers.last_send
                &&& final(self).window == (WindowManagement {
                    cwnd: cwnd_after_ack(
                        old(self).window.cwnd,
                        old(self).window.ssthresh,
                        old(self).window.mss,
                    ),
                    ..old(self).window
                })
                &&& final(self).state == state_after_ack(old(self).state, ack == old(self).snd.nxt)
                &&& final(self).timers.time_wait == if old(self).state == TcpState::Closing && ack
                    == old(self).snd.nxt {
                    Some(now)
                } else {
                    old(self).timers.time_wait
                }
            },
            final(self).rcv == old(self).rcv,
            final(self).quad == old(self).quad,
            final(self).reassembly_queue@ == old(self).reassembly_queue@,
    {
        proof {
            lemma_send_order(*self, *self);
        }
        if !self.is_ack_acceptable(ack) {
            return false;
        }
        let ghost old_self = *self;
        let ghost q0 = self.retransmission_queue@;
        let una = self.snd.una;
        let acked = wrapping_diff(ack, una);
        let flight = wrapping_diff(self.snd.nxt, una);
        self.sample_rtt(ack, now);
        let rto = self.timers.rto;
        let deadline = now.saturating_add(rto as u64);
        let mut outstanding: Vec<Segment> = Vec::new();
        std::mem::swap(&mut outstanding, &mut self.retransmission_queue);
        assert(outstanding@ == q0);
        self.retransmission_queue = prune_acknowledged(outstanding, una, ack, flight, deadline);
        proof {
            lemma_min_deadline_uniform(self.retransmission_queue@, deadline);
        }
        self.timers.retransmit_timer = if self.retransmission_queue.len() == 0 {
            None
        } else {
            Some(deadline)
        };
        self.timers.consecutive_timeouts = 0;
        self.timers.last_ack = Some(now);
        self.snd.wnd = window;
        self.snd.una = ack;
        self.grow_cwnd();
        if ack == self.snd.nxt {
            match self.state {
                TcpState::SynRcvd => {
                    self.state = TcpState::Established;
                },
                TcpState::FinWait1 => {
                    self.state = TcpState::FinWait2;
                },
                TcpState::Closing => {
                    self.state = TcpState::TimeWait;
                    self.timers.time_wait = Some(now);
                },
                TcpState::LastAck => {
                    self.state = TcpState::Closed;
                },
                _ => {},
            }
        }
        proof {
            assert(self.flight() == flight - acked);
            lemma_send_order(old_self, *self);
        }
        true
    }
}

/// The bytes that connect once delivery has reached `adv` bytes past
/// `base`, collected from the held segments `q` in order: a segment wholly
/// below that point is skipped, one reaching past it gives its bytes from
/// that point on and moves the point to its end, and the first segment that
/// starts beyond the point ends the run.
pub open spec fn drain_out(q: Seq<Segment>, base: u32, adv: nat) -> Seq<u8>
    decreases q.len(),
{
    if q.len() == 0 {
        Seq::empty()
    } else {
        let o = seq_diff(q[0].seq, base);
        let l = q[0].data@.len();
        if o + l <= adv {
            drain_out(q.drop_first(), base, adv)
        } else if o <= adv {
            q[0].data@.subrange(adv - o, l as int) + drain_out(q.drop_first(), base, o + l)
        } else {
            Seq::empty()
        }
    }
}

/// The held segments that remain after the run that `drain_out` collects.
pub open spec fn drain_rest(q: Seq<Segment>, base: u32, adv: nat) -> Seq<Segment>
    decreases q.len(),
{
    if q.len() == 0 {
        q
    } else {
        let o = seq_diff(q[0].seq, base);
        let l = q[0].data@.len();
        if o + l <= adv {
            drain_rest(q.drop_first(), base, adv)
        } else if o <= adv {
            drain_rest(q.drop_first(), base, o + l)
        } else {
            q
        }
    }
}

/// The payloads of `q`, concatenated in queue order.
pub open spec fn payloads(q: Seq<Segment>) -> Seq<u8>
    decreases q.len(),
{
    if q.len() == 0 {
        Seq::empty()
    } else {
        q[0].data@ + payloads(q.drop_first())
    }
}

/// The held segments `q` tile the sequence space from `adv` bytes past
/// `base` on: each non-empty, each starting where the one before it ends.
pub open spec fn tiles_from(q: Seq<Segment>, base: u32, adv: nat) -> bool
    decreases q.len(),
{
    q.len() == 0 || {
        &&& seq_diff(q[0].seq, base) == adv
        &&& q[0].data@.len() >= 1
        &&& tiles_from(q.drop_first(), base, adv + q[0].data@.len())
    }
}

/// Held segments that tile the sequence space right after the bytes
/// delivered so far are all delivered, whole and in sequence order, and
/// none stays held: which order they arrived in does not matter.
pub proof fn lemma_tiled_segments_delivered_in_order(q: Seq<Segment>, base: u32, adv: nat)
    requires
        tiles_from(q, base, adv),
    ensures
        drain_out(q, base, adv) == payloads(q),
        drain_rest(q, base, adv) == Seq::<Segment>::empty(),
    decreases q.len(),
{
    if q.len() > 0 {
        let l = q[0].data@.len();
        lemma_tiled_segments_delivered_in_order(q.drop_first(), base, adv + l);
        assert(q[0].data@.subrange(0, l as int) =~= q[0].data@);
    }
}

/// Two byte ranges, given by offset and length, share a byte.
pub open spec fn ranges_overlap(o1: nat, l1: nat, o2: nat, l2: nat) -> bool {
    o1 < o2 + l2 && o2 < o1 + l1
}

impl Tcb {
    /// Offset of reassembly entry `i` from RCV.NXT.
    pub open spec fn rq_off(&self, i: int) -> nat {
        seq_diff(self.reassembly_queue@[i].seq, self.rcv.nxt)
    }

    /// `len` bytes at `seq` share a byte with a segment held for reassembly.
    pub open spec fn overlaps_held(&self, seq: u32, len: nat) -> bool {
        exists|i: int|
            0 <= i < self.reassembly_queue@.len() && ranges_overlap(
                self.rq_off(i),
                self.reassembly_queue@[i].data@.len(),
                seq_diff(seq, self.rcv.nxt),
                len,
            )
    }

    /// Hold an out-of-order segment (starting after RCV.NXT, within 2^16)
    /// in the reassembly queue, sorted by sequence number. A segment that
    /// shares a byte with one already held is dropped.
    fn buffer_segment(&mut self, seq: u32, data: &[u8])
        requires
            old(self).wf(),
            0 < seq_diff(seq, old(self).rcv.nxt) < 0x10000,
            1 <= data@.len() <= 0x10000,
        ensures
            final(self).wf(),
            old(self).overlaps_held(seq, data@.len()) ==> final(self).reassembly_queue@ == old(
                self,
            ).reassembly_queue@,
            !old(self).overlaps_held(seq, data@.len()) ==> exists|p: int|
                0 <= p < final(self).reassembly_queue@.len()
                    && final(self).reassembly_queue@[p].seq == seq
                    && final(self).reassembly_queue@[p].data@ == data@
                    && final(self).reassembly_queue@.remove(p) == old(self).reassembly_queue@,
            final(self).snd == old(self).snd,
            final(self).rcv == old(self).rcv,
            final(self).state == old(self).state,
            final(self).quad == old(self).quad,
            final(self).window == old(self).window,
            final(self).timers == old(self).timers,
            final(self).retransmission_queue@ == old(self).retransmission_queue@,
    {
        let ghost q = self.reassembly_queue@;
        let ghost start = *self;
        let nxt = self.rcv.nxt;
        let off = wrapping_diff(seq, nxt);
        let len = data.len() as u32;
        let n = self.reassembly_queue.len();
        let mut i: usize = 0;
        let mut pos: usize = n;
        while i < n
            invariant
                n == q.len(),
                i <= n,
                *self == start,
                start.wf(),
                start.reassembly_queue@ == q,
                start.rcv.nxt == nxt,
                off < 0x10000,
                1 <= len <= 0x10000,
                off as nat == seq_diff(seq, nxt),
                len as nat == data@.len(),
                pos <= n,
                forall|k: int|
                    0 <= k < i ==> !ranges_overlap(
                        seq_diff(#[trigger] q[k].seq, nxt),
                        q[k].data@.len(),
                        off as nat,
                        len as nat,
                    ),
                pos < i ==> seq_diff(q[pos as int].seq, nxt) > off,
                forall|k: int| 0 <= k < i && k < pos ==> seq_diff(#[trigger] q[k].seq, nxt) < off,
                pos >= i ==> pos == n,
            decreases n - i,
        {
            let o = wrapping_diff(self.reassembly_queue[i].seq, nxt);
            proof {
                assert(0 < seq_diff(q[i as int].seq, nxt) < 0x10000);
                assert(1 <= q[i as int].data@.len() <= 0x10000);
                assert(self.reassembly_queue@[i as int] == q[i as int]);
            }
            let l = self.reassembly_queue[i].data.len() as u32;
            proof {
                assert(o as nat == seq_diff(q[i as int].seq, nxt));
                assert(l as nat == q[i as int].data@.len());
                assert(off as nat == seq_diff(seq, nxt));
                assert(len as nat == data@.len());
            }
            if o < off + len && off < o + l {
                proof {
                    assert(ranges_overlap(
                        start.rq_off(i as int),
                        q[i as int].data@.len(),
                        seq_diff(seq, nxt),
                        data@.len(),
                    ));
                }
                return;
            }
            proof {
                assert(o != off);
            }
            if pos == n && o > off {
                pos = i;
            }
            i = i + 1;
        }
        let segment = Segment {
            seq,
            ack: 0,
            flags: 0,
            window: 0,
            data: vstd::slice::slice_to_vec(data),
            timestamp: None,
            retransmit_count: 0,
            retransmit_at: None,
        };
        self.reassembly_queue.insert(pos, segment);
        proof {
            let q2 = self.reassembly_queue@;
            assert(q2.remove(pos as int) =~= q);
            assert forall|k: int| 0 <= k < q.len() && k >= pos implies seq_diff(
                #[trigger] q[k].seq,
                nxt,
            ) > off by {
                if k > pos {
                    assert(seq_diff(q[pos as int].seq, nxt) + q[pos as int].data@.len()
                        <= seq_diff(q[k].seq, nxt));
                }
            }
            assert forall|a: int, b: int| 0 <= a < b < q2.len() implies seq_diff(
                #[trigger] q2[a].seq,
                nxt,
            ) + q2[a].data@.len() <= seq_diff(#[trigger] q2[b].seq, nxt) by {
                if a < pos && b < pos {
                } else if a < pos && b == pos {
                    assert(!ranges_overlap(seq_diff(q[a].seq, nxt), q[a].data@.len(), off as nat, len as nat));
                } else if a < pos && b > pos {
                    assert(q2[b] == q[b - 1]);
                } else if a == pos {
                    assert(q2[b] == q[b - 1]);
                    assert(!ranges_overlap(seq_diff(q[b - 1].seq, nxt), q[b - 1].data@.len(), off as nat, len as nat));
                } else {
                    assert(q2[a] == q[a - 1]);
                    assert(q2[b] == q[b - 1]);
                }
            }
            assert forall|k: int| 0 <= k < q2.len() implies {
                &&& 0 < seq_diff(#[trigger] q2[k].seq, nxt) < 0x10000
                &&& 1 <= q2[k].data@.len() <= 0x10000
            } by {
                if k < pos {
                    assert(q2[k] == q[k]);
                } else if k > pos {
                    assert(q2[k] == q[k - 1]);
                }
            }
        }
    }
}

proof fn lemma_diff_shift(x: u32, base: u32, adv: nat)
    requires
        adv <= seq_diff(x, base),
    ensures
        seq_diff(x, ((base + adv) % 0x1_0000_0000) as u32) == seq_diff(x, base) - adv,
{
    let nb = ((base + adv) % 0x1_0000_0000) as u32;
    assert(adv < 0x1_0000_0000);
    if base + adv < 0x1_0000_0000 {
        assert(nb == base + adv);
    } else {
        assert(nb == base + adv - 0x1_0000_0000);
    }
}

impl Tcb {
    /// Deliver `data`, which starts at RCV.NXT, followed by whatever held
    /// segments it now connects with; RCV.NXT moves past all of it. Held
    /// segments it overtakes are dropped or trimmed.
    fn deliver_in_order(&mut self, data: &[u8]) -> (out: Vec<u8>)
        requires
            old(self).wf(),
            data@.len() <= 0x10000,
        ensures
            final(self).wf(),
            data@.len() <= out@.len() <= 0x20000,
            out@ == data@ + drain_out(old(self).reassembly_queue@, old(self).rcv.nxt, data@.len()),
            final(self).reassembly_queue@ == drain_rest(
                old(self).reassembly_queue@,
                old(self).rcv.nxt,
                data@.len(),
            ),
            final(self).rcv == (ReceiveSequence {
                nxt: ((old(self).rcv.nxt + out@.len()) % 0x1_0000_0000) as u32,
                ..old(self).rcv
            }),
            final(self).snd == old(self).snd,
            final(self).state == old(self).state,
            final(self).quad == old(self).quad,
            final(self).window == old(self).window,
            final(self).timers == old(self).timers,
            final(self).retransmission_queue@ == old(self).retransmission_queue@,
    {
        let ghost start = *self;
        let ghost q0 = self.reassembly_queue@;
        let base = self.rcv.nxt;
        let mut out = vstd::slice::slice_to_vec(data);
        let mut adv: u64 = data.len() as u64;
        let mut stop = false;
        let ghost mut k: int = 0;
        let ghost dl = data@.len();
        assert(q0.subrange(0, q0.len() as int) =~= q0);
        while !stop && self.reassembly_queue.len() > 0
            invariant
                start.wf(),
                start.reassembly_queue@ == q0,
                start.rcv.nxt == base,
                0 <= k <= q0.len(),
                self.reassembly_queue@ == q0.subrange(k, q0.len() as int),
                adv == out@.len(),
                data@.len() <= adv <= 0x20000,
                dl == data@.len(),
                !stop ==> data@ + drain_out(q0, base, dl) == out@ + drain_out(
                    self.reassembly_queue@,
                    base,
                    adv as nat,
                ),
                !stop ==> drain_rest(q0, base, dl) == drain_rest(
                    self.reassembly_queue@,
                    base,
                    adv as nat,
                ),
                stop ==> data@ + drain_out(q0, base, dl) == out@,
                stop ==> drain_rest(q0, base, dl) == self.reassembly_queue@,
                stop ==> k < q0.len() && seq_diff(q0[k].seq, base) > adv,
                self.rcv == start.rcv,
                self.snd == start.snd,
                self.state == start.state,
                self.quad == start.quad,
                self.window == start.window,
                self.timers == start.timers,
                self.retransmission_queue@ == start.retransmission_queue@,
            decreases q0.len() - k + (if stop { 0int } else { 1int }),
        {
            let ghost sq = self.reassembly_queue@;
            let ghost adv0 = adv as nat;
            proof {
                assert(self.reassembly_queue@[0] == q0[k]);
                assert(0 < seq_diff(q0[k].seq, base) < 0x10000);
                assert(1 <= q0[k].data@.len() <= 0x10000);
            }
            let o = wrapping_diff(self.reassembly_queue[0].seq, base) as u64;
            let l = self.reassembly_queue[0].data.len() as u64;
            if o + l <= adv {
                self.reassembly_queue.remove(0);
                proof {
                    k = k + 1;
                    assert(self.reassembly_queue@ =~= q0.subrange(k, q0.len() as int));
                    assert(self.reassembly_queue@ =~= sq.drop_first());
                    assert(drain_out(sq, base, adv0) == drain_out(sq.drop_first(), base, adv0));
                    assert(drain_rest(sq, base, adv0) == drain_rest(sq.drop_first(), base, adv0));
                }
            } else if o <= adv {
                let seg = self.reassembly_queue.remove(0);
                let tail = vstd::slice::slice_subrange(seg.data.as_slice(), (adv - o) as usize, l as usize);
                let ghost before = out@;
                crate::packet::append_bytes(&mut out, tail);
                adv = o + l;
                proof {
                    k = k + 1;
                    assert(self.reassembly_queue@ =~= q0.subrange(k, q0.len() as int));
                    assert(self.reassembly_queue@ =~= sq.drop_first());
                    let rest_out = drain_out(sq.drop_first(), base, adv as nat);
                    assert(drain_out(sq, base, adv0) == tail@ + rest_out);
                    assert(drain_rest(sq, base, adv0) == drain_rest(sq.drop_first(), base, adv as nat));
                    assert(before + (tail@ + rest_out) =~= out@ + rest_out);
                }
            } else {
                stop = true;
                proof {
                    assert(drain_out(sq, base, adv0) == Seq::<u8>::empty());
                    assert(drain_rest(sq, base, adv0) == sq);
                    assert(out@ + Seq::<u8>::empty() =~= out@);
                }
            }
        }
        proof {
            if !stop {
                assert(self.reassembly_queue@.len() == 0);
                assert(out@ + Seq::<u8>::empty() =~= out@);
            }
        }
        let ghost rest = self.reassembly_queue@;
        self.rcv.nxt = base.wrapping_add(adv as u32);
        proof {
            let nb = self.rcv.nxt;
            assert(nb == ((base + adv) % 0x1_0000_0000) as u32);
            // every segment still held lies beyond what was delivered
            assert forall|j: int| 0 <= j < rest.len() implies seq_diff(#[trigger] rest[j].seq, base)
                > adv by {
                assert(rest[j] == q0[k + j]);
                if j > 0 {
                    assert(seq_diff(q0[k].seq, base) + q0[k].data@.len() <= seq_diff(q0[k + j].seq, base));
                }
            }
            assert forall|j: int| 0 <= j < rest.len() implies {
                &&& 0 < seq_diff(#[trigger] rest[j].seq, nb) < 0x10000
                &&& 1 <= rest[j].data@.len() <= 0x10000
            } by {
                assert(rest[j] == q0[k + j]);
                lemma_diff_shift(rest[j].seq, base, adv as nat);
            }
            assert forall|a: int, b: int| 0 <= a < b < rest.len() implies seq_diff(
                #[trigger] rest[a].seq,
                nb,
            ) + rest[a].data@.len() <= seq_diff(#[trigger] rest[b].seq, nb) by {
                assert(rest[a] == q0[k + a]);
                assert(rest[b] == q0[k + b]);
                lemma_diff_shift(rest[a].seq, base, adv as nat);
                lemma_diff_shift(rest[b].seq, base, adv as nat);
            }
            assert(self.reassembly_wf());
        }
        out
    }

    /// Receive a segment of `data` at `seq`. `None` when it fails the
    /// acceptance test (the caller answers with a bare ACK). Otherwise the
    /// bytes now deliverable in order: a segment at or overlapping RCV.NXT
    /// is delivered (its leading bytes before RCV.NXT trimmed) together with
    /// held segments that now connect; one further ahead is held for
    /// reassembly and nothing is delivered.
    #[verifier::rlimit(50)]
    pub fn receive_data(&mut self, seq: u32, data: &[u8]) -> (r: Option<Vec<u8>>)
        requires
            old(self).wf(),
            data@.len() <= 0xFFFF,
        ensures
            final(self).wf(),
            send_order_kept(*old(self), *final(self)),
            r is None <==> !segment_acceptable(
                old(self).rcv.nxt,
                old(self).rcv.wnd,
                seq,
                data@.len(),
            ),
            r is None ==> *final(self) == *old(self),
            r is Some ==> {
                let off = seq_diff(seq, old(self).rcv.nxt);
                let out = r->0@;
                &&& final(self).rcv == (ReceiveSequence {
                    nxt: ((old(self).rcv.nxt + out.len()) % 0x1_0000_0000) as u32,
                    ..old(self).rcv
                })
                &&& if off == 0 || off >= 0x8000_0000 {
                    let skip: int = if off == 0 { 0 } else { 0x1_0000_0000 - off };
                    let fresh = data@.subrange(skip, data@.len() as int);
                    &&& 0 <= skip <= data@.len()
                    &&& out == fresh + drain_out(
                        old(self).reassembly_queue@,
                        old(self).rcv.nxt,
                        fresh.len(),
                    )
                    &&& final(self).reassembly_queue@ == drain_rest(
                        old(self).reassembly_queue@,
                        old(self).rcv.nxt,
                        fresh.len(),
                    )
                } else {
                    &&& out.len() == 0
                    &&& data@.len() == 0 || old(self).overlaps_held(seq, data@.len())
                        ==> final(self).reassembly_queue@ == old(self).reassembly_queue@
                    &&& data@.len() > 0 && !old(self).overlaps_held(seq, data@.len())
                        ==> exists|p: int|
                        0 <= p < final(self).reassembly_queue@.len()
                            && final(self).reassembly_queue@[p].seq == seq
                            && final(self).reassembly_queue@[p].data@ == data@
                            && final(self).reassembly_queue@.remove(p) == old(
                            self,
                        ).reassembly_queue@
                }
            },
            final(self).snd == old(self).snd,
            final(self).state == old(self).state,
            final(self).quad == old(self).quad,
            final(self).window == old(self).window,
            final(self).timers == old(self).timers,
            final(self).retransmission_queue@ == old(self).retransmission_queue@,
    {
        let len = data.len();
        if !self.is_segment_acceptable(seq, len as u32) {
            return None;
        }
        let off = wrapping_diff(seq, self.rcv.nxt);
        if off == 0 {
            Some(self.deliver_in_order(data))
        } else if off >= 0x8000_0000 {
            let skip = (0xFFFF_FFFFu32 - off + 1) as usize;
            proof {
                assert(len >= 1);
                assert(skip < len);
            }
            let fresh = vstd::slice::slice_subrange(data, skip, len);
            Some(self.deliver_in_order(fresh))
        } else {
            if len > 0 {
                self.buffer_segment(seq, data);
            }
            Some(Vec::new())
        }
    }
}

/// The state a FIN at RCV.NXT leads to, where one is expected.
pub open spec fn state_after_fin(state: TcpState) -> TcpState {
    match state {
        TcpState::Established => TcpState::CloseWait,
        TcpState::FinWait1 => TcpState::Closing,
        TcpState::FinWait2 => TcpState::TimeWait,
        _ => state,
    }
}

pub open spec fn fin_expected(state: TcpState) -> bool {
    state == TcpState::Established || state == TcpState::FinWait1 || state
        == TcpState::FinWait2
}

/// The state a local close leads to, where one is allowed.
pub open spec fn state_after_close(state: TcpState) -> TcpState {
    match state {
        TcpState::Established => TcpState::FinWait1,
        TcpState::CloseWait => TcpState::LastAck,
        _ => state,
    }
}

impl Tcb {
    /// Process the peer's FIN at `seq`, received at `now`. It counts only
    /// at RCV.NXT in ESTABLISHED (to CLOSE-WAIT), FIN-WAIT-1 (to CLOSING) or
    /// FIN-WAIT-2 (to TIME-WAIT, which starts at `now`): RCV.NXT moves past
    /// it, nothing more is held for reassembly, and the result is `true`, the
    /// caller owing an ACK. Otherwise nothing changes.
    pub fn process_fin(&mut self, seq: u32, now: u64) -> (r: bool)
        requires
            old(self).wf(),
        ensures
            final(self).wf(),
            send_order_kept(*old(self), *final(self)),
            r == (seq == old(self).rcv.nxt && fin_expected(old(self).state)),
            !r ==> *final(self) == *old(self),
            r ==> {
                &&& final(self).state == state_after_fin(old(self).state)
                &&& final(self).rcv == (ReceiveSequence {
                    nxt: old(self).rcv.nxt.wrapping_add(1),
                    ..old(self).rcv
                })
                &&& final(self).reassembly_queue@.len() == 0
                &&& final(self).timers == (TcpTimers {
                    time_wait: if old(self).state == TcpState::FinWait2 {
                        Some(now)
                    } else {
                        old(self).timers.time_wait
                    },
                    ..old(self).timers
                })
                &&& final(self).snd == old(self).snd
                &&& final(self).window == old(self).window
                &&& final(self).quad == old(self).quad
                &&& final(self).retransmission_queue@ == old(self).retransmission_queue@
            },
    {
        if seq != self.rcv.nxt {
            return false;
        }
        let next = match self.state {
            TcpState::Established => TcpState::CloseWait,
            TcpState::FinWait1 => TcpState::Closing,
            TcpState::FinWait2 => TcpState::TimeWait,
            _ => {
                return false;
            },
        };
        if next == TcpState::TimeWait {
            self.timers.time_wait = Some(now);
        }
        self.state = next;
        self.rcv.nxt = self.rcv.nxt.wrapping_add(1);
        self.reassembly_queue = Vec::new();
        true
    }

    /// Local close at `now`: from ESTABLISHED (to FIN-WAIT-1) or CLOSE-WAIT
    /// (to LAST-ACK) a FIN+ACK is sent at SND.NXT and queued for
    /// retransmission, and its sequence number is returned. Elsewhere
    /// nothing changes and the result is `None`.
    pub fn close(&mut self, now: u64) -> (r: Option<u32>)
        requires
            old(self).wf(),
            old(self).flight() + 1 < 0x8000_0000,
        ensures
            final(self).wf(),
            send_order_kept(*old(self), *final(self)),
            (r is Some) == (old(self).state == TcpState::Established || old(self).state
                == TcpState::CloseWait),
            r is None ==> *final(self) == *old(self),
            r is Some ==> {
                let q = final(self).retransmission_queue@;
                &&& r->0 == old(self).snd.nxt
                &&& final(self).state == state_after_close(old(self).state)
                &&& final(self).snd == (SendSequence {
                    nxt: old(self).snd.nxt.wrapping_add(1),
                    ..old(self).snd
                })
                &&& q.drop_last() == old(self).retransmission_queue@
                &&& q.len() == old(self).retransmission_queue@.len() + 1
                &&& q.last().seq == old(self).snd.nxt
                &&& q.last().flags == FLAG_FIN | FLAG_ACK
                &&& q.last().data@.len() == 0
                &&& final(self).rcv == old(self).rcv
                &&& final(self).reassembly_queue@ == old(self).reassembly_queue@
            },
    {
        let next = match self.state {
            TcpState::Established => TcpState::FinWait1,
            TcpState::CloseWait => TcpState::LastAck,
            _ => {
                return None;
            },
        };
        assert((FLAG_FIN | FLAG_ACK) == 0x11u8) by (bit_vector);
        assert(segment_len(FLAG_FIN | FLAG_ACK, 0) == 1);
        let fin_seq = self.send_segment(FLAG_FIN | FLAG_ACK, Vec::new(), now);
        self.state = next;
        Some(fin_seq)
    }

    /// Process a RST at `seq`: one that passes the acceptance test closes
    /// the connection (CLOSED, both queues emptied, no timer) and yields
    /// `true`; any other changes nothing.
    pub fn process_rst(&mut self, seq: u32) -> (r: bool)
        requires
            old(self).wf(),
        ensures
            final(self).wf(),
            send_order_kept(*old(self), *final(self)),
            r == segment_acceptable(old(self).rcv.nxt, old(self).rcv.wnd, seq, 0),
            !r ==> *final(self) == *old(self),
            r ==> {
                &&& final(self).state == TcpState::Closed
                &&& final(self).retransmission_queue@.len() == 0
                &&& final(self).reassembly_queue@.len() == 0
                &&& final(self).timers == (TcpTimers { retransmit_timer: None, ..old(self).timers })
                &&& final(self).snd == old(self).snd
                &&& final(self).rcv == old(self).rcv
                &&& final(self).window == old(self).window
                &&& final(self).quad == old(self).quad
            },
    {
        if !self.is_segment_acceptable(seq, 0) {
            return false;
        }
        self.state = TcpState::Closed;
        self.retransmission_queue = Vec::new();
        self.reassembly_queue = Vec::new();
        self.timers.retransmit_timer = None;
        true
    }
}

/// `a` comes before `b`, or is `b`, in sequence space.
pub open spec fn seq_leq_spec(a: u32, b: u32) -> bool {
    a == b || seq_lt_spec(a, b)
}

/// From `a` to `b`, SND.UNA did not move backwards in sequence space, and
/// in `b` SND.NXT is not before SND.UNA.
pub open spec fn send_order_kept(a: Tcb, b: Tcb) -> bool {
    &&& seq_leq_spec(a.snd.una, b.snd.una)
    &&& seq_leq_spec(b.snd.una, b.snd.nxt)
}

/// Every segment awaiting acknowledgment starts at or after SND.UNA and
/// before SND.NXT.
pub open spec fn queue_consistent(t: Tcb) -> bool {
    forall|i: int|
        0 <= i < t.retransmission_queue@.len() ==> {
            &&& seq_leq_spec(t.snd.una, (#[trigger] t.retransmission_queue@[i]).seq)
            &&& seq_lt_spec(t.retransmission_queue@[i].seq, t.snd.nxt)
        }
}

proof fn lemma_ahead(a: u32, b: u32)
    requires
        seq_diff(b, a) < 0x8000_0000,
    ensures
        seq_leq_spec(a, b),
        seq_diff(b, a) > 0 ==> seq_lt_spec(a, b),
{
}

/// An event that moves SND.UNA forward by at most what was in flight, on
/// a control block that keeps its invariant, keeps the send order.
proof fn lemma_send_order(a: Tcb, b: Tcb)
    requires
        a.wf(),
        b.wf(),
        seq_diff(b.snd.una, a.snd.una) <= a.flight(),
    ensures
        send_order_kept(a, b),
{
    lemma_ahead(a.snd.una, b.snd.una);
    lemma_ahead(b.snd.una, b.snd.nxt);
}

/// In every well-formed control block, each queued segment lies in
/// [SND.UNA, SND.NXT).
pub proof fn lemma_queue_consistent(t: Tcb)
    requires
        t.wf(),
    ensures
        queue_consistent(t),
{
    assert forall|i: int| 0 <= i < t.retransmission_queue@.len() implies {
        &&& seq_leq_spec(t.snd.una, (#[trigger] t.retransmission_queue@[i]).seq)
        &&& seq_lt_spec(t.retransmission_queue@[i].seq, t.snd.nxt)
    } by {
        let q = t.retransmission_queue@[i];
        assert(q.well_queued(t.snd.una, t.flight()));
        lemma_ahead(t.snd.una, q.seq);
        let d = seq_diff(q.seq, t.snd.una);
        assert(seq_diff(t.snd.nxt, q.seq) == t.flight() - d);
        lemma_ahead(q.seq, t.snd.nxt);
    }
}

proof fn lemma_min_deadline_some(q: Seq<Segment>)
    requires
        forall|i: int| 0 <= i < q.len() ==> (#[trigger] q[i]).retransmit_at is Some,
    ensures
        min_deadline(q) is Some <==> q.len() > 0,
    decreases q.len(),
{
    if q.len() > 0 {
        let p = q.drop_last();
        assert forall|i: int| 0 <= i < p.len() implies (#[trigger] p[i]).retransmit_at is Some by {
            assert(p[i] == q[i]);
        }
        lemma_min_deadline_some(p);
        assert(q.last() == q[q.len() - 1]);
    }
}

/// In every well-formed control block the retransmission timer is set
/// exactly when segments await acknowledgment.
pub proof fn lemma_timer_iff_outstanding(t: Tcb)
    requires
        t.wf(),
    ensures
        t.timers.retransmit_timer is Some <==> t.retransmission_queue@.len() > 0,
{
    let q = t.retransmission_queue@;
    assert forall|i: int| 0 <= i < q.len() implies (#[trigger] q[i]).retransmit_at is Some by {
        assert(q[i].well_queued(t.snd.una, t.flight()));
    }
    lemma_min_deadline_some(q);
}

/// In every well-formed control block -- so after any ACK -- the RTO lies
/// in [1 s, 60 s].
pub proof fn lemma_rto_bounds(t: Tcb)
    requires
        t.wf(),
    ensures
        MIN_RTO_MS <= t.timers.rto <= MAX_RTO_MS,
{
}

/// After `n` timeouts a segment waits `backoff_ms(rto, n)`, which is at
/// most `min(rto * 2^n, 60 s)`.
pub proof fn lemma_backoff_bound(rto: u32, n: u32)
    ensures
        backoff_ms(rto, n) <= 60000,
        backoff_ms(rto, n) <= rto as int * vstd::arithmetic::power2::pow2(n as nat) as int,
{
    let shift: nat = if n < 6 { n as nat } else { 6 };
    if shift < n {
        vstd::arithmetic::power2::lemma_pow2_strictly_increases(shift, n as nat);
    }
    let a = vstd::arithmetic::power2::pow2(shift);
    let b = vstd::arithmetic::power2::pow2(n as nat);
    assert(a <= b);
    assert(rto as int * a as int <= rto as int * b as int) by (nonlinear_arith)
        requires
            a <= b,
    ;
}

impl Default for Tcb {
    /// A fresh control block for the all-zero four-tuple.
    fn default() -> (r: Self)
        ensures
            r.wf(),
            r.quad == (Quad { src_addr: 0, src_port: 0, dst_addr: 0, dst_port: 0 }),
            r.state == TcpState::Closed,
    {
        Tcb::new(Quad { src_addr: 0, src_port: 0, dst_addr: 0, dst_port: 0 })
    }
}

} // verus!
