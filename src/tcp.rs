//! The demultiplexer: classifying segments by their control bits, the
//! table of connections keyed by four-tuple, the per-packet step that
//! drives each control block, and the timer sweep over all of them.

use vstd::prelude::*;
use crate::packet::{IPHeader, TCPHeader, Packet, frame_seq, MAX_PAYLOAD};
use crate::seqnum::wrapping_diff;
use crate::tcb::{
    Quad, Tcb, TcpState, RetransmitAction, has_flag, flag_set, segment_acceptable, swept_by,
    gives_up, time_wait_expired, state_after_ack, state_after_fin, fin_expected, FLAG_ACK,
    FLAG_FIN, FLAG_RST, FLAG_SYN,
};
use crate::seqnum::seq_diff;

verus! {

#[derive(Clone, Copy, Debug, PartialEq, Eq, Structural)]
pub enum State {
    Closed,
    Listen,
    SynRcvd,
    SynSent,
    Estab,
}

/// The sequence numbers of one segment against the send space.
#[derive(Clone, Copy, Debug)]
pub struct Sequence {
    pub snd_una: u32,
    pub snd_nxt: u32,
    pub seg_ack: u32,
    pub seg_seq: u32,
    pub seg_len: u32,
}

/// The name of a segment's kind by its SYN, ACK, FIN and RST bits.
pub open spec fn flag_class(flags: u8) -> Seq<char> {
    let syn = flag_set(flags, FLAG_SYN);
    let ack = flag_set(flags, FLAG_ACK);
    let fin = flag_set(flags, FLAG_FIN);
    let rst = flag_set(flags, FLAG_RST);
    if syn && !ack && !fin && !rst {
        "SYN"@
    } else if syn && ack && !fin && !rst {
        "SYN-ACK"@
    } else if !syn && ack && !fin && !rst {
        "ACK"@
    } else if !syn && !ack && fin && !rst {
        "FIN"@
    } else if !syn && ack && fin && !rst {
        "FIN-ACK"@
    } else if !syn && !ack && !fin && rst {
        "RST"@
    } else {
        "UNKNOWN"@
    }
}

/// The IPv4 header of a segment sent on connection `quad` (whose source is
/// the peer).
pub open spec fn reply_ip(quad: Quad) -> IPHeader {
    IPHeader {
        version: 4,
        ihl: 5,
        type_of_service: 0,
        total_len: 40,
        identification: 0,
        flags: 2,
        fragment_offset: 0,
        ttl: 64,
        protocol: 6,
        header_checksum: 0,
        source: quad.dst_addr,
        destination: quad.src_addr,
    }
}

/// The TCP header of a segment sent on connection `quad`.
pub open spec fn reply_tcp(quad: Quad, seq: u32, ack: u32, flags: u8, window: u16) -> TCPHeader {
    TCPHeader {
        source_port: quad.dst_port,
        destination_port: quad.src_port,
        sequence_number: seq,
        acknowledge_number: ack,
        data_offset: 5,
        reserved: 0,
        control_bit: flags,
        window,
        checksum: 0,
        urgent_pointer: 0,
    }
}

/// The frame of a segment sent on connection `quad`.
pub open spec fn reply_frame(
    quad: Quad,
    seq: u32,
    ack: u32,
    flags: u8,
    window: u16,
    data: Seq<u8>,
) -> Seq<u8> {
    frame_seq(reply_ip(quad), reply_tcp(quad, seq, ack, flags, window), data)
}

fn build_frame(quad: &Quad, seq: u32, ack: u32, flags: u8, window: u16, data: Vec<u8>) -> (r: Vec<u8>)
    requires
        data@.len() <= MAX_PAYLOAD,
    ensures
        r@ == reply_frame(*quad, seq, ack, flags, window, data@),
{
    let packet = Packet {
        ip_header: IPHeader {
            version: 4,
            ihl: 5,
            type_of_service: 0,
            total_len: 40,
            identification: 0,
            flags: 2,
            fragment_offset: 0,
            ttl: 64,
            protocol: 6,
            header_checksum: 0,
            source: quad.dst_addr,
            destination: quad.src_addr,
        },
        tcp_header: TCPHeader {
            source_port: quad.dst_port,
            destination_port: quad.src_port,
            sequence_number: seq,
            acknowledge_number: ack,
            data_offset: 5,
            reserved: 0,
            control_bit: flags,
            window,
            checksum: 0,
            urgent_pointer: 0,
        },
        data,
    };
    packet.create_packet()
}

impl State {
    /// Names a segment by its control bits: "SYN", "SYN-ACK", "ACK", "FIN",
    /// "FIN-ACK", "RST", or "UNKNOWN" for any other combination.
    pub fn check_state(flags: u8) -> (r: String)
        ensures
            r@ == flag_class(flags),
    {
        let syn = has_flag(flags, FLAG_SYN);
        let ack = has_flag(flags, FLAG_ACK);
        let fin = has_flag(flags, FLAG_FIN);
        let rst = has_flag(flags, FLAG_RST);
        if syn && !ack && !fin && !rst {
            "SYN".to_string()
        } else if syn && ack && !fin && !rst {
            "SYN-ACK".to_string()
        } else if !syn && ack && !fin && !rst {
            "ACK".to_string()
        } else if !syn && !ack && fin && !rst {
            "FIN".to_string()
        } else if !syn && ack && fin && !rst {
            "FIN-ACK".to_string()
        } else if !syn && !ack && !fin && rst {
            "RST".to_string()
        } else {
            "UNKNOWN".to_string()
        }
    }
}

/// The table of connections: one control block per four-tuple, and the
/// local ports that accept a SYN.
#[derive(Debug)]
pub struct Connections {
    pub tcbs: Vec<Tcb>,
    pub listeners: Vec<u16>,
}

/// The four-tuple of an inbound packet: its source is the peer.
pub open spec fn quad_of(packet: &Packet) -> Quad {
    Quad {
        src_addr: packet.ip_header.source,
        src_port: packet.tcp_header.source_port,
        dst_addr: packet.ip_header.destination,
        dst_port: packet.tcp_header.destination_port,
    }
}

/// How long from `now` until the retransmission timer of `t` fires.
pub open spec fn wait_of(t: Tcb, now: u64) -> Option<u64> {
    match t.timers.retransmit_timer {
        Some(d) => Some(if d > now { (d - now) as u64 } else { 0u64 }),
        None => None,
    }
}

/// Every control block in `s` is well formed and not CLOSED, and no two
/// share a four-tuple.
pub open spec fn table_wf(s: Seq<Tcb>) -> bool {
    &&& forall|i: int| 0 <= i < s.len() ==> (#[trigger] s[i]).wf() && s[i].state != TcpState::Closed
    &&& forall|i: int, j: int| 0 <= i < j < s.len() ==> (#[trigger] s[i]).quad != (#[trigger] s[j]).quad
}

/// `s` holds a control block for `quad`.
pub open spec fn table_holds(s: Seq<Tcb>, quad: Quad) -> bool {
    exists|i: int| 0 <= i < s.len() && (#[trigger] s[i]).quad == quad
}

proof fn lemma_table_remove(s: Seq<Tcb>, i: int)
    requires
        table_wf(s),
        0 <= i < s.len(),
    ensures
        table_wf(s.remove(i)),
        !table_holds(s.remove(i), s[i].quad),
        forall|q: Quad| q != s[i].quad ==> (table_holds(s.remove(i), q) == table_holds(s, q)),
{
    let r = s.remove(i);
    assert forall|k: int| 0 <= k < r.len() implies (#[trigger] r[k]).wf() && r[k].state != TcpState::Closed && r[k].quad != s[i].quad by {
        let k0 = if k < i { k } else { k + 1 };
        assert(r[k] == s[k0]);
    }
    assert forall|a: int, b: int| 0 <= a < b < r.len() implies (#[trigger] r[a]).quad != (#[trigger] r[b]).quad by {
        let a0 = if a < i { a } else { a + 1 };
        let b0 = if b < i { b } else { b + 1 };
        assert(r[a] == s[a0]);
        assert(r[b] == s[b0]);
    }
    assert forall|q: Quad| q != s[i].quad implies (table_holds(r, q) == table_holds(s, q)) by {
        if table_holds(s, q) {
            let k0 = choose|k0: int| 0 <= k0 < s.len() && (#[trigger] s[k0]).quad == q;
            let k = if k0 < i { k0 } else { k0 - 1 };
            assert(r[k] == s[k0]);
        }
        if table_holds(r, q) {
            let k = choose|k: int| 0 <= k < r.len() && (#[trigger] r[k]).quad == q;
            let k0 = if k < i { k } else { k + 1 };
            assert(r[k] == s[k0]);
        }
    }
}

proof fn lemma_table_push(s: Seq<Tcb>, t: Tcb)
    requires
        table_wf(s),
        !table_holds(s, t.quad),
        t.wf(),
        t.state != TcpState::Closed,
    ensures
        table_wf(s.push(t)),
        forall|q: Quad| table_holds(s.push(t), q) == (table_holds(s, q) || q == t.quad),
{
    let a = s.push(t);
    assert forall|i: int| 0 <= i < a.len() implies (#[trigger] a[i]).wf() && a[i].state != TcpState::Closed by {
        if i < s.len() {
            assert(a[i] == s[i]);
        }
    }
    assert forall|i: int, j: int| 0 <= i < j < a.len() implies (#[trigger] a[i]).quad != (#[trigger] a[j]).quad by {
        assert(a[i] == s[i]);
        if j < s.len() {
            assert(a[j] == s[j]);
        }
    }
    assert forall|q: Quad| table_holds(a, q) == (table_holds(s, q) || q == t.quad) by {
        if table_holds(a, q) {
            let k = choose|k: int| 0 <= k < a.len() && (#[trigger] a[k]).quad == q;
            if k < s.len() {
                assert(a[k] == s[k]);
            }
        }
        if table_holds(s, q) {
            let k = choose|k: int| 0 <= k < s.len() && (#[trigger] s[k]).quad == q;
            assert(a[k] == s[k]);
        }
        if q == t.quad {
            assert(a[s.len() as int] == t);
        }
    }
}

impl Connections {
    pub open spec fn wf(&self) -> bool {
        table_wf(self.tcbs@)
    }

    /// The table holds a control block for `quad`.
    pub open spec fn holds(&self, quad: Quad) -> bool {
        table_holds(self.tcbs@, quad)
    }

    /// An empty table with no listening port.
    pub fn new() -> (r: Self)
        ensures
            r.wf(),
            r.tcbs@.len() == 0,
            r.listeners@.len() == 0,
    {
        Connections { tcbs: Vec::new(), listeners: Vec::new() }
    }

    /// Accept SYNs to local port `port` from now on.
    pub fn listen(&mut self, port: u16)
        requires
            old(self).wf(),
        ensures
            final(self).wf(),
            final(self).tcbs@ == old(self).tcbs@,
            final(self).listeners@ == old(self).listeners@.push(port),
    {
        self.listeners.push(port);
    }

    fn is_listening(&self, port: u16) -> (r: bool)
        ensures
            r == self.listeners@.contains(port),
    {
        let mut i: usize = 0;
        while i < self.listeners.len()
            invariant
                i <= self.listeners@.len(),
                forall|k: int| 0 <= k < i ==> self.listeners@[k] != port,
            decreases self.listeners@.len() - i,
        {
            if self.listeners[i] == port {
                return true;
            }
            i = i + 1;
        }
        false
    }

    /// The position of the control block for `quad`, if the table holds one.
    pub fn find(&self, quad: &Quad) -> (r: Option<usize>)
        ensures
            r is Some ==> r->0 < self.tcbs@.len() && self.tcbs@[r->0 as int].quad == *quad,
            r is None ==> !self.holds(*quad),
    {
        let mut i: usize = 0;
        while i < self.tcbs.len()
            invariant
                i <= self.tcbs@.len(),
                forall|k: int| 0 <= k < i ==> self.tcbs@[k].quad != *quad,
            decreases self.tcbs@.len() - i,
        {
            if self.tcbs[i].quad == *quad {
                return Some(i);
            }
            i = i + 1;
        }
        None
    }

    /// Destroy the control block for `quad`; `true` when there was one.
    pub fn remove(&mut self, quad: &Quad) -> (r: bool)
        requires
            old(self).wf(),
        ensures
            final(self).wf(),
            r == old(self).holds(*quad),
            !final(self).holds(*quad),
            forall|q: Quad| q != *quad ==> (final(self).holds(q) == old(self).holds(q)),
            final(self).listeners@ == old(self).listeners@,
    {
        match self.find(quad) {
            Some(i) => {
                proof {
                    lemma_table_remove(self.tcbs@, i as int);
                }
                self.tcbs.remove(i);
                true
            },
            None => false,
        }
    }

    /// How long from `now` until the earliest retransmission timer over all
    /// connections fires, or `None` when none is set.
    pub fn next_timeout(&self, now: u64) -> (r: Option<u64>)
        ensures
            r is None <==> forall|i: int|
                0 <= i < self.tcbs@.len() ==> wait_of(#[trigger] self.tcbs@[i], now) is None,
            r is Some ==> (exists|i: int|
                0 <= i < self.tcbs@.len() && wait_of(#[trigger] self.tcbs@[i], now) == r),
            r is Some ==> forall|i: int|
                0 <= i < self.tcbs@.len() && wait_of(#[trigger] self.tcbs@[i], now) is Some
                    ==> r->0 <= wait_of(self.tcbs@[i], now)->0,
    {
        let mut best: Option<u64> = None;
        let mut i: usize = 0;
        while i < self.tcbs.len()
            invariant
                i <= self.tcbs@.len(),
                best is None <==> forall|k: int|
                    0 <= k < i ==> wait_of(#[trigger] self.tcbs@[k], now) is None,
                best is Some ==> (exists|k: int|
                    0 <= k < i && wait_of(#[trigger] self.tcbs@[k], now) == best),
                best is Some ==> forall|k: int|
                    0 <= k < i && wait_of(#[trigger] self.tcbs@[k], now) is Some
                        ==> best->0 <= wait_of(self.tcbs@[k], now)->0,
            decreases self.tcbs@.len() - i,
        {
            let w = self.tcbs[i].time_until_retransmit(now);
            assert(w == wait_of(self.tcbs@[i as int], now));
            best = match (best, w) {
                (None, w) => w,
                (Some(a), None) => Some(a),
                (Some(a), Some(b)) => Some(if a <= b { a } else { b }),
            };
            i = i + 1;
        }
        best
    }
}

/// The sequence space a packet's segment occupies.
pub open spec fn packet_units(p: &Packet) -> nat {
    crate::tcb::segment_len(p.tcp_header.control_bit, p.data@.len())
}

/// The state after the ACK field of a segment has been processed.
pub open spec fn state_after_ack_field(a: Tcb, flags: u8, ack: u32) -> TcpState {
    if flag_set(flags, FLAG_ACK) && a.ack_acceptable(ack) {
        state_after_ack(a.state, ack == a.snd.nxt)
    } else {
        a.state
    }
}

/// `b`, `reply` and `delivered` are what one segment `p` makes of the
/// control block `a`: a RST closes it when acceptable and changes nothing
/// otherwise; an oversized payload is ignored; outside SYN-SENT a segment
/// failing the acceptance test changes nothing and owes a bare ACK; a
/// payload always owes one; a bare ACK advances SND.UNA and the state when
/// acceptable, and owes an ACK when it acknowledges data never sent; a FIN
/// at RCV.NXT without payload moves past RCV.NXT where one is expected.
pub open spec fn driven(a: Tcb, b: Tcb, p: &Packet, reply: bool, delivered: Seq<u8>) -> bool {
    let flags = p.tcp_header.control_bit;
    let seq = p.tcp_header.sequence_number;
    let ack = p.tcp_header.acknowledge_number;
    let syn = flag_set(flags, FLAG_SYN);
    let fin = flag_set(flags, FLAG_FIN);
    let empty = p.data@.len() == 0;
    if flag_set(flags, FLAG_RST) {
        &&& !reply
        &&& delivered.len() == 0
        &&& if segment_acceptable(a.rcv.nxt, a.rcv.wnd, seq, 0) {
            b.state == TcpState::Closed
        } else {
            b == a
        }
    } else if p.data@.len() > 0xFFFF {
        !reply && delivered.len() == 0 && b == a
    } else if a.state != TcpState::SynSent && !segment_acceptable(
        a.rcv.nxt,
        a.rcv.wnd,
        seq,
        packet_units(p),
    ) {
        reply && delivered.len() == 0 && b == a
    } else {
        &&& !empty ==> reply
        &&& !syn && !fin && empty && flag_set(flags, FLAG_ACK) && a.state != TcpState::SynSent
            ==> if a.ack_acceptable(ack) {
            &&& b.snd.una == ack
            &&& b.state == state_after_ack(a.state, ack == a.snd.nxt)
            &&& !reply
            &&& delivered.len() == 0
        } else {
            &&& b == a
            &&& reply == (seq_diff(ack, a.snd.una) > a.flight())
            &&& delivered.len() == 0
        }
        &&& !syn && fin && empty && a.state != TcpState::SynSent && seq == a.rcv.nxt ==> {
            let mid = state_after_ack_field(a, flags, ack);
            if fin_expected(mid) {
                &&& reply
                &&& b.state == state_after_fin(mid)
                &&& b.rcv.nxt == a.rcv.nxt.wrapping_add(1)
            } else {
                b.state == mid
            }
        }
    }
}

/// The control block that `c` holds for `quad`.
pub open spec fn tcb_for(c: &Connections, quad: Quad) -> Tcb {
    c.tcbs@[choose|i: int| 0 <= i < c.tcbs@.len() && (#[trigger] c.tcbs@[i]).quad == quad]
}

/// The actions `acts` tagged with the four-tuple `quad`.
pub open spec fn tagged(quad: Quad, acts: Seq<RetransmitAction>) -> Seq<(Quad, RetransmitAction)> {
    acts.map_values(|a: RetransmitAction| (quad, a))
}

/// `swept` and `acts` are, position by position, what the timer sweep at
/// `now` makes of the control blocks `tcbs`.
pub open spec fn sweep_of(
    tcbs: Seq<Tcb>,
    swept: Seq<Tcb>,
    acts: Seq<Seq<RetransmitAction>>,
    now: u64,
) -> bool {
    &&& swept.len() == tcbs.len()
    &&& acts.len() == tcbs.len()
    &&& forall|k: int| 0 <= k < tcbs.len() ==> swept_by(#[trigger] tcbs[k], swept[k], acts[k], now)
}

/// The actions of the first `n` swept connections, in order, each with
/// its four-tuple.
pub open spec fn sweep_actions(
    swept: Seq<Tcb>,
    acts: Seq<Seq<RetransmitAction>>,
    n: nat,
) -> Seq<(Quad, RetransmitAction)>
    decreases n,
{
    if n == 0 {
        Seq::empty()
    } else {
        sweep_actions(swept, acts, (n - 1) as nat) + tagged(swept[n - 1].quad, acts[n - 1])
    }
}

/// A swept connection stays unless it gave up or its TIME-WAIT ran out.
pub open spec fn stays(t: Tcb, acts: Seq<RetransmitAction>, now: u64) -> bool {
    !gives_up(acts) && !time_wait_expired(t, now)
}

/// The first `n` swept connections that stay, in order.
pub open spec fn survivors(
    swept: Seq<Tcb>,
    acts: Seq<Seq<RetransmitAction>>,
    now: u64,
    n: nat,
) -> Seq<Tcb>
    decreases n,
{
    if n == 0 {
        Seq::empty()
    } else {
        let r = survivors(swept, acts, now, (n - 1) as nat);
        if stays(swept[n - 1], acts[n - 1], now) {
            r.push(swept[n - 1])
        } else {
            r
        }
    }
}

/// A four-tuple is held by the first `n` survivors exactly when one of the
/// first `n` swept connections that stays has it.
proof fn lemma_survivors_holds(
    swept: Seq<Tcb>,
    acts: Seq<Seq<RetransmitAction>>,
    now: u64,
    n: nat,
)
    requires
        n <= swept.len(),
        n <= acts.len(),
    ensures
        forall|q: Quad|
            table_holds(survivors(swept, acts, now, n), q) <==> exists|m: int|
                0 <= m < n && stays(swept[m], acts[m], now) && (#[trigger] swept[m]).quad == q,
    decreases n,
{
    if n > 0 {
        lemma_survivors_holds(swept, acts, now, (n - 1) as nat);
        let r = survivors(swept, acts, now, (n - 1) as nat);
        assert forall|q: Quad|
            table_holds(survivors(swept, acts, now, n), q) <==> exists|m: int|
                0 <= m < n && stays(swept[m], acts[m], now) && (#[trigger] swept[m]).quad == q by {
            if stays(swept[n - 1], acts[n - 1], now) {
                let a = r.push(swept[n - 1]);
                if table_holds(a, q) {
                    let k = choose|k: int| 0 <= k < a.len() && (#[trigger] a[k]).quad == q;
                    if k < r.len() {
                        assert(a[k] == r[k]);
                        assert(table_holds(r, q));
                    } else {
                        assert(swept[n - 1].quad == q);
                    }
                }
                if exists|m: int| 0 <= m < n && stays(swept[m], acts[m], now) && (#[trigger] swept[m]).quad == q {
                    let m = choose|m: int| 0 <= m < n && stays(swept[m], acts[m], now) && (#[trigger] swept[m]).quad == q;
                    if m < n - 1 {
                        assert(table_holds(r, q));
                        let k = choose|k: int| 0 <= k < r.len() && (#[trigger] r[k]).quad == q;
                        assert(a[k] == r[k]);
                    } else {
                        assert(a[r.len() as int] == swept[n - 1]);
                    }
                }
            } else {
                if exists|m: int| 0 <= m < n && stays(swept[m], acts[m], now) && (#[trigger] swept[m]).quad == q {
                    let m = choose|m: int| 0 <= m < n && stays(swept[m], acts[m], now) && (#[trigger] swept[m]).quad == q;
                    assert(m < n - 1);
                }
            }
        }
    }
}

proof fn lemma_sweep_prefix(
    swept: Seq<Tcb>,
    acts: Seq<Seq<RetransmitAction>>,
    t: Tcb,
    a: Seq<RetransmitAction>,
    now: u64,
)
    requires
        swept.len() == acts.len(),
    ensures
        forall|n: nat| n <= swept.len() ==> sweep_actions(swept.push(t), acts.push(a), n) == sweep_actions(swept, acts, n),
        forall|n: nat| n <= swept.len() ==> survivors(swept.push(t), acts.push(a), now, n) == survivors(swept, acts, now, n),
{
    assert forall|n: nat| n <= swept.len() implies sweep_actions(swept.push(t), acts.push(a), n) == sweep_actions(swept, acts, n) by {
        lemma_sweep_actions_prefix(swept, acts, t, a, n);
    }
    assert forall|n: nat| n <= swept.len() implies survivors(swept.push(t), acts.push(a), now, n) == survivors(swept, acts, now, n) by {
        lemma_survivors_prefix(swept, acts, t, a, now, n);
    }
}

proof fn lemma_sweep_actions_prefix(
    swept: Seq<Tcb>,
    acts: Seq<Seq<RetransmitAction>>,
    t: Tcb,
    a: Seq<RetransmitAction>,
    n: nat,
)
    requires
        swept.len() == acts.len(),
        n <= swept.len(),
    ensures
        sweep_actions(swept.push(t), acts.push(a), n) == sweep_actions(swept, acts, n),
    decreases n,
{
    if n > 0 {
        lemma_sweep_actions_prefix(swept, acts, t, a, (n - 1) as nat);
        assert(swept.push(t)[n - 1] == swept[n - 1]);
        assert(acts.push(a)[n - 1] == acts[n - 1]);
    }
}

proof fn lemma_survivors_prefix(
    swept: Seq<Tcb>,
    acts: Seq<Seq<RetransmitAction>>,
    t: Tcb,
    a: Seq<RetransmitAction>,
    now: u64,
    n: nat,
)
    requires
        swept.len() == acts.len(),
        n <= swept.len(),
    ensures
        survivors(swept.push(t), acts.push(a), now, n) == survivors(swept, acts, now, n),
    decreases n,
{
    if n > 0 {
        lemma_survivors_prefix(swept, acts, t, a, now, (n - 1) as nat);
        assert(swept.push(t)[n - 1] == swept[n - 1]);
        assert(acts.push(a)[n - 1] == acts[n - 1]);
    }
}

impl State {
    /// The frame that retransmits the segment at `seq` with `flags` and
    /// `data` on connection `quad`, acknowledging RCV.NXT of `tcb` and
    /// advertising its RCV.WND.
    pub fn create_retransmit_packet(quad: &Quad, seq: u32, flags: u8, data: Vec<u8>, tcb: &Tcb) -> (r: Vec<u8>)
        requires
            data@.len() <= MAX_PAYLOAD,
        ensures
            r@ == reply_frame(*quad, seq, tcb.rcv.nxt, flags, tcb.rcv.wnd, data@),
    {
        build_frame(quad, seq, tcb.rcv.nxt, flags, tcb.rcv.wnd, data)
    }

    /// The RST frame sent on connection `quad` when its retransmissions are
    /// abandoned: RST at `seq`, nothing acknowledged, zero window.
    pub fn create_reset_packet(quad: &Quad, seq: u32) -> (r: Vec<u8>)
        ensures
            r@ == reply_frame(*quad, seq, 0, FLAG_RST, 0, Seq::empty()),
    {
        build_frame(quad, seq, 0, FLAG_RST, 0, Vec::new())
    }

    /// One inbound packet through the demultiplexer, at `now`, with `iss`
    /// as the initial send sequence number of a connection it opens.
    /// Returns the frame to send, if any, and the payload bytes delivered
    /// in order.
    ///
    /// With no connection for the packet's four-tuple: a SYN to a listening
    /// port opens one in SYN-RCVD and is answered by SYN-ACK (seq `iss`, ack
    /// seq + 1, window RCV.WND), queued for retransmission; a SYN to any
    /// other port is answered by RST+ACK acknowledging seq + 1; anything else
    /// is dropped. With a connection, the segment drives its control block
    /// as `driven` states, and a bare ACK carrying SND.NXT and RCV.NXT is
    /// sent when one is owed. A connection that reaches CLOSED is destroyed.
    pub fn tcp_connection(packet: &Packet, connections: &mut Connections, iss: u32, now: u64) -> (r: (Option<Vec<u8>>, Vec<u8>))
        requires
            old(connections).wf(),
        ensures
            final(connections).wf(),
            final(connections).listeners@ == old(connections).listeners@,
            ({
                let quad = quad_of(packet);
                let seq = packet.tcp_header.sequence_number;
                let flags = packet.tcp_header.control_bit;
                let opening = flag_set(flags, FLAG_SYN) && !flag_set(flags, FLAG_ACK)
                    && !flag_set(flags, FLAG_RST);
                !old(connections).holds(quad) ==> {
                    &&& r.1@.len() == 0
                    &&& if opening && old(connections).listeners@.contains(quad.dst_port) {
                        &&& final(connections).tcbs@.drop_last() == old(connections).tcbs@
                        &&& final(connections).tcbs@.len() == old(connections).tcbs@.len() + 1
                        &&& ({
                            let t = final(connections).tcbs@.last();
                            &&& t.quad == quad
                            &&& t.state == TcpState::SynRcvd
                            &&& t.snd.una == iss
                            &&& t.snd.nxt == iss.wrapping_add(1)
                            &&& t.snd.wnd == packet.tcp_header.window
                            &&& t.rcv.irs == seq
                            &&& t.rcv.nxt == seq.wrapping_add(1)
                            &&& t.rcv.wnd == crate::tcb::DEFAULT_RCV_WND
                            &&& t.retransmission_queue@.len() == 1
                            &&& r.0 is Some && r.0->0@ == reply_frame(quad, iss, seq.wrapping_add(1), FLAG_SYN | FLAG_ACK, t.rcv.wnd, Seq::empty())
                        })
                    } else if opening {
                        &&& final(connections).tcbs@ == old(connections).tcbs@
                        &&& r.0 is Some && r.0->0@ == reply_frame(quad, 0, seq.wrapping_add(1), FLAG_RST | FLAG_ACK, 0, Seq::empty())
                    } else {
                        &&& final(connections).tcbs@ == old(connections).tcbs@
                        &&& r.0 is None
                    }
                }
            }),
            old(connections).holds(quad_of(packet)) ==> {
                let quad = quad_of(packet);
                &&& forall|q: Quad| q != quad ==> (final(connections).holds(q) == old(connections).holds(q))
                &&& exists|b: Tcb, rep: bool|
                    {
                        &&& #[trigger] driven(tcb_for(&*old(connections), quad), b, packet, rep, r.1@)
                        &&& b.state == TcpState::Closed ==> !final(connections).holds(quad)
                            && r.0 is None
                        &&& b.state != TcpState::Closed ==> {
                            &&& final(connections).holds(quad)
                            &&& tcb_for(&*final(connections), quad) == b
                            &&& (r.0 is Some <==> rep)
                            &&& rep ==> r.0->0@ == reply_frame(quad, b.snd.nxt, b.rcv.nxt, FLAG_ACK, b.rcv.wnd, Seq::empty())
                        }
                    }
            },
    {
        let quad = Quad {
            src_addr: packet.ip_header.source,
            src_port: packet.tcp_header.source_port,
            dst_addr: packet.ip_header.destination,
            dst_port: packet.tcp_header.destination_port,
        };
        match connections.find(&quad) {
            None => {
                let reply = State::open_connection(packet, connections, iss, now);
                (reply, Vec::new())
            },
            Some(i) => {
                let ghost before = connections.tcbs@;
                proof {
                    lemma_table_remove(before, i as int);
                }
                let mut tcb = connections.tcbs.remove(i);
                let ghost removed_g = connections.tcbs@;
                let ghost old_tcb = tcb;
                proof {
                    assert(old_tcb == before[i as int]);
                    assert forall|k: int| 0 <= k < before.len() && (#[trigger] before[k]).quad == quad implies k == i by {
                        if k != i {
                            assert(before[k].quad != before[i as int].quad);
                        }
                    }
                }
                let (reply, delivered) = State::drive(&mut tcb, packet, iss, now);
                proof {
                    let c = choose|c: int| 0 <= c < before.len() && (#[trigger] before[c]).quad == quad;
                    assert(c == i);
                    assert(tcb_for(&*old(connections), quad) == old_tcb);
                }
                let frame = if reply && tcb.state != TcpState::Closed {
                    Some(build_frame(&quad, tcb.snd.nxt, tcb.rcv.nxt, FLAG_ACK, tcb.rcv.wnd, Vec::new()))
                } else {
                    None
                };
                if tcb.state != TcpState::Closed {
                    proof {
                        lemma_table_push(connections.tcbs@, tcb);
                        assert(connections.tcbs@.push(tcb)[before.len() - 1] == tcb);
                    }
                    connections.tcbs.push(tcb);
                    proof {
                        let after = connections.tcbs@;
                        let last = after.len() - 1;
                        assert(after[last] == tcb);
                        let c = choose|c: int| 0 <= c < after.len() && (#[trigger] after[c]).quad == quad;
                        if c != last {
                            assert(after[c] == connections.tcbs@.drop_last()[c]);
                            assert(table_wf(after));
                            assert(after[c].quad != after[last].quad);
                        }
                        assert(tcb_for(&*connections, quad) == tcb);
                    }
                }
                proof {
                    assert(driven(tcb_for(&*old(connections), quad), tcb, packet, reply, delivered@));
                    if tcb.state == TcpState::Closed {
                        assert(!connections.holds(quad));
                        assert(frame is None);
                    } else {
                        assert(connections.holds(quad)) by {
                            assert(connections.tcbs@[connections.tcbs@.len() - 1] == tcb);
                        }
                        assert(frame is Some <==> reply);
                        assert(reply ==> frame->0@ == reply_frame(quad, tcb.snd.nxt, tcb.rcv.nxt, FLAG_ACK, tcb.rcv.wnd, Seq::empty()));
                    }
                    assert(quad == quad_of(packet));
                    assert forall|q: Quad| q != quad implies (connections.holds(q) == old(connections).holds(q)) by {
                        if tcb.state != TcpState::Closed {
                            lemma_table_push(removed_g, tcb);
                        }
                    }
                }
                let res = (frame, delivered);
                proof {
                    let b = tcb;
                    let rep = reply;
                    assert(driven(tcb_for(&*old(connections), quad_of(packet)), b, packet, rep, res.1@));
                    assert(exists|b: Tcb, rep: bool|
                        {
                            &&& #[trigger] driven(tcb_for(&*old(connections), quad_of(packet)), b, packet, rep, res.1@)
                            &&& b.state == TcpState::Closed ==> !connections.holds(quad_of(packet))
                                && res.0 is None
                            &&& b.state != TcpState::Closed ==> {
                                &&& connections.holds(quad_of(packet))
                                &&& tcb_for(&*connections, quad_of(packet)) == b
                                &&& (res.0 is Some <==> rep)
                                &&& rep ==> res.0->0@ == reply_frame(quad_of(packet), b.snd.nxt, b.rcv.nxt, FLAG_ACK, b.rcv.wnd, Seq::empty())
                            }
                        });
                }
                res
            },
        }
    }

    /// A segment for which no connection exists: a SYN to a listening port
    /// opens one and gets SYN-ACK, a SYN to any other port gets RST+ACK,
    /// anything else nothing.
    fn open_connection(packet: &Packet, connections: &mut Connections, iss: u32, now: u64) -> (r: Option<Vec<u8>>)
        requires
            old(connections).wf(),
            !old(connections).holds(quad_of(packet)),
        ensures
            final(connections).wf(),
            final(connections).listeners@ == old(connections).listeners@,
            ({
                let quad = quad_of(packet);
                let seq = packet.tcp_header.sequence_number;
                let flags = packet.tcp_header.control_bit;
                let opening = flag_set(flags, FLAG_SYN) && !flag_set(flags, FLAG_ACK)
                    && !flag_set(flags, FLAG_RST);
                if opening && old(connections).listeners@.contains(quad.dst_port) {
                    &&& final(connections).tcbs@.drop_last() == old(connections).tcbs@
                    &&& final(connections).tcbs@.len() == old(connections).tcbs@.len() + 1
                    &&& ({
                        let t = final(connections).tcbs@.last();
                        &&& t.quad == quad
                        &&& t.state == TcpState::SynRcvd
                        &&& t.snd.una == iss
                        &&& t.snd.nxt == iss.wrapping_add(1)
                        &&& t.snd.wnd == packet.tcp_header.window
                        &&& t.rcv.irs == seq
                        &&& t.rcv.nxt == seq.wrapping_add(1)
                        &&& t.rcv.wnd == crate::tcb::DEFAULT_RCV_WND
                        &&& t.retransmission_queue@.len() == 1
                        &&& r is Some && r->0@ == reply_frame(quad, iss, seq.wrapping_add(1), FLAG_SYN | FLAG_ACK, t.rcv.wnd, Seq::empty())
                    })
                } else if opening {
                    &&& final(connections).tcbs@ == old(connections).tcbs@
                    &&& r is Some && r->0@ == reply_frame(quad, 0, seq.wrapping_add(1), FLAG_RST | FLAG_ACK, 0, Seq::empty())
                } else {
                    &&& final(connections).tcbs@ == old(connections).tcbs@
                    &&& r is None
                }
            }),
    {
        let tcp = &packet.tcp_header;
        let quad = Quad {
            src_addr: packet.ip_header.source,
            src_port: tcp.source_port,
            dst_addr: packet.ip_header.destination,
            dst_port: tcp.destination_port,
        };
        let flags = tcp.control_bit;
        let seq = tcp.sequence_number;
        if !(has_flag(flags, FLAG_SYN) && !has_flag(flags, FLAG_ACK) && !has_flag(flags, FLAG_RST)) {
            return None;
        }
        if !connections.is_listening(quad.dst_port) {
            assert((FLAG_RST | FLAG_ACK) == 0x14u8) by (bit_vector);
            return Some(build_frame(&quad, 0, seq.wrapping_add(1), FLAG_RST | FLAG_ACK, 0, Vec::new()));
        }
        let mut tcb = Tcb::new(quad);
        tcb.passive_open();
        tcb.process_syn(seq, tcp.window, iss, now);
        let reply = build_frame(&quad, iss, tcb.rcv.nxt, FLAG_SYN | FLAG_ACK, tcb.rcv.wnd, Vec::new());
        let ghost before = connections.tcbs@;
        proof {
            lemma_table_push(before, tcb);
        }
        connections.tcbs.push(tcb);
        assert(connections.tcbs@.drop_last() =~= before);
        Some(reply)
    }

    /// Drive an existing connection with one segment. A RST is processed
    /// alone. Outside SYN-SENT a segment that fails the acceptance test is
    /// dropped and a bare ACK is owed. Otherwise a SYN in SYN-SENT, the ACK,
    /// the payload and the FIN drive the control block in that order. Yields
    /// whether a bare ACK is owed, and the bytes delivered in order.
    fn drive(tcb: &mut Tcb, packet: &Packet, iss: u32, now: u64) -> (r: (bool, Vec<u8>))
        requires
            old(tcb).wf(),
        ensures
            final(tcb).wf(),
            final(tcb).quad == old(tcb).quad,
            driven(*old(tcb), *final(tcb), packet, r.0, r.1@),
    {
        let tcp = &packet.tcp_header;
        let flags = tcp.control_bit;
        let seq = tcp.sequence_number;
        let mut reply = false;
        let mut delivered: Vec<u8> = Vec::new();
        if has_flag(flags, FLAG_RST) {
            tcb.process_rst(seq);
            return (false, delivered);
        }
        let len = packet.data.len();
        if len > 0xFFFF {
            return (false, delivered);
        }
        let syn = has_flag(flags, FLAG_SYN);
        let fin = has_flag(flags, FLAG_FIN);
        if tcb.state != TcpState::SynSent {
            let units = len as u32 + (if syn { 1u32 } else { 0 }) + (if fin { 1u32 } else { 0 });
            if !tcb.is_segment_acceptable(seq, units) {
                return (true, delivered);
            }
        }
        let ghost a = *tcb;
        let mut data_seq = seq;
        if syn {
            if tcb.state == TcpState::SynSent {
                tcb.process_syn(seq, tcp.window, iss, now);
                reply = true;
            }
            data_seq = seq.wrapping_add(1);
        }
        if has_flag(flags, FLAG_ACK) {
            let ack_no = tcp.acknowledge_number;
            let beyond = wrapping_diff(ack_no, tcb.snd.una) > wrapping_diff(tcb.snd.nxt, tcb.snd.una);
            let accepted = tcb.process_ack(ack_no, tcp.window, now);
            if !accepted && beyond {
                reply = true;
            }
        }
        if len > 0 {
            match tcb.receive_data(data_seq, packet.data.as_slice()) {
                Some(d) => {
                    delivered = d;
                },
                None => {},
            }
            reply = true;
        }
        if fin {
            if tcb.process_fin(data_seq.wrapping_add(len as u32), now) {
                reply = true;
            }
        }
        (reply, delivered)
    }

    /// The timer sweep over every connection at `now`. Each connection, in
    /// table order, is swept as `Tcb::check_retransmission_timeout` does, and
    /// its actions come with its four-tuple. A connection stays, swept, exactly
    /// when none of its actions gives up and its TIME-WAIT has not run 2MSL;
    /// the others are destroyed.
    pub fn check_retransmissions(connections: &mut Connections, now: u64) -> (r: Vec<(Quad, RetransmitAction)>)
        requires
            old(connections).wf(),
        ensures
            final(connections).wf(),
            final(connections).listeners@ == old(connections).listeners@,
            exists|swept: Seq<Tcb>, acts: Seq<Seq<RetransmitAction>>|
                {
                    &&& #[trigger] sweep_of(old(connections).tcbs@, swept, acts, now)
                    &&& r@ == sweep_actions(swept, acts, swept.len())
                    &&& final(connections).tcbs@ == survivors(swept, acts, now, swept.len())
                    &&& forall|i: int|
                        0 <= i < swept.len() ==> (final(connections).holds(
                            (#[trigger] old(connections).tcbs@[i]).quad,
                        ) <==> stays(swept[i], acts[i], now))
                },
    {
        let mut rest: Vec<Tcb> = Vec::new();
        std::mem::swap(&mut rest, &mut connections.tcbs);
        let ghost all = rest@;
        let n = rest.len();
        let mut out: Vec<(Quad, RetransmitAction)> = Vec::new();
        let ghost mut swept: Seq<Tcb> = Seq::empty();
        let ghost mut acts: Seq<Seq<RetransmitAction>> = Seq::empty();
        let mut i: usize = 0;
        while i < n
            invariant
                n == all.len(),
                i <= n,
                rest@ == all.subrange(i as int, n as int),
                table_wf(all),
                table_wf(connections.tcbs@),
                swept.len() == i,
                acts.len() == i,
                forall|k: int| 0 <= k < i ==> swept_by(#[trigger] all[k], swept[k], acts[k], now),
                out@ == sweep_actions(swept, acts, i as nat),
                connections.tcbs@ == survivors(swept, acts, now, i as nat),
                forall|k: int| 0 <= k < connections.tcbs@.len() ==> exists|m: int| 0 <= m < i && (#[trigger] all[m]).quad == (#[trigger] connections.tcbs@[k]).quad,
                connections.listeners@ == old(connections).listeners@,
                all == old(connections).tcbs@,
            decreases n - i,
        {
            let mut tcb = rest.remove(0);
            assert(tcb == all[i as int]);
            assert(tcb.wf() && tcb.state != TcpState::Closed);
            let mut actions = tcb.check_retransmission_timeout(now);
            let ghost acts_i = actions@;
            let quad = tcb.quad;
            let mut gave_up = false;
            let ghost out0 = out@;
            let ghost mut j: int = 0;
            while actions.len() > 0
                invariant
                    0 <= j <= acts_i.len(),
                    actions@ == acts_i.subrange(j, acts_i.len() as int),
                    out@ == out0 + tagged(quad, acts_i.subrange(0, j)),
                    gave_up == gives_up(acts_i.subrange(0, j)),
                decreases actions@.len(),
            {
                let a = actions.remove(0);
                let ghost prev = out@;
                let g = match a {
                    RetransmitAction::GiveUp { .. } => true,
                    _ => false,
                };
                out.push((quad, a));
                proof {
                    assert(a == acts_i[j]);
                    let s0 = acts_i.subrange(0, j);
                    let s1 = acts_i.subrange(0, j + 1);
                    assert(s1 =~= s0.push(a));
                    assert(tagged(quad, s1) =~= tagged(quad, s0).push((quad, a)));
                    assert(out@ =~= out0 + tagged(quad, s1));
                    if g {
                        assert(s1[j] is GiveUp);
                    } else if gave_up {
                        let w = choose|w: int| 0 <= w < s0.len() && (#[trigger] s0[w]) is GiveUp;
                        assert(s1[w] == s0[w]);
                    }
                    if gives_up(s1) {
                        let w = choose|w: int| 0 <= w < s1.len() && (#[trigger] s1[w]) is GiveUp;
                        if w < j {
                            assert(s0[w] == s1[w]);
                        }
                    }
                    j = j + 1;
                    assert(actions@ =~= acts_i.subrange(j, acts_i.len() as int));
                }
                gave_up = gave_up || g;
            }
            proof {
                assert(acts_i.subrange(0, j) =~= acts_i);
                let sw2 = swept.push(tcb);
                let ac2 = acts.push(acts_i);
                assert(sw2.subrange(0, i as int) =~= swept);
                assert(ac2.subrange(0, i as int) =~= acts);
                lemma_sweep_prefix(swept, acts, tcb, acts_i, now);
                swept = sw2;
                acts = ac2;
            }
            if !gave_up && !tcb.is_time_wait_expired(now) {
                let ghost before = connections.tcbs@;
                proof {
                    assert forall|k: int| 0 <= k < before.len() implies (#[trigger] before[k]).quad != tcb.quad by {
                        let m = choose|m: int| 0 <= m < i && (#[trigger] all[m]).quad == before[k].quad;
                        assert(all[m].quad != all[i as int].quad);
                    }
                    lemma_table_push(before, tcb);
                }
                connections.tcbs.push(tcb);
                proof {
                    let after = connections.tcbs@;
                    assert forall|k: int| 0 <= k < after.len() implies exists|m: int| 0 <= m < i + 1 && (#[trigger] all[m]).quad == (#[trigger] after[k]).quad by {
                        if k < before.len() {
                            assert(after[k] == before[k]);
                            let m = choose|m: int| 0 <= m < i && (#[trigger] all[m]).quad == before[k].quad;
                            assert(all[m].quad == after[k].quad);
                        } else {
                            assert(all[i as int].quad == after[k].quad);
                        }
                    }
                }
            } else {
                proof {
                    let cur = connections.tcbs@;
                    assert forall|k: int| 0 <= k < cur.len() implies exists|m: int| 0 <= m < i + 1 && (#[trigger] all[m]).quad == (#[trigger] cur[k]).quad by {
                        let m = choose|m: int| 0 <= m < i && (#[trigger] all[m]).quad == cur[k].quad;
                        assert(all[m].quad == cur[k].quad);
                    }
                }
            }
            proof {
                assert(rest@ =~= all.subrange(i + 1, n as int));
            }
            i = i + 1;
        }
        proof {
            assert(sweep_of(all, swept, acts, now));
            lemma_survivors_holds(swept, acts, now, n as nat);
            assert forall|k: int| 0 <= k < swept.len() implies (connections.holds(
                (#[trigger] all[k]).quad,
            ) <==> stays(swept[k], acts[k], now)) by {
                assert(swept[k].quad == all[k].quad);
                if connections.holds(all[k].quad) {
                    let m = choose|m: int| 0 <= m < n && stays(swept[m], acts[m], now) && (#[trigger] swept[m]).quad == all[k].quad;
                    assert(swept[m].quad == all[m].quad);
                    if m != k {
                        if m < k {
                            assert(all[m].quad != all[k].quad);
                        } else {
                            assert(all[k].quad != all[m].quad);
                        }
                    }
                }
            }
        }
        out
    }
}

} // verus!
