use tcp_stack::packet::{parser, IPHeader, Packet, TCPHeader};
use tcp_stack::seqnum::{seq_between, seq_leq, seq_lt};
use tcp_stack::tcb::{Quad, RetransmitAction, Tcb, TcpState};
use tcp_stack::tcp::{Connections, State};

const PEER: u32 = 0x0a00_0002;
const LOCAL: u32 = 0x0a00_0001;

fn packet(seq: u32, ack: u32, flags: u8, window: u16, data: Vec<u8>) -> Packet {
    Packet {
        ip_header: IPHeader {
            version: 4,
            ihl: 5,
            type_of_service: 0,
            total_len: 0,
            identification: 0,
            flags: 2,
            fragment_offset: 0,
            ttl: 64,
            protocol: 6,
            header_checksum: 0,
            source: PEER,
            destination: LOCAL,
        },
        tcp_header: TCPHeader {
            source_port: 5000,
            destination_port: 80,
            sequence_number: seq,
            acknowledge_number: ack,
            data_offset: 5,
            reserved: 0,
            control_bit: flags,
            window,
            checksum: 0,
            urgent_pointer: 0,
        },
        data,
    }
}

fn quad() -> Quad {
    Quad { src_addr: PEER, src_port: 5000, dst_addr: LOCAL, dst_port: 80 }
}

fn reply_of(frame: &[u8]) -> Packet {
    assert_eq!(&frame[0..4], &[0, 0, 8, 0]);
    parser(&frame[4..]).unwrap()
}

/// A control block in ESTABLISHED with the given send and receive points.
fn established(snd: u32, rcv: u32) -> Tcb {
    let mut t = Tcb::new(quad());
    t.active_open(snd);
    t.state = TcpState::Established;
    t.rcv.nxt = rcv;
    t.rcv.irs = rcv.wrapping_sub(1);
    t.snd.wnd = 64240;
    t
}

#[test]
fn flag_classes() {
    assert_eq!(State::check_state(0x02), "SYN");
    assert_eq!(State::check_state(0x12), "SYN-ACK");
    assert_eq!(State::check_state(0x10), "ACK");
    assert_eq!(State::check_state(0x18), "ACK");
    assert_eq!(State::check_state(0x01), "FIN");
    assert_eq!(State::check_state(0x11), "FIN-ACK");
    assert_eq!(State::check_state(0x04), "RST");
    assert_eq!(State::check_state(0x06), "UNKNOWN");
    assert_eq!(State::check_state(0x00), "UNKNOWN");
}

#[test]
fn sequence_comparisons_wrap() {
    assert!(seq_lt(1, 2));
    assert!(!seq_lt(2, 1));
    assert!(!seq_lt(5, 5));
    assert!(seq_lt(0xffff_fff0, 0x10));
    assert!(!seq_lt(0x10, 0xffff_fff0));
    assert!(seq_leq(7, 7));
    assert!(seq_between(0xffff_ffff, 0, 3));
    assert!(seq_between(1, 3, 3));
    assert!(!seq_between(1, 1, 3));
    assert!(!seq_between(1, 4, 3));
}

#[test]
fn new_control_block_defaults() {
    let t = Tcb::new(quad());
    assert_eq!(t.state, TcpState::Closed);
    assert_eq!(t.window.mss, 1460);
    assert_eq!(t.window.cwnd, 14600);
    assert_eq!(t.window.ssthresh, u32::MAX);
    assert_eq!(t.timers.rto, 1000);
    assert!(t.timers.retransmit_timer.is_none());
    let d = Tcb::default();
    assert_eq!(d.quad, Quad { src_addr: 0, src_port: 0, dst_addr: 0, dst_port: 0 });
}

#[test]
fn passive_three_way_handshake() {
    let mut conns = Connections::new();
    conns.listen(80);
    let syn = packet(100, 0, 0x02, 64240, vec![]);
    let (reply, delivered) = State::tcp_connection(&syn, &mut conns, 1000, 0);
    assert!(delivered.is_empty());
    let synack = reply_of(&reply.unwrap());
    assert_eq!(synack.tcp_header.control_bit, 0x12);
    assert_eq!(synack.tcp_header.sequence_number, 1000);
    assert_eq!(synack.tcp_header.acknowledge_number, 101);
    assert_eq!(synack.ip_header.source, LOCAL);
    assert_eq!(synack.tcp_header.destination_port, 5000);
    let i = conns.find(&quad()).unwrap();
    assert_eq!(conns.tcbs[i].state, TcpState::SynRcvd);

    let ack = packet(101, 1001, 0x10, 64240, vec![]);
    let (reply, _) = State::tcp_connection(&ack, &mut conns, 1000, 50);
    assert!(reply.is_none());
    let t = &conns.tcbs[conns.find(&quad()).unwrap()];
    assert_eq!(t.state, TcpState::Established);
    assert_eq!(t.snd.una, 1001);
    assert_eq!(t.snd.nxt, 1001);
    assert_eq!(t.rcv.nxt, 101);
    assert!(t.retransmission_queue.is_empty());
    assert!(t.timers.retransmit_timer.is_none());
}

#[test]
fn syn_to_unbound_port_gets_reset() {
    let mut conns = Connections::new();
    conns.listen(22);
    let syn = packet(4000, 0, 0x02, 1000, vec![]);
    let (reply, _) = State::tcp_connection(&syn, &mut conns, 1000, 0);
    let rst = reply_of(&reply.unwrap());
    assert_eq!(rst.tcp_header.control_bit, 0x14);
    assert_eq!(rst.tcp_header.acknowledge_number, 4001);
    assert!(conns.tcbs.is_empty());
}

#[test]
fn stray_segment_without_connection_is_dropped() {
    let mut conns = Connections::new();
    conns.listen(80);
    let ack = packet(1, 1, 0x10, 1000, vec![]);
    let (reply, _) = State::tcp_connection(&ack, &mut conns, 1000, 0);
    assert!(reply.is_none());
    assert!(conns.tcbs.is_empty());
}

#[test]
fn syn_ack_retransmission_then_give_up() {
    let mut conns = Connections::new();
    conns.listen(80);
    let syn = packet(500, 0, 0x02, 64240, vec![]);
    let (reply, _) = State::tcp_connection(&syn, &mut conns, 1000, 0);
    let first = reply.unwrap();
    let synack = reply_of(&first);
    assert_eq!(synack.tcp_header.sequence_number, 1000);
    assert_eq!(synack.tcp_header.acknowledge_number, 501);
    assert_eq!(conns.next_timeout(0), Some(1000));

    // nothing before the RTO
    assert!(State::check_retransmissions(&mut conns, 999).is_empty());

    let mut now: u64 = 1000;
    let mut attempts: u32 = 0;
    loop {
        let actions = State::check_retransmissions(&mut conns, now);
        assert_eq!(actions.len(), 1);
        attempts += 1;
        match &actions[0].1 {
            RetransmitAction::Retransmit { seq, flags, data, attempt } => {
                assert_eq!(*seq, 1000);
                assert_eq!(*flags, 0x12);
                assert!(data.is_empty());
                assert_eq!(*attempt, attempts);
                let t = &conns.tcbs[conns.find(&quad()).unwrap()];
                let again = State::create_retransmit_packet(&actions[0].0, *seq, *flags, data.clone(), t);
                assert_eq!(again, first);
                let backoff = std::cmp::min(1000u64 << std::cmp::min(attempts, 6), 60000);
                assert_eq!(conns.next_timeout(now), Some(backoff));
                now += backoff;
            }
            RetransmitAction::GiveUp { seq, .. } => {
                assert_eq!(*seq, 1000);
                break;
            }
        }
    }
    assert_eq!(attempts, 15);
    assert!(conns.tcbs.is_empty());
}

#[test]
fn out_of_order_data_is_reassembled() {
    let mut t = established(1001, 501);
    let first: Vec<u8> = (0..100).map(|i| i as u8).collect();
    let second: Vec<u8> = (100..200).map(|i| i as u8).collect();
    let got = t.receive_data(601, &second).unwrap();
    assert!(got.is_empty());
    assert_eq!(t.rcv.nxt, 501);
    assert_eq!(t.reassembly_queue.len(), 1);
    let got = t.receive_data(501, &first).unwrap();
    assert_eq!(t.rcv.nxt, 701);
    let mut expected = first.clone();
    expected.extend_from_slice(&second);
    assert_eq!(got, expected);
    assert!(t.reassembly_queue.is_empty());
}

#[test]
fn reassembly_in_every_order_gives_the_same_stream() {
    let parts: Vec<(u32, Vec<u8>)> = vec![
        (501, vec![1; 10]),
        (511, vec![2; 20]),
        (531, vec![3; 5]),
    ];
    let orders = [[0, 1, 2], [0, 2, 1], [1, 0, 2], [1, 2, 0], [2, 0, 1], [2, 1, 0]];
    let mut expected = vec![1u8; 10];
    expected.extend_from_slice(&[2; 20]);
    expected.extend_from_slice(&[3; 5]);
    for order in orders.iter() {
        let mut t = established(1001, 501);
        let mut stream = Vec::new();
        for &k in order.iter() {
            let (seq, data) = &parts[k];
            stream.extend(t.receive_data(*seq, data).unwrap());
        }
        assert_eq!(stream, expected);
        assert_eq!(t.rcv.nxt, 536);
    }
}

#[test]
fn overlapping_data_is_trimmed_and_duplicates_dropped() {
    let mut t = established(1001, 501);
    assert_eq!(t.receive_data(501, &[1, 2, 3, 4]).unwrap(), vec![1, 2, 3, 4]);
    // starts two bytes before RCV.NXT
    assert_eq!(t.receive_data(503, &[3, 4, 5, 6]).unwrap(), vec![5, 6]);
    assert_eq!(t.rcv.nxt, 507);
    // held segment, then one overlapping it is dropped
    assert!(t.receive_data(510, &[9, 9]).unwrap().is_empty());
    assert!(t.receive_data(511, &[8, 8]).unwrap().is_empty());
    assert_eq!(t.reassembly_queue.len(), 1);
    // the gap filled past the held segment's start: it is trimmed
    assert_eq!(t.receive_data(507, &[7, 7, 7, 7]).unwrap(), vec![7, 7, 7, 7, 9]);
    assert_eq!(t.rcv.nxt, 512);
}

#[test]
fn segment_acceptance_table() {
    let mut t = established(1001, 501);
    t.rcv.wnd = 0;
    assert!(t.is_segment_acceptable(501, 0));
    assert!(!t.is_segment_acceptable(502, 0));
    assert!(!t.is_segment_acceptable(501, 10));
    t.rcv.wnd = 100;
    assert!(t.is_segment_acceptable(550, 0));
    assert!(!t.is_segment_acceptable(601, 0));
    assert!(t.is_segment_acceptable(490, 20));
    assert!(!t.is_segment_acceptable(480, 20));
    assert!(t.is_segment_acceptable(600, 50));
    assert!(!t.is_segment_acceptable(601, 50));
    // unacceptable data is refused and changes nothing
    assert!(t.receive_data(700, &[1]).is_none());
    assert_eq!(t.rcv.nxt, 501);
}

#[test]
fn duplicate_ack_does_not_advance() {
    let mut t = established(1001, 501);
    t.send_segment(0x18, vec![0; 500], 0);
    assert_eq!(t.snd.una, 1001);
    assert_eq!(t.snd.nxt, 1501);
    let cwnd = t.window.cwnd;
    let timer = t.timers.retransmit_timer;
    for _ in 0..3 {
        assert!(!t.process_ack(1001, 64240, 10));
        assert_eq!(t.snd.una, 1001);
        assert_eq!(t.window.cwnd, cwnd);
        assert_eq!(t.timers.retransmit_timer, timer);
    }
    // an ACK of data never sent is refused too
    assert!(!t.process_ack(1600, 64240, 10));
    assert_eq!(t.snd.una, 1001);
}

#[test]
fn graceful_close_from_close_wait() {
    let mut conns = Connections::new();
    conns.listen(80);
    conns.tcbs.push(established(1001, 701));
    let fin = packet(701, 1001, 0x11, 64240, vec![]);
    let (reply, _) = State::tcp_connection(&fin, &mut conns, 0, 0);
    let ack = reply_of(&reply.unwrap());
    assert_eq!(ack.tcp_header.control_bit, 0x10);
    assert_eq!(ack.tcp_header.acknowledge_number, 702);
    let i = conns.find(&quad()).unwrap();
    assert_eq!(conns.tcbs[i].state, TcpState::CloseWait);

    let fin_seq = conns.tcbs[i].close(5);
    assert_eq!(fin_seq, Some(1001));
    assert_eq!(conns.tcbs[i].state, TcpState::LastAck);
    assert_eq!(conns.tcbs[i].snd.nxt, 1002);

    let last = packet(702, 1002, 0x10, 64240, vec![]);
    let (reply, _) = State::tcp_connection(&last, &mut conns, 0, 30);
    assert!(reply.is_none());
    assert!(conns.find(&quad()).is_none());
}

#[test]
fn active_close_through_time_wait() {
    let mut t = established(1001, 701);
    assert_eq!(t.close(0), Some(1001));
    assert_eq!(t.state, TcpState::FinWait1);
    assert!(t.process_ack(1002, 64240, 10));
    assert_eq!(t.state, TcpState::FinWait2);
    assert!(t.process_fin(701, 20));
    assert_eq!(t.state, TcpState::TimeWait);
    assert_eq!(t.rcv.nxt, 702);
    assert!(!t.is_time_wait_expired(240019));
    assert!(t.is_time_wait_expired(240020));
    // a second FIN is not expected any more
    assert!(!t.process_fin(702, 30));
}

#[test]
fn simultaneous_close_goes_through_closing() {
    let mut t = established(1001, 701);
    t.close(0);
    assert!(t.process_fin(701, 5));
    assert_eq!(t.state, TcpState::Closing);
    assert!(t.process_ack(1002, 64240, 10));
    assert_eq!(t.state, TcpState::TimeWait);
    assert_eq!(t.timers.time_wait, Some(10));
}

#[test]
fn close_outside_established_does_nothing() {
    let mut t = Tcb::new(quad());
    t.passive_open();
    assert_eq!(t.close(0), None);
    assert_eq!(t.state, TcpState::Listen);
}

#[test]
fn reset_in_window_closes() {
    let mut t = established(1001, 501);
    t.send_segment(0x18, vec![1; 10], 0);
    assert!(!t.process_rst(501 + 70000));
    assert_eq!(t.state, TcpState::Established);
    assert!(t.process_rst(510));
    assert_eq!(t.state, TcpState::Closed);
    assert!(t.retransmission_queue.is_empty());
    assert!(t.timers.retransmit_timer.is_none());
}

#[test]
fn active_open_then_syn_ack() {
    let mut t = Tcb::new(quad());
    t.active_open(7000);
    assert_eq!(t.state, TcpState::SynSent);
    t.send_segment(0x02, vec![], 0);
    assert_eq!(t.snd.nxt, 7001);
    t.process_syn(300, 5000, 0, 0);
    assert_eq!(t.state, TcpState::SynRcvd);
    assert_eq!(t.rcv.nxt, 301);
    assert!(t.process_ack(7001, 5000, 40));
    assert_eq!(t.state, TcpState::Established);
    assert_eq!(t.snd.una, 7001);
    assert_eq!(t.timers.srtt, 40);
}

#[test]
fn reset_frame_on_give_up() {
    let f = State::create_reset_packet(&quad(), 1234);
    let p = reply_of(&f);
    assert_eq!(p.tcp_header.control_bit, 0x04);
    assert_eq!(p.tcp_header.sequence_number, 1234);
    assert_eq!(p.tcp_header.window, 0);
    assert_eq!(p.ip_header.destination, PEER);
    assert_eq!(p.tcp_header.destination_port, 5000);
}

#[test]
fn unacceptable_segment_gets_bare_ack_and_its_ack_is_ignored() {
    let mut conns = Connections::new();
    conns.listen(80);
    let mut t = established(1001, 501);
    t.send_segment(0x18, vec![0; 100], 0);
    conns.tcbs.push(t);
    // far outside the receive window, with an ACK of everything sent
    let stray = packet(501 + 70000, 1101, 0x10, 64240, vec![]);
    let (reply, delivered) = State::tcp_connection(&stray, &mut conns, 0, 10);
    assert!(delivered.is_empty());
    let ack = reply_of(&reply.unwrap());
    assert_eq!(ack.tcp_header.control_bit, 0x10);
    assert_eq!(ack.tcp_header.sequence_number, 1101);
    assert_eq!(ack.tcp_header.acknowledge_number, 501);
    let t = &conns.tcbs[conns.find(&quad()).unwrap()];
    assert_eq!(t.snd.una, 1001);
    assert_eq!(t.retransmission_queue.len(), 1);
}

#[test]
fn acceptable_bare_ack_advances_without_reply() {
    let mut conns = Connections::new();
    let mut t = established(1001, 501);
    t.send_segment(0x18, vec![0; 100], 0);
    conns.tcbs.push(t);
    let ack = packet(501, 1101, 0x10, 64240, vec![]);
    let (reply, _) = State::tcp_connection(&ack, &mut conns, 0, 10);
    assert!(reply.is_none());
    let t = &conns.tcbs[conns.find(&quad()).unwrap()];
    assert_eq!(t.snd.una, 1101);
    assert!(t.retransmission_queue.is_empty());
}

#[test]
fn sweep_destroys_expired_time_wait() {
    let mut conns = Connections::new();
    let mut t = established(1001, 701);
    t.state = TcpState::TimeWait;
    t.timers.time_wait = Some(1000);
    conns.tcbs.push(t);
    assert!(State::check_retransmissions(&mut conns, 240999).is_empty());
    assert_eq!(conns.tcbs.len(), 1);
    assert!(State::check_retransmissions(&mut conns, 241000).is_empty());
    assert!(conns.tcbs.is_empty());
}

#[test]
fn sweep_tags_actions_with_their_connection() {
    let mut conns = Connections::new();
    let mut a = established(1001, 1);
    a.send_segment(0x18, vec![1; 10], 0);
    let mut b = established(5001, 1);
    b.quad.src_port = 6000;
    b.send_segment(0x18, vec![2; 10], 500);
    conns.tcbs.push(a);
    conns.tcbs.push(b);
    let actions = State::check_retransmissions(&mut conns, 1000);
    assert_eq!(actions.len(), 1);
    assert_eq!(actions[0].0, quad());
    let actions = State::check_retransmissions(&mut conns, 1500);
    assert_eq!(actions.len(), 1);
    assert_eq!(actions[0].0.src_port, 6000);
    assert_eq!(conns.tcbs.len(), 2);
}
