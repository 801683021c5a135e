use tcp_stack::seqnum::{seq_leq, seq_lt};
use tcp_stack::tcb::{Quad, RetransmitAction, Tcb, TcpState};

fn quad() -> Quad {
    Quad { src_addr: 0x0a00_0002, src_port: 5000, dst_addr: 0x0a00_0001, dst_port: 80 }
}

fn established(snd: u32, rcv: u32) -> Tcb {
    let mut t = Tcb::new(quad());
    t.active_open(snd);
    t.state = TcpState::Established;
    t.rcv.nxt = rcv;
    t.snd.wnd = 64240;
    t
}

#[test]
fn rtt_first_sample_is_clamped() {
    let mut t = established(2000, 1);
    t.send_segment(0x18, vec![0; 500], 0);
    assert!(t.process_ack(2500, 64240, 320));
    assert_eq!(t.timers.srtt, 320);
    assert_eq!(t.timers.rttvar, 160);
    assert_eq!(t.timers.rto, 1000);
}

#[test]
fn rtt_second_sample_smooths() {
    let mut t = established(2000, 1);
    t.send_segment(0x18, vec![0; 500], 0);
    t.process_ack(2500, 64240, 320);
    t.send_segment(0x18, vec![0; 100], 1000);
    assert!(t.process_ack(2600, 64240, 1400));
    assert_eq!(t.timers.rttvar, 140);
    assert_eq!(t.timers.srtt, 330);
    assert_eq!(t.timers.rto, 1000);
}

#[test]
fn rtt_formulas_exact() {
    let mut t = established(1, 1);
    t.timers.srtt = 2000;
    t.timers.rttvar = 1000;
    t.update_rtt(3000);
    assert_eq!(t.timers.rttvar, 1000);
    assert_eq!(t.timers.srtt, 2125);
    assert_eq!(t.timers.rto, 6125);

    // the RTTVAR floor of 25 ms
    let mut t = established(1, 1);
    t.timers.srtt = 1000;
    t.timers.rttvar = 0;
    t.update_rtt(1000);
    assert_eq!(t.timers.rttvar, 0);
    assert_eq!(t.timers.srtt, 1000);
    assert_eq!(t.timers.rto, 1100);
}

#[test]
fn rto_stays_within_bounds() {
    let mut t = established(1, 1);
    t.update_rtt(50000);
    assert_eq!(t.timers.srtt, 50000);
    assert_eq!(t.timers.rttvar, 25000);
    assert_eq!(t.timers.rto, 60000);
    let mut t = established(1, 1);
    t.update_rtt(1);
    assert_eq!(t.timers.rto, 1000);
    let mut t = established(1, 1);
    t.update_rtt(u32::MAX);
    assert_eq!(t.timers.rto, 60000);
}

#[test]
fn karn_skips_retransmitted_segments() {
    let mut t = established(1001, 1);
    t.send_segment(0x18, vec![0; 100], 0);
    let actions = t.check_retransmission_timeout(1000);
    assert_eq!(actions.len(), 1);
    assert!(t.process_ack(1101, 64240, 1500));
    assert_eq!(t.timers.srtt, 0);
    assert_eq!(t.timers.rttvar, 0);
    assert_eq!(t.timers.rto, 1000);
    assert_eq!(t.timers.consecutive_timeouts, 0);
}

#[test]
fn timeout_response_sets_cwnd_and_ssthresh() {
    let mut t = established(1001, 1);
    t.send_segment(0x18, vec![0; 500], 0);
    let actions = t.check_retransmission_timeout(1000);
    assert_eq!(actions.len(), 1);
    assert_eq!(t.window.cwnd, 1460);
    assert_eq!(t.window.ssthresh, 2920);
    assert_eq!(t.timers.consecutive_timeouts, 1);

    let mut t = established(1001, 1);
    for k in 0..3u32 {
        t.send_segment(0x10, vec![0; 20000], 0);
    }
    t.check_retransmission_timeout(1000);
    assert_eq!(t.window.cwnd, 1460);
    assert_eq!(t.window.ssthresh, 30000);
    assert_eq!(t.timers.consecutive_timeouts, 3);
}

#[test]
fn timer_not_due_changes_nothing() {
    let mut t = established(1001, 1);
    assert!(t.check_retransmission_timeout(5000).is_empty());
    t.send_segment(0x18, vec![0; 10], 100);
    assert!(t.check_retransmission_timeout(1099).is_empty());
    assert_eq!(t.retransmission_queue[0].retransmit_count, 0);
    assert_eq!(t.window.cwnd, 14600);
}

#[test]
fn backoff_doubles_and_caps() {
    let mut t = established(1001, 1);
    t.send_segment(0x18, vec![7; 10], 0);
    let mut now: u64 = 1000;
    let expected = [2000u64, 4000, 8000, 16000, 32000, 60000, 60000, 60000];
    for (n, wait) in expected.iter().enumerate() {
        let actions = t.check_retransmission_timeout(now);
        match &actions[0] {
            RetransmitAction::Retransmit { seq, data, attempt, .. } => {
                assert_eq!(*seq, 1001);
                assert_eq!(data, &vec![7; 10]);
                assert_eq!(*attempt, n as u32 + 1);
            }
            RetransmitAction::GiveUp { .. } => panic!("gave up early"),
        }
        assert_eq!(t.timers.retransmit_timer, Some(now + wait));
        assert_eq!(t.time_until_retransmit(now), Some(*wait));
        now += wait;
    }
}

#[test]
fn una_advances_across_wrap() {
    let mut t = established(0xffff_ff00, 1);
    t.send_segment(0x18, vec![0; 0x200], 0);
    assert_eq!(t.snd.nxt, 0x100);
    let before = t.snd.una;
    assert!(t.process_ack(0x50, 64240, 10));
    assert_eq!(t.snd.una, 0x50);
    assert!(seq_lt(before, t.snd.una));
    assert!(seq_leq(t.snd.una, t.snd.nxt));
    // an older ACK cannot move it back
    assert!(!t.process_ack(0xffff_ff80, 64240, 20));
    assert_eq!(t.snd.una, 0x50);
}

#[test]
fn partial_ack_trims_the_queue() {
    let mut t = established(1001, 1);
    t.send_segment(0x18, (0..200).map(|i| i as u8).collect(), 0);
    t.send_segment(0x19, vec![5; 50], 0);
    assert_eq!(t.snd.nxt, 1252);
    assert!(t.process_ack(1101, 64240, 100));
    assert_eq!(t.retransmission_queue.len(), 2);
    let q = &t.retransmission_queue[0];
    assert_eq!(q.seq, 1101);
    assert_eq!(q.data, (100..200).map(|i| i as u8).collect::<Vec<u8>>());
    for q in t.retransmission_queue.iter() {
        assert!(seq_leq(t.snd.una, q.seq));
        assert!(seq_lt(q.seq, t.snd.nxt));
        assert_eq!(q.retransmit_at, Some(100 + 1000));
    }
    assert_eq!(t.timers.retransmit_timer, Some(1100));
    assert!(t.process_ack(1252, 64240, 200));
    assert!(t.retransmission_queue.is_empty());
    assert!(t.timers.retransmit_timer.is_none());
}

#[test]
fn syn_trimmed_from_partially_acked_segment() {
    let mut t = Tcb::new(quad());
    t.active_open(10);
    t.send_segment(0x02, vec![1, 2, 3], 0);
    assert_eq!(t.snd.nxt, 14);
    assert!(t.process_ack(12, 1000, 5));
    let q = &t.retransmission_queue[0];
    assert_eq!(q.seq, 12);
    assert_eq!(q.flags, 0x00);
    assert_eq!(q.data, vec![2, 3]);
}

#[test]
fn cwnd_slow_start_and_congestion_avoidance() {
    let mut t = established(1001, 1);
    t.send_segment(0x18, vec![0; 100], 0);
    t.process_ack(1101, 64240, 10);
    assert_eq!(t.window.cwnd, 16060);
    let mut t = established(1001, 1);
    t.window.ssthresh = 14600;
    t.send_segment(0x18, vec![0; 100], 0);
    t.process_ack(1101, 64240, 10);
    assert_eq!(t.window.cwnd, 14746);
}

#[test]
fn available_window_and_timer_queries() {
    let mut t = established(1001, 1);
    assert_eq!(t.time_until_retransmit(0), None);
    t.send_segment(0x18, vec![0; 500], 0);
    assert_eq!(t.available_window(), 14100);
    assert_eq!(t.time_until_retransmit(300), Some(700));
    assert_eq!(t.time_until_retransmit(5000), Some(0));
    t.snd.wnd = 400;
    assert_eq!(t.available_window(), 0);
}

#[test]
fn queueing_a_sent_segment_leaves_send_space_alone() {
    let mut t = established(1001, 1);
    t.snd.nxt = 1101;
    t.queue_for_retransmission(1001, 0x18, vec![3; 100], 50);
    assert_eq!(t.snd.una, 1001);
    assert_eq!(t.snd.nxt, 1101);
    let q = &t.retransmission_queue[0];
    assert_eq!(q.seq, 1001);
    assert_eq!(q.ack, 0);
    assert_eq!(q.window, 0);
    assert_eq!(q.retransmit_at, Some(1050));
    assert_eq!(t.timers.retransmit_timer, Some(1050));
    assert_eq!(t.timers.last_send, Some(50));
}

#[test]
fn syn_in_listen_sends_syn_ack() {
    let mut t = Tcb::new(quad());
    t.passive_open();
    t.process_syn(100, 64240, 1000, 7);
    assert_eq!(t.state, TcpState::SynRcvd);
    assert_eq!(t.rcv.irs, 100);
    assert_eq!(t.rcv.nxt, 101);
    assert_eq!(t.snd.wnd, 64240);
    assert_eq!(t.snd.iss, 1000);
    assert_eq!(t.snd.una, 1000);
    assert_eq!(t.snd.nxt, 1001);
    assert_eq!(t.retransmission_queue.len(), 1);
    assert_eq!(t.retransmission_queue[0].flags, 0x12);
    assert_eq!(t.timers.retransmit_timer, Some(1007));
}
