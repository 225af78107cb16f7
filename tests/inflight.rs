use sosistab::inflight::{backoff_ms, Inflight, Message, Wake};

fn rel(seqno: u64) -> Message {
    Message::Rel { stream_id: 0, seqno, payload: vec![1, 2, 3] }
}

fn observe(x: &Inflight) -> Vec<(u64, bool)> {
    let mut out = Vec::new();
    if x.len() == 0 {
        return out;
    }
    let mut s = 0u64;
    while out.len() < x.len() {
        if let Some(e) = x.get_seqno(s) {
            out.push((e.seqno(), e.acked()));
        }
        s += 1;
    }
    out
}

#[test]
fn new_engine_is_empty() {
    let x = Inflight::new(0);
    assert_eq!(x.len(), 0);
    assert_eq!(x.inflight(), 0);
    assert_eq!(x.srtt(), 300);
    assert_eq!(x.min_rtt(), 300);
    assert_eq!(x.bdp(), (100u128 * 300, 1000));
}

#[test]
fn insert_and_duplicate_insert() {
    let mut x = Inflight::new(0);
    x.insert(0, rel(0), 0);
    x.insert(1, rel(1), 0);
    x.insert(1, rel(1), 5);
    assert_eq!(x.len(), 2);
    assert_eq!(x.inflight(), 2);
    assert!(x.get_seqno(2).is_none());
    assert_eq!(x.get_seqno(1).unwrap().seqno(), 1);
}

#[test]
fn ack_accounting_counts_and_front() {
    let mut x = Inflight::new(0);
    for i in 0..5u64 {
        x.insert(i, rel(i), 0);
    }
    assert!(x.mark_acked(2, 10));
    assert!(!x.mark_acked(2, 11));
    assert_eq!(x.inflight(), 4);
    assert_eq!(x.len(), 5);
    assert!(x.mark_acked(0, 12));
    assert_eq!(x.inflight(), 3);
    // front pruned to 1, the smallest unacknowledged
    assert_eq!(x.len(), 4);
    assert!(x.get_seqno(0).is_none());
    assert!(x.mark_acked(1, 13));
    // 1 and 2 both go; 3 is the front
    assert_eq!(x.len(), 2);
    assert_eq!(x.inflight(), 2);
    assert_eq!(x.get_seqno(3).unwrap().seqno(), 3);
    assert!(!x.mark_acked(0, 14));
    assert!(!x.mark_acked(9, 14));
}

#[test]
fn cumulative_ack_matches_single_acks() {
    let mut a = Inflight::new(0);
    let mut b = Inflight::new(0);
    for i in 0..6u64 {
        a.insert(i, rel(i), 0);
        b.insert(i, rel(i), 0);
    }
    a.mark_acked(4, 1);
    b.mark_acked(4, 1);
    a.mark_acked_lt(3, 2);
    for i in 0..3u64 {
        b.mark_acked(i, 2);
    }
    assert_eq!(observe(&a), observe(&b));
    assert_eq!(a.inflight(), b.inflight());
    assert_eq!(a.inflight(), 2);
    assert_eq!(observe(&a), vec![(3, false), (4, true), (5, false)]);
}

#[test]
fn ack_samples_rtt_when_never_retransmitted() {
    let mut x = Inflight::new(0);
    x.insert(0, rel(0), 100);
    assert!(x.mark_acked(0, 200));
    assert_eq!(x.srtt(), 100);
    assert_eq!(x.min_rtt(), 100);
}

#[test]
fn backoff_values() {
    assert_eq!(backoff_ms(300, 0), 300);
    assert_eq!(backoff_ms(300, 1), 450);
    assert_eq!(backoff_ms(300, 2), 675);
    assert_eq!(backoff_ms(350, 1), 525);
    assert_eq!(backoff_ms(350, 2), 787);
    assert_eq!(backoff_ms(u64::MAX, 3), u64::MAX);
}

#[test]
fn retransmit_schedule_and_karn() {
    let mut x = Inflight::new(0);
    x.insert(0, rel(0), 0);
    assert_eq!(x.poll_retransmit(0), Wake::SleepUntil(300));
    assert_eq!(x.poll_retransmit(300), Wake::Retransmit { seqno: 0, timeout: true });
    assert_eq!(x.get_seqno(0).unwrap().retrans, 1);
    assert_eq!(x.poll_retransmit(300), Wake::SleepUntil(750));
    assert_eq!(x.poll_retransmit(750), Wake::Retransmit { seqno: 0, timeout: true });
    assert_eq!(x.poll_retransmit(750), Wake::SleepUntil(750 + 675));
    assert!(x.mark_acked(0, 2000));
    // the retransmitted segment gives no RTT sample
    assert_eq!(x.srtt(), 300);
    assert_eq!(x.min_rtt(), 300);
    // its timer is stale and is dropped
    assert_eq!(x.poll_retransmit(5000), Wake::Idle);
}

#[test]
fn far_deadline_reports_done() {
    let mut x = Inflight::new(0);
    x.insert(0, rel(0), 0);
    let mut now = 0u64;
    loop {
        match x.poll_retransmit(now) {
            Wake::SleepUntil(t) => now = t,
            Wake::Retransmit { .. } => {}
            Wake::Done => break,
            Wake::Idle => panic!("timer lost"),
        }
    }
    assert!(x.get_seqno(0).unwrap().retrans >= 12);
}

#[test]
fn idle_when_nothing_pending() {
    let mut x = Inflight::new(0);
    assert_eq!(x.poll_retransmit(0), Wake::Idle);
}

#[test]
fn fast_retransmit_goes_first_in_order() {
    let mut x = Inflight::new(0);
    x.insert(0, rel(0), 0);
    x.push_fast_retrans(5);
    x.push_fast_retrans(3);
    x.push_fast_retrans(5);
    assert_eq!(x.poll_retransmit(1000), Wake::Retransmit { seqno: 3, timeout: false });
    assert_eq!(x.poll_retransmit(1000), Wake::Retransmit { seqno: 5, timeout: false });
    assert_eq!(x.poll_retransmit(1000), Wake::Retransmit { seqno: 0, timeout: true });
}

#[test]
fn unreliable_payload_gives_no_rate_sample() {
    let mut x = Inflight::new(0);
    x.insert(0, Message::Urel { stream_id: 1, payload: vec![] }, 0);
    x.mark_acked(0, 5);
    assert_eq!(x.rate().num, 100);
    assert_eq!(x.rate().den_ms, 1000);
}

#[test]
fn reliable_payload_gives_rate_sample() {
    let mut x = Inflight::new(0);
    x.insert(0, rel(0), 0);
    x.mark_acked(0, 5);
    // one message delivered over 5 ms beats 100 per second
    assert_eq!(x.rate().num, 1);
    assert_eq!(x.rate().den_ms, 5);
}

#[test]
fn insert_records_entry_fields() {
    let mut x = Inflight::new(0);
    x.insert(0, rel(0), 40);
    let e = x.get_seqno(0).unwrap();
    assert_eq!(e.seqno, 0);
    assert!(!e.acked);
    assert_eq!(e.send_time, 40);
    assert_eq!(e.retrans, 0);
    assert!(matches!(e.payload, Message::Rel { seqno: 0, .. }));
    assert_eq!(e.delivered, 0);
    assert_eq!(e.delivered_time, 0);
    // a duplicate insert keeps the stored entry
    x.insert(0, Message::Empty, 90);
    let e = x.get_seqno(0).unwrap();
    assert_eq!(e.send_time, 40);
    assert!(matches!(e.payload, Message::Rel { .. }));
}

#[test]
fn done_just_past_thirty_seconds() {
    let mut x = Inflight::new(0);
    x.insert(0, rel(0), 30_301);
    // deadline 30_601: 30.001 s away at 600
    assert_eq!(x.poll_retransmit(600), Wake::Done);
    assert_eq!(x.poll_retransmit(601), Wake::SleepUntil(30_601));
}

#[test]
fn cumulative_ack_keeps_payloads_and_counts() {
    let mut x = Inflight::new(0);
    for i in 0..4u64 {
        x.insert(i, rel(i), if i == 0 { 0 } else { 10 });
    }
    assert_eq!(x.poll_retransmit(300), Wake::Retransmit { seqno: 0, timeout: true });
    x.mark_acked_lt(2, 400);
    assert_eq!(x.len(), 2);
    let e = x.get_seqno(2).unwrap();
    assert_eq!(e.retrans, 0);
    assert!(matches!(e.payload, Message::Rel { seqno: 2, .. }));
}
