use sosistab::estimators::{diff, RateCalculator, Ratio, RttCalculator};

#[test]
fn diff_is_absolute() {
    assert_eq!(diff(3, 10), 7);
    assert_eq!(diff(10, 3), 7);
    assert_eq!(diff(5, 5), 0);
    assert_eq!(diff(0, u64::MAX), u64::MAX);
}

#[test]
fn rtt_initial_state() {
    let r = RttCalculator::new(0);
    assert_eq!(r.srtt, 300);
    assert_eq!(r.rttvar, 0);
    assert_eq!(r.rto(), 300);
    assert_eq!(r.min_rtt, 300);
    assert!(!r.existing);
}

#[test]
fn rtt_first_and_second_sample() {
    let mut r = RttCalculator::new(0);
    r.record_sample(Some(100), 5);
    assert_eq!(r.srtt, 100);
    assert_eq!(r.rttvar, 50);
    assert_eq!(r.rto(), 350);
    assert_eq!(r.min_rtt, 100);
    assert_eq!(r.rtt_update_time, 5);
    r.record_sample(Some(200), 6);
    assert_eq!(r.rttvar, 62);
    assert_eq!(r.srtt, 112);
    assert_eq!(r.rto(), 410);
    assert_eq!(r.min_rtt, 100);
    assert_eq!(r.rtt_update_time, 5);
}

#[test]
fn rtt_rto_floor_of_ten() {
    let mut r = RttCalculator::new(0);
    r.record_sample(Some(2), 0);
    // srtt 2, rttvar 1: 4 * rttvar is under the floor of 10
    assert_eq!(r.rto(), 2 + 10 + 50);
}

#[test]
fn rtt_none_sample_keeps_estimates() {
    let mut r = RttCalculator::new(0);
    r.record_sample(Some(100), 0);
    r.record_sample(None, 1);
    assert_eq!(r.srtt, 100);
    assert_eq!(r.rttvar, 50);
    assert_eq!(r.rto(), 350);
}

#[test]
fn rtt_min_refreshes_after_ten_seconds() {
    let mut r = RttCalculator::new(0);
    r.record_sample(Some(100), 0);
    assert_eq!(r.min_rtt, 100);
    r.record_sample(Some(900), 5_000);
    assert_eq!(r.min_rtt, 100);
    let srtt = r.srtt;
    r.record_sample(None, 10_001);
    assert_eq!(r.min_rtt, srtt);
    assert_eq!(r.rtt_update_time, 10_001);
}

#[test]
fn ratio_comparison() {
    let slow = Ratio { num: 1, den_ms: 1000 };
    let fast = Ratio { num: 10, den_ms: 1000 };
    let inf = Ratio { num: 1, den_ms: 0 };
    let nan = Ratio { num: 0, den_ms: 0 };
    assert!(fast.gt(&slow));
    assert!(!slow.gt(&fast));
    assert!(inf.gt(&fast));
    assert!(!inf.gt(&inf));
    assert!(!nan.gt(&slow));
    assert!(!slow.gt(&nan));
}

#[test]
fn rate_rises_at_once() {
    let mut r = RateCalculator::new(0);
    assert_eq!(r.rate, Ratio { num: 100, den_ms: 1000 });
    let s = Ratio { num: 300, den_ms: 1000 };
    r.record_sample(s, 10);
    assert_eq!(r.rate, s);
    assert_eq!(r.rate_update_time, 10);
}

#[test]
fn rate_lower_sample_ignored_within_three_seconds() {
    let mut r = RateCalculator::new(0);
    let s = Ratio { num: 50, den_ms: 1000 };
    r.record_sample(s, 3_000);
    assert_eq!(r.rate, Ratio { num: 100, den_ms: 1000 });
    assert_eq!(r.rate_update_time, 0);
}

#[test]
fn rate_lower_sample_taken_after_three_seconds() {
    let mut r = RateCalculator::new(0);
    let s = Ratio { num: 50, den_ms: 1000 };
    r.record_sample(s, 3_500);
    assert_eq!(r.rate, s);
    assert_eq!(r.rate_update_time, 3_500);
}
