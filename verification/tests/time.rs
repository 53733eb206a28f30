use twilight_kernel::errno::EINVAL;
use twilight_kernel::syscall::time::{
    absolute_to_monotonic_deadline, clock_now_ns, ns_to_timespec, timespec_to_ns, validate_timespec,
    Clocks, Timespec, CLOCK_MONOTONIC, CLOCK_REALTIME,
};

const OFFSET: u64 = 1000;

fn ts(sec: i64, nsec: i64) -> Timespec {
    Timespec { tv_sec: sec, tv_nsec: nsec }
}

#[test]
fn valid_timespec_passes_validation() {
    assert!(validate_timespec(&ts(0, 0)).is_ok());
    assert!(validate_timespec(&ts(1, 500_000_000)).is_ok());
    assert!(validate_timespec(&ts(1_000_000, 999_999_999)).is_ok());
}

#[test]
fn negative_tv_sec_rejected() {
    assert_eq!(validate_timespec(&ts(-1, 0)), Err(-(EINVAL as i64)));
}

#[test]
fn negative_tv_nsec_rejected() {
    assert_eq!(validate_timespec(&ts(0, -1)), Err(-(EINVAL as i64)));
}

#[test]
fn tv_nsec_at_or_above_one_second_rejected() {
    assert_eq!(validate_timespec(&ts(0, 1_000_000_000)), Err(-(EINVAL as i64)));
    assert_eq!(validate_timespec(&ts(1, 1_000_000_001)), Err(-(EINVAL as i64)));
}

#[test]
fn timespec_to_ns_basic() {
    assert_eq!(timespec_to_ns(&ts(0, 0)), 0);
    assert_eq!(timespec_to_ns(&ts(0, 500_000_000)), 500_000_000);
    assert_eq!(timespec_to_ns(&ts(1, 0)), 1_000_000_000);
    assert_eq!(timespec_to_ns(&ts(2, 250_000_000)), 2_250_000_000);
}

#[test]
fn timespec_to_ns_saturates_on_overflow() {
    let huge = ts(i64::MAX, 999_999_999);
    let ns = timespec_to_ns(&huge);
    assert_eq!(ns, u64::MAX);
}

#[test]
fn ns_to_timespec_round_trip() {
    for &ns in &[0u64, 1, 999_999_999, 1_000_000_000, 2_500_000_007] {
        let t = ns_to_timespec(ns);
        assert_eq!(timespec_to_ns(&t), ns);
    }
}

#[test]
fn ns_to_timespec_splits_correctly() {
    let t = ns_to_timespec(1_500_000_007);
    assert_eq!(t.tv_sec, 1);
    assert_eq!(t.tv_nsec, 500_000_007);
}

#[test]
fn absolute_monotonic_passthrough() {
    assert_eq!(
        absolute_to_monotonic_deadline(CLOCK_MONOTONIC, 123_456, OFFSET).unwrap(),
        123_456
    );
}

#[test]
fn absolute_realtime_subtracts_offset() {
    let realtime_deadline = OFFSET.saturating_add(500);
    assert_eq!(
        absolute_to_monotonic_deadline(CLOCK_REALTIME, realtime_deadline, OFFSET).unwrap(),
        500
    );
}

#[test]
fn absolute_realtime_before_epoch_clamps_to_zero() {
    let earlier = OFFSET.saturating_sub(1);
    let m = absolute_to_monotonic_deadline(CLOCK_REALTIME, earlier, OFFSET).unwrap();
    assert_eq!(m, 0);
}

#[test]
fn unsupported_clock_rejected() {
    let clocks = Clocks { monotonic: 1, realtime: 2, offset: OFFSET };
    assert_eq!(clock_now_ns(99, &clocks), Err(-(EINVAL as i64)));
    assert_eq!(absolute_to_monotonic_deadline(99, 0, OFFSET), Err(-(EINVAL as i64)));
}

#[test]
fn ns_to_timespec_max_does_not_panic() {
    let t = ns_to_timespec(u64::MAX);
    assert!(t.tv_sec >= 0);
    assert!(t.tv_nsec >= 0 && t.tv_nsec < 1_000_000_000);
}
