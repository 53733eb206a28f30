use twilight_kernel::syscall::poll::{
    poll_refused, poll_timeout_to_deadline, timeval_to_ns, valid_timeval, Timeval,
};

#[test]
fn poll_timeout_infinite_is_none() {
    assert_eq!(poll_timeout_to_deadline(-1, 1_000_000), None);
}

#[test]
fn poll_timeout_zero_is_now() {
    assert_eq!(poll_timeout_to_deadline(0, 1_000_000), Some(1_000_000));
}

#[test]
fn poll_timeout_finite_adds_delta() {
    assert_eq!(poll_timeout_to_deadline(5, 1_000_000_000), Some(1_005_000_000));
}

#[test]
fn poll_timeout_saturates_on_overflow() {
    assert_eq!(poll_timeout_to_deadline(isize::MAX, u64::MAX - 1), Some(u64::MAX));
}

#[test]
fn timeval_to_ns_basic() {
    assert_eq!(timeval_to_ns(Timeval { tv_sec: 2, tv_usec: 500_000 }), 2_500_000_000);
}

#[test]
fn timeval_to_ns_zero() {
    assert_eq!(timeval_to_ns(Timeval { tv_sec: 0, tv_usec: 0 }), 0);
}

#[test]
fn valid_timeval_accepts_zero() {
    assert!(valid_timeval(Timeval { tv_sec: 0, tv_usec: 0 }));
}

#[test]
fn valid_timeval_rejects_negative_sec() {
    assert!(!valid_timeval(Timeval { tv_sec: -1, tv_usec: 0 }));
}

#[test]
fn valid_timeval_rejects_negative_usec() {
    assert!(!valid_timeval(Timeval { tv_sec: 1, tv_usec: -1 }));
}

#[test]
fn valid_timeval_rejects_overflowing_usec() {
    assert!(!valid_timeval(Timeval { tv_sec: 1, tv_usec: 1_000_000 }));
}

#[test]
fn valid_timeval_accepts_max_usec() {
    assert!(valid_timeval(Timeval { tv_sec: 1, tv_usec: 999_999 }));
}

#[test]
fn descriptors_need_memory() {
    assert_eq!(poll_refused(0, 1), Some(-14));
    assert_eq!(poll_refused(0, 0), None);
    assert_eq!(poll_refused(8, 1), None);
}
