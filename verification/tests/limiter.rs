use rsync_http::limiter::Limiter;

#[test]
fn new_limiter_is_idle() {
    let limiter = Limiter::new(128);
    assert_eq!(limiter.max(), 128);
    assert_eq!(limiter.in_flight(), 0);
    assert_eq!(limiter.available(), 128);
}

#[test]
fn acquire_takes_a_slot_until_none_is_left() {
    let mut limiter = Limiter::new(2);
    assert!(limiter.try_acquire());
    assert_eq!(limiter.in_flight(), 1);
    assert!(limiter.try_acquire());
    assert_eq!(limiter.in_flight(), 2);
    assert!(!limiter.try_acquire());
    assert_eq!(limiter.in_flight(), 2);
    assert_eq!(limiter.available(), 0);
}

#[test]
fn release_frees_exactly_one_slot() {
    let mut limiter = Limiter::new(2);
    assert!(limiter.try_acquire());
    assert!(limiter.try_acquire());
    assert!(limiter.release());
    assert_eq!(limiter.in_flight(), 1);
    assert!(limiter.try_acquire());
    assert!(!limiter.try_acquire());
}

#[test]
fn release_on_an_idle_limiter_changes_nothing() {
    let mut limiter = Limiter::new(3);
    assert!(!limiter.release());
    assert_eq!(limiter.in_flight(), 0);
    assert_eq!(limiter.available(), 3);
}

#[test]
fn a_limiter_without_slots_grants_nothing() {
    let mut limiter = Limiter::new(0);
    assert!(!limiter.try_acquire());
    assert_eq!(limiter.in_flight(), 0);
}

#[test]
fn more_requests_than_slots_never_exceed_the_bound() {
    let max = 4usize;
    let requests = 10usize;
    let mut limiter = Limiter::new(max);
    let mut granted = 0usize;
    for _ in 0..requests {
        if limiter.try_acquire() {
            granted += 1;
        }
        assert!(limiter.in_flight() <= max);
    }
    assert_eq!(granted, max);
    let mut waiting = requests - granted;
    while waiting > 0 {
        assert!(limiter.release());
        assert!(limiter.try_acquire());
        assert!(limiter.in_flight() <= max);
        assert_eq!(limiter.in_flight(), max);
        waiting -= 1;
    }
    for _ in 0..max {
        assert!(limiter.release());
    }
    assert_eq!(limiter.in_flight(), 0);
    assert!(!limiter.release());
}
