use rsync_http::dispatch::{Admission, Dispatcher};

#[test]
fn a_new_dispatcher_has_nothing_to_do() {
    let mut dispatcher = Dispatcher::new(4, 50);
    assert_eq!(dispatcher.queued(), 0);
    assert_eq!(dispatcher.in_flight(), 0);
    assert_eq!(dispatcher.start_next(), None);
    assert!(!dispatcher.finish(b"a.txt"));
}

#[test]
fn files_start_in_the_order_they_were_reported() {
    let mut dispatcher = Dispatcher::new(4, 50);
    assert_eq!(dispatcher.submit(b"a.txt"), Admission::Queued);
    assert_eq!(dispatcher.submit(b"b.txt"), Admission::Queued);
    assert_eq!(dispatcher.submit(b"c.txt"), Admission::Queued);
    assert_eq!(dispatcher.queued(), 3);
    assert_eq!(dispatcher.start_next(), Some(b"a.txt".to_vec()));
    assert_eq!(dispatcher.start_next(), Some(b"b.txt".to_vec()));
    assert_eq!(dispatcher.start_next(), Some(b"c.txt".to_vec()));
    assert_eq!(dispatcher.start_next(), None);
    assert_eq!(dispatcher.queued(), 0);
    assert_eq!(dispatcher.in_flight(), 3);
}

#[test]
fn no_more_files_run_than_there_are_slots() {
    let max = 3usize;
    let mut dispatcher = Dispatcher::new(max, 50);
    let paths: Vec<Vec<u8>> = (0..10).map(|i| format!("file-{}.txt", i).into_bytes()).collect();
    for path in &paths {
        assert_eq!(dispatcher.submit(path), Admission::Queued);
    }
    let mut started: Vec<Vec<u8>> = Vec::new();
    while let Some(path) = dispatcher.start_next() {
        started.push(path);
        assert!(dispatcher.in_flight() <= max);
    }
    assert_eq!(started, paths[..3].to_vec());
    assert_eq!(dispatcher.in_flight(), 3);
    assert_eq!(dispatcher.queued(), 7);
    let mut next = 3;
    while dispatcher.in_flight() > 0 {
        let done = started.remove(0);
        assert!(dispatcher.finish(&done));
        if let Some(path) = dispatcher.start_next() {
            assert_eq!(path, paths[next]);
            next += 1;
            started.push(path);
        }
        assert!(dispatcher.in_flight() <= max);
        assert_eq!(dispatcher.start_next(), None);
    }
    assert_eq!(next, 10);
    assert_eq!(dispatcher.queued(), 0);
}

#[test]
fn a_change_to_a_queued_file_is_absorbed() {
    let mut dispatcher = Dispatcher::new(1, 50);
    assert_eq!(dispatcher.submit(b"a.txt"), Admission::Queued);
    assert_eq!(dispatcher.submit(b"a.txt"), Admission::Absorbed);
    assert_eq!(dispatcher.submit(b"a.txt"), Admission::Absorbed);
    assert_eq!(dispatcher.queued(), 1);
    assert_eq!(dispatcher.start_next(), Some(b"a.txt".to_vec()));
    assert!(dispatcher.finish(b"a.txt"));
    assert_eq!(dispatcher.queued(), 0);
    assert_eq!(dispatcher.start_next(), None);
}

#[test]
fn a_change_to_a_file_in_flight_runs_it_again_afterwards() {
    let mut dispatcher = Dispatcher::new(2, 50);
    assert_eq!(dispatcher.submit(b"a.txt"), Admission::Queued);
    assert_eq!(dispatcher.start_next(), Some(b"a.txt".to_vec()));
    assert_eq!(dispatcher.submit(b"a.txt"), Admission::Absorbed);
    assert_eq!(dispatcher.submit(b"a.txt"), Admission::Absorbed);
    assert_eq!(dispatcher.queued(), 0);
    assert_eq!(dispatcher.in_flight(), 1);
    assert_eq!(dispatcher.start_next(), None);
    assert!(dispatcher.finish(b"a.txt"));
    assert_eq!(dispatcher.in_flight(), 0);
    assert_eq!(dispatcher.queued(), 1);
    assert_eq!(dispatcher.start_next(), Some(b"a.txt".to_vec()));
    assert!(dispatcher.finish(b"a.txt"));
    assert_eq!(dispatcher.queued(), 0);
    assert_eq!(dispatcher.in_flight(), 0);
}

#[test]
fn a_full_queue_refuses_new_files_only() {
    let mut dispatcher = Dispatcher::new(1, 2);
    assert_eq!(dispatcher.submit(b"a.txt"), Admission::Queued);
    assert_eq!(dispatcher.submit(b"b.txt"), Admission::Queued);
    assert_eq!(dispatcher.submit(b"c.txt"), Admission::Full);
    assert_eq!(dispatcher.submit(b"a.txt"), Admission::Absorbed);
    assert_eq!(dispatcher.queued(), 2);
    assert_eq!(dispatcher.start_next(), Some(b"a.txt".to_vec()));
    assert_eq!(dispatcher.submit(b"c.txt"), Admission::Queued);
    assert_eq!(dispatcher.submit(b"d.txt"), Admission::Full);
    assert_eq!(dispatcher.submit(b"a.txt"), Admission::Absorbed);
    assert!(dispatcher.finish(b"a.txt"));
    assert_eq!(dispatcher.queued(), 3);
    assert_eq!(dispatcher.start_next(), Some(b"b.txt".to_vec()));
    assert!(dispatcher.finish(b"b.txt"));
    assert_eq!(dispatcher.start_next(), Some(b"c.txt".to_vec()));
    assert!(dispatcher.finish(b"c.txt"));
    assert_eq!(dispatcher.start_next(), Some(b"a.txt".to_vec()));
}

#[test]
fn a_queue_without_room_takes_nothing() {
    let mut dispatcher = Dispatcher::new(1, 0);
    assert_eq!(dispatcher.submit(b"a.txt"), Admission::Full);
    assert_eq!(dispatcher.queued(), 0);
    assert_eq!(dispatcher.start_next(), None);
}

#[test]
fn a_dispatcher_without_slots_starts_nothing() {
    let mut dispatcher = Dispatcher::new(0, 50);
    assert_eq!(dispatcher.submit(b"a.txt"), Admission::Queued);
    assert_eq!(dispatcher.start_next(), None);
    assert_eq!(dispatcher.queued(), 1);
    assert_eq!(dispatcher.in_flight(), 0);
}

#[test]
fn finishing_a_file_that_does_not_run_changes_nothing() {
    let mut dispatcher = Dispatcher::new(2, 50);
    assert_eq!(dispatcher.submit(b"a.txt"), Admission::Queued);
    assert_eq!(dispatcher.submit(b"b.txt"), Admission::Queued);
    assert_eq!(dispatcher.start_next(), Some(b"a.txt".to_vec()));
    assert!(!dispatcher.finish(b"b.txt"));
    assert!(!dispatcher.finish(b"zzz"));
    assert_eq!(dispatcher.queued(), 1);
    assert_eq!(dispatcher.in_flight(), 1);
    assert!(dispatcher.finish(b"a.txt"));
    assert!(!dispatcher.finish(b"a.txt"));
    assert_eq!(dispatcher.in_flight(), 0);
}

#[test]
fn finishing_frees_the_slot_of_that_file_only() {
    let mut dispatcher = Dispatcher::new(2, 50);
    for path in [&b"a"[..], b"b", b"c"] {
        assert_eq!(dispatcher.submit(path), Admission::Queued);
    }
    assert_eq!(dispatcher.start_next(), Some(b"a".to_vec()));
    assert_eq!(dispatcher.start_next(), Some(b"b".to_vec()));
    assert_eq!(dispatcher.start_next(), None);
    assert!(dispatcher.finish(b"b"));
    assert_eq!(dispatcher.in_flight(), 1);
    assert_eq!(dispatcher.submit(b"a"), Admission::Absorbed);
    assert_eq!(dispatcher.submit(b"b"), Admission::Queued);
    assert_eq!(dispatcher.start_next(), Some(b"c".to_vec()));
    assert_eq!(dispatcher.start_next(), None);
    assert!(dispatcher.finish(b"a"));
    assert_eq!(dispatcher.start_next(), Some(b"b".to_vec()));
    assert_eq!(dispatcher.start_next(), None);
    assert_eq!(dispatcher.queued(), 1);
    assert!(dispatcher.finish(b"c"));
    assert_eq!(dispatcher.start_next(), Some(b"a".to_vec()));
}
