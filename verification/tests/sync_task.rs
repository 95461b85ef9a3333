use rsync_http::protocol::{build_request, method, request_target, Method, Operation, Request};
use rsync_http::sync::{
    advance, backoff_delay, begin, delta_reported, is_finished, reply_event, retry_allowed,
    SyncAction,
    SyncEvent, SyncOutcome, SyncPolicy, SyncState, SyncTask, Upload,
};

fn policy() -> SyncPolicy {
    SyncPolicy { max_attempts: 3, base_delay_ms: 100, max_delay_ms: 1000 }
}

fn granted(path: &[u8]) -> (SyncTask, SyncAction) {
    let (task, first) = begin(path.to_vec());
    assert_eq!(first, SyncAction::AcquireSlot);
    advance(&policy(), task, SyncEvent::SlotGranted)
}

fn signature_request(path: &[u8]) -> Request {
    let mut target = b"/request-signature?file_path=".to_vec();
    target.extend_from_slice(path);
    Request { operation: Operation::GetSignature, method: Method::Get, target, body: Vec::new() }
}

#[test]
fn request_targets_follow_the_routes() {
    assert_eq!(
        request_target(Operation::GetSignature, b"docs/readme.txt"),
        b"/request-signature?file_path=docs/readme.txt".to_vec()
    );
    assert_eq!(request_target(Operation::ApplyPatch, b"a.txt"), b"/patch-file?file_path=a.txt".to_vec());
    assert_eq!(request_target(Operation::IngestNewFile, b"a.txt"), b"/new-file?file_path=a.txt".to_vec());
    assert_eq!(request_target(Operation::IngestNewFile, b""), b"/new-file?file_path=".to_vec());
}

#[test]
fn only_the_signature_request_is_a_get() {
    assert_eq!(method(Operation::GetSignature), Method::Get);
    assert_eq!(method(Operation::ApplyPatch), Method::Post);
    assert_eq!(method(Operation::IngestNewFile), Method::Post);
}

#[test]
fn build_request_fills_every_field() {
    let request = build_request(Operation::ApplyPatch, b"a.txt", vec![1, 2, 3]);
    assert_eq!(request.operation, Operation::ApplyPatch);
    assert_eq!(request.method, Method::Post);
    assert_eq!(request.target, b"/patch-file?file_path=a.txt".to_vec());
    assert_eq!(request.body, vec![1, 2, 3]);
}

#[test]
fn a_task_starts_by_asking_for_a_slot() {
    let (task, action) = begin(b"a.txt".to_vec());
    assert_eq!(action, SyncAction::AcquireSlot);
    assert_eq!(task.path, b"a.txt".to_vec());
    assert_eq!(task.state, SyncState::WaitingForSlot);
    assert!(!is_finished(&task));
}

#[test]
fn a_granted_slot_leads_to_the_signature_request() {
    let (task, action) = granted(b"docs/readme.txt");
    assert_eq!(task.state, SyncState::AwaitingSignature { failures: 0 });
    assert_eq!(action, SyncAction::Send { request: signature_request(b"docs/readme.txt"), delay_ms: 0 });
}

#[test]
fn a_path_that_escapes_the_root_is_never_asked_for() {
    for path in [&b"../../etc/passwd"[..], b"..", b"/etc/passwd", b"/", b"a/../../b", b"a/b/../../../a/b"] {
        let (task, action) = granted(path);
        assert_eq!(action, SyncAction::ReleaseSlot { outcome: SyncOutcome::PathEscapesRoot });
        assert_eq!(task.state, SyncState::Finished { outcome: SyncOutcome::PathEscapesRoot });
        assert_eq!(task.path, path.to_vec());
        let (task, action) = advance(&policy(), task, SyncEvent::LocalContent { bytes: vec![1] });
        assert_eq!(action, SyncAction::Nothing);
        assert!(is_finished(&task));
    }
}

#[test]
fn a_path_inside_the_root_is_asked_for_as_it_is() {
    for path in [&b"a.txt"[..], b"docs/./readme.txt", b"a/../b", b"...", b"..a"] {
        let (task, action) = granted(path);
        assert_eq!(action, SyncAction::Send { request: signature_request(path), delay_ms: 0 });
        assert_eq!(task.state, SyncState::AwaitingSignature { failures: 0 });
    }
}

#[test]
fn new_file_scenario_sends_the_whole_file() {
    let (task, _) = granted(b"docs/readme.txt");
    let (task, action) =
        advance(&policy(), task, SyncEvent::SignatureReply { status: 404, body: Vec::new() });
    assert_eq!(action, SyncAction::ReadLocal);
    assert_eq!(task.state, SyncState::ReadingLocal);
    let content = b"# Read me\n".to_vec();
    let (task, action) = advance(&policy(), task, SyncEvent::LocalContent { bytes: content.clone() });
    assert_eq!(
        action,
        SyncAction::Send {
            request: Request {
                operation: Operation::IngestNewFile,
                method: Method::Post,
                target: b"/new-file?file_path=docs/readme.txt".to_vec(),
                body: content.clone(),
            },
            delay_ms: 0,
        }
    );
    assert_eq!(task.state, SyncState::Uploading { upload: Upload::NewFile, body: content, failures: 0 });
    let (task, action) = advance(&policy(), task, SyncEvent::UploadReply { status: 200 });
    assert_eq!(action, SyncAction::ReleaseSlot { outcome: SyncOutcome::Ingested });
    assert_eq!(task.state, SyncState::Finished { outcome: SyncOutcome::Ingested });
    assert!(is_finished(&task));
}

#[test]
fn an_empty_signature_counts_as_not_found() {
    let (task, _) = granted(b"a.txt");
    let (task, action) =
        advance(&policy(), task, SyncEvent::SignatureReply { status: 200, body: Vec::new() });
    assert_eq!(action, SyncAction::ReadLocal);
    assert_eq!(task.state, SyncState::ReadingLocal);
}

#[test]
fn a_not_found_reply_with_a_body_counts_as_not_found() {
    let (task, _) = granted(b"a.txt");
    let (task, action) =
        advance(&policy(), task, SyncEvent::SignatureReply { status: 404, body: b"nothing here".to_vec() });
    assert_eq!(action, SyncAction::ReadLocal);
    assert_eq!(task.state, SyncState::ReadingLocal);
}

#[test]
fn patch_scenario_sends_the_delta() {
    let (task, _) = granted(b"a.txt");
    let signature = vec![0x72, 0x73, 0x01, 0x37, 0, 0, 8, 0];
    let (task, action) =
        advance(&policy(), task, SyncEvent::SignatureReply { status: 200, body: signature.clone() });
    assert_eq!(action, SyncAction::ComputeDelta { signature });
    assert_eq!(task.state, SyncState::ComputingDelta);
    let delta = vec![0x72, 0x73, 0x02, 0x36, 0x41, 11, b'h', b'e', b'l', b'l', b'o', 0];
    let (task, action) = advance(&policy(), task, SyncEvent::DeltaComputed { delta: delta.clone() });
    assert_eq!(
        action,
        SyncAction::Send {
            request: Request {
                operation: Operation::ApplyPatch,
                method: Method::Post,
                target: b"/patch-file?file_path=a.txt".to_vec(),
                body: delta.clone(),
            },
            delay_ms: 0,
        }
    );
    assert_eq!(task.state, SyncState::Uploading { upload: Upload::Patch, body: delta, failures: 0 });
    let (task, action) = advance(&policy(), task, SyncEvent::UploadReply { status: 200 });
    assert_eq!(action, SyncAction::ReleaseSlot { outcome: SyncOutcome::Patched });
    assert_eq!(task.state, SyncState::Finished { outcome: SyncOutcome::Patched });
}

#[test]
fn unchanged_file_scenario_sends_the_delta_that_changes_nothing() {
    let (task, _) = granted(b"a.txt");
    let (task, _) =
        advance(&policy(), task, SyncEvent::SignatureReply { status: 200, body: vec![1, 2, 3, 4] });
    let delta = vec![0x72, 0x73, 0x02, 0x36, 0x45, 0, 5, 0];
    let (task, action) = advance(&policy(), task, SyncEvent::DeltaComputed { delta: delta.clone() });
    assert_eq!(
        action,
        SyncAction::Send {
            request: Request {
                operation: Operation::ApplyPatch,
                method: Method::Post,
                target: b"/patch-file?file_path=a.txt".to_vec(),
                body: delta.clone(),
            },
            delay_ms: 0,
        }
    );
    assert_eq!(task.state, SyncState::Uploading { upload: Upload::Patch, body: delta, failures: 0 });
}

#[test]
fn a_delta_is_sent_however_short_it_is() {
    let (task, _) = granted(b"a.txt");
    let (task, _) =
        advance(&policy(), task, SyncEvent::SignatureReply { status: 200, body: vec![1, 2, 3, 4] });
    for delta in [
        Vec::new(),
        vec![0x72, 0x73, 0x02, 0x36, 0],
        vec![0x72, 0x73, 0x02, 0x36, 1, b'x', 0],
        vec![7; 32],
        vec![7; 33],
        vec![7; 100_000],
    ] {
        let (next, action) =
            advance(&policy(), task.clone(), SyncEvent::DeltaComputed { delta: delta.clone() });
        match action {
            SyncAction::Send { request, delay_ms } => {
                assert_eq!(request.operation, Operation::ApplyPatch);
                assert_eq!(request.body, delta);
                assert_eq!(delay_ms, 0);
            }
            other => panic!("unexpected action {:?}", other),
        }
        assert_eq!(next.state, SyncState::Uploading { upload: Upload::Patch, body: delta, failures: 0 });
    }
}

#[test]
fn an_unreadable_local_file_drops_the_change() {
    let (task, _) = granted(b"gone.txt");
    let (task, _) = advance(&policy(), task, SyncEvent::SignatureReply { status: 404, body: Vec::new() });
    let (task, action) = advance(&policy(), task, SyncEvent::LocalUnreadable);
    assert_eq!(action, SyncAction::ReleaseSlot { outcome: SyncOutcome::LocalFileUnreadable });
    assert_eq!(task.state, SyncState::Finished { outcome: SyncOutcome::LocalFileUnreadable });

    let (task, _) = granted(b"gone.txt");
    let (task, _) = advance(&policy(), task, SyncEvent::SignatureReply { status: 200, body: vec![9] });
    let (task, action) = advance(&policy(), task, SyncEvent::LocalUnreadable);
    assert_eq!(action, SyncAction::ReleaseSlot { outcome: SyncOutcome::LocalFileUnreadable });
    assert!(is_finished(&task));
}

#[test]
fn a_delta_that_cannot_be_computed_ends_the_task() {
    let (task, _) = granted(b"a.txt");
    let (task, _) = advance(&policy(), task, SyncEvent::SignatureReply { status: 200, body: vec![9] });
    let (task, action) = advance(&policy(), task, SyncEvent::DeltaFailed);
    assert_eq!(action, SyncAction::ReleaseSlot { outcome: SyncOutcome::DeltaFailed });
    assert_eq!(task.state, SyncState::Finished { outcome: SyncOutcome::DeltaFailed });
}

#[test]
fn the_reply_event_follows_the_operation() {
    assert_eq!(
        reply_event(Operation::GetSignature, 200, vec![1, 2]),
        SyncEvent::SignatureReply { status: 200, body: vec![1, 2] }
    );
    assert_eq!(
        reply_event(Operation::GetSignature, 404, Vec::new()),
        SyncEvent::SignatureReply { status: 404, body: Vec::new() }
    );
    assert_eq!(
        reply_event(Operation::ApplyPatch, 200, b"Ok".to_vec()),
        SyncEvent::UploadReply { status: 200 }
    );
    assert_eq!(
        reply_event(Operation::IngestNewFile, 500, Vec::new()),
        SyncEvent::UploadReply { status: 500 }
    );
}

#[test]
fn the_report_on_a_delta_follows_the_outcome() {
    assert_eq!(delta_reported(None), SyncEvent::DeltaFailed);
    assert_eq!(delta_reported(Some(vec![1, 2])), SyncEvent::DeltaComputed { delta: vec![1, 2] });
}

#[test]
fn an_unexpected_status_skips_the_file() {
    let (task, _) = granted(b"a.txt");
    let (task, action) =
        advance(&policy(), task, SyncEvent::SignatureReply { status: 500, body: b"oops".to_vec() });
    assert_eq!(action, SyncAction::ReleaseSlot { outcome: SyncOutcome::UnexpectedStatus });
    assert!(is_finished(&task));

    let (task, _) = granted(b"a.txt");
    let (task, _) = advance(&policy(), task, SyncEvent::SignatureReply { status: 404, body: Vec::new() });
    let (task, _) = advance(&policy(), task, SyncEvent::LocalContent { bytes: vec![1, 2] });
    let (task, action) = advance(&policy(), task, SyncEvent::UploadReply { status: 400 });
    assert_eq!(action, SyncAction::ReleaseSlot { outcome: SyncOutcome::UnexpectedStatus });
    assert_eq!(task.state, SyncState::Finished { outcome: SyncOutcome::UnexpectedStatus });
}

#[test]
fn a_failed_signature_request_is_repeated_with_backoff() {
    let (task, _) = granted(b"a.txt");
    let (task, action) = advance(&policy(), task, SyncEvent::NetworkFailure);
    assert_eq!(action, SyncAction::Send { request: signature_request(b"a.txt"), delay_ms: 100 });
    assert_eq!(task.state, SyncState::AwaitingSignature { failures: 1 });
    let (task, action) = advance(&policy(), task, SyncEvent::NetworkFailure);
    assert_eq!(action, SyncAction::Send { request: signature_request(b"a.txt"), delay_ms: 200 });
    assert_eq!(task.state, SyncState::AwaitingSignature { failures: 2 });
    let (task, action) = advance(&policy(), task, SyncEvent::NetworkFailure);
    assert_eq!(action, SyncAction::ReleaseSlot { outcome: SyncOutcome::NetworkGaveUp });
    assert_eq!(task.state, SyncState::Finished { outcome: SyncOutcome::NetworkGaveUp });
}

#[test]
fn a_failed_upload_is_repeated_with_the_same_body() {
    let (task, _) = granted(b"a.txt");
    let (task, _) = advance(&policy(), task, SyncEvent::SignatureReply { status: 404, body: Vec::new() });
    let (task, first) = advance(&policy(), task, SyncEvent::LocalContent { bytes: b"hello".to_vec() });
    let (task, second) = advance(&policy(), task, SyncEvent::NetworkFailure);
    let expected = Request {
        operation: Operation::IngestNewFile,
        method: Method::Post,
        target: b"/new-file?file_path=a.txt".to_vec(),
        body: b"hello".to_vec(),
    };
    assert_eq!(first, SyncAction::Send { request: expected.clone(), delay_ms: 0 });
    assert_eq!(second, SyncAction::Send { request: expected, delay_ms: 100 });
    assert_eq!(
        task.state,
        SyncState::Uploading { upload: Upload::NewFile, body: b"hello".to_vec(), failures: 1 }
    );
    let (task, action) = advance(&policy(), task, SyncEvent::UploadReply { status: 200 });
    assert_eq!(action, SyncAction::ReleaseSlot { outcome: SyncOutcome::Ingested });
    assert!(is_finished(&task));
}

#[test]
fn a_policy_without_attempts_still_sends_once() {
    let strict = SyncPolicy { max_attempts: 0, base_delay_ms: 100, max_delay_ms: 1000 };
    let (task, first) = begin(b"a.txt".to_vec());
    assert_eq!(first, SyncAction::AcquireSlot);
    let (task, action) = advance(&strict, task, SyncEvent::SlotGranted);
    assert!(matches!(action, SyncAction::Send { .. }));
    let (task, action) = advance(&strict, task, SyncEvent::NetworkFailure);
    assert_eq!(action, SyncAction::ReleaseSlot { outcome: SyncOutcome::NetworkGaveUp });
    assert!(is_finished(&task));
}

#[test]
fn events_that_answer_nothing_are_ignored() {
    let (waiting, _) = begin(b"a.txt".to_vec());
    let (task, action) = advance(&policy(), waiting.clone(), SyncEvent::UploadReply { status: 200 });
    assert_eq!(action, SyncAction::Nothing);
    assert_eq!(task, waiting);

    let (awaiting, _) = granted(b"a.txt");
    for event in [
        SyncEvent::SlotGranted,
        SyncEvent::LocalContent { bytes: vec![1] },
        SyncEvent::LocalUnreadable,
        SyncEvent::DeltaComputed { delta: vec![1] },
        SyncEvent::DeltaFailed,
        SyncEvent::UploadReply { status: 200 },
    ] {
        let (task, action) = advance(&policy(), awaiting.clone(), event);
        assert_eq!(action, SyncAction::Nothing);
        assert_eq!(task, awaiting);
    }
}

#[test]
fn a_finished_task_stays_finished() {
    let (task, _) = granted(b"a.txt");
    let (done, _) = advance(&policy(), task, SyncEvent::SignatureReply { status: 500, body: Vec::new() });
    assert!(is_finished(&done));
    for event in [
        SyncEvent::SlotGranted,
        SyncEvent::SignatureReply { status: 200, body: vec![1] },
        SyncEvent::LocalContent { bytes: vec![1] },
        SyncEvent::LocalUnreadable,
        SyncEvent::DeltaComputed { delta: vec![1] },
        SyncEvent::DeltaFailed,
        SyncEvent::UploadReply { status: 200 },
        SyncEvent::NetworkFailure,
    ] {
        let (task, action) = advance(&policy(), done.clone(), event);
        assert_eq!(action, SyncAction::Nothing);
        assert_eq!(task, done);
    }
}

#[test]
fn a_run_never_uploads_both_ways_and_releases_once() {
    let events = vec![
        SyncEvent::SlotGranted,
        SyncEvent::NetworkFailure,
        SyncEvent::SignatureReply { status: 200, body: vec![1, 2, 3] },
        SyncEvent::LocalContent { bytes: vec![9] },
        SyncEvent::DeltaComputed { delta: vec![4, 5, 6] },
        SyncEvent::NetworkFailure,
        SyncEvent::SignatureReply { status: 404, body: Vec::new() },
        SyncEvent::UploadReply { status: 200 },
        SyncEvent::LocalContent { bytes: vec![9] },
        SyncEvent::UploadReply { status: 200 },
    ];
    let (mut task, first) = begin(b"a.txt".to_vec());
    let mut actions = vec![first];
    for event in events {
        let (next, action) = advance(&policy(), task, event);
        task = next;
        actions.push(action);
    }
    let sends = |op: Operation| {
        actions
            .iter()
            .filter(|a| matches!(a, SyncAction::Send { request, .. } if request.operation == op))
            .count()
    };
    assert_eq!(sends(Operation::GetSignature), 2);
    assert_eq!(sends(Operation::ApplyPatch), 2);
    assert_eq!(sends(Operation::IngestNewFile), 0);
    assert_eq!(actions.iter().filter(|a| matches!(a, SyncAction::ReleaseSlot { .. })).count(), 1);
    assert_eq!(actions.iter().filter(|a| matches!(a, SyncAction::AcquireSlot)).count(), 1);
    assert_eq!(task.state, SyncState::Finished { outcome: SyncOutcome::Patched });
}

#[test]
fn backoff_doubles_up_to_the_cap() {
    let p = policy();
    assert_eq!(backoff_delay(&p, 0), 0);
    assert_eq!(backoff_delay(&p, 1), 100);
    assert_eq!(backoff_delay(&p, 2), 200);
    assert_eq!(backoff_delay(&p, 3), 400);
    assert_eq!(backoff_delay(&p, 4), 800);
    assert_eq!(backoff_delay(&p, 5), 1000);
    assert_eq!(backoff_delay(&p, 6), 1000);
    assert_eq!(backoff_delay(&p, u32::MAX), 1000);
}

#[test]
fn backoff_handles_the_edges() {
    let none = SyncPolicy { max_attempts: 5, base_delay_ms: 0, max_delay_ms: 1000 };
    assert_eq!(backoff_delay(&none, 1), 0);
    assert_eq!(backoff_delay(&none, u32::MAX), 0);
    let capped = SyncPolicy { max_attempts: 5, base_delay_ms: 5000, max_delay_ms: 1000 };
    assert_eq!(backoff_delay(&capped, 1), 1000);
    assert_eq!(backoff_delay(&capped, 2), 1000);
    let huge =
        SyncPolicy { max_attempts: 5, base_delay_ms: 1, max_delay_ms: u64::MAX };
    assert_eq!(backoff_delay(&huge, 64), 1u64 << 63);
    assert_eq!(backoff_delay(&huge, 65), u64::MAX);
    assert_eq!(backoff_delay(&huge, 1000), u64::MAX);
}

#[test]
fn retries_stop_at_the_allowed_attempts() {
    let p = policy();
    assert!(retry_allowed(&p, 0));
    assert!(retry_allowed(&p, 1));
    assert!(!retry_allowed(&p, 2));
    assert!(!retry_allowed(&p, u32::MAX));
    let once = SyncPolicy { max_attempts: 1, base_delay_ms: 1, max_delay_ms: 1 };
    assert!(!retry_allowed(&once, 0));
    let never = SyncPolicy { max_attempts: 0, base_delay_ms: 1, max_delay_ms: 1 };
    assert!(!retry_allowed(&never, 0));
}
