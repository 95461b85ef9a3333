//! The synchronisation of one changed file, as a state machine.
//!
//! A task never reads a file, sends a request or waits. It hands out the next
//! action; whoever drives it performs the action and feeds the outcome back
//! as an event. Under a task that runs to its end the slot it was granted is
//! given back exactly once, whatever failed on the way.
//!
//! The delta is the one thing that a task's driver need not make itself:
//! `delta_event` has the diff engine compute it from the signature and the
//! local content.

use vstd::prelude::*;
use vstd::slice::slice_to_vec;
use crate::engine::delta_outcome;
use crate::path::{escapes_root, normalize, view_of};
use crate::protocol::{
    build_request, request_for, Operation, Request, RequestView, STATUS_NOT_FOUND, STATUS_OK,
};

verus! {

/// How a task treats requests that fail.
#[derive(Clone, Copy, Debug, PartialEq, Eq)]
pub struct SyncPolicy {
    /// How often one request may be sent in all. Zero counts as one.
    pub max_attempts: u32,
    /// The pause before the first repetition, in milliseconds.
    pub base_delay_ms: u64,
    /// The longest pause before a repetition, in milliseconds.
    pub max_delay_ms: u64,
}

/// What is being uploaded.
#[derive(Clone, Copy, Debug, PartialEq, Eq, Structural)]
pub enum Upload {
    /// The whole local file.
    NewFile,
    /// A delta against the stored file.
    Patch,
}

/// How a task ended.
#[derive(Clone, Copy, Debug, PartialEq, Eq, Structural)]
pub enum SyncOutcome {
    /// The path leads out of the watched root; nothing was asked of the
    /// store and nothing was sent.
    PathEscapesRoot,
    /// The store took the whole file.
    Ingested,
    /// The store took the delta.
    Patched,
    /// The local file could not be read; the change is dropped.
    LocalFileUnreadable,
    /// The engine could not compute a delta against what the store sent as
    /// the signature.
    DeltaFailed,
    /// A request failed as often as the policy allows.
    NetworkGaveUp,
    /// The store answered with a status that the protocol does not know.
    UnexpectedStatus,
}

/// Where a task stands.
#[derive(Clone, Debug, PartialEq, Eq)]
pub enum SyncState {
    /// No slot has been granted yet.
    WaitingForSlot,
    /// The signature was asked for; `failures` requests have failed.
    AwaitingSignature { failures: u32 },
    /// The store has no such file; the local file is being read.
    ReadingLocal,
    /// The store sent a signature; the delta is being computed.
    ComputingDelta,
    /// `body` is on its way to the store; `failures` requests have failed.
    Uploading { upload: Upload, body: Vec<u8>, failures: u32 },
    /// The task is over and its slot given back.
    Finished { outcome: SyncOutcome },
}

/// What happened to the last action.
#[derive(Clone, Debug, PartialEq, Eq)]
pub enum SyncEvent {
    /// The limiter granted a slot.
    SlotGranted,
    /// The store answered the signature request.
    SignatureReply { status: u16, body: Vec<u8> },
    /// The local file was read.
    LocalContent { bytes: Vec<u8> },
    /// The local file could not be read.
    LocalUnreadable,
    /// The diff engine produced a delta.
    DeltaComputed { delta: Vec<u8> },
    /// The diff engine could not produce a delta.
    DeltaFailed,
    /// The store answered the upload.
    UploadReply { status: u16 },
    /// The request got no answer.
    NetworkFailure,
}

/// What the driver is to do next.
#[derive(Clone, Debug, PartialEq, Eq)]
pub enum SyncAction {
    /// Wait for a slot, then report `SlotGranted`.
    AcquireSlot,
    /// Wait `delay_ms`, send `request`, then report the reply or the failure.
    Send { request: Request, delay_ms: u64 },
    /// Read the local file whole.
    ReadLocal,
    /// Have the delta of the local file against `signature` computed, as
    /// `delta_event` does, and report what it returns.
    ComputeDelta { signature: Vec<u8> },
    /// Give the slot back; the task is over.
    ReleaseSlot { outcome: SyncOutcome },
    /// The event was not the answer to anything; carry on waiting.
    Nothing,
}

/// A state as plain values.
pub enum SyncStateView {
    WaitingForSlot,
    AwaitingSignature { failures: u32 },
    ReadingLocal,
    ComputingDelta,
    Uploading { upload: Upload, body: Seq<u8>, failures: u32 },
    Finished { outcome: SyncOutcome },
}

/// An event as plain values.
pub enum SyncEventView {
    SlotGranted,
    SignatureReply { status: u16, body: Seq<u8> },
    LocalContent { bytes: Seq<u8> },
    LocalUnreadable,
    DeltaComputed { delta: Seq<u8> },
    DeltaFailed,
    UploadReply { status: u16 },
    NetworkFailure,
}

/// An action as plain values.
pub enum SyncActionView {
    AcquireSlot,
    Send { request: RequestView, delay_ms: nat },
    ReadLocal,
    ComputeDelta { signature: Seq<u8> },
    ReleaseSlot { outcome: SyncOutcome },
    Nothing,
}

impl View for SyncState {
    type V = SyncStateView;

    open spec fn view(&self) -> SyncStateView {
        match *self {
            SyncState::WaitingForSlot => SyncStateView::WaitingForSlot,
            SyncState::AwaitingSignature { failures } => SyncStateView::AwaitingSignature {
                failures,
            },
            SyncState::ReadingLocal => SyncStateView::ReadingLocal,
            SyncState::ComputingDelta => SyncStateView::ComputingDelta,
            SyncState::Uploading { upload, body, failures } => SyncStateView::Uploading {
                upload,
                body: body@,
                failures,
            },
            SyncState::Finished { outcome } => SyncStateView::Finished { outcome },
        }
    }
}

impl View for SyncEvent {
    type V = SyncEventView;

    open spec fn view(&self) -> SyncEventView {
        match *self {
            SyncEvent::SlotGranted => SyncEventView::SlotGranted,
            SyncEvent::SignatureReply { status, body } => SyncEventView::SignatureReply {
                status,
                body: body@,
            },
            SyncEvent::LocalContent { bytes } => SyncEventView::LocalContent { bytes: bytes@ },
            SyncEvent::LocalUnreadable => SyncEventView::LocalUnreadable,
            SyncEvent::DeltaComputed { delta } => SyncEventView::DeltaComputed { delta: delta@ },
            SyncEvent::DeltaFailed => SyncEventView::DeltaFailed,
            SyncEvent::UploadReply { status } => SyncEventView::UploadReply { status },
            SyncEvent::NetworkFailure => SyncEventView::NetworkFailure,
        }
    }
}

impl View for SyncAction {
    type V = SyncActionView;

    open spec fn view(&self) -> SyncActionView {
        match *self {
            SyncAction::AcquireSlot => SyncActionView::AcquireSlot,
            SyncAction::Send { request, delay_ms } => SyncActionView::Send {
                request: request@,
                delay_ms: delay_ms as nat,
            },
            SyncAction::ReadLocal => SyncActionView::ReadLocal,
            SyncAction::ComputeDelta { signature } => SyncActionView::ComputeDelta {
                signature: signature@,
            },
            SyncAction::ReleaseSlot { outcome } => SyncActionView::ReleaseSlot { outcome },
            SyncAction::Nothing => SyncActionView::Nothing,
        }
    }
}

/// The pause before a request that follows `failures` failed ones: the base
/// delay, doubled with each further failure, never longer than the cap.
pub open spec fn backoff_ms(policy: SyncPolicy, failures: nat) -> nat
    decreases failures,
{
    if failures == 0 {
        0
    } else if failures == 1 {
        if policy.base_delay_ms <= policy.max_delay_ms {
            policy.base_delay_ms as nat
        } else {
            policy.max_delay_ms as nat
        }
    } else {
        let doubled = 2 * backoff_ms(policy, (failures - 1) as nat);
        if doubled <= policy.max_delay_ms {
            doubled
        } else {
            policy.max_delay_ms as nat
        }
    }
}

/// After `failures` failed requests another one may still be sent.
pub open spec fn may_retry(policy: SyncPolicy, failures: u32) -> bool {
    failures + 1 < policy.max_attempts
}

/// The store says that it holds no such file: by its status, or by an empty
/// body under the status of success.
pub open spec fn says_not_stored(status: u16, body: Seq<u8>) -> bool {
    status == STATUS_NOT_FOUND || (status == STATUS_OK && body.len() == 0)
}

/// The operation that carries an upload.
pub open spec fn operation_of(upload: Upload) -> Operation {
    match upload {
        Upload::NewFile => Operation::IngestNewFile,
        Upload::Patch => Operation::ApplyPatch,
    }
}

/// The outcome of an upload that the store accepted.
pub open spec fn success_of(upload: Upload) -> SyncOutcome {
    match upload {
        Upload::NewFile => SyncOutcome::Ingested,
        Upload::Patch => SyncOutcome::Patched,
    }
}

/// The end of a task: the slot goes back with the outcome.
pub open spec fn finish(outcome: SyncOutcome) -> (SyncStateView, SyncActionView) {
    (SyncStateView::Finished { outcome }, SyncActionView::ReleaseSlot { outcome })
}

/// The state and the action that follow `event` in `state`, for the file at
/// `path`.
pub open spec fn step_spec(
    policy: SyncPolicy,
    path: Seq<u8>,
    state: SyncStateView,
    event: SyncEventView,
) -> (SyncStateView, SyncActionView) {
    match state {
        SyncStateView::WaitingForSlot => match event {
            SyncEventView::SlotGranted => {
                if escapes_root(path) {
                    finish(SyncOutcome::PathEscapesRoot)
                } else {
                    (
                        SyncStateView::AwaitingSignature { failures: 0 },
                        SyncActionView::Send {
                            request: request_for(Operation::GetSignature, path, Seq::<u8>::empty()),
                            delay_ms: 0,
                        },
                    )
                }
            },
            _ => (state, SyncActionView::Nothing),
        },
        SyncStateView::AwaitingSignature { failures } => match event {
            SyncEventView::SignatureReply { status, body } => {
                if says_not_stored(status, body) {
                    (SyncStateView::ReadingLocal, SyncActionView::ReadLocal)
                } else if status == STATUS_OK {
                    (
                        SyncStateView::ComputingDelta,
                        SyncActionView::ComputeDelta { signature: body },
                    )
                } else {
                    finish(SyncOutcome::UnexpectedStatus)
                }
            },
            SyncEventView::NetworkFailure => {
                if may_retry(policy, failures) {
                    (
                        SyncStateView::AwaitingSignature { failures: (failures + 1) as u32 },
                        SyncActionView::Send {
                            request: request_for(Operation::GetSignature, path, Seq::<u8>::empty()),
                            delay_ms: backoff_ms(policy, (failures + 1) as nat),
                        },
                    )
                } else {
                    finish(SyncOutcome::NetworkGaveUp)
                }
            },
            _ => (state, SyncActionView::Nothing),
        },
        SyncStateView::ReadingLocal => match event {
            SyncEventView::LocalContent { bytes } => (
                SyncStateView::Uploading { upload: Upload::NewFile, body: bytes, failures: 0 },
                SyncActionView::Send {
                    request: request_for(Operation::IngestNewFile, path, bytes),
                    delay_ms: 0,
                },
            ),
            SyncEventView::LocalUnreadable => finish(SyncOutcome::LocalFileUnreadable),
            _ => (state, SyncActionView::Nothing),
        },
        SyncStateView::ComputingDelta => match event {
            SyncEventView::DeltaComputed { delta } => (
                SyncStateView::Uploading { upload: Upload::Patch, body: delta, failures: 0 },
                SyncActionView::Send {
                    request: request_for(Operation::ApplyPatch, path, delta),
                    delay_ms: 0,
                },
            ),
            SyncEventView::LocalUnreadable => finish(SyncOutcome::LocalFileUnreadable),
            SyncEventView::DeltaFailed => finish(SyncOutcome::DeltaFailed),
            _ => (state, SyncActionView::Nothing),
        },
        SyncStateView::Uploading { upload, body, failures } => match event {
            SyncEventView::UploadReply { status } => {
                if status == STATUS_OK {
                    finish(success_of(upload))
                } else {
                    finish(SyncOutcome::UnexpectedStatus)
                }
            },
            SyncEventView::NetworkFailure => {
                if may_retry(policy, failures) {
                    (
                        SyncStateView::Uploading { upload, body, failures: (failures + 1) as u32 },
                        SyncActionView::Send {
                            request: request_for(operation_of(upload), path, body),
                            delay_ms: backoff_ms(policy, (failures + 1) as nat),
                        },
                    )
                } else {
                    finish(SyncOutcome::NetworkGaveUp)
                }
            },
            _ => (state, SyncActionView::Nothing),
        },
        SyncStateView::Finished { .. } => (state, SyncActionView::Nothing),
    }
}

/// The pause is never longer than the cap.
pub proof fn lemma_backoff_capped(policy: SyncPolicy, failures: nat)
    ensures
        backoff_ms(policy, failures) <= policy.max_delay_ms,
    decreases failures,
{
    if failures > 1 {
        lemma_backoff_capped(policy, (failures - 1) as nat);
    }
}

/// The pause never shrinks from one failure to the next.
pub proof fn lemma_backoff_grows(policy: SyncPolicy, failures: nat)
    requires
        failures >= 1,
    ensures
        backoff_ms(policy, failures) <= backoff_ms(policy, failures + 1),
{
    lemma_backoff_capped(policy, failures);
}

proof fn lemma_backoff_settled(policy: SyncPolicy, at: nat, later: nat)
    requires
        1 <= at <= later,
        backoff_ms(policy, at) == 0 || backoff_ms(policy, at) == policy.max_delay_ms,
    ensures
        backoff_ms(policy, later) == backoff_ms(policy, at),
    decreases later,
{
    if at < later {
        lemma_backoff_settled(policy, at, (later - 1) as nat);
    }
}

/// The pause before a request that follows `failures` failed ones.
pub fn backoff_delay(policy: &SyncPolicy, failures: u32) -> (delay: u64)
    ensures
        delay == backoff_ms(*policy, failures as nat),
{
    if failures == 0 {
        return 0;
    }
    let cap: u64 = policy.max_delay_ms;
    let mut delay: u64 = if policy.base_delay_ms <= cap {
        policy.base_delay_ms
    } else {
        cap
    };
    let mut n: u32 = 1;
    while n < failures
        invariant
            1 <= n <= failures,
            cap == policy.max_delay_ms,
            delay == backoff_ms(*policy, n as nat),
            delay <= cap,
        decreases failures - n,
    {
        if delay == 0 || delay == cap {
            proof {
                lemma_backoff_settled(*policy, n as nat, failures as nat);
            }
            return delay;
        }
        delay = if delay > cap / 2 {
            cap
        } else {
            2 * delay
        };
        n += 1;
    }
    delay
}

/// Whether another request may be sent after `failures` failed ones.
pub fn retry_allowed(policy: &SyncPolicy, failures: u32) -> (allowed: bool)
    ensures
        allowed == may_retry(*policy, failures),
{
    policy.max_attempts > 0 && failures < policy.max_attempts - 1
}

/// What to report when the store has answered the request of `operation`
/// with `status` and `body`: the body counts only in the answer to a request
/// for a signature.
pub fn reply_event(operation: Operation, status: u16, body: Vec<u8>) -> (event: SyncEvent)
    ensures
        event@ == match operation {
            Operation::GetSignature => SyncEventView::SignatureReply { status, body: body@ },
            Operation::ApplyPatch => SyncEventView::UploadReply { status },
            Operation::IngestNewFile => SyncEventView::UploadReply { status },
        },
{
    match operation {
        Operation::GetSignature => SyncEvent::SignatureReply { status, body },
        Operation::ApplyPatch => SyncEvent::UploadReply { status },
        Operation::IngestNewFile => SyncEvent::UploadReply { status },
    }
}

/// What to report on the order to compute a delta against `signature`.
/// `local` is the content of the local file, `None` if it could not be
/// read. The delta is what the engine makes of the two; where the engine
/// fails, as it does on bytes that do not begin like a signature, that is
/// reported instead.
pub fn delta_event(signature: &[u8], local: Option<Vec<u8>>) -> (event: SyncEvent)
    ensures
        event@ == match view_of(local) {
            None => SyncEventView::LocalUnreadable,
            Some(content) => match delta_outcome(signature@, content) {
                None => SyncEventView::DeltaFailed,
                Some(delta) => SyncEventView::DeltaComputed { delta },
            },
        },
{
    match local {
        None => SyncEvent::LocalUnreadable,
        Some(content) => delta_reported(crate::engine::delta(signature, content.as_slice())),
    }
}

/// The report on a delta that the engine was asked for, `None` standing for
/// a failure of the engine.
pub fn delta_reported(outcome: Option<Vec<u8>>) -> (event: SyncEvent)
    ensures
        event@ == match view_of(outcome) {
            None => SyncEventView::DeltaFailed,
            Some(delta) => SyncEventView::DeltaComputed { delta },
        },
{
    match outcome {
        None => SyncEvent::DeltaFailed,
        Some(delta) => SyncEvent::DeltaComputed { delta },
    }
}

/// The synchronisation of the file at one relative path.
#[derive(Clone, Debug, PartialEq, Eq)]
pub struct SyncTask {
    pub path: Vec<u8>,
    pub state: SyncState,
}

/// A fresh task for the file at `path`, and its first action: to ask for a
/// slot.
pub fn begin(path: Vec<u8>) -> (started: (SyncTask, SyncAction))
    ensures
        started.0.path@ == path@,
        started.0.state@ == SyncStateView::WaitingForSlot,
        started.1@ == SyncActionView::AcquireSlot,
{
    (SyncTask { path, state: SyncState::WaitingForSlot }, SyncAction::AcquireSlot)
}

/// Whether the task is over.
pub fn is_finished(task: &SyncTask) -> (finished: bool)
    ensures
        finished == (task.state@ is Finished),
{
    match task.state {
        SyncState::Finished { .. } => true,
        _ => false,
    }
}

fn finished(path: Vec<u8>, outcome: SyncOutcome) -> (next: (SyncTask, SyncAction))
    ensures
        next.0.path@ == path@,
        (next.0.state@, next.1@) == finish(outcome),
{
    (SyncTask { path, state: SyncState::Finished { outcome } }, SyncAction::ReleaseSlot { outcome })
}

fn unmoved(path: Vec<u8>, state: SyncState) -> (next: (SyncTask, SyncAction))
    ensures
        next.0.path@ == path@,
        next.0.state@ == state@,
        next.1@ == SyncActionView::Nothing,
{
    (SyncTask { path, state }, SyncAction::Nothing)
}

/// Takes the task one step further on `event`: the task that results, and
/// what the driver is to do next.
pub fn advance(policy: &SyncPolicy, task: SyncTask, event: SyncEvent) -> (next: (
    SyncTask,
    SyncAction,
))
    ensures
        next.0.path@ == task.path@,
        (next.0.state@, next.1@) == step_spec(*policy, task.path@, task.state@, event@),
{
    let SyncTask { path, state } = task;
    match state {
        SyncState::WaitingForSlot => match event {
            SyncEvent::SlotGranted => {
                if normalize(path.as_slice()).is_none() {
                    finished(path, SyncOutcome::PathEscapesRoot)
                } else {
                    let request = build_request(
                        Operation::GetSignature,
                        path.as_slice(),
                        Vec::new(),
                    );
                    (
                        SyncTask { path, state: SyncState::AwaitingSignature { failures: 0 } },
                        SyncAction::Send { request, delay_ms: 0 },
                    )
                }
            },
            _ => unmoved(path, SyncState::WaitingForSlot),
        },
        SyncState::AwaitingSignature { failures } => match event {
            SyncEvent::SignatureReply { status, body } => {
                if status == STATUS_NOT_FOUND || (status == STATUS_OK && body.len() == 0) {
                    (SyncTask { path, state: SyncState::ReadingLocal }, SyncAction::ReadLocal)
                } else if status == STATUS_OK {
                    (
                        SyncTask { path, state: SyncState::ComputingDelta },
                        SyncAction::ComputeDelta { signature: body },
                    )
                } else {
                    finished(path, SyncOutcome::UnexpectedStatus)
                }
            },
            SyncEvent::NetworkFailure => {
                if retry_allowed(policy, failures) {
                    let request = build_request(
                        Operation::GetSignature,
                        path.as_slice(),
                        Vec::new(),
                    );
                    let delay_ms: u64 = backoff_delay(policy, failures + 1);
                    (
                        SyncTask {
                            path,
                            state: SyncState::AwaitingSignature { failures: failures + 1 },
                        },
                        SyncAction::Send { request, delay_ms },
                    )
                } else {
                    finished(path, SyncOutcome::NetworkGaveUp)
                }
            },
            _ => unmoved(path, SyncState::AwaitingSignature { failures }),
        },
        SyncState::ReadingLocal => match event {
            SyncEvent::LocalContent { bytes } => {
                let body: Vec<u8> = slice_to_vec(bytes.as_slice());
                let request = build_request(Operation::IngestNewFile, path.as_slice(), bytes);
                (
                    SyncTask {
                        path,
                        state: SyncState::Uploading { upload: Upload::NewFile, body, failures: 0 },
                    },
                    SyncAction::Send { request, delay_ms: 0 },
                )
            },
            SyncEvent::LocalUnreadable => finished(path, SyncOutcome::LocalFileUnreadable),
            _ => unmoved(path, SyncState::ReadingLocal),
        },
        SyncState::ComputingDelta => match event {
            SyncEvent::DeltaComputed { delta } => {
                let body: Vec<u8> = slice_to_vec(delta.as_slice());
                let request = build_request(Operation::ApplyPatch, path.as_slice(), delta);
                (
                    SyncTask {
                        path,
                        state: SyncState::Uploading { upload: Upload::Patch, body, failures: 0 },
                    },
                    SyncAction::Send { request, delay_ms: 0 },
                )
            },
            SyncEvent::LocalUnreadable => finished(path, SyncOutcome::LocalFileUnreadable),
            SyncEvent::DeltaFailed => finished(path, SyncOutcome::DeltaFailed),
            _ => unmoved(path, SyncState::ComputingDelta),
        },
        SyncState::Uploading { upload, body, failures } => match event {
            SyncEvent::UploadReply { status } => {
                if status == STATUS_OK {
                    match upload {
                        Upload::NewFile => finished(path, SyncOutcome::Ingested),
                        Upload::Patch => finished(path, SyncOutcome::Patched),
                    }
                } else {
                    finished(path, SyncOutcome::UnexpectedStatus)
                }
            },
            SyncEvent::NetworkFailure => {
                if retry_allowed(policy, failures) {
                    let operation = match upload {
                        Upload::NewFile => Operation::IngestNewFile,
                        Upload::Patch => Operation::ApplyPatch,
                    };
                    let again: Vec<u8> = slice_to_vec(body.as_slice());
                    let request = build_request(operation, path.as_slice(), again);
                    let delay_ms: u64 = backoff_delay(policy, failures + 1);
                    (
                        SyncTask {
                            path,
                            state: SyncState::Uploading { upload, body, failures: failures + 1 },
                        },
                        SyncAction::Send { request, delay_ms },
                    )
                } else {
                    finished(path, SyncOutcome::NetworkGaveUp)
                }
            },
            _ => unmoved(path, SyncState::Uploading { upload, body, failures }),
        },
        SyncState::Finished { outcome } => unmoved(path, SyncState::Finished { outcome }),
    }
}

/// The state that a task has reached after the driver reported `events` in
/// turn, and every action it was handed, the request for a slot first.
pub open spec fn run(policy: SyncPolicy, path: Seq<u8>, events: Seq<SyncEventView>) -> (
    SyncStateView,
    Seq<SyncActionView>,
)
    decreases events.len(),
{
    if events.len() == 0 {
        (SyncStateView::WaitingForSlot, seq![SyncActionView::AcquireSlot])
    } else {
        let (state, actions) = run(policy, path, events.drop_last());
        let (next, action) = step_spec(policy, path, state, events.last());
        (next, actions.push(action))
    }
}

/// How many of `actions` send a request of operation `op`.
pub open spec fn count_sends(actions: Seq<SyncActionView>, op: Operation) -> nat
    decreases actions.len(),
{
    if actions.len() == 0 {
        0
    } else {
        count_sends(actions.drop_last(), op) + if actions.last() matches SyncActionView::Send {
            request,
            ..
        } && request.operation == op {
            1nat
        } else {
            0nat
        }
    }
}

/// How many of `actions` give the slot back.
pub open spec fn count_releases(actions: Seq<SyncActionView>) -> nat
    decreases actions.len(),
{
    if actions.len() == 0 {
        0
    } else {
        count_releases(actions.drop_last()) + if actions.last() is ReleaseSlot {
            1nat
        } else {
            0nat
        }
    }
}

/// How many of `actions` ask for a slot.
pub open spec fn count_acquires(actions: Seq<SyncActionView>) -> nat
    decreases actions.len(),
{
    if actions.len() == 0 {
        0
    } else {
        count_acquires(actions.drop_last()) + if actions.last() is AcquireSlot {
            1nat
        } else {
            0nat
        }
    }
}

/// How often one request is sent at most under `policy`.
pub open spec fn attempts_allowed(policy: SyncPolicy) -> nat {
    if policy.max_attempts == 0 {
        1
    } else {
        policy.max_attempts as nat
    }
}

/// No event of `events` reports a network failure.
pub open spec fn without_failures(events: Seq<SyncEventView>) -> bool {
    forall|i: int| 0 <= i < events.len() ==> !(#[trigger] events[i] is NetworkFailure)
}

spec fn failures_in_bounds(policy: SyncPolicy, failures: u32) -> bool {
    failures + 1 <= attempts_allowed(policy)
}

spec fn consistent(policy: SyncPolicy, state: SyncStateView, actions: Seq<SyncActionView>) -> bool {
    let signatures = count_sends(actions, Operation::GetSignature);
    let ingests = count_sends(actions, Operation::IngestNewFile);
    let patches = count_sends(actions, Operation::ApplyPatch);
    let releases = count_releases(actions);
    let limit = attempts_allowed(policy);
    &&& count_acquires(actions) == 1
    &&& match state {
        SyncStateView::WaitingForSlot => signatures == 0 && ingests == 0 && patches == 0
            && releases == 0,
        SyncStateView::AwaitingSignature { failures } => {
            &&& failures_in_bounds(policy, failures)
            &&& signatures == failures + 1
            &&& ingests == 0
            &&& patches == 0
            &&& releases == 0
        },
        SyncStateView::ReadingLocal => 1 <= signatures <= limit && ingests == 0 && patches == 0
            && releases == 0,
        SyncStateView::ComputingDelta => 1 <= signatures <= limit && ingests == 0 && patches
            == 0 && releases == 0,
        SyncStateView::Uploading { upload, failures, .. } => {
            &&& failures_in_bounds(policy, failures)
            &&& 1 <= signatures <= limit
            &&& count_sends(actions, operation_of(upload)) == failures + 1
            &&& (upload == Upload::NewFile ==> patches == 0)
            &&& (upload == Upload::Patch ==> ingests == 0)
            &&& releases == 0
        },
        SyncStateView::Finished { outcome } => {
            &&& signatures <= limit
            &&& ingests <= limit
            &&& patches <= limit
            &&& (ingests == 0 || patches == 0)
            &&& releases == 1
            &&& (outcome == SyncOutcome::Ingested ==> signatures >= 1 && ingests >= 1)
            &&& (outcome == SyncOutcome::Patched ==> signatures >= 1 && patches >= 1)
        },
    }
}

proof fn lemma_counts_start()
    ensures
        count_acquires(seq![SyncActionView::AcquireSlot]) == 1,
        count_releases(seq![SyncActionView::AcquireSlot]) == 0,
        forall|op: Operation| #[trigger] count_sends(seq![SyncActionView::AcquireSlot], op) == 0,
{
    let first = seq![SyncActionView::AcquireSlot];
    assert(first.drop_last() =~= Seq::<SyncActionView>::empty());
    assert(count_acquires(first.drop_last()) == 0);
    assert(count_releases(first.drop_last()) == 0);
    assert forall|op: Operation| #[trigger] count_sends(first, op) == 0 by {
        assert(count_sends(first.drop_last(), op) == 0);
    }
}

proof fn lemma_counts_push(actions: Seq<SyncActionView>, action: SyncActionView)
    ensures
        count_acquires(actions.push(action)) == count_acquires(actions) + if action
            is AcquireSlot {
            1nat
        } else {
            0nat
        },
        count_releases(actions.push(action)) == count_releases(actions) + if action
            is ReleaseSlot {
            1nat
        } else {
            0nat
        },
        forall|op: Operation| #[trigger]
            count_sends(actions.push(action), op) == count_sends(actions, op)
                + if action matches SyncActionView::Send { request, .. } && request.operation
                == op {
                1nat
            } else {
                0nat
            },
{
    assert(actions.push(action).drop_last() =~= actions);
    assert(actions.push(action).last() == action);
}

proof fn lemma_run_consistent(policy: SyncPolicy, path: Seq<u8>, events: Seq<SyncEventView>)
    ensures
        consistent(policy, run(policy, path, events).0, run(policy, path, events).1),
    decreases events.len(),
{
    if events.len() == 0 {
        lemma_counts_start();
    } else {
        lemma_run_consistent(policy, path, events.drop_last());
        let (state, actions) = run(policy, path, events.drop_last());
        let (next, action) = step_spec(policy, path, state, events.last());
        lemma_counts_push(actions, action);
    }
}

spec fn single_shot(state: SyncStateView, actions: Seq<SyncActionView>) -> bool {
    &&& count_sends(actions, Operation::GetSignature) <= 1
    &&& count_sends(actions, Operation::IngestNewFile) + count_sends(
        actions,
        Operation::ApplyPatch,
    ) <= 1
    &&& match state {
        SyncStateView::WaitingForSlot => count_sends(actions, Operation::GetSignature) == 0
            && count_sends(actions, Operation::IngestNewFile) + count_sends(
            actions,
            Operation::ApplyPatch,
        ) == 0,
        SyncStateView::AwaitingSignature { failures } => failures == 0 && count_sends(
            actions,
            Operation::IngestNewFile,
        ) + count_sends(actions, Operation::ApplyPatch) == 0,
        SyncStateView::ReadingLocal => count_sends(actions, Operation::IngestNewFile)
            + count_sends(actions, Operation::ApplyPatch) == 0,
        SyncStateView::ComputingDelta => count_sends(actions, Operation::IngestNewFile)
            + count_sends(actions, Operation::ApplyPatch) == 0,
        SyncStateView::Uploading { failures, .. } => failures == 0,
        SyncStateView::Finished { .. } => true,
    }
}

proof fn lemma_run_single_shot(policy: SyncPolicy, path: Seq<u8>, events: Seq<SyncEventView>)
    requires
        without_failures(events),
    ensures
        single_shot(run(policy, path, events).0, run(policy, path, events).1),
    decreases events.len(),
{
    if events.len() == 0 {
        lemma_counts_start();
    } else {
        let init = events.drop_last();
        assert forall|i: int| 0 <= i < init.len() implies !(#[trigger] init[i]
            is NetworkFailure) by {
            assert(init[i] == events[i]);
        }
        lemma_run_single_shot(policy, path, init);
        let (state, actions) = run(policy, path, init);
        let (next, action) = step_spec(policy, path, state, events.last());
        assert(!(events[events.len() - 1] is NetworkFailure));
        lemma_counts_push(actions, action);
    }
}

/// Whatever the driver reports, a task never uploads the same change both
/// as a whole file and as a delta.
pub proof fn lemma_one_kind_of_upload(
    policy: SyncPolicy,
    path: Seq<u8>,
    events: Seq<SyncEventView>,
)
    ensures
        count_sends(run(policy, path, events).1, Operation::IngestNewFile) == 0 || count_sends(
            run(policy, path, events).1,
            Operation::ApplyPatch,
        ) == 0,
{
    lemma_run_consistent(policy, path, events);
}

/// Whatever the driver reports, no request is sent more often than the
/// policy allows.
pub proof fn lemma_requests_bounded(policy: SyncPolicy, path: Seq<u8>, events: Seq<SyncEventView>)
    ensures
        count_sends(run(policy, path, events).1, Operation::GetSignature) <= attempts_allowed(
            policy,
        ),
        count_sends(run(policy, path, events).1, Operation::IngestNewFile) <= attempts_allowed(
            policy,
        ),
        count_sends(run(policy, path, events).1, Operation::ApplyPatch) <= attempts_allowed(
            policy,
        ),
{
    lemma_run_consistent(policy, path, events);
}

/// While no request fails, the signature is asked for at most once and at
/// most one upload is sent.
pub proof fn lemma_single_requests_without_failures(
    policy: SyncPolicy,
    path: Seq<u8>,
    events: Seq<SyncEventView>,
)
    requires
        without_failures(events),
    ensures
        count_sends(run(policy, path, events).1, Operation::GetSignature) <= 1,
        count_sends(run(policy, path, events).1, Operation::IngestNewFile) + count_sends(
            run(policy, path, events).1,
            Operation::ApplyPatch,
        ) <= 1,
{
    lemma_run_single_shot(policy, path, events);
}

/// A task asks for a slot once, at its start, and has given it back exactly
/// once when it is over, and not before.
pub proof fn lemma_slot_returned_once(
    policy: SyncPolicy,
    path: Seq<u8>,
    events: Seq<SyncEventView>,
)
    ensures
        count_acquires(run(policy, path, events).1) == 1,
        count_releases(run(policy, path, events).1) == if run(policy, path, events).0
            is Finished {
            1nat
        } else {
            0nat
        },
{
    lemma_run_consistent(policy, path, events);
}

/// How many of `actions` ask the driver to do something.
pub open spec fn count_orders(actions: Seq<SyncActionView>) -> nat
    decreases actions.len(),
{
    if actions.len() == 0 {
        0
    } else {
        count_orders(actions.drop_last()) + if actions.last() is Nothing {
            0nat
        } else {
            1nat
        }
    }
}

spec fn orders_ahead(policy: SyncPolicy, state: SyncStateView) -> int {
    let limit = attempts_allowed(policy) as int;
    match state {
        SyncStateView::WaitingForSlot => 2 * limit + 2,
        SyncStateView::AwaitingSignature { failures } => 2 * limit + 1 - failures,
        SyncStateView::ReadingLocal => limit + 1,
        SyncStateView::ComputingDelta => limit + 1,
        SyncStateView::Uploading { failures, .. } => limit - failures,
        SyncStateView::Finished { .. } => 0,
    }
}

proof fn lemma_run_orders(policy: SyncPolicy, path: Seq<u8>, events: Seq<SyncEventView>)
    ensures
        count_orders(run(policy, path, events).1) + orders_ahead(
            policy,
            run(policy, path, events).0,
        ) <= 2 * attempts_allowed(policy) + 3,
        consistent(policy, run(policy, path, events).0, run(policy, path, events).1),
    decreases events.len(),
{
    lemma_run_consistent(policy, path, events);
    if events.len() == 0 {
        let first = seq![SyncActionView::AcquireSlot];
        assert(first.drop_last() =~= Seq::<SyncActionView>::empty());
        assert(count_orders(first.drop_last()) == 0);
    } else {
        lemma_run_orders(policy, path, events.drop_last());
        let (state, actions) = run(policy, path, events.drop_last());
        let (next, action) = step_spec(policy, path, state, events.last());
        assert(actions.push(action).drop_last() =~= actions);
        assert(actions.push(action).last() == action);
    }
}

/// A task is over after a bounded number of orders, whatever the driver
/// reports: one for the slot, one to read or to compute, one to give the
/// slot back, and each of the two requests as often as the policy allows.
pub proof fn lemma_orders_bounded(policy: SyncPolicy, path: Seq<u8>, events: Seq<SyncEventView>)
    ensures
        count_orders(run(policy, path, events).1) <= 2 * attempts_allowed(policy) + 3,
{
    lemma_run_orders(policy, path, events);
}

/// A report that is ignored leaves the task as it was.
pub proof fn lemma_ignored_reports_change_nothing(
    policy: SyncPolicy,
    path: Seq<u8>,
    state: SyncStateView,
    event: SyncEventView,
)
    ensures
        step_spec(policy, path, state, event).1 is Nothing ==> step_spec(
            policy,
            path,
            state,
            event,
        ).0 == state,
{
}

spec fn nothing_sent(state: SyncStateView, actions: Seq<SyncActionView>) -> bool {
    &&& state is WaitingForSlot || state is Finished
    &&& count_sends(actions, Operation::GetSignature) == 0
    &&& count_sends(actions, Operation::IngestNewFile) == 0
    &&& count_sends(actions, Operation::ApplyPatch) == 0
}

proof fn lemma_run_nothing_sent(policy: SyncPolicy, path: Seq<u8>, events: Seq<SyncEventView>)
    requires
        escapes_root(path),
    ensures
        nothing_sent(run(policy, path, events).0, run(policy, path, events).1),
    decreases events.len(),
{
    if events.len() == 0 {
        lemma_counts_start();
    } else {
        lemma_run_nothing_sent(policy, path, events.drop_last());
        let (state, actions) = run(policy, path, events.drop_last());
        let (next, action) = step_spec(policy, path, state, events.last());
        lemma_counts_push(actions, action);
    }
}

/// A task for a path that leads out of the watched root sends nothing,
/// whatever the driver reports: no request for a signature, no file, no
/// delta. Once its slot is granted it gives the slot back and is over.
pub proof fn lemma_escaping_path_sends_nothing(
    policy: SyncPolicy,
    path: Seq<u8>,
    events: Seq<SyncEventView>,
)
    requires
        escapes_root(path),
    ensures
        count_sends(run(policy, path, events).1, Operation::GetSignature) == 0,
        count_sends(run(policy, path, events).1, Operation::IngestNewFile) == 0,
        count_sends(run(policy, path, events).1, Operation::ApplyPatch) == 0,
        step_spec(policy, path, SyncStateView::WaitingForSlot, SyncEventView::SlotGranted)
            == finish(SyncOutcome::PathEscapesRoot),
{
    lemma_run_nothing_sent(policy, path, events);
}

/// Every delta is sent: whatever the engine computed against the signature
/// goes to the store as a patch, be it long or short. Whether it changes
/// anything is for the store's engine to find out.
pub proof fn lemma_every_delta_is_sent(policy: SyncPolicy, path: Seq<u8>, delta: Seq<u8>)
    ensures
        step_spec(
            policy,
            path,
            SyncStateView::ComputingDelta,
            SyncEventView::DeltaComputed { delta },
        ) == (
            SyncStateView::Uploading { upload: Upload::Patch, body: delta, failures: 0 },
            SyncActionView::Send {
                request: request_for(Operation::ApplyPatch, path, delta),
                delay_ms: 0,
            },
        ),
{
}

/// A task that ended well has asked for the signature and has sent its
/// upload, of one kind only. Where no request failed on the way, it has
/// done each exactly once.
pub proof fn lemma_one_request_then_one_upload(
    policy: SyncPolicy,
    path: Seq<u8>,
    events: Seq<SyncEventView>,
)
    requires
        run(policy, path, events).0 matches SyncStateView::Finished { outcome } && (outcome
            == SyncOutcome::Ingested || outcome == SyncOutcome::Patched),
    ensures
        count_sends(run(policy, path, events).1, Operation::GetSignature) >= 1,
        run(policy, path, events).0 == (SyncStateView::Finished {
            outcome: SyncOutcome::Ingested,
        }) ==> count_sends(run(policy, path, events).1, Operation::IngestNewFile) >= 1
            && count_sends(run(policy, path, events).1, Operation::ApplyPatch) == 0,
        run(policy, path, events).0 == (SyncStateView::Finished {
            outcome: SyncOutcome::Patched,
        }) ==> count_sends(run(policy, path, events).1, Operation::ApplyPatch) >= 1
            && count_sends(run(policy, path, events).1, Operation::IngestNewFile) == 0,
        without_failures(events) ==> count_sends(
            run(policy, path, events).1,
            Operation::GetSignature,
        ) == 1 && count_sends(run(policy, path, events).1, Operation::IngestNewFile) + count_sends(
            run(policy, path, events).1,
            Operation::ApplyPatch,
        ) == 1,
{
    lemma_run_consistent(policy, path, events);
    if without_failures(events) {
        lemma_run_single_shot(policy, path, events);
    }
}

} // verus!
