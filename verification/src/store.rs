//! The remote store: what it keeps under which path, and how it answers the
//! three requests of the protocol.
//!
//! Signatures and patched contents come from the diff engine. Each function
//! that calls the engine has a companion that takes the engine's result as an
//! argument and says exactly what the store makes of it.

use vstd::prelude::*;
use vstd::slice::slice_to_vec;
use vstd::string::StringSliceAdditionalSpecFns;
use crate::engine::{
    delta_outcome, patch_outcome, round_trip_holds, signature_outcome,
};
use crate::guard::{locate, located, GuardError};
use crate::path::{append_bytes, bytes_equal, escapes_root, view_of};
use crate::protocol::{request_for, Operation, STATUS_NOT_FOUND, STATUS_OK};
use crate::sync::{
    finish, step_spec, success_of, SyncActionView, SyncEventView, SyncOutcome, SyncPolicy,
    SyncStateView, Upload,
};

verus! {

/// The status that a store answers with when it turns a path away.
pub const STATUS_REJECTED: u16 = 400;

/// The status that a store answers with when it could not do what was
/// asked.
pub const STATUS_FAILED: u16 = 500;

/// One file of the store: its resolved relative path and its content.
#[derive(Clone, Debug, PartialEq, Eq)]
pub struct StoredFile {
    pub path: Vec<u8>,
    pub content: Vec<u8>,
}

/// What a store answers.
#[derive(Clone, Debug, PartialEq, Eq)]
pub enum StoreReply {
    /// The file was written.
    Done,
    /// The signature of the stored file.
    Signature { bytes: Vec<u8> },
    /// There is no stored file under that path.
    NotFound,
    /// The path was turned away.
    Rejected { error: GuardError },
    /// The store could not do what was asked: it could not read or write
    /// the file, or the engine failed. Nothing was changed.
    Failed,
}

/// An answer as plain values.
pub enum StoreReplyView {
    Done,
    Signature { bytes: Seq<u8> },
    NotFound,
    Rejected { error: GuardError },
    Failed,
}

impl View for StoreReply {
    type V = StoreReplyView;

    open spec fn view(&self) -> StoreReplyView {
        match *self {
            StoreReply::Done => StoreReplyView::Done,
            StoreReply::Signature { bytes } => StoreReplyView::Signature { bytes: bytes@ },
            StoreReply::NotFound => StoreReplyView::NotFound,
            StoreReply::Rejected { error } => StoreReplyView::Rejected { error },
            StoreReply::Failed => StoreReplyView::Failed,
        }
    }
}

/// The status line of an answer.
pub open spec fn status_of(reply: StoreReplyView) -> u16 {
    match reply {
        StoreReplyView::Done => STATUS_OK,
        StoreReplyView::Signature { .. } => STATUS_OK,
        StoreReplyView::NotFound => STATUS_NOT_FOUND,
        StoreReplyView::Rejected { .. } => STATUS_REJECTED,
        StoreReplyView::Failed => STATUS_FAILED,
    }
}

/// The body of an answer.
pub open spec fn body_of(reply: StoreReplyView) -> Seq<u8> {
    match reply {
        StoreReplyView::Done => "Ok".spec_bytes(),
        StoreReplyView::Signature { bytes } => bytes,
        StoreReplyView::NotFound => Seq::<u8>::empty(),
        StoreReplyView::Rejected { .. } => Seq::<u8>::empty(),
        StoreReplyView::Failed => Seq::<u8>::empty(),
    }
}

/// The view of stored content that was read, `None` standing for a file
/// that is not stored.
pub open spec fn stored_view(stored: Option<&[u8]>) -> Option<Seq<u8>> {
    match stored {
        None => None,
        Some(content) => Some(content@),
    }
}

/// The content that a delta applies to: what is stored, or nothing where no
/// file is stored yet.
pub open spec fn base_of(stored: Option<Seq<u8>>) -> Seq<u8> {
    match stored {
        None => Seq::<u8>::empty(),
        Some(content) => content,
    }
}

/// What a store holds under the path that `file_path` resolves to, if the
/// path is admitted and a file is stored there.
pub open spec fn stored_under(contents: Map<Seq<u8>, Seq<u8>>, file_path: Seq<u8>) -> Option<
    Seq<u8>,
> {
    match located(file_path) {
        Err(_) => None,
        Ok(path) => if contents.contains_key(path) {
            Some(contents[path])
        } else {
            None
        },
    }
}

/// The answer to a request for the signature of stored content, `None`
/// standing for a file that is not stored: "not found" for that, else what
/// the engine makes of the content.
pub open spec fn signature_answer(stored: Option<Seq<u8>>) -> StoreReplyView {
    match stored {
        None => StoreReplyView::NotFound,
        Some(content) => signed_answer(signature_outcome(content)),
    }
}

/// What the engine makes of `delta` and of what is stored under `file_path`,
/// a file that is not stored counting as empty.
pub open spec fn patch_of(
    contents: Map<Seq<u8>, Seq<u8>>,
    file_path: Seq<u8>,
    delta: Seq<u8>,
) -> Option<Seq<u8>> {
    patch_outcome(base_of(stored_under(contents, file_path)), delta)
}

/// The answer that carries the signature which the engine computed, `None`
/// standing for a failure of the engine.
pub open spec fn signed_answer(outcome: Option<Seq<u8>>) -> StoreReplyView {
    match outcome {
        None => StoreReplyView::Failed,
        Some(bytes) => StoreReplyView::Signature { bytes },
    }
}

/// The answer to a request to apply a delta under `file_path`, `outcome`
/// being what the engine made of base and delta, `None` if it failed. The
/// path is judged first.
pub open spec fn patch_answer(file_path: Seq<u8>, outcome: Option<Seq<u8>>) -> StoreReplyView {
    match located(file_path) {
        Err(error) => StoreReplyView::Rejected { error },
        Ok(_) => match outcome {
            None => StoreReplyView::Failed,
            Some(_) => StoreReplyView::Done,
        },
    }
}

/// What a store holds after a request to apply a delta under `file_path`:
/// the patched content in place of what was there, or everything as before
/// where the engine failed or the path is turned away.
pub open spec fn after_patch(
    before: Map<Seq<u8>, Seq<u8>>,
    file_path: Seq<u8>,
    outcome: Option<Seq<u8>>,
) -> Map<Seq<u8>, Seq<u8>> {
    match outcome {
        None => before,
        Some(content) => after_write(before, file_path, content),
    }
}

/// What a store holds after a request to write `content` under `file_path`:
/// the content in place of what was there, every other file as before. A
/// path that is turned away changes nothing.
pub open spec fn after_write(
    before: Map<Seq<u8>, Seq<u8>>,
    file_path: Seq<u8>,
    content: Seq<u8>,
) -> Map<Seq<u8>, Seq<u8>> {
    match located(file_path) {
        Err(_) => before,
        Ok(path) => before.insert(path, content),
    }
}

/// The answer to a request to write under `file_path`.
pub open spec fn write_answer(file_path: Seq<u8>) -> StoreReplyView {
    match located(file_path) {
        Err(error) => StoreReplyView::Rejected { error },
        Ok(_) => StoreReplyView::Done,
    }
}

/// The content that was stored last under `path`, if any.
pub open spec fn lookup(files: Seq<StoredFile>, path: Seq<u8>) -> Option<Seq<u8>>
    decreases files.len(),
{
    if files.len() == 0 {
        None
    } else if files.last().path@ == path {
        Some(files.last().content@)
    } else {
        lookup(files.drop_last(), path)
    }
}

/// The files that a store holds, by resolved path.
pub open spec fn contents(files: Seq<StoredFile>) -> Map<Seq<u8>, Seq<u8>> {
    Map::new(|path: Seq<u8>| lookup(files, path) is Some, |path: Seq<u8>| lookup(files, path)->0)
}

/// The status line of `reply`.
pub fn reply_status(reply: &StoreReply) -> (status: u16)
    ensures
        status == status_of(reply@),
{
    match reply {
        StoreReply::Done => STATUS_OK,
        StoreReply::Signature { .. } => STATUS_OK,
        StoreReply::NotFound => STATUS_NOT_FOUND,
        StoreReply::Rejected { .. } => STATUS_REJECTED,
        StoreReply::Failed => STATUS_FAILED,
    }
}

/// The body of `reply`.
pub fn reply_body(reply: StoreReply) -> (body: Vec<u8>)
    ensures
        body@ == body_of(reply@),
{
    match reply {
        StoreReply::Done => {
            let mut body: Vec<u8> = Vec::new();
            append_bytes(&mut body, "Ok".as_bytes());
            assert(body@ =~= "Ok".spec_bytes());
            body
        },
        StoreReply::Signature { bytes } => bytes,
        StoreReply::NotFound => Vec::new(),
        StoreReply::Rejected { .. } => Vec::new(),
        StoreReply::Failed => Vec::new(),
    }
}

/// The answer that carries the signature which the engine computed, `None`
/// standing for a failure of the engine.
pub fn signed_reply(outcome: Option<Vec<u8>>) -> (reply: StoreReply)
    ensures
        reply@ == signed_answer(view_of(outcome)),
{
    match outcome {
        None => StoreReply::Failed,
        Some(bytes) => StoreReply::Signature { bytes },
    }
}

/// GetSignature on content that was read from the store, `None` standing
/// for a file that is not stored: "not found" for that, else the signature
/// that the engine computes of the content, or a failure if the engine
/// fails.
pub fn sign_stored(stored: Option<&[u8]>) -> (reply: StoreReply)
    ensures
        reply@ == signature_answer(stored_view(stored)),
{
    match stored {
        None => StoreReply::NotFound,
        Some(content) => signed_reply(crate::engine::signature(content)),
    }
}

/// ApplyPatch on content that was read from the store, `None` standing for
/// a file that is not stored and counts as empty: what the engine makes of
/// that content and `delta`; `None` if the engine fails.
pub fn patch_stored(stored: Option<&[u8]>, delta: &[u8]) -> (patched: Option<Vec<u8>>)
    ensures
        view_of(patched) == patch_outcome(base_of(stored_view(stored)), delta@),
{
    match stored {
        None => {
            let nothing: Vec<u8> = Vec::new();
            crate::engine::patch(nothing.as_slice(), delta)
        },
        Some(base) => crate::engine::patch(base, delta),
    }
}

/// A content directory held in memory.
#[derive(Debug)]
pub struct ContentStore {
    files: Vec<StoredFile>,
}

impl View for ContentStore {
    type V = Map<Seq<u8>, Seq<u8>>;

    closed spec fn view(&self) -> Map<Seq<u8>, Seq<u8>> {
        contents(self.files@)
    }
}

proof fn lemma_lookup_push(files: Seq<StoredFile>, file: StoredFile, path: Seq<u8>)
    ensures
        lookup(files.push(file), path) == if file.path@ == path {
            Some(file.content@)
        } else {
            lookup(files, path)
        },
{
    assert(files.push(file).drop_last() =~= files);
}

proof fn lemma_lookup_replace(files: Seq<StoredFile>, at: int, file: StoredFile, path: Seq<u8>)
    requires
        0 <= at < files.len(),
        files[at].path@ == file.path@,
        forall|j: int| at < j < files.len() ==> files[j].path@ != file.path@,
    ensures
        lookup(files.update(at, file), path) == if file.path@ == path {
            Some(file.content@)
        } else {
            lookup(files, path)
        },
    decreases files.len(),
{
    let changed = files.update(at, file);
    if at == files.len() - 1 {
        assert(changed.drop_last() =~= files.drop_last());
    } else {
        assert(changed.drop_last() =~= files.drop_last().update(at, file));
        lemma_lookup_replace(files.drop_last(), at, file, path);
    }
}

impl ContentStore {
    /// A store that holds nothing.
    pub fn new() -> (store: ContentStore)
        ensures
            store@ == Map::<Seq<u8>, Seq<u8>>::empty(),
    {
        let store = ContentStore { files: Vec::new() };
        assert(store@ =~= Map::<Seq<u8>, Seq<u8>>::empty());
        store
    }

    /// The place of the file that was stored last under the resolved `path`.
    fn find(&self, path: &[u8]) -> (found: Option<usize>)
        ensures
            match found {
                Some(at) => {
                    &&& at < self.files@.len()
                    &&& self.files@[at as int].path@ == path@
                    &&& forall|j: int| at < j < self.files@.len() ==> self.files@[j].path@ != path@
                    &&& lookup(self.files@, path@) == Some(self.files@[at as int].content@)
                },
                None => lookup(self.files@, path@) is None,
            },
    {
        let mut found: Option<usize> = None;
        let mut i: usize = 0;
        assert(self.files@.take(0) =~= Seq::<StoredFile>::empty());
        while i < self.files.len()
            invariant
                i <= self.files@.len(),
                match found {
                    Some(at) => {
                        &&& at < i
                        &&& self.files@[at as int].path@ == path@
                        &&& forall|j: int| at < j < i ==> self.files@[j].path@ != path@
                        &&& lookup(self.files@.take(i as int), path@) == Some(
                            self.files@[at as int].content@,
                        )
                    },
                    None => lookup(self.files@.take(i as int), path@) is None,
                },
            decreases self.files.len() - i,
        {
            proof {
                let upto = self.files@.take(i + 1);
                assert(upto.drop_last() =~= self.files@.take(i as int));
                assert(upto.last() == self.files@[i as int]);
            }
            if bytes_equal(self.files[i].path.as_slice(), path) {
                found = Some(i);
            }
            i += 1;
        }
        assert(self.files@.take(self.files@.len() as int) =~= self.files@);
        found
    }

    /// Puts `content` under the resolved `path`, in place of what was there.
    fn put(&mut self, path: Vec<u8>, content: Vec<u8>)
        ensures
            final(self)@ == old(self)@.insert(path@, content@),
    {
        let found = self.find(path.as_slice());
        let file = StoredFile { path, content };
        match found {
            Some(at) => {
                proof {
                    assert forall|q: Seq<u8>|
                        lookup(self.files@.update(at as int, file), q) == if file.path@ == q {
                            Some(file.content@)
                        } else {
                            lookup(self.files@, q)
                        } by {
                        lemma_lookup_replace(self.files@, at as int, file, q);
                    }
                }
                self.files.set(at, file);
            },
            None => {
                proof {
                    assert forall|q: Seq<u8>|
                        lookup(self.files@.push(file), q) == if file.path@ == q {
                            Some(file.content@)
                        } else {
                            lookup(self.files@, q)
                        } by {
                        lemma_lookup_push(self.files@, file, q);
                    }
                }
                self.files.push(file);
            },
        }
        assert(final(self)@ =~= old(self)@.insert(file.path@, file.content@));
    }

    /// The content stored under `file_path`: `Ok(None)` where nothing is
    /// stored, an error where the path is turned away.
    pub fn stored(&self, file_path: &[u8]) -> (result: Result<Option<Vec<u8>>, GuardError>)
        ensures
            match located(file_path@) {
                Err(e) => result == Err::<Option<Vec<u8>>, GuardError>(e),
                Ok(_) => result matches Ok(content) && view_of(content) == stored_under(
                    self@,
                    file_path@,
                ),
            },
    {
        match locate(file_path) {
            Err(e) => Err(e),
            Ok(p) => match self.find(p.as_slice()) {
                None => Ok(None),
                Some(at) => Ok(Some(slice_to_vec(self.files[at].content.as_slice()))),
            },
        }
    }

    /// GetSignature: the signature of the file stored under `file_path`, as
    /// the engine computes it. "Not found" where nothing is stored, a
    /// refusal where the path is turned away, a failure where the engine
    /// fails. The store is not changed.
    pub fn request_signature(&self, file_path: &[u8]) -> (reply: StoreReply)
        ensures
            reply@ == match located(file_path@) {
                Err(error) => StoreReplyView::Rejected { error },
                Ok(_) => signature_answer(stored_under(self@, file_path@)),
            },
    {
        match locate(file_path) {
            Err(error) => StoreReply::Rejected { error },
            Ok(path) => match self.find(path.as_slice()) {
                None => sign_stored(None),
                Some(at) => sign_stored(Some(self.files[at].content.as_slice())),
            },
        }
    }

    /// ApplyPatch, given what the engine made of the stored content and the
    /// delta, `None` if it failed: the patched content replaces the stored
    /// content whole. A failure of the engine or a path that is turned away
    /// changes nothing.
    pub fn finish_patch(&mut self, file_path: &[u8], patched: Option<Vec<u8>>) -> (reply:
        StoreReply)
        ensures
            reply@ == patch_answer(file_path@, view_of(patched)),
            final(self)@ == after_patch(old(self)@, file_path@, view_of(patched)),
    {
        match locate(file_path) {
            Err(error) => StoreReply::Rejected { error },
            Ok(path) => match patched {
                None => StoreReply::Failed,
                Some(content) => {
                    self.put(path, content);
                    StoreReply::Done
                },
            },
        }
    }

    /// ApplyPatch: has the engine apply `delta` to the content stored under
    /// `file_path`, or to nothing where no file is stored yet, and stores
    /// the result in place of what was there. Where the engine fails, as it
    /// does on bytes that do not begin like a delta, the store stays as it is
    /// and says so.
    pub fn apply_patch(&mut self, file_path: &[u8], delta: &[u8]) -> (reply: StoreReply)
        ensures
            reply@ == patch_answer(file_path@, patch_of(old(self)@, file_path@, delta@)),
            final(self)@ == after_patch(
                old(self)@,
                file_path@,
                patch_of(old(self)@, file_path@, delta@),
            ),
    {
        match self.stored(file_path) {
            Err(error) => StoreReply::Rejected { error },
            Ok(stored) => {
                let patched = match stored {
                    None => patch_stored(None, delta),
                    Some(content) => patch_stored(Some(content.as_slice()), delta),
                };
                self.finish_patch(file_path, patched)
            },
        }
    }

    /// IngestNewFile: stores `data` verbatim under `file_path`, in place of
    /// what was there. A path that is turned away changes nothing.
    pub fn new_file(&mut self, file_path: &[u8], data: Vec<u8>) -> (reply: StoreReply)
        ensures
            reply@ == write_answer(file_path@),
            final(self)@ == after_write(old(self)@, file_path@, data@),
    {
        match locate(file_path) {
            Err(error) => StoreReply::Rejected { error },
            Ok(path) => {
                self.put(path, data);
                StoreReply::Done
            },
        }
    }
}

/// Storing the same bytes under the same path twice leaves the store as
/// storing them once does.
pub proof fn lemma_ingest_idempotent(
    before: Map<Seq<u8>, Seq<u8>>,
    file_path: Seq<u8>,
    data: Seq<u8>,
)
    ensures
        after_write(after_write(before, file_path, data), file_path, data) == after_write(
            before,
            file_path,
            data,
        ),
{
    assert(after_write(after_write(before, file_path, data), file_path, data) =~= after_write(
        before,
        file_path,
        data,
    ));
}

/// A write under a path that escapes the root is turned away and changes
/// nothing, and a request for a signature under such a path is answered
/// with the same refusal.
pub proof fn lemma_escaping_write_rejected(
    before: Map<Seq<u8>, Seq<u8>>,
    file_path: Seq<u8>,
    content: Seq<u8>,
)
    requires
        escapes_root(file_path),
    ensures
        after_write(before, file_path, content) == before,
        write_answer(file_path) == (StoreReplyView::Rejected {
            error: GuardError::PathEscapesRoot,
        }),
{
    crate::guard::lemma_escaping_paths_rejected(file_path, file_path, file_path);
}

/// What was written under a path is what is stored there afterwards, and a
/// write under one path leaves the files under all others as they were.
pub proof fn lemma_write_then_read(
    before: Map<Seq<u8>, Seq<u8>>,
    file_path: Seq<u8>,
    content: Seq<u8>,
    other: Seq<u8>,
)
    requires
        located(file_path) is Ok,
        other != located(file_path)->Ok_0,
    ensures
        after_write(before, file_path, content).contains_key(located(file_path)->Ok_0),
        after_write(before, file_path, content)[located(file_path)->Ok_0] == content,
        after_write(before, file_path, content).contains_key(other) == before.contains_key(other),
        before.contains_key(other) ==> after_write(before, file_path, content)[other]
            == before[other],
{
}

/// Client and store agree on the protocol. Of the answers to a request for
/// a signature, a task takes "not found" and an empty signature as the order
/// to send the whole file, any other signature as the basis of a delta, and
/// a refusal or a failure as the end of the task. Of the answers to an
/// upload it takes "done" as success and a refusal or a failure as the end
/// of the task.
pub proof fn lemma_answers_understood(
    policy: SyncPolicy,
    path: Seq<u8>,
    failures: u32,
    upload: Upload,
    body: Seq<u8>,
    reply: StoreReplyView,
)
    ensures
        reply is NotFound ==> step_spec(
            policy,
            path,
            SyncStateView::AwaitingSignature { failures },
            SyncEventView::SignatureReply { status: status_of(reply), body: body_of(reply) },
        ) == (SyncStateView::ReadingLocal, SyncActionView::ReadLocal),
        reply matches StoreReplyView::Signature { bytes } ==> step_spec(
            policy,
            path,
            SyncStateView::AwaitingSignature { failures },
            SyncEventView::SignatureReply { status: status_of(reply), body: body_of(reply) },
        ) == if bytes.len() == 0 {
            (SyncStateView::ReadingLocal, SyncActionView::ReadLocal)
        } else {
            (SyncStateView::ComputingDelta, SyncActionView::ComputeDelta { signature: bytes })
        },
        reply is Rejected || reply is Failed ==> step_spec(
            policy,
            path,
            SyncStateView::AwaitingSignature { failures },
            SyncEventView::SignatureReply { status: status_of(reply), body: body_of(reply) },
        ) == finish(SyncOutcome::UnexpectedStatus),
        reply is Done ==> step_spec(
            policy,
            path,
            SyncStateView::Uploading { upload, body, failures },
            SyncEventView::UploadReply { status: status_of(reply) },
        ) == finish(success_of(upload)),
        reply is Rejected || reply is Failed ==> step_spec(
            policy,
            path,
            SyncStateView::Uploading { upload, body, failures },
            SyncEventView::UploadReply { status: status_of(reply) },
        ) == finish(SyncOutcome::UnexpectedStatus),
{
}

/// Where the engine brings the stored content to the local content, an
/// exchange of signature and delta ends with the store holding the local
/// content: the store signs what it holds, the client has the delta of its
/// local content computed against that signature, and the store has the
/// delta applied to what it holds. The same holds of a file that did not
/// change: the store holds afterwards what it held before.
pub proof fn lemma_patch_converges(
    before: Map<Seq<u8>, Seq<u8>>,
    file_path: Seq<u8>,
    local: Seq<u8>,
)
    requires
        stored_under(before, file_path) matches Some(stored) && round_trip_holds(stored, local),
    ensures
        ({
            let stored = stored_under(before, file_path)->0;
            let delta = delta_outcome(signature_outcome(stored)->0, local)->0;
            let made = patch_of(before, file_path, delta);
            &&& signature_answer(stored_under(before, file_path)) == (StoreReplyView::Signature {
                bytes: signature_outcome(stored)->0,
            })
            &&& patch_answer(file_path, made) == StoreReplyView::Done
            &&& stored_under(after_patch(before, file_path, made), file_path) == Some(local)
        }),
{
}

/// A whole exchange, step by step, for a file that the store holds and
/// whose local content the engine can reach from the stored one. The task
/// asks for the signature and gets the one of the stored content. Then it
/// sends the delta of the local content, which the store applies and
/// answers with "done", holding the local content afterwards; or, where the
/// signature came back empty, it sends the local content whole, which the
/// store holds afterwards. Either way the store ends with the local content.
pub proof fn lemma_exchange_converges(
    policy: SyncPolicy,
    before: Map<Seq<u8>, Seq<u8>>,
    path: Seq<u8>,
    local: Seq<u8>,
)
    requires
        stored_under(before, path) matches Some(stored) && round_trip_holds(stored, local),
    ensures
        ({
            let stored = stored_under(before, path)->0;
            let signature = signature_outcome(stored)->0;
            let delta = delta_outcome(signature, local)->0;
            let signed = signature_answer(stored_under(before, path));
            let asked = step_spec(
                policy,
                path,
                SyncStateView::WaitingForSlot,
                SyncEventView::SlotGranted,
            );
            let answered = step_spec(
                policy,
                path,
                asked.0,
                SyncEventView::SignatureReply { status: status_of(signed), body: body_of(signed) },
            );
            let read = step_spec(
                policy,
                path,
                SyncStateView::ReadingLocal,
                SyncEventView::LocalContent { bytes: local },
            );
            let computed = step_spec(
                policy,
                path,
                SyncStateView::ComputingDelta,
                SyncEventView::DeltaComputed { delta },
            );
            &&& asked == (
                SyncStateView::AwaitingSignature { failures: 0 },
                SyncActionView::Send {
                    request: request_for(Operation::GetSignature, path, Seq::<u8>::empty()),
                    delay_ms: 0,
                },
            )
            &&& signed == (StoreReplyView::Signature { bytes: signature })
            &&& if signature.len() == 0 {
                &&& answered == (SyncStateView::ReadingLocal, SyncActionView::ReadLocal)
                &&& read.1 == (SyncActionView::Send {
                    request: request_for(Operation::IngestNewFile, path, local),
                    delay_ms: 0,
                })
                &&& write_answer(path) == StoreReplyView::Done
                &&& stored_under(after_write(before, path, local), path) == Some(local)
            } else {
                &&& answered == (
                    SyncStateView::ComputingDelta,
                    SyncActionView::ComputeDelta { signature },
                )
                &&& computed.1 == (SyncActionView::Send {
                    request: request_for(Operation::ApplyPatch, path, delta),
                    delay_ms: 0,
                })
                &&& patch_answer(path, patch_of(before, path, delta)) == StoreReplyView::Done
                &&& stored_under(
                    after_patch(before, path, patch_of(before, path, delta)),
                    path,
                ) == Some(local)
            }
        }),
{
    crate::path::lemma_normalized_none_iff_escapes(path);
}

/// A file that did not change stays as it is: where the local content is
/// the stored content and the engine can reach it from itself, the delta
/// that is sent leaves the store holding that content, and so would the
/// content sent whole.
pub proof fn lemma_unchanged_file_stays(
    before: Map<Seq<u8>, Seq<u8>>,
    path: Seq<u8>,
    content: Seq<u8>,
)
    requires
        stored_under(before, path) == Some(content),
        round_trip_holds(content, content),
    ensures
        ({
            let delta = delta_outcome(signature_outcome(content)->0, content)->0;
            &&& stored_under(after_patch(before, path, patch_of(before, path, delta)), path)
                == Some(content)
            &&& stored_under(after_write(before, path, content), path) == Some(content)
        }),
{
}

/// The answer to a request for a signature depends on nothing but what is
/// stored under the path: asked twice, the store answers alike, and a write
/// under another path does not change the answer.
pub proof fn lemma_signature_answer_stable(
    before: Map<Seq<u8>, Seq<u8>>,
    file_path: Seq<u8>,
    other: Seq<u8>,
    content: Seq<u8>,
)
    requires
        located(file_path) is Ok,
        located(other) != located(file_path),
    ensures
        signature_answer(stored_under(after_write(before, other, content), file_path))
            == signature_answer(stored_under(before, file_path)),
{
}

/// A delta that the engine cannot apply, and a delta under a path that is
/// turned away, leave the store as it is.
pub proof fn lemma_failed_patch_changes_nothing(
    before: Map<Seq<u8>, Seq<u8>>,
    file_path: Seq<u8>,
    outcome: Option<Seq<u8>>,
)
    requires
        outcome is None || located(file_path) is Err,
    ensures
        after_patch(before, file_path, outcome) == before,
        !(patch_answer(file_path, outcome) is Done),
{
}

} // verus!
