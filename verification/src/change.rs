//! The change source: which files of a watched directory need to be
//! synchronised.
//!
//! Two streams feed it. The first is one walk over the whole directory at
//! start. The second is the notifications of the file system afterwards, of
//! which only writes count, and of which a burst on one file counts once.

use vstd::prelude::*;
use vstd::slice::slice_to_vec;
use crate::path::{
    bytes_equal, escapes_root, path_steps_up, relative_to, relativize, steps_up,
};

verus! {

/// A file that needs to be synchronised, by its path relative to the watched
/// root.
#[derive(Clone, Debug, PartialEq, Eq)]
pub struct ChangeEvent {
    pub path: Vec<u8>,
}

/// One entry that a walk over the watched directory came across.
#[derive(Clone, Debug, PartialEq, Eq)]
pub struct WalkEntry {
    /// The path as the walk reports it, the watched root in front.
    pub path: Vec<u8>,
    /// Whether the entry is a regular file.
    pub is_file: bool,
}

/// What a notification of the file system reports.
#[derive(Clone, Copy, Debug, PartialEq, Eq, Structural)]
pub enum NotifyKind {
    /// An entry was created.
    Created,
    /// The content of a file was written.
    ContentWritten,
    /// Only metadata changed.
    MetadataChanged,
    /// An entry was removed.
    Removed,
    /// Anything else.
    Other,
}

/// The paths of a vector of events.
pub open spec fn event_paths(events: Seq<ChangeEvent>) -> Seq<Seq<u8>> {
    Seq::new(events.len(), |i: int| events[i].path@)
}

/// The relative path under which an entry is reported: that of a regular
/// file below the root. Directories, the root itself and entries that do not
/// lie under the root are not reported, nor is an entry whose path below the
/// root holds a `..`: where that leads is not for the path to say.
pub open spec fn reported_path(root: Seq<u8>, path: Seq<u8>, is_file: bool) -> Option<Seq<u8>> {
    if !is_file {
        None
    } else {
        match relative_to(root, path) {
            None => None,
            Some(rest) => if rest.len() == 0 || steps_up(rest) {
                None
            } else {
                Some(rest)
            },
        }
    }
}

/// The paths reported for the entries of a walk: one for each regular file
/// below the root, in the order of the walk.
pub open spec fn initial_paths(root: Seq<u8>, entries: Seq<WalkEntry>) -> Seq<Seq<u8>>
    decreases entries.len(),
{
    if entries.len() == 0 {
        Seq::<Seq<u8>>::empty()
    } else {
        let before = initial_paths(root, entries.drop_last());
        match reported_path(root, entries.last().path@, entries.last().is_file) {
            None => before,
            Some(rest) => before.push(rest),
        }
    }
}

/// Only a write to a file's content asks for a synchronisation.
pub open spec fn asks_for_sync(kind: NotifyKind) -> bool {
    kind == NotifyKind::ContentWritten
}

/// The event for one entry of a walk, if it is a regular file below the
/// root.
pub fn file_event(root: &[u8], path: &[u8], is_file: bool) -> (event: Option<ChangeEvent>)
    ensures
        match event {
            Some(e) => reported_path(root@, path@, is_file) == Some(e.path@),
            None => reported_path(root@, path@, is_file) is None,
        },
{
    if !is_file {
        return None;
    }
    match relativize(root, path) {
        None => None,
        Some(rest) => {
            if rest.len() == 0 || path_steps_up(rest.as_slice()) {
                None
            } else {
                Some(ChangeEvent { path: rest })
            }
        },
    }
}

/// The events of the first walk over the watched directory: one for each
/// regular file among `entries`, relative to `root`.
pub fn each_file(root: &[u8], entries: &Vec<WalkEntry>) -> (events: Vec<ChangeEvent>)
    ensures
        event_paths(events@) == initial_paths(root@, entries@),
{
    let mut events: Vec<ChangeEvent> = Vec::new();
    let mut i: usize = 0;
    assert(entries@.take(0) =~= Seq::<WalkEntry>::empty());
    assert(event_paths(events@) =~= Seq::<Seq<u8>>::empty());
    while i < entries.len()
        invariant
            i <= entries@.len(),
            event_paths(events@) == initial_paths(root@, entries@.take(i as int)),
        decreases entries.len() - i,
    {
        let ghost before = events@;
        proof {
            let upto = entries@.take(i + 1);
            assert(upto.drop_last() =~= entries@.take(i as int));
            assert(upto.last() == entries@[i as int]);
        }
        match file_event(root, entries[i].path.as_slice(), entries[i].is_file) {
            None => {},
            Some(event) => {
                events.push(event);
                assert(event_paths(events@) =~= event_paths(before).push(event.path@));
            },
        }
        i += 1;
    }
    assert(entries@.take(entries@.len() as int) =~= entries@);
    events
}

/// Whether a notification of this kind asks for a synchronisation.
pub fn kind_asks_for_sync(kind: NotifyKind) -> (asks: bool)
    ensures
        asks == asks_for_sync(kind),
{
    match kind {
        NotifyKind::ContentWritten => true,
        _ => false,
    }
}

/// The relative path that a notification asks to synchronise, if it asks
/// for anything: that of a write to a regular file below the root.
pub open spec fn notified_path(root: Seq<u8>, kind: NotifyKind, path: Seq<u8>) -> Option<
    Seq<u8>,
> {
    if asks_for_sync(kind) {
        reported_path(root, path, true)
    } else {
        None
    }
}

/// A write noted at `at_ms` has been left alone for the whole window at
/// `now_ms`.
pub open spec fn is_due(window_ms: u64, at_ms: u64, now_ms: u64) -> bool {
    at_ms + window_ms <= now_ms
}

/// The moment from which a write noted at `at_ms` is due; the end of the
/// clock where the window reaches beyond it.
pub open spec fn deadline_of(window_ms: u64, at_ms: u64) -> u64 {
    if at_ms + window_ms <= u64::MAX {
        (at_ms + window_ms) as u64
    } else {
        u64::MAX
    }
}

/// The writes of `waiting` that are not due yet at `now_ms`.
pub open spec fn still_waiting(waiting: Map<Seq<u8>, u64>, window_ms: u64, now_ms: u64) -> Map<
    Seq<u8>,
    u64,
> {
    Map::new(
        |path: Seq<u8>| waiting.contains_key(path) && !is_due(window_ms, waiting[path], now_ms),
        |path: Seq<u8>| waiting[path],
    )
}

/// A write that waits for its file to come to rest.
#[derive(Debug)]
struct PendingWrite {
    path: Vec<u8>,
    at_ms: u64,
}

spec fn stamp(pending: Seq<PendingWrite>, path: Seq<u8>) -> Option<u64>
    decreases pending.len(),
{
    if pending.len() == 0 {
        None
    } else if pending.last().path@ == path {
        Some(pending.last().at_ms)
    } else {
        stamp(pending.drop_last(), path)
    }
}

spec fn distinct_paths(pending: Seq<PendingWrite>) -> bool {
    forall|i: int, j: int|
        0 <= i < j < pending.len() ==> (#[trigger] pending[i]).path@ != (#[trigger] pending[j]).path@
}

proof fn lemma_stamp_found(pending: Seq<PendingWrite>, path: Seq<u8>)
    ensures
        stamp(pending, path) matches Some(at) ==> exists|i: int|
            0 <= i < pending.len() && (#[trigger] pending[i]).path@ == path && pending[i].at_ms
                == at,
        stamp(pending, path) is None ==> forall|i: int|
            0 <= i < pending.len() ==> (#[trigger] pending[i]).path@ != path,
    decreases pending.len(),
{
    if pending.len() > 0 {
        if pending.last().path@ == path {
            assert(pending[pending.len() - 1].path@ == path);
        } else {
            lemma_stamp_found(pending.drop_last(), path);
            if stamp(pending, path) is Some {
                let i = choose|i: int|
                    0 <= i < pending.drop_last().len() && (#[trigger] pending.drop_last()[i]).path@
                        == path && pending.drop_last()[i].at_ms == stamp(pending, path)->0;
                assert(pending[i] == pending.drop_last()[i]);
            } else {
                assert forall|i: int| 0 <= i < pending.len() implies (#[trigger] pending[i]).path@
                    != path by {
                    if i < pending.len() - 1 {
                        assert(pending[i] == pending.drop_last()[i]);
                    }
                }
            }
        }
    }
}

proof fn lemma_stamp_at(pending: Seq<PendingWrite>, at: int)
    requires
        distinct_paths(pending),
        0 <= at < pending.len(),
    ensures
        stamp(pending, pending[at].path@) == Some(pending[at].at_ms),
    decreases pending.len(),
{
    if at < pending.len() - 1 {
        let init = pending.drop_last();
        assert(pending[at].path@ != pending[pending.len() - 1].path@);
        assert forall|i: int, j: int| 0 <= i < j < init.len() implies (#[trigger] init[i]).path@
            != (#[trigger] init[j]).path@ by {
            assert(init[i] == pending[i] && init[j] == pending[j]);
        }
        assert(init[at] == pending[at]);
        lemma_stamp_at(init, at);
    }
}

proof fn lemma_stamp_push(pending: Seq<PendingWrite>, write: PendingWrite, path: Seq<u8>)
    ensures
        stamp(pending.push(write), path) == if write.path@ == path {
            Some(write.at_ms)
        } else {
            stamp(pending, path)
        },
{
    assert(pending.push(write).drop_last() =~= pending);
}

proof fn lemma_stamp_replace(
    pending: Seq<PendingWrite>,
    at: int,
    write: PendingWrite,
    path: Seq<u8>,
)
    requires
        distinct_paths(pending),
        0 <= at < pending.len(),
        pending[at].path@ == write.path@,
    ensures
        distinct_paths(pending.update(at, write)),
        stamp(pending.update(at, write), path) == if write.path@ == path {
            Some(write.at_ms)
        } else {
            stamp(pending, path)
        },
{
    let changed = pending.update(at, write);
    assert forall|i: int, j: int| 0 <= i < j < changed.len() implies (#[trigger] changed[i]).path@
        != (#[trigger] changed[j]).path@ by {
        assert(changed[i].path@ == pending[i].path@);
        assert(changed[j].path@ == pending[j].path@);
    }
    if write.path@ == path {
        lemma_stamp_at(changed, at);
    } else {
        lemma_stamp_found(pending, path);
        lemma_stamp_found(changed, path);
        if stamp(pending, path) is Some {
            let i = choose|i: int|
                0 <= i < pending.len() && (#[trigger] pending[i]).path@ == path && pending[i].at_ms
                    == stamp(pending, path)->0;
            assert(changed[i] == pending[i]);
            lemma_stamp_at(changed, i);
        } else {
            if stamp(changed, path) is Some {
                let i = choose|i: int|
                    0 <= i < changed.len() && (#[trigger] changed[i]).path@ == path
                        && changed[i].at_ms == stamp(changed, path)->0;
                assert(pending[i].path@ == path);
            }
        }
    }
}

/// Collects the writes to each file until the file has been left alone for
/// a while, and reports it once then.
#[derive(Debug)]
pub struct Debouncer {
    window_ms: u64,
    pending: Vec<PendingWrite>,
}

impl Debouncer {
    /// No file waits twice.
    pub closed spec fn wf(&self) -> bool {
        distinct_paths(self.pending@)
    }

    /// How long a file must have been left alone before it is reported, in
    /// milliseconds.
    pub closed spec fn window(&self) -> u64 {
        self.window_ms
    }

    /// The files that wait to be reported, each with the time of the last
    /// write to it.
    pub closed spec fn waiting(&self) -> Map<Seq<u8>, u64> {
        Map::new(
            |path: Seq<u8>| stamp(self.pending@, path) is Some,
            |path: Seq<u8>| stamp(self.pending@, path)->0,
        )
    }

    /// A debouncer on which nothing waits.
    pub fn new(window_ms: u64) -> (debouncer: Debouncer)
        ensures
            debouncer.wf(),
            debouncer.window() == window_ms,
            debouncer.waiting() == Map::<Seq<u8>, u64>::empty(),
    {
        let debouncer = Debouncer { window_ms, pending: Vec::new() };
        assert(debouncer.waiting() =~= Map::<Seq<u8>, u64>::empty());
        debouncer
    }

    /// Whether nothing waits to be reported.
    pub fn is_idle(&self) -> (idle: bool)
        requires
            self.wf(),
        ensures
            idle == (self.waiting() == Map::<Seq<u8>, u64>::empty()),
    {
        proof {
            if self.pending@.len() > 0 {
                lemma_stamp_at(self.pending@, 0);
                assert(self.waiting().contains_key(self.pending@[0].path@));
            } else {
                assert(self.waiting() =~= Map::<Seq<u8>, u64>::empty());
            }
        }
        self.pending.len() == 0
    }

    fn find(&self, path: &[u8]) -> (found: Option<usize>)
        ensures
            match found {
                Some(at) => at < self.pending@.len() && self.pending@[at as int].path@ == path@,
                None => forall|j: int|
                    0 <= j < self.pending@.len() ==> (#[trigger] self.pending@[j]).path@ != path@,
            },
    {
        let mut i: usize = 0;
        while i < self.pending.len()
            invariant
                i <= self.pending@.len(),
                forall|j: int| 0 <= j < i ==> (#[trigger] self.pending@[j]).path@ != path@,
            decreases self.pending.len() - i,
        {
            if bytes_equal(self.pending[i].path.as_slice(), path) {
                return Some(i);
            }
            i += 1;
        }
        None
    }

    /// Notes a write to the file at the relative `path` at `now_ms`. An
    /// earlier write to the same file that still waits is absorbed: the
    /// file waits on, from now.
    pub fn note_write(&mut self, path: &[u8], now_ms: u64)
        requires
            old(self).wf(),
        ensures
            final(self).wf(),
            final(self).window() == old(self).window(),
            final(self).waiting() == old(self).waiting().insert(path@, now_ms),
    {
        let found = self.find(path);
        let write = PendingWrite { path: slice_to_vec(path), at_ms: now_ms };
        match found {
            Some(at) => {
                proof {
                    assert forall|q: Seq<u8>|
                        stamp(self.pending@.update(at as int, write), q) == if write.path@ == q {
                            Some(write.at_ms)
                        } else {
                            stamp(self.pending@, q)
                        } by {
                        lemma_stamp_replace(self.pending@, at as int, write, q);
                    }
                    lemma_stamp_replace(self.pending@, at as int, write, path@);
                }
                self.pending.set(at, write);
            },
            None => {
                proof {
                    assert forall|q: Seq<u8>|
                        stamp(self.pending@.push(write), q) == if write.path@ == q {
                            Some(write.at_ms)
                        } else {
                            stamp(self.pending@, q)
                        } by {
                        lemma_stamp_push(self.pending@, write, q);
                    }
                }
                self.pending.push(write);
            },
        }
        assert(final(self).waiting() =~= old(self).waiting().insert(path@, now_ms));
    }

    /// Takes in one notification of the file system: `path` as the file
    /// system reports it, the watched `root` in front. Only a write to a
    /// file below the root is noted; everything else changes nothing.
    pub fn observe(&mut self, root: &[u8], kind: NotifyKind, path: &[u8], now_ms: u64)
        requires
            old(self).wf(),
        ensures
            final(self).wf(),
            final(self).window() == old(self).window(),
            final(self).waiting() == match notified_path(root@, kind, path@) {
                Some(rest) => old(self).waiting().insert(rest, now_ms),
                None => old(self).waiting(),
            },
    {
        if kind_asks_for_sync(kind) {
            match file_event(root, path, true) {
                None => {},
                Some(event) => {
                    self.note_write(event.path.as_slice(), now_ms);
                },
            }
        }
    }

    /// The earliest moment at which a file that waits now can be due; `None`
    /// when nothing waits. Before that moment `drain_due` reports nothing.
    pub fn next_deadline(&self) -> (deadline: Option<u64>)
        requires
            self.wf(),
        ensures
            match deadline {
                None => self.waiting() == Map::<Seq<u8>, u64>::empty(),
                Some(d) => {
                    &&& exists|path: Seq<u8>|
                        self.waiting().contains_key(path) && d == deadline_of(
                            self.window(),
                            #[trigger] self.waiting()[path],
                        )
                    &&& forall|path: Seq<u8>|
                        self.waiting().contains_key(path) ==> d <= deadline_of(
                            self.window(),
                            #[trigger] self.waiting()[path],
                        )
                },
            },
    {
        if self.pending.len() == 0 {
            assert(self.waiting() =~= Map::<Seq<u8>, u64>::empty());
            return None;
        }
        let window_ms: u64 = self.window_ms;
        let mut earliest: u64 = u64::MAX;
        let mut i: usize = 0;
        let ghost mut holder: int = 0;
        while i < self.pending.len()
            invariant
                window_ms == self.window_ms,
                i <= self.pending@.len(),
                0 < self.pending@.len(),
                0 <= holder < self.pending@.len(),
                i == 0 ==> earliest == u64::MAX,
                i > 0 ==> earliest == deadline_of(window_ms, self.pending@[holder].at_ms),
                forall|j: int|
                    0 <= j < i ==> earliest <= deadline_of(
                        window_ms,
                        (#[trigger] self.pending@[j]).at_ms,
                    ),
            decreases self.pending.len() - i,
        {
            let at_ms: u64 = self.pending[i].at_ms;
            let deadline: u64 = if at_ms <= u64::MAX - window_ms {
                at_ms + window_ms
            } else {
                u64::MAX
            };
            if i == 0 || deadline < earliest {
                earliest = deadline;
                proof {
                    holder = i as int;
                }
            }
            i += 1;
        }
        proof {
            let pend = self.pending@;
            lemma_stamp_at(pend, holder);
            assert(self.waiting().contains_key(pend[holder].path@));
            assert(self.waiting()[pend[holder].path@] == pend[holder].at_ms);
            assert forall|path: Seq<u8>| self.waiting().contains_key(path) implies earliest
                <= deadline_of(self.window(), #[trigger] self.waiting()[path]) by {
                lemma_stamp_found(pend, path);
            }
        }
        Some(earliest)
    }

    /// Reports the files that have been left alone for the whole window at
    /// `now_ms`, each once, and lets the others wait on.
    pub fn drain_due(&mut self, now_ms: u64) -> (events: Vec<ChangeEvent>)
        requires
            old(self).wf(),
        ensures
            final(self).wf(),
            final(self).window() == old(self).window(),
            final(self).waiting() == still_waiting(
                old(self).waiting(),
                old(self).window(),
                now_ms,
            ),
            forall|i: int, j: int|
                0 <= i < j < events@.len() ==> (#[trigger] events@[i]).path@ != (
                #[trigger] events@[j]).path@,
            forall|path: Seq<u8>|
                event_paths(events@).contains(path) <==> (old(self).waiting().contains_key(path)
                    && is_due(old(self).window(), old(self).waiting()[path], now_ms)),
    {
        let window_ms: u64 = self.window_ms;
        let ghost pend = self.pending@;
        let mut kept: Vec<PendingWrite> = Vec::new();
        let mut events: Vec<ChangeEvent> = Vec::new();
        let ghost mut kept_from: Seq<int> = Seq::empty();
        let ghost mut events_from: Seq<int> = Seq::empty();
        let mut i: usize = 0;
        while i < self.pending.len()
            invariant
                self.pending@ == pend,
                self.window_ms == window_ms,
                distinct_paths(pend),
                i <= pend.len(),
                kept_from.len() == kept@.len(),
                events_from.len() == events@.len(),
                forall|k: int|
                    0 <= k < kept@.len() ==> {
                        &&& 0 <= #[trigger] kept_from[k] < i
                        &&& kept@[k].path@ == pend[kept_from[k]].path@
                        &&& kept@[k].at_ms == pend[kept_from[k]].at_ms
                        &&& !is_due(window_ms, pend[kept_from[k]].at_ms, now_ms)
                    },
                forall|k: int, l: int|
                    0 <= k < l < kept@.len() ==> #[trigger] kept_from[k] < #[trigger] kept_from[l],
                forall|k: int|
                    0 <= k < events@.len() ==> {
                        &&& 0 <= #[trigger] events_from[k] < i
                        &&& events@[k].path@ == pend[events_from[k]].path@
                        &&& is_due(window_ms, pend[events_from[k]].at_ms, now_ms)
                    },
                forall|k: int, l: int|
                    0 <= k < l < events@.len() ==> #[trigger] events_from[k]
                        < #[trigger] events_from[l],
                forall|j: int|
                    0 <= j < i ==> if is_due(window_ms, (#[trigger] pend[j]).at_ms, now_ms) {
                        exists|k: int| 0 <= k < events@.len() && #[trigger] events_from[k] == j
                    } else {
                        exists|k: int| 0 <= k < kept@.len() && #[trigger] kept_from[k] == j
                    },
            decreases self.pending.len() - i,
        {
            let at_ms: u64 = self.pending[i].at_ms;
            let path: Vec<u8> = slice_to_vec(self.pending[i].path.as_slice());
            let ghost old_kept_from = kept_from;
            let ghost old_events_from = events_from;
            let ghost old_kept_len = kept@.len();
            let ghost old_events_len = events@.len();
            if now_ms >= window_ms && at_ms <= now_ms - window_ms {
                events.push(ChangeEvent { path });
                proof {
                    events_from = events_from.push(i as int);
                }
            } else {
                kept.push(PendingWrite { path, at_ms });
                proof {
                    kept_from = kept_from.push(i as int);
                }
            }
            proof {
                assert forall|j: int| 0 <= j < i + 1 implies if is_due(
                    window_ms,
                    (#[trigger] pend[j]).at_ms,
                    now_ms,
                ) {
                    exists|k: int| 0 <= k < events@.len() && #[trigger] events_from[k] == j
                } else {
                    exists|k: int| 0 <= k < kept@.len() && #[trigger] kept_from[k] == j
                } by {
                    if j < i {
                        if is_due(window_ms, pend[j].at_ms, now_ms) {
                            let k = choose|k: int|
                                0 <= k < old_events_len && #[trigger] old_events_from[k] == j;
                            assert(events_from[k] == j);
                        } else {
                            let k = choose|k: int|
                                0 <= k < old_kept_len && #[trigger] old_kept_from[k] == j;
                            assert(kept_from[k] == j);
                        }
                    } else {
                        if is_due(window_ms, pend[j].at_ms, now_ms) {
                            assert(events_from[old_events_len as int] == j);
                        } else {
                            assert(kept_from[old_kept_len as int] == j);
                        }
                    }
                }
            }
            i += 1;
        }
        proof {
            let before = old(self).waiting();
            let after = still_waiting(before, window_ms, now_ms);
            assert forall|k: int, l: int| 0 <= k < l < kept@.len() implies (#[trigger] kept@[k]).path@
                != (#[trigger] kept@[l]).path@ by {
                assert(kept_from[k] < kept_from[l]);
                assert(pend[kept_from[k]].path@ != pend[kept_from[l]].path@);
            }
            assert forall|k: int, l: int| 0 <= k < l < events@.len() implies (
            #[trigger] events@[k]).path@ != (#[trigger] events@[l]).path@ by {
                assert(events_from[k] < events_from[l]);
                assert(pend[events_from[k]].path@ != pend[events_from[l]].path@);
            }
            assert forall|path: Seq<u8>| stamp(kept@, path) == if stamp(pend, path) is Some
                && !is_due(window_ms, stamp(pend, path)->0, now_ms) {
                stamp(pend, path)
            } else {
                None
            } by {
                lemma_stamp_found(pend, path);
                lemma_stamp_found(kept@, path);
                if stamp(kept@, path) is Some {
                    let k = choose|k: int|
                        0 <= k < kept@.len() && (#[trigger] kept@[k]).path@ == path
                            && kept@[k].at_ms == stamp(kept@, path)->0;
                    lemma_stamp_at(pend, kept_from[k]);
                } else if stamp(pend, path) is Some {
                    let j = choose|j: int|
                        0 <= j < pend.len() && (#[trigger] pend[j]).path@ == path && pend[j].at_ms
                            == stamp(pend, path)->0;
                    if !is_due(window_ms, pend[j].at_ms, now_ms) {
                        let k = choose|k: int| 0 <= k < kept@.len() && #[trigger] kept_from[k] == j;
                        assert(kept@[k].path@ == path);
                    }
                }
            }
            assert forall|path: Seq<u8>| event_paths(events@).contains(path) <==> (
            before.contains_key(path) && is_due(window_ms, before[path], now_ms)) by {
                lemma_stamp_found(pend, path);
                if event_paths(events@).contains(path) {
                    let k = choose|k: int|
                        0 <= k < event_paths(events@).len() && event_paths(events@)[k] == path;
                    assert(events@[k].path@ == path);
                    lemma_stamp_at(pend, events_from[k]);
                }
                if before.contains_key(path) && is_due(window_ms, before[path], now_ms) {
                    let j = choose|j: int|
                        0 <= j < pend.len() && (#[trigger] pend[j]).path@ == path && pend[j].at_ms
                            == stamp(pend, path)->0;
                    let k = choose|k: int| 0 <= k < events@.len() && #[trigger] events_from[k] == j;
                    assert(event_paths(events@)[k] == path);
                }
            }
        }
        self.pending = kept;
        assert(final(self).waiting() =~= still_waiting(
            old(self).waiting(),
            old(self).window(),
            now_ms,
        ));
        events
    }
}

/// Before the next deadline nothing that waits is due.
pub proof fn lemma_nothing_due_before_deadline(
    waiting: Map<Seq<u8>, u64>,
    window_ms: u64,
    deadline: u64,
    now_ms: u64,
)
    requires
        forall|path: Seq<u8>|
            waiting.contains_key(path) ==> deadline <= deadline_of(
                window_ms,
                #[trigger] waiting[path],
            ),
        now_ms < deadline,
    ensures
        still_waiting(waiting, window_ms, now_ms) == waiting,
{
    assert(still_waiting(waiting, window_ms, now_ms) =~= waiting);
}

/// A burst of writes to one file leaves one write waiting, the last.
pub proof fn lemma_burst_collapses(
    waiting: Map<Seq<u8>, u64>,
    path: Seq<u8>,
    first_ms: u64,
    last_ms: u64,
)
    ensures
        waiting.insert(path, first_ms).insert(path, last_ms) == waiting.insert(path, last_ms),
{
    assert(waiting.insert(path, first_ms).insert(path, last_ms) =~= waiting.insert(path, last_ms));
}

/// The first walk misses nothing: every regular file below the root that
/// the walk came across is among the paths reported.
pub proof fn lemma_every_file_reported(root: Seq<u8>, entries: Seq<WalkEntry>, i: int)
    requires
        0 <= i < entries.len(),
        reported_path(root, entries[i].path@, entries[i].is_file) is Some,
    ensures
        initial_paths(root, entries).contains(
            reported_path(root, entries[i].path@, entries[i].is_file)->0,
        ),
    decreases entries.len(),
{
    let wanted = reported_path(root, entries[i].path@, entries[i].is_file)->0;
    let before = initial_paths(root, entries.drop_last());
    if i == entries.len() - 1 {
        assert(before.push(wanted)[before.len() as int] == wanted);
    } else {
        assert(entries.drop_last()[i] == entries[i]);
        lemma_every_file_reported(root, entries.drop_last(), i);
        let at = choose|at: int| 0 <= at < before.len() && before[at] == wanted;
        assert(initial_paths(root, entries)[at] == wanted);
    }
}

/// The first walk invents nothing: every path reported is that of a regular
/// file below the root that the walk came across.
pub proof fn lemma_only_files_reported(root: Seq<u8>, entries: Seq<WalkEntry>, path: Seq<u8>)
    requires
        initial_paths(root, entries).contains(path),
    ensures
        exists|i: int|
            0 <= i < entries.len() && reported_path(
                root,
                (#[trigger] entries[i]).path@,
                entries[i].is_file,
            ) == Some(path),
    decreases entries.len(),
{
    if entries.len() > 0 {
        let before = initial_paths(root, entries.drop_last());
        let all = initial_paths(root, entries);
        let at = choose|at: int| 0 <= at < all.len() && all[at] == path;
        if at < before.len() {
            assert(before[at] == path);
            lemma_only_files_reported(root, entries.drop_last(), path);
            let i = choose|i: int|
                0 <= i < entries.drop_last().len() && reported_path(
                    root,
                    (#[trigger] entries.drop_last()[i]).path@,
                    entries.drop_last()[i].is_file,
                ) == Some(path);
            assert(entries[i] == entries.drop_last()[i]);
        } else {
            let last = entries.len() - 1;
            assert(reported_path(root, entries[last].path@, entries[last].is_file) == Some(path));
        }
    }
}

/// No path that is reported leads out of the watched root, so that no task
/// begun for a reported change is turned away for its path.
pub proof fn lemma_reported_paths_stay_inside(root: Seq<u8>, path: Seq<u8>, is_file: bool)
    ensures
        reported_path(root, path, is_file) matches Some(rest) ==> !escapes_root(rest),
{
    if reported_path(root, path, is_file) is Some {
        crate::path::lemma_rest_stays_inside(root, path);
    }
}

} // verus!
