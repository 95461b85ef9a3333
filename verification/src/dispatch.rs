//! The dispatcher: which changed file is synchronised next.
//!
//! Changed files queue up in the order they were reported. A file starts
//! when it is at the head of the queue and a slot is free. Of one file at
//! most one synchronisation runs at a time: a change that arrives while the
//! file is queued is absorbed by the entry that waits, and one that arrives
//! while the file is in flight makes it queue up again when it is done.

use vstd::prelude::*;
use vstd::slice::slice_to_vec;
use crate::limiter::Limiter;
use crate::path::{bytes_equal, view_of, views};

verus! {

/// What became of a reported change.
#[derive(Clone, Copy, Debug, PartialEq, Eq, Structural)]
pub enum Admission {
    /// The file was put at the end of the queue.
    Queued,
    /// The file waits or runs already; the change is covered by that.
    Absorbed,
    /// The queue is full; the change was not taken and is to be reported
    /// again later.
    Full,
}

/// A file whose synchronisation is in flight.
#[derive(Debug)]
struct Running {
    path: Vec<u8>,
    rerun: bool,
}

/// The state of a dispatcher as plain values.
pub struct DispatchView {
    /// The files that wait for a slot, the oldest first.
    pub queue: Seq<Seq<u8>>,
    /// The files in flight, in the order they started.
    pub running: Seq<Seq<u8>>,
    /// The files in flight that changed again since they started.
    pub rerun: Set<Seq<u8>>,
}

/// What holds of every dispatcher: no file waits twice or runs twice, none
/// waits while it runs, only files in flight are marked to run again, and
/// no more files run than there are slots.
pub open spec fn valid(v: DispatchView, max_in_flight: nat) -> bool {
    &&& v.queue.no_duplicates()
    &&& v.running.no_duplicates()
    &&& forall|path: Seq<u8>| !(v.queue.contains(path) && v.running.contains(path))
    &&& forall|path: Seq<u8>| v.rerun.contains(path) ==> v.running.contains(path)
    &&& v.running.len() <= max_in_flight
}

/// The state after a change to `path` was reported, and what became of the
/// change.
pub open spec fn submit_spec(v: DispatchView, capacity: nat, path: Seq<u8>) -> (
    DispatchView,
    Admission,
) {
    if v.running.contains(path) {
        (
            DispatchView { queue: v.queue, running: v.running, rerun: v.rerun.insert(path) },
            Admission::Absorbed,
        )
    } else if v.queue.contains(path) {
        (v, Admission::Absorbed)
    } else if v.queue.len() >= capacity {
        (v, Admission::Full)
    } else {
        (
            DispatchView { queue: v.queue.push(path), running: v.running, rerun: v.rerun },
            Admission::Queued,
        )
    }
}

/// The state after the next file was asked for, and the file that starts:
/// the head of the queue, if a slot is free.
pub open spec fn start_spec(v: DispatchView, max_in_flight: nat) -> (
    DispatchView,
    Option<Seq<u8>>,
) {
    if v.queue.len() > 0 && v.running.len() < max_in_flight {
        (
            DispatchView {
                queue: v.queue.drop_first(),
                running: v.running.push(v.queue[0]),
                rerun: v.rerun,
            },
            Some(v.queue[0]),
        )
    } else {
        (v, None)
    }
}

/// The state after the synchronisation of `path` ended, and whether one was
/// in flight. A file that changed again meanwhile goes to the end of the
/// queue.
pub open spec fn finish_spec(v: DispatchView, path: Seq<u8>) -> (DispatchView, bool) {
    if v.running.contains(path) {
        (
            DispatchView {
                queue: if v.rerun.contains(path) {
                    v.queue.push(path)
                } else {
                    v.queue
                },
                running: v.running.remove(v.running.index_of(path)),
                rerun: v.rerun.remove(path),
            },
            true,
        )
    } else {
        (v, false)
    }
}

spec fn running_paths(running: Seq<Running>) -> Seq<Seq<u8>> {
    Seq::new(running.len(), |i: int| running[i].path@)
}

spec fn rerun_paths(running: Seq<Running>) -> Set<Seq<u8>> {
    Set::new(
        |path: Seq<u8>|
            exists|i: int|
                0 <= i < running.len() && (#[trigger] running[i]).path@ == path && running[i].rerun,
    )
}

/// Queue and slots of the synchronisation pipeline.
#[derive(Debug)]
pub struct Dispatcher {
    limiter: Limiter,
    capacity: usize,
    queue: Vec<Vec<u8>>,
    running: Vec<Running>,
}

impl View for Dispatcher {
    type V = DispatchView;

    closed spec fn view(&self) -> DispatchView {
        DispatchView {
            queue: views(self.queue@),
            running: running_paths(self.running@),
            rerun: rerun_paths(self.running@),
        }
    }
}

impl Dispatcher {
    /// How many files may be in flight at once.
    pub closed spec fn max_in_flight(&self) -> nat {
        self.limiter.max_slots()
    }

    /// How many files may wait before reported changes are refused.
    pub closed spec fn capacity(&self) -> nat {
        self.capacity as nat
    }

    /// The dispatcher is in order.
    pub closed spec fn wf(&self) -> bool {
        &&& valid(self@, self.max_in_flight())
        &&& self.limiter.taken() == self.running@.len()
    }

    /// What holds of a dispatcher that is in order.
    pub proof fn lemma_valid(&self)
        requires
            self.wf(),
        ensures
            valid(self@, self.max_in_flight()),
    {
    }

    /// A dispatcher on which nothing waits or runs.
    pub fn new(max_in_flight: usize, capacity: usize) -> (dispatcher: Dispatcher)
        ensures
            dispatcher.wf(),
            dispatcher.max_in_flight() == max_in_flight,
            dispatcher.capacity() == capacity,
            dispatcher@.queue == Seq::<Seq<u8>>::empty(),
            dispatcher@.running == Seq::<Seq<u8>>::empty(),
            dispatcher@.rerun == Set::<Seq<u8>>::empty(),
    {
        let dispatcher = Dispatcher {
            limiter: Limiter::new(max_in_flight),
            capacity,
            queue: Vec::new(),
            running: Vec::new(),
        };
        assert(dispatcher@.queue =~= Seq::<Seq<u8>>::empty());
        assert(dispatcher@.running =~= Seq::<Seq<u8>>::empty());
        assert(dispatcher@.rerun =~= Set::<Seq<u8>>::empty());
        dispatcher
    }

    /// How many files wait.
    pub fn queued(&self) -> (count: usize)
        ensures
            count == self@.queue.len(),
    {
        self.queue.len()
    }

    /// How many files are in flight.
    pub fn in_flight(&self) -> (count: usize)
        ensures
            count == self@.running.len(),
    {
        self.running.len()
    }

    fn find_running(&self, path: &[u8]) -> (found: Option<usize>)
        ensures
            match found {
                Some(at) => at < self.running@.len() && self.running@[at as int].path@ == path@,
                None => !running_paths(self.running@).contains(path@),
            },
    {
        let mut i: usize = 0;
        while i < self.running.len()
            invariant
                i <= self.running@.len(),
                forall|j: int| 0 <= j < i ==> (#[trigger] self.running@[j]).path@ != path@,
            decreases self.running.len() - i,
        {
            if bytes_equal(self.running[i].path.as_slice(), path) {
                return Some(i);
            }
            i += 1;
        }
        proof {
            let paths = running_paths(self.running@);
            assert forall|j: int| 0 <= j < paths.len() implies paths[j] != path@ by {
                assert(self.running@[j].path@ != path@);
            }
        }
        None
    }

    fn is_queued(&self, path: &[u8]) -> (queued: bool)
        ensures
            queued == views(self.queue@).contains(path@),
    {
        let mut i: usize = 0;
        while i < self.queue.len()
            invariant
                i <= self.queue@.len(),
                forall|j: int| 0 <= j < i ==> (#[trigger] self.queue@[j])@ != path@,
            decreases self.queue.len() - i,
        {
            if bytes_equal(self.queue[i].as_slice(), path) {
                assert(views(self.queue@)[i as int] == path@);
                return true;
            }
            i += 1;
        }
        proof {
            let paths = views(self.queue@);
            assert forall|j: int| 0 <= j < paths.len() implies paths[j] != path@ by {
                assert(self.queue@[j]@ != path@);
            }
        }
        false
    }

    /// Reports a change to the file at the relative `path`.
    pub fn submit(&mut self, path: &[u8]) -> (admission: Admission)
        requires
            old(self).wf(),
        ensures
            final(self).wf(),
            final(self).max_in_flight() == old(self).max_in_flight(),
            final(self).capacity() == old(self).capacity(),
            (final(self)@, admission) == submit_spec(old(self)@, old(self).capacity(), path@),
    {
        match self.find_running(path) {
            Some(at) => {
                let ghost before = self.running@;
                let marked = Running { path: slice_to_vec(path), rerun: true };
                self.running.set(at, marked);
                proof {
                    let after = self.running@;
                    assert(running_paths(after) =~= running_paths(before));
                    assert(running_paths(before)[at as int] == path@);
                    assert forall|q: Seq<u8>| rerun_paths(after).contains(q) <==> rerun_paths(
                        before,
                    ).insert(path@).contains(q) by {
                        if rerun_paths(after).contains(q) {
                            let i = choose|i: int|
                                0 <= i < after.len() && (#[trigger] after[i]).path@ == q
                                    && after[i].rerun;
                            if i != at {
                                assert(before[i] == after[i]);
                            }
                        }
                        if rerun_paths(before).contains(q) {
                            let i = choose|i: int|
                                0 <= i < before.len() && (#[trigger] before[i]).path@ == q
                                    && before[i].rerun;
                            if i != at {
                                assert(after[i] == before[i]);
                            } else {
                                assert(after[at as int].path@ == q && after[at as int].rerun);
                            }
                        }
                        if q == path@ {
                            assert(after[at as int].path@ == q && after[at as int].rerun);
                        }
                    }
                    assert(rerun_paths(after) =~= rerun_paths(before).insert(path@));
                }
                Admission::Absorbed
            },
            None => {
                if self.is_queued(path) {
                    Admission::Absorbed
                } else if self.queue.len() >= self.capacity {
                    Admission::Full
                } else {
                    let ghost before = self.queue@;
                    let copy: Vec<u8> = slice_to_vec(path);
                    self.queue.push(copy);
                    proof {
                        assert(views(self.queue@) =~= views(before).push(path@));
                        lemma_push_fresh(views(before), path@);
                        assert forall|q: Seq<u8>|
                            !(views(self.queue@).contains(q) && running_paths(
                                self.running@,
                            ).contains(q)) by {
                            lemma_push_contains(views(before), path@, q);
                        }
                    }
                    Admission::Queued
                }
            },
        }
    }

    /// Starts the file at the head of the queue if a slot is free, and
    /// returns its path. The slot stays taken until `finish` is called for
    /// that path.
    pub fn start_next(&mut self) -> (started: Option<Vec<u8>>)
        requires
            old(self).wf(),
        ensures
            final(self).wf(),
            final(self).max_in_flight() == old(self).max_in_flight(),
            final(self).capacity() == old(self).capacity(),
            (final(self)@, view_of(started)) == start_spec(
                old(self)@,
                old(self).max_in_flight(),
            ),
    {
        if self.queue.len() == 0 {
            return None;
        }
        if !self.limiter.try_acquire() {
            return None;
        }
        let ghost queue_before = self.queue@;
        let ghost running_before = self.running@;
        let path: Vec<u8> = self.queue.remove(0);
        let started: Vec<u8> = slice_to_vec(path.as_slice());
        self.running.push(Running { path, rerun: false });
        proof {
            let head = views(queue_before)[0];
            assert(head == started@);
            assert(queue_before.remove(0) =~= queue_before.drop_first());
            assert(views(self.queue@) =~= views(queue_before).drop_first());
            assert(running_paths(self.running@) =~= running_paths(running_before).push(head));
            assert forall|q: Seq<u8>| rerun_paths(self.running@).contains(q) <==> rerun_paths(
                running_before,
            ).contains(q) by {
                if rerun_paths(self.running@).contains(q) {
                    let i = choose|i: int|
                        0 <= i < self.running@.len() && (#[trigger] self.running@[i]).path@ == q
                            && self.running@[i].rerun;
                    assert(i < running_before.len());
                    assert(running_before[i] == self.running@[i]);
                }
                if rerun_paths(running_before).contains(q) {
                    let i = choose|i: int|
                        0 <= i < running_before.len() && (#[trigger] running_before[i]).path@ == q
                            && running_before[i].rerun;
                    assert(self.running@[i] == running_before[i]);
                }
            }
            assert(rerun_paths(self.running@) =~= rerun_paths(running_before));
            assert(views(queue_before).contains(head));
            lemma_push_fresh(running_paths(running_before), head);
            lemma_drop_first_distinct(views(queue_before));
            assert forall|q: Seq<u8>|
                !(views(self.queue@).contains(q) && running_paths(self.running@).contains(
                    q,
                )) by {
                lemma_push_contains(running_paths(running_before), head, q);
                lemma_drop_first_contains(views(queue_before), q);
            }
            assert forall|q: Seq<u8>| rerun_paths(self.running@).contains(q) implies running_paths(
                self.running@,
            ).contains(q) by {
                lemma_push_contains(running_paths(running_before), head, q);
            }
        }
        Some(started)
    }

    /// Ends the synchronisation of the file at `path` and frees its slot.
    /// Returns whether one was in flight; if none was, nothing changes.
    pub fn finish(&mut self, path: &[u8]) -> (ended: bool)
        requires
            old(self).wf(),
        ensures
            final(self).wf(),
            final(self).max_in_flight() == old(self).max_in_flight(),
            final(self).capacity() == old(self).capacity(),
            (final(self)@, ended) == finish_spec(old(self)@, path@),
    {
        match self.find_running(path) {
            None => false,
            Some(at) => {
                let ghost queue_before = self.queue@;
                let ghost running_before = self.running@;
                let ghost paths_before = running_paths(running_before);
                proof {
                    assert(paths_before[at as int] == path@);
                    assert(paths_before.contains(path@));
                    assert(paths_before.index_of(path@) == at);
                }
                let ended: Running = self.running.remove(at);
                let released: bool = self.limiter.release();
                proof {
                    let after = self.running@;
                    assert(running_paths(after) =~= paths_before.remove(at as int));
                    lemma_remove_distinct(paths_before, at as int);
                    assert forall|q: Seq<u8>| rerun_paths(after).contains(q) <==> rerun_paths(
                        running_before,
                    ).remove(path@).contains(q) by {
                        if rerun_paths(after).contains(q) {
                            let i = choose|i: int|
                                0 <= i < after.len() && (#[trigger] after[i]).path@ == q
                                    && after[i].rerun;
                            let j = if i < at {
                                i
                            } else {
                                i + 1
                            };
                            assert(running_before[j] == after[i]);
                            assert(paths_before[j] == q);
                        }
                        if rerun_paths(running_before).remove(path@).contains(q) {
                            let j = choose|j: int|
                                0 <= j < running_before.len() && (#[trigger] running_before[j]).path@
                                    == q && running_before[j].rerun;
                            assert(j != at);
                            let i = if j < at {
                                j
                            } else {
                                j - 1
                            };
                            assert(after[i] == running_before[j]);
                        }
                    }
                    assert(rerun_paths(after) =~= rerun_paths(running_before).remove(path@));
                    assert(ended.rerun == rerun_paths(running_before).contains(path@)) by {
                        if rerun_paths(running_before).contains(path@) {
                            let j = choose|j: int|
                                0 <= j < running_before.len() && (#[trigger] running_before[j]).path@
                                    == path@ && running_before[j].rerun;
                            assert(paths_before[j] == path@);
                        }
                    }
                    assert forall|q: Seq<u8>| rerun_paths(after).contains(q) implies running_paths(
                        after,
                    ).contains(q) by {
                        let i = choose|i: int|
                            0 <= i < after.len() && (#[trigger] after[i]).path@ == q
                                && after[i].rerun;
                        assert(running_paths(after)[i] == q);
                    }
                    assert forall|q: Seq<u8>| running_paths(after).contains(q) implies (
                    paths_before.contains(q) && q != path@) by {
                        lemma_remove_contains(paths_before, at as int, q);
                    }
                }
                if ended.rerun {
                    let again: Vec<u8> = ended.path;
                    self.queue.push(again);
                    proof {
                        assert(views(self.queue@) =~= views(queue_before).push(path@));
                        lemma_push_fresh(views(queue_before), path@);
                        assert forall|q: Seq<u8>|
                            !(views(self.queue@).contains(q) && running_paths(
                                self.running@,
                            ).contains(q)) by {
                            lemma_push_contains(views(queue_before), path@, q);
                        }
                    }
                }
                true
            },
        }
    }
}

proof fn lemma_push_contains(s: Seq<Seq<u8>>, x: Seq<u8>, q: Seq<u8>)
    ensures
        s.push(x).contains(q) <==> (s.contains(q) || q == x),
{
    if s.push(x).contains(q) {
        let i = choose|i: int| 0 <= i < s.push(x).len() && s.push(x)[i] == q;
        if i < s.len() {
            assert(s[i] == q);
        }
    }
    if s.contains(q) {
        let i = choose|i: int| 0 <= i < s.len() && s[i] == q;
        assert(s.push(x)[i] == q);
    }
    if q == x {
        assert(s.push(x)[s.len() as int] == q);
    }
}

proof fn lemma_push_fresh(s: Seq<Seq<u8>>, x: Seq<u8>)
    requires
        s.no_duplicates(),
        !s.contains(x),
    ensures
        s.push(x).no_duplicates(),
{
    assert forall|i: int, j: int| 0 <= i < s.push(x).len() && 0 <= j < s.push(x).len() && i
        != j implies s.push(x)[i] != s.push(x)[j] by {
        if i < s.len() && j < s.len() {
            assert(s[i] != s[j]);
        } else if i < s.len() {
            assert(s.contains(s[i]));
        } else {
            assert(s.contains(s[j]));
        }
    }
}

proof fn lemma_drop_first_contains(s: Seq<Seq<u8>>, q: Seq<u8>)
    requires
        s.len() > 0,
        s.no_duplicates(),
    ensures
        s.drop_first().contains(q) <==> (s.contains(q) && q != s[0]),
{
    if s.drop_first().contains(q) {
        let i = choose|i: int| 0 <= i < s.drop_first().len() && s.drop_first()[i] == q;
        assert(s[i + 1] == q);
    }
    if s.contains(q) && q != s[0] {
        let i = choose|i: int| 0 <= i < s.len() && s[i] == q;
        assert(s.drop_first()[i - 1] == q);
    }
}

proof fn lemma_drop_first_distinct(s: Seq<Seq<u8>>)
    requires
        s.len() > 0,
        s.no_duplicates(),
    ensures
        s.drop_first().no_duplicates(),
{
    assert forall|i: int, j: int|
        0 <= i < s.drop_first().len() && 0 <= j < s.drop_first().len() && i
            != j implies s.drop_first()[i] != s.drop_first()[j] by {
        assert(s[i + 1] != s[j + 1]);
    }
}

proof fn lemma_remove_contains(s: Seq<Seq<u8>>, at: int, q: Seq<u8>)
    requires
        0 <= at < s.len(),
        s.no_duplicates(),
    ensures
        s.remove(at).contains(q) <==> (s.contains(q) && q != s[at]),
{
    let r = s.remove(at);
    if r.contains(q) {
        let i = choose|i: int| 0 <= i < r.len() && r[i] == q;
        if i < at {
            assert(s[i] == q);
        } else {
            assert(s[i + 1] == q);
        }
    }
    if s.contains(q) && q != s[at] {
        let j = choose|j: int| 0 <= j < s.len() && s[j] == q;
        if j < at {
            assert(r[j] == q);
        } else {
            assert(r[j - 1] == q);
        }
    }
}

proof fn lemma_remove_distinct(s: Seq<Seq<u8>>, at: int)
    requires
        0 <= at < s.len(),
        s.no_duplicates(),
    ensures
        s.remove(at).no_duplicates(),
{
    let r = s.remove(at);
    assert forall|i: int, j: int| 0 <= i < r.len() && 0 <= j < r.len() && i != j implies r[i]
        != r[j] by {
        let si = if i < at {
            i
        } else {
            i + 1
        };
        let sj = if j < at {
            j
        } else {
            j + 1
        };
        assert(r[i] == s[si]);
        assert(r[j] == s[sj]);
    }
}

/// Of one file at most one synchronisation is in flight, and never more
/// files are in flight than there are slots, after any of the three
/// operations on a valid state.
pub proof fn lemma_steps_keep_valid(
    v: DispatchView,
    max_in_flight: nat,
    capacity: nat,
    path: Seq<u8>,
)
    requires
        valid(v, max_in_flight),
    ensures
        valid(submit_spec(v, capacity, path).0, max_in_flight),
        valid(start_spec(v, max_in_flight).0, max_in_flight),
        valid(finish_spec(v, path).0, max_in_flight),
{
    assert(valid(submit_spec(v, capacity, path).0, max_in_flight)) by {
        if !v.running.contains(path) && !v.queue.contains(path) && v.queue.len() < capacity {
            lemma_push_fresh(v.queue, path);
            assert forall|q: Seq<u8>|
                !(v.queue.push(path).contains(q) && v.running.contains(q)) by {
                lemma_push_contains(v.queue, path, q);
            }
        }
    }
    assert(valid(start_spec(v, max_in_flight).0, max_in_flight)) by {
        if v.queue.len() > 0 && v.running.len() < max_in_flight {
            let head = v.queue[0];
            assert(v.queue.contains(head));
            lemma_push_fresh(v.running, head);
            lemma_drop_first_distinct(v.queue);
            assert forall|q: Seq<u8>|
                !(v.queue.drop_first().contains(q) && v.running.push(head).contains(q)) by {
                lemma_push_contains(v.running, head, q);
                lemma_drop_first_contains(v.queue, q);
            }
            assert forall|q: Seq<u8>| v.rerun.contains(q) implies v.running.push(head).contains(
                q,
            ) by {
                lemma_push_contains(v.running, head, q);
            }
        }
    }
    assert(valid(finish_spec(v, path).0, max_in_flight)) by {
        if v.running.contains(path) {
            let at = v.running.index_of(path);
            let after = finish_spec(v, path).0;
            lemma_remove_distinct(v.running, at);
            assert forall|q: Seq<u8>| after.running.contains(q) <==> (v.running.contains(q) && q
                != path) by {
                lemma_remove_contains(v.running, at, q);
            }
            if v.rerun.contains(path) {
                lemma_push_fresh(v.queue, path);
                assert forall|q: Seq<u8>| after.queue.contains(q) <==> (v.queue.contains(q) || q
                    == path) by {
                    lemma_push_contains(v.queue, path, q);
                }
            }
            assert forall|q: Seq<u8>| !(after.queue.contains(q) && after.running.contains(q)) by {}
            assert forall|q: Seq<u8>| after.rerun.contains(q) implies after.running.contains(q) by {}
        }
    }
}

/// A change that was reported and not refused is not lost: its file waits
/// in the queue, or is in flight and marked to run again.
pub proof fn lemma_change_is_kept(v: DispatchView, capacity: nat, path: Seq<u8>)
    requires
        submit_spec(v, capacity, path).1 != Admission::Full,
    ensures
        submit_spec(v, capacity, path).0.queue.contains(path) || submit_spec(
            v,
            capacity,
            path,
        ).0.rerun.contains(path),
{
    if !v.running.contains(path) && !v.queue.contains(path) {
        lemma_push_contains(v.queue, path, path);
    }
}

/// A file that changed again while it was in flight waits in the queue once
/// it is done, and is in flight no more.
pub proof fn lemma_rerun_is_queued(v: DispatchView, max_in_flight: nat, path: Seq<u8>)
    requires
        valid(v, max_in_flight),
        v.rerun.contains(path),
    ensures
        finish_spec(v, path).1,
        finish_spec(v, path).0.queue.contains(path),
        !finish_spec(v, path).0.running.contains(path),
{
    lemma_push_contains(v.queue, path, path);
    lemma_remove_contains(v.running, v.running.index_of(path), path);
}

/// Nobody waits forever behind later arrivals. A file that waits starts
/// when it is at the head of the queue and a file starts, and moves one
/// place up when another file starts. Reporting a change or ending a
/// synchronisation leaves its place as it is.
pub proof fn lemma_waiting_file_moves_up(
    v: DispatchView,
    max_in_flight: nat,
    capacity: nat,
    path: Seq<u8>,
    other: Seq<u8>,
)
    requires
        valid(v, max_in_flight),
        v.queue.contains(path),
    ensures
        start_spec(v, max_in_flight).1 is Some ==> if v.queue.index_of(path) == 0 {
            start_spec(v, max_in_flight).1 == Some(path)
        } else {
            &&& start_spec(v, max_in_flight).0.queue.contains(path)
            &&& start_spec(v, max_in_flight).0.queue.index_of(path) == v.queue.index_of(path) - 1
        },
        submit_spec(v, capacity, other).0.queue.contains(path),
        submit_spec(v, capacity, other).0.queue.index_of(path) == v.queue.index_of(path),
        finish_spec(v, other).0.queue.contains(path),
        finish_spec(v, other).0.queue.index_of(path) == v.queue.index_of(path),
{
    let place = v.queue.index_of(path);
    assert(0 <= place < v.queue.len() && v.queue[place] == path);
    lemma_steps_keep_valid(v, max_in_flight, capacity, other);
    if start_spec(v, max_in_flight).1 is Some && place != 0 {
        let after = start_spec(v, max_in_flight).0.queue;
        assert(after[place - 1] == path);
        let found = after.index_of(path);
        assert(0 <= found < after.len() && after[found] == path);
    }
    let submitted = submit_spec(v, capacity, other).0.queue;
    if submitted != v.queue {
        assert(submitted[place] == path);
        let found = submitted.index_of(path);
        assert(0 <= found < submitted.len() && submitted[found] == path);
    }
    let ended = finish_spec(v, other).0.queue;
    if ended != v.queue {
        assert(ended[place] == path);
        let found = ended.index_of(path);
        assert(0 <= found < ended.len() && ended[found] == path);
    }
}

} // verus!
