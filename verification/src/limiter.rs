//! A bounded counter of transfers in flight.

use vstd::prelude::*;

verus! {

/// One step of a limiter's history.
#[derive(Clone, Copy, Debug, PartialEq, Eq, Structural)]
pub enum LimiterOp {
    /// A caller asks for a slot.
    Acquire,
    /// A holder gives its slot back.
    Release,
}

/// The number of slots taken after `op`, when `count` were taken before it
/// and `max` is the bound.
pub open spec fn count_after(max: nat, count: nat, op: LimiterOp) -> nat {
    match op {
        LimiterOp::Acquire => if count < max {
            count + 1
        } else {
            count
        },
        LimiterOp::Release => if count > 0 {
            (count - 1) as nat
        } else {
            0
        },
    }
}

/// The number of slots taken after the whole history `ops`, starting from an
/// idle limiter.
pub open spec fn count_after_all(max: nat, ops: Seq<LimiterOp>) -> nat
    decreases ops.len(),
{
    if ops.len() == 0 {
        0
    } else {
        count_after(max, count_after_all(max, ops.drop_last()), ops.last())
    }
}

/// Whether the `i`-th request of `ops` is an `Acquire` that is granted.
pub open spec fn granted_at(max: nat, ops: Seq<LimiterOp>, i: int) -> bool {
    &&& 0 <= i < ops.len()
    &&& ops[i] is Acquire
    &&& count_after_all(max, ops.take(i)) < max
}

/// A counting semaphore without the waiting: it says whether a slot is free
/// and keeps the count. Whoever was refused waits elsewhere, as the files in
/// the queue of a dispatcher do, and tries again after a release.
#[derive(Debug)]
pub struct Limiter {
    max: usize,
    in_flight: usize,
}

impl Limiter {
    #[verifier::type_invariant]
    spec fn bounded(self) -> bool {
        self.in_flight <= self.max
    }

    /// The configured bound.
    pub closed spec fn max_slots(&self) -> nat {
        self.max as nat
    }

    /// The number of slots that are taken.
    pub closed spec fn taken(&self) -> nat {
        self.in_flight as nat
    }

    /// An idle limiter that grants at most `max` slots at a time.
    pub fn new(max: usize) -> (limiter: Limiter)
        ensures
            limiter.max_slots() == max,
            limiter.taken() == 0,
    {
        Limiter { max, in_flight: 0 }
    }

    /// The configured bound.
    pub fn max(&self) -> (max: usize)
        ensures
            max == self.max_slots(),
    {
        self.max
    }

    /// The number of slots that are taken; never more than the bound.
    pub fn in_flight(&self) -> (count: usize)
        ensures
            count == self.taken(),
            count <= self.max_slots(),
    {
        proof {
            use_type_invariant(self);
        }
        self.in_flight
    }

    /// The number of slots that are free.
    pub fn available(&self) -> (free: usize)
        ensures
            free == self.max_slots() - self.taken(),
    {
        proof {
            use_type_invariant(self);
        }
        self.max - self.in_flight
    }

    /// Takes a slot if one is free, and says whether it did.
    pub fn try_acquire(&mut self) -> (granted: bool)
        ensures
            granted == (old(self).taken() < old(self).max_slots()),
            final(self).max_slots() == old(self).max_slots(),
            final(self).taken() == count_after(
                old(self).max_slots(),
                old(self).taken(),
                LimiterOp::Acquire,
            ),
            final(self).taken() <= final(self).max_slots(),
    {
        proof {
            use_type_invariant(&*self);
        }
        if self.in_flight < self.max {
            self.in_flight = self.in_flight + 1;
            true
        } else {
            false
        }
    }

    /// Gives one slot back, and says whether there was one to give. On an
    /// idle limiter nothing changes.
    pub fn release(&mut self) -> (released: bool)
        ensures
            released == (old(self).taken() > 0),
            final(self).max_slots() == old(self).max_slots(),
            final(self).taken() == count_after(
                old(self).max_slots(),
                old(self).taken(),
                LimiterOp::Release,
            ),
            final(self).taken() <= final(self).max_slots(),
    {
        proof {
            use_type_invariant(&*self);
        }
        if self.in_flight > 0 {
            self.in_flight = self.in_flight - 1;
            true
        } else {
            false
        }
    }
}

/// Whatever the history of requests and releases, the number of slots taken
/// never exceeds the bound, at the end and after every step on the way.
pub proof fn lemma_never_exceeds_bound(max: nat, ops: Seq<LimiterOp>)
    ensures
        count_after_all(max, ops) <= max,
        forall|k: int| 0 <= k <= ops.len() ==> #[trigger] count_after_all(max, ops.take(k)) <= max,
{
    lemma_prefix_bounded(max, ops);
    assert forall|k: int| 0 <= k <= ops.len() implies #[trigger] count_after_all(
        max,
        ops.take(k),
    ) <= max by {
        lemma_prefix_bounded(max, ops.take(k));
    }
}

proof fn lemma_prefix_bounded(max: nat, ops: Seq<LimiterOp>)
    ensures
        count_after_all(max, ops) <= max,
    decreases ops.len(),
{
    if ops.len() > 0 {
        lemma_prefix_bounded(max, ops.drop_last());
    }
}

/// With `max` slots and more requests than that and no release, exactly the
/// first `max` requests are granted.
pub proof fn lemma_only_bound_many_granted(max: nat, ops: Seq<LimiterOp>, i: int)
    requires
        forall|j: int| 0 <= j < ops.len() ==> ops[j] is Acquire,
        0 <= i < ops.len(),
    ensures
        granted_at(max, ops, i) <==> i < max,
{
    lemma_acquires_count(max, ops.take(i));
}

proof fn lemma_acquires_count(max: nat, ops: Seq<LimiterOp>)
    requires
        forall|j: int| 0 <= j < ops.len() ==> ops[j] is Acquire,
    ensures
        count_after_all(max, ops) == if ops.len() <= max {
            ops.len()
        } else {
            max
        },
    decreases ops.len(),
{
    if ops.len() > 0 {
        lemma_acquires_count(max, ops.drop_last());
    }
}

} // verus!
