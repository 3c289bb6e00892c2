//! Durability generations: the group-commit coordinator's state.
//!
//! A barrier makes durable everything up to its cut, a mutation-log sequence
//! and a root generation, componentwise. Concurrent fsyncs coalesce onto one
//! barrier whose cut covers every waiter registered before it starts.

use vstd::prelude::*;

use std::collections::VecDeque;

verus! {

/// One registered fsync waiter.
#[derive(Debug, Clone, Copy, PartialEq, Eq, Structural)]
pub struct DurabilityWaiter {
    /// Required logical sequence.
    pub required_seq: u64,
    /// Required root generation.
    pub required_gen: u64,
    /// The generation that will cover this waiter.
    pub joined_gen: u64,
}

/// What a waiter does when it is woken.
#[derive(Debug, PartialEq, Eq)]
pub enum WaitOutcome {
    /// The durable state covers the requirement.
    Durable,
    /// The generation that was to cover the waiter failed.
    Failed(String),
    /// Nobody runs a barrier: become the owner.
    TakeOver,
    /// A barrier is in flight: park again.
    Park,
}

/// The group-commit coordinator state.
pub struct DurabilityGroup {
    /// Waiters not yet covered, in arrival order.
    pub waiters: VecDeque<DurabilityWaiter>,
    /// The in-flight physical barrier's cut, or `None` when idle. Fixed at owner
    /// takeover; late arrivals are not covered.
    pub owner_cut: Option<(u64, u64)>,
    /// A failed generation and its error. Cleared on the next successful barrier.
    pub owner_error: Option<(u64, String)>,
    /// Monotonic generation counter (bumped at each owner takeover).
    pub next_gen: u64,
}

/// The durable state covers the requirement componentwise.
pub open spec fn covered(
    durable_seq: u64,
    durable_gen: u64,
    required_seq: u64,
    required_gen: u64,
) -> bool {
    durable_seq >= required_seq && durable_gen >= required_gen
}

pub open spec fn max_seq(w: Seq<DurabilityWaiter>) -> u64
    decreases w.len(),
{
    if w.len() == 0 {
        0
    } else if w.last().required_seq > max_seq(w.drop_last()) {
        w.last().required_seq
    } else {
        max_seq(w.drop_last())
    }
}

pub open spec fn max_gen(w: Seq<DurabilityWaiter>) -> u64
    decreases w.len(),
{
    if w.len() == 0 {
        0
    } else if w.last().required_gen > max_gen(w.drop_last()) {
        w.last().required_gen
    } else {
        max_gen(w.drop_last())
    }
}

/// A cut at the componentwise maximum covers every waiter registered so far.
pub proof fn cut_covers_waiters(w: Seq<DurabilityWaiter>)
    ensures
        forall|i: int|
            0 <= i < w.len() ==> covered(
                max_seq(w),
                max_gen(w),
                (#[trigger] w[i]).required_seq,
                w[i].required_gen,
            ),
    decreases w.len(),
{
    if w.len() > 0 {
        cut_covers_waiters(w.drop_last());
        assert forall|i: int| 0 <= i < w.len() implies covered(
            max_seq(w),
            max_gen(w),
            (#[trigger] w[i]).required_seq,
            w[i].required_gen,
        ) by {
            if i < w.len() - 1 {
                assert(w.drop_last()[i] == w[i]);
            }
        }
    }
}

/// The cut is the least one that covers every waiter.
pub proof fn cut_is_least(w: Seq<DurabilityWaiter>, seq: u64, gen: u64)
    requires
        forall|i: int|
            0 <= i < w.len() ==> covered(
                seq,
                gen,
                (#[trigger] w[i]).required_seq,
                w[i].required_gen,
            ),
    ensures
        max_seq(w) <= seq,
        max_gen(w) <= gen,
    decreases w.len(),
{
    if w.len() > 0 {
        let had = w.drop_last();
        assert forall|i: int| 0 <= i < had.len() implies covered(
            seq,
            gen,
            (#[trigger] had[i]).required_seq,
            had[i].required_gen,
        ) by {
            assert(had[i] == w[i]);
        }
        cut_is_least(had, seq, gen);
        assert(covered(seq, gen, w[w.len() - 1].required_seq, w[w.len() - 1].required_gen));
    }
}

/// The cut asks for no more than some waiter requires: a requirement above it
/// in one component is not covered by it.
pub proof fn later_requirement_not_covered(
    w: Seq<DurabilityWaiter>,
    required_seq: u64,
    required_gen: u64,
)
    requires
        required_seq > max_seq(w) || required_gen > max_gen(w),
    ensures
        !covered(max_seq(w), max_gen(w), required_seq, required_gen),
{
}

impl DurabilityGroup {
    /// An idle group.
    pub fn new() -> (r: DurabilityGroup)
        ensures
            r.waiters@ == Seq::<DurabilityWaiter>::empty(),
            r.owner_cut is None,
            r.owner_error is None,
            r.next_gen == 0,
    {
        DurabilityGroup {
            waiters: VecDeque::new(),
            owner_cut: None,
            owner_error: None,
            next_gen: 0,
        }
    }

    /// Register a waiter; the result says which generation will cover it.
    pub fn register(&mut self, required_seq: u64, required_gen: u64) -> (w: DurabilityWaiter)
        ensures
            w == (DurabilityWaiter { required_seq, required_gen, joined_gen: old(self).next_gen }),
            final(self).waiters@ == old(self).waiters@.push(w),
            final(self).owner_cut == old(self).owner_cut,
            final(self).owner_error == old(self).owner_error,
            final(self).next_gen == old(self).next_gen,
    {
        let joined_gen: u64 = self.next_gen;
        let w = DurabilityWaiter { required_seq, required_gen, joined_gen };
        self.waiters.push_back(w);
        w
    }

    /// Componentwise max over the current waiters: the cut that covers every
    /// waiter registered so far.
    pub fn max_required(&self) -> (r: (u64, u64))
        ensures
            r == (max_seq(self.waiters@), max_gen(self.waiters@)),
    {
        let mut s: u64 = 0;
        let mut g: u64 = 0;
        let mut i: usize = 0;
        let ghost ws = self.waiters@;
        assert(ws.take(0) =~= Seq::empty());
        while i < self.waiters.len()
            invariant
                i <= ws.len(),
                ws == self.waiters@,
                s == max_seq(ws.take(i as int)),
                g == max_gen(ws.take(i as int)),
            decreases ws.len() - i,
        {
            let w = self.waiters[i];
            assert(ws.take(i + 1).drop_last() =~= ws.take(i as int));
            assert(ws.take(i + 1).last() == w);
            if w.required_seq > s {
                s = w.required_seq;
            }
            if w.required_gen > g {
                g = w.required_gen;
            }
            i += 1;
        }
        assert(ws.take(i as int) =~= ws);
        (s, g)
    }

    /// Whether the durable state covers this requirement.
    pub fn covers(
        durable_seq: u64,
        durable_gen: u64,
        required_seq: u64,
        required_gen: u64,
    ) -> (r: bool)
        ensures
            r == covered(durable_seq, durable_gen, required_seq, required_gen),
    {
        durable_seq >= required_seq && durable_gen >= required_gen
    }

    /// Become the owner of the next barrier: fixes the cut at the maximum of the
    /// current waiters' requirements and opens the next generation. Returns the
    /// generation that the barrier runs for.
    pub fn take_over(&mut self) -> (generation: u64)
        requires
            old(self).next_gen < u64::MAX,
        ensures
            generation == old(self).next_gen,
            final(self).next_gen == old(self).next_gen + 1,
            final(self).owner_cut == Some((max_seq(old(self).waiters@), max_gen(old(self).waiters@))),
            final(self).waiters@ == old(self).waiters@,
            final(self).owner_error == old(self).owner_error,
    {
        let cut = self.max_required();
        let generation: u64 = self.next_gen;
        self.owner_cut = Some(cut);
        self.next_gen = generation + 1;
        generation
    }

    /// The outcome of a waiter that re-checks: a covered requirement is
    /// durable; a failure counts only for the waiters of the failed generation.
    pub fn recheck(
        &self,
        w: &DurabilityWaiter,
        durable_seq: u64,
        durable_gen: u64,
    ) -> (r: WaitOutcome)
        ensures
            covered(durable_seq, durable_gen, w.required_seq, w.required_gen) <==> r
                is Durable,
            r is Failed ==> (self.owner_error matches Some(e) && e.0 == w.joined_gen && r->Failed_0@
                == e.1@),
            !(r is Durable) && (self.owner_error matches Some(e) && e.0 == w.joined_gen) ==> r
                is Failed,
            r is TakeOver ==> self.owner_cut is None,
            r is Park ==> self.owner_cut is Some,
    {
        if DurabilityGroup::covers(durable_seq, durable_gen, w.required_seq, w.required_gen) {
            return WaitOutcome::Durable;
        }
        if let Some((generation, message)) = &self.owner_error {
            if *generation == w.joined_gen {
                return WaitOutcome::Failed(message.as_str().to_string());
            }
        }
        if self.owner_cut.is_none() {
            WaitOutcome::TakeOver
        } else {
            WaitOutcome::Park
        }
    }
}

} // verus!
