//! The rules of the worker pool: how many workers a request gets, which task is
//! served next, and how results come back together.

use vstd::prelude::*;

verus! {

// ---------------------------------------------------------------------------
// The budget
// ---------------------------------------------------------------------------

/// The worker slots of the machine, and who holds them.
#[derive(Debug, Clone, Copy, PartialEq, Eq)]
pub struct BudgetState {
    /// Slots in all.
    pub cap: usize,
    /// Slots held.
    pub in_flight: usize,
    /// Requests that wait.
    pub waiters: usize,
    /// The most that ever waited at once.
    pub max_waiters: usize,
}

/// A request for slots, brought into the machine's range.
pub open spec fn clamped(want: usize, cap: usize) -> usize {
    let w = if want < cap {
        want
    } else {
        cap
    };
    if w < 1 {
        1
    } else {
        w
    }
}

impl BudgetState {
    /// No more slots are held than there are.
    pub open spec fn wf(&self) -> bool {
        &&& self.cap >= 1
        &&& self.in_flight <= self.cap
        &&& self.waiters <= self.max_waiters
    }

    /// The budget of a machine of `cap` slots.
    pub fn new(cap: usize) -> (r: BudgetState)
        requires
            cap >= 1,
        ensures
            r == (BudgetState { cap, in_flight: 0, waiters: 0, max_waiters: 0 }),
            r.wf(),
    {
        BudgetState { cap, in_flight: 0, waiters: 0, max_waiters: 0 }
    }

    /// How many slots a request gets once they are free.
    pub fn clamp(&self, want: usize) -> (r: usize)
        requires
            self.wf(),
        ensures
            r == clamped(want, self.cap),
            1 <= r <= self.cap,
    {
        let w: usize = if want < self.cap {
            want
        } else {
            self.cap
        };
        if w < 1 {
            1
        } else {
            w
        }
    }

    /// Take the slots where they are free; says whether they were.
    pub fn try_acquire(&mut self, want: usize) -> (r: bool)
        requires
            old(self).wf(),
        ensures
            final(self).wf(),
            r == (old(self).in_flight + clamped(want, old(self).cap) <= old(self).cap),
            *final(self) == if r {
                BudgetState {
                    in_flight: (old(self).in_flight + clamped(want, old(self).cap)) as usize,
                    ..*old(self)
                }
            } else {
                *old(self)
            },
    {
        let n: usize = self.clamp(want);
        if n <= self.cap - self.in_flight {
            self.in_flight = self.in_flight + n;
            true
        } else {
            false
        }
    }

    /// A request begins to wait.
    pub fn start_wait(&mut self)
        requires
            old(self).wf(),
            old(self).waiters < usize::MAX,
        ensures
            final(self).wf(),
            final(self).waiters == old(self).waiters + 1,
            final(self).max_waiters == if old(self).waiters + 1 > old(self).max_waiters {
                (old(self).waiters + 1) as usize
            } else {
                old(self).max_waiters
            },
            final(self).cap == old(self).cap,
            final(self).in_flight == old(self).in_flight,
    {
        self.waiters = self.waiters + 1;
        if self.waiters > self.max_waiters {
            self.max_waiters = self.waiters;
        }
    }

    /// A request is done waiting.
    pub fn end_wait(&mut self)
        requires
            old(self).wf(),
            old(self).waiters > 0,
        ensures
            final(self).wf(),
            *final(self) == (BudgetState { waiters: (old(self).waiters - 1) as usize, ..*old(self) }),
    {
        self.waiters = self.waiters - 1;
    }

    /// Give slots back.
    pub fn release(&mut self, n: usize)
        requires
            old(self).wf(),
            n <= old(self).in_flight,
        ensures
            final(self).wf(),
            *final(self) == (BudgetState { in_flight: (old(self).in_flight - n) as usize, ..*old(self) }),
    {
        self.in_flight = self.in_flight - n;
    }
}

/// Slots that are given back are free again: a request for no more than was held gets
/// them.
pub proof fn released_slots_are_free(a: BudgetState, n: usize, want: usize)
    requires
        a.wf(),
        n <= a.in_flight,
        1 <= want <= n,
    ensures
        a.in_flight - n + clamped(want, a.cap) <= a.cap,
{
}

// ---------------------------------------------------------------------------
// The queue
// ---------------------------------------------------------------------------

/// A request with the ordinals of its tasks that wait, in order.
#[derive(Debug)]
pub struct Waiting {
    pub request: u64,
    pub tasks: Vec<usize>,
}

/// The requests with tasks that wait, in a ring.
#[derive(Debug)]
pub struct PoolQueues {
    pub active: Vec<Waiting>,
    /// Tasks submitted and not done.
    pub in_flight: usize,
}

/// The run of picks that one worker made of one request.
#[derive(Debug, Clone, Copy, PartialEq, Eq)]
pub struct Streak {
    pub last: Option<u64>,
    pub consecutive: usize,
}

/// The streak after a pick.
pub open spec fn streak_after(s: Streak, request: u64) -> Streak {
    Streak {
        last: Some(request),
        consecutive: if s.last == Some(request) && s.consecutive < usize::MAX {
            (s.consecutive + 1) as usize
        } else if s.last == Some(request) {
            s.consecutive
        } else {
            1
        },
    }
}

impl PoolQueues {
    /// Every request in the ring has a task that waits, and none is in it twice.
    pub open spec fn wf(&self) -> bool {
        &&& forall|i: int| 0 <= i < self.active@.len() ==> (#[trigger] self.active@[i]).tasks@.len() > 0
        &&& forall|i: int, j: int|
            #![trigger self.active@[i], self.active@[j]]
            0 <= i < j < self.active@.len() ==> self.active@[i].request != self.active@[j].request
    }

    /// An empty queue.
    pub fn new() -> (r: PoolQueues)
        ensures
            r.wf(),
            r.active@.len() == 0,
            r.in_flight == 0,
    {
        PoolQueues { active: Vec::new(), in_flight: 0 }
    }

    /// Whether a request of `total` tasks is let in: at once where nothing is in
    /// flight, else where it fits.
    pub fn admits(&self, total: usize, capacity: usize) -> (r: bool)
        ensures
            r == (self.in_flight == 0 || self.in_flight + total <= capacity),
    {
        self.in_flight == 0 || (self.in_flight <= capacity && total <= capacity - self.in_flight)
    }

    /// Put a request behind the others, with tasks `0..total`.
    pub fn submit(&mut self, request: u64, total: usize)
        requires
            old(self).wf(),
            total > 0,
            old(self).in_flight + total <= usize::MAX,
            forall|i: int|
                0 <= i < old(self).active@.len() ==> (#[trigger] old(self).active@[i]).request
                    != request,
        ensures
            final(self).wf(),
            final(self).in_flight == old(self).in_flight + total,
            final(self).active@.len() == old(self).active@.len() + 1,
            final(self).active@.drop_last() == old(self).active@,
            final(self).active@.last().request == request,
            final(self).active@.last().tasks@ == Seq::new(total as nat, |k: int| k as usize),
    {
        let ghost had = self.active@;
        let mut tasks: Vec<usize> = Vec::new();
        let mut k: usize = 0;
        while k < total
            invariant
                k <= total,
                tasks@ == Seq::new(k as nat, |k: int| k as usize),
            decreases total - k,
        {
            tasks.push(k);
            assert(tasks@ =~= Seq::new((k + 1) as nat, |k: int| k as usize));
            k += 1;
        }
        self.active.push(Waiting { request, tasks });
        self.in_flight = self.in_flight + total;
        proof {
            let now = self.active@;
            assert(now.drop_last() =~= had);
            assert forall|i: int, j: int|
                #![trigger now[i], now[j]]
                0 <= i < j < now.len() implies now[i].request != now[j].request by {
                assert(now[i] == had[i]);
                if j < had.len() {
                    assert(now[j] == had[j]);
                }
            }
        }
    }

    /// Serve the next task: of the request at the cursor, the first that waits. The
    /// cursor goes on to the next request, so that a worker serves another request
    /// while there is one.
    pub fn pick_one(&mut self, cursor: usize, streak: Streak) -> (r: Option<
        (u64, usize, usize, Streak),
    >)
        requires
            old(self).wf(),
        ensures
            final(self).wf(),
            final(self).in_flight == old(self).in_flight,
            match r {
                None => old(self).active@.len() == 0 && final(self).active@ == old(self).active@,
                Some((request, ordinal, next, after)) => {
                    let n = old(self).active@.len();
                    let at = cursor as int % n as int;
                    let was = old(self).active@[at];
                    &&& n > 0
                    &&& request == was.request
                    &&& ordinal == was.tasks@[0]
                    &&& after == streak_after(streak, request)
                    &&& if was.tasks@.len() > 1 {
                        &&& final(self).active@.len() == n
                        &&& final(self).active@[at].request == request
                        &&& final(self).active@[at].tasks@ == was.tasks@.skip(1)
                        &&& forall|i: int|
                            0 <= i < n && i != at ==> #[trigger] final(self).active@[i]
                                == old(self).active@[i]
                        &&& next == (at + 1) % n as int
                    } else {
                        &&& final(self).active@ == old(self).active@.remove(at)
                        &&& next == at
                    }
                },
            },
    {
        if self.active.len() == 0 {
            return None;
        }
        let ghost was = self.active@;
        let n: usize = self.active.len();
        let at: usize = cursor % n;
        let mut w = self.active.remove(at);
        let ghost gone = self.active@;
        let request: u64 = w.request;
        let ghost had = w.tasks@;
        let ordinal: usize = w.tasks.remove(0);
        let after = Streak {
            last: Some(request),
            consecutive: match streak.last {
                Some(last) => if last == request {
                    if streak.consecutive < usize::MAX {
                        streak.consecutive + 1
                    } else {
                        streak.consecutive
                    }
                } else {
                    1
                },
                None => 1,
            },
        };
        proof {
            assert forall|i: int, j: int|
                #![trigger gone[i], gone[j]]
                0 <= i < j < gone.len() implies gone[i].request != gone[j].request by {
                let a = if i < at { i } else { i + 1 };
                let b = if j < at { j } else { j + 1 };
                assert(gone[i] == was[a] && gone[j] == was[b]);
            }
            assert forall|i: int| 0 <= i < gone.len() implies (#[trigger] gone[i]).tasks@.len() > 0 by {
                let a = if i < at { i } else { i + 1 };
                assert(gone[i] == was[a]);
            }
        }
        if w.tasks.len() > 0 {
            let ghost left = w;
            self.active.insert(at, w);
            proof {
                let now = self.active@;
                assert(now =~= was.update(at as int, left));
                assert(left.tasks@ =~= had.skip(1));
                assert forall|i: int, j: int|
                    #![trigger now[i], now[j]]
                    0 <= i < j < now.len() implies now[i].request != now[j].request by {
                    assert(was[i].request != was[j].request);
                }
                assert forall|i: int| 0 <= i < now.len() implies (#[trigger] now[i]).tasks@.len()
                    > 0 by {
                    if i != at {
                        assert(now[i] == was[i]);
                    }
                }
            }
            let next: usize = if at + 1 == n {
                0
            } else {
                at + 1
            };
            proof {
                if at + 1 < n {
                    vstd::arithmetic::div_mod::lemma_small_mod((at + 1) as nat, n as nat);
                } else {
                    vstd::arithmetic::div_mod::lemma_mod_self_0(n as int);
                }
            }
            Some((request, ordinal, next, after))
        } else {
            Some((request, ordinal, at, after))
        }
    }
}

/// While two requests wait, consecutive picks of a worker serve different ones.
pub proof fn picks_alternate(a: PoolQueues, cursor: int)
    requires
        a.wf(),
        a.active@.len() >= 2,
        0 <= cursor < a.active@.len(),
    ensures
        a.active@[cursor].request != a.active@[(cursor + 1) % a.active@.len() as int].request,
{
    let n = a.active@.len() as int;
    let next = (cursor + 1) % n;
    if cursor + 1 < n {
        vstd::arithmetic::div_mod::lemma_small_mod((cursor + 1) as nat, n as nat);
        assert(a.active@[cursor].request != a.active@[next].request);
    } else {
        vstd::arithmetic::div_mod::lemma_mod_self_0(n);
        assert(a.active@[next].request != a.active@[cursor].request);
    }
}

// ---------------------------------------------------------------------------
// Results
// ---------------------------------------------------------------------------

/// The results of one request, by ordinal.
#[derive(Debug)]
pub struct RequestState<T> {
    pub slots: Vec<Option<T>>,
    pub done: usize,
}

/// How many slots are filled.
pub open spec fn filled<T>(s: Seq<Option<T>>) -> nat
    decreases s.len(),
{
    if s.len() == 0 {
        0
    } else {
        filled(s.drop_last()) + if s.last() is Some {
            1nat
        } else {
            0nat
        }
    }
}

proof fn lemma_filled<T>(s: Seq<Option<T>>)
    ensures
        filled(s) <= s.len(),
        filled(s) == s.len() <==> forall|i: int| 0 <= i < s.len() ==> #[trigger] s[i] is Some,
    decreases s.len(),
{
    if s.len() > 0 {
        let d = s.drop_last();
        lemma_filled(d);
        if filled(s) == s.len() {
            assert forall|i: int| 0 <= i < s.len() implies #[trigger] s[i] is Some by {
                if i < d.len() {
                    assert(d[i] is Some);
                }
            }
        }
        if forall|i: int| 0 <= i < s.len() ==> #[trigger] s[i] is Some {
            assert forall|i: int| 0 <= i < d.len() implies #[trigger] d[i] is Some by {
                assert(s[i] is Some);
            }
            assert(s[s.len() - 1] is Some);
        }
    }
}

proof fn lemma_filled_update<T>(s: Seq<Option<T>>, at: int, v: T)
    requires
        0 <= at < s.len(),
        s[at] is None,
    ensures
        filled(s.update(at, Some(v))) == filled(s) + 1,
    decreases s.len(),
{
    let u = s.update(at, Some(v));
    if at < s.len() - 1 {
        lemma_filled_update(s.drop_last(), at, v);
        assert(u.drop_last() =~= s.drop_last().update(at, Some(v)));
    } else {
        assert(u.drop_last() =~= s.drop_last());
    }
}

impl<T> RequestState<T> {
    /// The count is right.
    pub open spec fn wf(&self) -> bool {
        self.done == filled(self.slots@)
    }

    /// A request of `total` tasks, none done.
    pub fn new(total: usize) -> (r: RequestState<T>)
        ensures
            r.wf(),
            r.done == 0,
            r.slots@.len() == total,
            forall|i: int| 0 <= i < total ==> #[trigger] r.slots@[i] is None,
    {
        let mut slots: Vec<Option<T>> = Vec::new();
        let mut i: usize = 0;
        while i < total
            invariant
                i <= total,
                slots@.len() == i,
                filled(slots@) == 0,
                forall|j: int| 0 <= j < i ==> #[trigger] slots@[j] is None,
            decreases total - i,
        {
            let ghost had = slots@;
            slots.push(None);
            assert(slots@.drop_last() =~= had);
            i += 1;
        }
        RequestState { slots, done: 0 }
    }

    /// Deliver a result into its slot; says whether it was the last.
    pub fn deliver(&mut self, ordinal: usize, result: T) -> (r: bool)
        requires
            old(self).wf(),
            ordinal < old(self).slots@.len(),
            old(self).slots@[ordinal as int] is None,
        ensures
            final(self).wf(),
            final(self).slots@ == old(self).slots@.update(ordinal as int, Some(result)),
            final(self).done == old(self).done + 1,
            r <==> forall|i: int|
                0 <= i < final(self).slots@.len() ==> #[trigger] final(self).slots@[i] is Some,
    {
        proof {
            lemma_filled_update(self.slots@, ordinal as int, result);
        }
        self.slots.set(ordinal, Some(result));
        proof {
            lemma_filled(self.slots@);
        }
        let total: usize = self.slots.len();
        self.done = self.done + 1;
        self.done == total
    }

    /// The results in the order of the tasks, once all are there.
    pub fn join(self) -> (r: Vec<T>)
        requires
            self.wf(),
            self.done == self.slots@.len(),
        ensures
            r@.len() == self.slots@.len(),
            forall|i: int| 0 <= i < r@.len() ==> self.slots@[i] == Some(#[trigger] r@[i]),
    {
        proof {
            lemma_filled(self.slots@);
        }
        let ghost all = self.slots@;
        let mut rest = self.slots;
        let mut out: Vec<T> = Vec::new();
        assert(all.skip(0) =~= all);
        while rest.len() > 0
            invariant
                out@.len() <= all.len(),
                rest@ == all.skip(out@.len() as int),
                forall|i: int| 0 <= i < all.len() ==> #[trigger] all[i] is Some,
                forall|i: int| 0 <= i < out@.len() ==> all[i] == Some(#[trigger] out@[i]),
            decreases rest@.len(),
        {
            let ghost k = out@.len() as int;
            let x = rest.remove(0);
            assert(x == all[k]);
            assert(rest@ =~= all.skip(k + 1));
            match x {
                Some(v) => {
                    out.push(v);
                },
                None => {
                    assert(false);
                },
            }
        }
        out
    }
}

/// The results do not depend on the order in which they are delivered.
pub proof fn delivery_order_is_irrelevant<T>(s: Seq<Option<T>>, i: int, a: T, j: int, b: T)
    requires
        0 <= i < s.len(),
        0 <= j < s.len(),
        i != j,
    ensures
        s.update(i, Some(a)).update(j, Some(b)) == s.update(j, Some(b)).update(i, Some(a)),
{
    assert(s.update(i, Some(a)).update(j, Some(b)) =~= s.update(j, Some(b)).update(i, Some(a)));
}

} // verus!
