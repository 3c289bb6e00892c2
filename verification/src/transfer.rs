//! Transfers that the kernel may complete in part: how far each has come, and
//! which go into the next submission.

use vstd::prelude::*;

use crate::error::StoreError;

verus! {

/// How a transfer stands after a completion.
#[derive(Debug, Clone, Copy, PartialEq, Eq)]
pub enum Step {
    /// All bytes are there.
    Done,
    /// Some bytes are there; the rest is asked for again.
    Again { filled: usize },
    /// The kernel moved nothing although bytes were wanted.
    Stuck,
    /// The kernel refused, with this error number.
    Failed { errno: u32 },
}

/// The standing of a transfer of `want` bytes, `filled` of them there, after a
/// completion with `result`: the bytes moved, or a negated error number.
pub open spec fn step_of(filled: usize, want: usize, result: i32) -> Step {
    if result < 0 {
        Step::Failed { errno: (-(result as int)) as u32 }
    } else if result >= want - filled {
        Step::Done
    } else if result == 0 {
        Step::Stuck
    } else {
        Step::Again { filled: (filled + result) as usize }
    }
}

/// Advance a transfer by a completion.
pub fn advance(filled: usize, want: usize, result: i32) -> (r: Step)
    requires
        filled <= want,
    ensures
        r == step_of(filled, want, result),
        r matches Step::Again { filled: n } ==> filled < n < want,
{
    if result < 0 {
        let errno: u32 = if result == i32::MIN {
            0x8000_0000
        } else {
            (-result) as u32
        };
        return Step::Failed { errno };
    }
    let moved: u64 = result as u64;
    if moved >= (want - filled) as u64 {
        Step::Done
    } else if moved == 0 {
        Step::Stuck
    } else {
        Step::Again { filled: filled + moved as usize }
    }
}

/// A batch of transfers that complete in any order.
#[derive(Debug)]
pub struct TransferBatch {
    /// The bytes wanted, per request.
    pub want: Vec<usize>,
    /// The bytes that are there, per request.
    pub filled: Vec<usize>,
    /// How each request ended; nothing while it is open.
    pub ended: Vec<Option<Step>>,
}

impl TransferBatch {
    /// No more bytes are there than wanted, and no request ended open.
    pub open spec fn wf(&self) -> bool {
        &&& self.filled@.len() == self.want@.len()
        &&& self.ended@.len() == self.want@.len()
        &&& forall|i: int|
            0 <= i < self.want@.len() ==> #[trigger] self.filled@[i] <= self.want@[i]
        &&& forall|i: int|
            0 <= i < self.ended@.len() ==> !(#[trigger] self.ended@[i] matches Some(
                Step::Again { .. },
            ))
    }

    /// A batch of transfers of these sizes, nothing moved; an empty one is done.
    pub fn new(want: Vec<usize>) -> (r: TransferBatch)
        ensures
            r.wf(),
            r.want@ == want@,
            forall|i: int| 0 <= i < want@.len() ==> #[trigger] r.filled@[i] == 0,
            forall|i: int|
                0 <= i < want@.len() ==> #[trigger] r.ended@[i] == if want@[i] == 0 {
                    Some(Step::Done)
                } else {
                    None
                },
    {
        let mut filled: Vec<usize> = Vec::new();
        let mut ended: Vec<Option<Step>> = Vec::new();
        let mut i: usize = 0;
        while i < want.len()
            invariant
                i <= want@.len(),
                filled@.len() == i,
                ended@.len() == i,
                forall|j: int| 0 <= j < i ==> #[trigger] filled@[j] == 0,
                forall|j: int|
                    0 <= j < i ==> #[trigger] ended@[j] == if want@[j] == 0 {
                        Some(Step::Done)
                    } else {
                        None
                    },
            decreases want@.len() - i,
        {
            filled.push(0);
            if want[i] == 0 {
                ended.push(Some(Step::Done));
            } else {
                ended.push(None);
            }
            i += 1;
        }
        TransferBatch { want, filled, ended }
    }

    /// The requests that go into the next submission, in order: those that are open.
    pub fn open_requests(&self) -> (r: Vec<usize>)
        requires
            self.wf(),
        ensures
            forall|i: int, j: int| 0 <= i < j < r@.len() ==> r@[i] < r@[j],
            forall|x: usize| #[trigger]
                r@.contains(x) <==> x < self.ended@.len() && self.ended@[x as int] is None,
    {
        let mut out: Vec<usize> = Vec::new();
        let mut i: usize = 0;
        while i < self.ended.len()
            invariant
                i <= self.ended@.len(),
                forall|a: int, b: int| 0 <= a < b < out@.len() ==> out@[a] < out@[b],
                forall|a: int| 0 <= a < out@.len() ==> #[trigger] out@[a] < i,
                forall|x: usize| #[trigger]
                    out@.contains(x) <==> x < i && self.ended@[x as int] is None,
            decreases self.ended@.len() - i,
        {
            let ghost had = out@;
            if self.ended[i].is_none() {
                out.push(i);
                proof {
                    assert(out@[had.len() as int] == i);
                    assert forall|x: usize| #[trigger] out@.contains(x) implies had.contains(x) || x
                        == i by {
                        let j = choose|j: int| 0 <= j < out@.len() && out@[j] == x;
                        if j < had.len() {
                            assert(had[j] == x);
                        }
                    }
                    assert forall|x: usize| had.contains(x) implies #[trigger] out@.contains(x) by {
                        let j = choose|j: int| 0 <= j < had.len() && had[j] == x;
                        assert(out@[j] == x);
                    }
                }
            }
            i += 1;
        }
        out
    }

    /// Take in one completion.
    pub fn complete(&mut self, i: usize, result: i32)
        requires
            old(self).wf(),
            i < old(self).want@.len(),
            old(self).ended@[i as int] is None,
        ensures
            final(self).wf(),
            final(self).want@ == old(self).want@,
            ({
                let step = step_of(old(self).filled@[i as int], old(self).want@[i as int], result);
                match step {
                    Step::Again { filled } => final(self).filled@ == old(self).filled@.update(
                        i as int,
                        filled,
                    ) && final(self).ended@ == old(self).ended@,
                    _ => final(self).filled@ == old(self).filled@ && final(self).ended@ == old(self).ended@.update(i as int, Some(step)),
                }
            }),
    {
        let step = advance(self.filled[i], self.want[i], result);
        match step {
            Step::Again { filled } => {
                self.filled.set(i, filled);
            },
            _ => {
                self.ended.set(i, Some(step));
            },
        }
    }
}

/// The error that a transfer ends with, where it ends with one.
pub fn transfer_error(step: &Step) -> (r: Option<StoreError>)
    ensures
        step is Done || step is Again ==> r is None,
        step is Stuck ==> (r matches Some(StoreError::Io(m)) && m@ == "short transfer"@),
        step is Failed ==> (r matches Some(StoreError::Io(m)) && m@ == "transfer failed"@),
{
    match step {
        Step::Done => None,
        Step::Again { .. } => None,
        Step::Stuck => Some(StoreError::Io("short transfer".to_string())),
        Step::Failed { .. } => Some(StoreError::Io("transfer failed".to_string())),
    }
}

} // verus!
