//! Session dispatch: the exact sequence of flasher steps a driver performs
//! for a planned read, one programming session per group, strictly one after
//! the other.
//!
//! A step sequence, not the hardware work itself, is what this module owns:
//! the driver executes the steps in order against the probe, aborting on the
//! first failure. Every read targets the caller's absolute address for the
//! whole call, whichever group is being serviced; with several groups the
//! same address is therefore read once per group. That redundancy is kept
//! deliberately: narrowing each session's read to the regions its group owns
//! would change observable behaviour and is left as an open question for the
//! owners of the dispatch contract.

use vstd::prelude::*;
use crate::plan::ReadPlan;

verus! {

/// One step of a read dispatch. `group` indexes into the plan's group list.
#[derive(Clone, Copy, PartialEq, Eq, Structural, Debug)]
pub enum FlasherStep {
    /// Construct the flasher bound to the group's core and algorithm: opens
    /// the programming session.
    Open { group: usize },
    /// Inside the open session, run the scoped verify operation that reads
    /// the caller's whole byte range at `address`.
    ReadVerify { address: u64 },
    /// Release the flasher: closes the programming session. Performed on
    /// both success and failure paths.
    Close { group: usize },
}

/// The step sequence for `n` groups: for each group in order, open its
/// session, run the verified read, close the session.
pub open spec fn read_trace(n: int, address: u64) -> Seq<FlasherStep>
    decreases n,
{
    if n <= 0 {
        Seq::empty()
    } else {
        read_trace(n - 1, address) + seq![
            FlasherStep::Open { group: (n - 1) as usize },
            FlasherStep::ReadVerify { address },
            FlasherStep::Close { group: (n - 1) as usize },
        ]
    }
}

/// The trace of `n` groups has three steps per group: open, read, close, in
/// group order.
pub proof fn lemma_trace_shape(n: int, address: u64)
    requires
        0 <= n <= usize::MAX,
    ensures
        read_trace(n, address).len() == 3 * n,
        forall|q: int|
            0 <= q < n ==> #[trigger] read_trace(n, address)[3 * q] == (FlasherStep::Open {
                group: q as usize,
            }),
        forall|q: int|
            0 <= q < n ==> #[trigger] read_trace(n, address)[3 * q + 1]
                == (FlasherStep::ReadVerify { address }),
        forall|q: int|
            0 <= q < n ==> #[trigger] read_trace(n, address)[3 * q + 2] == (FlasherStep::Close {
                group: q as usize,
            }),
    decreases n,
{
    if n > 0 {
        lemma_trace_shape(n - 1, address);
        let whole = read_trace(n, address);
        let rest = read_trace(n - 1, address);
        assert forall|q: int| 0 <= q < n implies #[trigger] whole[3 * q] == (FlasherStep::Open {
            group: q as usize,
        }) && whole[3 * q + 1] == (FlasherStep::ReadVerify { address }) && whole[3 * q + 2]
            == (FlasherStep::Close { group: q as usize }) by {
            if q < n - 1 {
                assert(whole[3 * q] == rest[3 * q]);
                assert(whole[3 * q + 1] == rest[3 * q + 1]);
                assert(whole[3 * q + 2] == rest[3 * q + 2]);
            }
        }
    }
}

/// Sequential exclusivity: in a read trace, no two sessions are ever open at
/// once — between any two session opens stands a session close.
pub proof fn lemma_sequential_exclusivity(n: int, address: u64, i: int, j: int)
    requires
        0 <= n <= usize::MAX,
        0 <= i < j < read_trace(n, address).len(),
        read_trace(n, address)[i] is Open,
        read_trace(n, address)[j] is Open,
    ensures
        exists|m: int|
            i < m < j && #[trigger] read_trace(n, address)[m] is Close,
{
    lemma_trace_shape(n, address);
    let trace = read_trace(n, address);
    let qi = i / 3;
    let ri = i % 3;
    let qj = j / 3;
    let rj = j % 3;
    assert(i == 3 * qi + ri && 0 <= ri < 3);
    assert(j == 3 * qj + rj && 0 <= rj < 3);
    assert(0 <= qi < n);
    assert(0 <= qj < n);
    if ri == 1 {
        assert(trace[3 * qi + 1] == (FlasherStep::ReadVerify { address }));
        assert(false);
    }
    if ri == 2 {
        assert(trace[3 * qi + 2] == (FlasherStep::Close { group: qi as usize }));
        assert(false);
    }
    if rj == 1 {
        assert(trace[3 * qj + 1] == (FlasherStep::ReadVerify { address }));
        assert(false);
    }
    if rj == 2 {
        assert(trace[3 * qj + 2] == (FlasherStep::Close { group: qj as usize }));
        assert(false);
    }
    let m = 3 * qi + 2;
    assert(trace[m] == (FlasherStep::Close { group: qi as usize }));
    assert(qi < qj);
    assert(i < m < j);
}

/// Lays out the steps a driver performs for `plan`: one session per group,
/// opened, used for one verified read at the caller's address, and closed,
/// strictly in turn.
pub fn dispatch_steps(plan: &ReadPlan, address: u64) -> (steps: Vec<FlasherStep>)
    ensures
        steps@ == read_trace(plan@.len() as int, address),
{
    let n = plan.groups.len();
    let mut steps: Vec<FlasherStep> = Vec::new();
    let mut g: usize = 0;
    while g < n
        invariant
            g <= n,
            n == plan@.len(),
            steps@ == read_trace(g as int, address),
        decreases n - g,
    {
        steps.push(FlasherStep::Open { group: g });
        steps.push(FlasherStep::ReadVerify { address });
        steps.push(FlasherStep::Close { group: g });
        proof {
            assert(steps@ =~= read_trace(g as int, address) + seq![
                FlasherStep::Open { group: g },
                FlasherStep::ReadVerify { address },
                FlasherStep::Close { group: g },
            ]);
            assert(steps@ =~= read_trace(g + 1 as int, address));
        }
        g = g + 1;
    }
    steps
}

} // verus!
