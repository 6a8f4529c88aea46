//! The discoverer's decision: how a freshly resolved worker list and the
//! assignment read from the table combine into the assignment to propose.
use vstd::prelude::*;
use crate::addr::{Discovered, WorkerAddr};
use crate::assignments::{SliceAssignments, SliceError, ketama_pick};

verus! {

impl SliceAssignments {
    /// A field-for-field copy.
    pub fn duplicate(&self) -> (r: SliceAssignments)
        ensures
            r.servers@ == self.servers@,
            r.assignments@ == self.assignments@,
    {
        let mut servers: Vec<WorkerAddr> = Vec::new();
        let mut i: usize = 0;
        while i < self.servers.len()
            invariant
                i <= self.servers@.len(),
                servers@ == self.servers@.take(i as int),
            decreases self.servers@.len() - i,
        {
            servers.push(self.servers[i]);
            proof {
                assert(servers@ =~= self.servers@.take(i + 1 as int));
            }
            i = i + 1;
        }
        let mut assignments: Vec<usize> = Vec::new();
        let mut j: usize = 0;
        while j < self.assignments.len()
            invariant
                j <= self.assignments@.len(),
                assignments@ == self.assignments@.take(j as int),
            decreases self.assignments@.len() - j,
        {
            assignments.push(self.assignments[j]);
            proof {
                assert(assignments@ =~= self.assignments@.take(j + 1 as int));
            }
            j = j + 1;
        }
        proof {
            assert(self.servers@.take(self.servers@.len() as int) =~= self.servers@);
            assert(self.assignments@.take(self.assignments@.len() as int) =~= self.assignments@);
        }
        SliceAssignments { servers, assignments }
    }
}

/// What one discovery round proposes: a fresh build when the table holds no
/// workers yet, otherwise the current assignment reworked for the new list.
/// The current assignment is never touched; a list without IPv4 workers is
/// refused (and the round treated as a discovery failure by the caller).
pub fn plan_update(current: &SliceAssignments, discovered: Vec<Discovered>) -> (r: Result<
    SliceAssignments,
    SliceError,
>)
    requires
        current.wf(),
    ensures
        match r {
            Ok(sa) => {
                &&& sa.wf()
                &&& (forall|w: WorkerAddr|
                    sa.servers@.contains(w) <==> discovered@.contains(Discovered::V4(w)))
                &&& (current.servers@.len() == 0 ==> forall|s: int|
                    0 <= s < sa.assignments@.len() ==> sa.owner_of(s) == ketama_pick(
                        sa.servers@,
                        s as u8,
                    ))
                &&& (current.servers@.len() > 0 ==> sa.servers@.len() > 0
                    && sa.assignments@.len() == current.assignments@.len() && (forall|s: int|
                    0 <= s < sa.assignments@.len() ==> {
                        if sa.servers@.contains(current.owner_of(s)) {
                            sa.owner_of(s) == current.owner_of(s)
                        } else {
                            sa.owner_of(s) == ketama_pick(sa.servers@, s as u8)
                        }
                    }))
            },
            Err(e) => e == SliceError::NoEligibleWorkers,
        },
        r is Ok <==> ((current.servers@.len() == 0 && discovered@.len() == 0) || exists|w:
            WorkerAddr|
            discovered@.contains(Discovered::V4(w))),
{
    if current.servers.len() == 0 {
        SliceAssignments::new(discovered)
    } else {
        let mut next = current.duplicate();
        match next.update(discovered) {
            Ok(()) => Ok(next),
            Err(e) => Err(e),
        }
    }
}

} // verus!
