//! The assignment table: the one shared record of the current assignment,
//! updated only by a version-conditional write. Replicas that lose the race
//! re-read and adopt the winner's assignment.
use vstd::prelude::*;
use crate::assignments::SliceAssignments;

verus! {

/// The single durable record: the current assignment and its version, a
/// millisecond timestamp that only ever moves forward.
pub struct AssignmentTable {
    pub version: u64,
    pub current: SliceAssignments,
}

/// The version a write at wall-clock `now` commits: the clock when it moved
/// past the stored version, one past the stored version otherwise, so that
/// committed versions strictly increase.
pub open spec fn next_version(prev: u64, now: u64) -> int {
    if now > prev {
        now as int
    } else {
        prev + 1
    }
}

/// What a conditional write does: a write whose expected version matches
/// replaces the record under a strictly greater version; any other write
/// leaves the record as it is.
pub open spec fn cas_spec(t: AssignmentTable, sa: SliceAssignments, expected: u64, now: u64) -> (
    AssignmentTable,
    bool,
) {
    if expected == t.version {
        (AssignmentTable { version: next_version(t.version, now) as u64, current: sa }, true)
    } else {
        (t, false)
    }
}

impl AssignmentTable {
    pub open spec fn wf(self) -> bool {
        self.current.wf()
    }

    /// The record as it is first installed: version zero, nothing assigned.
    pub fn init() -> (r: AssignmentTable)
        ensures
            r.wf(),
            r.version == 0,
            r.current.servers@.len() == 0,
            r.current.assignments@.len() == 0,
    {
        AssignmentTable { version: 0, current: SliceAssignments::empty() }
    }

    /// The current assignment and the version token a later write must name.
    pub fn get(&self) -> (r: (&SliceAssignments, u64))
        ensures
            *r.0 == self.current,
            r.1 == self.version,
    {
        (&self.current, self.version)
    }

    /// The conditional write. It commits exactly when `expected` names the
    /// stored version, and then under a version strictly above the old one;
    /// a conflicting write changes nothing and hands the caller its own
    /// expected version back, unchanged.
    pub fn cas(&mut self, sa: SliceAssignments, expected: u64, now: u64) -> (r: (bool, u64))
        requires
            old(self).wf(),
            sa.wf(),
            old(self).version < u64::MAX,
            now < u64::MAX,
        ensures
            (*final(self), r.0) == cas_spec(*old(self), sa, expected, now),
            final(self).wf(),
            r.0 ==> r.1 == final(self).version && final(self).version > old(self).version
                && final(self).current == sa,
            !r.0 ==> r.1 == expected && *final(self) == *old(self),
    {
        if expected == self.version {
            let v = if now > self.version {
                now
            } else {
                self.version + 1
            };
            self.version = v;
            self.current = sa;
            (true, v)
        } else {
            (false, expected)
        }
    }
}

/// Two writers race from the same version: the first commits and the second
/// is refused, leaving the winner's assignment and version in place.
pub proof fn lemma_cas_race(
    t0: AssignmentTable,
    a_sa: SliceAssignments,
    b_sa: SliceAssignments,
    v0: u64,
    now_a: u64,
    now_b: u64,
)
    requires
        t0.version == v0,
        v0 < u64::MAX,
        now_a < u64::MAX,
    ensures
        ({
            let (t1, a_ok) = cas_spec(t0, a_sa, v0, now_a);
            let (t2, b_ok) = cas_spec(t1, b_sa, v0, now_b);
            &&& a_ok
            &&& !b_ok
            &&& t2 == t1
            &&& t2.current == a_sa
            &&& t2.version > v0
        }),
{
}

/// The record after a run of conditional writes, all naming `expected`, in
/// the order the store serialized them; each attempt carries its payload and
/// its clock reading.
pub open spec fn run_race(
    t: AssignmentTable,
    expected: u64,
    attempts: Seq<(SliceAssignments, u64)>,
) -> AssignmentTable
    decreases attempts.len(),
{
    if attempts.len() == 0 {
        t
    } else {
        run_race(
            cas_spec(t, attempts[0].0, expected, attempts[0].1).0,
            expected,
            attempts.drop_first(),
        )
    }
}

/// Writes that name a version the record has moved past change nothing.
proof fn lemma_run_race_fixed(
    t: AssignmentTable,
    expected: u64,
    attempts: Seq<(SliceAssignments, u64)>,
)
    requires
        t.version != expected,
    ensures
        run_race(t, expected, attempts) == t,
    decreases attempts.len(),
{
    if attempts.len() > 0 {
        lemma_run_race_fixed(t, expected, attempts.drop_first());
    }
}

/// Any number of writers race from the same read: exactly the first to reach
/// the store commits; every later attempt is refused and the record keeps
/// the winner's assignment under the winner's version.
pub proof fn lemma_cas_race_many(
    t0: AssignmentTable,
    a_sa: SliceAssignments,
    v0: u64,
    now_a: u64,
    rest: Seq<(SliceAssignments, u64)>,
)
    requires
        t0.version == v0,
        v0 < u64::MAX,
        now_a < u64::MAX,
    ensures
        ({
            let (t1, a_ok) = cas_spec(t0, a_sa, v0, now_a);
            &&& a_ok
            &&& t1.current == a_sa
            &&& t1.version > v0
            &&& run_race(t1, v0, rest) == t1
            &&& forall|k: int|
                0 <= k < rest.len() ==> !cas_spec(t1, (#[trigger] rest[k]).0, v0, rest[k].1).1
        }),
{
    let (t1, a_ok) = cas_spec(t0, a_sa, v0, now_a);
    lemma_run_race_fixed(t1, v0, rest);
}

} // verus!
