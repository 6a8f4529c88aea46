//! The request router: the user key is hashed onto a slice, and the one
//! backend owning that slice serves the request.
use vstd::prelude::*;
use std::collections::hash_map::DefaultHasher;
use std::hash::Hasher;
use vstd::std_specs::hash::DefaultHasherAdditionalSpecFns;
use crate::assignments::{SliceAssignments, NUM_SLICES};
use crate::health::Backend;

verus! {

/// Does backend `b` own slice `s`?
pub open spec fn owns(b: Backend, s: u16) -> bool {
    b.slices@.contains(s)
}

/// The slice a user key routes to: its 64-bit default hash, modulo the
/// slice count.
pub open spec fn key_slice(key: Seq<u8>) -> u16 {
    (DefaultHasher::spec_finish(seq![key]) % (NUM_SLICES as u64)) as u16
}

/// Why no upstream was returned.
#[derive(Clone, Copy, Debug, PartialEq, Eq, Structural)]
pub enum SelectError {
    /// The backend set is empty.
    NoUpstream,
    /// No backend claims the key's slice: a transient inconsistency during
    /// reconfiguration.
    SliceUnassigned,
}

/// The published backend set a router reads.
#[derive(Clone, Debug)]
pub struct SliceSelection {
    pub backends: Vec<Backend>,
}

impl SliceSelection {
    /// No slice has two owners.
    pub open spec fn wf(self) -> bool {
        forall|i: int, j: int, s: u16|
            0 <= i < self.backends@.len() && 0 <= j < self.backends@.len() && #[trigger] owns(
                self.backends@[i],
                s,
            ) && #[trigger] owns(self.backends@[j], s) ==> i == j
    }

    pub fn build(backends: Vec<Backend>) -> (r: SliceSelection)
        ensures
            r.backends == backends,
    {
        SliceSelection { backends }
    }

    /// The backend owning the key's slice: exactly the owner when one
    /// exists, `NoUpstream` on an empty set, `SliceUnassigned` when the set
    /// is non-empty but no backend claims the slice.
    pub fn select(&self, key: &[u8]) -> (r: Result<&Backend, SelectError>)
        requires
            self.wf(),
        ensures
            match r {
                Ok(b) => exists|i: int|
                    0 <= i < self.backends@.len() && *b == self.backends@[i] && owns(
                        #[trigger] self.backends@[i],
                        key_slice(key@),
                    ),
                Err(e) => if e == SelectError::NoUpstream {
                    self.backends@.len() == 0
                } else {
                    self.backends@.len() > 0 && forall|i: int|
                        0 <= i < self.backends@.len() ==> !owns(
                            #[trigger] self.backends@[i],
                            key_slice(key@),
                        )
                },
            },
            forall|i: int|
                0 <= i < self.backends@.len() && owns(#[trigger] self.backends@[i], key_slice(key@))
                    ==> r == Ok::<&Backend, SelectError>(&self.backends@[i]),
    {
        let slice = slice_of_key(key);
        if self.backends.len() == 0 {
            return Err(SelectError::NoUpstream);
        }
        let mut i: usize = 0;
        while i < self.backends.len()
            invariant
                self.wf(),
                i <= self.backends@.len(),
                forall|k: int| 0 <= k < i ==> !owns(#[trigger] self.backends@[k], slice),
                slice == key_slice(key@),
            decreases self.backends@.len() - i,
        {
            if contains_slice(&self.backends[i].slices, slice) {
                proof {
                    assert(owns(self.backends@[i as int], slice));
                    assert forall|j: int|
                        0 <= j < self.backends@.len() && owns(
                            #[trigger] self.backends@[j],
                            key_slice(key@),
                        ) implies j == i as int by {}
                }
                return Ok(&self.backends[i]);
            }
            i = i + 1;
        }
        Err(SelectError::SliceUnassigned)
    }
}

/// Hashes the key and reduces it to a slice id.
pub fn slice_of_key(key: &[u8]) -> (r: u16)
    ensures
        r == key_slice(key@),
        r < NUM_SLICES,
{
    let mut hasher = DefaultHasher::new();
    hasher.write(key);
    let h = hasher.finish();
    proof {
        assert(Seq::<Seq<u8>>::empty().push(key@) =~= seq![key@]);
    }
    (h % (NUM_SLICES as u64)) as u16
}

/// Linear membership test on a slice list.
fn contains_slice(slices: &Vec<u16>, s: u16) -> (r: bool)
    ensures
        r <==> slices@.contains(s),
{
    let mut i: usize = 0;
    while i < slices.len()
        invariant
            i <= slices@.len(),
            forall|k: int| 0 <= k < i ==> slices@[k] != s,
        decreases slices@.len() - i,
    {
        if slices[i] == s {
            return true;
        }
        i = i + 1;
    }
    proof {
        if slices@.contains(s) {
            let k = choose|k: int| 0 <= k < slices@.len() && slices@[k] == s;
            assert(false);
        }
    }
    false
}


/// Some backend of the selection owns slice `s`.
pub open spec fn covers(sel: SliceSelection, s: u16) -> bool {
    exists|i: int| 0 <= i < sel.backends@.len() && #[trigger] owns(sel.backends@[i], s)
}

/// The selection the control loop publishes for an assignment: one backend
/// per worker, owning exactly the slices the assignment gives it — so the
/// slice sets are disjoint (routing is unambiguous) and, when there are
/// workers at all, every slice has an owner (routing never finds a slice
/// unassigned).
pub fn router_for(sa: &SliceAssignments) -> (r: SliceSelection)
    requires
        sa.wf(),
    ensures
        r.wf(),
        r.backends@.len() == sa.servers@.len(),
        forall|i: int| 0 <= i < r.backends@.len() ==> (#[trigger] r.backends@[i]).addr == sa.servers@[i],
        forall|i: int, s: u16|
            0 <= i < r.backends@.len() ==> (#[trigger] owns(r.backends@[i], s) <==> (s as int)
                < sa.assignments@.len() && sa.assignments@[s as int] == i),
        sa.servers@.len() > 0 ==> forall|s: u16| s < NUM_SLICES ==> #[trigger] covers(r, s),
{
    let backends = sa.to_backends();
    proof {
        assert forall|i: int, j: int, s: u16|
            0 <= i < backends@.len() && 0 <= j < backends@.len() && #[trigger] owns(
                backends@[i],
                s,
            ) && #[trigger] owns(backends@[j], s) implies i == j by {
            assert(sa.assignments@[s as int] == i);
            assert(sa.assignments@[s as int] == j);
        }
        if sa.servers@.len() > 0 {
            assert forall|s: u16| #![trigger sa.assignments@[s as int]]
                s < NUM_SLICES implies exists|i: int|
                0 <= i < backends@.len() && #[trigger] owns(backends@[i], s) by {
                let i = sa.assignments@[s as int] as int;
                assert(owns(backends@[i], s));
            }
        }
    }
    let ghost bv = backends@;
    let sel = SliceSelection::build(backends);
    proof {
        assert forall|i: int, s: u16| 0 <= i < sel.backends@.len() implies (#[trigger] owns(
            sel.backends@[i],
            s,
        ) <==> (s as int) < sa.assignments@.len() && sa.assignments@[s as int] == i) by {
            assert(sel.backends@ == bv);
            assert(owns(bv[i], s) <==> (s as int) < sa.assignments@.len()
                && sa.assignments@[s as int] == i);
        }
        if sa.servers@.len() > 0 {
            assert forall|s: u16| s < NUM_SLICES implies #[trigger] covers(sel, s) by {
                let i = sa.assignments@[s as int] as int;
                assert(sel.backends@ == bv);
                assert(owns(sel.backends@[i], s));
            }
        }
    }
    sel
}

} // verus!
