//! The slice-to-worker assignment: built over a consistent-hash ring, updated
//! with minimal disturbance when the worker set changes, and projected into
//! the backend view.
use vstd::prelude::*;
use crate::addr::{WorkerAddr, Discovered, addr_bytes, addr_key_u64, addr_lt, format_addr, index_of,
    lemma_addr_bytes_injective, lemma_strictly_sorted_distinct, lemma_strictly_sorted_equal,
    sort_unique_v4, strictly_sorted};
use crate::health::{Backend, HealthStatus, fresh_health};
use crate::balance::{Move, find_best_moves, planned_moves, loads_of, stats_of, sum_of};

verus! {

/// How many logical slices the user-key space is split into.
pub const NUM_SLICES: u16 = 100;

/// The worker that the consistent-hash ring over `servers` picks for `key`.
/// The ring is the one `pingora_ketama` builds from one unit-weight bucket
/// per address, in list order; for a fixed list and key the pick is fixed.
pub uninterp spec fn ketama_pick(servers: Seq<WorkerAddr>, key: u8) -> WorkerAddr;

/// Relies on `pingora_ketama::{Bucket::new, Continuum::new, Continuum::node}`:
/// `node` returns the address of one of the ring's buckets (the ring is
/// non-empty here), chosen as a pure function of the bucket list and the key;
/// and on the round trip between a socket address and its canonical
/// `a.b.c.d:port` text.
#[verifier::external_body]
fn ketama_lookup(servers: &Vec<WorkerAddr>, key: u8) -> (r: Vec<u8>)
    requires
        servers@.len() > 0,
    ensures
        r@ == addr_bytes(ketama_pick(servers@, key)),
        r@ == addr_bytes(ketama_pick(servers@, key)) ==> servers@.contains(
            ketama_pick(servers@, key),
        ),
{
    let buckets: Vec<pingora_ketama::Bucket> = servers.iter().map(
        |s: &WorkerAddr| pingora_ketama::Bucket::new(
            format!("{}.{}.{}.{}:{}", s.a, s.b, s.c, s.d, s.port).parse().unwrap(),
            1,
        ),
    ).collect();
    let ring = pingora_ketama::Continuum::new(&buckets);
    ring.node(&[key]).unwrap().to_string().into_bytes()
}

/// Byte-for-byte equality of two byte vectors.
fn eq_bytes(x: &Vec<u8>, y: &Vec<u8>) -> (r: bool)
    ensures
        r <==> x@ == y@,
{
    if x.len() != y.len() {
        return false;
    }
    let mut i: usize = 0;
    while i < x.len()
        invariant
            i <= x@.len(),
            x@.len() == y@.len(),
            forall|k: int| 0 <= k < i ==> x@[k] == y@[k],
        decreases x@.len() - i,
    {
        if x[i] != y[i] {
            return false;
        }
        i = i + 1;
    }
    proof {
        assert(x@ =~= y@);
    }
    true
}

/// The index of the worker the ring picks for `key`.
fn owner_index(servers: &Vec<WorkerAddr>, key: u8) -> (r: usize)
    requires
        servers@.len() > 0,
        strictly_sorted(servers@),
    ensures
        r < servers@.len(),
        servers@[r as int] == ketama_pick(servers@, key),
{
    let text = ketama_lookup(servers, key);
    let ghost pick = ketama_pick(servers@, key);
    let mut j: usize = 0;
    while j < servers.len()
        invariant
            j <= servers@.len(),
            forall|k: int| 0 <= k < j ==> addr_bytes(#[trigger] servers@[k]) != text@,
            text@ == addr_bytes(pick),
            pick == ketama_pick(servers@, key),
            servers@.contains(pick),
        decreases servers@.len() - j,
    {
        let mine = format_addr(&servers[j]);
        if eq_bytes(&mine, &text) {
            proof {
                lemma_addr_bytes_injective(servers@[j as int], pick);
            }
            return j;
        }
        j = j + 1;
    }
    proof {
        let i = choose|i: int| 0 <= i < servers@.len() && servers@[i] == pick;
        assert(addr_bytes(servers@[i]) != text@);
        assert(false);
    }
    0
}

/// Why an assignment could not be built or changed.
#[derive(Clone, Copy, Debug, PartialEq, Eq, Structural)]
pub enum SliceError {
    /// No discovered worker has an IPv4 address, so the ring would be empty.
    NoEligibleWorkers,
    /// A move names a worker outside the current server list.
    UnknownServer,
    /// A move names a slice outside the slice range.
    InvalidSlice,
    /// A stored record does not describe a valid assignment.
    InvalidRecord,
}

/// The slice-to-worker map: the sorted worker list, and for every slice the
/// index of its owner.
#[derive(Clone, Debug)]
#[verifier::ext_equal]
pub struct SliceAssignments {
    pub servers: Vec<WorkerAddr>,
    pub assignments: Vec<usize>,
}

impl SliceAssignments {
    /// Servers ascending without duplicates; one owner per slice when there
    /// are servers, no entries at all when there are none.
    pub open spec fn wf(self) -> bool {
        &&& strictly_sorted(self.servers@)
        &&& (self.servers@.len() == 0 ==> self.assignments@.len() == 0)
        &&& (self.servers@.len() > 0 ==> self.assignments@.len() == NUM_SLICES as int)
        &&& forall|s: int|
            0 <= s < self.assignments@.len() ==> (#[trigger] self.assignments@[s])
                < self.servers@.len()
    }

    /// The address that owns slice `s`.
    pub open spec fn owner_of(self, s: int) -> WorkerAddr {
        self.servers@[self.assignments@[s] as int]
    }

    /// Do these parts make a valid assignment?
    pub open spec fn parts_wf(servers: Seq<WorkerAddr>, assignments: Seq<usize>) -> bool {
        &&& strictly_sorted(servers)
        &&& (servers.len() == 0 ==> assignments.len() == 0)
        &&& (servers.len() > 0 ==> assignments.len() == NUM_SLICES as int)
        &&& forall|s: int| 0 <= s < assignments.len() ==> (#[trigger] assignments[s]) < servers.len()
    }

    /// Adopts a stored record's parts, after checking that they describe a
    /// valid assignment; anything else is refused.
    pub fn from_parts(servers: Vec<WorkerAddr>, assignments: Vec<usize>) -> (r: Result<
        SliceAssignments,
        SliceError,
    >)
        ensures
            r is Ok <==> Self::parts_wf(servers@, assignments@),
            match r {
                Ok(sa) => sa.wf() && sa.servers@ == servers@ && sa.assignments@ == assignments@,
                Err(e) => e == SliceError::InvalidRecord,
            },
    {
        if servers.len() == 0 {
            if assignments.len() != 0 {
                return Err(SliceError::InvalidRecord);
            }
            return Ok(SliceAssignments { servers, assignments });
        }
        if assignments.len() != NUM_SLICES as usize {
            return Err(SliceError::InvalidRecord);
        }
        let mut i: usize = 0;
        while i < servers.len() - 1
            invariant
                i < servers@.len(),
                servers@.len() > 0,
                forall|p: int, q: int|
                    0 <= p < q <= i ==> addr_lt(#[trigger] servers@[p], #[trigger] servers@[q]),
            decreases servers@.len() - 1 - i,
        {
            if addr_key_u64(&servers[i]) >= addr_key_u64(&servers[i + 1]) {
                return Err(SliceError::InvalidRecord);
            }
            proof {
                assert forall|p: int, q: int| 0 <= p < q <= i + 1 implies addr_lt(
                    #[trigger] servers@[p],
                    #[trigger] servers@[q],
                ) by {
                    if q == i + 1 && p < i {
                        assert(addr_lt(servers@[p], servers@[i as int]));
                    }
                }
            }
            i = i + 1;
        }
        let mut s: usize = 0;
        while s < assignments.len()
            invariant
                s <= assignments@.len(),
                forall|k: int| 0 <= k < s ==> (#[trigger] assignments@[k]) < servers@.len(),
            decreases assignments@.len() - s,
        {
            if assignments[s] >= servers.len() {
                return Err(SliceError::InvalidRecord);
            }
            s = s + 1;
        }
        Ok(SliceAssignments { servers, assignments })
    }

    /// The empty assignment, before any worker was discovered.
    pub fn empty() -> (r: SliceAssignments)
        ensures
            r.wf(),
            r.servers@.len() == 0,
            r.assignments@.len() == 0,
    {
        SliceAssignments { servers: Vec::new(), assignments: Vec::new() }
    }

    /// Builds the assignment for a discovered worker list: IPv4 workers are
    /// kept, sorted and deduplicated, and every slice is given to the worker
    /// the ring picks for its id. An input with workers but no IPv4 worker
    /// is rejected; an empty input yields the empty assignment.
    pub fn new(discovered: Vec<Discovered>) -> (r: Result<SliceAssignments, SliceError>)
        ensures
            r is Ok <==> (discovered@.len() == 0 || exists|w: WorkerAddr|
                discovered@.contains(Discovered::V4(w))),
            match r {
                Ok(sa) => {
                    &&& sa.wf()
                    &&& (forall|w: WorkerAddr|
                        sa.servers@.contains(w) <==> discovered@.contains(Discovered::V4(w)))
                    &&& (forall|s: int|
                        0 <= s < sa.assignments@.len() ==> sa.owner_of(s) == ketama_pick(
                            sa.servers@,
                            s as u8,
                        ))
                },
                Err(e) => e == SliceError::NoEligibleWorkers,
            },
    {
        let v4 = sort_unique_v4(&discovered);
        if v4.len() == 0 {
            if discovered.len() == 0 {
                Ok(SliceAssignments::empty())
            } else {
                proof {
                    if exists|w: WorkerAddr| discovered@.contains(Discovered::V4(w)) {
                        let w = choose|w: WorkerAddr| discovered@.contains(Discovered::V4(w));
                        assert(v4@.contains(w));
                    }
                }
                Err(SliceError::NoEligibleWorkers)
            }
        } else {
            let mut assignments: Vec<usize> = Vec::new();
            let n: usize = NUM_SLICES as usize;
            let mut s: usize = 0;
            while s < n
                invariant
                    n == NUM_SLICES as int,
                    s <= n,
                    v4@.len() > 0,
                    strictly_sorted(v4@),
                    assignments@.len() == s,
                    forall|k: int|
                        0 <= k < s ==> (#[trigger] assignments@[k]) < v4@.len() && v4@[
                            assignments@[k] as int] == ketama_pick(v4@, k as u8),
                decreases n - s,
            {
                let idx = owner_index(&v4, s as u8);
                assignments.push(idx);
                s = s + 1;
            }
            proof {
                assert(v4@.contains(v4@[0]));
                assert(discovered@.contains(Discovered::V4(v4@[0])));
            }
            Ok(SliceAssignments { servers: v4, assignments })
        }
    }

    /// Reworks the assignment for a changed worker list. A slice whose owner
    /// survives keeps it (only the owner's index is rewritten); a slice
    /// orphaned by a removed worker goes to the worker the new ring picks for
    /// its id. A list without any IPv4 worker is rejected unchanged.
    pub fn update(&mut self, discovered: Vec<Discovered>) -> (r: Result<(), SliceError>)
        requires
            old(self).wf(),
            old(self).servers@.len() > 0,
        ensures
            r is Ok <==> exists|w: WorkerAddr| discovered@.contains(Discovered::V4(w)),
            match r {
                Ok(()) => {
                    &&& final(self).wf()
                    &&& (forall|w: WorkerAddr|
                        final(self).servers@.contains(w) <==> discovered@.contains(
                            Discovered::V4(w),
                        ))
                    &&& final(self).servers@.len() > 0
                    &&& final(self).assignments@.len() == NUM_SLICES as int
                    &&& (forall|s: int|
                        0 <= s < NUM_SLICES as int ==> {
                            if final(self).servers@.contains(old(self).owner_of(s)) {
                                final(self).owner_of(s) == old(self).owner_of(s)
                            } else {
                                final(self).owner_of(s) == ketama_pick(
                                    final(self).servers@,
                                    s as u8,
                                )
                            }
                        })
                },
                Err(e) => e == SliceError::NoEligibleWorkers && *final(self) == *old(self),
            },
    {
        let v4 = sort_unique_v4(&discovered);
        if v4.len() == 0 {
            proof {
                if exists|w: WorkerAddr| discovered@.contains(Discovered::V4(w)) {
                    let w = choose|w: WorkerAddr| discovered@.contains(Discovered::V4(w));
                    assert(v4@.contains(w));
                }
            }
            return Err(SliceError::NoEligibleWorkers);
        }
        let mut newa: Vec<usize> = Vec::new();
        let n: usize = NUM_SLICES as usize;
        let mut s: usize = 0;
        while s < n
            invariant
                n == NUM_SLICES as int,
                s <= n,
                v4@.len() > 0,
                strictly_sorted(v4@),
                *self == *old(self),
                self.wf(),
                self.servers@.len() > 0,
                self.assignments@.len() == NUM_SLICES as int,
                newa@.len() == s,
                forall|k: int|
                    0 <= k < s ==> (#[trigger] newa@[k]) < v4@.len() && (if v4@.contains(
                        old(self).owner_of(k),
                    ) {
                        v4@[newa@[k] as int] == old(self).owner_of(k)
                    } else {
                        v4@[newa@[k] as int] == ketama_pick(v4@, k as u8)
                    }),
            decreases n - s,
        {
            let old_idx = self.assignments[s];
            let old_owner = self.servers[old_idx];
            match index_of(&v4, &old_owner) {
                Some(j) => {
                    newa.push(j);
                    proof {
                        assert(v4@.contains(old(self).owner_of(s as int)));
                    }
                },
                None => {
                    let j = owner_index(&v4, s as u8);
                    newa.push(j);
                },
            }
            s = s + 1;
        }
        proof {
            assert(v4@.contains(v4@[0]));
            assert(discovered@.contains(Discovered::V4(v4@[0])));
        }
        self.servers = v4;
        self.assignments = newa;
        Ok(())
    }

    /// One backend per worker, in server order, each holding exactly the
    /// slices assigned to it and a fresh health record.
    pub fn to_backends(&self) -> (r: Vec<Backend>)
        requires
            self.wf(),
        ensures
            r@.len() == self.servers@.len(),
            forall|i: int| 0 <= i < r@.len() ==> (#[trigger] r@[i]).addr == self.servers@[i],
            forall|i: int| 0 <= i < r@.len() ==> fresh_health((#[trigger] r@[i]).health),
            forall|i: int, s: u16|
                0 <= i < r@.len() ==> ((#[trigger] r@[i].slices@.contains(s)) <==> s
                    < self.assignments@.len() && self.assignments@[s as int] == i),
    {
        broadcast use vstd::seq_lib::lemma_seq_contains_after_push;

        let mut out: Vec<Backend> = Vec::new();
        let mut i: usize = 0;
        while i < self.servers.len()
            invariant
                self.wf(),
                i <= self.servers@.len(),
                out@.len() == i,
                forall|k: int| 0 <= k < i ==> (#[trigger] out@[k]).addr == self.servers@[k],
                forall|k: int| 0 <= k < i ==> fresh_health((#[trigger] out@[k]).health),
                forall|k: int, s: u16|
                    0 <= k < i ==> ((#[trigger] out@[k].slices@.contains(s)) <==> s
                        < self.assignments@.len() && self.assignments@[s as int] == k),
            decreases self.servers@.len() - i,
        {
            let mut slices: Vec<u16> = Vec::new();
            let mut s: usize = 0;
            while s < self.assignments.len()
                invariant
                    self.wf(),
                    i < self.servers@.len(),
                    s <= self.assignments@.len(),
                    self.assignments@.len() <= NUM_SLICES as int,
                    forall|t: u16|
                        slices@.contains(t) <==> (t < s && self.assignments@[t as int] == i
                            as int),
                decreases self.assignments@.len() - s,
            {
                let ghost pre = slices@;
                if self.assignments[s] == i {
                    slices.push(s as u16);
                }
                proof {
                    assert forall|t: u16|
                        slices@.contains(t) <==> (t < s + 1 && self.assignments@[t as int] == i
                            as int) by {
                        if self.assignments@[s as int] == i as int {
                            vstd::seq_lib::lemma_seq_contains_after_push(pre, s as u16, t);
                        }
                    }
                }
                s = s + 1;
            }
            out.push(Backend { addr: self.servers[i], slices, health: HealthStatus::new() });
            i = i + 1;
        }
        out
    }

    /// The unique position of `w` in the sorted server list.
    pub open spec fn index_in(servers: Seq<WorkerAddr>, w: WorkerAddr) -> int {
        choose|i: int| 0 <= i < servers.len() && servers[i] == w
    }

    /// A move list the assignment can take: every target is a known server
    /// and every slice id is in range.
    pub open spec fn moves_valid(self, moves: Seq<Move>) -> bool {
        forall|k: int|
            0 <= k < moves.len() ==> self.servers@.contains((#[trigger] moves[k]).to_server)
                && (moves[k].slice_id as int) < self.assignments@.len()
    }

    /// The assignment vector after taking the moves in order.
    pub open spec fn apply_moves_spec(
        a: Seq<usize>,
        servers: Seq<WorkerAddr>,
        moves: Seq<Move>,
    ) -> Seq<usize>
        decreases moves.len(),
    {
        if moves.len() == 0 {
            a
        } else {
            Self::apply_moves_spec(a, servers, moves.drop_last()).update(
                moves.last().slice_id as int,
                Self::index_in(servers, moves.last().to_server) as usize,
            )
        }
    }

    /// Takes the moves, in order: each slice named goes to its target's
    /// index. A move naming an unknown target or an out-of-range slice
    /// rejects the whole list, leaving the assignment untouched.
    pub fn apply_moves(&mut self, moves: &Vec<Move>) -> (r: Result<(), SliceError>)
        requires
            old(self).wf(),
        ensures
            r is Ok <==> old(self).moves_valid(moves@),
            match r {
                Ok(()) => {
                    &&& final(self).wf()
                    &&& final(self).servers@ == old(self).servers@
                    &&& final(self).assignments@ == SliceAssignments::apply_moves_spec(
                        old(self).assignments@,
                        old(self).servers@,
                        moves@,
                    )
                },
                Err(e) => (e == SliceError::UnknownServer || e == SliceError::InvalidSlice)
                    && *final(self) == *old(self),
            },
    {
        let mut k: usize = 0;
        while k < moves.len()
            invariant
                k <= moves@.len(),
                self.wf(),
                *self == *old(self),
                forall|j: int|
                    0 <= j < k ==> self.servers@.contains((#[trigger] moves@[j]).to_server) && (
                    moves@[j].slice_id as int) < self.assignments@.len(),
            decreases moves@.len() - k,
        {
            if (moves[k].slice_id as usize) >= self.assignments.len() {
                return Err(SliceError::InvalidSlice);
            }
            match index_of(&self.servers, &moves[k].to_server) {
                Some(_) => {},
                None => {
                    return Err(SliceError::UnknownServer);
                },
            }
            k = k + 1;
        }
        let ghost orig = self.assignments@;
        let mut k: usize = 0;
        while k < moves.len()
            invariant
                k <= moves@.len(),
                self.servers@ == old(self).servers@,
                strictly_sorted(self.servers@),
                old(self).moves_valid(moves@),
                self.assignments@ == SliceAssignments::apply_moves_spec(
                    orig,
                    self.servers@,
                    moves@.take(k as int),
                ),
                self.assignments@.len() == orig.len(),
                orig == old(self).assignments@,
                old(self).wf(),
                forall|s: int|
                    0 <= s < self.assignments@.len() ==> (#[trigger] self.assignments@[s])
                        < self.servers@.len(),
            decreases moves@.len() - k,
        {
            let slice = moves[k].slice_id as usize;
            let idx = match index_of(&self.servers, &moves[k].to_server) {
                Some(i) => i,
                None => {
                    proof {
                        assert(self.servers@.contains(moves@[k as int].to_server));
                        assert(false);
                    }
                    0
                },
            };
            self.assignments.set(slice, idx);
            proof {
                let mv = moves@[k as int];
                let ji = SliceAssignments::index_in(self.servers@, mv.to_server);
                assert(self.servers@.contains(mv.to_server));
                assert(0 <= ji < self.servers@.len() && self.servers@[ji] == mv.to_server);
                lemma_strictly_sorted_distinct(self.servers@, ji, idx as int);
                assert(moves@.take(k + 1 as int).drop_last() =~= moves@.take(k as int));
                assert(moves@.take(k + 1 as int).last() == mv);
            }
            k = k + 1;
        }
        proof {
            assert(moves@.take(moves@.len() as int) =~= moves@);
        }
        Ok(())
    }

    /// Plans moves over the given backend view and takes them. The planned
    /// moves are returned; a plan naming a server this assignment does not
    /// know is rejected without change.
    pub fn move_load(&mut self, backends: &Vec<Backend>) -> (r: Result<Vec<Move>, SliceError>)
        requires
            old(self).wf(),
            sum_of(loads_of(stats_of(backends@))) <= u32::MAX,
        ensures
            r is Ok <==> old(self).moves_valid(planned_moves(backends@)),
            match r {
                Ok(m) => {
                    &&& m@ == planned_moves(backends@)
                    &&& final(self).wf()
                    &&& final(self).servers@ == old(self).servers@
                    &&& final(self).assignments@ == SliceAssignments::apply_moves_spec(
                        old(self).assignments@,
                        old(self).servers@,
                        m@,
                    )
                },
                Err(e) => (e == SliceError::UnknownServer || e == SliceError::InvalidSlice)
                    && *final(self) == *old(self),
            },
    {
        let moves = find_best_moves(backends);
        match self.apply_moves(&moves) {
            Ok(()) => Ok(moves),
            Err(e) => Err(e),
        }
    }
}

/// Building is a pure function of the discovered worker set: two builds over
/// lists with the same IPv4 members (in any order, with any duplicates, and
/// both empty or both not) agree on servers and assignments alike.
pub proof fn lemma_new_deterministic(
    d1: Seq<Discovered>,
    d2: Seq<Discovered>,
    r1: SliceAssignments,
    r2: SliceAssignments,
)
    requires
        r1.wf(),
        r2.wf(),
        forall|w: WorkerAddr| r1.servers@.contains(w) <==> d1.contains(Discovered::V4(w)),
        forall|w: WorkerAddr| r2.servers@.contains(w) <==> d2.contains(Discovered::V4(w)),
        forall|s: int|
            0 <= s < r1.assignments@.len() ==> r1.owner_of(s) == ketama_pick(r1.servers@, s as u8),
        forall|s: int|
            0 <= s < r2.assignments@.len() ==> r2.owner_of(s) == ketama_pick(r2.servers@, s as u8),
        forall|w: WorkerAddr| d1.contains(Discovered::V4(w)) <==> d2.contains(Discovered::V4(w)),
    ensures
        r1.servers@ == r2.servers@,
        r1.assignments@ == r2.assignments@,
{
    assert forall|w: WorkerAddr| r1.servers@.contains(w) <==> r2.servers@.contains(w) by {}
    lemma_strictly_sorted_equal(r1.servers@, r2.servers@);
    assert(r1.assignments@.len() == r2.assignments@.len());
    assert forall|s: int| 0 <= s < r1.assignments@.len() implies r1.assignments@[s]
        == r2.assignments@[s] by {
        assert(r1.owner_of(s) == ketama_pick(r1.servers@, s as u8));
        assert(r2.owner_of(s) == ketama_pick(r2.servers@, s as u8));
        lemma_strictly_sorted_distinct(
            r1.servers@,
            r1.assignments@[s] as int,
            r2.assignments@[s] as int,
        );
    }
    assert(r1.assignments@ =~= r2.assignments@);
}

} // verus!
