//! Per-worker health and telemetry: the load report a worker serves, the
//! health record the prober maintains, and the backend view the router and
//! rebalancer read.
use vstd::prelude::*;
use crate::addr::WorkerAddr;

verus! {

/// The load of one slice, as the worker reports it.
#[derive(Clone, Copy, Debug, PartialEq, Eq, Structural)]
pub struct SliceUsage {
    pub load: u32,
}

/// A worker's load report: one entry per slice it carries, slice ids
/// strictly ascending.
#[derive(Clone, Debug)]
pub struct Usage {
    pub slices: Vec<(u16, SliceUsage)>,
}

impl Usage {
    /// Entries keyed by strictly ascending slice id.
    pub open spec fn wf(self) -> bool {
        forall|i: int, j: int|
            0 <= i < j < self.slices@.len() ==> (#[trigger] self.slices@[i]).0 < (
            #[trigger] self.slices@[j]).0
    }
}

/// The sum of the loads of `s`.
pub open spec fn sum_loads(s: Seq<(u16, SliceUsage)>) -> int
    decreases s.len(),
{
    if s.len() == 0 {
        0
    } else {
        sum_loads(s.drop_last()) + s.last().1.load
    }
}

pub proof fn lemma_sum_loads_nonneg(s: Seq<(u16, SliceUsage)>)
    ensures
        sum_loads(s) >= 0,
    decreases s.len(),
{
    if s.len() > 0 {
        lemma_sum_loads_nonneg(s.drop_last());
    }
}

/// Every load is at most the sum of all of them.
pub proof fn lemma_sum_loads_bound(s: Seq<(u16, SliceUsage)>, i: int)
    requires
        0 <= i < s.len(),
    ensures
        s[i].1.load <= sum_loads(s),
    decreases s.len(),
{
    lemma_sum_loads_nonneg(s.drop_last());
    if i < s.len() - 1 {
        lemma_sum_loads_bound(s.drop_last(), i);
    }
}

/// Inserts one report entry, keeping slice ids strictly ascending.
fn insert_pair(v: &mut Vec<(u16, SliceUsage)>, id: u16, load: u32)
    requires
        forall|i: int, j: int|
            0 <= i < j < old(v)@.len() ==> (#[trigger] old(v)@[i]).0 < (#[trigger] old(v)@[j]).0,
        forall|i: int| 0 <= i < old(v)@.len() ==> (#[trigger] old(v)@[i]).0 != id,
    ensures
        forall|i: int, j: int|
            0 <= i < j < final(v)@.len() ==> (#[trigger] final(v)@[i]).0 < (
            #[trigger] final(v)@[j]).0,
        forall|p: (u16, SliceUsage)|
            final(v)@.contains(p) <==> (old(v)@.contains(p) || p == (id, SliceUsage { load })),
{
    let mut i: usize = 0;
    while i < v.len() && v[i].0 < id
        invariant
            i <= v@.len(),
            v@ == old(v)@,
            forall|k: int| 0 <= k < i ==> (#[trigger] v@[k]).0 < id,
            forall|p: int, q: int|
                0 <= p < q < v@.len() ==> (#[trigger] v@[p]).0 < (#[trigger] v@[q]).0,
        decreases v@.len() - i,
    {
        i = i + 1;
    }
    v.insert(i, (id, SliceUsage { load }));
    proof {
        let pre = old(v)@;
        assert forall|k: int| i <= k < pre.len() implies (#[trigger] pre[k]).0 > id by {
            if k > i {
                assert(pre[i as int].0 < pre[k].0);
            }
        }
        assert forall|p: int, q: int| 0 <= p < q < v@.len() implies (#[trigger] v@[p]).0 < (
        #[trigger] v@[q]).0 by {
            if p != i && p > i {
                assert(pre[p - 1] == v@[p]);
            } else if p != i {
                assert(pre[p] == v@[p]);
            }
            if q != i && q > i {
                assert(pre[q - 1] == v@[q]);
            } else if q != i {
                assert(pre[q] == v@[q]);
            }
        }
        assert forall|p: (u16, SliceUsage)|
            v@.contains(p) <==> (pre.contains(p) || p == (id, SliceUsage { load })) by {
            if v@.contains(p) {
                let k = choose|k: int| 0 <= k < v@.len() && v@[k] == p;
                if k < i {
                    assert(pre[k] == p);
                    assert(pre.contains(p));
                } else if k > i {
                    assert(pre[k - 1] == p);
                    assert(pre.contains(p));
                }
            }
            if pre.contains(p) {
                let k = choose|k: int| 0 <= k < pre.len() && pre[k] == p;
                if k < i {
                    assert(v@[k] == p);
                } else {
                    assert(v@[k + 1] == p);
                }
                assert(v@.contains(p));
            }
            if p == (id, SliceUsage { load }) {
                assert(v@[i as int] == p);
                assert(v@.contains(p));
            }
        }
    }
}

impl Usage {
    /// A report from parsed `(slice id, load)` pairs with distinct ids (the
    /// keys of a map): the same entries, ids ascending.
    pub fn from_pairs(pairs: Vec<(u16, u32)>) -> (r: Usage)
        requires
            forall|k1: int, k2: int|
                0 <= k1 < k2 < pairs@.len() ==> (#[trigger] pairs@[k1]).0 != (
                #[trigger] pairs@[k2]).0,
        ensures
            r.wf(),
            forall|p: (u16, u32)|
                r.slices@.contains((p.0, SliceUsage { load: p.1 })) <==> pairs@.contains(p),
    {
        let mut slices: Vec<(u16, SliceUsage)> = Vec::new();
        let mut k: usize = 0;
        while k < pairs.len()
            invariant
                k <= pairs@.len(),
                forall|k1: int, k2: int|
                    0 <= k1 < k2 < pairs@.len() ==> (#[trigger] pairs@[k1]).0 != (
                    #[trigger] pairs@[k2]).0,
                forall|i: int, j: int|
                    0 <= i < j < slices@.len() ==> (#[trigger] slices@[i]).0 < (
                    #[trigger] slices@[j]).0,
                forall|p: (u16, u32)|
                    slices@.contains((p.0, SliceUsage { load: p.1 })) <==> pairs@.take(
                        k as int,
                    ).contains(p),
                forall|i: int|
                    0 <= i < slices@.len() ==> exists|k0: int|
                        0 <= k0 < k && (#[trigger] slices@[i]).0 == pairs@[k0].0,
            decreases pairs@.len() - k,
        {
            let (id, load) = pairs[k];
            proof {
                assert forall|i: int| 0 <= i < slices@.len() implies (#[trigger] slices@[i]).0
                    != id by {
                    let k0 = choose|k0: int| 0 <= k0 < k && slices@[i].0 == pairs@[k0].0;
                    assert(pairs@[k0].0 != pairs@[k as int].0);
                }
            }
            let ghost pre = slices@;
            insert_pair(&mut slices, id, load);
            proof {
                let t1 = pairs@.take(k + 1 as int);
                assert(t1.drop_last() =~= pairs@.take(k as int));
                assert(t1.last() == pairs@[k as int]);
                assert forall|p: (u16, u32)|
                    slices@.contains((p.0, SliceUsage { load: p.1 })) <==> t1.contains(p) by {
                    let t = pairs@.take(k as int);
                    if t.contains(p) {
                        let j = choose|j: int| 0 <= j < t.len() && t[j] == p;
                        assert(t1[j] == p);
                        assert(t1.contains(p));
                    }
                    if p == (id, load) {
                        assert(t1[k as int] == p);
                        assert(t1.contains(p));
                    }
                    if t1.contains(p) {
                        let j = choose|j: int| 0 <= j < t1.len() && t1[j] == p;
                        if j < k {
                            assert(t[j] == p);
                            assert(t.contains(p));
                        } else {
                            assert(p == (id, load));
                        }
                    }
                }
                assert forall|i: int| 0 <= i < slices@.len() implies exists|k0: int|
                    0 <= k0 < k + 1 && (#[trigger] slices@[i]).0 == pairs@[k0].0 by {
                    assert(slices@.contains(slices@[i]));
                    if pre.contains(slices@[i]) {
                        let j = choose|j: int| 0 <= j < pre.len() && pre[j] == slices@[i];
                        let k0 = choose|k0: int| 0 <= k0 < k && pre[j].0 == pairs@[k0].0;
                        assert(slices@[i].0 == pairs@[k0].0);
                    } else {
                        assert(slices@[i] == (id, SliceUsage { load }));
                        assert(slices@[i].0 == pairs@[k as int].0);
                    }
                }
            }
            k = k + 1;
        }
        proof {
            assert(pairs@.take(pairs@.len() as int) =~= pairs@);
        }
        Usage { slices }
    }
}

/// What the prober records for one worker.
#[derive(Clone, Debug)]
pub struct HealthStatusInner {
    pub is_healthy: bool,
    pub last_check: u64,
    pub usage: Option<Usage>,
}

/// A worker's health record.
#[derive(Clone, Debug)]
pub struct HealthStatus {
    pub inner: HealthStatusInner,
}

/// A record as it is created when a backend enters the active set: assumed
/// healthy, never checked, no telemetry.
pub open spec fn fresh_health(h: HealthStatus) -> bool {
    h.inner.is_healthy && h.inner.last_check == 0 && h.inner.usage is None
}

impl HealthStatus {
    pub fn new() -> (r: HealthStatus)
        ensures
            fresh_health(r),
    {
        HealthStatus {
            inner: HealthStatusInner { is_healthy: true, last_check: 0, usage: None },
        }
    }
}

/// Records one probe outcome: health is set, telemetry only replaced when
/// the probe carried a fresh report.
pub fn set_health(h: &mut HealthStatus, is_healthy: bool, usage: Option<Usage>, now: u64)
    ensures
        final(h).inner.is_healthy == is_healthy,
        final(h).inner.last_check == now,
        usage is Some ==> final(h).inner.usage == usage,
        usage is None ==> final(h).inner.usage == old(h).inner.usage,
{
    h.inner.is_healthy = is_healthy;
    if usage.is_some() {
        h.inner.usage = usage;
    }
    h.inner.last_check = now;
}

/// A worker as the router and rebalancer see it: its address, the slices it
/// owns, and its health record.
#[derive(Clone, Debug)]
pub struct Backend {
    pub addr: WorkerAddr,
    pub slices: Vec<u16>,
    pub health: HealthStatus,
}

/// How many consecutive outcomes flip a backend's health state.
#[derive(Clone, Copy, Debug, PartialEq, Eq, Structural)]
pub struct HealthCheckPolicy {
    pub consecutive_success: usize,
    pub consecutive_failure: usize,
}

impl HealthCheckPolicy {
    /// One success and one failure suffice by default.
    pub fn new() -> (r: HealthCheckPolicy)
        ensures
            r.consecutive_success == 1,
            r.consecutive_failure == 1,
    {
        HealthCheckPolicy { consecutive_success: 1, consecutive_failure: 1 }
    }

    pub fn health_threshold(&self, success: bool) -> (r: usize)
        ensures
            r == if success {
                self.consecutive_success
            } else {
                self.consecutive_failure
            },
    {
        if success {
            self.consecutive_success
        } else {
            self.consecutive_failure
        }
    }
}

/// Judges one HTTP probe: a 200 is healthy, anything else unhealthy with the
/// status as the error; a parsed report replaces the stored telemetry either
/// way, a missing one leaves it alone.
pub fn record_probe(h: &mut HealthStatus, status: u16, usage: Option<Usage>, now: u64) -> (r:
    Result<(), u16>)
    ensures
        final(h).inner.is_healthy == (status == 200),
        final(h).inner.last_check == now,
        usage is Some ==> final(h).inner.usage == usage,
        usage is None ==> final(h).inner.usage == old(h).inner.usage,
        r == if status == 200 {
            Ok::<(), u16>(())
        } else {
            Err::<(), u16>(status)
        },
{
    if status != 200 {
        set_health(h, false, usage, now);
        Err(status)
    } else {
        set_health(h, true, usage, now);
        Ok(())
    }
}

} // verus!
