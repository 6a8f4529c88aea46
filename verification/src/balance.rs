//! The rebalancer: given the backends' load reports, propose a bounded list
//! of slice moves from overloaded workers to the least-loaded ones.
use vstd::prelude::*;
use crate::addr::WorkerAddr;
use crate::health::{Backend, SliceUsage, sum_loads, lemma_sum_loads_nonneg,
    lemma_sum_loads_bound};

verus! {

/// At most this many moves are proposed per rebalancing cycle.
pub const MAX_MOVES_PER_CYCLE: usize = 3;

/// A worker is hot when its load exceeds six fifths (that is, 1.2 times) of
/// the mean load; stated over the load, the server count and the total load
/// to stay in integers.
pub open spec fn is_hot(load: int, n: int, total: int) -> bool {
    5 * load * n > 6 * total
}

/// What one sampled backend contributes: its address and its load report.
pub open spec fn stat_of(b: Backend) -> Option<(WorkerAddr, Seq<(u16, SliceUsage)>)> {
    match b.health.inner.usage {
        Some(u) => Some((b.addr, u.slices@)),
        None => None,
    }
}

/// The sampled backends, in input order; backends without a report are left
/// out of consideration.
pub open spec fn stats_of(backends: Seq<Backend>) -> Seq<(WorkerAddr, Seq<(u16, SliceUsage)>)> {
    backends.filter_map(|b: Backend| stat_of(b))
}

/// Per-server totals, in stats order.
pub open spec fn loads_of(stats: Seq<(WorkerAddr, Seq<(u16, SliceUsage)>)>) -> Seq<int> {
    stats.map_values(|p: (WorkerAddr, Seq<(u16, SliceUsage)>)| sum_loads(p.1))
}

pub open spec fn sum_of(s: Seq<int>) -> int
    decreases s.len(),
{
    if s.len() == 0 {
        0
    } else {
        sum_of(s.drop_last()) + s.last()
    }
}

pub open spec fn max_of(s: Seq<int>) -> int
    decreases s.len(),
{
    if s.len() == 0 {
        0
    } else if s.len() == 1 {
        s[0]
    } else if s.last() > max_of(s.drop_last()) {
        s.last()
    } else {
        max_of(s.drop_last())
    }
}

/// The earliest index of the greatest entry, skipping indices `e1` and `e2`;
/// -1 when every index is skipped or the sequence is empty.
pub open spec fn argmax_excl(s: Seq<int>, e1: int, e2: int) -> int
    decreases s.len(),
{
    if s.len() == 0 {
        -1
    } else {
        let m = s.len() - 1;
        let p = argmax_excl(s.drop_last(), e1, e2);
        if m == e1 || m == e2 {
            p
        } else if p == -1 {
            m
        } else if s[m] > s[p] {
            m
        } else {
            p
        }
    }
}

/// The earliest index of the least entry, skipping index `e`; -1 when none.
pub open spec fn argmin_excl(s: Seq<int>, e: int) -> int
    decreases s.len(),
{
    if s.len() == 0 {
        -1
    } else {
        let m = s.len() - 1;
        let p = argmin_excl(s.drop_last(), e);
        if m == e {
            p
        } else if p == -1 {
            m
        } else if s[m] < s[p] {
            m
        } else {
            p
        }
    }
}

/// The earliest index of the heaviest slice of a report; -1 when the report
/// is empty. With slice ids ascending, ties go to the lowest slice id.
pub open spec fn argmax_slice(sl: Seq<(u16, SliceUsage)>) -> int
    decreases sl.len(),
{
    if sl.len() == 0 {
        -1
    } else {
        let m = sl.len() - 1;
        let p = argmax_slice(sl.drop_last());
        if p == -1 {
            m
        } else if sl[m].1.load > sl[p].1.load {
            m
        } else {
            p
        }
    }
}

pub proof fn lemma_argmax_excl_props(s: Seq<int>, e1: int, e2: int)
    ensures
        argmax_excl(s, e1, e2) == -1 ==> s.len() == 0 || (s.len() == 1 && (e1 == 0 || e2 == 0))
            || (s.len() == 2 && ((e1 == 0 && e2 == 1) || (e1 == 1 && e2 == 0))),
        argmax_excl(s, e1, e2) != -1 ==> {
            let r = argmax_excl(s, e1, e2);
            &&& 0 <= r < s.len()
            &&& r != e1
            &&& r != e2
            &&& forall|i: int| 0 <= i < s.len() && i != e1 && i != e2 ==> s[i] <= s[r]
        },
    decreases s.len(),
{
    if s.len() > 0 {
        lemma_argmax_excl_props(s.drop_last(), e1, e2);
        let r = argmax_excl(s, e1, e2);
        if r == -1 {
            assert(argmax_excl(s.drop_last(), e1, e2) == -1);
            assert(s.len() - 1 == e1 || s.len() - 1 == e2);
        } else {
            assert forall|i: int| 0 <= i < s.len() && i != e1 && i != e2 implies s[i] <= s[r] by {
                if i < s.len() - 1 {
                    assert(s.drop_last()[i] == s[i]);
                }
                if r < s.len() - 1 {
                    assert(s.drop_last()[r] == s[r]);
                }
            }
        }
    }
}

pub proof fn lemma_argmin_excl_props(s: Seq<int>, e: int)
    ensures
        argmin_excl(s, e) == -1 ==> s.len() == 0 || (s.len() == 1 && e == 0),
        argmin_excl(s, e) != -1 ==> {
            let r = argmin_excl(s, e);
            &&& 0 <= r < s.len()
            &&& r != e
            &&& forall|i: int| 0 <= i < s.len() && i != e ==> s[i] >= s[r]
        },
    decreases s.len(),
{
    if s.len() > 0 {
        lemma_argmin_excl_props(s.drop_last(), e);
        let r = argmin_excl(s, e);
        if r == -1 {
            assert(argmin_excl(s.drop_last(), e) == -1);
            assert(s.len() - 1 == e);
        } else {
            assert forall|i: int| 0 <= i < s.len() && i != e implies s[i] >= s[r] by {
                if i < s.len() - 1 {
                    assert(s.drop_last()[i] == s[i]);
                }
                if r < s.len() - 1 {
                    assert(s.drop_last()[r] == s[r]);
                }
            }
        }
    }
}

pub proof fn lemma_argmax_slice_props(sl: Seq<(u16, SliceUsage)>)
    ensures
        argmax_slice(sl) == -1 <==> sl.len() == 0,
        sl.len() > 0 ==> {
            let r = argmax_slice(sl);
            &&& 0 <= r < sl.len()
            &&& forall|i: int| 0 <= i < sl.len() ==> sl[i].1.load <= sl[r].1.load
        },
    decreases sl.len(),
{
    if sl.len() > 0 {
        lemma_argmax_slice_props(sl.drop_last());
        let r = argmax_slice(sl);
        assert forall|i: int| 0 <= i < sl.len() implies sl[i].1.load <= sl[r].1.load by {
            if i < sl.len() - 1 {
                assert(sl.drop_last()[i] == sl[i]);
            }
            if r < sl.len() - 1 {
                assert(sl.drop_last()[r] == sl[r]);
            }
        }
    }
}

pub proof fn lemma_sum_of_nonneg(s: Seq<int>)
    requires
        forall|i: int| 0 <= i < s.len() ==> s[i] >= 0,
    ensures
        sum_of(s) >= 0,
    decreases s.len(),
{
    if s.len() > 0 {
        lemma_sum_of_nonneg(s.drop_last());
    }
}

/// In a sequence of non-negative entries, any two distinct entries together
/// are at most the sum.
pub proof fn lemma_sum_of_two(s: Seq<int>, i: int, j: int)
    requires
        forall|k: int| 0 <= k < s.len() ==> s[k] >= 0,
        0 <= i < s.len(),
        0 <= j < s.len(),
        i != j,
    ensures
        s[i] + s[j] <= sum_of(s),
    decreases s.len(),
{
    let m = s.len() - 1;
    if i == m || j == m {
        let o = if i == m {
            j
        } else {
            i
        };
        lemma_sum_of_ge_element(s.drop_last(), o);
    } else {
        lemma_sum_of_two(s.drop_last(), i, j);
    }
}

pub proof fn lemma_sum_of_ge_element(s: Seq<int>, i: int)
    requires
        forall|k: int| 0 <= k < s.len() ==> s[k] >= 0,
        0 <= i < s.len(),
    ensures
        s[i] <= sum_of(s),
    decreases s.len(),
{
    lemma_sum_of_nonneg(s.drop_last());
    if i < s.len() - 1 {
        lemma_sum_of_ge_element(s.drop_last(), i);
    }
}

/// Overwriting one entry shifts the sum by the difference.
pub proof fn lemma_sum_of_update(s: Seq<int>, i: int, v: int)
    requires
        0 <= i < s.len(),
    ensures
        sum_of(s.update(i, v)) == sum_of(s) - s[i] + v,
    decreases s.len(),
{
    let m = s.len() - 1;
    if i == m {
        assert(s.update(i, v).drop_last() =~= s.drop_last());
    } else {
        assert(s.update(i, v).drop_last() =~= s.drop_last().update(i, v));
        lemma_sum_of_update(s.drop_last(), i, v);
    }
}

/// The load imbalance of a load set: the greatest per-server load over the
/// integer mean, kept as the raw pair so no rounding is baked in.
#[derive(Clone, Copy, Debug, PartialEq, Eq, Structural)]
pub struct Imbalance {
    pub max_load: u32,
    pub mean_load: u32,
}

/// `x` strictly greater than `y` as ratios max/mean, with a zero mean read
/// as an infinite ratio for a positive max and as undefined for a zero max
/// (an undefined side is never greater).
pub open spec fn imb_gt(x: Imbalance, y: Imbalance) -> bool {
    &&& !(x.mean_load == 0 && x.max_load == 0)
    &&& !(y.mean_load == 0 && y.max_load == 0)
    &&& if x.mean_load == 0 {
        y.mean_load != 0
    } else if y.mean_load == 0 {
        false
    } else {
        x.max_load * y.mean_load > y.max_load * x.mean_load
    }
}

/// One proposed reassignment: move `slice_id` from `from_server` to
/// `to_server`; the imbalance before and after measures the benefit.
#[derive(Clone, Copy, Debug, PartialEq, Eq, Structural)]
pub struct Move {
    pub slice_id: u16,
    pub from_server: WorkerAddr,
    pub to_server: WorkerAddr,
    pub imbalance_before: Imbalance,
    pub imbalance_after: Imbalance,
}

impl Move {
    /// Did the move reduce the imbalance?
    pub fn benefit_positive(&self) -> (r: bool)
        ensures
            r == imb_gt(self.imbalance_before, self.imbalance_after),
    {
        let x = self.imbalance_before;
        let y = self.imbalance_after;
        if x.mean_load == 0 && x.max_load == 0 {
            false
        } else if y.mean_load == 0 && y.max_load == 0 {
            false
        } else if x.mean_load == 0 {
            y.mean_load != 0
        } else if y.mean_load == 0 {
            false
        } else {
            proof {
                lemma_mul_bound(x.max_load as int, y.mean_load as int);
                lemma_mul_bound(y.max_load as int, x.mean_load as int);
            }
            (x.max_load as u64) * (y.mean_load as u64) > (y.max_load as u64) * (x.mean_load
                as u64)
        }
    }
}

/// The product of two values below 2^32 stays below 2^64.
proof fn lemma_mul_bound(a: int, b: int)
    requires
        0 <= a < 0x100000000,
        0 <= b < 0x100000000,
    ensures
        a * b <= 0xffffffffffffffff,
{
    assert(a * b < 0x100000000 * 0x100000000) by (nonlinear_arith)
        requires
            0 <= a < 0x100000000,
            0 <= b < 0x100000000,
    ;
}

/// One sampled server: its address, its total load, and its load report.
#[derive(Clone, Debug)]
pub struct ServerStat {
    pub addr: WorkerAddr,
    pub total: u32,
    pub slices: Vec<(u16, SliceUsage)>,
}

pub open spec fn stat_views(r: Seq<ServerStat>) -> Seq<(WorkerAddr, Seq<(u16, SliceUsage)>)> {
    r.map_values(|st: ServerStat| (st.addr, st.slices@))
}

/// Prefix step for the per-report sum.
proof fn lemma_sum_loads_take_succ(s: Seq<(u16, SliceUsage)>, j: int)
    requires
        0 <= j < s.len(),
    ensures
        sum_loads(s.take(j + 1)) == sum_loads(s.take(j)) + s[j].1.load,
{
    assert(s.take(j + 1).drop_last() =~= s.take(j));
    assert(s.take(j + 1).last() == s[j]);
}

/// Prefix sums never exceed the whole.
proof fn lemma_sum_loads_take_bound(s: Seq<(u16, SliceUsage)>, j: int)
    requires
        0 <= j <= s.len(),
    ensures
        sum_loads(s.take(j)) <= sum_loads(s),
    decreases s.len() - j,
{
    if j == s.len() {
        assert(s.take(j) =~= s);
    } else {
        lemma_sum_loads_take_succ(s, j);
        lemma_sum_loads_take_bound(s, j + 1);
    }
}

/// An element-for-element copy of a load report.
fn copy_report(src: &Vec<(u16, SliceUsage)>) -> (r: Vec<(u16, SliceUsage)>)
    ensures
        r@ == src@,
{
    let mut out: Vec<(u16, SliceUsage)> = Vec::new();
    let mut i: usize = 0;
    while i < src.len()
        invariant
            i <= src@.len(),
            out@ == src@.take(i as int),
        decreases src@.len() - i,
    {
        out.push(src[i]);
        proof {
            assert(out@ =~= src@.take(i + 1 as int));
        }
        i = i + 1;
    }
    proof {
        assert(src@.take(src@.len() as int) =~= src@);
    }
    out
}

/// Sums each sampled backend's report. One stat per backend that carries a
/// report, in input order, with the report copied and its total summed.
pub fn collect_server_stats(backends: &Vec<Backend>) -> (r: Vec<ServerStat>)
    requires
        forall|i: int|
            0 <= i < backends@.len() && (#[trigger] backends@[i]).health.inner.usage is Some
                ==> sum_loads(backends@[i].health.inner.usage.unwrap().slices@) <= u32::MAX,
    ensures
        stat_views(r@) == stats_of(backends@),
        forall|k: int|
            0 <= k < r@.len() ==> (#[trigger] r@[k]).total as int == sum_loads(r@[k].slices@),
{
    let mut out: Vec<ServerStat> = Vec::new();
    let mut i: usize = 0;
    while i < backends.len()
        invariant
            i <= backends@.len(),
            forall|k: int|
                0 <= k < backends@.len() && (#[trigger] backends@[k]).health.inner.usage is Some
                    ==> sum_loads(backends@[k].health.inner.usage.unwrap().slices@) <= u32::MAX,
            stat_views(out@) == backends@.take(i as int).filter_map(|b: Backend| stat_of(b)),
            forall|k: int|
                0 <= k < out@.len() ==> (#[trigger] out@[k]).total as int == sum_loads(
                    out@[k].slices@,
                ),
        decreases backends@.len() - i,
    {
        let b = &backends[i];
        let ghost pre = out@;
        match &b.health.inner.usage {
            Some(u) => {
                let mut total: u32 = 0;
                let mut j: usize = 0;
                while j < u.slices.len()
                    invariant
                        j <= u.slices@.len(),
                        total as int == sum_loads(u.slices@.take(j as int)),
                        sum_loads(u.slices@) <= u32::MAX,
                    decreases u.slices@.len() - j,
                {
                    proof {
                        lemma_sum_loads_take_succ(u.slices@, j as int);
                        lemma_sum_loads_take_bound(u.slices@, j + 1);
                        lemma_sum_loads_nonneg(u.slices@.take(j as int));
                    }
                    total = total + u.slices[j].1.load;
                    j = j + 1;
                }
                proof {
                    assert(u.slices@.take(u.slices@.len() as int) =~= u.slices@);
                }
                out.push(ServerStat { addr: b.addr, total, slices: copy_report(&u.slices) });
            },
            None => {},
        }
        proof {
            backends@.lemma_filter_map_take_succ(|b: Backend| stat_of(b), i as int);
            assert(stat_views(out@) =~= backends@.take(i + 1 as int).filter_map(
                |b: Backend| stat_of(b),
            ));
        }
        i = i + 1;
    }
    proof {
        assert(backends@.take(backends@.len() as int) =~= backends@);
    }
    out
}

/// The imbalance of a load set: the greatest load over the integer mean.
pub fn calculate_imbalance(loads: &Vec<u32>) -> (r: Imbalance)
    requires
        loads@.len() > 0,
        sum_of(loads@.map_values(|x: u32| x as int)) <= u32::MAX,
    ensures
        r.max_load as int == max_of(loads@.map_values(|x: u32| x as int)),
        r.mean_load as int == sum_of(loads@.map_values(|x: u32| x as int)) as int
            / loads@.len() as int,
{
    let ghost lv = loads@.map_values(|x: u32| x as int);
    let mut total: u64 = 0;
    let mut max: u32 = loads[0];
    let mut i: usize = 0;
    proof {
        assert forall|j: int| 0 <= j <= lv.len() implies sum_of(lv.take(j)) <= sum_of(lv)
            && sum_of(lv.take(j)) >= 0 by {
            lemma_sum_take_facts(lv, j);
        }
    }
    while i < loads.len()
        invariant
            i <= loads@.len(),
            loads@.len() > 0,
            lv == loads@.map_values(|x: u32| x as int),
            sum_of(lv) <= u32::MAX,
            total as int == sum_of(lv.take(i as int)),
            forall|j: int| 0 <= j <= lv.len() ==> sum_of(#[trigger] lv.take(j)) <= sum_of(lv),
            forall|j: int| 0 <= j <= lv.len() ==> sum_of(#[trigger] lv.take(j)) >= 0,
            max as int == if i == 0 {
                lv[0]
            } else {
                max_of(lv.take(i as int))
            },
        decreases loads@.len() - i,
    {
        proof {
            assert(lv.take(i + 1 as int).drop_last() =~= lv.take(i as int));
            assert(lv.take(i + 1 as int).last() == lv[i as int]);
        }
        let x = loads[i];
        total = total + (x as u64);
        if x > max {
            max = x;
        }
        proof {
            if i == 0 {
                assert(max_of(lv.take(1)) == lv[0]);
            }
        }
        i = i + 1;
    }
    proof {
        assert(lv.take(lv.len() as int) =~= lv);
    }
    let n = loads.len();
    Imbalance { max_load: max, mean_load: (total / (n as u64)) as u32 }
}

/// Both prefix-sum facts at once, for non-negative entries.
proof fn lemma_sum_take_facts(s: Seq<int>, j: int)
    requires
        0 <= j <= s.len(),
        forall|k: int| 0 <= k < s.len() ==> s[k] >= 0,
    ensures
        sum_of(s.take(j)) <= sum_of(s),
        sum_of(s.take(j)) >= 0,
    decreases s.len() - j,
{
    lemma_sum_of_nonneg(s.take(j));
    if j == s.len() {
        assert(s.take(j) =~= s);
    } else {
        assert(s.take(j + 1).drop_last() =~= s.take(j));
        assert(s.take(j + 1).last() == s[j]);
        lemma_sum_take_facts(s, j + 1);
    }
}


/// The integer images of a load vector.
pub open spec fn u32s(s: Seq<u32>) -> Seq<int> {
    s.map_values(|x: u32| x as int)
}

/// Loads after one move: the heaviest slice of `f` leaves it for the
/// least-loaded other server.
pub open spec fn step_loads(
    stats: Seq<(WorkerAddr, Seq<(u16, SliceUsage)>)>,
    loads: Seq<int>,
    f: int,
) -> Seq<int> {
    let si = argmax_slice(stats[f].1);
    let sl = stats[f].1[si].1.load as int;
    let t = argmin_excl(loads, f);
    loads.update(f, loads[f] - sl).update(t, loads[t] + sl)
}

/// The move proposed for hot server `f` under the running loads: its
/// heaviest slice (lowest id on a tie) goes to the least-loaded other server
/// (lowest position on a tie), and the imbalance is recorded before and
/// after.
pub open spec fn move_at(
    stats: Seq<(WorkerAddr, Seq<(u16, SliceUsage)>)>,
    loads: Seq<int>,
    f: int,
) -> Move {
    let si = argmax_slice(stats[f].1);
    let t = argmin_excl(loads, f);
    let n = loads.len() as int;
    Move {
        slice_id: stats[f].1[si].0,
        from_server: stats[f].0,
        to_server: stats[t].0,
        imbalance_before: Imbalance {
            max_load: max_of(loads) as u32,
            mean_load: (sum_of(loads) / n) as u32,
        },
        imbalance_after: Imbalance {
            max_load: max_of(step_loads(stats, loads, f)) as u32,
            mean_load: (sum_of(loads) / n) as u32,
        },
    }
}

pub open spec fn opt_int(o: Option<usize>) -> int {
    match o {
        None => -1,
        Some(i) => i as int,
    }
}

/// Bounded factors give a bounded product.
proof fn lemma_mul_le(a: int, b: int, ca: int, cb: int)
    requires
        0 <= a <= ca,
        0 <= b <= cb,
    ensures
        a * b <= ca * cb,
{
    assert(a * b <= ca * cb) by (nonlinear_arith)
        requires
            0 <= a <= ca,
            0 <= b <= cb,
    ;
}

/// A hot server has positive load, and is never alone.
proof fn lemma_hot_needs_two(l: int, n: int, total: int)
    requires
        is_hot(l, n, total),
        0 <= l <= total,
    ensures
        l > 0,
        n >= 2,
{
    assert(l > 0 && n >= 2) by (nonlinear_arith)
        requires
            5 * l * n > 6 * total,
            0 <= l <= total,
    ;
}

/// A sampled backend's stat appears among the stats.
proof fn lemma_stat_in(backends: Seq<Backend>, i: int)
    requires
        0 <= i < backends.len(),
        stat_of(backends[i]) is Some,
    ensures
        stats_of(backends).contains(stat_of(backends[i]).unwrap()),
    decreases backends.len(),
{
    let f = |b: Backend| stat_of(b);
    if i == backends.len() - 1 {
        match f(backends.last()) {
            Some(y) => {
                assert(stats_of(backends) == backends.drop_last().filter_map(f) + seq![y]);
                assert(stats_of(backends).last() == y);
            },
            None => {},
        }
    } else {
        lemma_stat_in(backends.drop_last(), i);
        assert(backends.drop_last()[i] == backends[i]);
        let y = stat_of(backends[i]).unwrap();
        let rest = backends.drop_last().filter_map(f);
        let k = choose|k: int| 0 <= k < rest.len() && rest[k] == y;
        match f(backends.last()) {
            Some(z) => {
                assert(stats_of(backends) == rest + seq![z]);
                assert(stats_of(backends)[k] == y);
            },
            None => {
                assert(stats_of(backends) == rest);
            },
        }
    }
}

/// The exec twin of `argmax_excl`.
fn argmax_excl_exec(loads: &Vec<u32>, e1: Option<usize>, e2: Option<usize>) -> (r: Option<usize>)
    ensures
        opt_int(r) == argmax_excl(u32s(loads@), opt_int(e1), opt_int(e2)),
        r is Some ==> r.unwrap() < loads@.len(),
{
    let ghost lv = u32s(loads@);
    let mut best: Option<usize> = None;
    let mut i: usize = 0;
    while i < loads.len()
        invariant
            i <= loads@.len(),
            lv == u32s(loads@),
            opt_int(best) == argmax_excl(lv.take(i as int), opt_int(e1), opt_int(e2)),
            best is Some ==> best.unwrap() < i,
        decreases loads@.len() - i,
    {
        proof {
            assert(lv.take(i + 1 as int).drop_last() =~= lv.take(i as int));
            assert(lv.take(i + 1 as int).last() == lv[i as int]);
        }
        let skip1 = match e1 {
            Some(e) => e == i,
            None => false,
        };
        let skip2 = match e2 {
            Some(e) => e == i,
            None => false,
        };
        if !skip1 && !skip2 {
            match best {
                None => {
                    best = Some(i);
                },
                Some(b) => {
                    if loads[i] > loads[b] {
                        best = Some(i);
                    }
                },
            }
        }
        i = i + 1;
    }
    proof {
        assert(lv.take(lv.len() as int) =~= lv);
    }
    best
}

/// The exec twin of `argmin_excl`.
fn argmin_excl_exec(loads: &Vec<u32>, e: usize) -> (r: Option<usize>)
    ensures
        opt_int(r) == argmin_excl(u32s(loads@), e as int),
        r is Some ==> r.unwrap() < loads@.len(),
{
    let ghost lv = u32s(loads@);
    let mut best: Option<usize> = None;
    let mut i: usize = 0;
    while i < loads.len()
        invariant
            i <= loads@.len(),
            lv == u32s(loads@),
            opt_int(best) == argmin_excl(lv.take(i as int), e as int),
            best is Some ==> best.unwrap() < i,
        decreases loads@.len() - i,
    {
        proof {
            assert(lv.take(i + 1 as int).drop_last() =~= lv.take(i as int));
            assert(lv.take(i + 1 as int).last() == lv[i as int]);
        }
        if e != i {
            match best {
                None => {
                    best = Some(i);
                },
                Some(b) => {
                    if loads[i] < loads[b] {
                        best = Some(i);
                    }
                },
            }
        }
        i = i + 1;
    }
    proof {
        assert(lv.take(lv.len() as int) =~= lv);
    }
    best
}

/// The exec twin of `argmax_slice`.
fn largest_slice(sl: &Vec<(u16, SliceUsage)>) -> (r: Option<usize>)
    ensures
        opt_int(r) == argmax_slice(sl@),
        r is Some ==> r.unwrap() < sl@.len(),
{
    let mut best: Option<usize> = None;
    let mut i: usize = 0;
    while i < sl.len()
        invariant
            i <= sl@.len(),
            opt_int(best) == argmax_slice(sl@.take(i as int)),
            best is Some ==> best.unwrap() < i,
        decreases sl@.len() - i,
    {
        proof {
            assert(sl@.take(i + 1 as int).drop_last() =~= sl@.take(i as int));
            assert(sl@.take(i + 1 as int).last() == sl@[i as int]);
        }
        match best {
            None => {
                best = Some(i);
            },
            Some(b) => {
                if sl[i].1.load > sl[b].1.load {
                    best = Some(i);
                }
            },
        }
        i = i + 1;
    }
    proof {
        assert(sl@.take(sl@.len() as int) =~= sl@);
    }
    best
}

/// Is `load` hot for a fleet of `n` servers carrying `total` in all?
fn hot_exec(load: u32, n: usize, total: u32) -> (r: bool)
    ensures
        r == is_hot(load as int, n as int, total as int),
{
    proof {
        lemma_mul_le(5 * (load as int), n as int, 5 * 0xffffffff as int, 0xffffffffffffffff as int);
    }
    5u128 * (load as u128) * (n as u128) > 6u128 * (total as u128)
}

/// An element-for-element copy of a load vector.
fn copy_loads(src: &Vec<u32>) -> (r: Vec<u32>)
    ensures
        r@ == src@,
{
    let mut out: Vec<u32> = Vec::new();
    let mut i: usize = 0;
    while i < src.len()
        invariant
            i <= src@.len(),
            out@ == src@.take(i as int),
        decreases src@.len() - i,
    {
        out.push(src[i]);
        proof {
            assert(out@ =~= src@.take(i + 1 as int));
        }
        i = i + 1;
    }
    proof {
        assert(src@.take(src@.len() as int) =~= src@);
    }
    out
}

/// Performs one planned move on the running loads and reports it.
fn do_move(stats: &Vec<ServerStat>, run: &mut Vec<u32>, f: usize) -> (mv: Move)
    requires
        f < stats@.len(),
        old(run)@.len() == stats@.len(),
        stats@.len() >= 2,
        sum_of(u32s(old(run)@)) <= u32::MAX,
        u32s(old(run)@)[f as int] >= sum_loads(stats@[f as int].slices@),
        stats@[f as int].slices@.len() > 0,
    ensures
        mv == move_at(stat_views(stats@), u32s(old(run)@), f as int),
        u32s(final(run)@) == step_loads(stat_views(stats@), u32s(old(run)@), f as int),
        final(run)@.len() == old(run)@.len(),
        sum_of(u32s(final(run)@)) == sum_of(u32s(old(run)@)),
        forall|i: int|
            0 <= i < old(run)@.len() && i != f ==> u32s(final(run)@)[i] >= u32s(old(run)@)[i],
{
    let ghost sv = stat_views(stats@);
    let ghost lv = u32s(run@);
    proof {
        assert forall|i: int| 0 <= i < lv.len() implies lv[i] >= 0 by {
            assert(lv[i] == run@[i] as int);
        }
    }
    let si = match largest_slice(&stats[f].slices) {
        Some(si) => si,
        None => {
            proof {
                lemma_argmax_slice_props(stats@[f as int].slices@);
            }
            proof {
                assert(false);
            }
            0
        },
    };
    let slice_id = stats[f].slices[si].0;
    let sl = stats[f].slices[si].1.load;
    proof {
        lemma_argmax_slice_props(stats@[f as int].slices@);
        lemma_sum_loads_bound(stats@[f as int].slices@, si as int);
        lemma_sum_of_ge_element(lv, f as int);
    }
    let t = match argmin_excl_exec(run, f) {
        Some(t) => t,
        None => {
            proof {
                lemma_argmin_excl_props(lv, f as int);
            }
            proof {
                assert(false);
            }
            0
        },
    };
    proof {
        lemma_argmin_excl_props(lv, f as int);
        lemma_sum_of_two(lv, t as int, f as int);
    }
    let before = calculate_imbalance(run);
    let rf = run[f];
    let rt = run[t];
    run.set(f, rf - sl);
    run.set(t, rt + sl);
    proof {
        assert(u32s(run@) =~= lv.update(f as int, lv[f as int] - sl).update(
            t as int,
            lv[t as int] + sl,
        ));
        assert(u32s(run@) == step_loads(sv, lv, f as int));
        lemma_sum_of_update(lv, f as int, lv[f as int] - sl);
        lemma_sum_of_update(
            lv.update(f as int, lv[f as int] - sl),
            t as int,
            lv[t as int] + sl,
        );
        assert(sum_of(u32s(run@)) == sum_of(lv));
    }
    let after = calculate_imbalance(run);
    let mv = Move {
        slice_id,
        from_server: stats[f].addr,
        to_server: stats[t].addr,
        imbalance_before: before,
        imbalance_after: after,
    };
    proof {
        assert(sv[f as int].1 == stats@[f as int].slices@);
        assert(sv[f as int].0 == stats@[f as int].addr);
        assert(sv[t as int].0 == stats@[t as int].addr);
        assert(mv == move_at(sv, lv, f as int));
        assert forall|i: int| 0 <= i < lv.len() && i != f implies u32s(run@)[i] >= lv[i] by {}
    }
    mv
}


/// Proposes up to `MAX_MOVES_PER_CYCLE` moves. Servers are ranked by their
/// reported total load; while one is hot, its heaviest slice is sent to the
/// least-loaded other server and the running loads are adjusted before the
/// next is considered. Balanced fleets, and fleets of fewer than two sampled
/// servers, yield no moves.
pub fn find_best_moves(backends: &Vec<Backend>) -> (r: Vec<Move>)
    requires
        sum_of(loads_of(stats_of(backends@))) <= u32::MAX,
    ensures
        r@.len() <= MAX_MOVES_PER_CYCLE as int,
        r@ == planned_moves(backends@),
        ({
            let sv = stats_of(backends@);
            let loads0 = loads_of(sv);
            let n = sv.len() as int;
            let total = sum_of(loads0);
            let h0 = argmax_excl(loads0, -1, -1);
            let c0 = h0 != -1 && is_hot(loads0[h0], n, total);
            let loads1 = step_loads(sv, loads0, h0);
            let h1 = argmax_excl(loads0, h0, -1);
            let c1 = c0 && h1 != -1 && is_hot(loads0[h1], n, total);
            let loads2 = step_loads(sv, loads1, h1);
            let h2 = argmax_excl(loads0, h0, h1);
            let c2 = c1 && h2 != -1 && is_hot(loads0[h2], n, total);
            &&& r@.len() == (if !c0 {
                0int
            } else if !c1 {
                1int
            } else if !c2 {
                2int
            } else {
                3int
            })
            &&& (c0 ==> r@[0] == move_at(sv, loads0, h0))
            &&& (c1 ==> r@[1] == move_at(sv, loads1, h1))
            &&& (c2 ==> r@[2] == move_at(sv, loads2, h2))
            &&& ((forall|i: int| 0 <= i < n ==> !is_hot(#[trigger] loads0[i], n, total))
                ==> r@.len() == 0)
            &&& (forall|k: int|
                0 <= k < r@.len() ==> exists|i: int|
                    0 <= i < sv.len() && (#[trigger] r@[k]).from_server == sv[i].0)
            &&& (forall|k: int|
                0 <= k < r@.len() ==> exists|i: int|
                    0 <= i < sv.len() && (#[trigger] r@[k]).to_server == sv[i].0)
        }),
{
    let ghost sv = stats_of(backends@);
    let ghost loads0 = loads_of(sv);
    proof {
        assert forall|i: int| 0 <= i < loads0.len() implies loads0[i] >= 0 by {
            assert(loads0[i] == sum_loads(sv[i].1));
            lemma_sum_loads_nonneg(sv[i].1);
        }
        assert forall|i: int|
            0 <= i < backends@.len() && (#[trigger] backends@[i]).health.inner.usage is Some
            implies sum_loads(backends@[i].health.inner.usage.unwrap().slices@)
            <= u32::MAX by {
            lemma_stat_in(backends@, i);
            let y = stat_of(backends@[i]).unwrap();
            let k = choose|k: int| 0 <= k < sv.len() && sv[k] == y;
            assert(loads0[k] == sum_loads(sv[k].1));
            lemma_sum_of_ge_element(loads0, k);
        }
    }
    let stats = collect_server_stats(backends);
    let n = stats.len();
    let mut orig: Vec<u32> = Vec::new();
    let mut i: usize = 0;
    while i < stats.len()
        invariant
            i <= stats@.len(),
            orig@.len() == i,
            forall|k: int| 0 <= k < i ==> orig@[k] == (#[trigger] stats@[k]).total,
        decreases stats@.len() - i,
    {
        orig.push(stats[i].total);
        i = i + 1;
    }
    proof {
        assert(sv == stat_views(stats@));
        assert forall|k: int| 0 <= k < sv.len() implies u32s(orig@)[k] == loads0[k] by {
            assert(sv[k] == (stats@[k].addr, stats@[k].slices@));
            assert(loads0[k] == sum_loads(sv[k].1));
            assert(u32s(orig@)[k] == orig@[k] as int);
        }
        assert(u32s(orig@) =~= loads0);
    }
    let mut moves: Vec<Move> = Vec::new();
    let mut total64: u64 = 0;
    let mut j: usize = 0;
    proof {
        assert forall|k: int| 0 <= k <= loads0.len() implies sum_of(#[trigger] loads0.take(k))
            <= sum_of(loads0) && sum_of(loads0.take(k)) >= 0 by {
            lemma_sum_take_facts(loads0, k);
        }
    }
    while j < orig.len()
        invariant
            j <= orig@.len(),
            u32s(orig@) == loads0,
            sum_of(loads0) <= u32::MAX,
            total64 as int == sum_of(loads0.take(j as int)),
            forall|k: int|
                0 <= k <= loads0.len() ==> sum_of(#[trigger] loads0.take(k)) <= sum_of(loads0)
                    && sum_of(loads0.take(k)) >= 0,
        decreases orig@.len() - j,
    {
        proof {
            assert(loads0.take(j + 1 as int).drop_last() =~= loads0.take(j as int));
            assert(loads0.take(j + 1 as int).last() == loads0[j as int]);
            assert(loads0[j as int] == orig@[j as int] as int);
        }
        total64 = total64 + (orig[j] as u64);
        j = j + 1;
    }
    proof {
        assert(loads0.take(loads0.len() as int) =~= loads0);
    }
    let total: u32 = total64 as u32;

    let f0 = match argmax_excl_exec(&orig, None, None) {
        Some(f) => f,
        None => {
            proof {
                lemma_argmax_excl_props(loads0, -1, -1);
            }
            return moves;
        },
    };
    proof {
        lemma_argmax_excl_props(loads0, -1, -1);
    }
    if !hot_exec(orig[f0], n, total) {
        return moves;
    }
    proof {
        lemma_sum_of_ge_element(loads0, f0 as int);
        lemma_hot_needs_two(loads0[f0 as int], n as int, sum_of(loads0));
        if sv[f0 as int].1.len() == 0 {
            assert(sum_loads(sv[f0 as int].1) == 0);
            assert(false);
        }
        assert(stats@[f0 as int].slices@ == sv[f0 as int].1);
    }
    let mut run = copy_loads(&orig);
    let mv0 = do_move(&stats, &mut run, f0);
    moves.push(mv0);
    proof {
        lemma_argmin_excl_props(loads0, f0 as int);
    }

    let f1 = match argmax_excl_exec(&orig, Some(f0), None) {
        Some(f) => f,
        None => {
            return moves;
        },
    };
    if !hot_exec(orig[f1], n, total) {
        return moves;
    }
    let ghost loads1 = step_loads(sv, loads0, f0 as int);
    proof {
        lemma_argmax_excl_props(loads0, f0 as int, -1);
        lemma_sum_of_ge_element(loads0, f1 as int);
        lemma_hot_needs_two(loads0[f1 as int], n as int, sum_of(loads0));
        if sv[f1 as int].1.len() == 0 {
            assert(sum_loads(sv[f1 as int].1) == 0);
            assert(false);
        }
        assert(u32s(run@) == loads1);
        assert(u32s(run@)[f1 as int] >= loads0[f1 as int]);
        assert(loads0[f1 as int] == sum_loads(stats@[f1 as int].slices@));
    }
    let mv1 = do_move(&stats, &mut run, f1);
    moves.push(mv1);
    proof {
        lemma_argmin_excl_props(loads1, f1 as int);
    }

    let f2 = match argmax_excl_exec(&orig, Some(f0), Some(f1)) {
        Some(f) => f,
        None => {
            return moves;
        },
    };
    if !hot_exec(orig[f2], n, total) {
        return moves;
    }
    let ghost loads2 = step_loads(sv, loads1, f1 as int);
    proof {
        lemma_argmax_excl_props(loads0, f0 as int, f1 as int);
        lemma_sum_of_ge_element(loads0, f2 as int);
        lemma_hot_needs_two(loads0[f2 as int], n as int, sum_of(loads0));
        if sv[f2 as int].1.len() == 0 {
            assert(sum_loads(sv[f2 as int].1) == 0);
            assert(false);
        }
        assert(u32s(run@) == loads2);
        assert(u32s(run@)[f2 as int] >= loads1[f2 as int]);
        assert(loads1[f2 as int] >= loads0[f2 as int]);
        assert(loads0[f2 as int] == sum_loads(stats@[f2 as int].slices@));
    }
    let mv2 = do_move(&stats, &mut run, f2);
    moves.push(mv2);
    proof {
        lemma_argmin_excl_props(loads2, f2 as int);
    }
    moves
}


/// The whole plan as one value: the moves `find_best_moves` returns.
pub open spec fn planned_moves(backends: Seq<Backend>) -> Seq<Move> {
    let sv = stats_of(backends);
    let loads0 = loads_of(sv);
    let n = sv.len() as int;
    let total = sum_of(loads0);
    let h0 = argmax_excl(loads0, -1, -1);
    let c0 = h0 != -1 && is_hot(loads0[h0], n, total);
    let loads1 = step_loads(sv, loads0, h0);
    let h1 = argmax_excl(loads0, h0, -1);
    let c1 = c0 && h1 != -1 && is_hot(loads0[h1], n, total);
    let loads2 = step_loads(sv, loads1, h1);
    let h2 = argmax_excl(loads0, h0, h1);
    let c2 = c1 && h2 != -1 && is_hot(loads0[h2], n, total);
    if !c0 {
        Seq::empty()
    } else if !c1 {
        seq![move_at(sv, loads0, h0)]
    } else if !c2 {
        seq![move_at(sv, loads0, h0), move_at(sv, loads1, h1)]
    } else {
        seq![move_at(sv, loads0, h0), move_at(sv, loads1, h1), move_at(sv, loads2, h2)]
    }
}

} // verus!
