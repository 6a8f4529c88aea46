//! Worker addresses: an IPv4 `host:port`, its total order, its canonical
//! text, and the ordered duplicate-free address lists that assignments use.
use vstd::prelude::*;
use crate::digits::{all_digits, dec_of, is_digit, lemma_dec_of_digits, lemma_dec_of_injective,
    lemma_digit_run_split, push_dec};

verus! {

/// An IPv4 worker address: four octets and a port.
#[derive(Clone, Copy, PartialEq, Eq, Structural, Debug, Hash)]
pub struct WorkerAddr {
    pub a: u8,
    pub b: u8,
    pub c: u8,
    pub d: u8,
    pub port: u16,
}

/// A discovered address: an IPv4 worker, or something else (never assigned
/// slices, dropped when assignments are built).
#[derive(Clone, Copy, PartialEq, Eq, Structural, Debug)]
pub enum Discovered {
    V4(WorkerAddr),
    Other,
}

/// The address packed into one integer; defines the ascending order of
/// server lists (octets first, then port).
pub open spec fn addr_key(w: WorkerAddr) -> int {
    (((w.a * 256 + w.b) * 256 + w.c) * 256 + w.d) * 65536 + w.port
}

pub open spec fn addr_lt(x: WorkerAddr, y: WorkerAddr) -> bool {
    addr_key(x) < addr_key(y)
}

/// Ascending with no duplicates.
pub open spec fn strictly_sorted(s: Seq<WorkerAddr>) -> bool {
    forall|i: int, j: int| 0 <= i < j < s.len() ==> addr_lt(#[trigger] s[i], #[trigger] s[j])
}

/// A strictly sorted list holds each address at most once.
pub proof fn lemma_strictly_sorted_distinct(s: Seq<WorkerAddr>, i: int, j: int)
    requires
        strictly_sorted(s),
        0 <= i < s.len(),
        0 <= j < s.len(),
        s[i] == s[j],
    ensures
        i == j,
{
    if i < j {
        assert(addr_lt(s[i], s[j]));
    } else if j < i {
        assert(addr_lt(s[j], s[i]));
    }
}

/// Two strictly sorted lists with the same members are the same list.
pub proof fn lemma_strictly_sorted_equal(x: Seq<WorkerAddr>, y: Seq<WorkerAddr>)
    requires
        strictly_sorted(x),
        strictly_sorted(y),
        forall|w: WorkerAddr| x.contains(w) <==> y.contains(w),
    ensures
        x == y,
    decreases x.len(),
{
    if x.len() == 0 {
        if y.len() > 0 {
            assert(y.contains(y[0]));
            assert(false);
        }
        assert(x =~= y);
    } else {
        assert(x.contains(x[0]));
        assert(y.contains(y[0]));
        let i = choose|i: int| 0 <= i < y.len() && y[i] == x[0];
        let j = choose|j: int| 0 <= j < x.len() && x[j] == y[0];
        if i > 0 {
            assert(addr_lt(y[0], y[i]));
            if j > 0 {
                assert(addr_lt(x[0], x[j]));
            }
            assert(false);
        }
        assert(x[0] == y[0]);
        let xt = x.drop_first();
        let yt = y.drop_first();
        assert forall|w: WorkerAddr| xt.contains(w) <==> yt.contains(w) by {
            if xt.contains(w) {
                let k = choose|k: int| 0 <= k < xt.len() && xt[k] == w;
                assert(x[k + 1] == w);
                assert(x.contains(w));
                assert(y.contains(w));
                let m = choose|m: int| 0 <= m < y.len() && y[m] == w;
                if m == 0 {
                    lemma_strictly_sorted_distinct(x, 0, k + 1);
                    assert(false);
                }
                assert(yt[m - 1] == w);
            }
            if yt.contains(w) {
                let k = choose|k: int| 0 <= k < yt.len() && yt[k] == w;
                assert(y[k + 1] == w);
                assert(y.contains(w));
                assert(x.contains(w));
                let m = choose|m: int| 0 <= m < x.len() && x[m] == w;
                if m == 0 {
                    lemma_strictly_sorted_distinct(y, 0, k + 1);
                    assert(false);
                }
                assert(xt[m - 1] == w);
            }
        }
        lemma_strictly_sorted_equal(xt, yt);
        assert(x.len() == y.len());
        assert forall|i: int| 0 <= i < x.len() implies x[i] == y[i] by {
            if i > 0 {
                assert(xt[i - 1] == x[i]);
                assert(yt[i - 1] == y[i]);
            }
        }
        assert(x =~= y);
    }
}

/// The packed key decodes the fields: equal keys mean equal addresses.
pub proof fn lemma_addr_key_injective(c: WorkerAddr, x: WorkerAddr)
    requires
        addr_key(c) == addr_key(x),
    ensures
        c == x,
{
    assert(c.port == x.port && c.d == x.d && c.c == x.c && c.b == x.b && c.a == x.a)
        by (nonlinear_arith)
        requires
            c.a < 256 && c.b < 256 && c.c < 256 && c.d < 256 && c.port < 65536,
            x.a < 256 && x.b < 256 && x.c < 256 && x.d < 256 && x.port < 65536,
            (((c.a * 256 + c.b) * 256 + c.c) * 256 + c.d) * 65536 + c.port == (((x.a * 256 + x.b)
                * 256 + x.c) * 256 + x.d) * 65536 + x.port,
    ;
}

/// The packed key, computed.
pub fn addr_key_u64(w: &WorkerAddr) -> (r: u64)
    ensures
        r == addr_key(*w),
{
    ((((w.a as u64) * 256 + (w.b as u64)) * 256 + (w.c as u64)) * 256 + (w.d as u64)) * 65536
        + (w.port as u64)
}

/// The canonical text of an address: `a.b.c.d:port`.
pub open spec fn addr_bytes(w: WorkerAddr) -> Seq<u8> {
    dec_of(w.a as nat) + (seq![46u8] + (dec_of(w.b as nat) + (seq![46u8] + (dec_of(w.c as nat) + (
    seq![46u8] + (dec_of(w.d as nat) + (seq![58u8] + dec_of(w.port as nat))))))))
}

/// Renders `a.b.c.d:port`.
pub fn format_addr(w: &WorkerAddr) -> (r: Vec<u8>)
    ensures
        r@ == addr_bytes(*w),
{
    let mut out: Vec<u8> = Vec::new();
    push_dec(&mut out, w.a as u64);
    out.push(46);
    push_dec(&mut out, w.b as u64);
    out.push(46);
    push_dec(&mut out, w.c as u64);
    out.push(46);
    push_dec(&mut out, w.d as u64);
    out.push(58);
    push_dec(&mut out, w.port as u64);
    assert(out@ =~= addr_bytes(*w));
    out
}

/// Equal sequences with the same single byte in front have equal tails.
proof fn lemma_tail_eq(h: u8, t1: Seq<u8>, t2: Seq<u8>)
    requires
        seq![h] + t1 == seq![h] + t2,
    ensures
        t1 == t2,
{
    assert((seq![h] + t1).len() == 1 + t1.len());
    assert((seq![h] + t2).len() == 1 + t2.len());
    assert forall|i: int| 0 <= i < t1.len() implies t1[i] == t2[i] by {
        assert((seq![h] + t1)[i + 1] == t1[i]);
        assert((seq![h] + t2)[i + 1] == t2[i]);
    }
    assert(t1 =~= t2);
}

/// One peeling step: a digit run, one separator byte, a remainder.
proof fn lemma_peel(n1: nat, n2: nat, sep: u8, t1: Seq<u8>, t2: Seq<u8>)
    requires
        !is_digit(sep),
        dec_of(n1) + (seq![sep] + t1) == dec_of(n2) + (seq![sep] + t2),
    ensures
        n1 == n2,
        t1 == t2,
{
    lemma_dec_of_digits(n1);
    lemma_dec_of_digits(n2);
    assert((seq![sep] + t1)[0] == sep);
    assert((seq![sep] + t2)[0] == sep);
    lemma_digit_run_split(dec_of(n1), seq![sep] + t1, dec_of(n2), seq![sep] + t2);
    lemma_dec_of_injective(n1, n2);
    lemma_tail_eq(sep, t1, t2);
}

/// Two addresses with the same text are the same address.
pub proof fn lemma_addr_bytes_injective(x: WorkerAddr, y: WorkerAddr)
    requires
        addr_bytes(x) == addr_bytes(y),
    ensures
        x == y,
{
    let tx1 = dec_of(x.b as nat) + (seq![46u8] + (dec_of(x.c as nat) + (seq![46u8] + (dec_of(
        x.d as nat,
    ) + (seq![58u8] + dec_of(x.port as nat))))));
    let ty1 = dec_of(y.b as nat) + (seq![46u8] + (dec_of(y.c as nat) + (seq![46u8] + (dec_of(
        y.d as nat,
    ) + (seq![58u8] + dec_of(y.port as nat))))));
    lemma_peel(x.a as nat, y.a as nat, 46u8, tx1, ty1);
    let tx2 = dec_of(x.c as nat) + (seq![46u8] + (dec_of(x.d as nat) + (seq![58u8] + dec_of(
        x.port as nat,
    ))));
    let ty2 = dec_of(y.c as nat) + (seq![46u8] + (dec_of(y.d as nat) + (seq![58u8] + dec_of(
        y.port as nat,
    ))));
    lemma_peel(x.b as nat, y.b as nat, 46u8, tx2, ty2);
    let tx3 = dec_of(x.d as nat) + (seq![58u8] + dec_of(x.port as nat));
    let ty3 = dec_of(y.d as nat) + (seq![58u8] + dec_of(y.port as nat));
    lemma_peel(x.c as nat, y.c as nat, 46u8, tx3, ty3);
    lemma_peel(x.d as nat, y.d as nat, 58u8, dec_of(x.port as nat), dec_of(y.port as nat));
    lemma_dec_of_injective(x.port as nat, y.port as nat);
}

/// Inserts `x` into a strictly sorted list, keeping it strictly sorted;
/// a duplicate is dropped.
fn insert_unique(v: &mut Vec<WorkerAddr>, x: WorkerAddr)
    requires
        strictly_sorted(old(v)@),
    ensures
        strictly_sorted(final(v)@),
        forall|w: WorkerAddr| final(v)@.contains(w) <==> (old(v)@.contains(w) || w == x),
{
    let kx = addr_key_u64(&x);
    let mut i: usize = 0;
    while i < v.len() && addr_key_u64(&v[i]) < kx
        invariant
            strictly_sorted(v@),
            v@ == old(v)@,
            i <= v@.len(),
            forall|k: int| 0 <= k < i ==> addr_key(#[trigger] v@[k]) < kx,
            kx == addr_key(x),
        decreases v@.len() - i,
    {
        i = i + 1;
    }
    if i < v.len() {
        let kc = addr_key_u64(&v[i]);
        if kc == kx {
            proof {
                lemma_addr_key_injective(v@[i as int], x);
                assert(v@.contains(v@[i as int]));
            }
            return ;
        }
        assert(addr_key(v@[i as int]) > kx);
    }
    v.insert(i, x);
    proof {
        let pre = old(v)@;
        assert forall|k: int| i <= k < pre.len() implies addr_key(#[trigger] pre[k]) > addr_key(
            x,
        ) by {
            if k > i {
                assert(addr_lt(pre[i as int], pre[k]));
            }
        }
        assert forall|p: int, q: int| 0 <= p < q < v@.len() implies addr_lt(
            #[trigger] v@[p],
            #[trigger] v@[q],
        ) by {
            if q < i {
            } else if p == i && q > i {
                assert(pre[q - 1] == v@[q]);
            } else if p < i && q == i {
                assert(pre[p] == v@[p]);
            } else if p < i && q > i {
                assert(pre[p] == v@[p]);
                assert(pre[q - 1] == v@[q]);
            } else if p > i {
                assert(pre[p - 1] == v@[p]);
                assert(pre[q - 1] == v@[q]);
            }
        }
        assert forall|w: WorkerAddr| v@.contains(w) <==> (pre.contains(w) || w == x) by {
            if v@.contains(w) {
                let k = choose|k: int| 0 <= k < v@.len() && v@[k] == w;
                if k < i {
                    assert(pre[k] == w);
                    assert(pre.contains(w));
                } else if k > i {
                    assert(pre[k - 1] == w);
                    assert(pre.contains(w));
                }
            }
            if pre.contains(w) {
                let k = choose|k: int| 0 <= k < pre.len() && pre[k] == w;
                if k < i {
                    assert(v@[k] == w);
                } else {
                    assert(v@[k + 1] == w);
                }
                assert(v@.contains(w));
            }
            if w == x {
                assert(v@[i as int] == w);
                assert(v@.contains(w));
            }
        }
    }
}

/// The IPv4 members of a discovered list, ascending, without duplicates.
pub fn sort_unique_v4(input: &Vec<Discovered>) -> (r: Vec<WorkerAddr>)
    ensures
        strictly_sorted(r@),
        forall|w: WorkerAddr| r@.contains(w) <==> input@.contains(Discovered::V4(w)),
{
    let mut out: Vec<WorkerAddr> = Vec::new();
    let mut i: usize = 0;
    while i < input.len()
        invariant
            strictly_sorted(out@),
            i <= input@.len(),
            forall|w: WorkerAddr|
                out@.contains(w) <==> input@.take(i as int).contains(Discovered::V4(w)),
        decreases input@.len() - i,
    {
        match input[i] {
            Discovered::V4(w) => {
                insert_unique(&mut out, w);
            },
            Discovered::Other => {},
        }
        proof {
            assert(input@.take(i + 1 as int) =~= input@.take(i as int).push(input@[i as int]));
            assert forall|w: WorkerAddr|
                out@.contains(w) <==> input@.take(i + 1 as int).contains(Discovered::V4(w)) by {
                let t = input@.take(i as int);
                let t1 = input@.take(i + 1 as int);
                assert(t1[i as int] == input@[i as int]);
                if t.contains(Discovered::V4(w)) {
                    let k = choose|k: int| 0 <= k < t.len() && t[k] == Discovered::V4(w);
                    assert(t1[k] == Discovered::V4(w));
                    assert(t1.contains(Discovered::V4(w)));
                }
                if input@[i as int] == Discovered::V4(w) {
                    assert(t1.contains(Discovered::V4(w)));
                }
                if t1.contains(Discovered::V4(w)) {
                    let k = choose|k: int| 0 <= k < t1.len() && t1[k] == Discovered::V4(w);
                    if k < i {
                        assert(t[k] == Discovered::V4(w));
                        assert(t.contains(Discovered::V4(w)));
                    } else {
                        assert(input@[i as int] == Discovered::V4(w));
                    }
                }
            }
        }
        i = i + 1;
    }
    proof {
        assert(input@.take(input@.len() as int) =~= input@);
    }
    out
}

/// The position of `x` in `v`, by field equality.
pub fn index_of(v: &Vec<WorkerAddr>, x: &WorkerAddr) -> (r: Option<usize>)
    ensures
        match r {
            Some(i) => i < v@.len() && v@[i as int] == *x,
            None => !v@.contains(*x),
        },
{
    let mut i: usize = 0;
    while i < v.len()
        invariant
            i <= v@.len(),
            forall|k: int| 0 <= k < i ==> v@[k] != *x,
        decreases v@.len() - i,
    {
        if v[i] == *x {
            return Some(i);
        }
        i = i + 1;
    }
    proof {
        if v@.contains(*x) {
            let k = choose|k: int| 0 <= k < v@.len() && v@[k] == *x;
            assert(false);
        }
    }
    None
}

} // verus!
