//! The durable record's text: the assignment serialized as the JSON object
//! `{"servers":["a.b.c.d:port",...],"assignments":[i,...]}`, byte for byte.
use vstd::prelude::*;
use crate::addr::{WorkerAddr, addr_bytes, format_addr};
use crate::assignments::SliceAssignments;
use crate::digits::{dec_of, push_dec};

verus! {

/// `{"servers":[`
pub open spec fn record_head() -> Seq<u8> {
    seq![123u8, 34u8, 115u8, 101u8, 114u8, 118u8, 101u8, 114u8, 115u8, 34u8, 58u8, 91u8]
}

/// `],"assignments":[`
pub open spec fn record_mid() -> Seq<u8> {
    seq![93u8, 44u8, 34u8, 97u8, 115u8, 115u8, 105u8, 103u8, 110u8, 109u8, 101u8, 110u8, 116u8,
        115u8, 34u8, 58u8, 91u8]
}

/// `]}`
pub open spec fn record_tail() -> Seq<u8> {
    seq![93u8, 125u8]
}

/// `"a.b.c.d:port"`
pub open spec fn quoted_addr(w: WorkerAddr) -> Seq<u8> {
    seq![34u8] + addr_bytes(w) + seq![34u8]
}

/// The server texts, quoted and comma-separated.
pub open spec fn servers_json(s: Seq<WorkerAddr>) -> Seq<u8>
    decreases s.len(),
{
    if s.len() == 0 {
        Seq::empty()
    } else if s.len() == 1 {
        quoted_addr(s[0])
    } else {
        servers_json(s.drop_last()) + seq![44u8] + quoted_addr(s.last())
    }
}

/// The owner indices, comma-separated decimals.
pub open spec fn assignments_json(a: Seq<usize>) -> Seq<u8>
    decreases a.len(),
{
    if a.len() == 0 {
        Seq::empty()
    } else if a.len() == 1 {
        dec_of(a[0] as nat)
    } else {
        assignments_json(a.drop_last()) + seq![44u8] + dec_of(a.last() as nat)
    }
}

/// The whole record.
pub open spec fn record_json(servers: Seq<WorkerAddr>, assignments: Seq<usize>) -> Seq<u8> {
    record_head() + servers_json(servers) + record_mid() + assignments_json(assignments)
        + record_tail()
}

/// Appends `"a.b.c.d:port"`.
fn push_quoted_addr(out: &mut Vec<u8>, w: &WorkerAddr)
    ensures
        final(out)@ == old(out)@ + quoted_addr(*w),
{
    out.push(34);
    let text = format_addr(w);
    let mut i: usize = 0;
    while i < text.len()
        invariant
            i <= text@.len(),
            text@ == addr_bytes(*w),
            out@ == old(out)@ + seq![34u8] + text@.take(i as int),
        decreases text@.len() - i,
    {
        out.push(text[i]);
        proof {
            assert(out@ =~= old(out)@ + seq![34u8] + text@.take(i + 1 as int));
        }
        i = i + 1;
    }
    out.push(34);
    proof {
        assert(text@.take(text@.len() as int) =~= text@);
        assert(out@ =~= old(out)@ + quoted_addr(*w));
    }
}

/// Serializes the assignment as its durable record text.
pub fn record_to_json(sa: &SliceAssignments) -> (r: Vec<u8>)
    ensures
        r@ == record_json(sa.servers@, sa.assignments@),
{
    let mut out: Vec<u8> = Vec::new();
    out.push(123);
    out.push(34);
    out.push(115);
    out.push(101);
    out.push(114);
    out.push(118);
    out.push(101);
    out.push(114);
    out.push(115);
    out.push(34);
    out.push(58);
    out.push(91);
    proof {
        assert(out@ =~= record_head());
    }
    let mut i: usize = 0;
    while i < sa.servers.len()
        invariant
            i <= sa.servers@.len(),
            out@ == record_head() + servers_json(sa.servers@.take(i as int)),
        decreases sa.servers@.len() - i,
    {
        if i > 0 {
            out.push(44);
        }
        push_quoted_addr(&mut out, &sa.servers[i]);
        proof {
            let t1 = sa.servers@.take(i + 1 as int);
            assert(t1.drop_last() =~= sa.servers@.take(i as int));
            assert(t1.last() == sa.servers@[i as int]);
            if i == 0 {
                assert(servers_json(t1) == quoted_addr(sa.servers@[0]));
                assert(out@ =~= record_head() + servers_json(t1));
            } else {
                assert(out@ =~= record_head() + servers_json(t1));
            }
        }
        i = i + 1;
    }
    proof {
        assert(sa.servers@.take(sa.servers@.len() as int) =~= sa.servers@);
    }
    let ghost part1 = record_head() + servers_json(sa.servers@);
    out.push(93);
    out.push(44);
    out.push(34);
    out.push(97);
    out.push(115);
    out.push(115);
    out.push(105);
    out.push(103);
    out.push(110);
    out.push(109);
    out.push(101);
    out.push(110);
    out.push(116);
    out.push(115);
    out.push(34);
    out.push(58);
    out.push(91);
    proof {
        assert(out@ =~= part1 + record_mid());
    }
    let mut j: usize = 0;
    while j < sa.assignments.len()
        invariant
            j <= sa.assignments@.len(),
            part1 == record_head() + servers_json(sa.servers@),
            out@ == part1 + record_mid() + assignments_json(sa.assignments@.take(j as int)),
        decreases sa.assignments@.len() - j,
    {
        if j > 0 {
            out.push(44);
        }
        push_dec(&mut out, sa.assignments[j] as u64);
        proof {
            let t1 = sa.assignments@.take(j + 1 as int);
            assert(t1.drop_last() =~= sa.assignments@.take(j as int));
            assert(t1.last() == sa.assignments@[j as int]);
            assert(out@ =~= part1 + record_mid() + assignments_json(t1));
        }
        j = j + 1;
    }
    proof {
        assert(sa.assignments@.take(sa.assignments@.len() as int) =~= sa.assignments@);
    }
    out.push(93);
    out.push(125);
    proof {
        assert(out@ =~= record_json(sa.servers@, sa.assignments@));
    }
    out
}

} // verus!
