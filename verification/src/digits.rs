//! Decimal rendering of unsigned numbers as ASCII bytes, with the facts the
//! address and record formats need: every byte is a digit, the rendering is
//! never empty, and it is injective.
use vstd::prelude::*;

verus! {

/// ASCII digit?
pub open spec fn is_digit(b: u8) -> bool {
    48 <= b <= 57
}

pub open spec fn all_digits(s: Seq<u8>) -> bool {
    forall|i: int| 0 <= i < s.len() ==> is_digit(#[trigger] s[i])
}

/// The canonical decimal rendering of `n` (no leading zeros; "0" for zero).
pub open spec fn dec_of(n: nat) -> Seq<u8>
    decreases n,
{
    if n < 10 {
        seq![(n + 48) as u8]
    } else {
        dec_of(n / 10).push((n % 10 + 48) as u8)
    }
}

pub proof fn lemma_dec_of_digits(n: nat)
    ensures
        dec_of(n).len() >= 1,
        all_digits(dec_of(n)),
    decreases n,
{
    if n >= 10 {
        lemma_dec_of_digits(n / 10);
        assert forall|i: int| 0 <= i < dec_of(n).len() implies is_digit(#[trigger] dec_of(n)[i]) by {
            if i < dec_of(n / 10).len() {
                assert(dec_of(n)[i] == dec_of(n / 10)[i]);
            }
        }
    }
}

/// No number above nine renders to a single byte.
proof fn lemma_dec_of_len(n: nat)
    ensures
        n < 10 <==> dec_of(n).len() == 1,
    decreases n,
{
    if n >= 10 {
        lemma_dec_of_digits(n / 10);
    }
}

/// Distinct numbers render to distinct byte strings.
pub proof fn lemma_dec_of_injective(m: nat, n: nat)
    requires
        dec_of(m) == dec_of(n),
    ensures
        m == n,
    decreases m,
{
    lemma_dec_of_len(m);
    lemma_dec_of_len(n);
    if m < 10 && n < 10 {
        assert(dec_of(m)[0] == (m + 48) as u8);
        assert(dec_of(n)[0] == (n + 48) as u8);
        assert((m + 48) as u8 == (n + 48) as u8);
    } else if m >= 10 && n >= 10 {
        assert(dec_of(m).last() == (m % 10 + 48) as u8);
        assert(dec_of(n).last() == (n % 10 + 48) as u8);
        assert(m % 10 < 10 && n % 10 < 10);
        assert(m % 10 == n % 10);
        assert(dec_of(m).drop_last() =~= dec_of(m / 10));
        assert(dec_of(n).drop_last() =~= dec_of(n / 10));
        lemma_dec_of_injective(m / 10, n / 10);
    }
}

/// Appends the decimal rendering of `n`.
pub fn push_dec(out: &mut Vec<u8>, n: u64)
    ensures
        final(out)@ == old(out)@ + dec_of(n as nat),
    decreases n,
{
    if n < 10 {
        out.push((n + 48) as u8);
        assert(out@ =~= old(out)@ + dec_of(n as nat));
    } else {
        push_dec(out, n / 10);
        out.push((n % 10 + 48) as u8);
        assert(out@ =~= old(out)@ + dec_of(n as nat));
    }
}

/// Two digit runs closed by non-digit separators split identically: the runs
/// agree and so do the remainders.
pub proof fn lemma_digit_run_split(d1: Seq<u8>, r1: Seq<u8>, d2: Seq<u8>, r2: Seq<u8>)
    requires
        all_digits(d1),
        all_digits(d2),
        r1.len() > 0,
        r2.len() > 0,
        !is_digit(r1[0]),
        !is_digit(r2[0]),
        d1 + r1 == d2 + r2,
    ensures
        d1 == d2,
        r1 == r2,
{
    let s = d1 + r1;
    if d1.len() < d2.len() {
        assert(s[d1.len() as int] == r1[0]);
        assert(s[d1.len() as int] == d2[d1.len() as int]);
        assert(false);
    } else if d2.len() < d1.len() {
        assert(s[d2.len() as int] == r2[0]);
        assert(s[d2.len() as int] == d1[d2.len() as int]);
        assert(false);
    } else {
        assert(d1.len() == d2.len());
        assert forall|i: int| 0 <= i < d1.len() implies d1[i] == d2[i] by {
            assert((d1 + r1)[i] == d1[i]);
            assert((d2 + r2)[i] == d2[i]);
        }
        assert(d1 =~= d2);
        assert((d1 + r1).len() == d1.len() + r1.len());
        assert((d2 + r2).len() == d2.len() + r2.len());
        assert(r1.len() == r2.len());
        assert forall|i: int| 0 <= i < r1.len() implies r1[i] == r2[i] by {
            assert((d1 + r1)[d1.len() + i] == r1[i]);
            assert((d2 + r2)[d2.len() + i] == r2[i]);
        }
        assert(r1 =~= r2);
    }
}

} // verus!
