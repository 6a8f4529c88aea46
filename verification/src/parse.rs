//! Parsing a discovered `host:port` text: a canonical dotted quad with a
//! port is an IPv4 worker; any other host with a valid port is a non-IPv4
//! discovery; everything else is malformed and dropped.
use vstd::prelude::*;
use crate::addr::{Discovered, WorkerAddr};
use crate::addr::addr_bytes;
use crate::digits::{all_digits, dec_of, is_digit, lemma_dec_of_digits};

verus! {

/// A non-empty digit run without a leading zero (a lone `0` is allowed).
pub open spec fn is_canon_dec(s: Seq<u8>) -> bool {
    &&& s.len() > 0
    &&& (forall|i: int| 0 <= i < s.len() ==> is_digit(#[trigger] s[i]))
    &&& (s.len() > 1 ==> s[0] != 48)
}

/// The value of a digit run.
pub open spec fn dec_val(s: Seq<u8>) -> int
    decreases s.len(),
{
    if s.len() == 0 {
        0
    } else {
        dec_val(s.drop_last()) * 10 + (s.last() - 48)
    }
}

/// The last position of byte 58 (`:`); -1 when there is none.
pub open spec fn rfind_colon(s: Seq<u8>) -> int
    decreases s.len(),
{
    if s.len() == 0 {
        -1
    } else if s.last() == 58 {
        s.len() - 1
    } else {
        rfind_colon(s.drop_last())
    }
}

/// The first position of byte `b` at or after `from`; -1 when there is none.
pub open spec fn find_byte(s: Seq<u8>, from: int, b: u8) -> int
    decreases s.len() - from,
{
    if from < 0 || from >= s.len() {
        -1
    } else if s[from] == b {
        from
    } else {
        find_byte(s, from + 1, b)
    }
}

/// A canonical dotted quad: four octet runs separated by exactly three dots.
pub open spec fn parse_quad(h: Seq<u8>) -> Option<(u8, u8, u8, u8)> {
    let d1 = find_byte(h, 0, 46);
    let d2 = find_byte(h, d1 + 1, 46);
    let d3 = find_byte(h, d2 + 1, 46);
    if d1 == -1 || d2 == -1 || d3 == -1 || find_byte(h, d3 + 1, 46) != -1 {
        None
    } else {
        let p1 = h.subrange(0, d1);
        let p2 = h.subrange(d1 + 1, d2);
        let p3 = h.subrange(d2 + 1, d3);
        let p4 = h.subrange(d3 + 1, h.len() as int);
        if is_canon_dec(p1) && dec_val(p1) <= 255 && is_canon_dec(p2) && dec_val(p2) <= 255
            && is_canon_dec(p3) && dec_val(p3) <= 255 && is_canon_dec(p4) && dec_val(p4) <= 255 {
            Some(
                (
                    dec_val(p1) as u8,
                    dec_val(p2) as u8,
                    dec_val(p3) as u8,
                    dec_val(p4) as u8,
                ),
            )
        } else {
            None
        }
    }
}

/// What a discovered text denotes: split at the last `:`; the right part
/// must be a canonical port; a dotted-quad left part is an IPv4 worker, any
/// other non-empty left part is a non-IPv4 discovery.
pub open spec fn parse_addr_spec(s: Seq<u8>) -> Option<Discovered> {
    let c = rfind_colon(s);
    if c <= 0 {
        None
    } else {
        let p = s.subrange(c + 1, s.len() as int);
        if !(is_canon_dec(p) && dec_val(p) <= 65535) {
            None
        } else {
            let h = s.subrange(0, c);
            match parse_quad(h) {
                Some(q) => Some(
                    Discovered::V4(
                        WorkerAddr {
                            a: q.0,
                            b: q.1,
                            c: q.2,
                            d: q.3,
                            port: dec_val(p) as u16,
                        },
                    ),
                ),
                None => Some(Discovered::Other),
            }
        }
    }
}

/// Parses the digit run `s[from..to]` as a value of at most `max`.
fn parse_dec_exec(s: &[u8], from: usize, to: usize, max: u32) -> (r: Option<u32>)
    requires
        from <= to <= s@.len(),
    ensures
        match r {
            Some(v) => is_canon_dec(s@.subrange(from as int, to as int)) && dec_val(
                s@.subrange(from as int, to as int),
            ) == v && v <= max,
            None => !(is_canon_dec(s@.subrange(from as int, to as int)) && dec_val(
                s@.subrange(from as int, to as int),
            ) <= max),
        },
{
    let ghost part = s@.subrange(from as int, to as int);
    if from == to {
        return None;
    }
    if to - from > 1 && s[from] == 48 {
        return None;
    }
    let mut acc: u32 = 0;
    let mut i: usize = from;
    while i < to
        invariant
            from <= i <= to <= s@.len(),
            part == s@.subrange(from as int, to as int),
            part.len() > 0,
            forall|k: int| 0 <= k < i - from ==> is_digit(#[trigger] part[k]),
            acc == dec_val(part.take(i - from)),
            acc <= max,
        decreases to - i,
    {
        let ch = s[i];
        if ch < 48 || ch > 57 {
            proof {
                assert(part[i - from] == s@[i as int]);
                assert(!is_digit(part[i - from]));
            }
            return None;
        }
        proof {
            assert(part.take(i - from + 1).drop_last() =~= part.take(i - from));
            assert(part.take(i - from + 1).last() == part[i - from]);
            assert(part[i - from] == s@[i as int]);
        }
        let d = (ch - 48) as u32;
        if acc > max / 10 || (acc == max / 10 && d > max % 10) {
            proof {
                assert(dec_val(part.take(i - from + 1)) == acc * 10 + d);
                assert(acc * 10 + d > max) by (nonlinear_arith)
                    requires
                        acc > max / 10 || (acc == max / 10 && d > max % 10),
                        max == (max / 10) * 10 + (max % 10),
                        0 <= max % 10 < 10,
                        0 <= d <= 9,
                        acc >= 0,
                ;
                if is_canon_dec(part) {
                    lemma_dec_val_grows(part, i - from + 1);
                }
            }
            return None;
        }
        proof {
            assert(acc * 10 + d <= max) by (nonlinear_arith)
                requires
                    acc <= max / 10,
                    acc < max / 10 || d <= max % 10,
                    max == (max / 10) * 10 + (max % 10),
                    0 <= max % 10 < 10,
                    0 <= d <= 9,
                    acc >= 0,
            ;
        }
        acc = acc * 10 + d;
        i = i + 1;
    }
    proof {
        assert(part.take(part.len() as int) =~= part);
    }
    Some(acc)
}

/// With every byte a digit, the whole run's value is at least any prefix's.
proof fn lemma_dec_val_grows(s: Seq<u8>, j: int)
    requires
        0 <= j <= s.len(),
        forall|k: int| 0 <= k < s.len() ==> is_digit(#[trigger] s[k]),
    ensures
        dec_val(s) >= dec_val(s.take(j)),
    decreases s.len() - j,
{
    if j == s.len() {
        assert(s.take(j) =~= s);
    } else {
        assert(s.take(j + 1).drop_last() =~= s.take(j));
        assert(dec_val(s.take(j + 1)) == dec_val(s.take(j)) * 10 + (s[j] - 48));
        lemma_dec_val_nonneg(s.take(j));
        assert(dec_val(s.take(j + 1)) >= dec_val(s.take(j))) by (nonlinear_arith)
            requires
                dec_val(s.take(j + 1)) == dec_val(s.take(j)) * 10 + (s[j] - 48),
                dec_val(s.take(j)) >= 0,
                s[j] >= 48,
        ;
        lemma_dec_val_grows(s, j + 1);
    }
}

proof fn lemma_dec_val_nonneg(s: Seq<u8>)
    requires
        forall|k: int| 0 <= k < s.len() ==> is_digit(#[trigger] s[k]),
    ensures
        dec_val(s) >= 0,
    decreases s.len(),
{
    if s.len() > 0 {
        assert forall|k: int| 0 <= k < s.len() - 1 implies is_digit(#[trigger] s.drop_last()[k]) by {
            assert(s.drop_last()[k] == s[k]);
        }
        lemma_dec_val_nonneg(s.drop_last());
    }
}

/// Parses one discovered text.
pub fn parse_addr(s: &[u8]) -> (r: Option<Discovered>)
    ensures
        r == parse_addr_spec(s@),
{
    let c = match rfind_colon_exec(s) {
        Some(c) => c,
        None => {
            return None;
        },
    };
    if c == 0 {
        return None;
    }
    let n = s.len();
    assert(c < n);
    let port = match parse_dec_exec(s, c + 1, n, 65535) {
        Some(p) => p,
        None => {
            return None;
        },
    };
    let quad = parse_quad_exec(s, c);
    match quad {
        Some(q) => Some(
            Discovered::V4(
                WorkerAddr { a: q.0, b: q.1, c: q.2, d: q.3, port: port as u16 },
            ),
        ),
        None => Some(Discovered::Other),
    }
}

/// The exec twin of `rfind_colon`.
fn rfind_colon_exec(s: &[u8]) -> (r: Option<usize>)
    ensures
        match r {
            Some(i) => rfind_colon(s@) == i as int && i < s@.len(),
            None => rfind_colon(s@) == -1,
        },
{
    let mut i: usize = s.len();
    proof {
        assert(s@.take(s@.len() as int) =~= s@);
    }
    while i > 0
        invariant
            i <= s@.len(),
            rfind_colon(s@) == rfind_colon(s@.take(i as int)),
        decreases i,
    {
        proof {
            assert(s@.take(i as int).drop_last() =~= s@.take(i - 1));
            assert(s@.take(i as int).last() == s@[i - 1]);
        }
        i = i - 1;
        if s[i] == 58 {
            return Some(i);
        }
    }
    None
}

/// The exec twin of `parse_quad` on `s[0..c]`.
fn parse_quad_exec(s: &[u8], c: usize) -> (r: Option<(u8, u8, u8, u8)>)
    requires
        c <= s@.len(),
    ensures
        r == parse_quad(s@.subrange(0, c as int)),
{
    let ghost h = s@.subrange(0, c as int);
    let d1 = match find_in_prefix(s, 0, c) {
        Some(d) => d,
        None => {
            return None;
        },
    };
    let d2 = match find_in_prefix(s, d1 + 1, c) {
        Some(d) => d,
        None => {
            return None;
        },
    };
    let d3 = match find_in_prefix(s, d2 + 1, c) {
        Some(d) => d,
        None => {
            return None;
        },
    };
    match find_in_prefix(s, d3 + 1, c) {
        Some(_) => {
            return None;
        },
        None => {},
    }
    let p1 = match parse_dec_exec(s, 0, d1, 255) {
        Some(v) => v,
        None => {
            proof {
                lemma_prefix_subrange(s@, 0, d1 as int, c as int);
            }
            return None;
        },
    };
    let p2 = match parse_dec_exec(s, d1 + 1, d2, 255) {
        Some(v) => v,
        None => {
            proof {
                lemma_prefix_subrange(s@, d1 + 1, d2 as int, c as int);
            }
            return None;
        },
    };
    let p3 = match parse_dec_exec(s, d2 + 1, d3, 255) {
        Some(v) => v,
        None => {
            proof {
                lemma_prefix_subrange(s@, d2 + 1, d3 as int, c as int);
            }
            return None;
        },
    };
    let p4 = match parse_dec_exec(s, d3 + 1, c, 255) {
        Some(v) => v,
        None => {
            proof {
                lemma_prefix_subrange(s@, d3 + 1, c as int, c as int);
            }
            return None;
        },
    };
    proof {
        lemma_prefix_subrange(s@, 0, d1 as int, c as int);
        lemma_prefix_subrange(s@, d1 + 1, d2 as int, c as int);
        lemma_prefix_subrange(s@, d2 + 1, d3 as int, c as int);
        lemma_prefix_subrange(s@, d3 + 1, c as int, c as int);
    }
    Some((p1 as u8, p2 as u8, p3 as u8, p4 as u8))
}

/// A subrange of the prefix is the same subrange of the whole.
proof fn lemma_prefix_subrange(s: Seq<u8>, from: int, to: int, c: int)
    requires
        0 <= from <= to <= c <= s.len(),
    ensures
        s.subrange(0, c).subrange(from, to) == s.subrange(from, to),
{
    assert(s.subrange(0, c).subrange(from, to) =~= s.subrange(from, to));
}

/// `find_byte` in the prefix `s[0..c]`, scanning the whole slice.
fn find_in_prefix(s: &[u8], from: usize, c: usize) -> (r: Option<usize>)
    requires
        c <= s@.len(),
    ensures
        match r {
            Some(i) => find_byte(s@.subrange(0, c as int), from as int, 46) == i as int && i < c
                && from <= i,
            None => find_byte(s@.subrange(0, c as int), from as int, 46) == -1,
        },
{
    let ghost h = s@.subrange(0, c as int);
    let mut i: usize = from;
    if i > c {
        i = c;
        proof {
            lemma_find_byte_oob(h, from as int);
        }
    }
    while i < c
        invariant
            i <= c <= s@.len(),
            from <= i || (from > c && i == c),
            h == s@.subrange(0, c as int),
            find_byte(h, from as int, 46) == find_byte(h, i as int, 46),
        decreases c - i,
    {
        proof {
            assert(h[i as int] == s@[i as int]);
        }
        if s[i] == 46 {
            return Some(i);
        }
        i = i + 1;
    }
    None
}

/// Starting past the end finds nothing.
proof fn lemma_find_byte_oob(s: Seq<u8>, from: int)
    requires
        from >= s.len(),
    ensures
        find_byte(s, from, 46) == find_byte(s, s.len() as int, 46),
{
}


/// The canonical rendering of `n` is a canonical digit run.
proof fn lemma_dec_of_canon(n: nat)
    ensures
        is_canon_dec(dec_of(n)),
    decreases n,
{
    lemma_dec_of_digits(n);
    if n >= 10 {
        lemma_dec_of_canon(n / 10);
        lemma_dec_of_digits(n / 10);
        assert(dec_of(n)[0] == dec_of(n / 10)[0]);
        if n / 10 < 10 {
            assert(dec_of(n / 10) == seq![(n / 10 + 48) as u8]);
            assert(1 <= n / 10 < 10);
            assert(dec_of(n / 10)[0] != 48);
        } else {
            assert(dec_of(n / 10).len() == dec_of(n / 100).len() + 1);
            assert(dec_of(n / 10).len() > 1);
            assert(dec_of(n / 10)[0] != 48);
        }
    }
}

/// Rendering and evaluating a number gives the number back.
proof fn lemma_dec_of_val(n: nat)
    ensures
        dec_val(dec_of(n)) == n,
    decreases n,
{
    if n < 10 {
        assert(dec_of(n) == seq![(n + 48) as u8]);
        assert(dec_of(n).drop_last() =~= Seq::<u8>::empty());
        assert(dec_of(n).last() == (n + 48) as u8);
        assert(n + 48 < 256);
        assert(dec_val(dec_of(n)) == dec_val(Seq::<u8>::empty()) * 10 + ((n + 48) as u8 - 48));
    } else {
        lemma_dec_of_val(n / 10);
        assert(dec_of(n).drop_last() =~= dec_of(n / 10));
        assert(dec_of(n).last() == (n % 10 + 48) as u8);
        assert(n % 10 + 48 < 256);
        assert(dec_val(dec_of(n)) == dec_val(dec_of(n / 10)) * 10 + ((n % 10 + 48) as u8 - 48));
        assert(dec_val(dec_of(n)) == (n / 10) * 10 + n % 10);
    }
}

/// A colon followed only by digits is the last colon.
proof fn lemma_rfind_digit_suffix(p: Seq<u8>, ds: Seq<u8>)
    requires
        all_digits(ds),
    ensures
        rfind_colon(p + seq![58u8] + ds) == p.len(),
    decreases ds.len(),
{
    let s = p + seq![58u8] + ds;
    if ds.len() == 0 {
        assert(s.last() == 58);
        assert(s.len() - 1 == p.len());
    } else {
        assert(s.last() == ds.last());
        assert(is_digit(ds[ds.len() - 1]));
        assert(s.drop_last() =~= p + seq![58u8] + ds.drop_last());
        assert forall|i: int| 0 <= i < ds.len() - 1 implies is_digit(
            #[trigger] ds.drop_last()[i],
        ) by {
            assert(ds.drop_last()[i] == ds[i]);
        }
        lemma_rfind_digit_suffix(p, ds.drop_last());
    }
}

/// Scanning a digit run ending at byte `b` finds `b` right after the run.
proof fn lemma_find_after_digits(s: Seq<u8>, from: int, j: int, b: u8)
    requires
        0 <= from <= j < s.len(),
        s[j] == b,
        !is_digit(b),
        forall|i: int| from <= i < j ==> is_digit(#[trigger] s[i]),
    ensures
        find_byte(s, from, b) == j,
    decreases j - from,
{
    if from < j {
        lemma_find_after_digits(s, from + 1, j, b);
    }
}

/// A digit run up to the end hides no byte `b`.
proof fn lemma_find_none_in_digits(s: Seq<u8>, from: int, b: u8)
    requires
        0 <= from,
        !is_digit(b),
        forall|i: int| from <= i < s.len() ==> is_digit(#[trigger] s[i]),
    ensures
        find_byte(s, from, b) == -1,
    decreases s.len() - from,
{
    if from < s.len() {
        lemma_find_none_in_digits(s, from + 1, b);
    }
}

/// The canonical text of a worker address parses back to that worker: the
/// grammar accepts exactly what the formatter writes.
#[verifier::rlimit(80)]
pub proof fn lemma_addr_text_round_trip(w: WorkerAddr)
    ensures
        parse_addr_spec(addr_bytes(w)) == Some(Discovered::V4(w)),
{
    let da = dec_of(w.a as nat);
    let db = dec_of(w.b as nat);
    let dc = dec_of(w.c as nat);
    let dd = dec_of(w.d as nat);
    let dp = dec_of(w.port as nat);
    lemma_dec_of_digits(w.a as nat);
    lemma_dec_of_digits(w.b as nat);
    lemma_dec_of_digits(w.c as nat);
    lemma_dec_of_digits(w.d as nat);
    lemma_dec_of_digits(w.port as nat);
    lemma_dec_of_canon(w.a as nat);
    lemma_dec_of_canon(w.b as nat);
    lemma_dec_of_canon(w.c as nat);
    lemma_dec_of_canon(w.d as nat);
    lemma_dec_of_canon(w.port as nat);
    lemma_dec_of_val(w.a as nat);
    lemma_dec_of_val(w.b as nat);
    lemma_dec_of_val(w.c as nat);
    lemma_dec_of_val(w.d as nat);
    lemma_dec_of_val(w.port as nat);
    let s = addr_bytes(w);
    let h = da + seq![46u8] + db + seq![46u8] + dc + seq![46u8] + dd;
    assert(s =~= h + seq![58u8] + dp);

    // the last colon closes the host
    lemma_rfind_digit_suffix(h, dp);
    let c = rfind_colon(s);
    assert(c == h.len());
    assert(c > 0);

    // the port reads back
    assert(s.subrange(c + 1, s.len() as int) =~= dp);
    assert(dec_val(dp) <= 65535);

    // the host is the dotted quad
    assert(s.subrange(0, c) =~= h);
    let la = da.len() as int;
    let lb = db.len() as int;
    let lc = dc.len() as int;
    assert forall|i: int| 0 <= i < la implies is_digit(#[trigger] h[i]) by {
        assert(h[i] == da[i]);
    }
    assert(h[la] == 46);
    lemma_find_after_digits(h, 0, la, 46);
    assert forall|i: int| la + 1 <= i < la + 1 + lb implies is_digit(#[trigger] h[i]) by {
        assert(h[i] == db[i - la - 1]);
    }
    assert(h[la + 1 + lb] == 46);
    lemma_find_after_digits(h, la + 1, la + 1 + lb, 46);
    assert forall|i: int| la + 1 + lb + 1 <= i < la + 1 + lb + 1 + lc implies is_digit(
        #[trigger] h[i],
    ) by {
        assert(h[i] == dc[i - la - 1 - lb - 1]);
    }
    assert(h[la + 1 + lb + 1 + lc] == 46);
    lemma_find_after_digits(h, la + 1 + lb + 1, la + 1 + lb + 1 + lc, 46);
    let d3 = la + 1 + lb + 1 + lc;
    assert forall|i: int| d3 + 1 <= i < h.len() implies is_digit(#[trigger] h[i]) by {
        assert(h[i] == dd[i - d3 - 1]);
    }
    lemma_find_none_in_digits(h, d3 + 1, 46);
    assert(h.subrange(0, la) =~= da);
    assert(h.subrange(la + 1, la + 1 + lb) =~= db);
    assert(h.subrange(la + 1 + lb + 1, d3) =~= dc);
    assert(h.subrange(d3 + 1, h.len() as int) =~= dd);
    assert(dec_val(da) <= 255 && dec_val(db) <= 255 && dec_val(dc) <= 255 && dec_val(dd) <= 255);
    assert(parse_quad(h) == Some((w.a, w.b, w.c, w.d)));
}

} // verus!
