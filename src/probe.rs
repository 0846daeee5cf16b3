use vstd::prelude::*;

use crate::ReduceError;

verus! {

/// Whitespace that surrounds the probe's output: tab, line feed, vertical tab,
/// form feed, carriage return and space.
pub open spec fn is_ascii_whitespace(b: u8) -> bool {
    b == 0x09u8 || b == 0x0Au8 || b == 0x0Bu8 || b == 0x0Cu8 || b == 0x0Du8 || b == 0x20u8
}

/// `s` without the whitespace at its start.
pub open spec fn trim_start(s: Seq<u8>) -> Seq<u8>
    decreases s.len(),
{
    if s.len() > 0 && is_ascii_whitespace(s[0]) {
        trim_start(s.drop_first())
    } else {
        s
    }
}

/// `s` without the whitespace at its end.
pub open spec fn trim_end(s: Seq<u8>) -> Seq<u8>
    decreases s.len(),
{
    if s.len() > 0 && is_ascii_whitespace(s.last()) {
        trim_end(s.drop_last())
    } else {
        s
    }
}

pub open spec fn is_digit(b: u8) -> bool {
    0x30u8 <= b && b <= 0x39u8
}

pub open spec fn all_digits(s: Seq<u8>) -> bool {
    forall|i: int| 0 <= i < s.len() ==> is_digit(#[trigger] s[i])
}

/// The number that a run of decimal digits writes, most significant first.
pub open spec fn digits_value(s: Seq<u8>) -> nat
    decreases s.len(),
{
    if s.len() == 0 {
        0
    } else {
        digits_value(s.drop_last()) * 10 + (s.last() - 0x30u8) as nat
    }
}

/// The number without its leading `+`, if it has one.
pub open spec fn unsigned_part(t: Seq<u8>) -> Seq<u8> {
    if t.len() > 0 && t[0] == 0x2Bu8 {
        t.drop_first()
    } else {
        t
    }
}

/// Where the decimal point stands in `u`, or `u.len()` where it has none.
pub open spec fn point_index(u: Seq<u8>) -> int
    decreases u.len(),
{
    if u.len() == 0 {
        0
    } else if u[0] == 0x2Eu8 {
        0
    } else {
        1 + point_index(u.drop_first())
    }
}

pub open spec fn integer_digits(u: Seq<u8>) -> Seq<u8> {
    u.take(point_index(u))
}

pub open spec fn fraction_digits(u: Seq<u8>) -> Seq<u8> {
    if point_index(u) < u.len() {
        u.skip(point_index(u) + 1)
    } else {
        Seq::empty()
    }
}

/// A plain decimal number: an optional `+`, digits, and optionally a point
/// followed by digits, with at least one digit in all.
pub open spec fn is_decimal(t: Seq<u8>) -> bool {
    let u = unsigned_part(t);
    &&& all_digits(integer_digits(u))
    &&& all_digits(fraction_digits(u))
    &&& integer_digits(u).len() + fraction_digits(u).len() > 0
}

pub open spec fn pow10(n: nat) -> nat
    decreases n,
{
    if n == 0 {
        1
    } else {
        10 * pow10((n - 1) as nat)
    }
}

/// The fraction in microseconds: its first six digits, the rest dropped.
pub open spec fn fraction_micros(f: Seq<u8>) -> nat {
    let k = if f.len() < 6 {
        f.len()
    } else {
        6
    };
    digits_value(f.take(k as int)) * pow10((6 - k) as nat)
}

/// The value of a decimal number in whole microseconds (truncated).
pub open spec fn decimal_micros(t: Seq<u8>) -> nat {
    let u = unsigned_part(t);
    digits_value(integer_digits(u)) * 1_000_000 + fraction_micros(fraction_digits(u))
}

/// The probe printed a positive duration, once surrounding whitespace is gone,
/// that whole microseconds can hold in a `u64`.
pub open spec fn is_well_formed_duration(out: Seq<u8>) -> bool {
    let t = trim_end(trim_start(out));
    &&& is_decimal(t)
    &&& 0 < decimal_micros(t) <= u64::MAX
}

proof fn lemma_point_index_bounds(u: Seq<u8>)
    ensures
        0 <= point_index(u) <= u.len(),
        point_index(u) < u.len() ==> u[point_index(u)] == 0x2Eu8,
        forall|i: int| 0 <= i < point_index(u) ==> u[i] != 0x2Eu8,
    decreases u.len(),
{
    if u.len() > 0 && u[0] != 0x2Eu8 {
        lemma_point_index_bounds(u.drop_first());
        assert forall|i: int| 0 <= i < point_index(u) implies u[i] != 0x2Eu8 by {
            if i > 0 {
                assert(u[i] == u.drop_first()[i - 1]);
            }
        }
    }
}

proof fn lemma_pow10_step(n: nat)
    ensures
        pow10(n + 1) == 10 * pow10(n),
{
    assert(pow10(n + 1) == 10 * pow10(((n + 1) - 1) as nat));
}

proof fn lemma_pow10_monotone(a: nat, b: nat)
    requires
        a <= b,
    ensures
        pow10(a) <= pow10(b),
    decreases b - a,
{
    if a < b {
        lemma_pow10_monotone(a, (b - 1) as nat);
        lemma_pow10_step((b - 1) as nat);
    }
}

/// A run of `n` digits writes a number below ten to the `n`.
proof fn lemma_digits_value_bound(s: Seq<u8>)
    requires
        all_digits(s),
    ensures
        digits_value(s) < pow10(s.len()),
    decreases s.len(),
{
    if s.len() > 0 {
        let r = s.drop_last();
        assert(all_digits(r)) by {
            assert forall|i: int| 0 <= i < r.len() implies is_digit(#[trigger] r[i]) by {
                assert(r[i] == s[i]);
            }
        }
        lemma_digits_value_bound(r);
        lemma_pow10_step(r.len());
        assert(is_digit(s[s.len() - 1]));
    }
}

/// One more digit: the value of a run grows by a factor ten plus that digit.
proof fn lemma_digits_value_push(s: Seq<u8>, n: int)
    requires
        0 <= n < s.len(),
    ensures
        digits_value(s.take(n + 1)) == digits_value(s.take(n)) * 10 + (s[n] - 0x30u8) as nat,
{
    assert(s.take(n + 1).drop_last() =~= s.take(n));
}

/// Largest integer part, plus one, that is tracked exactly while reading.
const SATURATION: u128 = 18446744073709551616;

/// A value, or `SATURATION` where it reaches that far.
spec fn saturated(v: nat) -> int {
    if v < SATURATION {
        v as int
    } else {
        SATURATION as int
    }
}

fn is_whitespace_byte(b: u8) -> (r: bool)
    ensures
        r == is_ascii_whitespace(b),
{
    b == 0x09u8 || b == 0x0Au8 || b == 0x0Bu8 || b == 0x0Cu8 || b == 0x0Du8 || b == 0x20u8
}

/// Bounds of what is left of `out` once surrounding whitespace is gone.
fn trimmed_bounds(out: &[u8]) -> (r: (usize, usize))
    ensures
        r.0 <= r.1 <= out@.len(),
        trim_end(trim_start(out@)) == out@.subrange(r.0 as int, r.1 as int),
{
    let n: usize = out.len();
    let ghost s = out@;
    assert(s.subrange(0, n as int) =~= s);
    let mut i: usize = 0;
    while i < n && is_whitespace_byte(out[i])
        invariant
            i <= n,
            n == s.len(),
            s == out@,
            trim_start(s) == trim_start(s.subrange(i as int, n as int)),
        decreases n - i,
    {
        assert(s.subrange(i as int, n as int).drop_first() =~= s.subrange(i + 1, n as int));
        i = i + 1;
    }
    let mut j: usize = n;
    while j > i && is_whitespace_byte(out[j - 1])
        invariant
            i <= j <= n,
            n == s.len(),
            s == out@,
            trim_start(s) == s.subrange(i as int, n as int),
            trim_end(trim_start(s)) == trim_end(s.subrange(i as int, j as int)),
        decreases j - i,
    {
        assert(s.subrange(i as int, j as int).drop_last() =~= s.subrange(i as int, j - 1));
        j = j - 1;
    }
    (i, j)
}

/// Reads the digits of `out[k..j]` before its point. Returns where the point
/// (or the end) stands, the value held to `SATURATION`, and whether all of them
/// were digits.
fn scan_integer(out: &[u8], k: usize, j: usize) -> (r: (usize, u128, bool))
    requires
        k <= j <= out@.len(),
    ensures
        ({
            let u = out@.subrange(k as int, j as int);
            &&& r.2 <==> all_digits(integer_digits(u))
            &&& r.2 ==> r.0 == k + point_index(u)
            &&& r.2 ==> r.1 == saturated(digits_value(integer_digits(u)))
        }),
{
    let ghost u = out@.subrange(k as int, j as int);
    proof {
        lemma_point_index_bounds(u);
    }
    let mut p: usize = k;
    let mut whole: u128 = 0;
    while p < j && out[p] != 0x2Eu8
        invariant
            k <= p <= j <= out@.len(),
            u == out@.subrange(k as int, j as int),
            0 <= point_index(u) <= u.len(),
            forall|x: int| 0 <= x < point_index(u) ==> u[x] != 0x2Eu8,
            point_index(u) < u.len() ==> u[point_index(u)] == 0x2Eu8,
            p - k <= point_index(u),
            all_digits(u.take(p - k)),
            whole == saturated(digits_value(u.take(p - k))),
        decreases j - p,
    {
        assert(u[p - k] == out@[p as int]);
        assert(point_index(u) != p - k);
        if !(0x30u8 <= out[p] && out[p] <= 0x39u8) {
            assert(integer_digits(u)[p - k] == out@[p as int]);
            return (p, whole, false);
        }
        proof {
            lemma_digits_value_push(u, p - k);
            assert(u.take(p - k + 1) =~= u.take(p - k).push(u[p - k]));
        }
        let d: u128 = (out[p] - 0x30u8) as u128;
        if whole * 10 + d > SATURATION {
            whole = SATURATION;
        } else {
            whole = whole * 10 + d;
        }
        p = p + 1;
    }
    assert(p < j ==> u[p - k] == out@[p as int]);
    assert(point_index(u) == p - k);
    assert(integer_digits(u) =~= u.take(p - k));
    (p, whole, true)
}

/// The digits after the point that stands at `p`, if one stands there.
spec fn fraction_after(s: Seq<u8>, p: int, j: int) -> Seq<u8> {
    if p < j {
        s.subrange(p + 1, j)
    } else {
        Seq::empty()
    }
}

/// Reads the fraction after the point at `out[p]` (none where `p == j`):
/// its value in microseconds, and whether all of it was digits.
fn scan_fraction(out: &[u8], p: usize, j: usize) -> (r: (u64, bool))
    requires
        p <= j <= out@.len(),
    ensures
        r.1 <==> all_digits(fraction_after(out@, p as int, j as int)),
        r.1 ==> r.0 == fraction_micros(fraction_after(out@, p as int, j as int)),
{
    let ghost f = fraction_after(out@, p as int, j as int);
    let mut frac: u64 = 0;
    let mut taken: usize = 0;
    proof {
        reveal_with_fuel(pow10, 7);
    }
    if p < j {
        let mut q: usize = p + 1;
        while q < j
            invariant
                p < q <= j <= out@.len(),
                f == out@.subrange(p + 1, j as int),
                all_digits(f.take(q - p - 1)),
                taken as int == if q - p - 1 < 6 {
                    q - p - 1
                } else {
                    6
                },
                frac as int == digits_value(f.take(taken as int)),
                frac < pow10(taken as nat),
                pow10(5) == 100_000,
            decreases j - q,
        {
            assert(f[q - p - 1] == out@[q as int]);
            if !(0x30u8 <= out[q] && out[q] <= 0x39u8) {
                return (frac, false);
            }
            proof {
                assert(f.take(q - p) =~= f.take(q - p - 1).push(f[q - p - 1]));
            }
            if taken < 6 {
                proof {
                    lemma_digits_value_push(f, taken as int);
                    lemma_pow10_step(taken as nat);
                    lemma_pow10_monotone(taken as nat, 5);
                }
                frac = frac * 10 + (out[q] - 0x30u8) as u64;
                taken = taken + 1;
            }
            q = q + 1;
        }
        assert(f.take(q - p - 1) =~= f);
    } else {
        assert(f.take(0) =~= f);
    }
    let mut scale: usize = taken;
    assert(pow10(0) == 1);
    assert(digits_value(f.take(taken as int)) * pow10(0) == digits_value(f.take(taken as int)));
    while scale < 6
        invariant
            taken <= scale <= 6,
            taken as int == if f.len() < 6 {
                f.len() as int
            } else {
                6
            },
            frac as int == digits_value(f.take(taken as int)) * pow10((scale - taken) as nat),
            frac < pow10(scale as nat),
            pow10(5) == 100_000,
        decreases 6 - scale,
    {
        proof {
            lemma_pow10_step(scale as nat);
            lemma_pow10_monotone(scale as nat, 5);
            lemma_pow10_step((scale - taken) as nat);
            assert((scale + 1 - taken) as nat == ((scale - taken) as nat + 1) as nat);
            assert(frac * 10 == digits_value(f.take(taken as int)) * (10 * pow10(
                (scale - taken) as nat,
            ))) by (nonlinear_arith)
                requires
                    frac as int == digits_value(f.take(taken as int)) * pow10(
                        (scale - taken) as nat,
                    ),
            ;
        }
        frac = frac * 10;
        scale = scale + 1;
    }
    (frac, true)
}

/// Reads the duration that the probe printed, in whole microseconds.
pub fn parse_duration(out: &[u8]) -> (r: Result<u64, ReduceError>)
    ensures
        is_well_formed_duration(out@) <==> r is Ok,
        r is Ok ==> r->Ok_0 == decimal_micros(trim_end(trim_start(out@))),
        r is Err ==> r->Err_0 == ReduceError::ProbeFailure,
{
    let (i, j) = trimmed_bounds(out);
    let ghost t = out@.subrange(i as int, j as int);
    let k: usize = if i < j && out[i] == 0x2Bu8 {
        i + 1
    } else {
        i
    };
    let ghost u = out@.subrange(k as int, j as int);
    assert(unsigned_part(t) == u) by {
        if i < j && out@[i as int] == 0x2Bu8 {
            assert(t.drop_first() =~= u);
        } else {
            assert(t =~= u);
        }
    }
    let (p, whole, int_ok) = scan_integer(out, k, j);
    if !int_ok {
        return Err(ReduceError::ProbeFailure);
    }
    proof {
        lemma_point_index_bounds(u);
        if p < j {
            assert(fraction_digits(u) =~= fraction_after(out@, p as int, j as int));
        } else {
            assert(fraction_digits(u) =~= fraction_after(out@, p as int, j as int));
        }
    }
    let (frac, frac_ok) = scan_fraction(out, p, j);
    if !frac_ok {
        return Err(ReduceError::ProbeFailure);
    }
    let fraction_len: usize = if p < j {
        j - p - 1
    } else {
        0
    };
    if p - k + fraction_len == 0 {
        return Err(ReduceError::ProbeFailure);
    }
    assert(is_decimal(t));
    let micros: u128 = whole * 1_000_000 + frac as u128;
    proof {
        let dv = digits_value(integer_digits(u));
        if dv >= SATURATION {
            assert(dv * 1_000_000 >= SATURATION * 1_000_000) by (nonlinear_arith)
                requires
                    dv >= SATURATION,
            ;
        }
    }
    if micros == 0 || micros > u64::MAX as u128 {
        return Err(ReduceError::ProbeFailure);
    }
    Ok(micros as u64)
}

} // verus!
