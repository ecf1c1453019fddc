use vstd::prelude::*;
use vstd::string::StrSliceExecFns;
use vstd::arithmetic::div_mod::{lemma_fundamental_div_mod, lemma_small_mod};
use crate::number::{
    digits_value, frac_len, is_digit, lemma_pow10_mono, n_dots, pow10, round_half_even,
    round_half_even_exec,
};

verus! {

pub open spec fn has_sign(s: Seq<char>) -> bool {
    s.len() > 0 && (s[0] == '+' || s[0] == '-')
}

pub open spec fn numeral_body(s: Seq<char>) -> Seq<char> {
    if has_sign(s) {
        s.subrange(1, s.len() as int)
    } else {
        s
    }
}

pub open spec fn is_mark(c: char) -> bool {
    c == 'e' || c == 'E'
}

/// Where the exponent mark stands, or the length when there is none.
pub open spec fn mark_at(b: Seq<char>) -> nat
    decreases b.len(),
{
    if b.len() == 0 || is_mark(b[0]) {
        0
    } else {
        1 + mark_at(b.subrange(1, b.len() as int))
    }
}

/// Digits with at most one point, and at least one digit.
pub open spec fn mantissa_ok(m: Seq<char>) -> bool {
    &&& forall|i: int| 0 <= i < m.len() ==> is_digit(#[trigger] m[i]) || m[i] == '.'
    &&& n_dots(m) <= 1
    &&& n_dots(m) < m.len()
}

/// An optional sign, then at least one digit.
pub open spec fn exponent_ok(x: Seq<char>) -> bool {
    let d = numeral_body(x);
    d.len() > 0 && forall|i: int| 0 <= i < d.len() ==> is_digit(#[trigger] d[i])
}

pub open spec fn exponent_value(x: Seq<char>) -> int {
    let v = digits_value(numeral_body(x)) as int;
    if has_sign(x) && x[0] == '-' {
        -v
    } else {
        v
    }
}

/// The exponent of a numeral body, 0 without one, `None` when malformed.
pub open spec fn exponent_of(b: Seq<char>) -> Option<int> {
    let k = mark_at(b) as int;
    if k < b.len() {
        let x = b.subrange(k + 1, b.len() as int);
        if exponent_ok(x) {
            Some(exponent_value(x))
        } else {
            None
        }
    } else {
        Some(0)
    }
}

/// `m` times ten to the power `shift`, rounded to an integer, ties to even.
pub open spec fn scaled(m: nat, shift: int) -> nat {
    if shift >= 0 {
        m * pow10(shift as nat)
    } else {
        round_half_even(m, pow10((-shift) as nat))
    }
}

pub open spec fn opt_int(r: Option<i64>) -> Option<int> {
    match r {
        Some(v) => Some(v as int),
        None => None,
    }
}

/// The value of a rating text in millionths of a point: an optional sign,
/// decimal digits with at most one point, then optionally `e` or `E`, an
/// optional sign and digits. The exact value of the numeral is rounded to
/// the nearest millionth, ties to even. Texts that are no such numeral
/// (`abc`, `inf`, `NaN`) are no rating, and neither are those that cannot
/// be held: more than 37 significant digits, or a magnitude of 2^63
/// millionths or more.
pub open spec fn rating_value(s: Seq<char>) -> Option<int> {
    let b = numeral_body(s);
    let m = b.subrange(0, mark_at(b) as int);
    let e = exponent_of(b);
    if mantissa_ok(m) && e is Some && digits_value(m) < pow10(37) {
        let x = scaled(digits_value(m), e.unwrap() - frac_len(m) + 6);
        if x <= 9223372036854775807 {
            Some(
                if has_sign(s) && s[0] == '-' {
                    -(x as int)
                } else {
                    x as int
                },
            )
        } else {
            None
        }
    } else {
        None
    }
}

proof fn lemma_pow10_values()
    ensures
        pow10(19) == 10000000000000000000,
        pow10(37) == 10000000000000000000000000000000000000,
        pow10(38) == 100000000000000000000000000000000000000,
{
    reveal_with_fuel(pow10, 40);
}

proof fn lemma_round_small(m: nat, d: nat)
    requires
        2 * m < d,
    ensures
        round_half_even(m, d) == 0,
{
    lemma_small_mod(m, d);
    lemma_fundamental_div_mod(m as int, d as int);
    assert(m / d == 0) by (nonlinear_arith)
        requires
            d * (m / d) + m == m,
            d > 0,
    ;
}

proof fn lemma_digits_value_prefix(b: Seq<char>, j: int)
    requires
        0 <= j <= b.len(),
    ensures
        digits_value(b.subrange(0, j)) <= digits_value(b),
    decreases b.len(),
{
    if j < b.len() {
        lemma_digits_value_prefix(b.drop_last(), j);
        assert(b.drop_last().subrange(0, j) =~= b.subrange(0, j));
    } else {
        assert(b.subrange(0, j) =~= b);
    }
}

fn pow10_exec(k: u32) -> (r: u128)
    requires
        k <= 38,
    ensures
        r == pow10(k as nat),
{
    proof {
        lemma_pow10_values();
    }
    let mut r: u128 = 1;
    let mut i: u32 = 0;
    while i < k
        invariant
            i <= k <= 38,
            r == pow10(i as nat),
            pow10(38) == 100000000000000000000000000000000000000,
        decreases k - i,
    {
        proof {
            lemma_pow10_mono((i + 1) as nat, 38);
        }
        r = r * 10;
        i = i + 1;
    }
    r
}

fn find_mark(s: &str, start: usize, n: usize) -> (r: (usize, bool))
    requires
        n == s@.len(),
        start <= n,
    ensures
        start <= r.0 <= n,
        mark_at(s@.subrange(start as int, n as int)) == r.0 - start,
        r.1 <==> r.0 < n,
{
    let ghost b = s@.subrange(start as int, n as int);
    let mut i: usize = start;
    let mut found = false;
    assert(b.subrange(0, b.len() as int) =~= b);
    while i < n && !found
        invariant
            start <= i <= n,
            n == s@.len(),
            b == s@.subrange(start as int, n as int),
            mark_at(b) == (i - start) + mark_at(b.subrange(i - start, b.len() as int)),
            found ==> i < n && is_mark(s@[i as int]),
        decreases n - i + if found {
            0int
        } else {
            1int
        },
    {
        let c = s.get_char(i);
        let ghost rest = b.subrange(i - start, b.len() as int);
        assert(rest[0] == c);
        assert(rest.subrange(1, rest.len() as int) =~= b.subrange(i + 1 - start, b.len() as int));
        if c == 'e' || c == 'E' {
            found = true;
        } else {
            i = i + 1;
        }
    }
    proof {
        let rest = b.subrange(i - start, b.len() as int);
        if found {
            assert(rest[0] == s@[i as int]);
        } else {
            assert(rest.len() == 0);
        }
    }
    (i, found)
}

fn read_mantissa(s: &str, start: usize, mend: usize) -> (r: Option<(u128, usize)>)
    requires
        start <= mend <= s@.len(),
    ensures
        match r {
            None => !(mantissa_ok(s@.subrange(start as int, mend as int)) && digits_value(
                s@.subrange(start as int, mend as int),
            ) < pow10(37)),
            Some((a, f)) => {
                &&& mantissa_ok(s@.subrange(start as int, mend as int))
                &&& a == digits_value(s@.subrange(start as int, mend as int))
                &&& a < pow10(37)
                &&& f == frac_len(s@.subrange(start as int, mend as int))
            },
        },
{
    proof {
        lemma_pow10_values();
    }
    let ghost m = s@.subrange(start as int, mend as int);
    let mut dots: usize = 0;
    let mut frac: usize = 0;
    let mut all_ok = true;
    let mut i: usize = start;
    while i < mend
        invariant
            start <= i <= mend <= s@.len(),
            m == s@.subrange(start as int, mend as int),
            dots == n_dots(m.subrange(0, i - start)),
            frac == frac_len(m.subrange(0, i - start)),
            dots + frac <= i - start,
            all_ok == (forall|j: int|
                0 <= j < i - start ==> is_digit(#[trigger] m[j]) || m[j] == '.'),
        decreases mend - i,
    {
        let c = s.get_char(i);
        let ghost p = m.subrange(0, i - start);
        let ghost q = m.subrange(0, i + 1 - start);
        assert(q.drop_last() =~= p);
        assert(q.last() == c);
        if c == '.' {
            dots = dots + 1;
            frac = 0;
        } else if dots > 0 {
            frac = frac + 1;
        }
        if !(('0' <= c && c <= '9') || c == '.') {
            all_ok = false;
        }
        i = i + 1;
    }
    let mlen = mend - start;
    assert(m.subrange(0, mlen as int) =~= m);
    if !(all_ok && dots <= 1 && dots < mlen) {
        return None;
    }
    let mut acc: u128 = 0;
    let mut i: usize = start;
    while i < mend
        invariant
            start <= i <= mend <= s@.len(),
            m == s@.subrange(start as int, mend as int),
            mantissa_ok(m),
            acc == digits_value(m.subrange(0, i - start)),
            acc < pow10(37),
            pow10(37) == 10000000000000000000000000000000000000,
        decreases mend - i,
    {
        let c = s.get_char(i);
        let ghost p = m.subrange(0, i - start);
        let ghost q = m.subrange(0, i + 1 - start);
        assert(q.drop_last() =~= p);
        assert(q.last() == c);
        assert(m[i - start] == c);
        if c != '.' {
            let d = c as u128 - '0' as u128;
            assert(is_digit(c));
            assert(digits_value(q) == acc * 10 + d);
            if acc * 10 + d >= 10000000000000000000000000000000000000 {
                proof {
                    lemma_digits_value_prefix(m, i + 1 - start);
                }
                return None;
            }
            acc = acc * 10 + d;
        }
        i = i + 1;
    }
    assert(m.subrange(0, mlen as int) =~= m);
    Some((acc, frac))
}

fn read_exponent(s: &str, from: usize, n: usize) -> (r: Option<(bool, bool, u128)>)
    requires
        from <= n == s@.len(),
    ensures
        match r {
            None => !exponent_ok(s@.subrange(from as int, n as int)),
            Some((eneg, sat, eacc)) => {
                let x = s@.subrange(from as int, n as int);
                &&& exponent_ok(x)
                &&& (eneg <==> has_sign(x) && x[0] == '-')
                &&& sat ==> digits_value(numeral_body(x)) >= 1000000000000000000000000000000
                &&& !sat ==> eacc == digits_value(numeral_body(x))
                &&& eacc < 1000000000000000000000000000000
            },
        },
{
    let ghost x = s@.subrange(from as int, n as int);
    let mut q: usize = from;
    let mut eneg = false;
    if q < n {
        let c = s.get_char(q);
        if c == '+' || c == '-' {
            eneg = c == '-';
            q = q + 1;
        }
    }
    let ghost xd = numeral_body(x);
    assert(xd =~= s@.subrange(q as int, n as int));
    if q >= n {
        return None;
    }
    let mut sat = false;
    let mut eacc: u128 = 0;
    let mut j: usize = q;
    while j < n
        invariant
            q <= j <= n,
            n == s@.len(),
            xd == s@.subrange(q as int, n as int),
            x == s@.subrange(from as int, n as int),
            xd == numeral_body(x),
            forall|k: int| 0 <= k < j - q ==> is_digit(#[trigger] xd[k]),
            !sat ==> eacc == digits_value(xd.subrange(0, j - q)),
            eacc < 1000000000000000000000000000000,
            sat ==> digits_value(xd.subrange(0, j - q)) >= 1000000000000000000000000000000,
        decreases n - j,
    {
        let c = s.get_char(j);
        let ghost p = xd.subrange(0, j - q);
        let ghost pq = xd.subrange(0, j + 1 - q);
        assert(pq.drop_last() =~= p);
        assert(pq.last() == c);
        assert(xd[j - q] == c);
        if !('0' <= c && c <= '9') {
            assert(!is_digit(xd[j - q]));
            assert(xd == numeral_body(x));
            assert(!exponent_ok(x));
            return None;
        }
        if !sat {
            let v = eacc * 10 + (c as u128 - '0' as u128);
            if v >= 1000000000000000000000000000000 {
                sat = true;
            } else {
                eacc = v;
            }
        }
        j = j + 1;
    }
    assert(xd.subrange(0, n - q) =~= xd);
    Some((eneg, sat, eacc))
}

fn scale(acc: u128, frac: usize, eneg: bool, sat: bool, eacc: u128, ev: Ghost<int>) -> (r: Option<
    u128,
>)
    requires
        acc < pow10(37),
        eacc < 1000000000000000000000000000000,
        sat && eneg ==> ev@ <= -1000000000000000000000000000000,
        sat && !eneg ==> ev@ >= 1000000000000000000000000000000,
        !sat ==> ev@ == if eneg {
            -(eacc as int)
        } else {
            eacc as int
        },
    ensures
        match r {
            None => scaled(acc as nat, ev@ - frac + 6) > 9223372036854775807,
            Some(x) => x == scaled(acc as nat, ev@ - frac + 6) && x <= 9223372036854775807,
        },
{
    proof {
        lemma_pow10_values();
    }
    let ghost shift = ev@ - frac + 6;
    let x: u128;
    if acc == 0 {
        proof {
            if shift < 0 {
                lemma_pow10_mono(0, (-shift) as nat);
                lemma_round_small(0, pow10((-shift) as nat));
            }
        }
        x = 0;
    } else if sat && !eneg {
        proof {
            lemma_pow10_mono(19, shift as nat);
            assert(acc * pow10(shift as nat) >= pow10(19)) by (nonlinear_arith)
                requires
                    acc >= 1,
                    pow10(shift as nat) >= pow10(19),
            ;
        }
        return None;
    } else if sat {
        proof {
            lemma_pow10_mono(38, (-shift) as nat);
            lemma_round_small(acc as nat, pow10((-shift) as nat));
        }
        x = 0;
    } else {
        let sh: i128 = if eneg {
            -(eacc as i128)
        } else {
            eacc as i128
        } - frac as i128 + 6;
        assert(sh == shift);
        if sh >= 19 {
            proof {
                lemma_pow10_mono(19, shift as nat);
                assert(acc * pow10(shift as nat) >= pow10(19)) by (nonlinear_arith)
                    requires
                        acc >= 1,
                        pow10(shift as nat) >= pow10(19),
                ;
            }
            return None;
        } else if sh >= 0 {
            proof {
                lemma_pow10_mono(sh as nat, 38);
                lemma_pow10_mono(0, sh as nat);
            }
            let p = pow10_exec(sh as u32);
            let limit: u128 = 9223372036854775807;
            if acc > limit / p {
                proof {
                    assert(acc * p > limit) by (nonlinear_arith)
                        requires
                            acc > limit / p,
                            p > 0,
                    ;
                }
                return None;
            }
            proof {
                assert(acc * p <= limit) by (nonlinear_arith)
                    requires
                        acc <= limit / p,
                        p > 0,
                ;
            }
            x = acc * p;
        } else if sh <= -38 {
            proof {
                lemma_pow10_mono(38, (-shift) as nat);
                lemma_round_small(acc as nat, pow10((-shift) as nat));
            }
            x = 0;
        } else {
            let d = pow10_exec((-sh) as u32);
            proof {
                lemma_pow10_mono(0, (-shift) as nat);
            }
            x = round_half_even_exec(acc, d);
        }
    }
    if x > 9223372036854775807 {
        return None;
    }
    Some(x)
}

/// Reads a rating text; see `rating_value` for what counts as one.
pub fn parse_rating(s: &str) -> (r: Option<i64>)
    ensures
        opt_int(r) == rating_value(s@),
{
    let n = s.unicode_len();
    let mut start: usize = 0;
    let mut neg = false;
    if n > 0 {
        let c = s.get_char(0);
        if c == '+' || c == '-' {
            start = 1;
            neg = c == '-';
        }
    }
    let ghost b = numeral_body(s@);
    assert(b =~= s@.subrange(start as int, n as int));
    let (mend, found) = find_mark(s, start, n);
    assert(s@.subrange(start as int, mend as int) =~= b.subrange(0, mark_at(b) as int));
    let (acc, frac) = match read_mantissa(s, start, mend) {
        Some(p) => p,
        None => return None,
    };
    let ghost e = exponent_of(b);
    let mut eneg = false;
    let mut sat = false;
    let mut eacc: u128 = 0;
    if found {
        assert(s@.subrange(mend + 1, n as int) =~= b.subrange(mark_at(b) as int + 1, b.len() as int));
        match read_exponent(s, mend + 1, n) {
            Some((a, b2, c)) => {
                eneg = a;
                sat = b2;
                eacc = c;
            },
            None => return None,
        }
    }
    let x = match scale(acc, frac, eneg, sat, eacc, Ghost(e.unwrap())) {
        Some(x) => x,
        None => return None,
    };
    Some(
        if neg {
            -(x as i64)
        } else {
            x as i64
        },
    )
}

} // verus!
