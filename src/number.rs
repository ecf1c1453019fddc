use vstd::prelude::*;
use vstd::arithmetic::div_mod::{
    lemma_fundamental_div_mod, lemma_fundamental_div_mod_converse, lemma_mod_pos_bound,
};

verus! {

/// Ten to the power `n`.
pub open spec fn pow10(n: nat) -> nat
    decreases n,
{
    if n == 0 {
        1
    } else {
        10 * pow10((n - 1) as nat)
    }
}

pub open spec fn is_digit(c: char) -> bool {
    '0' <= c && c <= '9'
}

pub open spec fn digit_of(c: char) -> nat {
    (c as int - '0' as int) as nat
}

/// Number of decimal points in a numeral body.
pub open spec fn n_dots(b: Seq<char>) -> nat
    decreases b.len(),
{
    if b.len() == 0 {
        0
    } else {
        n_dots(b.drop_last()) + if b.last() == '.' {
            1nat
        } else {
            0nat
        }
    }
}

/// Number of digits after the decimal point.
pub open spec fn frac_len(b: Seq<char>) -> nat
    decreases b.len(),
{
    if b.len() == 0 || b.last() == '.' || n_dots(b.drop_last()) == 0 {
        0
    } else {
        frac_len(b.drop_last()) + 1
    }
}

/// The digits of a numeral body read as one integer, the point ignored.
pub open spec fn digits_value(b: Seq<char>) -> nat
    decreases b.len(),
{
    if b.len() == 0 {
        0
    } else if b.last() == '.' {
        digits_value(b.drop_last())
    } else {
        digits_value(b.drop_last()) * 10 + digit_of(b.last())
    }
}

pub proof fn lemma_pow10_mono(a: nat, b: nat)
    requires
        a <= b,
    ensures
        pow10(a) <= pow10(b),
    decreases b,
{
    if a < b {
        lemma_pow10_mono(a, (b - 1) as nat);
    }
}

/// Sum of ratings in millionths.
pub open spec fn sum(rs: Seq<int>) -> int
    decreases rs.len(),
{
    if rs.len() == 0 {
        0
    } else {
        sum(rs.drop_last()) + rs.last()
    }
}

pub open spec fn ints(rs: Seq<i64>) -> Seq<int> {
    rs.map_values(|v: i64| v as int)
}

/// `a / d` rounded to the nearest integer, ties to the even one.
pub open spec fn round_half_even(a: nat, d: nat) -> nat
    recommends
        d > 0,
{
    let q = a / d;
    let r = a % d;
    if 2 * r < d {
        q
    } else if 2 * r > d {
        q + 1
    } else if q % 2 == 0 {
        q
    } else {
        q + 1
    }
}

/// The mean of a nonempty list of ratings, in hundredths, rounded to the
/// nearest hundredth with ties to even.
pub open spec fn average_hundredths(rs: Seq<int>) -> int
    recommends
        rs.len() > 0,
{
    let s = sum(rs);
    let d = rs.len() * 10000;
    if s >= 0 {
        round_half_even(s as nat, d) as int
    } else {
        -(round_half_even((-s) as nat, d) as int)
    }
}

pub open spec fn average_of(rs: Seq<int>) -> Option<int> {
    if rs.len() == 0 {
        None
    } else {
        Some(average_hundredths(rs))
    }
}

pub open spec fn opt_wide(r: Option<i128>) -> Option<int> {
    match r {
        Some(v) => Some(v as int),
        None => None,
    }
}

pub(crate) fn round_half_even_exec(a: u128, d: u128) -> (r: u128)
    requires
        d > 0,
    ensures
        r == round_half_even(a as nat, d as nat),
{
    let q = a / d;
    let rem = a % d;
    assert(q * d <= a) by (nonlinear_arith)
        requires
            q == a / d,
            d > 0,
    ;
    assert(q < u128::MAX || d == 1 && rem == 0) by (nonlinear_arith)
        requires
            q == a / d,
            rem == a % d,
            d > 0,
            a <= u128::MAX,
    ;
    if rem < d - rem {
        q
    } else if rem > d - rem {
        q + 1
    } else if q % 2 == 0 {
        q
    } else {
        q + 1
    }
}

/// Twenty times the mean of a nonempty list of ratings (a mean on a scale
/// up to five as a percentage), in hundredths of a percent, rounded to the
/// nearest with ties to even.
pub open spec fn percent_hundredths(rs: Seq<int>) -> int
    recommends
        rs.len() > 0,
{
    let s = sum(rs);
    let d = rs.len() * 10000;
    if s >= 0 {
        round_half_even((20 * s) as nat, d) as int
    } else {
        -(round_half_even((-20 * s) as nat, d) as int)
    }
}

pub open spec fn percent_of_mean(rs: Seq<int>) -> Option<int> {
    if rs.len() == 0 {
        None
    } else {
        Some(percent_hundredths(rs))
    }
}

/// The sum of `rs` divided by `unit` times their count, rounded to the
/// nearest with ties to even.
pub open spec fn signed_ratio(rs: Seq<int>, unit: nat) -> Option<int> {
    if rs.len() == 0 {
        None
    } else {
        let s = sum(rs);
        let d = rs.len() * unit;
        Some(
            if s >= 0 {
                round_half_even(s as nat, d) as int
            } else {
                -(round_half_even((-s) as nat, d) as int)
            },
        )
    }
}

proof fn lemma_round_scaled(a: nat, d: nat, k: nat)
    requires
        d > 0,
        k > 0,
    ensures
        round_half_even(k * a, k * d) == round_half_even(a, d),
{
    let q = a / d;
    let r = a % d;
    lemma_fundamental_div_mod(a as int, d as int);
    lemma_mod_pos_bound(a as int, d as int);
    assert(k * a == q * (k * d) + k * r && 0 <= k * r < k * d) by (nonlinear_arith)
        requires
            a == d * q + r,
            0 <= r < d,
            k > 0,
    ;
    lemma_fundamental_div_mod_converse((k * a) as int, (k * d) as int, q as int, (k * r) as int);
    assert(2 * (k * r) < k * d <==> 2 * r < d) by (nonlinear_arith)
        requires
            k > 0,
    ;
    assert(2 * (k * r) > k * d <==> 2 * r > d) by (nonlinear_arith)
        requires
            k > 0,
    ;
}

fn rounded_ratio(rs: &Vec<i64>, unit: u128) -> (r: Option<i128>)
    requires
        1 <= unit <= 10000,
    ensures
        opt_wide(r) == signed_ratio(ints(rs@), unit as nat),
{
    let n = rs.len();
    if n == 0 {
        return None;
    }
    let mut total: i128 = 0;
    let mut i: usize = 0;
    while i < n
        invariant
            n == rs@.len(),
            i <= n,
            total == sum(ints(rs@.subrange(0, i as int))),
            -(i as int) * 9223372036854775808 <= total <= (i as int) * 9223372036854775808,
        decreases n - i,
    {
        assert(ints(rs@.subrange(0, i + 1)).drop_last() =~= ints(rs@.subrange(0, i as int)));
        total = total + rs[i] as i128;
        i = i + 1;
    }
    assert(rs@.subrange(0, n as int) =~= rs@);
    assert(ints(rs@).len() == n);
    assert((n as u128) * unit <= 18446744073709551615 * 10000) by (nonlinear_arith)
        requires
            n <= 18446744073709551615,
            unit <= 10000,
    ;
    let d: u128 = (n as u128) * unit;
    assert(d >= 1) by (nonlinear_arith)
        requires
            d == n * unit,
            n >= 1,
            unit >= 1,
    ;
    if total >= 0 {
        let m = round_half_even_exec(total as u128, d);
        let ghost a = total as u128;
        assert(a / d <= a) by (nonlinear_arith)
            requires
                d >= 1,
        ;
        assert(m <= a / d + 1);
        assert(a <= 18446744073709551615 * 9223372036854775808) by (nonlinear_arith)
            requires
                a as int <= (n as int) * 9223372036854775808,
                n <= 18446744073709551615,
        ;
        Some(m as i128)
    } else {
        let m = round_half_even_exec((-total) as u128, d);
        let ghost a = (-total) as u128;
        assert(a / d <= a) by (nonlinear_arith)
            requires
                d >= 1,
        ;
        assert(m <= a / d + 1);
        assert(a <= 18446744073709551615 * 9223372036854775808) by (nonlinear_arith)
            requires
                a as int <= (n as int) * 9223372036854775808,
                n <= 18446744073709551615,
        ;
        Some(-(m as i128))
    }
}

/// The mean rating in hundredths, or `None` for an empty list.
pub fn average(rs: &Vec<i64>) -> (r: Option<i128>)
    ensures
        opt_wide(r) == average_of(ints(rs@)),
{
    rounded_ratio(rs, 10000)
}

/// Twenty times the mean rating, in hundredths of a percent, or `None` for
/// an empty list.
pub fn percent(rs: &Vec<i64>) -> (r: Option<i128>)
    ensures
        opt_wide(r) == percent_of_mean(ints(rs@)),
{
    let r = rounded_ratio(rs, 500);
    proof {
        let v = ints(rs@);
        if v.len() > 0 {
            let s = sum(v);
            let d = v.len() * 500;
            assert(v.len() * 10000 == 20 * d);
            if s >= 0 {
                lemma_round_scaled(s as nat, d as nat, 20);
                assert((20 * s) as nat == 20 * (s as nat));
            } else {
                lemma_round_scaled((-s) as nat, d as nat, 20);
                assert((-20 * s) as nat == 20 * ((-s) as nat));
            }
        }
    }
    r
}

pub open spec fn digit_char(d: nat) -> char {
    if d == 0 {
        '0'
    } else if d == 1 {
        '1'
    } else if d == 2 {
        '2'
    } else if d == 3 {
        '3'
    } else if d == 4 {
        '4'
    } else if d == 5 {
        '5'
    } else if d == 6 {
        '6'
    } else if d == 7 {
        '7'
    } else if d == 8 {
        '8'
    } else {
        '9'
    }
}

/// Decimal digits of a natural number, without leading zeros.
pub open spec fn nat_text(n: nat) -> Seq<char>
    decreases n,
{
    if n < 10 {
        seq![digit_char(n)]
    } else {
        nat_text(n / 10) + seq![digit_char(n % 10)]
    }
}

pub open spec fn sign_text(neg: bool) -> Seq<char> {
    if neg {
        seq!['-']
    } else {
        Seq::empty()
    }
}

pub open spec fn abs(x: int) -> nat {
    if x < 0 {
        (-x) as nat
    } else {
        x as nat
    }
}

/// A value in hundredths written with exactly two decimal digits.
pub open spec fn two_decimals(h: int) -> Seq<char> {
    let m = abs(h);
    sign_text(h < 0) + nat_text(m / 100) + seq!['.', digit_char((m / 10) % 10), digit_char(m % 10)]
}

fn digit_str(d: u128) -> (r: &'static str)
    requires
        d < 10,
    ensures
        r@ == seq![digit_char(d as nat)],
{
    proof {
        reveal_strlit("0");
        reveal_strlit("1");
        reveal_strlit("2");
        reveal_strlit("3");
        reveal_strlit("4");
        reveal_strlit("5");
        reveal_strlit("6");
        reveal_strlit("7");
        reveal_strlit("8");
        reveal_strlit("9");
    }
    if d == 0 {
        "0"
    } else if d == 1 {
        "1"
    } else if d == 2 {
        "2"
    } else if d == 3 {
        "3"
    } else if d == 4 {
        "4"
    } else if d == 5 {
        "5"
    } else if d == 6 {
        "6"
    } else if d == 7 {
        "7"
    } else if d == 8 {
        "8"
    } else {
        "9"
    }
}

fn push_nat(out: &mut String, n: u128)
    ensures
        final(out)@ == old(out)@ + nat_text(n as nat),
    decreases n,
{
    if n >= 10 {
        push_nat(out, n / 10);
    }
    out.append(digit_str(n % 10));
    assert(final(out)@ =~= old(out)@ + nat_text(n as nat));
}

fn magnitude(h: i128) -> (m: u128)
    ensures
        m == abs(h as int),
{
    if h < 0 {
        (-(h + 1)) as u128 + 1
    } else {
        h as u128
    }
}

fn push_sign(out: &mut String, neg: bool)
    ensures
        final(out)@ == old(out)@ + sign_text(neg),
{
    if neg {
        proof {
            reveal_strlit("-");
        }
        out.append("-");
    } else {
        assert(old(out)@ + sign_text(neg) =~= old(out)@);
    }
}

/// Writes a value given in hundredths with exactly two decimal digits.
pub fn two_decimals_text(h: i128) -> (r: String)
    ensures
        r@ == two_decimals(h as int),
{
    let m = magnitude(h);
    let mut out = String::new();
    push_sign(&mut out, h < 0);
    push_nat(&mut out, m / 100);
    proof {
        reveal_strlit(".");
    }
    out.append(".");
    out.append(digit_str((m / 10) % 10));
    out.append(digit_str(m % 10));
    assert(out@ =~= two_decimals(h as int));
    out
}

} // verus!
