use vstd::prelude::*;

use crate::vocabulary::{distinct, get_true_types, normalize, views};

verus! {

/// `n!`, the common denominator of the first `n` harmonic terms.
pub open spec fn harmonic_den(n: nat) -> nat
    decreases n,
{
    if n == 0 {
        1
    } else {
        harmonic_den((n - 1) as nat) * n
    }
}

/// The numerator of `H(n) = 1 + 1/2 + ... + 1/n` over the denominator `n!`.
pub open spec fn harmonic_num(n: nat) -> nat
    decreases n,
{
    if n == 0 {
        0
    } else {
        harmonic_num((n - 1) as nat) * n + harmonic_den((n - 1) as nat)
    }
}

proof fn lemma_harmonic_grows(i: nat, n: nat)
    requires
        i <= n,
    ensures
        harmonic_den(i) <= harmonic_den(n),
        harmonic_num(i) <= harmonic_num(n),
        harmonic_den(n) >= 1,
        n >= 1 ==> harmonic_num(n) >= harmonic_den(n),
        harmonic_den(n) >= n,
    decreases n,
{
    if n > 0 {
        let m = (n - 1) as nat;
        assert(harmonic_num(n) == harmonic_num(m) * n + harmonic_den(m));
        assert(harmonic_den(n) == harmonic_den(m) * n);
        assert(harmonic_num(0) == 0 && harmonic_den(0) == 1);
        if i < n {
            lemma_harmonic_grows(i, m);
        } else {
            lemma_harmonic_grows(m, m);
        }
        assert(harmonic_den(m) * n >= harmonic_den(m)) by (nonlinear_arith)
            requires
                n >= 1,
        ;
        assert(harmonic_num(m) * n >= harmonic_num(m)) by (nonlinear_arith)
            requires
                n >= 1,
        ;
        assert(harmonic_den(m) * n >= n) by (nonlinear_arith)
            requires
                harmonic_den(m) >= 1,
        ;
        if m >= 1 {
            assert(harmonic_num(m) * n >= harmonic_den(m) * n) by (nonlinear_arith)
                requires
                    harmonic_num(m) >= harmonic_den(m),
            ;
        }
    }
}

/// The greatest common divisor, by Euclid's algorithm.
pub open spec fn gcd(a: nat, b: nat) -> nat
    decreases b,
{
    if b == 0 {
        a
    } else {
        gcd(b, a % b)
    }
}

proof fn lemma_gcd_divides(a: nat, b: nat)
    requires
        a > 0 || b > 0,
    ensures
        gcd(a, b) > 0,
        a % gcd(a, b) == 0,
        b % gcd(a, b) == 0,
    decreases b,
{
    if b == 0 {
        vstd::arithmetic::div_mod::lemma_mod_multiples_basic(1, a as int);
        vstd::arithmetic::div_mod::lemma_mod_multiples_basic(0, a as int);
    } else {
        let r = a % b;
        lemma_gcd_divides(b, r);
        let g = gcd(b, r);
        vstd::arithmetic::div_mod::lemma_fundamental_div_mod(a as int, b as int);
        vstd::arithmetic::div_mod::lemma_fundamental_div_mod(b as int, g as int);
        vstd::arithmetic::div_mod::lemma_fundamental_div_mod(r as int, g as int);
        let k = (a / b) * (b / g) + r / g;
        assert(a == k * g) by (nonlinear_arith)
            requires
                a == b * (a / b) + r,
                b == g * (b / g),
                r == g * (r / g),
                k == (a / b) * (b / g) + r / g,
        ;
        vstd::arithmetic::div_mod::lemma_mod_multiples_basic(k as int, g as int);
    }
}

fn gcd_u128(a: u128, b: u128) -> (g: u128)
    ensures
        g == gcd(a as nat, b as nat),
{
    let mut x = a;
    let mut y = b;
    while y != 0
        invariant
            gcd(x as nat, y as nat) == gcd(a as nat, b as nat),
        decreases y,
    {
        let t = x % y;
        x = y;
        y = t;
    }
    x
}

/// `H(n)` as a fraction kept in lowest terms step by step: each step adds
/// `1/k` and divides by the gcd.
pub open spec fn reduced(n: nat) -> (nat, nat)
    decreases n,
{
    if n == 0 {
        (0, 1)
    } else {
        let prev = reduced((n - 1) as nat);
        let p = prev.0 * n + prev.1;
        let q = prev.1 * n;
        (p / gcd(p, q), q / gcd(p, q))
    }
}

/// Every step of `reduced` up to `n` stays within a `u128`.
pub open spec fn reduced_fits(n: nat) -> bool
    decreases n,
{
    if n == 0 {
        true
    } else {
        let prev = reduced((n - 1) as nat);
        reduced_fits((n - 1) as nat) && prev.0 * n + prev.1 <= u128::MAX && prev.1 * n
            <= u128::MAX
    }
}

proof fn lemma_reduced_fits_prefix(k: nat, n: nat)
    requires
        k <= n,
        reduced_fits(n),
    ensures
        reduced_fits(k),
    decreases n,
{
    if k < n {
        lemma_reduced_fits_prefix(k, (n - 1) as nat);
    }
}

/// The reduced fraction equals `H(n)`.
pub proof fn lemma_reduced_is_harmonic(n: nat)
    ensures
        reduced(n).1 > 0,
        reduced(n).0 * harmonic_den(n) == reduced(n).1 * harmonic_num(n),
    decreases n,
{
    if n == 0 {
        assert(harmonic_num(0) == 0 && harmonic_den(0) == 1);
    } else {
        let m = (n - 1) as nat;
        lemma_reduced_is_harmonic(m);
        let (a, b) = reduced(m);
        let p = a * n + b;
        let q = b * n;
        assert(q > 0) by (nonlinear_arith)
            requires
                b > 0,
                n > 0,
                q == b * n,
        ;
        lemma_gcd_divides(p, q);
        let g = gcd(p, q);
        vstd::arithmetic::div_mod::lemma_fundamental_div_mod(p as int, g as int);
        vstd::arithmetic::div_mod::lemma_fundamental_div_mod(q as int, g as int);
        assert(reduced(n) == (p / g, q / g));
        let hn = harmonic_num(m);
        let hd = harmonic_den(m);
        assert(harmonic_num(n) == hn * n + hd);
        assert(harmonic_den(n) == hd * n);
        assert(p * (hd * n) == q * (hn * n + hd)) by (nonlinear_arith)
            requires
                a * hd == b * hn,
                p == a * n + b,
                q == b * n,
        ;
        assert((p / g) * (hd * n) == (q / g) * (hn * n + hd)) by (nonlinear_arith)
            requires
                p * (hd * n) == q * (hn * n + hd),
                p == g * (p / g),
                q == g * (q / g),
                g > 0,
        ;
        assert(q / g > 0) by (nonlinear_arith)
            requires
                q == g * (q / g),
                q > 0,
                g > 0,
        ;
    }
}

/// Two fractions of equal value have equal floors.
proof fn lemma_equal_ratio_floor(a: nat, b: nat, c: nat, d: nat)
    requires
        b > 0,
        d > 0,
        a * d == b * c,
    ensures
        a / b == c / d,
{
    vstd::arithmetic::div_mod::lemma_fundamental_div_mod(a as int, b as int);
    let q = a / b;
    let r = a % b;
    assert(c * b == q * d * b + r * d) by (nonlinear_arith)
        requires
            a == b * q + r,
            a * d == b * c,
    ;
    assert(q * d <= c && c < (q + 1) * d) by (nonlinear_arith)
        requires
            c * b == q * d * b + r * d,
            0 <= r < b,
            b > 0,
            d > 0,
    ;
    vstd::arithmetic::div_mod::lemma_fundamental_div_mod(c as int, d as int);
    assert(c / d == q) by (nonlinear_arith)
        requires
            q * d <= c,
            c < (q + 1) * d,
            d > 0,
            c == d * (c / d) + c % d,
            0 <= c % d < d,
    ;
}

/// `H(n)` as a fraction in lowest terms, or `None` where a step of its
/// computation does not fit in a `u128`.
pub fn nth_harmonic(n: usize) -> (r: Option<(u128, u128)>)
    ensures
        r matches Some(p) ==> p.0 == reduced(n as nat).0 && p.1 == reduced(n as nat).1 && p.1 > 0
            && p.0 * harmonic_den(n as nat) == p.1 * harmonic_num(n as nat),
        r is None <==> !reduced_fits(n as nat),
{
    proof {
        lemma_reduced_is_harmonic(n as nat);
    }
    harmonic_fraction(n as u128)
}

fn harmonic_fraction(n: u128) -> (r: Option<(u128, u128)>)
    ensures
        r matches Some(p) ==> p.0 == reduced(n as nat).0 && p.1 == reduced(n as nat).1,
        r is None <==> !reduced_fits(n as nat),
{
    let mut num: u128 = 0;
    let mut den: u128 = 1;
    let mut i: u128 = 0;
    while i < n
        invariant
            i <= n,
            num == reduced(i as nat).0,
            den == reduced(i as nat).1,
            reduced_fits(i as nat),
        decreases n - i,
    {
        let k = i + 1;
        proof {
            lemma_reduced_is_harmonic(i as nat);
            if reduced_fits(n as nat) {
                lemma_reduced_fits_prefix(k as nat, n as nat);
            }
        }
        let scaled = match num.checked_mul(k) {
            Some(v) => v,
            None => {
                return None;
            },
        };
        let p = match scaled.checked_add(den) {
            Some(v) => v,
            None => {
                return None;
            },
        };
        let q = match den.checked_mul(k) {
            Some(v) => v,
            None => {
                return None;
            },
        };
        assert(q > 0) by (nonlinear_arith)
            requires
                den > 0,
                k > 0,
                q == den * k,
        ;
        proof {
            lemma_gcd_divides(p as nat, q as nat);
        }
        let g = gcd_u128(p, q);
        num = p / g;
        den = q / g;
        i = k;
    }
    Some((num, den))
}

/// The coupon-collector bound for a vocabulary and a sample.
pub struct Coverage {
    /// `100 / c` floored to hundredths, counted in hundredths of a percent; `None`
    /// for an empty sample, where the bound is infinite.
    pub inverse_c_hundredths: Option<u128>,
    /// `20 * n * H(n)` floored: the sample size that would cap the bound at 5%.
    pub recommended_sample: u128,
}

/// The computation of the estimate stays within a `u128`: `H(n)` in lowest
/// terms, then `10000 * n` times its numerator and its denominator times the
/// sample.
pub open spec fn estimate_fits(vocabulary: nat, sample: nat) -> bool {
    let n = vocabulary + 1;
    &&& reduced_fits(n)
    &&& 10000 * n * reduced(n).0 <= u128::MAX
    &&& reduced(n).1 * sample <= u128::MAX
}

/// `floor(100 / c)` in hundredths with `c = sample / (n * H(n))`.
pub open spec fn inverse_c_hundredths(vocabulary: nat, sample: nat) -> Option<nat> {
    let n = vocabulary + 1;
    if sample == 0 {
        None
    } else {
        Some((10000 * n * harmonic_num(n)) / (harmonic_den(n) * sample))
    }
}

/// `floor(20 * n * H(n))`.
pub open spec fn recommended_sample(vocabulary: nat) -> nat {
    let n = vocabulary + 1;
    (20 * n * harmonic_num(n)) / harmonic_den(n)
}

/// The bound for `vocabulary` known categories plus one not yet seen, after
/// `sample` items; `None` where the exact values do not fit in a `u128`.
pub fn coverage_estimate(vocabulary: usize, sample: usize) -> (r: Option<Coverage>)
    ensures
        r is Some <==> estimate_fits(vocabulary as nat, sample as nat),
        r matches Some(c) ==> (c.recommended_sample == recommended_sample(vocabulary as nat) && (
        match c.inverse_c_hundredths {
            Some(h) => inverse_c_hundredths(vocabulary as nat, sample as nat) == Some(h as nat),
            None => inverse_c_hundredths(vocabulary as nat, sample as nat) is None,
        })),
{
    let n = vocabulary as u128 + 1;
    let ghost nn = vocabulary as nat + 1;
    proof {
        lemma_harmonic_grows(nn, nn);
        lemma_reduced_is_harmonic(nn);
    }
    let h = match harmonic_fraction(n) {
        Some(h) => h,
        None => {
            return None;
        },
    };
    let (num, den) = h;
    assert(num * (10000 * n) == 10000 * nn * num) by (nonlinear_arith)
        requires
            n == nn,
    ;
    let top = match num.checked_mul(10000 * n) {
        Some(v) => v,
        None => {
            return None;
        },
    };
    let bottom = match den.checked_mul(sample as u128) {
        Some(v) => v,
        None => {
            return None;
        },
    };
    let ghost hn = harmonic_num(nn);
    let ghost hd = harmonic_den(nn);
    assert(num * (20 * n) <= num * (10000 * n)) by (nonlinear_arith)
        requires
            n >= 1,
    ;
    let twenty = num * (20 * n);
    let recommended_sample = twenty / den;
    proof {
        assert(twenty * hd == den * (20 * nn * hn)) by (nonlinear_arith)
            requires
                num * hd == den * hn,
                twenty == num * (20 * n),
                n == nn,
        ;
        lemma_equal_ratio_floor(twenty as nat, den as nat, 20 * nn * hn, hd);
    }
    let inverse_c_hundredths = if sample == 0 {
        None
    } else {
        assert(den * (sample as u128) >= 1) by (nonlinear_arith)
            requires
                den >= 1,
                sample >= 1,
        ;
        proof {
            let ss = sample as nat;
            assert(top * (hd * ss) == bottom * (10000 * nn * hn)) by (nonlinear_arith)
                requires
                    num * hd == den * hn,
                    top == num * (10000 * n),
                    bottom == den * ss,
                    n == nn,
            ;
            assert(hd * ss > 0) by (nonlinear_arith)
                requires
                    hd >= 1,
                    ss >= 1,
            ;
            lemma_equal_ratio_floor(top as nat, bottom as nat, 10000 * nn * hn, hd * ss);
        }
        Some(top / bottom)
    };
    Some(Coverage { inverse_c_hundredths, recommended_sample })
}

/// `H(n)` is at least 1 and grows with `n`: for `1 <= n <= m`,
/// `1 <= H(n) <= H(m)`, written over the common denominators.
pub proof fn lemma_harmonic_monotone(n: nat, m: nat)
    requires
        1 <= n <= m,
    ensures
        harmonic_num(n) >= harmonic_den(n),
        harmonic_num(n) * harmonic_den(m) <= harmonic_num(m) * harmonic_den(n),
    decreases m - n,
{
    lemma_harmonic_grows(n, n);
    if n < m {
        let k = (m - 1) as nat;
        lemma_harmonic_monotone(n, k);
        lemma_harmonic_grows(k, k);
        let (a, b) = (harmonic_num(n), harmonic_den(n));
        let (c, d) = (harmonic_num(k), harmonic_den(k));
        let (e, f) = (harmonic_num(m), harmonic_den(m));
        assert(e == c * m + d);
        assert(f == d * m);
        assert(c * f <= e * d) by (nonlinear_arith)
            requires
                e == c * m + d,
                f == d * m,
        ;
        assert(a * f * d <= e * b * d) by (nonlinear_arith)
            requires
                a * d <= c * b,
                c * f <= e * d,
        ;
        assert(a * f <= e * b) by (nonlinear_arith)
            requires
                a * f * d <= e * b * d,
                d >= 1,
        ;
    } else {
        assert(harmonic_num(n) * harmonic_den(m) == harmonic_num(m) * harmonic_den(n));
    }
}

/// A larger sample never raises the bound, and the recommended sample size
/// does not depend on the sample at all.
pub proof fn lemma_bound_shrinks_with_sample(vocabulary: nat, s1: nat, s2: nat)
    requires
        0 < s1 <= s2,
    ensures
        inverse_c_hundredths(vocabulary, s1) is Some,
        inverse_c_hundredths(vocabulary, s2) is Some,
        inverse_c_hundredths(vocabulary, s2)->0 <= inverse_c_hundredths(vocabulary, s1)->0,
{
    let n = vocabulary + 1;
    lemma_harmonic_grows(n, n);
    let hd = harmonic_den(n);
    assert(1 <= hd * s1 <= hd * s2) by (nonlinear_arith)
        requires
            hd >= 1,
            0 < s1 <= s2,
    ;
    vstd::arithmetic::div_mod::lemma_div_is_ordered_by_denominator(
        (10000 * n * harmonic_num(n)) as int,
        (hd * s1) as int,
        (hd * s2) as int,
    );
}

/// Going from `n` to `n + 1` categories: `c * (n + 1) * H(n + 1)` over its
/// denominator is at least `c * n * H(n)` over its own, plus `c`, once both
/// denominators are multiplied by `s`.
proof fn lemma_scaled_harmonic_step(n: nat, c: nat, s: nat)
    requires
        n >= 1,
        s >= 1,
    ensures
        (c * (n + 1) * harmonic_num(n + 1)) / (harmonic_den(n + 1) * s) >= (c * n * harmonic_num(
            n,
        )) / (harmonic_den(n) * s) + c / s,
{
    let m = n + 1;
    lemma_harmonic_grows(n, n);
    let hn = harmonic_num(n);
    let hd = harmonic_den(n);
    assert(harmonic_num(m) == hn * m + hd);
    assert(harmonic_den(m) == hd * m);
    let x = c * n * hn;
    let d = hd * s;
    let dm = hd * m * s;
    assert(d >= 1 && dm >= 1) by (nonlinear_arith)
        requires
            hd >= 1,
            s >= 1,
            m >= 1,
            d == hd * s,
            dm == hd * m * s,
    ;
    assert(x * dm == d * (x * m)) by (nonlinear_arith)
        requires
            d == hd * s,
            dm == hd * m * s,
    ;
    lemma_equal_ratio_floor(x, d, x * m, dm);
    let big = c * m * harmonic_num(m);
    assert(big >= x * m + c * hd * m) by (nonlinear_arith)
        requires
            big == c * m * (hn * m + hd),
            x == c * n * hn,
            m == n + 1,
    ;
    assert(harmonic_den(m) * s == dm) by (nonlinear_arith)
        requires
            harmonic_den(m) == hd * m,
            dm == hd * m * s,
    ;
    vstd::arithmetic::div_mod::lemma_div_is_ordered((x * m + c * hd * m) as int, big as int, dm as int);
    // c * hd * m over hd * m * s is at least c / s
    vstd::arithmetic::div_mod::lemma_fundamental_div_mod(c as int, s as int);
    let q = c / s;
    assert(c * hd * m >= q * dm) by (nonlinear_arith)
        requires
            c == s * q + c % s,
            c % s >= 0,
            dm == hd * m * s,
            hd >= 1,
            m >= 1,
            q >= 0,
    ;
    vstd::arithmetic::div_mod::lemma_div_is_ordered(
        (x * m + q * dm) as int,
        (x * m + c * hd * m) as int,
        dm as int,
    );
    vstd::arithmetic::div_mod::lemma_hoist_over_denominator((x * m) as int, q as int, dm);
}

/// Each more category raises the recommended sample size by at least 20 and
/// never lowers the bound.
pub proof fn lemma_estimate_grows_with_vocabulary(v1: nat, v2: nat, sample: nat)
    requires
        v1 <= v2,
        sample > 0,
    ensures
        recommended_sample(v2) >= recommended_sample(v1) + 20 * (v2 - v1),
        inverse_c_hundredths(v1, sample)->0 <= inverse_c_hundredths(v2, sample)->0,
    decreases v2 - v1,
{
    if v1 < v2 {
        lemma_estimate_grows_with_vocabulary(v1, (v2 - 1) as nat, sample);
        let n = v2;
        lemma_scaled_harmonic_step(n, 20, 1);
        assert(harmonic_den(n) * 1 == harmonic_den(n));
        assert(harmonic_den(n + 1) * 1 == harmonic_den(n + 1));
        lemma_scaled_harmonic_step(n, 10000, sample);
    }
}

/// What the coverage step reports: the normalized vocabulary and its bound.
pub struct CouponReport {
    pub true_types: Vec<String>,
    pub estimate: Option<Coverage>,
}

/// Normalizes the found tokens and estimates, from the normalized vocabulary
/// and the number of items scanned, how likely a category is still unseen.
pub fn compute_coupon_probability(found_types: Vec<String>, problems_amt: usize) -> (r:
    CouponReport)
    requires
        distinct(found_types@),
    ensures
        views(r.true_types@).to_set() == normalize(views(found_types@).to_set()),
        distinct(r.true_types@),
        r.estimate is Some <==> estimate_fits(r.true_types.len() as nat, problems_amt as nat),
        r.estimate matches Some(c) ==> (c.recommended_sample == recommended_sample(
            r.true_types.len() as nat,
        ) && (match c.inverse_c_hundredths {
            Some(h) => inverse_c_hundredths(r.true_types.len() as nat, problems_amt as nat) == Some(
                h as nat,
            ),
            None => problems_amt == 0,
        })),
{
    let true_types = get_true_types(found_types);
    let estimate = coverage_estimate(true_types.len(), problems_amt);
    CouponReport { true_types, estimate }
}

} // verus!
