//! Numbers rounded to the nearest that a mantissa of 53 bits can hold.
use vstd::prelude::*;

verus! {

/// A quotient rounded to the nearest whole number, and halves to the even one.
pub open spec fn nearest(a: nat, d: nat) -> nat {
    let q = a / d;
    let r = a % d;
    if 2 * r < d || (2 * r == d && q % 2 == 0) {
        q
    } else {
        q + 1
    }
}

/// The step between the numbers that a mantissa of 53 bits can hold near `n`, among
/// the powers of two from `u` on.
pub open spec fn step_near(n: nat, u: nat) -> nat
    decreases
            (if n >= 0x20_0000_0000_0000 * u {
                n - 0x20_0000_0000_0000 * u + 1
            } else {
                0
            }),
{
    if u < 1 || n < 0x20_0000_0000_0000 * u {
        u
    } else {
        step_near(n, 2 * u)
    }
}

/// A whole number rounded to a mantissa of 53 bits.
pub open spec fn rounded(n: nat) -> nat {
    nearest(n, step_near(n, 1)) * step_near(n, 1)
}

/// `a` and `den` doubled until the quotient of `a` and `b` has 53 bits before the
/// point.
pub open spec fn scaled(a: nat, b: nat, den: nat) -> (nat, nat)
    decreases
            (if a < 0x10_0000_0000_0000 * b {
                0x10_0000_0000_0000 * b - a
            } else {
                0
            }),
{
    if a < 1 || a >= 0x10_0000_0000_0000 * b {
        (a, den)
    } else {
        scaled(2 * a, b, 2 * den)
    }
}

/// A quotient below one, rounded to a mantissa of 53 bits: numerator and
/// denominator.
pub open spec fn fraction(a: nat, b: nat) -> (nat, nat) {
    let (n, den) = scaled(a, b, 1);
    (nearest(n, b), den)
}

/// Divides and rounds.
pub fn nearest_of(a: u128, d: u128) -> (r: u128)
    requires
        0 < d < 0x4000_0000_0000_0000_0000_0000_0000_0000,
        a < 0x4000_0000_0000_0000_0000_0000_0000_0000,
    ensures
        r == nearest(a as nat, d as nat),
        r <= a + 1,
        r * d <= a + d,
{
    let q = a / d;
    let r = a % d;
    proof {
        assert(q <= a && q * d <= a) by (nonlinear_arith)
            requires
                q == a / d,
                d > 0,
                a >= 0,
        ;
        assert((q + 1) * d == q * d + d) by (nonlinear_arith);
    }
    if 2 * r < d || (2 * r == d && q % 2 == 0) {
        q
    } else {
        q + 1
    }
}

/// Rounds a whole number to a mantissa of 53 bits.
pub fn round53(n: u128) -> (r: u128)
    requires
        n < 0x40_0000_0000_0000_0000_0000_0000_0000,
    ensures
        r == rounded(n as nat),
        r <= 2 * n,
        n < 0x20_0000_0000_0000 ==> r == n,
        r <= n + 0x4000_0000_0000_0000_0000,
{
    let mut u: u128 = 1;
    while n >= 0x20_0000_0000_0000 * u
        invariant
            n < 0x40_0000_0000_0000_0000_0000_0000_0000,
            1 <= u <= 0x4_0000_0000_0000_0000,
            u > 1 ==> n >= u,
            n < 0x20_0000_0000_0000 ==> u == 1,
            step_near(n as nat, u as nat) == step_near(n as nat, 1),
        decreases 0x10_0000_0000_0000_0000 - u,
    {
        u = 2 * u;
    }
    if u == 1 {
        proof {
            assert(nearest(n as nat, 1) == n) by {
                assert(n as nat % 1 == 0 && n as nat / 1 == n);
            }
            assert(n * 1 == n);
        }
        return n;
    }
    let q = nearest_of(n, u);
    q * u
}

/// Rounds a quotient below one to a mantissa of 53 bits.
pub fn fraction_of(a: u64, b: u64) -> (r: (u128, u128))
    requires
        a < b <= 1_000_000_000,
    ensures
        (r.0 as nat, r.1 as nat) == fraction(a as nat, b as nat),
        0 < r.1 < 0x8_0000_0000_0000_0000_0000,
        r.0 <= r.1,
{
    let wide = b as u128;
    let mut n = a as u128;
    let mut den: u128 = 1;
    while n > 0 && n < 0x10_0000_0000_0000 * wide
        invariant
            wide == b,
            a < b <= 1_000_000_000,
            n > 0 ==> 0 < den <= n,
            n == 0 ==> den == 1,
            n < 0x20_0000_0000_0000 * wide,
            n < den * wide,
            scaled(n as nat, wide as nat, den as nat) == scaled(a as nat, b as nat, 1),
        decreases 0x20_0000_0000_0000 * wide - n,
    {
        proof {
            assert(2 * n < (2 * den) * wide) by (nonlinear_arith)
                requires
                    n < den * wide,
            ;
        }
        n = 2 * n;
        den = 2 * den;
    }
    let q = nearest_of(n, wide);
    proof {
        lemma_nearest_bound(n as nat, wide as nat, den as nat);
    }
    (q, den)
}

proof fn lemma_nearest_bound(n: nat, b: nat, den: nat)
    requires
        0 < b,
        n < den * b,
    ensures
        nearest(n, b) <= den,
{
    let q = n / b;
    assert(q < den) by (nonlinear_arith)
        requires
            q == n / b,
            n < den * b,
            b > 0,
    ;
}

/// The nearest whole number to a fraction lies no further from it than a half, and is even
/// where two are as near.
pub proof fn law_nearest(a: nat, d: nat)
    requires
        d > 0,
    ensures
        2 * (nearest(a, d) * d) - 2 * a <= d,
        2 * a - 2 * (nearest(a, d) * d) <= d,
        2 * (nearest(a, d) * d) - 2 * a == d || 2 * a - 2 * (nearest(a, d) * d) == d ==> nearest(
            a,
            d,
        ) % 2 == 0,
{
    let q = a / d;
    let r = a % d;
    assert(a == q * d + r && r < d) by (nonlinear_arith)
        requires
            d > 0,
            q == a / d,
            r == a % d,
    ;
    assert((q + 1) * d == q * d + d) by (nonlinear_arith);
}

/// A multiple is its own nearest.
pub proof fn law_whole_is_nearest(k: nat, d: nat)
    requires
        d > 0,
    ensures
        nearest(k * d, d) == k,
        nearest(k, 1) == k,
{
    assert((k * d) / d == k && (k * d) % d == 0) by (nonlinear_arith)
        requires
            d > 0,
    ;
}

/// A number below two to the fifty-third stays as it is.
pub proof fn law_small_numbers_stay(n: nat)
    requires
        n < 0x20_0000_0000_0000,
    ensures
        rounded(n) == n,
{
    law_whole_is_nearest(n, 1);
}

/// A number is brought to the nearest multiple of a power of two, the least that leaves it
/// below two to the fifty-third of them.
pub proof fn law_rounded_to_a_step(n: nat)
    ensures
        ({
            let u = step_near(n, 1);
            &&& u >= 1
            &&& n < 0x20_0000_0000_0000 * u
            &&& u == 1 || n >= 0x10_0000_0000_0000 * u
            &&& 2 * rounded(n) - 2 * n <= u
            &&& 2 * n - 2 * rounded(n) <= u
        }),
{
    lemma_step_near(n, 1);
    law_nearest(n, step_near(n, 1));
}

proof fn lemma_step_near(n: nat, u: nat)
    requires
        u >= 1,
        u == 1 || n >= 0x10_0000_0000_0000 * u,
    ensures
        step_near(n, u) >= 1,
        n < 0x20_0000_0000_0000 * step_near(n, u),
        step_near(n, u) == 1 || n >= 0x10_0000_0000_0000 * step_near(n, u),
    decreases
            (if n >= 0x20_0000_0000_0000 * u {
                n - 0x20_0000_0000_0000 * u + 1
            } else {
                0
            }),
{
    if n >= 0x20_0000_0000_0000 * u {
        lemma_step_near(n, 2 * u);
    }
}

/// A fraction is written over a denominator that gives it fifty-two binary places or more, with
/// the nearest numerator.
pub proof fn law_fraction(a: nat, b: nat)
    requires
        b > 0,
    ensures
        fraction(a, b).1 >= 1,
        fraction(a, b).0 == nearest(a * fraction(a, b).1, b),
        a > 0 ==> a * fraction(a, b).1 >= 0x10_0000_0000_0000 * b,
{
    lemma_scaled(a, a, b, 1);
}

proof fn lemma_scaled(a: nat, n: nat, b: nat, den: nat)
    requires
        den >= 1,
        n == a * den,
    ensures
        scaled(n, b, den).1 >= 1,
        scaled(n, b, den).0 == a * scaled(n, b, den).1,
        a > 0 ==> scaled(n, b, den).0 >= 0x10_0000_0000_0000 * b,
    decreases
            (if n < 0x10_0000_0000_0000 * b {
                0x10_0000_0000_0000 * b - n
            } else {
                0
            }),
{
    if a > 0 {
        assert(n >= 1) by (nonlinear_arith)
            requires
                a > 0,
                den >= 1,
                n == a * den,
        ;
    }
    if n >= 1 && n < 0x10_0000_0000_0000 * b {
        assert(2 * n == a * (2 * den)) by (nonlinear_arith)
            requires
                n == a * den,
        ;
        lemma_scaled(a, 2 * n, b, 2 * den);
    }
}

} // verus!
