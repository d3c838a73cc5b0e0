//! Number-theoretic helpers used by the modular arithmetic circuits.
use vstd::arithmetic::div_mod::*;
use vstd::arithmetic::mul::*;
use vstd::arithmetic::power::*;
use vstd::prelude::*;

verus! {

/// Greatest common divisor, by Euclid's recursion.
pub open spec fn gcd(a: nat, b: nat) -> nat
    decreases b,
{
    if b == 0 {
        a
    } else {
        gcd(b, a % b)
    }
}

proof fn lemma_square_step(r: int, b: int, e: nat, m: int)
    requires
        m > 0,
    ensures
        ((if e % 2 == 1 { (r * b) % m } else { r }) * pow((b * b) % m, e / 2)) % m == (r * pow(
            b,
            e,
        )) % m,
{
    let k = e / 2;
    let d: nat = e % 2;
    assert(e == 2 * k + d);
    lemma_pow_mod_noop(b * b, k, m);
    lemma_pow_multiplies(b, 2, k);
    lemma_square_is_pow2(b);
    lemma_pow_adds(b, 2 * k, d);
    let p = pow(b * b, k);
    assert(pow(b, e) == pow(b, 2 * k) * pow(b, d));
    if d == 1 {
        lemma_pow1(b);
        lemma_mul_mod_noop_general(r * b, pow((b * b) % m, k), m);
        lemma_mul_mod_noop_general(r * b, p, m);
        assert(r * b * p == r * pow(b, e)) by (nonlinear_arith)
            requires
                pow(b, e) == p * b,
        ;
    } else {
        lemma_pow0(b);
        lemma_mul_mod_noop_general(r, pow((b * b) % m, k), m);
        lemma_mul_mod_noop_general(r, p, m);
    }
}

/// Computes `a^exp mod m` by repeated squaring.
///
/// As a convention kept by the circuits, an exponent of 0 gives 1 and an
/// exponent of 1 gives `a` itself; every larger exponent gives the reduced
/// power.
pub fn mod_power(a: usize, exp: usize, m: usize) -> (r: usize)
    requires
        0 < m,
        m * m <= usize::MAX,
    ensures
        exp == 0 ==> r == 1,
        exp == 1 ==> r == a,
        exp >= 2 ==> r == pow(a as int, exp as nat) % (m as int),
        a < m && m > 1 ==> r == pow(a as int, exp as nat) % (m as int),
{
    if exp == 0 {
        proof {
            lemma_pow0(a as int);
            if m > 1 {
                lemma_small_mod(1, m as nat);
            }
        }
        return 1;
    }
    if exp == 1 {
        proof {
            lemma_pow1(a as int);
            if a < m {
                lemma_small_mod(a as nat, m as nat);
            }
        }
        return a;
    }
    let mut result: usize = 1 % m;
    let mut base: usize = a % m;
    let mut e: usize = exp;
    proof {
        lemma_pow_mod_noop(a as int, exp as nat, m as int);
        lemma_mul_mod_noop_general(1, pow(base as int, exp as nat), m as int);
    }
    while e > 0
        invariant
            0 < m,
            m * m <= usize::MAX,
            result < m,
            base < m,
            ((result as int) * pow(base as int, e as nat)) % (m as int) == pow(a as int, exp as nat) % (
            m as int),
        decreases e,
    {
        proof {
            lemma_square_step(result as int, base as int, e as nat, m as int);
            lemma_mul_inequality(base as int, m as int, base as int);
            lemma_mul_inequality(base as int, m as int, m as int);
            lemma_mul_is_commutative(base as int, m as int);
            lemma_mul_inequality(result as int, m as int, base as int);
        }
        if e % 2 == 1 {
            result = (result * base) % m;
        }
        base = (base * base) % m;
        e = e / 2;
    }
    proof {
        lemma_pow0(base as int);
        lemma_small_mod(result as nat, m as nat);
    }
    result
}

/// Whether `a` and `b` share no common factor above 1.
pub fn is_coprime(a: usize, b: usize) -> (r: bool)
    requires
        b > 0,
    ensures
        r == (gcd(a as nat, b as nat) == 1),
{
    let mut x: usize = a;
    let mut y: usize = b;
    loop
        invariant
            y > 0,
            gcd(x as nat, y as nat) == gcd(a as nat, b as nat),
        decreases y,
    {
        if y == 1 {
            assert(gcd(x as nat, 1) == gcd(1, 0));
            return true;
        }
        if x % y == 0 {
            assert(gcd(x as nat, y as nat) == gcd(y as nat, 0));
            return false;
        }
        let t = x % y;
        x = y;
        y = t;
    }
}

proof fn lemma_bezout_step(a: int, s0: int, s1: int, q: int, r0: int, r1: int, m: int)
    requires
        m > 0,
        0 <= s1,
        0 <= q,
        0 <= a,
        (a * s0) % m == r0 % m,
        (a * s1) % m == r1 % m,
    ensures
        (a * ((s0 + m - (q * s1) % m) % m)) % m == (r0 - q * r1) % m,
{
    let t = (q * s1) % m;
    let big = s0 + m - t;
    lemma_mul_mod_noop_right(a, big, m);
    assert(a * big == m * a + (a * s0 - a * t)) by (nonlinear_arith)
        requires
            big == s0 + m - t,
    ;
    lemma_mod_multiples_vanish(a, a * s0 - a * t, m);
    lemma_sub_mod_noop(a * s0, a * t, m);
    lemma_mul_mod_noop_right(a, q * s1, m);
    assert(a * (q * s1) == q * (a * s1)) by (nonlinear_arith);
    lemma_mul_mod_noop_right(q, a * s1, m);
    lemma_mul_mod_noop_right(q, r1, m);
    lemma_sub_mod_noop(r0, q * r1, m);
}

/// Extended Euclid, carried out on residues modulo `m`: returns the factor
/// `s` with `a * s == 1 (mod m)`.
fn ext_gcd(a: usize, m: usize) -> (s: usize)
    requires
        m > 1,
        m * m <= usize::MAX,
        gcd(a as nat, m as nat) == 1,
    ensures
        s < m,
        (a as int * s) % (m as int) == 1,
{
    let mut r0: usize = m;
    let mut r1: usize = a % m;
    let mut s0: usize = 0;
    let mut s1: usize = 1;
    proof {
        lemma_mod_self_0(m as int);
        lemma_small_mod(1, m as nat);
        assert(a as int * 0 == 0);
        assert(a as int * 1 == a as int);
        assert(m + m <= m * m) by (nonlinear_arith)
            requires
                m > 1,
        ;
        lemma_mod_twice(a as int, m as int);
        assert(gcd(a as nat, m as nat) == gcd(m as nat, (a % m) as nat));
    }
    while r1 != 0
        invariant
            m > 1,
            m * m <= usize::MAX,
            m + m <= usize::MAX,
            r0 <= m,
            r1 < m,
            s0 < m,
            s1 < m,
            gcd(r0 as nat, r1 as nat) == 1,
            (a as int * s0) % (m as int) == (r0 as int) % (m as int),
            (a as int * s1) % (m as int) == (r1 as int) % (m as int),
        decreases r1,
    {
        let q = r0 / r1;
        let r2 = r0 % r1;
        proof {
            lemma_div_is_ordered_by_denominator(r0 as int, 1, r1 as int);
            lemma_mul_inequality(q as int, m as int, s1 as int);
            lemma_mul_strict_inequality(s1 as int, m as int, m as int);
            lemma_mul_is_commutative(q as int, s1 as int);
            lemma_bezout_step(
                a as int,
                s0 as int,
                s1 as int,
                q as int,
                r0 as int,
                r1 as int,
                m as int,
            );
            lemma_fundamental_div_mod(r0 as int, r1 as int);
            assert(r0 - q * r1 == r2);
        }
        let t = (q * s1) % m;
        let s2 = (s0 + m - t) % m;
        r0 = r1;
        r1 = r2;
        s0 = s1;
        s1 = s2;
    }
    proof {
        assert(gcd(r0 as nat, 0) == r0);
        lemma_small_mod(1, m as nat);
    }
    s0
}

/// The inverse of `a` modulo `m`, normalised to `[1, m)`; for `m == 1` it is 1.
pub fn mod_inv(a: usize, m: usize) -> (r: usize)
    requires
        m > 0,
        m * m <= usize::MAX,
        gcd(a as nat, m as nat) == 1,
    ensures
        m == 1 ==> r == 1,
        m > 1 ==> 1 <= r < m && (a as int * r) % (m as int) == 1,
{
    if m == 1 {
        return 1;
    }
    let s = ext_gcd(a, m);
    proof {
        if s == 0 {
            assert(a as int * s == 0);
            lemma_small_mod(0, m as nat);
        }
    }
    s
}

} // verus!
