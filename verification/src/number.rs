//! Integer arithmetic for order finding.
use vstd::arithmetic::div_mod::*;
use vstd::arithmetic::mul::*;
use vstd::arithmetic::power::*;
use vstd::arithmetic::power2::*;
use crate::closure::{is_map, is_operation, lemma_result_of, lemma_value_of, map_of, operation};
use rand::Rng;
use vstd::prelude::*;

verus! {

/// `d` divides `n`. Zero divides only zero.
pub open spec fn divides(d: nat, n: nat) -> bool {
    if d == 0 {
        n == 0
    } else {
        n % d == 0
    }
}

/// `g` is the greatest common divisor of `a` and `b`: it divides both, and
/// every common divisor divides it. Under this reading the greatest common
/// divisor of zero and zero is zero.
pub open spec fn is_gcd(a: nat, b: nat, g: nat) -> bool {
    &&& divides(g, a)
    &&& divides(g, b)
    &&& forall|d: nat| divides(d, a) && divides(d, b) ==> #[trigger] divides(d, g)
}

/// The greatest common divisor as a function, by Euclid's recurrence.
pub open spec fn gcd_of(a: nat, b: nat) -> nat
    decreases b,
{
    if b == 0 {
        a
    } else {
        gcd_of(b, a % b)
    }
}

/// A divisor of `x` and of `y` divides `x % y`.
pub proof fn lemma_divides_remainder(d: nat, x: nat, y: nat)
    requires
        divides(d, x),
        divides(d, y),
        y > 0,
    ensures
        divides(d, x % y),
{
    if d == 0 {
        assert(x % y == 0) by {
            lemma_small_mod(0, y);
        }
    } else {
        let q = (x / y) as int;
        let ky = (y / d) as int;
        lemma_fundamental_div_mod(x as int, y as int);
        lemma_fundamental_div_mod(y as int, d as int);
        assert(y * q == d * (ky * q)) by {
            lemma_mul_is_associative(d as int, ky, q);
        }
        assert((d * (-(ky * q)) + x) % (d as int) == (x as int) % (d as int)) by {
            lemma_mod_multiples_vanish(-(ky * q), x as int, d as int);
        }
        assert(d * (-(ky * q)) == -(d * (ky * q))) by {
            lemma_mul_unary_negation(d as int, ky * q);
        }
    }
}

/// A divisor of `y` and of `x % y` divides `x`.
pub proof fn lemma_divides_dividend(d: nat, x: nat, y: nat)
    requires
        divides(d, y),
        divides(d, x % y),
        y > 0,
    ensures
        divides(d, x),
{
    if d != 0 {
        let q = (x / y) as int;
        let ky = (y / d) as int;
        let r = (x % y) as int;
        lemma_fundamental_div_mod(x as int, y as int);
        lemma_fundamental_div_mod(y as int, d as int);
        assert(y * q == d * (ky * q)) by {
            lemma_mul_is_associative(d as int, ky, q);
        }
        assert((d * (ky * q) + r) % (d as int) == r % (d as int)) by {
            lemma_mod_multiples_vanish(ky * q, r, d as int);
        }
    }
}

/// Euclid's recurrence computes the greatest common divisor.
pub proof fn lemma_gcd_of_is_gcd(a: nat, b: nat)
    ensures
        is_gcd(a, b, gcd_of(a, b)),
    decreases b,
{
    if b == 0 {
        if a > 0 {
            lemma_mod_self_0(a as int);
        }
    } else {
        let g = gcd_of(b, a % b);
        lemma_gcd_of_is_gcd(b, a % b);
        lemma_divides_dividend(g, a, b);
        assert forall|d: nat| divides(d, a) && divides(d, b) implies #[trigger] divides(d, g) by {
            lemma_divides_remainder(d, a, b);
        }
    }
}

/// Two numbers that divide each other are equal.
pub proof fn lemma_divides_antisymmetric(x: nat, y: nat)
    requires
        divides(x, y),
        divides(y, x),
    ensures
        x == y,
{
    if x != 0 && y != 0 {
        lemma_fundamental_div_mod(x as int, y as int);
        lemma_fundamental_div_mod(y as int, x as int);
        let p = (x / y) as int;
        let q = (y / x) as int;
        assert(p >= 1 && q >= 1) by (nonlinear_arith)
            requires
                x == y * p,
                y == x * q,
                x > 0,
                y > 0,
                p >= 0,
                q >= 0,
        ;
        assert(x >= y) by (nonlinear_arith)
            requires
                x == y * p,
                p >= 1,
                y > 0,
        ;
        assert(y >= x) by (nonlinear_arith)
            requires
                y == x * q,
                q >= 1,
                x > 0,
        ;
    }
}

/// A pair of numbers has one greatest common divisor.
pub proof fn lemma_gcd_unique(a: nat, b: nat, g: nat, h: nat)
    requires
        is_gcd(a, b, g),
        is_gcd(a, b, h),
    ensures
        g == h,
{
    lemma_divides_antisymmetric(g, h);
}

/// The greatest common divisor does not depend on the order of its
/// arguments.
pub proof fn lemma_gcd_commutative(a: nat, b: nat)
    ensures
        gcd_of(a, b) == gcd_of(b, a),
{
    lemma_gcd_of_is_gcd(a, b);
    lemma_gcd_of_is_gcd(b, a);
    lemma_gcd_unique(a, b, gcd_of(a, b), gcd_of(b, a));
}

/// The greatest common divisor of a number and zero is that number.
pub proof fn lemma_gcd_zero(a: nat)
    ensures
        gcd_of(a, 0) == a,
        gcd_of(0, a) == a,
{
    lemma_gcd_commutative(a, 0);
}

/// `num::integer::gcd` on `u32`. The crate documents the result as the
/// greatest common divisor of its two arguments; its source returns the
/// other argument where one is zero.
#[verifier::external_body]
fn integer_gcd(a: u32, b: u32) -> (g: u32)
    ensures
        is_gcd(a as nat, b as nat, g as nat),
{
    num::integer::gcd(a, b)
}

/// The greatest common divisor of `a` and `b`.
pub fn gcd(a: u32, b: u32) -> (g: u32)
    ensures
        g == gcd_of(a as nat, b as nat),
        is_gcd(a as nat, b as nat, g as nat),
{
    let g = integer_gcd(a, b);
    proof {
        lemma_gcd_of_is_gcd(a as nat, b as nat);
        lemma_gcd_unique(a as nat, b as nat, g as nat, gcd_of(a as nat, b as nat));
    }
    g
}

/// `n` is prime: at least two, and divisible by nothing between one and
/// itself.
pub open spec fn is_prime_number(n: nat) -> bool {
    n >= 2 && forall|d: nat| 2 <= d < n ==> #[trigger] (n % d) != 0
}

/// A number without a divisor from two up to its integer square root has no
/// divisor below itself either.
pub proof fn lemma_no_small_divisor_is_prime(n: nat, root: nat)
    requires
        n >= 2,
        n < (root + 1) * (root + 1),
        forall|d: nat| 2 <= d <= root && d < n ==> #[trigger] (n % d) != 0,
    ensures
        is_prime_number(n),
{
    assert forall|d: nat| 2 <= d < n implies #[trigger] (n % d) != 0 by {
        if n % d == 0 {
            let e = n / d;
            lemma_fundamental_div_mod(n as int, d as int);
            assert(2 <= e < n) by (nonlinear_arith)
                requires
                    n == d * e,
                    2 <= d < n,
            ;
            assert(n % e == 0) by {
                lemma_mod_multiples_basic(d as int, e as int);
            }
            if d > root && e > root {
                assert(d * e >= (root + 1) * (root + 1)) by (nonlinear_arith)
                    requires
                        d >= root + 1,
                        e >= root + 1,
                ;
            }
        }
    }
}

/// `num::integer::sqrt` on `u32`. The crate documents the result `r` as the
/// truncated square root, with `r * r <= n < (r + 1) * (r + 1)`.
#[verifier::external_body]
fn integer_sqrt(n: u32) -> (r: u32)
    ensures
        r * r <= n < (r + 1) * (r + 1),
{
    num::integer::sqrt(n)
}

/// Whether `n` is prime, by trial division up to the square root.
pub fn is_prime(n: u32) -> (prime: bool)
    ensures
        prime == is_prime_number(n as nat),
{
    if n < 2 {
        return false;
    }
    if n == 2 {
        return true;
    }
    if n % 2 == 0 {
        return false;
    }
    let root = integer_sqrt(n);
    assert(root < 65536) by (nonlinear_arith)
        requires
            root * root <= n,
            n <= u32::MAX,
    ;
    let mut i: u32 = 3;
    while i <= root
        invariant
            3 <= i,
            root < 65536,
            root * root <= n < (root + 1) * (root + 1),
            forall|d: nat| 2 <= d < i && d < n ==> #[trigger] ((n as nat) % d) != 0,
        decreases root + 1 - i,
    {
        assert(i < n) by (nonlinear_arith)
            requires
                3 <= i <= root,
                root * root <= n,
        ;
        if n % i == 0 {
            return false;
        }
        i += 1;
    }
    proof {
        lemma_no_small_divisor_is_prime(n as nat, root as nat);
    }
    true
}

/// What [`modexp`] returns: zero for a zero base, one for a zero exponent,
/// and otherwise the power reduced modulo `n`.
pub open spec fn modexp_value(a: nat, r: nat, n: nat) -> nat {
    if a == 0 {
        0
    } else if r == 0 {
        1
    } else {
        (pow(a as int, r) % (n as int)) as nat
    }
}

/// Multiplying a reduced power by the base and reducing again gives the next
/// power, reduced.
pub proof fn lemma_pow_step_mod(a: nat, k: nat, n: nat, p: nat)
    requires
        n > 0,
        p % n == pow(a as int, k) % (n as int),
    ensures
        (p * a) % n == pow(a as int, k + 1) % (n as int),
        pow(a as int, k) >= 0,
{
    let x = pow(a as int, k);
    if a > 0 {
        lemma_pow_positive(a as int, k);
    } else if k > 0 {
        lemma0_pow(k);
    } else {
        lemma_pow0(0);
    }
    assert(pow(a as int, k + 1) == x * a) by {
        lemma_pow_adds(a as int, k, 1);
        lemma_pow1(a as int);
    }
    lemma_mul_mod_noop_left(p as int, a as int, n as int);
    lemma_mul_mod_noop_left(x, a as int, n as int);
}

/// `a` to the power `r`, modulo `n`: the base is reduced, and then
/// multiplied by itself `r - 1` times, each time followed by a reduction. A
/// zero base gives zero and a zero exponent gives one, whatever the modulus.
pub fn modexp(a: u32, r: u32, n: u32) -> (p: u32)
    requires
        a != 0 && r >= 1 ==> n > 0,
    ensures
        p == modexp_value(a as nat, r as nat, n as nat),
        a == 0 ==> p == 0,
        a != 0 && r == 0 ==> p == 1,
        a != 0 && r >= 1 ==> p == pow(a as int, r as nat) % (n as int),
        n > 0 && r >= 1 ==> p == pow(a as int, r as nat) % (n as int),
{
    if a == 0 {
        proof {
            if r >= 1 {
                lemma0_pow(r as nat);
            }
            if n > 0 {
                lemma_small_mod(0, n as nat);
            }
        }
        return 0;
    }
    if r == 0 {
        return 1;
    }
    let mut p: u32 = a % n;
    let mut k: u32 = 1;
    proof {
        lemma_pow1(a as int);
    }
    while k < r
        invariant
            1 <= k <= r,
            n > 0,
            p == pow(a as int, k as nat) % (n as int),
        decreases r - k,
    {
        proof {
            lemma_mod_twice(pow(a as int, k as nat), n as int);
            lemma_pow_step_mod(a as nat, k as nat, n as nat, p as nat);
        }
        assert(p * a <= u64::MAX) by (nonlinear_arith)
            requires
                p <= u32::MAX,
                a <= u32::MAX,
        ;
        let next: u64 = (p as u64 * a as u64) % (n as u64);
        p = next as u32;
        k += 1;
    }
    p
}

/// Squaring a reduced power and reducing again gives the reduced power for
/// twice the exponent.
pub proof fn lemma_pow_square_mod(a: nat, e: nat, n: nat, p: nat)
    requires
        n > 0,
        p % n == pow(a as int, e) % (n as int),
    ensures
        (p * p) % n == pow(a as int, 2 * e) % (n as int),
{
    let x = pow(a as int, e);
    assert(pow(a as int, 2 * e) == x * x) by {
        lemma_pow_adds(a as int, e, e);
    }
    lemma_mul_mod_noop(p as int, p as int, n as int);
    lemma_mul_mod_noop(x, x, n as int);
}

/// `a` to the power `2^j`, modulo `n`, by `j` squarings each followed by a
/// reduction. A zero base gives zero whatever the modulus.
pub fn modexp2(a: u32, j: u32, n: u32) -> (p: u32)
    requires
        a != 0 ==> n > 0,
    ensures
        a == 0 ==> p == 0,
        n > 0 ==> p == pow(a as int, pow2(j as nat)) % (n as int),
{
    proof {
        lemma_pow2_pos(j as nat);
    }
    if a == 0 {
        proof {
            lemma0_pow(pow2(j as nat));
            if n > 0 {
                lemma_small_mod(0, n as nat);
            }
        }
        return 0;
    }
    if j == 0 {
        proof {
            lemma2_to64();
            lemma_pow1(a as int);
        }
        return a % n;
    }
    let mut p: u32 = a;
    let mut i: u32 = 0;
    proof {
        lemma2_to64();
        lemma_pow1(a as int);
    }
    while i < j
        invariant
            i <= j,
            n > 0,
            (p as nat) % (n as nat) == pow(a as int, pow2(i as nat)) % (n as int),
            i > 0 ==> p < n,
        decreases j - i,
    {
        proof {
            lemma_pow_square_mod(a as nat, pow2(i as nat), n as nat, p as nat);
            lemma_pow2_unfold((i + 1) as nat);
        }
        assert(p * p <= u64::MAX) by (nonlinear_arith)
            requires
                p <= u32::MAX,
        ;
        let next: u64 = (p as u64 * p as u64) % (n as u64);
        p = next as u32;
        proof {
            lemma_small_mod(p as nat, n as nat);
        }
        i += 1;
    }
    proof {
        lemma_small_mod(p as nat, n as nat);
    }
    p
}

/// The continued fraction `[c0; c1, ..., ck]` as a pair of numerator and
/// denominator: `c0 + 1 / [c1; c2, ..., ck]`. The empty fraction stands for
/// one over zero, so that a single term `c` is the pair `(c, 1)`.
pub open spec fn convergent_of(cf: Seq<u32>) -> (nat, nat)
    decreases cf.len(),
{
    if cf.len() == 0 {
        (1, 0)
    } else {
        let rest = convergent_of(cf.drop_first());
        (cf[0] as nat * rest.0 + rest.1, rest.0)
    }
}

/// Both members of the convergent of `cf` fit in 32 bits.
pub open spec fn convergent_fits(cf: Seq<u32>) -> bool {
    convergent_of(cf).0 <= u32::MAX && convergent_of(cf).1 <= u32::MAX
}

/// How the convergent of the terms from `j` on is made of the convergent of
/// the terms from `j + 1` on.
pub proof fn lemma_convergent_unfold(cf: Seq<u32>, j: int)
    requires
        0 <= j < cf.len(),
    ensures
        convergent_of(cf.skip(j)).0 == cf[j] as nat * convergent_of(cf.skip(j + 1)).0
            + convergent_of(cf.skip(j + 1)).1,
        convergent_of(cf.skip(j)).1 == convergent_of(cf.skip(j + 1)).0,
{
    assert(cf.skip(j).drop_first() =~= cf.skip(j + 1));
}

/// Dropping leading terms never gives a larger convergent than the larger
/// member of the whole fraction's convergent.
pub proof fn lemma_convergent_tail_bound(cf: Seq<u32>, j: int)
    requires
        0 <= j <= cf.len(),
    ensures
        convergent_of(cf.skip(j)).0 <= convergent_of(cf).0 || convergent_of(cf.skip(j)).0
            <= convergent_of(cf).1,
        convergent_of(cf.skip(j)).1 <= convergent_of(cf).0 || convergent_of(cf.skip(j)).1
            <= convergent_of(cf).1,
    decreases j,
{
    if cf.len() >= 1 {
        lemma_convergent_unfold(cf, 0);
    }
    if j == cf.len() {
        if j >= 1 {
            lemma_convergent_tail_bound(cf, j - 1);
            lemma_convergent_unfold(cf, j - 1);
        }
    }
    if j == 1 {
        lemma_convergent_unfold(cf, 0);
        if j < cf.len() {
            lemma_convergent_unfold(cf, 1);
        }
    } else if j >= 2 {
        lemma_convergent_tail_bound(cf, j - 2);
        lemma_convergent_tail_bound(cf, j - 1);
        lemma_convergent_unfold(cf, j - 2);
        lemma_convergent_unfold(cf, j - 1);
        let c = cf[j - 2] as nat;
        let x = convergent_of(cf.skip(j - 1)).0;
        assert(c * x >= 0) by (nonlinear_arith)
            requires
                c >= 0,
                x >= 0,
        ;
    }
}

/// Numerator and denominator of the continued fraction `cf`, by back
/// substitution from its last term.
pub fn convergent(cf: &[u32]) -> (sr: (u32, u32))
    requires
        cf@.len() >= 1,
        convergent_fits(cf@),
    ensures
        sr.0 == convergent_of(cf@).0,
        sr.1 == convergent_of(cf@).1,
{
    let len = cf.len();
    proof {
        lemma_convergent_unfold(cf@, len - 1);
        lemma_convergent_tail_bound(cf@, len - 1);
    }
    if len == 1 {
        return (cf[0], 1);
    }
    let mut s: u32 = 1;
    let mut r: u32 = cf[len - 1];
    let mut i: usize = 2;
    while i < len
        invariant
            2 <= i <= len,
            len == cf@.len(),
            convergent_fits(cf@),
            r == convergent_of(cf@.skip(len - i + 1)).0,
            s == convergent_of(cf@.skip(len - i + 1)).1,
        decreases len - i,
    {
        proof {
            lemma_convergent_unfold(cf@, len - i);
            lemma_convergent_tail_bound(cf@, len - i);
        }
        let tmp = s;
        s = r;
        assert(cf@[len - i] * r <= u32::MAX) by (nonlinear_arith)
            requires
                cf@[len - i] * r + tmp <= u32::MAX,
                tmp >= 0,
        ;
        r = cf[len - i] * r + tmp;
        i += 1;
    }
    proof {
        lemma_convergent_unfold(cf@, 0);
    }
    assert(cf@[0] * r <= u32::MAX) by (nonlinear_arith)
        requires
            cf@[0] * r + s <= u32::MAX,
            s >= 0,
    ;
    s += cf[0] * r;
    (s, r)
}

/// Numerator and denominator of the continued fraction `cf`, where there is
/// a term and both fit in 32 bits.
pub fn checked_convergent(cf: &[u32]) -> (sr: Option<(u32, u32)>)
    ensures
        match sr {
            Some((s, r)) => {
                &&& cf@.len() >= 1
                &&& convergent_fits(cf@)
                &&& s == convergent_of(cf@).0
                &&& r == convergent_of(cf@).1
            },
            None => cf@.len() == 0 || !convergent_fits(cf@),
        },
{
    let len = cf.len();
    if len == 0 {
        return None;
    }
    let mut p: u64 = 1;
    let mut q: u64 = 0;
    let mut j: usize = len;
    proof {
        assert(cf@.skip(len as int).len() == 0);
        assert(convergent_of(cf@.skip(len as int)) == (1nat, 0nat));
    }
    while j > 0
        invariant
            j <= len,
            len == cf@.len(),
            p <= u32::MAX,
            q <= u32::MAX,
            p == convergent_of(cf@.skip(j as int)).0,
            q == convergent_of(cf@.skip(j as int)).1,
        decreases j,
    {
        j -= 1;
        proof {
            lemma_convergent_unfold(cf@, j as int);
            lemma_convergent_tail_bound(cf@, j as int);
        }
        assert(cf@[j as int] * p + q <= u64::MAX) by (nonlinear_arith)
            requires
                cf@[j as int] <= u32::MAX,
                p <= u32::MAX,
                q <= u32::MAX,
        ;
        assert(cf@[j as int] * p >= 0) by (nonlinear_arith)
            requires
                cf@[j as int] >= 0,
                p >= 0,
        ;
        let next: u64 = (cf[j] as u64) * p + q;
        if next > u32::MAX as u64 {
            return None;
        }
        q = p;
        p = next;
    }
    assert(cf@.skip(0) =~= cf@);
    Some((p as u32, q as u32))
}

/// Why a computation on a continued fraction was given up.
#[derive(Clone, Copy, Debug, PartialEq, Eq, Structural)]
pub enum NumberError {
    /// An expansion did not end within the number of terms allowed.
    TooManyTerms,
    /// A member of a convergent does not fit in 32 bits.
    Overflow,
}

/// What is left of `f` before term `k` of its expansion, where the
/// expansion has not ended there. A `step` splits a real number into a term
/// and what is left of it, if anything.
pub open spec fn remainder_at<R>(f: R, step: spec_fn(R) -> (u32, Option<R>), k: nat) -> Option<R>
    decreases k,
{
    if k == 0 {
        Some(f)
    } else {
        match remainder_at(f, step, (k - 1) as nat) {
            Some(r) => step(r).1,
            None => None,
        }
    }
}

/// Once an expansion has ended, nothing is left at any later term.
pub proof fn lemma_expansion_stays_ended<R>(
    f: R,
    step: spec_fn(R) -> (u32, Option<R>),
    k: nat,
    l: nat,
)
    requires
        k <= l,
        remainder_at(f, step, k) is None,
    ensures
        remainder_at(f, step, l) is None,
    decreases l,
{
    if k < l {
        lemma_expansion_stays_ended(f, step, k, (l - 1) as nat);
    }
}

/// Term `k` of the expansion of `f`, where the expansion reaches it.
pub open spec fn term_at<R>(f: R, step: spec_fn(R) -> (u32, Option<R>), k: nat) -> u32 {
    step(remainder_at(f, step, k)->Some_0).0
}

/// `cf` is the expansion of `f`: its terms up to the one after which
/// nothing is left.
pub open spec fn is_expansion<R>(f: R, step: spec_fn(R) -> (u32, Option<R>), cf: Seq<u32>) -> bool {
    &&& cf.len() >= 1
    &&& remainder_at(f, step, (cf.len() - 1) as nat) is Some
    &&& remainder_at(f, step, cf.len()) is None
    &&& forall|k: int| 0 <= k < cf.len() ==> #[trigger] cf[k] == term_at(f, step, k as nat)
}

/// The expansion of `f`, where it ends.
pub open spec fn expansion_of<R>(f: R, step: spec_fn(R) -> (u32, Option<R>)) -> Seq<u32> {
    choose|cf: Seq<u32>| is_expansion(f, step, cf)
}

/// A real number has one expansion at most.
pub proof fn lemma_expansion_unique<R>(f: R, step: spec_fn(R) -> (u32, Option<R>), cf: Seq<u32>)
    requires
        is_expansion(f, step, cf),
    ensures
        expansion_of(f, step) == cf,
{
    let other = expansion_of(f, step);
    if other.len() < cf.len() {
        lemma_expansion_stays_ended(f, step, other.len(), (cf.len() - 1) as nat);
    }
    if cf.len() < other.len() {
        lemma_expansion_stays_ended(f, step, cf.len(), (other.len() - 1) as nat);
    }
}

/// Expands the real number `f` into the terms of a continued fraction.
///
/// `step` gives for a real number its whole part, as the next term, and,
/// unless the fraction left over is below the tolerance, the inverse of
/// that fraction, with which the expansion goes on. An expansion that has
/// not ended after `limit` terms is given up.
pub fn continued_fraction<R: Copy, S: Fn(R) -> (u32, Option<R>)>(f: R, step: S, limit: usize) -> (terms:
    Result<Vec<u32>, NumberError>)
    requires
        is_map(step),
    ensures
        terms is Ok <==> remainder_at(f, map_of(step), limit as nat) is None,
        match terms {
            Ok(list) => list@.len() <= limit && is_expansion(f, map_of(step), list@),
            Err(e) => e == NumberError::TooManyTerms,
        },
{
    let mut list: Vec<u32> = Vec::new();
    let mut r: R = f;
    while list.len() < limit
        invariant
            is_map(step),
            list@.len() <= limit,
            remainder_at(f, map_of(step), list@.len()) == Some(r),
            forall|k: int|
                0 <= k < list@.len() ==> #[trigger] list@[k] == term_at(f, map_of(step), k as nat),
        decreases limit - list@.len(),
    {
        let (t, next) = step(r);
        proof {
            lemma_value_of(step, r, (t, next));
        }
        list.push(t);
        match next {
            None => {
                proof {
                    lemma_expansion_stays_ended(f, map_of(step), list@.len(), limit as nat);
                }
                return Ok(list);
            },
            Some(rest) => {
                r = rest;
            },
        }
    }
    Err(NumberError::TooManyTerms)
}

/// The value of the binary fraction with the digits `bin`, over the first
/// `k` of them: starting from `zero`, `weight(i + 1)` is added for each
/// digit `i` that is not the character zero, in the order of the digits.
pub open spec fn fraction_of<R>(
    bin: Seq<char>,
    k: nat,
    zero: R,
    weight: spec_fn(usize) -> R,
    plus: spec_fn(R, R) -> R,
) -> R
    decreases k,
{
    if k == 0 {
        zero
    } else {
        let rest = fraction_of(bin, (k - 1) as nat, zero, weight, plus);
        if bin[k - 1] == '0' {
            rest
        } else {
            plus(rest, weight(k as usize))
        }
    }
}

/// Reads the binary digits `bin` of a measured phase as a fraction: the
/// sum, from `zero`, of `weight(i + 1)` for every digit `i` that is not the
/// character zero. `weight(k)` stands for two to the power minus `k`.
pub fn parse_float<R: Copy, W: Fn(usize) -> R, A: Fn(R, R) -> R>(
    bin: &[char],
    zero: R,
    weight: W,
    plus: A,
) -> (f: R)
    requires
        is_map(weight),
        is_operation(plus),
    ensures
        f == fraction_of(bin@, bin@.len(), zero, map_of(weight), operation(plus)),
{
    let mut f: R = zero;
    let mut i: usize = 0;
    while i < bin.len()
        invariant
            i <= bin@.len(),
            is_map(weight),
            is_operation(plus),
            f == fraction_of(bin@, i as nat, zero, map_of(weight), operation(plus)),
        decreases bin@.len() - i,
    {
        if bin[i] != '0' {
            let w = weight(i + 1);
            let sum = plus(f, w);
            proof {
                lemma_value_of(weight, (i + 1) as usize, w);
                lemma_result_of(plus, f, w, sum);
            }
            f = sum;
        }
        i += 1;
    }
    f
}

/// The step of an expansion in exact arithmetic, on a fraction given as
/// numerator and denominator: the whole part of the fraction and, unless
/// nothing is left over, the inverse of what is.
pub open spec fn exact_step() -> spec_fn((nat, nat)) -> (u32, Option<(nat, nat)>) {
    |r: (nat, nat)|
        (
            (r.0 / r.1) as u32,
            if r.0 % r.1 == 0 {
                None
            } else {
                Some((r.1, r.0 % r.1))
            },
        )
}

/// The number of terms of the exact expansion of `p / q`.
pub open spec fn exact_len(p: nat, q: nat) -> nat
    decreases q,
{
    if q == 0 || p % q == 0 {
        1
    } else {
        1 + exact_len(q, p % q)
    }
}

/// The terms of the exact expansion of `p / q`.
pub open spec fn exact_terms(p: nat, q: nat) -> Seq<u32> {
    Seq::new(exact_len(p, q), |k: int| term_at((p, q), exact_step(), k as nat))
}

/// After its first term, the exact expansion of `p / q` goes on as that of
/// `q / (p % q)`.
pub proof fn lemma_exact_expansion_shifts(p: nat, q: nat, k: nat)
    requires
        q > 0,
        p % q != 0,
    ensures
        remainder_at((p, q), exact_step(), k + 1) == remainder_at((q, p % q), exact_step(), k),
        term_at((p, q), exact_step(), k + 1) == term_at((q, p % q), exact_step(), k),
    decreases k,
{
    if k > 0 {
        lemma_exact_expansion_shifts(p, q, (k - 1) as nat);
    } else {
        assert(remainder_at((p, q), exact_step(), 0) == Some((p, q)));
    }
}

/// The exact expansion of a fraction ends, and the convergent of its terms
/// is the fraction in lowest terms.
pub proof fn lemma_convergent_of_exact_expansion(p: nat, q: nat)
    requires
        q > 0,
        p <= u32::MAX,
        q <= u32::MAX,
    ensures
        remainder_at((p, q), exact_step(), (exact_len(p, q) - 1) as nat) is Some,
        remainder_at((p, q), exact_step(), exact_len(p, q)) is None,
        gcd_of(p, q) > 0,
        convergent_of(exact_terms(p, q)) == (p / gcd_of(p, q), q / gcd_of(p, q)),
    decreases q,
{
    let g = gcd_of(p, q);
    let t = p / q;
    let terms = exact_terms(p, q);
    lemma_gcd_of_is_gcd(p, q);
    lemma_fundamental_div_mod(p as int, q as int);
    lemma_fundamental_div_mod(q as int, g as int);
    assert(t <= p) by {
        lemma_div_is_ordered_by_denominator(p as int, 1, q as int);
    }
    assert(terms[0] == t);
    if p % q == 0 {
        assert(terms.drop_first() =~= Seq::<u32>::empty());
        assert(gcd_of(p, q) == gcd_of(q, 0));
        lemma_div_by_self(q as int);
        assert(convergent_of(terms.drop_first()) == (1nat, 0nat));
        assert(convergent_of(terms).0 == terms[0] as nat * 1 + 0);
        assert(convergent_of(terms) == (t, 1nat));
    } else {
        let r = p % q;
        lemma_convergent_of_exact_expansion(q, r);
        assert forall|k: int| 0 <= k < exact_len(q, r) implies terms.drop_first()[k]
            == exact_terms(q, r)[k] by {
            lemma_exact_expansion_shifts(p, q, k as nat);
        }
        assert(terms.drop_first() =~= exact_terms(q, r));
        lemma_exact_expansion_shifts(p, q, (exact_len(q, r) - 1) as nat);
        if exact_len(q, r) >= 2 {
            lemma_exact_expansion_shifts(p, q, (exact_len(q, r) - 2) as nat);
        }
        let a = q / g;
        let b = r / g;
        assert(gcd_of(p, q) == gcd_of(q, r));
        lemma_divides_remainder(g, p, q);
        lemma_fundamental_div_mod(r as int, g as int);
        assert(q == g * a);
        assert(r == g * b);
        assert(p == g * (a * t + b)) by (nonlinear_arith)
            requires
                p == q * t + r,
                q == g * a,
                r == g * b,
        ;
        lemma_div_multiples_vanish((a * t + b) as int, g as int);
        assert(p / g == t * a + b) by (nonlinear_arith)
            requires
                p / g == a * t + b,
        ;
        assert(convergent_of(terms.drop_first()) == (a, b));
        assert(convergent_of(terms) == (t * a + b, a));
    }
}

/// Whether the denominator of the convergent of `prefix` passes the order
/// test for `a` modulo `n`: [`modexp`] of it is one.
pub open spec fn confirms_order(a: nat, n: nat, prefix: Seq<u32>) -> bool {
    modexp_value(a, convergent_of(prefix).1, n) == 1
}

/// Whether the search for an order ends at the prefix of `k` terms: its
/// convergent does not fit in 32 bits, or passes the order test.
pub open spec fn stops_at(a: nat, n: nat, cf: Seq<u32>, k: int) -> bool {
    !convergent_fits(cf.take(k)) || confirms_order(a, n, cf.take(k))
}

/// The prefix of `k` terms is the shortest at which the search ends.
pub open spec fn is_first_stop(a: nat, n: nat, cf: Seq<u32>, k: int) -> bool {
    &&& 1 <= k <= cf.len()
    &&& stops_at(a, n, cf, k)
    &&& forall|j: int| 1 <= j < k ==> !#[trigger] stops_at(a, n, cf, j)
}

/// What the search for an order of `a` modulo `n` among the convergents of
/// `cf` gives.
///
/// The prefixes of `cf` are tried by increasing length. The convergent of
/// the first whose denominator passes the order test is given with `true`;
/// a convergent that does not fit in 32 bits before that ends the search
/// with an error; where no prefix passes, the convergent of all of `cf` is
/// given with `false`. No terms at all, which stands for an empty
/// measurement, give `(0, 1, false)`.
pub open spec fn order_of(a: nat, n: nat, cf: Seq<u32>) -> Result<(u32, u32, bool), NumberError> {
    if cf.len() == 0 {
        Ok((0u32, 1u32, false))
    } else if exists|k: int| is_first_stop(a, n, cf, k) {
        let k = choose|k: int| is_first_stop(a, n, cf, k);
        if convergent_fits(cf.take(k)) {
            Ok((convergent_of(cf.take(k)).0 as u32, convergent_of(cf.take(k)).1 as u32, true))
        } else {
            Err(NumberError::Overflow)
        }
    } else {
        Ok((convergent_of(cf).0 as u32, convergent_of(cf).1 as u32, false))
    }
}

/// What [`find_order`] gives for a measured phase `f`: an error where the
/// expansion of `f` does not end within `limit` terms, and otherwise the
/// outcome of the search among the convergents of that expansion.
pub open spec fn order_of_phase<R>(
    a: nat,
    n: nat,
    f: R,
    step: spec_fn(R) -> (u32, Option<R>),
    limit: nat,
) -> Result<(u32, u32, bool), NumberError> {
    if remainder_at(f, step, limit) is Some {
        Err(NumberError::TooManyTerms)
    } else {
        order_of(a, n, expansion_of(f, step))
    }
}

/// The search ends at one prefix only.
pub proof fn lemma_first_stop_unique(a: nat, n: nat, cf: Seq<u32>, k: int)
    requires
        is_first_stop(a, n, cf, k),
    ensures
        (choose|j: int| is_first_stop(a, n, cf, j)) == k,
{
    let j = choose|j: int| is_first_stop(a, n, cf, j);
    assert(is_first_stop(a, n, cf, j));
    if j < k {
        assert(!stops_at(a, n, cf, j));
    }
    if k < j {
        assert(!stops_at(a, n, cf, k));
    }
}

/// A search that ends with `true` has found a denominator that passes the
/// order test.
pub proof fn lemma_order_is_confirmed(a: nat, n: nat, cf: Seq<u32>)
    ensures
        match order_of(a, n, cf) {
            Ok((_, r, true)) => modexp_value(a, r as nat, n) == 1,
            _ => true,
        },
{
    if cf.len() > 0 && exists|k: int| is_first_stop(a, n, cf, k) {
        let k = choose|k: int| is_first_stop(a, n, cf, k);
        assert(stops_at(a, n, cf, k));
    }
}

/// Searches the convergents of the continued fraction `cf` of a measured
/// phase for an order of `a` modulo `n`.
pub fn order_from_terms(a: u32, n: u32, cf: &[u32]) -> (found: Result<(u32, u32, bool), NumberError>)
    requires
        a != 0 && cf@.len() > 0 ==> n > 0,
    ensures
        found == order_of(a as nat, n as nat, cf@),
{
    if cf.len() == 0 {
        return Ok((0, 1, false));
    }
    let mut last: (u32, u32) = (0, 1);
    let mut i: usize = 0;
    while i < cf.len()
        invariant
            i <= cf@.len(),
            cf@.len() > 0,
            a != 0 ==> n > 0,
            forall|j: int| 1 <= j <= i ==> !#[trigger] stops_at(a as nat, n as nat, cf@, j),
            i > 0 ==> last.0 == convergent_of(cf@.take(i as int)).0 && last.1 == convergent_of(
                cf@.take(i as int),
            ).1,
        decreases cf@.len() - i,
    {
        let prefix = &cf[0..i + 1];
        match checked_convergent(prefix) {
            None => {
                proof {
                    assert(is_first_stop(a as nat, n as nat, cf@, i + 1));
                    lemma_first_stop_unique(a as nat, n as nat, cf@, i + 1);
                }
                return Err(NumberError::Overflow);
            },
            Some((s, r)) => {
                if modexp(a, r, n) == 1 {
                    proof {
                        assert(is_first_stop(a as nat, n as nat, cf@, i + 1));
                        lemma_first_stop_unique(a as nat, n as nat, cf@, i + 1);
                    }
                    return Ok((s, r, true));
                }
                last = (s, r);
            },
        }
        i += 1;
    }
    assert(cf@.take(cf@.len() as int) =~= cf@);
    Ok((last.0, last.1, false))
}

/// Recovers an order of `a` modulo `n` from the binary digits `bin` of a
/// measured phase.
///
/// No digits at all give `(0, 1, false)`. Otherwise the digits are read as a
/// fraction, as [`parse_float`] does with `zero`, `weight` and `plus`; the
/// fraction is expanded, as [`continued_fraction`] does with `step` and
/// `limit`; and the convergents of the expansion are searched, as
/// [`order_from_terms`] does.
pub fn find_order<
    R: Copy,
    W: Fn(usize) -> R,
    A: Fn(R, R) -> R,
    S: Fn(R) -> (u32, Option<R>),
>(a: u32, n: u32, bin: &[char], zero: R, weight: W, plus: A, step: S, limit: usize) -> (found: Result<
    (u32, u32, bool),
    NumberError,
>)
    requires
        is_map(weight),
        is_operation(plus),
        is_map(step),
        a != 0 && bin@.len() > 0 ==> n > 0,
    ensures
        bin@.len() == 0 ==> found == Ok::<(u32, u32, bool), NumberError>((0u32, 1u32, false)),
        bin@.len() > 0 ==> found == order_of_phase(
            a as nat,
            n as nat,
            fraction_of(bin@, bin@.len(), zero, map_of(weight), operation(plus)),
            map_of(step),
            limit as nat,
        ),
{
    if bin.len() == 0 {
        return Ok((0, 1, false));
    }
    let fv = parse_float(bin, zero, weight, plus);
    match continued_fraction(fv, step, limit) {
        Err(_) => Err(NumberError::TooManyTerms),
        Ok(cf) => {
            proof {
                lemma_expansion_unique(fv, map_of(step), cf@);
            }
            order_from_terms(a, n, cf.as_slice())
        },
    }
}

/// The number of binary digits of `n`; zero has one digit.
pub open spec fn bit_length(n: nat) -> nat
    decreases n,
{
    if n < 2 {
        1
    } else {
        1 + bit_length(n / 2)
    }
}

/// A number lies below two to the power of its number of digits, and, unless
/// it is zero, not below half of that.
pub proof fn lemma_bit_length_bounds(n: nat)
    ensures
        bit_length(n) >= 1,
        n < pow2(bit_length(n)),
        n >= 1 ==> pow2((bit_length(n) - 1) as nat) <= n,
    decreases n,
{
    lemma2_to64();
    if n >= 2 {
        lemma_bit_length_bounds(n / 2);
        lemma_pow2_unfold(bit_length(n));
        lemma_pow2_unfold(bit_length(n / 2));
    }
}

/// The number of binary digits of `n`; zero has one digit.
pub fn bit_length_of(n: u32) -> (s: u32)
    ensures
        s == bit_length(n as nat),
        1 <= s <= 32,
{
    let mut m: u32 = n;
    let mut s: u32 = 1;
    proof {
        lemma_bit_length_bounds(n as nat);
        lemma2_to64();
        if bit_length(n as nat) > 32 {
            lemma_pow2_strictly_increases(32, (bit_length(n as nat) - 1) as nat);
        }
    }
    while m >= 2
        invariant
            s >= 1,
            bit_length(n as nat) <= 32,
            s - 1 + bit_length(m as nat) == bit_length(n as nat),
        decreases m,
    {
        m = m / 2;
        s += 1;
    }
    s
}

/// `n` is the `i`-th power of some number.
pub open spec fn has_root(n: nat, i: nat) -> bool {
    exists|a: nat| #[trigger] pow(a as int, i) == n
}

/// Powers with a positive exponent grow strictly with the base.
pub proof fn lemma_pow_base_strictly_increases(a: nat, b: nat, e: nat)
    requires
        a < b,
        e >= 1,
    ensures
        0 <= pow(a as int, e) < pow(b as int, e),
    decreases e,
{
    reveal(pow);
    if e == 1 {
        lemma_pow0(a as int);
        lemma_pow0(b as int);
    } else {
        lemma_pow_base_strictly_increases(a, b, (e - 1) as nat);
        let x = pow(a as int, (e - 1) as nat);
        let y = pow(b as int, (e - 1) as nat);
        assert(0 <= a * x < b * y) by (nonlinear_arith)
            requires
                0 <= a < b,
                0 <= x < y,
        ;
    }
}

/// `a` to the power `e`, where that is at most `bound`.
fn power_within(a: u32, e: u32, bound: u32) -> (p: Option<u32>)
    requires
        bound >= 1,
    ensures
        match p {
            Some(v) => v == pow(a as int, e as nat) && v <= bound,
            None => pow(a as int, e as nat) > bound,
        },
{
    let mut p: u64 = 1;
    let mut k: u32 = 0;
    proof {
        lemma_pow0(a as int);
    }
    while k < e
        invariant
            k <= e,
            bound >= 1,
            p == pow(a as int, k as nat),
            p <= bound,
        decreases e - k,
    {
        assert(p * a <= u64::MAX) by (nonlinear_arith)
            requires
                p <= u32::MAX,
                a <= u32::MAX,
        ;
        let next: u64 = p * (a as u64);
        proof {
            lemma_pow_adds(a as int, k as nat, 1);
            lemma_pow1(a as int);
        }
        if next > bound as u64 {
            proof {
                assert(a >= 1) by (nonlinear_arith)
                    requires
                        p * a > bound,
                        bound >= 1,
                        a >= 0,
                ;
                lemma_pow_increases(a as nat, (k + 1) as nat, e as nat);
            }
            return None;
        }
        p = next;
        k += 1;
    }
    Some(p as u32)
}

/// The number whose `i`-th power is `n`, where there is one.
fn exact_root(n: u32, i: u32) -> (root: Option<u32>)
    requires
        n >= 1,
        i >= 2,
    ensures
        match root {
            Some(a) => pow(a as int, i as nat) == n,
            None => !has_root(n as nat, i as nat),
        },
{
    let mut lo: u32 = 0;
    let mut hi: u32 = 65536;
    proof {
        lemma0_pow(i as nat);
        lemma_square_is_pow2(65536);
        lemma_pow_increases(65536, 2, i as nat);
    }
    while hi - lo > 1
        invariant
            lo < hi <= 65536,
            n >= 1,
            i >= 2,
            pow(lo as int, i as nat) <= n < pow(hi as int, i as nat),
        decreases hi - lo,
    {
        let mid = lo + (hi - lo) / 2;
        match power_within(mid, i, n) {
            Some(_) => {
                lo = mid;
            },
            None => {
                hi = mid;
            },
        }
    }
    match power_within(lo, i, n) {
        Some(v) => {
            if v == n {
                return Some(lo);
            }
        },
        None => {},
    }
    proof {
        assert forall|a: nat| #[trigger] pow(a as int, i as nat) != n by {
            if a < lo {
                lemma_pow_base_strictly_increases(a, lo as nat, i as nat);
            } else if a > lo {
                if a > hi {
                    lemma_pow_base_strictly_increases(hi as nat, a, i as nat);
                }
            }
        }
    }
    None
}

/// Writes `n` as a power `a^i` with an exponent of at least two, where it is
/// one.
///
/// The exponents tried are those from one less than the number of binary
/// digits of `n` down to two, and the first that fits is taken: the result
/// holds the largest such exponent and the base that goes with it.
pub fn base_exp(n: u32) -> (power: Option<(u32, u32)>)
    ensures
        match power {
            Some((a, i)) => {
                &&& 2 <= i < bit_length(n as nat)
                &&& pow(a as int, i as nat) == n
                &&& forall|k: nat| i < k < bit_length(n as nat) ==> !has_root(n as nat, k)
            },
            None => forall|k: nat| 2 <= k < bit_length(n as nat) ==> !has_root(n as nat, k),
        },
{
    let s = bit_length_of(n);
    let mut i: u32 = s;
    while i > 2
        invariant
            i <= s,
            s == bit_length(n as nat),
            forall|k: nat| i <= k < s ==> !has_root(n as nat, k),
        decreases i,
    {
        i -= 1;
        proof {
            lemma_bit_length_bounds(n as nat);
            lemma2_to64();
        }
        match exact_root(n, i) {
            Some(a) => {
                return Some((a, i));
            },
            None => {},
        }
    }
    None
}

/// Some number from `2` to `n - 2` has no divisor in common with `n`.
pub open spec fn has_coprime(n: nat) -> bool {
    exists|c: nat| 2 <= c && c + 2 <= n && #[trigger] gcd_of(n, c) == 1
}

/// A divisor of `x` and of `y` divides `k * x - y`, where that is not
/// negative.
pub proof fn lemma_divides_combination(d: nat, x: nat, y: nat, k: nat)
    requires
        divides(d, x),
        divides(d, y),
        k * x >= y,
    ensures
        divides(d, (k * x - y) as nat),
{
    if d == 0 {
        assert(k * x == 0) by (nonlinear_arith)
            requires
                x == 0,
        ;
    } else {
        lemma_mul_mod_noop_right(k as int, x as int, d as int);
        lemma_small_mod(0, d);
        let kx = (k * x) as int;
        assert(kx % (d as int) == 0);
        lemma_sub_mod_noop(kx, y as int, d as int);
    }
}

/// Five and every number from seven on have a coprime number between two and
/// two less than themselves.
pub proof fn lemma_has_coprime(n: nat)
    requires
        n == 5 || n >= 7,
    ensures
        has_coprime(n),
{
    let c: nat = if n % 2 == 1 {
        2
    } else if (n / 2) % 2 == 0 {
        n / 2 + 1
    } else {
        n / 2 + 2
    };
    let g = gcd_of(n, c);
    lemma_gcd_of_is_gcd(n, c);
    assert(divides(g, n) && divides(g, c));
    if n % 2 == 1 {
        if g > 2 {
            lemma_small_mod(2, g);
        }
        assert(g == 1);
    } else if (n / 2) % 2 == 0 {
        lemma_divides_combination(g, c, n, 2);
        assert(2 * c - n == 2);
        assert(divides(g, 2));
        if g > 2 {
            lemma_small_mod(2, g);
        }
        if g == 2 {
            assert(c % 2 == 0);
        }
        assert(g == 1);
    } else {
        lemma_divides_combination(g, c, n, 2);
        assert(2 * c - n == 4);
        assert(divides(g, 4));
        if g > 4 {
            lemma_small_mod(4, g);
        }
        if g == 2 {
            assert(c % 2 == 0);
        }
        if g == 3 {
            assert(4nat % 3 == 1);
        }
        if g == 4 {
            assert(c % 4 == 0);
        }
        assert(g == 1);
    }
    assert(2 <= c && c + 2 <= n && gcd_of(n, c) == 1);
}

/// `rand::Rng::random_range` on the thread's generator, `rand::rng()`, with
/// the half-open range from `low` to `high`. The crate documents a value in
/// the range, and a panic for an empty range, which is left out here.
#[verifier::external_body]
fn random_between(low: u32, high: u32) -> (r: u32)
    requires
        low < high,
    ensures
        low <= r < high,
{
    rand::rng().random_range(low..high)
}

/// What [`coprime`] makes of a number `a` that was drawn: `a` itself where it
/// lies from `2` to `n - 2` and has no divisor in common with `n`, and
/// nothing otherwise.
pub fn coprime_candidate(n: u32, a: u32) -> (accepted: Option<u32>)
    ensures
        accepted == (if 2 <= a && a + 2 <= n && gcd_of(n as nat, a as nat) == 1 {
            Some(a)
        } else {
            None
        }),
{
    if 2 <= a && a < n && a <= n - 2 && gcd(n, a) == 1 {
        Some(a)
    } else {
        None
    }
}

/// The number of random draws after which [`coprime`] stops drawing.
pub const COPRIME_DRAWS: u64 = 0xffff_ffff_ffff_ffff;

/// A number from `2` to `n - 2` without a divisor in common with `n`, drawn
/// at random.
///
/// Numbers are drawn uniformly from that range until one is coprime to `n`.
/// So that the call always returns, the draws are counted: should
/// [`COPRIME_DRAWS`] of them fail in a row, the least coprime number of the
/// range is returned in their place.
pub fn coprime(n: u32) -> (a: u32)
    requires
        n > 3,
        has_coprime(n as nat),
    ensures
        2 <= a <= n - 2,
        gcd_of(n as nat, a as nat) == 1,
{
    let mut left: u64 = COPRIME_DRAWS;
    while left > 0
        invariant
            n > 3,
        decreases left,
    {
        match coprime_candidate(n, random_between(2, n - 1)) {
            Some(a) => {
                return a;
            },
            None => {},
        }
        left -= 1;
    }
    let mut a: u32 = 2;
    while coprime_candidate(n, a).is_none()
        invariant
            n > 3,
            has_coprime(n as nat),
            2 <= a <= n - 2,
            forall|c: nat| 2 <= c < a ==> gcd_of(n as nat, c) != 1,
        decreases n - a,
    {
        proof {
            let c = choose|c: nat| 2 <= c && c + 2 <= n && #[trigger] gcd_of(n as nat, c) == 1;
            assert(c > a);
        }
        a += 1;
    }
    a
}

/// Whether `n` is odd.
pub fn is_odd(n: u32) -> (odd: bool)
    ensures
        odd == (n % 2 == 1),
{
    n % 2 == 1
}

/// A factor `p` of `n` that is neither `1` nor `n` itself.
pub open spec fn is_proper_factor(n: u32, p: u32) -> bool {
    1 < p && p < n && n % p == 0
}

/// Whether none of the candidates in `factor` is a proper factor of `n`.
pub fn is_trivial(n: u32, factor: &[u32]) -> (trivial: bool)
    ensures
        trivial == (forall|i: int| 0 <= i < factor@.len() ==> !is_proper_factor(n, #[trigger] factor@[i])),
{
    let mut i: usize = 0;
    while i < factor.len()
        invariant
            i <= factor@.len(),
            forall|j: int| 0 <= j < i ==> !is_proper_factor(n, #[trigger] factor@[j]),
        decreases factor@.len() - i,
    {
        let p = factor[i];
        if 1 < p && p < n && n % p == 0 {
            return false;
        }
        i += 1;
    }
    true
}

} // verus!
