//! Polynomials over the integers modulo a word-sized modulus: evaluation on a
//! domain, directly and by the radix-2 transform, and the inverse transform.

use vstd::arithmetic::div_mod::lemma_add_mod_noop;
use vstd::arithmetic::div_mod::lemma_mod_add_multiples_vanish;
use vstd::arithmetic::div_mod::lemma_mod_bound;
use vstd::arithmetic::div_mod::lemma_mod_twice;
use vstd::arithmetic::div_mod::lemma_sub_mod_noop;
use vstd::arithmetic::div_mod::lemma_mul_mod_noop;
use vstd::arithmetic::div_mod::lemma_small_mod;
use vstd::arithmetic::power::lemma_pow0;
use vstd::arithmetic::power::lemma_pow1;
use vstd::arithmetic::power::lemma_pow_adds;
use vstd::arithmetic::power::lemma_pow_mod_noop;
use vstd::arithmetic::power::lemma_pow_multiplies;
use vstd::arithmetic::power::pow;
use vstd::prelude::*;

verus! {

/// The bound on moduli, coefficients and points that keeps every product
/// within a machine word: `2^32`.
pub const WORD_LIMIT: u64 = 0x1_0000_0000;

/// `base^exp` reduced modulo `modulus`, except that the empty product is 1
/// whatever the modulus.
pub open spec fn power_mod(base: nat, exp: nat, modulus: nat) -> nat {
    if exp == 0 {
        1
    } else {
        (pow(base as int, exp) % (modulus as int)) as nat
    }
}

/// The value at `x` of the polynomial with the given coefficients, lowest
/// degree first, over the integers.
pub open spec fn poly_eval(coefficients: Seq<u64>, x: int) -> int
    decreases coefficients.len(),
{
    if coefficients.len() == 0 {
        0
    } else {
        poly_eval(coefficients.drop_last(), x) + coefficients.last() * pow(
            x,
            (coefficients.len() - 1) as nat,
        )
    }
}

/// Every entry is below `WORD_LIMIT`.
pub open spec fn within_limit(values: Seq<u64>) -> bool {
    forall|i: int| 0 <= i < values.len() ==> #[trigger] values[i] < WORD_LIMIT
}

/// Congruent factors give congruent products.
pub proof fn lemma_congruent_product(a: int, b: int, c: int, d: int, m: int)
    requires
        m > 0,
        a % m == c % m,
        b % m == d % m,
    ensures
        (a * b) % m == (c * d) % m,
{
    lemma_mul_mod_noop(a, b, m);
    lemma_mul_mod_noop(c, d, m);
}

/// Congruent terms give congruent sums.
pub proof fn lemma_congruent_sum(a: int, b: int, c: int, d: int, m: int)
    requires
        m > 0,
        a % m == c % m,
        b % m == d % m,
    ensures
        (a + b) % m == (c + d) % m,
{
    lemma_add_mod_noop(a, b, m);
    lemma_add_mod_noop(c, d, m);
}

/// `base^exp mod modulus` by repeated squaring. For `exp == 0` the result is 1
/// whatever the modulus.
pub fn mod_exp(base: u64, exp: u64, modulus: u64) -> (result: u64)
    requires
        0 < modulus <= WORD_LIMIT,
    ensures
        result == power_mod(base as nat, exp as nat, modulus as nat),
{
    let ghost m = modulus as int;
    let mut result: u64 = 1;
    let mut square: u64 = base % modulus;
    let mut rest: u64 = exp;
    proof {
        lemma_pow_mod_noop(base as int, exp as nat, m);
        lemma_congruent_product(1, pow(square as int, exp as nat), 1, pow(base as int, exp as nat), m);
    }
    while rest > 0
        invariant
            0 < modulus <= WORD_LIMIT,
            m == modulus,
            square < modulus,
            result < modulus || (result == 1 && (rest > 0 || exp == 0)),
            rest <= exp,
            exp == 0 ==> result == 1,
            (result * pow(square as int, rest as nat)) % m == pow(base as int, exp as nat) % m,
        decreases rest,
    {
        let ghost half = (rest / 2) as nat;
        let ghost before = result as int;
        let ghost b = square as int;
        proof {
            assert(result * square <= (WORD_LIMIT - 1) * (WORD_LIMIT - 1)) by (nonlinear_arith)
                requires
                    0 <= result <= WORD_LIMIT - 1,
                    0 <= square <= WORD_LIMIT - 1,
            ;
            assert(square * square <= (WORD_LIMIT - 1) * (WORD_LIMIT - 1)) by (nonlinear_arith)
                requires
                    0 <= square <= WORD_LIMIT - 1,
            ;
        }
        let odd: bool = rest % 2 == 1;
        if odd {
            result = result * square % modulus;
        }
        rest = rest / 2;
        square = square * square % modulus;
        proof {
            // b^(2 half) is (b b)^half, and the new square is congruent to b b.
            lemma_pow_multiplies(b, 2, half);
            lemma_pow_adds(b, 1, 1);
            lemma_pow1(b);
            assert(pow(b, 2) == b * b);
            lemma_pow_mod_noop(b * b, half, m);
            let even_part = pow(b, 2 * half);
            assert(pow(square as int, half) % m == even_part % m);
            if odd {
                lemma_pow_adds(b, 2 * half, 1);
                assert(pow(b, (2 * half + 1) as nat) == even_part * b);
                lemma_mod_bound(before * b, m);
                lemma_small_mod(result as nat, modulus as nat);
                lemma_mul_mod_noop(before * b, 1, m);
                assert((result as int) % m == (before * b) % m);
                lemma_congruent_product(
                    result as int,
                    pow(square as int, half),
                    before * b,
                    even_part,
                    m,
                );
                assert(before * b * even_part == before * (even_part * b)) by (nonlinear_arith);
            } else {
                lemma_congruent_product(
                    result as int,
                    pow(square as int, half),
                    before,
                    even_part,
                    m,
                );
            }
        }
    }
    proof {
        lemma_pow0(square as int);
        assert(result * pow(square as int, 0) == result) by (nonlinear_arith)
            requires
                pow(square as int, 0) == 1,
        ;
        if result < modulus {
            lemma_small_mod(result as nat, modulus as nat);
        }
        if exp > 0 {
            lemma_mod_bound(pow(base as int, exp as nat), m);
        }
    }
    result
}

/// The value at `x` of a polynomial that has been extended by one coefficient.
pub proof fn lemma_poly_eval_step(coefficients: Seq<u64>, x: int, i: int)
    requires
        0 <= i < coefficients.len(),
    ensures
        poly_eval(coefficients.take(i + 1), x) == poly_eval(coefficients.take(i), x)
            + coefficients[i] * pow(x, i as nat),
{
    assert(coefficients.take(i + 1).drop_last() =~= coefficients.take(i));
}

/// The values of the polynomial at the points of `domain`, each reduced modulo
/// `modulus`, by summing the terms one by one.
pub fn evaluate_polynomial_naive(polynomial: &Vec<u64>, domain: &Vec<u64>, modulus: u64) -> (result:
    Vec<u64>)
    requires
        0 < modulus <= WORD_LIMIT,
        within_limit(polynomial@),
    ensures
        result@.len() == domain@.len(),
        forall|k: int|
            0 <= k < domain@.len() ==> #[trigger] result@[k] == poly_eval(
                polynomial@,
                domain@[k] as int,
            ) % (modulus as int),
{
    let ghost m = modulus as int;
    let mut result: Vec<u64> = Vec::new();
    let mut k: usize = 0;
    while k < domain.len()
        invariant
            0 < modulus <= WORD_LIMIT,
            m == modulus,
            within_limit(polynomial@),
            k <= domain@.len(),
            result@.len() == k,
            forall|j: int|
                0 <= j < k ==> #[trigger] result@[j] == poly_eval(polynomial@, domain@[j] as int)
                    % m,
        decreases domain@.len() - k,
    {
        let x: u64 = domain[k];
        let mut value: u64 = 0;
        let mut i: usize = 0;
        proof {
            assert(polynomial@.take(0).len() == 0);
            lemma_small_mod(0, modulus as nat);
        }
        while i < polynomial.len()
            invariant
                0 < modulus <= WORD_LIMIT,
                m == modulus,
                within_limit(polynomial@),
                i <= polynomial@.len(),
                value < modulus,
                value == poly_eval(polynomial@.take(i as int), x as int) % m,
            decreases polynomial@.len() - i,
        {
            let coefficient: u64 = polynomial[i];
            let power: u64 = mod_exp(x, i as u64, modulus);
            proof {
                assert(power < WORD_LIMIT) by {
                    if i > 0 {
                        lemma_mod_bound(pow(x as int, i as nat), m);
                    }
                }
                assert(coefficient * power <= (WORD_LIMIT - 1) * (WORD_LIMIT - 1))
                    by (nonlinear_arith)
                    requires
                        0 <= coefficient <= WORD_LIMIT - 1,
                        0 <= power <= WORD_LIMIT - 1,
                ;
            }
            let next: u64 = (value + coefficient * power) % modulus;
            proof {
                let before = poly_eval(polynomial@.take(i as int), x as int);
                let exact = pow(x as int, i as nat);
                lemma_poly_eval_step(polynomial@, x as int, i as int);
                assert((power as int) % m == exact % m) by {
                    if i == 0 {
                        lemma_pow0(x as int);
                    } else {
                        lemma_mod_bound(exact, m);
                        lemma_small_mod(power as nat, modulus as nat);
                    }
                }
                lemma_congruent_product(coefficient as int, power as int, coefficient as int, exact, m);
                lemma_small_mod(value as nat, modulus as nat);
                lemma_mul_mod_noop(before, 1, m);
                assert((value as int) % m == before % m) by {
                    lemma_mod_bound(before, m);
                }
                lemma_congruent_sum(
                    value as int,
                    coefficient * power,
                    before,
                    coefficient * exact,
                    m,
                );
                lemma_mod_bound(value + coefficient * power, m);
            }
            value = next;
            i = i + 1;
        }
        proof {
            assert(polynomial@.take(polynomial@.len() as int) =~= polynomial@);
        }
        result.push(value);
        k = k + 1;
    }
    result
}

/// The coefficients of even degree.
pub open spec fn evens(coefficients: Seq<u64>) -> Seq<u64> {
    Seq::new(((coefficients.len() + 1) / 2) as nat, |i: int| coefficients[2 * i])
}

/// The coefficients of odd degree.
pub open spec fn odds(coefficients: Seq<u64>) -> Seq<u64> {
    Seq::new((coefficients.len() / 2) as nat, |i: int| coefficients[2 * i + 1])
}

/// The squares, modulo `modulus`, of the first half of the domain.
pub open spec fn halved(domain: Seq<u64>, modulus: nat) -> Seq<u64> {
    Seq::new(
        (domain.len() / 2) as nat,
        |i: int| power_mod(domain[i] as nat, 2, modulus) as u64,
    )
}

/// How many points a butterfly step covers: as many as both halves and the
/// domain have.
pub open spec fn butterfly_count(even: Seq<u64>, odd: Seq<u64>, domain: Seq<u64>) -> nat {
    if even.len() <= odd.len() && even.len() <= domain.len() {
        even.len()
    } else if odd.len() <= domain.len() {
        odd.len()
    } else {
        domain.len()
    }
}

/// The butterfly step: from the values `even[i]` and `odd[i]` of the two halves
/// of a polynomial at the square of `domain[i]`, the values of the polynomial
/// at `domain[i]`, followed by its values at `-domain[i]`.
pub open spec fn butterflies(even: Seq<u64>, odd: Seq<u64>, domain: Seq<u64>, modulus: nat) -> Seq<
    u64,
> {
    let count = butterfly_count(even, odd, domain);
    Seq::new(
        2 * count,
        |i: int|
            if i < count {
                ((even[i] + (domain[i] * odd[i]) % (modulus as int)) % (modulus as int)) as u64
            } else {
                ((even[i - count] + modulus - (domain[i - count] * odd[i - count]) % (
                modulus as int)) % (modulus as int)) as u64
            },
    )
}

/// What the radix-2 transform computes: a polynomial of one coefficient is
/// left as it is, a longer one is split by the parity of the degree, both halves
/// are transformed over the halved domain, and a butterfly step joins them.
pub open spec fn transform(coefficients: Seq<u64>, domain: Seq<u64>, modulus: nat) -> Seq<u64>
    decreases coefficients.len(),
{
    if coefficients.len() <= 1 {
        coefficients
    } else {
        butterflies(
            transform(evens(coefficients), halved(domain, modulus), modulus),
            transform(odds(coefficients), halved(domain, modulus), modulus),
            domain,
            modulus,
        )
    }
}

/// The first entry of `values` followed by the others in reverse, each
/// multiplied by `factor` modulo `modulus`.
pub open spec fn scaled_reversal(values: Seq<u64>, factor: nat, modulus: nat) -> Seq<u64> {
    Seq::new(
        values.len(),
        |i: int|
            if i == 0 {
                ((values[0] * factor) % (modulus as int)) as u64
            } else {
                ((values[values.len() - i] * factor) % (modulus as int)) as u64
            },
    )
}

/// A polynomial is its even part at the square plus the point times its odd
/// part at the square.
pub proof fn lemma_even_odd_split(coefficients: Seq<u64>, x: int)
    ensures
        poly_eval(coefficients, x) == poly_eval(evens(coefficients), x * x) + x * poly_eval(
            odds(coefficients),
            x * x,
        ),
    decreases coefficients.len(),
{
    let n = coefficients.len();
    if n == 0 {
        assert(evens(coefficients).len() == 0);
        assert(odds(coefficients).len() == 0);
    } else {
        let front = coefficients.drop_last();
        let c = coefficients.last() as int;
        lemma_even_odd_split(front, x);
        let t = ((n - 1) / 2) as nat;
        lemma_pow_multiplies(x, 2, t);
        lemma_pow_adds(x, 1, 1);
        lemma_pow1(x);
        assert(pow(x, 2) == x * x);
        assert(pow(x * x, t) == pow(x, 2 * t));
        if (n - 1) % 2 == 0 {
            assert(evens(coefficients).drop_last() =~= evens(front));
            assert(odds(coefficients) =~= odds(front));
            assert(evens(coefficients).last() == coefficients[n - 1]);
            assert(evens(coefficients).len() - 1 == t);
            assert(2 * t == n - 1);
        } else {
            assert(odds(coefficients).drop_last() =~= odds(front));
            assert(evens(coefficients) =~= evens(front));
            assert(odds(coefficients).last() == coefficients[n - 1]);
            assert(odds(coefficients).len() - 1 == t);
            assert(2 * t + 1 == n - 1);
            lemma_pow_adds(x, 2 * t, 1);
            let rest = poly_eval(odds(front), x * x);
            let high = pow(x * x, t);
            assert(x * (rest + c * high) == x * rest + c * (high * x)) by (nonlinear_arith);
        }
    }
}

/// Congruent points give congruent values.
pub proof fn lemma_eval_congruent(coefficients: Seq<u64>, x: int, y: int, m: int)
    requires
        m > 0,
        x % m == y % m,
    ensures
        poly_eval(coefficients, x) % m == poly_eval(coefficients, y) % m,
    decreases coefficients.len(),
{
    if coefficients.len() > 0 {
        let k = (coefficients.len() - 1) as nat;
        let c = coefficients.last() as int;
        lemma_eval_congruent(coefficients.drop_last(), x, y, m);
        lemma_pow_mod_noop(x, k, m);
        lemma_pow_mod_noop(y, k, m);
        lemma_congruent_product(c, pow(x, k), c, pow(y, k), m);
        lemma_congruent_sum(
            poly_eval(coefficients.drop_last(), x),
            c * pow(x, k),
            poly_eval(coefficients.drop_last(), y),
            c * pow(y, k),
            m,
        );
    }
}

/// The second output of a butterfly: `a + m - (b mod m)` is congruent to the
/// difference of anything congruent to `a` and to `b`.
pub proof fn lemma_congruent_difference(a: int, b: int, c: int, d: int, m: int)
    requires
        m > 0,
        a % m == c % m,
        b % m == d % m,
    ensures
        (a + m - b % m) % m == (c - d) % m,
{
    lemma_sub_mod_noop(c, d, m);
    lemma_sub_mod_noop(a, b % m, m);
    lemma_mod_twice(b, m);
    lemma_mod_add_multiples_vanish(a - b % m, m);
}

/// A butterfly at the point `x`: from values congruent to those of the even and
/// the odd part at `x * x`, the first output is the value of the polynomial at
/// `x` and the second its value at `-x`.
pub proof fn lemma_butterfly_point(coefficients: Seq<u64>, x: int, even: int, odd: int, m: int)
    requires
        m > 0,
        even % m == poly_eval(evens(coefficients), x * x) % m,
        odd % m == poly_eval(odds(coefficients), x * x) % m,
    ensures
        (even + (x * odd) % m) % m == poly_eval(coefficients, x) % m,
        (even + m - (x * odd) % m) % m == poly_eval(coefficients, -x) % m,
{
    let e = poly_eval(evens(coefficients), x * x);
    let o = poly_eval(odds(coefficients), x * x);
    lemma_congruent_product(x, odd, x, o, m);
    lemma_mod_twice(x * odd, m);
    lemma_congruent_sum(even, (x * odd) % m, e, x * o, m);
    lemma_congruent_difference(even, x * odd, e, x * o, m);
    lemma_even_odd_split(coefficients, x);
    lemma_even_odd_split(coefficients, -x);
    assert((-x) * (-x) == x * x) by (nonlinear_arith);
    assert((-x) * o == -(x * o)) by (nonlinear_arith);
}

/// The square of a point modulo `m`, as the halved domain holds it, is
/// congruent to the square.
pub proof fn lemma_halved_point(x: u64, m: nat)
    requires
        0 < m <= WORD_LIMIT,
    ensures
        (power_mod(x as nat, 2, m) as u64) as int % (m as int) == (x * x) % (m as int),
{
    let xi = x as int;
    lemma_pow_adds(xi, 1, 1);
    lemma_pow1(xi);
    lemma_mod_bound(pow(xi, 2), m as int);
    lemma_mod_twice(xi * xi, m as int);
}

/// A domain on which the transform evaluates: of length 1, or of even length
/// with each point of the second half the negative of its partner in the
/// first, modulo `modulus`, and with the halved domain of that kind again.
/// The powers of a primitive root of unity of order `2^k` are such a domain.
pub open spec fn radix2_domain(domain: Seq<u64>, modulus: nat) -> bool
    decreases domain.len(),
{
    domain.len() == 1 || {
        &&& domain.len() >= 2
        &&& domain.len() % 2 == 0
        &&& forall|i: int|
            0 <= i < domain.len() / 2 ==> (#[trigger] domain[i] + domain[i + domain.len() / 2]) % (
            modulus as int) == 0
        &&& radix2_domain(halved(domain, modulus), modulus)
    }
}

/// If `a + b` is a multiple of `m`, then `b` is congruent to `-a`.
pub proof fn lemma_negative_partner(a: int, b: int, m: int)
    requires
        m > 0,
        (a + b) % m == 0,
    ensures
        b % m == (-a) % m,
{
    lemma_sub_mod_noop(a + b, a, m);
    lemma_sub_mod_noop(0, a, m);
    lemma_small_mod(0, m as nat);
}

/// On a radix-2 domain with as many points as the polynomial has
/// coefficients, the transform gives the value of the polynomial at each
/// point, up to a multiple of the modulus.
pub proof fn lemma_transform_evaluates(coefficients: Seq<u64>, domain: Seq<u64>, modulus: nat)
    requires
        0 < modulus <= WORD_LIMIT,
        coefficients.len() == domain.len(),
        radix2_domain(domain, modulus),
    ensures
        transform(coefficients, domain, modulus).len() == domain.len(),
        forall|i: int|
            0 <= i < domain.len() ==> (#[trigger] transform(coefficients, domain, modulus)[i]
                as int) % (modulus as int) == poly_eval(coefficients, domain[i] as int) % (
            modulus as int),
    decreases coefficients.len(),
{
    let m = modulus as int;
    let n = domain.len();
    let result = transform(coefficients, domain, modulus);
    if n == 1 {
        assert(coefficients.drop_last().len() == 0);
        lemma_pow0(domain[0] as int);
        assert(poly_eval(coefficients, domain[0] as int) == coefficients[0]) by {
            assert(poly_eval(coefficients.drop_last(), domain[0] as int) == 0);
            assert(coefficients.last() * 1 == coefficients.last()) by (nonlinear_arith);
        }
    } else {
        let half = n / 2;
        let squares = halved(domain, modulus);
        let even = transform(evens(coefficients), squares, modulus);
        let odd = transform(odds(coefficients), squares, modulus);
        lemma_transform_evaluates(evens(coefficients), squares, modulus);
        lemma_transform_evaluates(odds(coefficients), squares, modulus);
        assert(butterfly_count(even, odd, domain) == half);
        assert forall|i: int| 0 <= i < n implies (#[trigger] result[i] as int) % m == poly_eval(
            coefficients,
            domain[i] as int,
        ) % m by {
            let j = if i < half {
                i
            } else {
                i - half
            };
            let x = domain[j] as int;
            lemma_halved_point(domain[j], modulus);
            lemma_eval_congruent(evens(coefficients), squares[j] as int, x * x, m);
            lemma_eval_congruent(odds(coefficients), squares[j] as int, x * x, m);
            assert((even[j] as int) % m == poly_eval(evens(coefficients), x * x) % m);
            assert((odd[j] as int) % m == poly_eval(odds(coefficients), x * x) % m);
            lemma_butterfly_point(coefficients, x, even[j] as int, odd[j] as int, m);
            lemma_mod_bound(even[j] + (x * odd[j]) % m, m);
            lemma_mod_bound(even[j] + m - (x * odd[j]) % m, m);
            lemma_mod_twice(even[j] + (x * odd[j]) % m, m);
            lemma_mod_twice(even[j] + m - (x * odd[j]) % m, m);
            if i >= half {
                assert((domain[j] + domain[j + half]) % m == 0);
                lemma_negative_partner(x, domain[i] as int, m);
                lemma_eval_congruent(coefficients, domain[i] as int, -x, m);
            }
        }
    }
}

/// `n` is a power of two.
pub open spec fn power_of_two(n: nat) -> bool
    decreases n,
{
    n == 1 || (n >= 2 && n % 2 == 0 && power_of_two(n / 2))
}

/// The sum of the powers `w^(0 s), w^(1 s), ..`, `count` of them.
pub open spec fn geometric_sum(w: int, s: nat, count: nat) -> int
    decreases count,
{
    if count == 0 {
        0
    } else {
        geometric_sum(w, s, (count - 1) as nat) + pow(w, ((count - 1) * s) as nat)
    }
}

/// The terms of a geometric sum of even length, taken in pairs.
pub proof fn lemma_geometric_pairs(w: int, s: nat, half: nat)
    ensures
        geometric_sum(w, s, 2 * half) == (1 + pow(w, s)) * geometric_sum(w * w, s, half),
    decreases half,
{
    if half == 0 {
        assert(geometric_sum(w, s, 0) == 0);
        assert((1 + pow(w, s)) * 0 == 0) by (nonlinear_arith);
    } else {
        let before = (half - 1) as nat;
        lemma_geometric_pairs(w, s, before);
        let e = (before * s) as nat;
        assert(before * s >= 0) by (nonlinear_arith)
            requires
                before >= 0,
                s >= 0,
        ;
        // the two new terms are w^(2 e) and w^(2 e + s)
        assert((2 * half - 2) * s == 2 * e) by (nonlinear_arith)
            requires
                e == before * s,
                before == half - 1,
        ;
        assert((2 * half - 1) * s == 2 * e + s) by (nonlinear_arith)
            requires
                e == before * s,
                before == half - 1,
        ;
        lemma_pow_multiplies(w, 2, e);
        lemma_pow_adds(w, 1, 1);
        lemma_pow1(w);
        assert(pow(w * w, e) == pow(w, 2 * e));
        lemma_pow_adds(w, 2 * e, s);
        let low = geometric_sum(w, s, (2 * half - 2) as nat);
        assert(geometric_sum(w, s, (2 * half - 1) as nat) == low + pow(w, 2 * e));
        assert(geometric_sum(w, s, 2 * half) == low + pow(w, 2 * e) + pow(w, 2 * e + s));
        let inner = geometric_sum(w * w, s, before);
        let square = pow(w, 2 * e);
        let step = pow(w, s);
        assert((1 + step) * (inner + square) == (1 + step) * inner + square + square * step)
            by (nonlinear_arith);
    }
}

/// The powers of a number congruent to -1: 1 for an even exponent, -1 for an
/// odd one.
pub proof fn lemma_pow_of_minus_one(a: int, t: nat, m: int)
    requires
        m > 0,
        (a + 1) % m == 0,
    ensures
        t % 2 == 0 ==> pow(a, t) % m == 1int % m,
        t % 2 == 1 ==> (pow(a, t) + 1) % m == 0,
    decreases t,
{
    if t == 0 {
        lemma_pow0(a);
    } else {
        let before = (t - 1) as nat;
        lemma_pow_of_minus_one(a, before, m);
        lemma_pow_adds(a, before, 1);
        lemma_pow1(a);
        let p = pow(a, before);
        assert(pow(a, t) == p * a);
        lemma_negative_partner(1, a, m);
        lemma_small_mod(0, m as nat);
        if t % 2 == 1 {
            // p is 1, so p a is a
            lemma_congruent_product(p, a, 1, a, m);
            assert(1 * a == a) by (nonlinear_arith);
            lemma_congruent_sum(p * a, 1, a, 1, m);
        } else {
            // p is -1 and a is -1, so p a is 1
            lemma_negative_partner(1, p, m);
            lemma_congruent_product(p, a, -1, -1, m);
            assert((-1) * (-1) == 1) by (nonlinear_arith);
        }
    }
}

/// The powers of a root whose `half`-th power is -1, at the multiples of
/// `half`: 1 at the even multiples, -1 at the odd ones.
pub proof fn lemma_root_power(w: int, half: nat, s: nat, m: int)
    requires
        m > 0,
        half >= 1,
        (pow(w, half) + 1) % m == 0,
        s % half == 0,
    ensures
        s % (2 * half) == 0 ==> pow(w, s) % m == 1int % m,
        s % (2 * half) != 0 ==> (pow(w, s) + 1) % m == 0,
{
    let t = s / half;
    vstd::arithmetic::div_mod::lemma_fundamental_div_mod(s as int, half as int);
    assert(s == half * t);
    lemma_pow_multiplies(w, half, t);
    lemma_pow_of_minus_one(pow(w, half), t, m);
    vstd::arithmetic::div_mod::lemma_fundamental_div_mod(s as int, (2 * half) as int);
    vstd::arithmetic::div_mod::lemma_mod_bound(s as int, (2 * half) as int);
    let big = s / (2 * half);
    let rest = s % (2 * half);
    assert(s == (2 * half) * big + rest);
    if t % 2 == 0 {
        // s = 2 half (t / 2)
        let u = t / 2;
        assert(half * t == (2 * half) * u) by (nonlinear_arith)
            requires
                t == 2 * u,
        ;
        vstd::arithmetic::div_mod::lemma_mod_multiples_basic(u as int, (2 * half) as int);
        assert(((2 * half) * u) % (2 * half) == (u * (2 * half)) % (2 * half)) by {
            assert((2 * half) * u == u * (2 * half)) by (nonlinear_arith);
        }
        assert(rest == 0);
    } else {
        if rest == 0 {
            assert(half * t == half * (2 * big)) by (nonlinear_arith)
                requires
                    half * t == (2 * half) * big,
            ;
            assert(t == 2 * big) by (nonlinear_arith)
                requires
                    half * t == half * (2 * big),
                    half >= 1,
            ;
        }
    }
}

/// The geometric sum over a full turn of a root of unity of order `n`, a power
/// of two: `n` where the step is a multiple of `n`, zero elsewhere, up to a
/// multiple of the modulus.
pub proof fn lemma_geometric_sum(w: int, s: nat, n: nat, m: int)
    requires
        m > 0,
        power_of_two(n),
        n >= 2 ==> (pow(w, n / 2) + 1) % m == 0,
    ensures
        s % n == 0 ==> geometric_sum(w, s, n) % m == (n as int) % m,
        s % n != 0 ==> geometric_sum(w, s, n) % m == 0,
    decreases n,
{
    if n == 1 {
        assert(geometric_sum(w, s, 0) == 0);
        assert(0 * s == 0) by (nonlinear_arith);
        lemma_pow0(w);
        assert(geometric_sum(w, s, 1) == 1);
    } else {
        let half = n / 2;
        assert(n == 2 * half);
        lemma_geometric_pairs(w, s, half);
        lemma_pow_adds(w, 1, 1);
        lemma_pow1(w);
        assert(power_of_two(half));
        if half >= 2 {
            let quarter = half / 2;
            assert(half % 2 == 0);
            assert(half == 2 * quarter);
            lemma_pow_multiplies(w, 2, quarter);
            assert(pow(w * w, quarter) == pow(w, half));
        }
        lemma_geometric_sum(w * w, s, half, m);
        let inner = geometric_sum(w * w, s, half);
        let factor = 1 + pow(w, s);
        lemma_small_mod(0, m as nat);
        if s % half != 0 {
            // the inner sum vanishes
            lemma_congruent_product(factor, inner, factor, 0, m);
            assert(factor * 0 == 0) by (nonlinear_arith);
            if s % n == 0 {
                vstd::arithmetic::div_mod::lemma_fundamental_div_mod(s as int, n as int);
                let t = s / n;
                assert(s == half * (2 * t)) by (nonlinear_arith)
                    requires
                        s == n * t,
                        n == 2 * half,
                ;
                vstd::arithmetic::div_mod::lemma_mod_multiples_basic((2 * t) as int, half as int);
                assert((half * (2 * t)) % half == ((2 * t) * half) % half) by {
                    assert(half * (2 * t) == (2 * t) * half) by (nonlinear_arith);
                }
            }
        } else {
            lemma_root_power(w, half, s, m);
            if s % n == 0 {
                // factor is 2 and the inner sum is half
                lemma_congruent_sum(1, pow(w, s), 1, 1, m);
                lemma_congruent_product(factor, inner, 2, half as int, m);
            } else {
                // factor vanishes
                lemma_congruent_product(factor, inner, 0, inner, m);
                assert(0 * inner == 0) by (nonlinear_arith);
            }
        }
    }
}

/// A domain made of the powers of a root of unity: there are `2^t` points,
/// point `k` is congruent to `root^k`, and `root` to the power of half their
/// number is congruent to -1.
pub open spec fn root_domain(domain: Seq<u64>, root: int, modulus: nat) -> bool {
    &&& power_of_two(domain.len())
    &&& forall|k: int|
        0 <= k < domain.len() ==> (#[trigger] domain[k]) as int % (modulus as int) == pow(
            root,
            k as nat,
        ) % (modulus as int)
    &&& domain.len() >= 2 ==> (pow(root, (domain.len() / 2) as nat) + 1) % (modulus as int) == 0
}

/// The halved domain of the powers of a root is made of the powers of its
/// square.
pub proof fn lemma_root_domain_halved(domain: Seq<u64>, root: int, modulus: nat)
    requires
        0 < modulus <= WORD_LIMIT,
        root_domain(domain, root, modulus),
        domain.len() >= 2,
    ensures
        root_domain(halved(domain, modulus), root * root, modulus),
{
    let m = modulus as int;
    let half = (domain.len() / 2) as nat;
    let squares = halved(domain, modulus);
    assert(power_of_two(half));
    lemma_pow_adds(root, 1, 1);
    lemma_pow1(root);
    assert forall|k: int| 0 <= k < squares.len() implies (#[trigger] squares[k]) as int % m == pow(
        root * root,
        k as nat,
    ) % m by {
        lemma_halved_point(domain[k], modulus);
        lemma_pow_multiplies(root, 2, k as nat);
        lemma_pow_adds(root, k as nat, k as nat);
        lemma_congruent_product(
            domain[k] as int,
            domain[k] as int,
            pow(root, k as nat),
            pow(root, k as nat),
            m,
        );
    }
    if half >= 2 {
        assert(half % 2 == 0);
        lemma_pow_multiplies(root, 2, (half / 2) as nat);
    }
}

/// The powers of a root of unity are a domain on which the transform
/// evaluates.
pub proof fn lemma_root_domain_radix2(domain: Seq<u64>, root: int, modulus: nat)
    requires
        0 < modulus <= WORD_LIMIT,
        root_domain(domain, root, modulus),
    ensures
        radix2_domain(domain, modulus),
    decreases domain.len(),
{
    let m = modulus as int;
    if domain.len() >= 2 {
        let half = (domain.len() / 2) as nat;
        let turn = pow(root, half);
        lemma_negative_partner(1, turn, m);
        lemma_small_mod(0, modulus);
        assert forall|i: int| 0 <= i < domain.len() / 2 implies (#[trigger] domain[i] + domain[i
            + domain.len() / 2]) % m == 0 by {
            let p = pow(root, i as nat);
            lemma_pow_adds(root, i as nat, half);
            lemma_congruent_product(p, turn, p, -1, m);
            assert(p * (-1) == -p) by (nonlinear_arith);
            assert((domain[i + half] as int) % m == (-p) % m);
            lemma_congruent_sum(domain[i] as int, domain[i + half] as int, p, -p, m);
        }
        lemma_root_domain_halved(domain, root, modulus);
        lemma_root_domain_radix2(halved(domain, modulus), root * root, modulus);
    }
}

/// The sum over `j < count` of the value of the polynomial at `w^j` times
/// `w^(k j)`: what the transform of the transform adds up, over the integers.
pub open spec fn back_sum(coefficients: Seq<u64>, w: int, k: nat, count: nat) -> int
    decreases count,
{
    if count == 0 {
        0
    } else {
        back_sum(coefficients, w, k, (count - 1) as nat) + poly_eval(
            coefficients,
            pow(w, (count - 1) as nat),
        ) * pow(w, (k * (count - 1)) as nat)
    }
}

/// The last coefficient adds its multiple of a geometric sum to a back sum.
pub proof fn lemma_back_sum_split(coefficients: Seq<u64>, w: int, k: nat, count: nat)
    requires
        coefficients.len() >= 1,
    ensures
        back_sum(coefficients, w, k, count) == back_sum(coefficients.drop_last(), w, k, count)
            + coefficients.last() * geometric_sum(
            w,
            (coefficients.len() - 1 + k) as nat,
            count,
        ),
    decreases count,
{
    let i = (coefficients.len() - 1) as nat;
    let s = (i + k) as nat;
    let c = coefficients.last() as int;
    if count == 0 {
        assert(c * 0 == 0) by (nonlinear_arith);
    } else {
        let j = (count - 1) as nat;
        lemma_back_sum_split(coefficients, w, k, j);
        let y = pow(w, j);
        let front = poly_eval(coefficients.drop_last(), y);
        assert(j * i >= 0 && k * j >= 0 && j * s == j * i + k * j) by (nonlinear_arith)
            requires
                j >= 0,
                i >= 0,
                k >= 0,
                s == i + k,
        ;
        lemma_pow_multiplies(w, j, i);
        lemma_pow_adds(w, (j * i) as nat, (k * j) as nat);
        let x = pow(y, i);
        let z = pow(w, (k * j) as nat);
        assert(x * z == pow(w, (j * s) as nat));
        let low = geometric_sum(w, s, j);
        let low_front = back_sum(coefficients.drop_last(), w, k, j);
        assert((front + c * x) * z == front * z + c * (x * z)) by (nonlinear_arith);
        assert(c * (low + x * z) == c * low + c * (x * z)) by (nonlinear_arith);
    }
}

/// The back sum of no coefficients is zero.
pub proof fn lemma_back_sum_empty(coefficients: Seq<u64>, w: int, k: nat, count: nat)
    requires
        coefficients.len() == 0,
    ensures
        back_sum(coefficients, w, k, count) == 0,
    decreases count,
{
    if count > 0 {
        lemma_back_sum_empty(coefficients, w, k, (count - 1) as nat);
        let z = pow(w, (k * (count - 1)) as nat);
        assert(0 * z == 0) by (nonlinear_arith);
    }
}

/// Over a full turn of a root of unity of order `n`, the back sum at `k` keeps
/// one coefficient alone, that of index `(n - k) mod n`, `n` times, up to a
/// multiple of the modulus.
pub proof fn lemma_back_sum_value(coefficients: Seq<u64>, w: int, k: nat, n: nat, m: int)
    requires
        m > 0,
        power_of_two(n),
        n >= 2 ==> (pow(w, n / 2) + 1) % m == 0,
        k < n,
        coefficients.len() <= n,
    ensures
        coefficients.len() > (n - k) % (n as int) ==> back_sum(coefficients, w, k, n) % m == (n
            * coefficients[(n - k) % (n as int)]) % m,
        coefficients.len() <= (n - k) % (n as int) ==> back_sum(coefficients, w, k, n) % m == 0,
    decreases coefficients.len(),
{
    let target = (n - k) % (n as int);
    lemma_mod_bound(n - k, n as int);
    lemma_small_mod(0, m as nat);
    if coefficients.len() == 0 {
        lemma_back_sum_empty(coefficients, w, k, n);
    } else {
        let i = (coefficients.len() - 1) as nat;
        let s = (i + k) as nat;
        let front = coefficients.drop_last();
        let c = coefficients.last() as int;
        lemma_back_sum_value(front, w, k, n, m);
        lemma_back_sum_split(coefficients, w, k, n);
        lemma_geometric_sum(w, s, n, m);
        // s is a multiple of n exactly when i is the target
        if k == 0 {
            vstd::arithmetic::div_mod::lemma_mod_self_0(n as int);
            lemma_small_mod(i, n);
        } else {
            lemma_small_mod((n - k) as nat, n);
            if s < n {
                lemma_small_mod(s, n);
            } else {
                lemma_mod_add_multiples_vanish(s - n, n as int);
                lemma_small_mod((s - n) as nat, n);
            }
        }
        assert(s % n == 0 <==> i == target);
        let geo = geometric_sum(w, s, n);
        let before = back_sum(front, w, k, n);
        if i == target {
            lemma_congruent_product(c, geo, c, n as int, m);
            lemma_congruent_sum(before, c * geo, 0, c * n, m);
            assert(c * n == n * c) by (nonlinear_arith);
        } else {
            lemma_congruent_product(c, geo, c, 0, m);
            assert(c * 0 == 0) by (nonlinear_arith);
            if i > target {
                assert(front[target] == coefficients[target]);
                lemma_congruent_sum(before, c * geo, n * coefficients[target], 0, m);
            } else {
                lemma_congruent_sum(before, c * geo, 0, 0, m);
            }
        }
    }
}

/// The value at `w^k` of a polynomial whose coefficients are congruent to the
/// values of another at the powers of `w` is a back sum of that other.
pub proof fn lemma_eval_of_values(
    values: Seq<u64>,
    coefficients: Seq<u64>,
    w: int,
    k: nat,
    count: nat,
    m: int,
)
    requires
        m > 0,
        count <= values.len(),
        forall|j: int|
            0 <= j < values.len() ==> (#[trigger] values[j]) as int % m == poly_eval(
                coefficients,
                pow(w, j as nat),
            ) % m,
    ensures
        poly_eval(values.take(count as int), pow(w, k)) % m == back_sum(
            coefficients,
            w,
            k,
            count,
        ) % m,
    decreases count,
{
    if count == 0 {
        assert(values.take(0).len() == 0);
    } else {
        let j = (count - 1) as nat;
        let y = pow(w, k);
        lemma_eval_of_values(values, coefficients, w, k, j, m);
        lemma_poly_eval_step(values, y, j as int);
        lemma_pow_multiplies(w, k, j);
        assert(values[j as int] as int % m == poly_eval(coefficients, pow(w, j)) % m);
        lemma_congruent_product(
            values[j as int] as int,
            pow(y, j),
            poly_eval(coefficients, pow(w, j)),
            pow(w, (k * j) as nat),
            m,
        );
        lemma_congruent_sum(
            poly_eval(values.take(j as int), y),
            values[j as int] * pow(y, j),
            back_sum(coefficients, w, k, j),
            poly_eval(coefficients, pow(w, j)) * pow(w, (k * j) as nat),
            m,
        );
    }
}

/// The inverse transform inverts the transform: over the powers of a root of
/// unity, with coefficients below the modulus, and where the factor that
/// `ifft` multiplies by is the inverse of the number of points, what `ifft`
/// returns for the transform of the coefficients is the coefficients.
pub proof fn lemma_inverse_transform(
    coefficients: Seq<u64>,
    domain: Seq<u64>,
    root: int,
    modulus: nat,
)
    requires
        2 <= modulus <= WORD_LIMIT,
        root_domain(domain, root, modulus),
        coefficients.len() == domain.len(),
        forall|i: int| 0 <= i < coefficients.len() ==> #[trigger] coefficients[i] < modulus,
        (domain.len() * power_mod(domain.len(), (modulus - 2) as nat, modulus)) % modulus == 1,
    ensures
        scaled_reversal(
            transform(transform(coefficients, domain, modulus), domain, modulus),
            power_mod(domain.len(), (modulus - 2) as nat, modulus),
            modulus,
        ) == coefficients,
{
    let m = modulus as int;
    let n = domain.len();
    let factor = power_mod(n, (modulus - 2) as nat, modulus);
    let values = transform(coefficients, domain, modulus);
    let back = transform(values, domain, modulus);
    let result = scaled_reversal(back, factor, modulus);
    lemma_root_domain_radix2(domain, root, modulus);
    lemma_transform_evaluates(coefficients, domain, modulus);
    lemma_transform_evaluates(values, domain, modulus);
    assert forall|j: int| 0 <= j < values.len() implies (#[trigger] values[j]) as int % m
        == poly_eval(coefficients, pow(root, j as nat)) % m by {
        lemma_eval_congruent(coefficients, domain[j] as int, pow(root, j as nat), m);
    }
    assert(values.take(n as int) =~= values);
    assert forall|i: int| 0 <= i < n implies result[i] == coefficients[i] by {
        let source = if i == 0 {
            0
        } else {
            n - i
        };
        let k = source as nat;
        // the entry that ifft reads is n times coefficient i
        lemma_eval_congruent(values, domain[source] as int, pow(root, k), m);
        lemma_eval_of_values(values, coefficients, root, k, n, m);
        lemma_back_sum_value(coefficients, root, k, n, m);
        if i == 0 {
            vstd::arithmetic::div_mod::lemma_mod_self_0(n as int);
        } else {
            lemma_small_mod(i as nat, n);
        }
        assert((n - k) % (n as int) == i);
        let c = coefficients[i] as int;
        assert((back[source] as int) % m == (n * c) % m);
        // times the inverse of n
        lemma_congruent_product(back[source] as int, factor as int, n * c, factor as int, m);
        assert((n * c) * factor == c * (n * factor)) by (nonlinear_arith);
        lemma_small_mod(1, modulus);
        lemma_congruent_product(c, (n * factor) as int, c, 1, m);
        assert(c * 1 == c) by (nonlinear_arith);
        lemma_small_mod(c as nat, modulus);
    }
    assert(result =~= coefficients);
}

/// The coefficients of even degree and those of odd degree.
pub fn split_by_parity(polynomial: &Vec<u64>) -> (halves: (Vec<u64>, Vec<u64>))
    ensures
        halves.0@ == evens(polynomial@),
        halves.1@ == odds(polynomial@),
{
    let n: usize = polynomial.len();
    let mut even: Vec<u64> = Vec::new();
    let mut odd: Vec<u64> = Vec::new();
    let mut i: usize = 0;
    while i < n
        invariant
            i <= n,
            n == polynomial@.len(),
            even@.len() == (i + 1) / 2,
            odd@.len() == i / 2,
            forall|j: int| 0 <= j < even@.len() ==> #[trigger] even@[j] == polynomial@[2 * j],
            forall|j: int| 0 <= j < odd@.len() ==> #[trigger] odd@[j] == polynomial@[2 * j + 1],
        decreases n - i,
    {
        if i % 2 == 0 {
            even.push(polynomial[i]);
        } else {
            odd.push(polynomial[i]);
        }
        i = i + 1;
    }
    proof {
        assert(even@ =~= evens(polynomial@));
        assert(odd@ =~= odds(polynomial@));
    }
    (even, odd)
}

/// The squares, modulo `modulus`, of the first half of the domain.
pub fn halve_domain(domain: &Vec<u64>, modulus: u64) -> (result: Vec<u64>)
    requires
        0 < modulus <= WORD_LIMIT,
    ensures
        result@ == halved(domain@, modulus as nat),
        within_limit(result@),
{
    let half: usize = domain.len() / 2;
    let mut result: Vec<u64> = Vec::new();
    let mut i: usize = 0;
    while i < half
        invariant
            0 < modulus <= WORD_LIMIT,
            half == domain@.len() / 2,
            i <= half,
            result@.len() == i,
            within_limit(result@),
            forall|j: int|
                0 <= j < i ==> #[trigger] result@[j] == power_mod(
                    domain@[j] as nat,
                    2,
                    modulus as nat,
                ),
        decreases half - i,
    {
        let square: u64 = mod_exp(domain[i], 2, modulus);
        proof {
            lemma_mod_bound(pow(domain@[i as int] as int, 2), modulus as int);
        }
        result.push(square);
        i = i + 1;
    }
    proof {
        assert(result@ =~= halved(domain@, modulus as nat));
    }
    result
}

/// The butterfly step on the transforms of the two halves of a polynomial.
pub fn butterfly(even: &Vec<u64>, odd: &Vec<u64>, domain: &Vec<u64>, modulus: u64) -> (result: Vec<
    u64,
>)
    requires
        0 < modulus <= WORD_LIMIT,
        within_limit(even@),
        within_limit(odd@),
        within_limit(domain@),
    ensures
        result@ == butterflies(even@, odd@, domain@, modulus as nat),
        within_limit(result@),
{
    let mut count: usize = even.len();
    if odd.len() < count {
        count = odd.len();
    }
    if domain.len() < count {
        count = domain.len();
    }
    let ghost expected = butterflies(even@, odd@, domain@, modulus as nat);
    let ghost m = modulus as int;
    let mut result: Vec<u64> = Vec::new();
    let mut i: usize = 0;
    while i < count
        invariant
            0 < modulus <= WORD_LIMIT,
            m == modulus,
            within_limit(even@),
            within_limit(odd@),
            within_limit(domain@),
            count == butterfly_count(even@, odd@, domain@),
            expected == butterflies(even@, odd@, domain@, modulus as nat),
            i <= count,
            result@.len() == i,
            within_limit(result@),
            forall|j: int| 0 <= j < i ==> #[trigger] result@[j] == expected[j],
        decreases count - i,
    {
        proof {
            assert(domain@[i as int] * odd@[i as int] <= (WORD_LIMIT - 1) * (WORD_LIMIT - 1))
                by (nonlinear_arith)
                requires
                    0 <= domain@[i as int] <= WORD_LIMIT - 1,
                    0 <= odd@[i as int] <= WORD_LIMIT - 1,
            ;
            lemma_mod_bound(domain@[i as int] * odd@[i as int], m);
            lemma_mod_bound(even@[i as int] + (domain@[i as int] * odd@[i as int]) % m, m);
        }
        let twisted: u64 = (domain[i] * odd[i]) % modulus;
        result.push((even[i] + twisted) % modulus);
        i = i + 1;
    }
    let mut k: usize = 0;
    while k < count
        invariant
            0 < modulus <= WORD_LIMIT,
            m == modulus,
            within_limit(even@),
            within_limit(odd@),
            within_limit(domain@),
            count == butterfly_count(even@, odd@, domain@),
            expected == butterflies(even@, odd@, domain@, modulus as nat),
            k <= count,
            result@.len() == count + k,
            within_limit(result@),
            forall|j: int| 0 <= j < count + k ==> #[trigger] result@[j] == expected[j],
        decreases count - k,
    {
        proof {
            assert(domain@[k as int] * odd@[k as int] <= (WORD_LIMIT - 1) * (WORD_LIMIT - 1))
                by (nonlinear_arith)
                requires
                    0 <= domain@[k as int] <= WORD_LIMIT - 1,
                    0 <= odd@[k as int] <= WORD_LIMIT - 1,
            ;
            lemma_mod_bound(domain@[k as int] * odd@[k as int], m);
            lemma_mod_bound(
                even@[k as int] + modulus - (domain@[k as int] * odd@[k as int]) % m,
                m,
            );
        }
        let twisted: u64 = (domain[k] * odd[k]) % modulus;
        result.push((even[k] + modulus - twisted) % modulus);
        k = k + 1;
    }
    proof {
        assert(result@ =~= expected);
    }
    result
}

/// The values of the polynomial at the points of the first half of `domain`,
/// followed by its values at their negatives, each reduced modulo `modulus`:
/// one butterfly step over the direct evaluation of the two halves.
pub fn evaluate_polynomial_with_one_split(
    polynomial: &Vec<u64>,
    domain: &Vec<u64>,
    modulus: u64,
) -> (result: Vec<u64>)
    requires
        0 < modulus <= WORD_LIMIT,
        within_limit(polynomial@),
        within_limit(domain@),
    ensures
        result@.len() == 2 * (domain@.len() / 2),
        forall|i: int|
            0 <= i < domain@.len() / 2 ==> #[trigger] result@[i] == poly_eval(
                polynomial@,
                domain@[i] as int,
            ) % (modulus as int),
        forall|i: int|
            0 <= i < domain@.len() / 2 ==> #[trigger] result@[domain@.len() / 2 + i] == poly_eval(
                polynomial@,
                -(domain@[i] as int),
            ) % (modulus as int),
{
    let ghost m = modulus as int;
    let (even, odd) = split_by_parity(polynomial);
    let squares: Vec<u64> = halve_domain(domain, modulus);
    let even_values: Vec<u64> = evaluate_polynomial_naive(&even, &squares, modulus);
    let odd_values: Vec<u64> = evaluate_polynomial_naive(&odd, &squares, modulus);
    proof {
        assert forall|i: int| 0 <= i < even_values@.len() implies #[trigger] even_values@[i]
            < WORD_LIMIT by {
            lemma_mod_bound(poly_eval(even@, squares@[i] as int), m);
        }
        assert forall|i: int| 0 <= i < odd_values@.len() implies #[trigger] odd_values@[i]
            < WORD_LIMIT by {
            lemma_mod_bound(poly_eval(odd@, squares@[i] as int), m);
        }
    }
    let result: Vec<u64> = butterfly(&even_values, &odd_values, domain, modulus);
    proof {
        let half = domain@.len() / 2;
        assert(butterfly_count(even_values@, odd_values@, domain@) == half);
        assert forall|i: int| 0 <= i < half implies #[trigger] result@[i] == poly_eval(
            polynomial@,
            domain@[i] as int,
        ) % m && #[trigger] result@[half + i] == poly_eval(polynomial@, -(domain@[i] as int))
            % m by {
            let x = domain@[i] as int;
            lemma_halved_point(domain@[i], modulus as nat);
            lemma_eval_congruent(even@, squares@[i] as int, x * x, m);
            lemma_eval_congruent(odd@, squares@[i] as int, x * x, m);
            lemma_mod_twice(poly_eval(even@, squares@[i] as int), m);
            lemma_mod_twice(poly_eval(odd@, squares@[i] as int), m);
            lemma_butterfly_point(
                polynomial@,
                x,
                even_values@[i] as int,
                odd_values@[i] as int,
                m,
            );
            assert(result@[i] == butterflies(even_values@, odd_values@, domain@, modulus as nat)[i]);
            assert(result@[half + i] == butterflies(
                even_values@,
                odd_values@,
                domain@,
                modulus as nat,
            )[half + i]);
            lemma_mod_bound(even_values@[i] + (x * odd_values@[i]) % m, m);
            lemma_mod_bound(even_values@[i] + m - (x * odd_values@[i]) % m, m);
        }
        assert forall|i: int| 0 <= i < half implies #[trigger] result@[i] == poly_eval(
            polynomial@,
            domain@[i] as int,
        ) % m by {
            let opposite = result@[half + i];
        }
        assert forall|i: int| 0 <= i < half implies #[trigger] result@[half + i] == poly_eval(
            polynomial@,
            -(domain@[i] as int),
        ) % m by {
            let direct = result@[i];
        }
    }
    result
}

/// The radix-2 transform of the polynomial over the domain.
pub fn evaluate_polynomial_fft(polynomial: &Vec<u64>, domain: &Vec<u64>, modulus: u64) -> (result:
    Vec<u64>)
    requires
        polynomial@.len() >= 1,
        0 < modulus <= WORD_LIMIT,
        within_limit(polynomial@),
        within_limit(domain@),
    ensures
        result@ == transform(polynomial@, domain@, modulus as nat),
        within_limit(result@),
    decreases polynomial@.len(),
{
    if polynomial.len() == 1 {
        let mut result: Vec<u64> = Vec::new();
        result.push(polynomial[0]);
        proof {
            assert(result@ =~= polynomial@);
        }
        return result;
    }
    let (even, odd) = split_by_parity(polynomial);
    let squares: Vec<u64> = halve_domain(domain, modulus);
    proof {
        assert forall|i: int| 0 <= i < even@.len() implies #[trigger] even@[i] < WORD_LIMIT by {
            assert(even@[i] == polynomial@[2 * i]);
        }
        assert forall|i: int| 0 <= i < odd@.len() implies #[trigger] odd@[i] < WORD_LIMIT by {
            assert(odd@[i] == polynomial@[2 * i + 1]);
        }
    }
    let even_values: Vec<u64> = evaluate_polynomial_fft(&even, &squares, modulus);
    let odd_values: Vec<u64> = evaluate_polynomial_fft(&odd, &squares, modulus);
    butterfly(&even_values, &odd_values, domain, modulus)
}

/// The inverse transform: the transform of `values`, its entries after the
/// first put in reverse, and each multiplied by the `modulus - 2`-th power of
/// the length of the domain. Over the powers of a root of unity this gives back
/// the coefficients that `values` is the transform of: see
/// `lemma_inverse_transform`.
pub fn ifft(values: &Vec<u64>, domain: &Vec<u64>, modulus: u64) -> (result: Vec<u64>)
    requires
        values@.len() >= 1,
        2 <= modulus <= WORD_LIMIT,
        within_limit(values@),
        within_limit(domain@),
        transform(values@, domain@, modulus as nat).len() >= 1,
    ensures
        result@ == scaled_reversal(
            transform(values@, domain@, modulus as nat),
            power_mod(domain@.len(), (modulus - 2) as nat, modulus as nat),
            modulus as nat,
        ),
{
    let transformed: Vec<u64> = evaluate_polynomial_fft(values, domain, modulus);
    let factor: u64 = mod_exp(domain.len() as u64, modulus - 2, modulus);
    let n: usize = transformed.len();
    let ghost m = modulus as int;
    let ghost expected = scaled_reversal(transformed@, factor as nat, modulus as nat);
    proof {
        if modulus > 2 {
            lemma_mod_bound(pow(domain@.len() as int, (modulus - 2) as nat), m);
        }
    }
    let mut result: Vec<u64> = Vec::new();
    let mut i: usize = 0;
    while i < n
        invariant
            2 <= modulus <= WORD_LIMIT,
            m == modulus,
            factor < WORD_LIMIT,
            within_limit(transformed@),
            n == transformed@.len(),
            n >= 1,
            expected == scaled_reversal(transformed@, factor as nat, modulus as nat),
            i <= n,
            result@.len() == i,
            forall|j: int| 0 <= j < i ==> #[trigger] result@[j] == expected[j],
        decreases n - i,
    {
        let source: usize = if i == 0 {
            0
        } else {
            n - i
        };
        proof {
            assert(transformed@[source as int] * factor <= (WORD_LIMIT - 1) * (WORD_LIMIT - 1))
                by (nonlinear_arith)
                requires
                    0 <= transformed@[source as int] <= WORD_LIMIT - 1,
                    0 <= factor <= WORD_LIMIT - 1,
            ;
            lemma_mod_bound(transformed@[source as int] * factor, m);
        }
        result.push(transformed[source] * factor % modulus);
        i = i + 1;
    }
    proof {
        assert(result@ =~= expected);
    }
    result
}

} // verus!
