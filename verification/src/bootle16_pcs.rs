//! The square-root-sized commitment scheme: the coefficients fill a square
//! matrix row by row, each row gets one commitment, and an opening folds the
//! rows with the powers of `x^n`.

use crate::algebra::all_reduced;
use crate::algebra::dot;
use crate::algebra::lemma_dot_added;
use crate::algebra::lemma_dot_reduced;
use crate::algebra::lemma_dot_step;
use crate::algebra::lemma_pow_nat;
use crate::algebra::powers;
use crate::algebra::reduced;
use crate::algebra::scaled;
use crate::algebra::summed;
use crate::algebra::Module;
use crate::curve::curve_hash;
use crate::curve::linear_combination;
use crate::curve::pallas;
use crate::curve::point_decodes;
use crate::curve::point_encodings;
use crate::curve::Point;
use crate::field::lemma_all_canonical;
use crate::field::lemma_order_positive;
use crate::field::random_scalars;
use crate::field::scalar_order;
use crate::field::scalar_values;
use crate::field::Scalar;
use crate::Pcs;
use crate::PcsError;
use vstd::arithmetic::div_mod::lemma_add_mod_noop;
use vstd::arithmetic::div_mod::lemma_fundamental_div_mod;
use vstd::arithmetic::div_mod::lemma_mod_bound;
use vstd::arithmetic::div_mod::lemma_mul_mod_noop;
use vstd::arithmetic::div_mod::lemma_small_mod;
use vstd::arithmetic::power::lemma_pow0;
use vstd::arithmetic::power::lemma_pow_adds;
use vstd::arithmetic::power::pow;
use vstd::prelude::*;

verus! {

/// `n` is the side of the smallest square that holds `size` entries, and at
/// least 1.
pub open spec fn is_side_length(size: nat, n: nat) -> bool {
    &&& n >= 1
    &&& n * n >= size
    &&& n == 1 || (n - 1) * (n - 1) < size
}

/// `coefficients` cut or filled with zeros to the length `len`.
pub open spec fn padded(coefficients: Seq<nat>, len: nat) -> Seq<nat> {
    Seq::new(
        len,
        |k: int|
            if k < coefficients.len() {
                coefficients[k]
            } else {
                0
            },
    )
}

/// Row `i` of the matrix of side `n` that `entries` fills row by row.
pub open spec fn row(entries: Seq<nat>, n: nat, i: int) -> Seq<nat> {
    entries.subrange(i * n, i * n + n)
}

/// Column `j` of the matrix of side `n` that `entries` fills row by row.
pub open spec fn column(entries: Seq<nat>, n: nat, j: int) -> Seq<nat> {
    Seq::new(n, |i: int| entries[i * n + j])
}

/// The commitments to the rows of the matrix: entry `i` is the linear
/// combination of the generators with row `i`, plus `blinds[i] * h`.
pub open spec fn row_commitments<P>(
    m: Module<P>,
    generators: Seq<P>,
    h: P,
    entries: Seq<nat>,
    blinds: Seq<nat>,
) -> Seq<P>
    recommends
        entries.len() == generators.len() * generators.len(),
        blinds.len() == generators.len(),
{
    Seq::new(
        generators.len(),
        |i: int|
            (m.add)(
                m.combine(generators, row(entries, generators.len(), i)),
                (m.scale)(h, blinds[i]),
            ),
    )
}

/// The columns of the matrix of side `n`, each folded with the powers of
/// `x^n`, in the scalar field.
pub open spec fn folded_columns(entries: Seq<nat>, n: nat, x: nat) -> Seq<nat> {
    Seq::new(n, |j: int| dot(column(entries, n, j), powers(x, n, n)) % scalar_order())
}

/// The blinding scalars folded with the powers of `x^n`, where `n` is their
/// number, in the scalar field.
pub open spec fn folded_blind(blinds: Seq<nat>, x: nat) -> nat {
    dot(blinds, powers(x, blinds.len(), blinds.len())) % scalar_order()
}

/// The verifier's equation: the row commitments, weighted by the powers of
/// `x^n`, add up to the commitment to the folded columns under the folded
/// blinding scalar.
pub open spec fn accepts<P>(
    m: Module<P>,
    generators: Seq<P>,
    h: P,
    rows: Seq<P>,
    x: nat,
    t_bar: Seq<nat>,
    tau_bar: nat,
) -> bool {
    m.combine(rows, reduced(powers(x, rows.len(), rows.len()))) == (m.add)(
        m.combine(generators, t_bar),
        (m.scale)(h, tau_bar),
    )
}

/// The little-endian base-256 digits of `j`: one byte for `j < 256`, and no
/// leading zero beyond that.
pub open spec fn index_bytes(j: nat) -> Seq<u8>
    decreases j,
{
    if j < 256 {
        seq![j as u8]
    } else {
        seq![(j % 256) as u8] + index_bytes(j / 256)
    }
}

/// The message that generator `j` is the hash of: the byte `"g"`, then the
/// digits of `j`.
pub open spec fn generator_message(j: nat) -> Seq<u8> {
    seq![0x67u8] + index_bytes(j)
}

/// The message that the blinding generator is the hash of: the byte `"h"`.
pub open spec fn blinding_message() -> Seq<u8> {
    seq![0x68u8]
}

/// Different indices have different digits.
pub proof fn lemma_index_bytes_injective(a: nat, b: nat)
    requires
        index_bytes(a) == index_bytes(b),
    ensures
        a == b,
    decreases a,
{
    let left = index_bytes(a);
    let right = index_bytes(b);
    if a < 256 && b < 256 {
        assert(left[0] == a as u8);
        assert(right[0] == b as u8);
    } else if a < 256 {
        assert(left.len() == 1);
        assert(right.len() == 1 + index_bytes(b / 256).len());
        lemma_index_bytes_nonempty(b / 256);
    } else if b < 256 {
        assert(right.len() == 1);
        assert(left.len() == 1 + index_bytes(a / 256).len());
        lemma_index_bytes_nonempty(a / 256);
    } else {
        let left_tail = index_bytes(a / 256);
        let right_tail = index_bytes(b / 256);
        assert(left[0] == (a % 256) as u8);
        assert(right[0] == (b % 256) as u8);
        assert(left.subrange(1, left.len() as int) =~= left_tail);
        assert(right.subrange(1, right.len() as int) =~= right_tail);
        lemma_index_bytes_injective(a / 256, b / 256);
    }
}

/// Every index has at least one digit.
pub proof fn lemma_index_bytes_nonempty(j: nat)
    ensures
        index_bytes(j).len() >= 1,
    decreases j,
{
    if j >= 256 {
        lemma_index_bytes_nonempty(j / 256);
    }
}

/// Each generator is derived from its own index: the messages of two different
/// column generators differ, and none is the message of the blinding generator.
pub proof fn lemma_generator_messages_distinct(a: nat, b: nat)
    ensures
        generator_message(a) == generator_message(b) ==> a == b,
        generator_message(a) != blinding_message(),
{
    lemma_index_bytes_nonempty(a);
    assert(generator_message(a)[0] == 0x67u8);
    assert(blinding_message()[0] == 0x68u8);
    if generator_message(a) == generator_message(b) {
        let left = generator_message(a);
        let right = generator_message(b);
        assert(left.subrange(1, left.len() as int) =~= index_bytes(a));
        assert(right.subrange(1, right.len() as int) =~= index_bytes(b));
        lemma_index_bytes_injective(a, b);
    }
}

/// The message that generator `index` is the hash of.
pub fn generator_message_bytes(index: usize) -> (message: Vec<u8>)
    ensures
        message@ == generator_message(index as nat),
{
    let mut message: Vec<u8> = Vec::new();
    message.push(0x67);
    let mut rest: usize = index;
    proof {
        assert(message@ =~= seq![0x67u8]);
    }
    while rest >= 256
        invariant
            message@ + index_bytes(rest as nat) == generator_message(index as nat),
        decreases rest,
    {
        let ghost before = message@;
        message.push((rest % 256) as u8);
        proof {
            assert(message@ + index_bytes((rest / 256) as nat) =~= before + index_bytes(
                rest as nat,
            ));
        }
        rest = rest / 256;
    }
    let ghost before = message@;
    message.push(rest as u8);
    proof {
        assert(message@ =~= before + index_bytes(rest as nat));
    }
    message
}

/// Whether `n * n` reaches `size`, told by a division that cannot overflow.
pub proof fn lemma_square_test(size: int, n: int)
    requires
        size >= 1,
        n >= 1,
    ensures
        n > (size - 1) / n <==> n * n >= size,
{
    let d = (size - 1) / n;
    lemma_fundamental_div_mod(size - 1, n);
    lemma_mod_bound(size - 1, n);
    if n <= d {
        assert(n * n <= n * d) by (nonlinear_arith)
            requires
                0 <= n <= d,
        ;
    } else {
        assert(n * n >= n * (d + 1)) by (nonlinear_arith)
            requires
                n >= d + 1,
                n >= 0,
        ;
        assert(n * (d + 1) == n * d + n) by (nonlinear_arith);
    }
}

/// The side of the smallest square that holds `size` entries, and at least 1.
pub fn ceil_sqrt(size: usize) -> (n: usize)
    ensures
        is_side_length(size as nat, n as nat),
{
    if size == 0 {
        return 1;
    }
    let mut low: usize = 1;
    let mut high: usize = size;
    proof {
        lemma_square_test(size as int, size as int);
        assert(size * size >= size) by (nonlinear_arith)
            requires
                size >= 1,
        ;
    }
    while low < high
        invariant
            1 <= low <= high <= size,
            high * high >= size,
            low == 1 || (low - 1) * (low - 1) < size,
        decreases high - low,
    {
        let middle: usize = low + (high - low) / 2;
        proof {
            lemma_square_test(size as int, middle as int);
        }
        if middle > (size - 1) / middle {
            high = middle;
        } else {
            low = middle + 1;
        }
    }
    low
}

/// The scalars `(x^n)^0, (x^n)^1, .., (x^n)^(n-1)`.
pub fn stride_powers(x: &Scalar, n: usize) -> (r: Vec<Scalar>)
    ensures
        scalar_values(r@) == reduced(powers(x@, n as nat, n as nat)),
{
    let step: Scalar = x.pow(n as u64);
    let ghost expected = reduced(powers(x@, n as nat, n as nat));
    let mut found: Vec<Scalar> = Vec::new();
    let mut i: usize = 0;
    while i < n
        invariant
            i <= n,
            found@.len() == i,
            step@ == pow(x@ as int, n as nat) % (scalar_order() as int),
            expected == reduced(powers(x@, n as nat, n as nat)),
            forall|k: int| 0 <= k < i ==> (#[trigger] found@[k])@ == expected[k],
        decreases n - i,
    {
        let next: Scalar = if i == 0 {
            Scalar::one()
        } else {
            found[i - 1].mul(&step)
        };
        proof {
            let q = scalar_order() as int;
            lemma_order_positive();
            lemma_pow_nat(x@, (i * n) as nat);
            if i == 0 {
                assert(i * n == 0) by (nonlinear_arith)
                    requires
                        i == 0,
                ;
                lemma_pow0(x@ as int);
                lemma_small_mod(1, scalar_order());
            } else {
                lemma_pow_nat(x@, ((i - 1) * n) as nat);
                lemma_pow_nat(x@, n as nat);
                assert((i - 1) * n >= 0) by (nonlinear_arith)
                    requires
                        i >= 1,
                        n >= 0,
                ;
                assert((i - 1) * n + n == i * n) by (nonlinear_arith);
                lemma_pow_adds(x@ as int, ((i - 1) * n) as nat, n as nat);
                lemma_mul_mod_noop(
                    pow(x@ as int, ((i - 1) * n) as nat),
                    pow(x@ as int, n as nat),
                    q,
                );
                assert(found@[i - 1]@ == expected[i - 1]);
            }
            assert(next@ == expected[i as int]);
        }
        found.push(next);
        i = i + 1;
    }
    proof {
        assert(scalar_values(found@) =~= expected);
    }
    found
}

/// The entries `values[start], values[start + stride], ..`, as many as there
/// are weights, folded with the weights in the scalar field.
fn fold_strided(values: &[Scalar], start: usize, stride: usize, weights: &[Scalar]) -> (r: Scalar)
    requires
        weights@.len() == 0 || start + (weights@.len() - 1) * stride < values@.len(),
    ensures
        r@ == dot(
            Seq::new(weights@.len(), |i: int| scalar_values(values@)[start + i * stride]),
            scalar_values(weights@),
        ) % scalar_order(),
{
    let n: usize = weights.len();
    let available: usize = values.len();
    let ghost picked = Seq::new(n as nat, |i: int| scalar_values(values@)[start + i * stride]);
    let ghost factors = scalar_values(weights@);
    let mut total: Scalar = Scalar::zero();
    let mut i: usize = 0;
    proof {
        lemma_order_positive();
        lemma_small_mod(0, scalar_order());
        assert(picked.take(0).len() == 0);
    }
    while i < n
        invariant
            i <= n,
            n == weights@.len(),
            n == 0 || start + (n - 1) * stride < available,
            available == values@.len(),
            picked == Seq::new(n as nat, |i: int| scalar_values(values@)[start + i * stride]),
            factors == scalar_values(weights@),
            total@ == dot(picked.take(i as int), factors.take(i as int)) % scalar_order(),
        decreases n - i,
    {
        proof {
            assert(0 <= i * stride <= (n - 1) * stride) by (nonlinear_arith)
                requires
                    0 <= i <= n - 1,
                    stride >= 0,
            ;
        }
        let next: Scalar = total.add(&values[start + i * stride].mul(&weights[i]));
        proof {
            lemma_dot_step(picked, factors, i as int);
            lemma_add_mod_noop(
                dot(picked.take(i as int), factors.take(i as int)) as int,
                (picked[i as int] * factors[i as int]) as int,
                scalar_order() as int,
            );
        }
        total = next;
        i = i + 1;
    }
    proof {
        assert(picked.take(n as int) =~= picked);
        assert(factors.take(n as int) =~= factors);
    }
    total
}

/// Two sides of the smallest square for one size are the same.
pub proof fn lemma_side_length_unique(size: nat, n: nat, m: nat)
    requires
        is_side_length(size, n),
        is_side_length(size, m),
    ensures
        n == m,
{
    if n < m {
        assert(n * n <= (m - 1) * (m - 1)) by (nonlinear_arith)
            requires
                0 <= n <= m - 1,
        ;
    } else if m < n {
        assert(m * m <= (n - 1) * (n - 1)) by (nonlinear_arith)
            requires
                0 <= m <= n - 1,
        ;
    }
}

/// The columns of the first `k` rows, each folded with the first `k` weights,
/// in the scalar field.
pub open spec fn folded_prefix(entries: Seq<nat>, n: nat, weights: Seq<nat>, k: int) -> Seq<nat> {
    Seq::new(n, |j: int| dot(column(entries, n, j).take(k), weights.take(k)) % scalar_order())
}

/// The commitments to the first `k` rows, weighted, add up to the commitment to
/// the weighted sum of those rows.
proof fn lemma_fold_rows<P>(
    m: Module<P>,
    generators: Seq<P>,
    h: P,
    entries: Seq<nat>,
    blinds: Seq<nat>,
    weights: Seq<nat>,
    k: int,
)
    requires
        m.lawful(),
        m.members(generators),
        (m.member)(h),
        all_reduced(entries),
        all_reduced(blinds),
        all_reduced(weights),
        entries.len() == generators.len() * generators.len(),
        blinds.len() == generators.len(),
        weights.len() == generators.len(),
        0 <= k <= generators.len(),
    ensures
        m.combine(row_commitments(m, generators, h, entries, blinds).take(k), weights.take(k))
            == (m.add)(
            m.combine(generators, folded_prefix(entries, generators.len(), weights, k)),
            (m.scale)(h, dot(blinds.take(k), weights.take(k)) % scalar_order()),
        ),
    decreases k,
{
    let q = scalar_order();
    let n = generators.len();
    lemma_order_positive();
    let rows = row_commitments(m, generators, h, entries, blinds);
    if k == 0 {
        assert(rows.take(0).len() == 0);
        assert(blinds.take(0).len() == 0);
        lemma_small_mod(0, q);
        let start = folded_prefix(entries, n, weights, 0);
        assert forall|j: int| 0 <= j < start.len() implies start[j] == 0 by {
            assert(column(entries, n, j).take(0).len() == 0);
        }
        m.lemma_combine_zeros(generators, start);
        assert((m.scale)(h, 0) == m.zero);
        assert((m.add)(m.zero, m.zero) == m.zero);
    } else {
        let i = k - 1;
        lemma_fold_rows(m, generators, h, entries, blinds, weights, i);
        m.lemma_combine_step(rows, weights, i);
        lemma_dot_step(blinds, weights, i);
        let total = folded_prefix(entries, n, weights, i);
        let total_blind = dot(blinds.take(i), weights.take(i)) % q;
        let this_row = row(entries, n, i);
        let b = blinds[i];
        let w = weights[i];
        assert(0 <= i * n && i * n + n <= n * n) by (nonlinear_arith)
            requires
                0 <= i < n,
        ;
        assert(all_reduced(total)) by {
            assert forall|j: int| 0 <= j < total.len() implies #[trigger] total[j] < q by {
                lemma_mod_bound(
                    dot(column(entries, n, j).take(i), weights.take(i)) as int,
                    q as int,
                );
            }
        }
        assert(all_reduced(this_row)) by {
            assert forall|j: int| 0 <= j < this_row.len() implies #[trigger] this_row[j] < q by {
                assert(this_row[j] == entries[i * n + j]);
            }
        }
        lemma_mod_bound(dot(blinds.take(i), weights.take(i)) as int, q as int);
        m.lemma_blinded_step(generators, h, total, total_blind, this_row, b, w);
        assert(rows[i] == (m.add)(m.combine(generators, this_row), (m.scale)(h, b)));
        let next = folded_prefix(entries, n, weights, k);
        assert(summed(total, scaled(this_row, w)) =~= next) by {
            assert forall|j: int| 0 <= j < n implies summed(total, scaled(this_row, w))[j]
                == next[j] by {
                let c = column(entries, n, j);
                lemma_dot_step(c, weights, i);
                assert(c[i] == entries[i * n + j]);
                assert(this_row[j] == entries[i * n + j]);
                lemma_add_mod_noop(
                    dot(c.take(i), weights.take(i)) as int,
                    (c[i] * w) as int,
                    q as int,
                );
            }
        }
        lemma_add_mod_noop(
            dot(blinds.take(i), weights.take(i)) as int,
            (b * w) as int,
            q as int,
        );
    }
}

/// Round trip: in every module over the scalar field, the opening of a
/// commitment at any point `x` is accepted against that commitment, whatever
/// the coefficients and the blinding scalars are, and whether or not the
/// coefficients fill the matrix.
pub proof fn lemma_round_trip<P>(
    m: Module<P>,
    generators: Seq<P>,
    h: P,
    coefficients: Seq<nat>,
    blinds: Seq<nat>,
    x: nat,
)
    requires
        m.lawful(),
        m.members(generators),
        (m.member)(h),
        all_reduced(coefficients),
        all_reduced(blinds),
        blinds.len() == generators.len(),
    ensures
        ({
            let n = generators.len();
            let entries = padded(coefficients, n * n);
            accepts(
                m,
                generators,
                h,
                row_commitments(m, generators, h, entries, blinds),
                x,
                folded_columns(entries, n, x),
                folded_blind(blinds, x),
            )
        }),
{
    let n = generators.len();
    let q = scalar_order();
    lemma_order_positive();
    let entries = padded(coefficients, n * n);
    let rows = row_commitments(m, generators, h, entries, blinds);
    let weights = reduced(powers(x, n, n));
    assert(all_reduced(weights)) by {
        assert forall|i: int| 0 <= i < weights.len() implies #[trigger] weights[i] < q by {
            lemma_mod_bound(powers(x, n, n)[i] as int, q as int);
        }
    }
    assert(all_reduced(entries)) by {
        assert forall|i: int| 0 <= i < entries.len() implies #[trigger] entries[i] < q by {
            if i < coefficients.len() {
                assert(entries[i] == coefficients[i]);
            }
        }
    }
    lemma_fold_rows(m, generators, h, entries, blinds, weights, n as int);
    assert(rows.take(n as int) =~= rows);
    assert(weights.take(n as int) =~= weights);
    assert(blinds.take(n as int) =~= blinds);
    lemma_dot_reduced(blinds, powers(x, n, n));
    assert(folded_prefix(entries, n, weights, n as int) =~= folded_columns(entries, n, x)) by {
        assert forall|j: int| 0 <= j < n implies folded_prefix(entries, n, weights, n as int)[j]
            == folded_columns(entries, n, x)[j] by {
            let c = column(entries, n, j);
            assert(c.take(n as int) =~= c);
            lemma_dot_reduced(c, powers(x, n, n));
        }
    }
}

/// Padding: when the number of coefficients is not a square and the matrix is
/// the smallest that holds them, the entries past the coefficients are zero,
/// and the opening at any point `x` is accepted all the same.
pub proof fn lemma_padding_round_trip<P>(
    m: Module<P>,
    generators: Seq<P>,
    h: P,
    coefficients: Seq<nat>,
    blinds: Seq<nat>,
    x: nat,
)
    requires
        m.lawful(),
        m.members(generators),
        (m.member)(h),
        all_reduced(coefficients),
        all_reduced(blinds),
        blinds.len() == generators.len(),
        is_side_length(coefficients.len(), generators.len()),
        generators.len() * generators.len() != coefficients.len(),
    ensures
        ({
            let n = generators.len();
            let entries = padded(coefficients, n * n);
            &&& entries.len() > coefficients.len()
            &&& entries.take(coefficients.len() as int) == coefficients
            &&& forall|k: int| coefficients.len() <= k < entries.len() ==> entries[k] == 0
            &&& accepts(
                m,
                generators,
                h,
                row_commitments(m, generators, h, entries, blinds),
                x,
                folded_columns(entries, n, x),
                folded_blind(blinds, x),
            )
        }),
{
    let n = generators.len();
    let entries = padded(coefficients, n * n);
    assert(entries.take(coefficients.len() as int) =~= coefficients);
    lemma_round_trip(m, generators, h, coefficients, blinds, x);
}

/// A single row: a size hint of at most 1 gives the matrix of side 1, and the
/// opening of a commitment on that matrix is accepted like any other.
pub proof fn lemma_single_row_round_trip<P>(
    m: Module<P>,
    generators: Seq<P>,
    h: P,
    size: nat,
    coefficients: Seq<nat>,
    blinds: Seq<nat>,
    x: nat,
)
    requires
        m.lawful(),
        m.members(generators),
        (m.member)(h),
        all_reduced(coefficients),
        all_reduced(blinds),
        blinds.len() == generators.len(),
        size <= 1,
        is_side_length(size, generators.len()),
    ensures
        generators.len() == 1,
        ({
            let entries = padded(coefficients, 1);
            &&& row_commitments(m, generators, h, entries, blinds).len() == 1
            &&& accepts(
                m,
                generators,
                h,
                row_commitments(m, generators, h, entries, blinds),
                x,
                folded_columns(entries, 1, x),
                folded_blind(blinds, x),
            )
        }),
{
    let n = generators.len();
    if n != 1 {
        assert((n - 1) * (n - 1) >= 1) by (nonlinear_arith)
            requires
                n >= 2,
        ;
    }
    lemma_round_trip(m, generators, h, coefficients, blinds, x);
}

/// The columns of the first `rows` rows, each folded with the powers of `x^n`,
/// over the integers.
pub open spec fn column_sums(entries: Seq<nat>, n: nat, x: nat, rows: int) -> Seq<nat> {
    Seq::new(n, |j: int| dot(column(entries, n, j).take(rows), powers(x, n, n).take(rows)))
}

/// The entries of row `i`, each times `x^(i n)`.
pub open spec fn shifted_row(entries: Seq<nat>, n: nat, x: nat, i: int) -> Seq<nat> {
    Seq::new(n, |j: int| entries[i * n + j] * (pow(x as int, (i * n) as nat) as nat))
}

/// The terms of row `i` of the polynomial, up to column `count`, are the
/// shifted row folded with the powers of `x`.
proof fn lemma_row_terms(entries: Seq<nat>, n: nat, x: nat, i: int, count: int)
    requires
        entries.len() == n * n,
        0 <= i < n,
        0 <= count <= n,
    ensures
        0 <= i * n,
        i * n + n <= n * n,
        dot(entries.take(i * n + count), powers(x, 1, n * n).take(i * n + count)) == dot(
            entries.take(i * n),
            powers(x, 1, n * n).take(i * n),
        ) + dot(shifted_row(entries, n, x, i).take(count), powers(x, 1, n).take(count)),
    decreases count,
{
    assert(0 <= i * n && i * n + n <= n * n) by (nonlinear_arith)
        requires
            0 <= i < n,
    ;
    let all = powers(x, 1, n * n);
    let shifted = shifted_row(entries, n, x, i);
    if count == 0 {
        assert(shifted.take(0).len() == 0);
    } else {
        let c = count - 1;
        lemma_row_terms(entries, n, x, i, c);
        lemma_dot_step(entries, all, i * n + c);
        lemma_dot_step(shifted, powers(x, 1, n), c);
        lemma_pow_nat(x, (i * n) as nat);
        lemma_pow_nat(x, c as nat);
        lemma_pow_nat(x, (i * n + c) as nat);
        lemma_pow_adds(x as int, (i * n) as nat, c as nat);
        let e = entries[i * n + c];
        let high = pow(x as int, (i * n) as nat);
        let low = pow(x as int, c as nat);
        assert(all[i * n + c] == high * low);
        assert(powers(x, 1, n)[c] == low);
        assert(shifted[c] == e * high);
        assert(e * (high * low) == (e * high) * low) by (nonlinear_arith);
    }
}

/// The column sums of the first `rows` rows, folded with the powers of `x`,
/// are the terms of those rows of the polynomial.
proof fn lemma_rows_evaluate(entries: Seq<nat>, n: nat, x: nat, rows: int)
    requires
        entries.len() == n * n,
        0 <= rows <= n,
    ensures
        0 <= rows * n <= n * n,
        dot(column_sums(entries, n, x, rows), powers(x, 1, n)) == dot(
            entries.take(rows * n),
            powers(x, 1, n * n).take(rows * n),
        ),
    decreases rows,
{
    assert(0 <= rows * n <= n * n) by (nonlinear_arith)
        requires
            0 <= rows <= n,
    ;
    if rows == 0 {
        let sums = column_sums(entries, n, x, 0);
        assert(entries.take(0).len() == 0);
        assert forall|j: int| 0 <= j < n implies sums[j] == 0 by {
            assert(column(entries, n, j).take(0).len() == 0);
        }
        lemma_dot_zeros(sums, powers(x, 1, n));
        assert(rows * n == 0) by (nonlinear_arith)
            requires
                rows == 0,
        ;
        assert(powers(x, 1, n * n).take(0).len() == 0);
    } else {
        let i = rows - 1;
        lemma_rows_evaluate(entries, n, x, i);
        lemma_row_terms(entries, n, x, i, n as int);
        let before = column_sums(entries, n, x, i);
        let after = column_sums(entries, n, x, rows);
        let shifted = shifted_row(entries, n, x, i);
        assert(i * n + n == rows * n) by (nonlinear_arith)
            requires
                rows == i + 1,
        ;
        assert(shifted.take(n as int) =~= shifted);
        assert(powers(x, 1, n).take(n as int) =~= powers(x, 1, n));
        lemma_pow_nat(x, (i * n) as nat);
        let both = Seq::new(before.len(), |j: int| before[j] + shifted[j]);
        assert(after =~= both) by {
            assert forall|j: int| 0 <= j < n implies after[j] == before[j] + shifted[j] by {
                lemma_dot_step(column(entries, n, j), powers(x, n, n), i);
                assert(column(entries, n, j)[i] == entries[i * n + j]);
                assert(powers(x, n, n)[i] == pow(x as int, (i * n) as nat) as nat);
            }
        }
        lemma_dot_added(before, shifted, powers(x, 1, n));
        assert(dot(after, powers(x, 1, n)) == dot(before, powers(x, 1, n)) + dot(
            shifted,
            powers(x, 1, n),
        ));
        assert(dot(entries.take(rows * n), powers(x, 1, n * n).take(rows * n)) == dot(
            entries.take(i * n),
            powers(x, 1, n * n).take(i * n),
        ) + dot(shifted, powers(x, 1, n)));
    }
}

/// A dot product of zeros is zero.
proof fn lemma_dot_zeros(values: Seq<nat>, weights: Seq<nat>)
    requires
        forall|j: int| 0 <= j < values.len() ==> values[j] == 0,
    ensures
        dot(values, weights) == 0,
    decreases values.len(),
{
    if values.len() > 0 {
        lemma_dot_zeros(values.drop_last(), weights.drop_last());
        assert(values[values.len() - 1] == 0);
        assert(0 * weights.last() == 0) by (nonlinear_arith);
    }
}

/// The folded columns are the coefficients of a polynomial of degree below `n`
/// that has, at `x`, the value of the polynomial whose coefficients fill the
/// matrix.
pub proof fn lemma_folded_columns_evaluate(entries: Seq<nat>, n: nat, x: nat)
    requires
        entries.len() == n * n,
    ensures
        dot(folded_columns(entries, n, x), powers(x, 1, n)) % scalar_order() == dot(
            entries,
            powers(x, 1, n * n),
        ) % scalar_order(),
{
    let sums = column_sums(entries, n, x, n as int);
    lemma_rows_evaluate(entries, n, x, n as int);
    assert(entries.take((n * n) as int) =~= entries);
    assert(powers(x, 1, n * n).take((n * n) as int) =~= powers(x, 1, n * n));
    assert(folded_columns(entries, n, x) =~= reduced(sums)) by {
        assert forall|j: int| 0 <= j < n implies folded_columns(entries, n, x)[j] == reduced(
            sums,
        )[j] by {
            assert(column(entries, n, j).take(n as int) =~= column(entries, n, j));
            assert(powers(x, n, n).take(n as int) =~= powers(x, n, n));
        }
    }
    crate::algebra::lemma_dot_values_reduced(sums, powers(x, 1, n));
}

/// Tamper sensitivity, commitment: in a module of prime order, a commitment
/// that an opening is accepted against is rejected once its row `i` is
/// changed, unless the power of `x^n` that weights the row is zero in the
/// scalar field.
pub proof fn lemma_changed_row_rejected<P>(
    m: Module<P>,
    generators: Seq<P>,
    h: P,
    rows: Seq<P>,
    i: int,
    changed: P,
    x: nat,
    t_bar: Seq<nat>,
    tau_bar: nat,
)
    requires
        m.prime_order(),
        m.members(rows),
        (m.member)(changed),
        0 <= i < rows.len(),
        changed != rows[i],
        reduced(powers(x, rows.len(), rows.len()))[i] != 0,
        accepts(m, generators, h, rows, x, t_bar, tau_bar),
    ensures
        !accepts(m, generators, h, rows.update(i, changed), x, t_bar, tau_bar),
{
    let other = rows.update(i, changed);
    let weights = reduced(powers(x, rows.len(), rows.len()));
    let q = scalar_order();
    lemma_order_positive();
    if accepts(m, generators, h, other, x, t_bar, tau_bar) {
        assert(all_reduced(weights)) by {
            assert forall|k: int| 0 <= k < weights.len() implies #[trigger] weights[k] < q by {
                lemma_mod_bound(powers(x, rows.len(), rows.len())[k] as int, q as int);
            }
        }
        assert(m.members(other)) by {
            assert forall|k: int| 0 <= k < other.len() implies (m.member)(#[trigger] other[k]) by {
                if k != i {
                    assert((m.member)(rows[k]));
                }
            }
        }
        m.lemma_combine_differs_at(rows, weights, other, weights, i);
        assert((m.member)(rows[i]));
        m.lemma_point_injective(changed, rows[i], weights[i]);
    }
}

/// Tamper sensitivity, folded column: in a module of prime order, where
/// generator `j` is not the neutral element, an opening that is accepted is
/// rejected once its folded column `j` is changed.
pub proof fn lemma_changed_column_rejected<P>(
    m: Module<P>,
    generators: Seq<P>,
    h: P,
    rows: Seq<P>,
    x: nat,
    t_bar: Seq<nat>,
    j: int,
    changed: nat,
    tau_bar: nat,
)
    requires
        m.prime_order(),
        m.members(generators),
        (m.member)(h),
        all_reduced(t_bar),
        t_bar.len() == generators.len(),
        0 <= j < generators.len(),
        generators[j] != m.zero,
        changed < scalar_order(),
        changed != t_bar[j],
        tau_bar < scalar_order(),
        accepts(m, generators, h, rows, x, t_bar, tau_bar),
    ensures
        !accepts(m, generators, h, rows, x, t_bar.update(j, changed), tau_bar),
{
    let other = t_bar.update(j, changed);
    if accepts(m, generators, h, rows, x, other, tau_bar) {
        m.lemma_prime_order_closed();
        assert(all_reduced(other)) by {
            assert forall|k: int| 0 <= k < other.len() implies #[trigger] other[k]
                < scalar_order() by {
                if k != j {
                    assert(t_bar[k] < scalar_order());
                }
            }
        }
        m.lemma_combine_member(generators, t_bar);
        m.lemma_combine_member(generators, other);
        let blind = (m.scale)(h, tau_bar);
        m.lemma_cancel_right(m.combine(generators, other), m.combine(generators, t_bar), blind);
        m.lemma_combine_differs_at(generators, t_bar, generators, other, j);
        assert((m.member)(generators[j]));
        m.lemma_scalar_injective(generators[j], changed, t_bar[j]);
    }
}

/// Tamper sensitivity, blinding scalar: in a module of prime order, where `h`
/// is not the neutral element, an opening that is accepted is rejected once
/// its blinding scalar `tau_bar` is changed.
pub proof fn lemma_changed_blind_rejected<P>(
    m: Module<P>,
    generators: Seq<P>,
    h: P,
    rows: Seq<P>,
    x: nat,
    t_bar: Seq<nat>,
    tau_bar: nat,
    changed: nat,
)
    requires
        m.prime_order(),
        m.members(generators),
        (m.member)(h),
        h != m.zero,
        all_reduced(t_bar),
        t_bar.len() == generators.len(),
        changed < scalar_order(),
        tau_bar < scalar_order(),
        changed != tau_bar,
        accepts(m, generators, h, rows, x, t_bar, tau_bar),
    ensures
        !accepts(m, generators, h, rows, x, t_bar, changed),
{
    if accepts(m, generators, h, rows, x, t_bar, changed) {
        m.lemma_prime_order_closed();
        m.lemma_combine_member(generators, t_bar);
        let committed = m.combine(generators, t_bar);
        m.lemma_cancel_left((m.scale)(h, changed), (m.scale)(h, tau_bar), committed);
        m.lemma_scalar_injective(h, changed, tau_bar);
    }
}

/// Tamper sensitivity, key: a changed entry in row `i` and column `j` of the
/// matrix changes folded column `j` that `open` computes and no other, unless
/// the change times the power of `x^n` of its row is a multiple of the order of
/// the field. With `lemma_changed_column_rejected` the opening made from the
/// changed key is then rejected.
pub proof fn lemma_changed_entry_shows(
    entries: Seq<nat>,
    n: nat,
    i: int,
    j: int,
    changed: nat,
    x: nat,
)
    requires
        entries.len() == n * n,
        0 <= i < n,
        0 <= j < n,
        (changed * pow(x as int, (i * n) as nat)) % (scalar_order() as int) != (entries[i * n + j]
            * pow(x as int, (i * n) as nat)) % (scalar_order() as int),
    ensures
        folded_columns(entries.update(i * n + j, changed), n, x).len() == n,
        folded_columns(entries.update(i * n + j, changed), n, x)[j] != folded_columns(
            entries,
            n,
            x,
        )[j],
        forall|k: int|
            0 <= k < n && k != j ==> #[trigger] folded_columns(
                entries.update(i * n + j, changed),
                n,
                x,
            )[k] == folded_columns(entries, n, x)[k],
{
    let other = entries.update(i * n + j, changed);
    let weights = powers(x, n, n);
    assert(0 <= i * n && i * n + j < n * n) by (nonlinear_arith)
        requires
            0 <= i < n,
            0 <= j < n,
    ;
    assert((i * n) as nat >= 0);
    lemma_pow_nat(x, (i * n) as nat);
    assert(weights[i] == pow(x as int, (i * n) as nat));
    assert(column(other, n, j) =~= column(entries, n, j).update(i, changed)) by {
        assert forall|r: int| 0 <= r < n implies column(other, n, j)[r] == column(
            entries,
            n,
            j,
        ).update(i, changed)[r] by {
            assert(0 <= r * n && r * n + j < n * n) by (nonlinear_arith)
                requires
                    0 <= r < n,
                    0 <= j < n,
            ;
            if r != i {
                assert(r * n + j != i * n + j) by (nonlinear_arith)
                    requires
                        r != i,
                        n > 0,
                ;
            }
        }
    }
    crate::algebra::lemma_dot_changed_shows(column(entries, n, j), weights, i, changed);
    assert forall|k: int| 0 <= k < n && k != j implies #[trigger] folded_columns(other, n, x)[k]
        == folded_columns(entries, n, x)[k] by {
        assert(column(other, n, k) =~= column(entries, n, k)) by {
            assert forall|r: int| 0 <= r < n implies column(other, n, k)[r] == column(
                entries,
                n,
                k,
            )[r] by {
                assert(0 <= r * n && r * n + k < n * n) by (nonlinear_arith)
                    requires
                        0 <= r < n,
                        0 <= k < n,
                ;
                assert(r * n + k != i * n + j) by (nonlinear_arith)
                    requires
                        0 <= r < n,
                        0 <= i < n,
                        0 <= k < n,
                        0 <= j < n,
                        k != j,
                ;
            }
        }
    }
}

/// Tamper sensitivity, key: a changed blinding scalar of row `i` changes the
/// folded blinding scalar that `open` computes, unless the change times the
/// power of `x^n` of its row is a multiple of the order of the field. With
/// `lemma_changed_blind_rejected` the opening made from the changed key is then
/// rejected.
pub proof fn lemma_changed_row_blind_shows(blinds: Seq<nat>, i: int, changed: nat, x: nat)
    requires
        0 <= i < blinds.len(),
        (changed * pow(x as int, (i * blinds.len()) as nat)) % (scalar_order() as int) != (
        blinds[i] * pow(x as int, (i * blinds.len()) as nat)) % (scalar_order() as int),
    ensures
        folded_blind(blinds.update(i, changed), x) != folded_blind(blinds, x),
{
    let n = blinds.len();
    let weights = powers(x, n, n);
    assert(i * n >= 0) by (nonlinear_arith)
        requires
            i >= 0,
            n >= 0,
    ;
    lemma_pow_nat(x, (i * n) as nat);
    assert(weights[i] == pow(x as int, (i * n) as nat));
    crate::algebra::lemma_dot_changed_shows(blinds, weights, i, changed);
}

/// The public parameters: one generator for each column of the matrix, and
/// one for the blinding scalars.
pub struct Bootle16PCS {
    g_s: Vec<Point>,
    h: Point,
    n: usize,
}

/// The prover's secret: the matrix, one blinding scalar for each row, and
/// `n - 1` further scalars that no opening reads.
pub struct CommitmentKey {
    pub coefficients: Vec<Scalar>,
    pub blinds: Vec<Scalar>,
    pub column_blinds: Vec<Scalar>,
    pub n: usize,
}

/// One curve point per row of the matrix.
#[derive(Clone, Debug)]
pub struct Commitment {
    pub row_commitments: Vec<Point>,
}

/// The folded columns at `x` and the blinding scalar that goes with them.
#[derive(Clone, Debug)]
pub struct Opening {
    pub x: Scalar,
    pub t_bar: Vec<Scalar>,
    pub tau_bar: Scalar,
}

impl Bootle16PCS {
    #[verifier::type_invariant]
    spec fn well_formed(self) -> bool {
        &&& self.n >= 1
        &&& self.g_s@.len() == self.n
        &&& self.n * self.n <= usize::MAX
    }

    /// The generators of the columns.
    pub closed spec fn generators(&self) -> Seq<Seq<u8>> {
        point_encodings(self.g_s@)
    }

    /// The generator that carries the blinding scalars.
    pub closed spec fn h(&self) -> Seq<u8> {
        self.h@
    }

    /// The side of the matrix.
    pub closed spec fn side(&self) -> nat {
        self.n as nat
    }

    /// The side of the matrix.
    pub fn side_length(&self) -> (n: usize)
        ensures
            n == self.side(),
            n >= 1,
            n * n <= usize::MAX,
            self.generators().len() == n,
    {
        proof {
            use_type_invariant(self);
        }
        self.n
    }

    /// Round trip on the curve: if the curve is a module over the scalar field,
    /// the opening of a commitment made with this scheme's generators is
    /// accepted, at any point, under any blinding scalars, and whether or not
    /// the coefficients fill the matrix.
    pub proof fn lemma_honest_opening_accepted(
        self,
        coefficients: Seq<Scalar>,
        blinds: Seq<Scalar>,
        x: Scalar,
    )
        requires
            pallas().lawful(),
            pallas().members(self.generators()),
            point_decodes(self.h()),
            self.generators().len() == self.side(),
            blinds.len() == self.side(),
        ensures
            ({
                let n = self.side();
                let entries = padded(scalar_values(coefficients), n * n);
                accepts(
                    pallas(),
                    self.generators(),
                    self.h(),
                    row_commitments(
                        pallas(),
                        self.generators(),
                        self.h(),
                        entries,
                        scalar_values(blinds),
                    ),
                    x@,
                    folded_columns(entries, n, x@),
                    folded_blind(scalar_values(blinds), x@),
                )
            }),
    {
        lemma_all_canonical(coefficients);
        lemma_all_canonical(blinds);
        lemma_round_trip(
            pallas(),
            self.generators(),
            self.h(),
            scalar_values(coefficients),
            scalar_values(blinds),
            x@,
        );
    }

    /// Whether `setup` can build the scheme for the size hint on this machine:
    /// whether the length of the matrix fits a machine word.
    pub fn supports_size(size: usize) -> (ok: bool)
        ensures
            ok == <Bootle16PCS as Pcs>::supports(size),
    {
        let n: usize = ceil_sqrt(size);
        let quotient: usize = usize::MAX / n;
        proof {
            let bound = usize::MAX as int;
            lemma_fundamental_div_mod(bound, n as int);
            lemma_mod_bound(bound, n as int);
            if n <= quotient {
                assert(n * n <= n * quotient) by (nonlinear_arith)
                    requires
                        0 <= n <= quotient,
                ;
                assert(is_side_length(size as nat, n as nat) && n * n <= usize::MAX);
            } else {
                assert(n * n >= n * (quotient + 1)) by (nonlinear_arith)
                    requires
                        n >= quotient + 1,
                        n >= 0,
                ;
                assert(n * (quotient + 1) == n * quotient + n) by (nonlinear_arith);
                assert forall|m: nat| is_side_length(size as nat, m) implies m * m
                    > usize::MAX by {
                    lemma_side_length_unique(size as nat, n as nat, m);
                }
            }
        }
        n <= quotient
    }

    /// Commits to `coefficients`, cut or filled with zeros to the size of the
    /// matrix, under the given blinding scalars: one for each row, and
    /// `n - 1` that are only kept.
    pub fn commit_with_blinds(
        &self,
        coefficients: &[Scalar],
        blinds: Vec<Scalar>,
        column_blinds: Vec<Scalar>,
    ) -> (r: Result<(Commitment, CommitmentKey), PcsError>)
        ensures
            r.is_ok() <==> coefficients@.len() != 0 && blinds@.len() == self.side()
                && column_blinds@.len() == self.side() - 1,
            coefficients@.len() == 0 <==> r == Err::<(Commitment, CommitmentKey), PcsError>(
                PcsError::InvalidSize,
            ),
            r.is_err() && coefficients@.len() != 0 ==> r == Err::<
                (Commitment, CommitmentKey),
                PcsError,
            >(PcsError::MalformedInput),
            r matches Ok((commitment, key)) ==> {
                &&& key.n == self.side()
                &&& key.blinds@ == blinds@
                &&& key.column_blinds@ == column_blinds@
                &&& key.coefficients@.len() == self.side() * self.side()
                &&& commitment.row_commitments@.len() == self.side()
                &&& scalar_values(key.coefficients@) == padded(
                    scalar_values(coefficients@),
                    self.side() * self.side(),
                )
                &&& point_encodings(commitment.row_commitments@) == row_commitments(
                    pallas(),
                    self.generators(),
                    self.h(),
                    scalar_values(key.coefficients@),
                    scalar_values(blinds@),
                )
            },
    {
        proof {
            use_type_invariant(self);
        }
        let n: usize = self.n;
        let given: usize = coefficients.len();
        if given == 0 {
            return Err(PcsError::InvalidSize);
        }
        if blinds.len() != n || column_blinds.len() != n - 1 {
            return Err(PcsError::MalformedInput);
        }
        let total: usize = n * n;
        let ghost filled = padded(scalar_values(coefficients@), total as nat);
        let mut entries: Vec<Scalar> = Vec::new();
        let mut k: usize = 0;
        while k < total
            invariant
                k <= total,
                given == coefficients@.len(),
                entries@.len() == k,
                filled == padded(scalar_values(coefficients@), total as nat),
                forall|j: int| 0 <= j < k ==> (#[trigger] entries@[j])@ == filled[j],
            decreases total - k,
        {
            let entry: Scalar = if k < given {
                coefficients[k]
            } else {
                Scalar::zero()
            };
            entries.push(entry);
            k = k + 1;
        }
        proof {
            assert(scalar_values(entries@) =~= filled);
        }
        let ghost expected = row_commitments(
            pallas(),
            self.generators(),
            self.h(),
            filled,
            scalar_values(blinds@),
        );
        let mut rows: Vec<Point> = Vec::new();
        let mut i: usize = 0;
        while i < n
            invariant
                i <= n,
                n == self.n,
                n == self.g_s@.len(),
                n == blinds@.len(),
                total == n * n,
                entries@.len() == total,
                scalar_values(entries@) == filled,
                rows@.len() == i,
                expected == row_commitments(
                    pallas(),
                    self.generators(),
                    self.h(),
                    filled,
                    scalar_values(blinds@),
                ),
                forall|j: int| 0 <= j < i ==> (#[trigger] rows@[j])@ == expected[j],
            decreases n - i,
        {
            proof {
                assert(0 <= i * n && i * n + n <= n * n) by (nonlinear_arith)
                    requires
                        0 <= i < n,
                ;
            }
            let committed: Point = linear_combination(
                self.g_s.as_slice(),
                entries.as_slice(),
                i * n,
            );
            let row_commitment: Point = committed.add(&self.h.mul(&blinds[i]));
            proof {
                assert(row_commitment@ == expected[i as int]);
            }
            rows.push(row_commitment);
            i = i + 1;
        }
        proof {
            assert(point_encodings(rows@) =~= expected);
        }
        Ok(
            (
                Commitment { row_commitments: rows },
                CommitmentKey { coefficients: entries, blinds, column_blinds, n },
            ),
        )
    }
}

impl Pcs for Bootle16PCS {
    type Commitment = Commitment;

    type CommitmentKey = CommitmentKey;

    type Opening = Opening;

    /// The matrix for `size` coefficients must have a length that the machine
    /// can address.
    open spec fn supports(size: usize) -> bool {
        exists|n: nat| is_side_length(size as nat, n) && n * n <= usize::MAX
    }

    /// The side `n` of the matrix is the least with `n * n >= size`, and 1 for
    /// an empty hint. Generator `j` is the hash of `generator_message(j)` under
    /// the tag `"bootle16"`, the blinding generator that of `"h"`; all of them
    /// are points of the curve.
    fn setup(size: usize) -> (scheme: Self)
        ensures
            is_side_length(size as nat, scheme.side()),
            scheme.generators().len() == scheme.side(),
            forall|j: int|
                0 <= j < scheme.side() ==> #[trigger] scheme.generators()[j] == curve_hash(
                    "bootle16"@,
                    generator_message(j as nat),
                ),
            scheme.h() == curve_hash("bootle16"@, blinding_message()),
            pallas().members(scheme.generators()),
            point_decodes(scheme.h()),
    {
        proof {
            reveal_strlit("bootle16");
        }
        let n: usize = ceil_sqrt(size);
        proof {
            let witness = choose|m: nat| is_side_length(size as nat, m) && m * m <= usize::MAX;
            lemma_side_length_unique(size as nat, n as nat, witness);
        }
        let mut g_s: Vec<Point> = Vec::new();
        let mut i: usize = 0;
        while i < n
            invariant
                i <= n,
                g_s@.len() == i,
                "bootle16"@.len() == 8,
                "bootle16".is_ascii(),
                forall|j: int|
                    0 <= j < i ==> (#[trigger] g_s@[j])@ == curve_hash(
                        "bootle16"@,
                        generator_message(j as nat),
                    ),
                forall|j: int| 0 <= j < i ==> point_decodes((#[trigger] g_s@[j])@),
            decreases n - i,
        {
            let message: Vec<u8> = generator_message_bytes(i);
            let g: Point = Point::hash_to_curve("bootle16", message.as_slice());
            g_s.push(g);
            i = i + 1;
        }
        let mut h_message: Vec<u8> = Vec::new();
        h_message.push(0x68);
        proof {
            assert(h_message@ =~= blinding_message());
        }
        let h: Point = Point::hash_to_curve("bootle16", h_message.as_slice());
        proof {
            assert forall|j: int| 0 <= j < point_encodings(g_s@).len() implies (pallas().member)(
                #[trigger] point_encodings(g_s@)[j],
            ) by {
                assert(point_decodes(g_s@[j]@));
            }
        }
        Bootle16PCS { g_s, h, n }
    }

    /// One blinding scalar is drawn for each row, and `n - 1` more that are
    /// only kept; the key records them with the padded coefficients.
    fn commit(&self, coefficients: &[Scalar]) -> (r: Result<(Commitment, CommitmentKey), PcsError>)
        ensures
            r matches Ok((commitment, key)) ==> {
                &&& key.n == self.side()
                &&& key.blinds@.len() == self.side()
                &&& key.column_blinds@.len() == self.side() - 1
                &&& key.coefficients@.len() == self.side() * self.side()
                &&& commitment.row_commitments@.len() == self.side()
                &&& scalar_values(key.coefficients@) == padded(
                    scalar_values(coefficients@),
                    self.side() * self.side(),
                )
                &&& point_encodings(commitment.row_commitments@) == row_commitments(
                    pallas(),
                    self.generators(),
                    self.h(),
                    scalar_values(key.coefficients@),
                    scalar_values(key.blinds@),
                )
            },
    {
        proof {
            use_type_invariant(self);
        }
        let blinds: Vec<Scalar> = random_scalars(self.n);
        let column_blinds: Vec<Scalar> = random_scalars(self.n - 1);
        self.commit_with_blinds(coefficients, blinds, column_blinds)
    }

    /// Folds the columns of the matrix, and the blinding scalars of the rows,
    /// with the powers of `x^n`. A key whose side or lengths are not those of
    /// the scheme is turned down.
    fn open(&self, commitment_key: &CommitmentKey, x: Scalar) -> (r: Result<Opening, PcsError>)
        ensures
            r.is_ok() <==> {
                &&& commitment_key.n == self.side()
                &&& commitment_key.coefficients@.len() == self.side() * self.side()
                &&& commitment_key.blinds@.len() == self.side()
                &&& commitment_key.column_blinds@.len() == self.side() - 1
            },
            r matches Ok(opening) ==> {
                &&& opening.x == x
                &&& opening.t_bar@.len() == self.side()
                &&& scalar_values(opening.t_bar@) == folded_columns(
                    scalar_values(commitment_key.coefficients@),
                    self.side(),
                    x@,
                )
                &&& opening.tau_bar@ == folded_blind(scalar_values(commitment_key.blinds@), x@)
            },
    {
        proof {
            use_type_invariant(self);
        }
        let n: usize = self.n;
        if commitment_key.n != n || commitment_key.coefficients.len() != n * n
            || commitment_key.blinds.len() != n || commitment_key.column_blinds.len() != n - 1 {
            return Err(PcsError::MalformedInput);
        }
        let weights: Vec<Scalar> = stride_powers(&x, n);
        let ghost entries = scalar_values(commitment_key.coefficients@);
        let ghost blinds = scalar_values(commitment_key.blinds@);
        let ghost expected = folded_columns(entries, n as nat, x@);
        proof {
            assert(scalar_values(weights@).len() == n);
        }
        let mut t_bar: Vec<Scalar> = Vec::new();
        let mut j: usize = 0;
        while j < n
            invariant
                j <= n,
                n >= 1,
                n * n <= usize::MAX,
                commitment_key.coefficients@.len() == n * n,
                weights@.len() == n,
                scalar_values(weights@) == reduced(powers(x@, n as nat, n as nat)),
                entries == scalar_values(commitment_key.coefficients@),
                expected == folded_columns(entries, n as nat, x@),
                t_bar@.len() == j,
                forall|k: int| 0 <= k < j ==> (#[trigger] t_bar@[k])@ == expected[k],
            decreases n - j,
        {
            proof {
                assert(j + (n - 1) * n < n * n) by (nonlinear_arith)
                    requires
                        0 <= j < n,
                ;
            }
            let folded: Scalar = fold_strided(
                commitment_key.coefficients.as_slice(),
                j,
                n,
                weights.as_slice(),
            );
            proof {
                let picked = Seq::new(n as nat, |i: int| entries[j + i * n]);
                assert(picked =~= column(entries, n as nat, j as int));
                lemma_dot_reduced(picked, powers(x@, n as nat, n as nat));
                assert(folded@ == expected[j as int]);
            }
            t_bar.push(folded);
            j = j + 1;
        }
        proof {
            assert((n - 1) * 1 == n - 1) by (nonlinear_arith);
        }
        let tau_bar: Scalar = fold_strided(
            commitment_key.blinds.as_slice(),
            0,
            1,
            weights.as_slice(),
        );
        proof {
            let picked = Seq::new(n as nat, |i: int| blinds[0 + i * 1]);
            assert(picked =~= blinds);
            lemma_dot_reduced(blinds, powers(x@, n as nat, n as nat));
            assert(scalar_values(t_bar@) =~= expected);
        }
        Ok(Opening { x, t_bar, tau_bar })
    }

    /// Folds the row commitments with the powers of `x^n` and compares with
    /// the commitment to the folded columns. A commitment or an opening whose
    /// length is not the side of the scheme is turned down.
    fn verify_open(&self, commitment: &Commitment, opening: &Opening) -> (r: Result<bool, PcsError>)
        ensures
            r.is_ok() <==> commitment.row_commitments@.len() == self.side() && opening.t_bar@.len()
                == self.side(),
            r matches Ok(accepted) ==> accepted == accepts(
                pallas(),
                self.generators(),
                self.h(),
                point_encodings(commitment.row_commitments@),
                opening.x@,
                scalar_values(opening.t_bar@),
                opening.tau_bar@,
            ),
    {
        proof {
            use_type_invariant(self);
        }
        let n: usize = commitment.row_commitments.len();
        if n != self.n || opening.t_bar.len() != n {
            return Err(PcsError::MalformedInput);
        }
        let weights: Vec<Scalar> = stride_powers(&opening.x, n);
        proof {
            assert(scalar_values(weights@).len() == n);
            assert(scalar_values(weights@).subrange(0, n as int) =~= scalar_values(weights@));
            assert(scalar_values(opening.t_bar@).subrange(0, n as int) =~= scalar_values(
                opening.t_bar@,
            ));
        }
        let combined: Point = linear_combination(
            commitment.row_commitments.as_slice(),
            weights.as_slice(),
            0,
        );
        let committed: Point = linear_combination(
            self.g_s.as_slice(),
            opening.t_bar.as_slice(),
            0,
        );
        let expected: Point = committed.add(&self.h.mul(&opening.tau_bar));
        Ok(combined.equals(&expected))
    }
}

} // verus!
