//! The linear-sized commitment scheme: one Pedersen commitment per coefficient.

use crate::algebra::dot;
use crate::algebra::all_reduced;
use crate::algebra::lemma_dot_reduced;
use crate::algebra::lemma_dot_step;
use crate::algebra::lemma_pow_nat;
use crate::algebra::lemma_reduced_step;
use crate::algebra::powers;
use crate::algebra::reduced;
use crate::algebra::Module;
use crate::curve::curve_hash;
use crate::curve::pallas;
use crate::curve::point_decodes;
use crate::curve::point_encodings;
use crate::curve::Point;
use crate::field::lemma_all_canonical;
use crate::field::random_scalars;
use crate::field::scalar_order;
use crate::field::scalar_values;
use crate::field::Scalar;
use crate::Pcs;
use crate::PcsError;
use vstd::arithmetic::div_mod::lemma_add_mod_noop;
use vstd::arithmetic::div_mod::lemma_mod_bound;
use vstd::arithmetic::div_mod::lemma_small_mod;
use vstd::arithmetic::power::pow;
use vstd::prelude::*;

verus! {

/// The commitments to `coefficients` under the blinding scalars `blinds`:
/// entry `i` is `coefficients[i] * g + blinds[i] * h`.
pub open spec fn commitments<P>(
    m: Module<P>,
    g: P,
    h: P,
    coefficients: Seq<nat>,
    blinds: Seq<nat>,
) -> Seq<P>
    recommends
        blinds.len() == coefficients.len(),
{
    Seq::new(
        coefficients.len(),
        |i: int| (m.add)((m.scale)(g, coefficients[i]), (m.scale)(h, blinds[i])),
    )
}

/// The value at `x` of the polynomial with the given coefficients, in the
/// scalar field.
pub open spec fn evaluation(coefficients: Seq<nat>, x: nat) -> nat {
    dot(coefficients, powers(x, 1, coefficients.len())) % scalar_order()
}

/// The verifier's equation: the commitments, weighted by the powers of `x`, add
/// up to `y * g + r_bar * h`.
pub open spec fn accepts<P>(m: Module<P>, g: P, h: P, points: Seq<P>, x: nat, y: nat, r_bar: nat) -> bool {
    m.combine(points, reduced(powers(x, 1, points.len()))) == (m.add)(
        (m.scale)(g, y),
        (m.scale)(h, r_bar),
    )
}

/// The commitments to a prefix of the coefficients, weighted, add up to the
/// commitment to the weighted sum of that prefix.
proof fn lemma_fold_prefix<P>(
    m: Module<P>,
    g: P,
    h: P,
    coefficients: Seq<nat>,
    blinds: Seq<nat>,
    weights: Seq<nat>,
    k: int,
)
    requires
        m.lawful(),
        (m.member)(g),
        (m.member)(h),
        all_reduced(coefficients),
        all_reduced(blinds),
        all_reduced(weights),
        blinds.len() == coefficients.len(),
        weights.len() == coefficients.len(),
        0 <= k <= coefficients.len(),
    ensures
        m.combine(commitments(m, g, h, coefficients, blinds).take(k), weights.take(k)) == (m.add)(
            (m.scale)(g, dot(coefficients.take(k), weights.take(k)) % scalar_order()),
            (m.scale)(h, dot(blinds.take(k), weights.take(k)) % scalar_order()),
        ),
    decreases k,
{
    let q = scalar_order();
    crate::field::lemma_order_positive();
    let points = commitments(m, g, h, coefficients, blinds);
    if k == 0 {
        assert(points.take(0).len() == 0);
        assert(coefficients.take(0).len() == 0);
        assert(blinds.take(0).len() == 0);
        lemma_small_mod(0, q);
        assert((m.scale)(g, 0) == m.zero);
        assert((m.scale)(h, 0) == m.zero);
        assert((m.add)(m.zero, m.zero) == m.zero);
    } else {
        let i = k - 1;
        lemma_fold_prefix(m, g, h, coefficients, blinds, weights, i);
        m.lemma_combine_step(points, weights, i);
        lemma_dot_step(coefficients, weights, i);
        lemma_dot_step(blinds, weights, i);
        let c = coefficients[i];
        let b = blinds[i];
        let w = weights[i];
        let total = dot(coefficients.take(i), weights.take(i));
        let total_blind = dot(blinds.take(i), weights.take(i));
        let y = total % q;
        let r = total_blind % q;
        let cw = (c * w) % q;
        let bw = (b * w) % q;
        lemma_mod_bound(total as int, q as int);
        lemma_mod_bound(total_blind as int, q as int);
        lemma_mod_bound((c * w) as int, q as int);
        lemma_mod_bound((b * w) as int, q as int);
        lemma_add_mod_noop(total as int, (c * w) as int, q as int);
        lemma_add_mod_noop(total_blind as int, (b * w) as int, q as int);
        lemma_small_mod(cw, q);
        lemma_small_mod(bw, q);
        lemma_small_mod(y, q);
        lemma_small_mod(r, q);
        let gc = (m.scale)(g, c);
        let hb = (m.scale)(h, b);
        assert((m.member)(gc));
        assert((m.member)(hb));
        assert(points[i] == (m.add)(gc, hb));
        assert((m.scale)((m.add)(gc, hb), w) == (m.add)((m.scale)(gc, w), (m.scale)(hb, w)));
        assert((m.scale)((m.scale)(g, c), w) == (m.scale)(g, cw));
        assert((m.scale)((m.scale)(h, b), w) == (m.scale)(h, bw));
        let gy = (m.scale)(g, y);
        let hr = (m.scale)(h, r);
        let gcw = (m.scale)(g, cw);
        let hbw = (m.scale)(h, bw);
        assert((m.member)(gy));
        assert((m.member)(hr));
        assert((m.member)(gcw));
        assert((m.member)(hbw));
        m.lemma_add_interchange(gy, hr, gcw, hbw);
        assert((m.add)((m.scale)(g, y), (m.scale)(g, cw)) == (m.scale)(g, (y + cw) % q));
        assert((m.add)((m.scale)(h, r), (m.scale)(h, bw)) == (m.scale)(h, (r + bw) % q));
    }
}

/// Round trip: in every module over the scalar field, the opening of a
/// commitment at any point `x` is accepted against that commitment, whatever
/// the coefficients and the blinding scalars are.
pub proof fn lemma_round_trip<P>(
    m: Module<P>,
    g: P,
    h: P,
    coefficients: Seq<nat>,
    blinds: Seq<nat>,
    x: nat,
)
    requires
        m.lawful(),
        (m.member)(g),
        (m.member)(h),
        all_reduced(coefficients),
        all_reduced(blinds),
        blinds.len() == coefficients.len(),
    ensures
        accepts(
            m,
            g,
            h,
            commitments(m, g, h, coefficients, blinds),
            x,
            evaluation(coefficients, x),
            evaluation(blinds, x),
        ),
{
    let n = coefficients.len();
    let q = scalar_order();
    crate::field::lemma_order_positive();
    let points = commitments(m, g, h, coefficients, blinds);
    let weights = reduced(powers(x, 1, n));
    assert(all_reduced(weights)) by {
        assert forall|i: int| 0 <= i < weights.len() implies #[trigger] weights[i] < q by {
            lemma_mod_bound(powers(x, 1, n)[i] as int, q as int);
        }
    }
    lemma_fold_prefix(m, g, h, coefficients, blinds, weights, n as int);
    assert(points.take(n as int) =~= points);
    assert(weights.take(n as int) =~= weights);
    assert(coefficients.take(n as int) =~= coefficients);
    assert(blinds.take(n as int) =~= blinds);
    lemma_dot_reduced(coefficients, powers(x, 1, n));
    lemma_dot_reduced(blinds, powers(x, 1, n));
}

/// Tamper sensitivity, claimed value: in a module of prime order, where `g` is
/// not the neutral element, an opening that is accepted is rejected once its
/// value `y` is changed.
pub proof fn lemma_changed_value_rejected<P>(
    m: Module<P>,
    g: P,
    h: P,
    points: Seq<P>,
    x: nat,
    y: nat,
    changed: nat,
    r_bar: nat,
)
    requires
        m.prime_order(),
        (m.member)(g),
        (m.member)(h),
        g != m.zero,
        y < scalar_order(),
        changed < scalar_order(),
        r_bar < scalar_order(),
        changed != y,
        accepts(m, g, h, points, x, y, r_bar),
    ensures
        !accepts(m, g, h, points, x, changed, r_bar),
{
    if accepts(m, g, h, points, x, changed, r_bar) {
        m.lemma_prime_order_closed();
        let blind = (m.scale)(h, r_bar);
        m.lemma_cancel_right((m.scale)(g, changed), (m.scale)(g, y), blind);
        m.lemma_scalar_injective(g, changed, y);
    }
}

/// Tamper sensitivity, blinding scalar: in a module of prime order, where `h`
/// is not the neutral element, an opening that is accepted is rejected once
/// its blinding scalar `r_bar` is changed.
pub proof fn lemma_changed_blind_rejected<P>(
    m: Module<P>,
    g: P,
    h: P,
    points: Seq<P>,
    x: nat,
    y: nat,
    r_bar: nat,
    changed: nat,
)
    requires
        m.prime_order(),
        (m.member)(g),
        (m.member)(h),
        h != m.zero,
        y < scalar_order(),
        changed < scalar_order(),
        r_bar < scalar_order(),
        changed != r_bar,
        accepts(m, g, h, points, x, y, r_bar),
    ensures
        !accepts(m, g, h, points, x, y, changed),
{
    if accepts(m, g, h, points, x, y, changed) {
        m.lemma_prime_order_closed();
        let value = (m.scale)(g, y);
        m.lemma_cancel_left((m.scale)(h, changed), (m.scale)(h, r_bar), value);
        m.lemma_scalar_injective(h, changed, r_bar);
    }
}

/// Tamper sensitivity, commitment: in a module of prime order, a commitment
/// that an opening is accepted against is rejected once its element `i` is
/// changed, unless the power of `x` that weights the element is zero in the
/// scalar field.
pub proof fn lemma_changed_commitment_rejected<P>(
    m: Module<P>,
    g: P,
    h: P,
    points: Seq<P>,
    i: int,
    changed: P,
    x: nat,
    y: nat,
    r_bar: nat,
)
    requires
        m.prime_order(),
        m.members(points),
        (m.member)(changed),
        0 <= i < points.len(),
        changed != points[i],
        reduced(powers(x, 1, points.len()))[i] != 0,
        accepts(m, g, h, points, x, y, r_bar),
    ensures
        !accepts(m, g, h, points.update(i, changed), x, y, r_bar),
{
    let other = points.update(i, changed);
    let weights = reduced(powers(x, 1, points.len()));
    let q = scalar_order();
    crate::field::lemma_order_positive();
    if accepts(m, g, h, other, x, y, r_bar) {
        assert(all_reduced(weights)) by {
            assert forall|k: int| 0 <= k < weights.len() implies #[trigger] weights[k] < q by {
                lemma_mod_bound(powers(x, 1, points.len())[k] as int, q as int);
            }
        }
        assert(m.members(other)) by {
            assert forall|k: int| 0 <= k < other.len() implies (m.member)(#[trigger] other[k]) by {
                if k != i {
                    assert((m.member)(points[k]));
                }
            }
        }
        m.lemma_combine_differs_at(points, weights, other, weights, i);
        assert((m.member)(points[i]));
        m.lemma_point_injective(changed, points[i], weights[i]);
    }
}

/// Tamper sensitivity, key: a changed coefficient (or, read for the blinding
/// scalars, a changed blind) changes the value that `open` computes, unless
/// the change times the power of `x` of its degree is a multiple of the order
/// of the field. With `lemma_changed_value_rejected` (or
/// `lemma_changed_blind_rejected`) the opening made from the changed key is
/// then rejected.
pub proof fn lemma_changed_coefficient_shows(
    coefficients: Seq<nat>,
    i: int,
    changed: nat,
    x: nat,
)
    requires
        0 <= i < coefficients.len(),
        (changed * pow(x as int, i as nat)) % (scalar_order() as int) != (coefficients[i] * pow(
            x as int,
            i as nat,
        )) % (scalar_order() as int),
    ensures
        evaluation(coefficients.update(i, changed), x) != evaluation(coefficients, x),
{
    lemma_pow_nat(x, i as nat);
    let weights = powers(x, 1, coefficients.len());
    assert(weights[i] == pow(x as int, i as nat));
    crate::algebra::lemma_dot_changed_shows(coefficients, weights, i, changed);
}

/// The public parameters: two generators of the curve.
pub struct PedersenPolynomialCommitmentScheme {
    g: Point,
    h: Point,
}

/// The prover's secret: the coefficients and one blinding scalar for each.
pub struct CommitmentKey {
    pub coefficients: Vec<Scalar>,
    pub blinds: Vec<Scalar>,
}

/// One curve point per coefficient.
#[derive(Clone, Debug)]
pub struct Commitment {
    pub points: Vec<Point>,
}

/// The evaluation at `x` and the blinding scalar that goes with it.
#[derive(Clone, Copy, Debug)]
pub struct Opening {
    pub x: Scalar,
    pub y: Scalar,
    pub r_bar: Scalar,
}

impl PedersenPolynomialCommitmentScheme {
    /// The generator that carries the coefficients.
    pub closed spec fn g(&self) -> Seq<u8> {
        self.g@
    }

    /// The generator that carries the blinding scalars.
    pub closed spec fn h(&self) -> Seq<u8> {
        self.h@
    }

    /// Round trip on the curve: if the curve is a module over the scalar field,
    /// the opening of a commitment made with this scheme's generators is
    /// accepted, at any point and under any blinding scalars.
    pub proof fn lemma_honest_opening_accepted(
        self,
        coefficients: Seq<Scalar>,
        blinds: Seq<Scalar>,
        x: Scalar,
    )
        requires
            pallas().lawful(),
            point_decodes(self.g()),
            point_decodes(self.h()),
            blinds.len() == coefficients.len(),
        ensures
            accepts(
                pallas(),
                self.g(),
                self.h(),
                commitments(
                    pallas(),
                    self.g(),
                    self.h(),
                    scalar_values(coefficients),
                    scalar_values(blinds),
                ),
                x@,
                evaluation(scalar_values(coefficients), x@),
                evaluation(scalar_values(blinds), x@),
            ),
    {
        lemma_all_canonical(coefficients);
        lemma_all_canonical(blinds);
        lemma_round_trip(
            pallas(),
            self.g(),
            self.h(),
            scalar_values(coefficients),
            scalar_values(blinds),
            x@,
        );
    }

    /// Commits to `coefficients` under the given blinding scalars, one for each
    /// coefficient.
    pub fn commit_with_blinds(&self, coefficients: &[Scalar], blinds: Vec<Scalar>) -> (r: Result<
        (Commitment, CommitmentKey),
        PcsError,
    >)
        ensures
            r.is_ok() <==> coefficients@.len() != 0 && blinds@.len() == coefficients@.len(),
            coefficients@.len() == 0 <==> r == Err::<(Commitment, CommitmentKey), PcsError>(
                PcsError::InvalidSize,
            ),
            coefficients@.len() != 0 && blinds@.len() != coefficients@.len() <==> r == Err::<
                (Commitment, CommitmentKey),
                PcsError,
            >(PcsError::MalformedInput),
            r matches Ok((commitment, key)) ==> {
                &&& key.coefficients@ == coefficients@
                &&& key.blinds@ == blinds@
                &&& commitment.points@.len() == coefficients@.len()
                &&& point_encodings(commitment.points@) == commitments(
                    pallas(),
                    self.g(),
                    self.h(),
                    scalar_values(coefficients@),
                    scalar_values(blinds@),
                )
            },
    {
        let n: usize = coefficients.len();
        if n == 0 {
            return Err(PcsError::InvalidSize);
        }
        if blinds.len() != n {
            return Err(PcsError::MalformedInput);
        }
        let mut kept: Vec<Scalar> = Vec::new();
        let mut points: Vec<Point> = Vec::new();
        let ghost expected = commitments(
            pallas(),
            self.g(),
            self.h(),
            scalar_values(coefficients@),
            scalar_values(blinds@),
        );
        let mut i: usize = 0;
        while i < n
            invariant
                i <= n,
                n == coefficients@.len(),
                n == blinds@.len(),
                kept@ == coefficients@.take(i as int),
                points@.len() == i,
                expected == commitments(
                    pallas(),
                    self.g(),
                    self.h(),
                    scalar_values(coefficients@),
                    scalar_values(blinds@),
                ),
                forall|j: int| 0 <= j < i ==> (#[trigger] points@[j])@ == expected[j],
            decreases n - i,
        {
            let c: Scalar = coefficients[i];
            let point: Point = self.g.mul(&c).add(&self.h.mul(&blinds[i]));
            kept.push(c);
            points.push(point);
            proof {
                assert(kept@ =~= coefficients@.take(i + 1));
            }
            i = i + 1;
        }
        proof {
            assert(kept@ =~= coefficients@);
            assert(point_encodings(points@) =~= expected);
        }
        Ok((Commitment { points }, CommitmentKey { coefficients: kept, blinds }))
    }
}

impl Pcs for PedersenPolynomialCommitmentScheme {
    type Commitment = Commitment;

    type CommitmentKey = CommitmentKey;

    type Opening = Opening;

    open spec fn supports(size: usize) -> bool {
        true
    }

    /// The generators are the hashes of `"g"` and `"h"` under the tag `"cnode"`,
    /// both points of the curve; the size hint plays no part.
    fn setup(size: usize) -> (scheme: Self)
        ensures
            scheme.g() == curve_hash("cnode"@, seq![0x67u8]),
            scheme.h() == curve_hash("cnode"@, seq![0x68u8]),
            point_decodes(scheme.g()),
            point_decodes(scheme.h()),
    {
        proof {
            reveal_strlit("cnode");
        }
        let mut g_message: Vec<u8> = Vec::new();
        g_message.push(0x67);
        let mut h_message: Vec<u8> = Vec::new();
        h_message.push(0x68);
        proof {
            assert(g_message@ =~= seq![0x67u8]);
            assert(h_message@ =~= seq![0x68u8]);
        }
        let g: Point = Point::hash_to_curve("cnode", g_message.as_slice());
        let h: Point = Point::hash_to_curve("cnode", h_message.as_slice());
        PedersenPolynomialCommitmentScheme { g, h }
    }

    /// One blinding scalar is drawn for each coefficient; the key records them.
    fn commit(&self, coefficients: &[Scalar]) -> (r: Result<(Commitment, CommitmentKey), PcsError>)
        ensures
            r matches Ok((commitment, key)) ==> {
                &&& key.coefficients@ == coefficients@
                &&& key.blinds@.len() == coefficients@.len()
                &&& commitment.points@.len() == coefficients@.len()
                &&& point_encodings(commitment.points@) == commitments(
                    pallas(),
                    self.g(),
                    self.h(),
                    scalar_values(key.coefficients@),
                    scalar_values(key.blinds@),
                )
            },
    {
        let blinds: Vec<Scalar> = random_scalars(coefficients.len());
        self.commit_with_blinds(coefficients, blinds)
    }

    /// The value of the polynomial at `x`, and the same combination of the
    /// blinding scalars. A key that is empty, or whose two vectors differ in
    /// length, is turned down.
    fn open(&self, commitment_key: &CommitmentKey, x: Scalar) -> (r: Result<Opening, PcsError>)
        ensures
            r.is_err() <==> commitment_key.coefficients@.len() == 0 || commitment_key.blinds@.len()
                != commitment_key.coefficients@.len(),
            r matches Ok(opening) ==> {
                &&& opening.x == x
                &&& opening.y@ == evaluation(scalar_values(commitment_key.coefficients@), x@)
                &&& opening.r_bar@ == evaluation(scalar_values(commitment_key.blinds@), x@)
            },
    {
        let n: usize = commitment_key.coefficients.len();
        if n == 0 || commitment_key.blinds.len() != n {
            return Err(PcsError::MalformedInput);
        }
        let ghost coefficients = scalar_values(commitment_key.coefficients@);
        let ghost blinds = scalar_values(commitment_key.blinds@);
        let ghost weights = powers(x@, 1, n as nat);
        let mut y: Scalar = Scalar::zero();
        let mut r_bar: Scalar = Scalar::zero();
        let mut i: usize = 0;
        proof {
            crate::field::lemma_order_positive();
            assert(coefficients.take(0).len() == 0);
            assert(blinds.take(0).len() == 0);
            vstd::arithmetic::div_mod::lemma_small_mod(0, scalar_order());
        }
        while i < n
            invariant
                i <= n,
                n == commitment_key.coefficients@.len(),
                n == commitment_key.blinds@.len(),
                coefficients == scalar_values(commitment_key.coefficients@),
                blinds == scalar_values(commitment_key.blinds@),
                weights == powers(x@, 1, n as nat),
                y@ == dot(coefficients.take(i as int), weights.take(i as int)) % scalar_order(),
                r_bar@ == dot(blinds.take(i as int), weights.take(i as int)) % scalar_order(),
            decreases n - i,
        {
            let power: Scalar = x.pow(i as u64);
            let next_y: Scalar = y.add(&commitment_key.coefficients[i].mul(&power));
            let next_r: Scalar = r_bar.add(&commitment_key.blinds[i].mul(&power));
            proof {
                lemma_pow_nat(x@, i as nat);
                assert(weights[i as int] == pow(x@ as int, i as nat) as nat);
                assert(power@ == weights[i as int] % scalar_order());
                lemma_dot_step(coefficients, weights, i as int);
                lemma_dot_step(blinds, weights, i as int);
                lemma_reduced_step(
                    dot(coefficients.take(i as int), weights.take(i as int)),
                    coefficients[i as int],
                    weights[i as int],
                );
                lemma_reduced_step(
                    dot(blinds.take(i as int), weights.take(i as int)),
                    blinds[i as int],
                    weights[i as int],
                );
            }
            y = next_y;
            r_bar = next_r;
            i = i + 1;
        }
        proof {
            assert(coefficients.take(n as int) =~= coefficients);
            assert(blinds.take(n as int) =~= blinds);
            assert(weights.take(n as int) =~= weights);
        }
        Ok(Opening { x, y, r_bar })
    }

    /// Folds the commitments with the powers of the opening's point and
    /// compares with the commitment to the claimed value. An empty commitment
    /// is turned down.
    fn verify_open(&self, commitment: &Commitment, opening: &Opening) -> (r: Result<bool, PcsError>)
        ensures
            r.is_err() <==> commitment.points@.len() == 0,
            r matches Ok(accepted) ==> accepted == accepts(
                pallas(),
                self.g(),
                self.h(),
                point_encodings(commitment.points@),
                opening.x@,
                opening.y@,
                opening.r_bar@,
            ),
    {
        let n: usize = commitment.points.len();
        if n == 0 {
            return Err(PcsError::MalformedInput);
        }
        let ghost points = point_encodings(commitment.points@);
        let ghost weights = reduced(powers(opening.x@, 1, n as nat));
        let mut folded: Point = Point::identity();
        let mut i: usize = 0;
        proof {
            assert(points.take(0).len() == 0);
        }
        while i < n
            invariant
                i <= n,
                n == commitment.points@.len(),
                points == point_encodings(commitment.points@),
                weights == reduced(powers(opening.x@, 1, n as nat)),
                folded@ == pallas().combine(points.take(i as int), weights.take(i as int)),
            decreases n - i,
        {
            let power: Scalar = opening.x.pow(i as u64);
            let next: Point = folded.add(&commitment.points[i].mul(&power));
            proof {
                lemma_pow_nat(opening.x@, i as nat);
                assert(power@ == weights[i as int]);
                pallas().lemma_combine_step(points, weights, i as int);
            }
            folded = next;
            i = i + 1;
        }
        proof {
            assert(points.take(n as int) =~= points);
            assert(weights.take(n as int) =~= weights);
        }
        let expected: Point = self.g.mul(&opening.y).add(&self.h.mul(&opening.r_bar));
        Ok(folded.equals(&expected))
    }
}

} // verus!
