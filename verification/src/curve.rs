//! Points of the Pallas curve.
//!
//! A `Point` holds the 32-byte compressed encoding of a group element. The group
//! law, the multiplication by scalars and the hash onto the curve are computed by
//! `pasta_curves`; here they have names, and the functions that reach them are the
//! trusted part of this module and say so.

use crate::algebra::Module;
use crate::field::scalar_values;
use crate::field::Scalar;
use pasta_curves::arithmetic::CurveExt;
use pasta_curves::group::GroupEncoding;
use pasta_curves::group::Group;
use pasta_curves::Ep;
use pasta_curves::Fq;
use vstd::prelude::*;

verus! {

/// Whether 32 bytes are the compressed encoding of a point: what
/// `Ep::from_bytes` accepts.
pub uninterp spec fn point_decodes(encoding: Seq<u8>) -> bool;

/// The encoding of the sum of the points with encodings `a` and `b`.
pub uninterp spec fn curve_add(a: Seq<u8>, b: Seq<u8>) -> Seq<u8>;

/// The encoding of `k` times the point with encoding `p`.
pub uninterp spec fn curve_mul(p: Seq<u8>, k: nat) -> Seq<u8>;

/// The encoding of the point that `message` hashes to under the domain
/// separation tag `domain`.
pub uninterp spec fn curve_hash(domain: Seq<char>, message: Seq<u8>) -> Seq<u8>;

/// The encoding of the neutral element: 32 zero bytes.
pub open spec fn identity_encoding() -> Seq<u8> {
    Seq::new(32, |i: int| 0u8)
}

/// The curve as an instance of the algebra that the schemes are stated over.
pub open spec fn pallas() -> Module<Seq<u8>> {
    Module {
        member: |p: Seq<u8>| point_decodes(p),
        zero: identity_encoding(),
        add: |a: Seq<u8>, b: Seq<u8>| curve_add(a, b),
        scale: |p: Seq<u8>, k: nat| curve_mul(p, k),
    }
}

/// The longest domain separation tag that the hash onto the curve takes.
pub const MAX_DOMAIN_LEN: usize = 227;

/// A point of the curve, held as its compressed encoding.
#[derive(Clone, Copy, Debug, PartialEq, Eq)]
pub struct Point {
    bytes: [u8; 32],
}

impl View for Point {
    type V = Seq<u8>;

    closed spec fn view(&self) -> Seq<u8> {
        self.bytes@
    }
}

/// The encodings of a sequence of points.
pub open spec fn point_encodings(points: Seq<Point>) -> Seq<Seq<u8>> {
    Seq::new(points.len(), |i: int| points[i]@)
}

impl Point {
    #[verifier::type_invariant]
    spec fn valid(self) -> bool {
        point_decodes(self.bytes@)
    }

    /// The neutral element.
    pub fn identity() -> (r: Point)
        ensures
            r@ == identity_encoding(),
            point_decodes(r@),
    {
        ep_identity()
    }

    /// The point with the given compressed encoding, if there is one.
    pub fn from_bytes(bytes: [u8; 32]) -> (r: Option<Point>)
        ensures
            r.is_some() <==> point_decodes(bytes@),
            r.is_some() ==> r.unwrap()@ == bytes@,
    {
        ep_decode(&bytes)
    }

    /// The compressed encoding.
    pub fn to_bytes(&self) -> (r: [u8; 32])
        ensures
            r@ == self@,
            point_decodes(self@),
    {
        proof {
            use_type_invariant(self);
        }
        self.bytes
    }

    /// The point that `message` hashes to under the tag `domain`.
    pub fn hash_to_curve(domain: &str, message: &[u8]) -> (r: Point)
        requires
            domain.is_ascii(),
            domain@.len() <= MAX_DOMAIN_LEN,
        ensures
            r@ == curve_hash(domain@, message@),
            point_decodes(r@),
    {
        ep_hash(domain, message)
    }

    /// Sum of two points.
    pub fn add(&self, rhs: &Point) -> (r: Point)
        ensures
            r@ == curve_add(self@, rhs@),
            point_decodes(r@),
    {
        ep_add(self, rhs)
    }

    /// The point multiplied by a scalar.
    pub fn mul(&self, k: &Scalar) -> (r: Point)
        ensures
            r@ == curve_mul(self@, k@),
            point_decodes(r@),
    {
        ep_mul(self, k)
    }

    /// Whether two points are the same group element.
    pub fn equals(&self, rhs: &Point) -> (r: bool)
        ensures
            r == (self@ == rhs@),
    {
        ep_eq(self, rhs)
    }
}

/// The linear combination of `points` with the scalars that `weights` holds from
/// `offset` on, one for each point.
pub fn linear_combination(points: &[Point], weights: &[Scalar], offset: usize) -> (r: Point)
    requires
        offset + points@.len() <= weights@.len(),
    ensures
        r@ == pallas().combine(
            point_encodings(points@),
            scalar_values(weights@).subrange(offset as int, offset + points@.len()),
        ),
{
    let n: usize = points.len();
    let available: usize = weights.len();
    let ghost encodings = point_encodings(points@);
    let ghost values = scalar_values(weights@).subrange(offset as int, offset + n);
    let mut total: Point = Point::identity();
    let mut j: usize = 0;
    proof {
        assert(encodings.take(0).len() == 0);
    }
    while j < n
        invariant
            j <= n,
            n == points@.len(),
            offset + n <= available,
            available == weights@.len(),
            encodings == point_encodings(points@),
            values == scalar_values(weights@).subrange(offset as int, offset + n),
            total@ == pallas().combine(encodings.take(j as int), values.take(j as int)),
        decreases n - j,
    {
        let next: Point = total.add(&points[j].mul(&weights[offset + j]));
        proof {
            assert(values[j as int] == weights@[offset + j]@);
            pallas().lemma_combine_step(encodings, values, j as int);
        }
        total = next;
        j = j + 1;
    }
    proof {
        assert(encodings.take(n as int) =~= encodings);
        assert(values.take(n as int) =~= values);
    }
    total
}

/// Trusted: `Group::identity` of `Ep`, encoded by `GroupEncoding::to_bytes`. The
/// claim is that the neutral element encodes as 32 zero bytes, which decode.
#[verifier::external_body]
fn ep_identity() -> (r: Point)
    ensures
        r@ == identity_encoding(),
        point_decodes(r@),
{
    Point { bytes: Ep::identity().to_bytes() }
}

/// Trusted: `GroupEncoding::from_bytes` of `Ep`. The claim is that it accepts
/// exactly the encodings that `point_decodes` names, and that the point then
/// encodes back to the same bytes.
#[verifier::external_body]
fn ep_decode(bytes: &[u8; 32]) -> (r: Option<Point>)
    ensures
        r.is_some() <==> point_decodes(bytes@),
        r.is_some() ==> r.unwrap()@ == bytes@,
{
    Option::<Ep>::from(Ep::from_bytes(bytes)).map(|p: Ep| Point { bytes: p.to_bytes() })
}

/// Trusted: `CurveExt::hash_to_curve` of `Ep`. The domain tag is kept within the
/// length that `pasta_curves` asserts. The claim is that the result depends on
/// the tag and the message alone; it is named `curve_hash`.
#[verifier::external_body]
fn ep_hash(domain: &str, message: &[u8]) -> (r: Point)
    requires
        domain.is_ascii(),
        domain@.len() <= MAX_DOMAIN_LEN,
    ensures
        r@ == curve_hash(domain@, message@),
        point_decodes(r@),
{
    Point { bytes: Ep::hash_to_curve(domain)(message).to_bytes() }
}

/// Trusted: `Add` of `Ep`. The claim is that the encoding of the sum depends on
/// the encodings of the summands alone; it is named `curve_add`.
#[verifier::external_body]
fn ep_add(a: &Point, b: &Point) -> (r: Point)
    ensures
        r@ == curve_add(a@, b@),
        point_decodes(r@),
{
    let p = Ep::from_bytes(&a.bytes).unwrap();
    let q = Ep::from_bytes(&b.bytes).unwrap();
    Point { bytes: (p + q).to_bytes() }
}

/// Trusted: `Mul<Fq>` of `Ep`. The claim is that the encoding of the product
/// depends on the point's encoding and the scalar's value alone; it is named
/// `curve_mul`.
#[verifier::external_body]
fn ep_mul(p: &Point, k: &Scalar) -> (r: Point)
    ensures
        r@ == curve_mul(p@, k@),
        point_decodes(r@),
{
    let q = Ep::from_bytes(&p.bytes).unwrap();
    Point { bytes: (q * Fq::from_raw(k.limbs)).to_bytes() }
}

/// Trusted: `PartialEq` of `Ep`. The claim is that two decoded points are equal
/// exactly when their encodings are, the encoding being canonical.
#[verifier::external_body]
fn ep_eq(a: &Point, b: &Point) -> (r: bool)
    ensures
        r == (a@ == b@),
{
    Ep::from_bytes(&a.bytes).unwrap() == Ep::from_bytes(&b.bytes).unwrap()
}

} // verus!
