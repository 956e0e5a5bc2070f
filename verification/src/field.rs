//! Scalars of the Pallas curve: the prime field with `scalar_order()` elements.
//!
//! A `Scalar` holds the canonical representative of a field element as four
//! little-endian 64-bit limbs. The arithmetic itself is done by `pasta_curves`;
//! the functions that reach it are the trusted part of this module and say so.

use pasta_curves::group::ff::Field;
use pasta_curves::group::ff::PrimeField;
use pasta_curves::Fq;
use rand::rngs::OsRng;
use vstd::arithmetic::power::pow;
use vstd::prelude::*;

verus! {

/// The radix of a limb, `2^64`.
pub open spec fn limb_radix() -> nat {
    0x1_0000_0000_0000_0000
}

/// The order of the scalar field,
/// `0x40000000000000000000000000000000224698fc0994a8dd8c46eb2100000001`.
pub open spec fn scalar_order() -> nat {
    0x4000_0000_0000_0000 * (limb_radix() * limb_radix() * limb_radix())
        + 0x2246_98fc_0994_a8dd * limb_radix() + 0x8c46_eb21_0000_0001
}

/// The number that four little-endian limbs stand for.
pub open spec fn limbs_value(limbs: Seq<u64>) -> nat
    recommends
        limbs.len() == 4,
{
    limbs[0] as nat + limbs[1] as nat * limb_radix() + limbs[2] as nat * (limb_radix()
        * limb_radix()) + limbs[3] as nat * (limb_radix() * limb_radix() * limb_radix())
}

/// Sum in the scalar field.
pub open spec fn field_add(a: nat, b: nat) -> nat {
    (a + b) % scalar_order()
}

/// Product in the scalar field.
pub open spec fn field_mul(a: nat, b: nat) -> nat {
    (a * b) % scalar_order()
}

/// Power in the scalar field.
pub open spec fn field_pow(x: nat, e: nat) -> nat {
    (pow(x as int, e) % (scalar_order() as int)) as nat
}

/// The order of the field exceeds every machine word.
pub proof fn lemma_order_positive()
    ensures
        scalar_order() > 0xffff_ffff_ffff_ffff,
{
    assert(limb_radix() * limb_radix() * limb_radix() >= 1) by (nonlinear_arith)
        requires
            limb_radix() >= 1,
    ;
}

/// An element of the scalar field, always held in canonical form. Its view is
/// the number it stands for, which is below `scalar_order()`.
#[derive(Clone, Copy, Debug, PartialEq, Eq)]
pub struct Scalar {
    pub(crate) limbs: [u64; 4],
}

impl View for Scalar {
    type V = nat;

    closed spec fn view(&self) -> nat {
        limbs_value(self.limbs@) % scalar_order()
    }
}

/// The value of a scalar is below the order of the field.
pub proof fn lemma_canonical(s: Scalar)
    ensures
        s@ < scalar_order(),
{
    lemma_order_positive();
    vstd::arithmetic::div_mod::lemma_mod_bound(
        limbs_value(s.limbs@) as int,
        scalar_order() as int,
    );
}

/// The values of scalars are below the order of the field.
pub proof fn lemma_all_canonical(scalars: Seq<Scalar>)
    ensures
        forall|i: int| 0 <= i < scalars.len() ==> #[trigger] scalar_values(scalars)[i] < scalar_order(),
{
    assert forall|i: int| 0 <= i < scalars.len() implies #[trigger] scalar_values(scalars)[i]
        < scalar_order() by {
        lemma_canonical(scalars[i]);
    }
}

/// The values of a sequence of scalars.
pub open spec fn scalar_values(scalars: Seq<Scalar>) -> Seq<nat> {
    Seq::new(scalars.len(), |i: int| scalars[i]@)
}

impl Scalar {
    #[verifier::type_invariant]
    spec fn canonical(self) -> bool {
        limbs_value(self.limbs@) < scalar_order()
    }

    /// The additive identity.
    pub fn zero() -> (r: Scalar)
        ensures
            r@ == 0,
    {
        let limbs: [u64; 4] = [0, 0, 0, 0];
        proof {
            lemma_order_positive();
            assert(limbs@[0] == 0 && limbs@[1] == 0 && limbs@[2] == 0 && limbs@[3] == 0);
            vstd::arithmetic::div_mod::lemma_small_mod(0, scalar_order());
        }
        Scalar { limbs }
    }

    /// The multiplicative identity.
    pub fn one() -> (r: Scalar)
        ensures
            r@ == 1,
    {
        let limbs: [u64; 4] = [1, 0, 0, 0];
        proof {
            lemma_order_positive();
            assert(limbs@[0] == 1 && limbs@[1] == 0 && limbs@[2] == 0 && limbs@[3] == 0);
            vstd::arithmetic::div_mod::lemma_small_mod(1, scalar_order());
        }
        Scalar { limbs }
    }

    /// The field element of a machine word.
    pub fn from_u64(v: u64) -> (r: Scalar)
        ensures
            r@ == v as nat,
    {
        let limbs: [u64; 4] = [v, 0, 0, 0];
        proof {
            lemma_order_positive();
            assert(limbs@[0] == v && limbs@[1] == 0 && limbs@[2] == 0 && limbs@[3] == 0);
            vstd::arithmetic::div_mod::lemma_small_mod(v as nat, scalar_order());
        }
        Scalar { limbs }
    }

    /// The scalar with the given little-endian limbs, if they are below the
    /// order of the field.
    pub fn from_limbs(limbs: [u64; 4]) -> (r: Option<Scalar>)
        ensures
            r.is_some() <==> limbs_value(limbs@) < scalar_order(),
            r.is_some() ==> r.unwrap()@ == limbs_value(limbs@),
    {
        let below: bool = limbs[3] < 0x4000_0000_0000_0000 || (limbs[3] == 0x4000_0000_0000_0000
            && limbs[2] == 0 && (limbs[1] < 0x2246_98fc_0994_a8dd || (limbs[1]
            == 0x2246_98fc_0994_a8dd && limbs[0] < 0x8c46_eb21_0000_0001)));
        proof {
            let r = limb_radix();
            let r2 = limb_radix() * limb_radix();
            let r3 = limb_radix() * limb_radix() * limb_radix();
            assert(r2 == r * r);
            assert(r3 == r2 * r);
            assert(limbs_value(limbs@) == limbs@[0] + limbs@[1] * r + limbs@[2] * r2 + limbs@[3] * r3);
            assert(scalar_order() == 0x4000_0000_0000_0000 * r3 + 0x2246_98fc_0994_a8dd * r
                + 0x8c46_eb21_0000_0001);
            assert(limbs@[0] + limbs@[1] * r < r2) by (nonlinear_arith)
                requires
                    limbs@[0] < r,
                    limbs@[1] < r,
                    r2 == r * r,
            ;
            assert(limbs@[0] + limbs@[1] * r + limbs@[2] * r2 < r3) by (nonlinear_arith)
                requires
                    limbs@[0] + limbs@[1] * r < r2,
                    limbs@[2] < r,
                    r3 == r2 * r,
            ;
            if limbs@[3] < 0x4000_0000_0000_0000 {
                assert(limbs@[3] * r3 + r3 <= 0x4000_0000_0000_0000 * r3) by (nonlinear_arith)
                    requires
                        limbs@[3] < 0x4000_0000_0000_0000,
                        r3 >= 0,
                ;
            } else if limbs@[3] > 0x4000_0000_0000_0000 {
                assert(limbs@[3] * r3 >= 0x4000_0000_0000_0001 * r3) by (nonlinear_arith)
                    requires
                        limbs@[3] > 0x4000_0000_0000_0000,
                        r3 >= 0,
                ;
                assert(0x4000_0000_0000_0001 * r3 == 0x4000_0000_0000_0000 * r3 + r3)
                    by (nonlinear_arith);
                assert(0x2246_98fc_0994_a8dd * r + 0x8c46_eb21_0000_0001 < r2);
                assert(r2 <= r3) by (nonlinear_arith)
                    requires
                        r3 == r2 * r,
                        r >= 1,
                        r2 >= 0,
                ;
            } else if limbs@[2] > 0 {
                assert(limbs@[2] * r2 >= r2) by (nonlinear_arith)
                    requires
                        limbs@[2] > 0,
                        r2 >= 0,
                ;
                assert(0x2246_98fc_0994_a8dd * r + 0x8c46_eb21_0000_0001 < r2);
            }
        }
        proof {
            if below {
                vstd::arithmetic::div_mod::lemma_small_mod(limbs_value(limbs@), scalar_order());
            }
        }
        if below {
            Some(Scalar { limbs })
        } else {
            None
        }
    }

    /// The little-endian limbs of the canonical representative.
    pub fn to_limbs(&self) -> (r: [u64; 4])
        ensures
            limbs_value(r@) == self@,
            self@ < scalar_order(),
    {
        proof {
            use_type_invariant(self);
            vstd::arithmetic::div_mod::lemma_small_mod(limbs_value(self.limbs@), scalar_order());
        }
        self.limbs
    }

    /// Sum of two scalars.
    pub fn add(&self, rhs: &Scalar) -> (r: Scalar)
        ensures
            r@ == field_add(self@, rhs@),
    {
        fq_add(self, rhs)
    }

    /// Product of two scalars.
    pub fn mul(&self, rhs: &Scalar) -> (r: Scalar)
        ensures
            r@ == field_mul(self@, rhs@),
    {
        fq_mul(self, rhs)
    }

    /// `self` raised to the power `e`.
    pub fn pow(&self, e: u64) -> (r: Scalar)
        ensures
            r@ == field_pow(self@, e as nat),
    {
        fq_pow(self, e)
    }

    /// A scalar drawn from the operating system's random source.
    pub fn random() -> (r: Scalar)
        ensures
            r@ < scalar_order(),
    {
        fq_random()
    }
}

impl From<u64> for Scalar {
    /// The field element of a machine word.
    fn from(v: u64) -> (r: Scalar)
        ensures
            r@ == v as nat,
    {
        let limbs: [u64; 4] = [v, 0, 0, 0];
        proof {
            lemma_order_positive();
            assert(limbs@[0] == v && limbs@[1] == 0 && limbs@[2] == 0 && limbs@[3] == 0);
            assert(limbs@ =~= [v, 0, 0, 0]@);
            assert(limbs == [v, 0, 0, 0]);
            vstd::arithmetic::div_mod::lemma_small_mod(v as nat, scalar_order());
        }
        Scalar { limbs }
    }
}

impl vstd::std_specs::convert::FromSpecImpl<u64> for Scalar {
    open spec fn obeys_from_spec() -> bool {
        true
    }

    closed spec fn from_spec(v: u64) -> Scalar {
        Scalar { limbs: [v, 0, 0, 0] }
    }
}

/// As many scalars as asked for, each drawn from the operating system's random
/// source.
pub fn random_scalars(count: usize) -> (r: Vec<Scalar>)
    ensures
        r@.len() == count,
{
    let mut drawn: Vec<Scalar> = Vec::new();
    let mut i: usize = 0;
    while i < count
        invariant
            i <= count,
            drawn@.len() == i,
        decreases count - i,
    {
        drawn.push(Scalar::random());
        i = i + 1;
    }
    drawn
}

/// Trusted: `Fq::add` of `pasta_curves`. The limbs are read as canonical
/// integers by `Fq::from_raw` and written back through `to_repr`; the claim is
/// that the result is the canonical representative of the sum modulo the order.
#[verifier::external_body]
fn fq_add(a: &Scalar, b: &Scalar) -> (r: Scalar)
    ensures
        r@ == (a@ + b@) % scalar_order(),
{
    let s = (Fq::from_raw(a.limbs) + Fq::from_raw(b.limbs)).to_repr();
    Scalar {
        limbs: [
            u64::from_le_bytes(s[0..8].try_into().unwrap()),
            u64::from_le_bytes(s[8..16].try_into().unwrap()),
            u64::from_le_bytes(s[16..24].try_into().unwrap()),
            u64::from_le_bytes(s[24..32].try_into().unwrap()),
        ],
    }
}

/// Trusted: `Fq::mul` of `pasta_curves`. The claim is that the result is the
/// canonical representative of the product modulo the order.
#[verifier::external_body]
fn fq_mul(a: &Scalar, b: &Scalar) -> (r: Scalar)
    ensures
        r@ == (a@ * b@) % scalar_order(),
{
    let s = (Fq::from_raw(a.limbs) * Fq::from_raw(b.limbs)).to_repr();
    Scalar {
        limbs: [
            u64::from_le_bytes(s[0..8].try_into().unwrap()),
            u64::from_le_bytes(s[8..16].try_into().unwrap()),
            u64::from_le_bytes(s[16..24].try_into().unwrap()),
            u64::from_le_bytes(s[24..32].try_into().unwrap()),
        ],
    }
}

/// Trusted: `Field::pow` of `ff`, as `pasta_curves` provides it for `Fq`, with
/// a one-word exponent. The claim is that the result is the canonical
/// representative of `x^e` modulo the order.
#[verifier::external_body]
fn fq_pow(x: &Scalar, e: u64) -> (r: Scalar)
    ensures
        r@ == pow(x@ as int, e as nat) % (scalar_order() as int),
{
    let s = Fq::from_raw(x.limbs).pow([e]).to_repr();
    Scalar {
        limbs: [
            u64::from_le_bytes(s[0..8].try_into().unwrap()),
            u64::from_le_bytes(s[8..16].try_into().unwrap()),
            u64::from_le_bytes(s[16..24].try_into().unwrap()),
            u64::from_le_bytes(s[24..32].try_into().unwrap()),
        ],
    }
}

/// Trusted: `Field::random` of `ff` for `Fq`, fed by `OsRng` of `rand`. Nothing
/// is claimed of the value beyond its being a canonical scalar.
#[verifier::external_body]
fn fq_random() -> (r: Scalar)
    ensures
        r@ < scalar_order(),
{
    let s = Fq::random(OsRng).to_repr();
    Scalar {
        limbs: [
            u64::from_le_bytes(s[0..8].try_into().unwrap()),
            u64::from_le_bytes(s[8..16].try_into().unwrap()),
            u64::from_le_bytes(s[16..24].try_into().unwrap()),
            u64::from_le_bytes(s[24..32].try_into().unwrap()),
        ],
    }
}

} // verus!
