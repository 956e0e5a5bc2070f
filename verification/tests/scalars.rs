use polycommit::field::random_scalars;
use polycommit::field::Scalar;

const ORDER_MINUS_ONE: [u64; 4] = [0x8c46_eb21_0000_0000, 0x2246_98fc_0994_a8dd, 0, 0x4000_0000_0000_0000];
const ORDER: [u64; 4] = [0x8c46_eb21_0000_0001, 0x2246_98fc_0994_a8dd, 0, 0x4000_0000_0000_0000];

#[test]
fn scalar_zero_and_one() {
    assert_eq!(Scalar::zero().to_limbs(), [0, 0, 0, 0]);
    assert_eq!(Scalar::one().to_limbs(), [1, 0, 0, 0]);
    assert_eq!(Scalar::zero(), Scalar::from(0));
    assert_eq!(Scalar::one(), Scalar::from_u64(1));
}

#[test]
fn scalar_from_word_keeps_the_word() {
    assert_eq!(Scalar::from(5).to_limbs(), [5, 0, 0, 0]);
    assert_eq!(Scalar::from_u64(u64::MAX).to_limbs(), [u64::MAX, 0, 0, 0]);
}

#[test]
fn scalar_from_limbs_accepts_only_canonical_values() {
    assert!(Scalar::from_limbs(ORDER_MINUS_ONE).is_some());
    assert_eq!(Scalar::from_limbs(ORDER_MINUS_ONE).unwrap().to_limbs(), ORDER_MINUS_ONE);
    assert!(Scalar::from_limbs(ORDER).is_none());
    assert!(Scalar::from_limbs([0, 0, 1, 0x4000_0000_0000_0000]).is_none());
    assert!(Scalar::from_limbs([0, 0x2246_98fc_0994_a8de, 0, 0x4000_0000_0000_0000]).is_none());
    assert!(Scalar::from_limbs([u64::MAX, u64::MAX, u64::MAX, 0x3fff_ffff_ffff_ffff]).is_some());
    assert!(Scalar::from_limbs([0, 0, 0, 0x4000_0000_0000_0001]).is_none());
    assert!(Scalar::from_limbs([u64::MAX; 4]).is_none());
}

#[test]
fn scalar_add_is_addition_modulo_the_order() {
    assert_eq!(Scalar::from(3).add(&Scalar::from(4)), Scalar::from(7));
    let top = Scalar::from_limbs(ORDER_MINUS_ONE).unwrap();
    assert_eq!(top.add(&Scalar::one()), Scalar::zero());
    assert_eq!(top.add(&Scalar::from(6)), Scalar::from(5));
    assert_eq!(
        Scalar::from(u64::MAX).add(&Scalar::from(1)).to_limbs(),
        [0, 1, 0, 0]
    );
}

#[test]
fn scalar_mul_is_multiplication_modulo_the_order() {
    assert_eq!(Scalar::from(3).mul(&Scalar::from(4)), Scalar::from(12));
    assert_eq!(Scalar::from(3).mul(&Scalar::zero()), Scalar::zero());
    let top = Scalar::from_limbs(ORDER_MINUS_ONE).unwrap();
    // (-1) * (-1) = 1
    assert_eq!(top.mul(&top), Scalar::one());
    assert_eq!(
        Scalar::from(1 << 32).mul(&Scalar::from(1 << 32)).to_limbs(),
        [0, 1, 0, 0]
    );
}

#[test]
fn scalar_pow_is_the_power_modulo_the_order() {
    assert_eq!(Scalar::from(2).pow(10), Scalar::from(1024));
    assert_eq!(Scalar::from(5).pow(0), Scalar::one());
    assert_eq!(Scalar::zero().pow(0), Scalar::one());
    assert_eq!(Scalar::zero().pow(3), Scalar::zero());
    assert_eq!(Scalar::from(2).pow(64).to_limbs(), [0, 1, 0, 0]);
    let top = Scalar::from_limbs(ORDER_MINUS_ONE).unwrap();
    assert_eq!(top.pow(2), Scalar::one());
    assert_eq!(top.pow(3), top);
}

#[test]
fn scalar_random_is_canonical_and_varies() {
    let a = Scalar::random();
    let b = Scalar::random();
    assert!(Scalar::from_limbs(a.to_limbs()).is_some());
    assert!(Scalar::from_limbs(b.to_limbs()).is_some());
    assert_ne!(a, b);
}

#[test]
fn random_scalars_gives_the_count_asked_for() {
    assert_eq!(random_scalars(0).len(), 0);
    let drawn = random_scalars(7);
    assert_eq!(drawn.len(), 7);
    assert_ne!(drawn[0], drawn[1]);
}
