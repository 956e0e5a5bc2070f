use pasta_curves::arithmetic::CurveExt;
use pasta_curves::group::Group;
use pasta_curves::group::GroupEncoding;
use pasta_curves::Ep;
use pasta_curves::Fq;
use polycommit::curve::linear_combination;
use polycommit::curve::Point;
use polycommit::field::Scalar;

fn generator() -> Point {
    Point::hash_to_curve("cnode", &[b'g'])
}

#[test]
fn identity_encodes_as_zero_bytes() {
    assert_eq!(Point::identity().to_bytes(), [0u8; 32]);
    assert_eq!(Point::identity().to_bytes(), Ep::identity().to_bytes());
}

#[test]
fn hash_to_curve_agrees_with_the_curve_library() {
    let expected = Ep::hash_to_curve("cnode")(&[b'g']).to_bytes();
    assert_eq!(generator().to_bytes(), expected);
    let other = Ep::hash_to_curve("bootle16")(&[b'g', 3]).to_bytes();
    assert_eq!(Point::hash_to_curve("bootle16", &[b'g', 3]).to_bytes(), other);
}

#[test]
fn hash_to_curve_depends_on_tag_and_message() {
    let g = generator();
    assert_eq!(g, Point::hash_to_curve("cnode", &[b'g']));
    assert_ne!(g, Point::hash_to_curve("cnode", &[b'h']));
    assert_ne!(g, Point::hash_to_curve("bootle16", &[b'g']));
    assert_ne!(g, Point::identity());
}

#[test]
fn hash_to_curve_takes_the_longest_tag() {
    let tag = "a".repeat(polycommit::curve::MAX_DOMAIN_LEN);
    let p = Point::hash_to_curve(&tag, &[]);
    assert!(Point::from_bytes(p.to_bytes()).is_some());
}

#[test]
fn point_add_agrees_with_the_curve_library() {
    let g = generator();
    let h = Point::hash_to_curve("cnode", &[b'h']);
    let a = Ep::from_bytes(&g.to_bytes()).unwrap();
    let b = Ep::from_bytes(&h.to_bytes()).unwrap();
    assert_eq!(g.add(&h).to_bytes(), (a + b).to_bytes());
    assert_ne!(g.add(&h), g);
    assert_ne!(g.add(&h), h);
    assert_eq!(g.add(&h), h.add(&g));
    assert_eq!(g.add(&Point::identity()), g);
    assert_eq!(Point::identity().add(&g), g);
}

#[test]
fn point_mul_agrees_with_the_curve_library() {
    let g = generator();
    let a = Ep::from_bytes(&g.to_bytes()).unwrap();
    assert_eq!(g.mul(&Scalar::from(7)).to_bytes(), (a * Fq::from(7)).to_bytes());
    assert_eq!(g.mul(&Scalar::zero()), Point::identity());
    assert_eq!(g.mul(&Scalar::one()), g);
    assert_eq!(g.mul(&Scalar::from(2)), g.add(&g));
    assert_eq!(g.mul(&Scalar::from(3)), g.add(&g).add(&g));
    assert_ne!(g.mul(&Scalar::from(2)), g);
    assert_eq!(Point::identity().mul(&Scalar::from(9)), Point::identity());
}

#[test]
fn point_mul_by_a_large_scalar() {
    let limbs = [0x8c46_eb21_0000_0000, 0x2246_98fc_0994_a8dd, 0, 0x4000_0000_0000_0000];
    let minus_one = Scalar::from_limbs(limbs).unwrap();
    let g = generator();
    // -g + g is the neutral element
    assert_eq!(g.mul(&minus_one).add(&g), Point::identity());
    let a = Ep::from_bytes(&g.to_bytes()).unwrap();
    assert_eq!(g.mul(&minus_one).to_bytes(), (a * -Fq::from(1)).to_bytes());
}

#[test]
fn point_equals_compares_group_elements() {
    let g = generator();
    let h = Point::hash_to_curve("cnode", &[b'h']);
    assert!(g.equals(&g));
    assert!(g.equals(&Point::hash_to_curve("cnode", &[b'g'])));
    assert!(!g.equals(&h));
    assert!(!g.equals(&Point::identity()));
    assert!(Point::identity().equals(&Point::identity()));
}

#[test]
fn point_from_bytes_round_trips_and_rejects() {
    let g = generator();
    assert_eq!(Point::from_bytes(g.to_bytes()), Some(g));
    assert_eq!(Point::from_bytes([0u8; 32]), Some(Point::identity()));
    // the x coordinate is not below the modulus of the base field
    assert_eq!(Point::from_bytes([0xff; 32]), None);
    let mut found_invalid = false;
    for low in 0u8..32 {
        let mut bytes = [0u8; 32];
        bytes[0] = low;
        let ours = Point::from_bytes(bytes);
        let theirs: Option<Ep> = Ep::from_bytes(&bytes).into();
        assert_eq!(ours.is_some(), theirs.is_some());
        if let Some(p) = ours {
            assert_eq!(p.to_bytes(), bytes);
        } else {
            found_invalid = true;
        }
    }
    assert!(found_invalid);
    // x = 0 with the sign bit set
    let mut bytes = [0u8; 32];
    bytes[31] = 0x80;
    let theirs: Option<Ep> = Ep::from_bytes(&bytes).into();
    assert_eq!(Point::from_bytes(bytes).is_some(), theirs.is_some());
    assert_eq!(Point::from_bytes(bytes).map(|p| p.to_bytes()), theirs.map(|p| p.to_bytes()));
}

#[test]
fn linear_combination_weights_each_point() {
    let g = generator();
    let h = Point::hash_to_curve("cnode", &[b'h']);
    let weights = [Scalar::from(9), Scalar::from(2), Scalar::from(3)];
    let expected = g.mul(&Scalar::from(2)).add(&h.mul(&Scalar::from(3)));
    assert_eq!(linear_combination(&[g, h], &weights, 1), expected);
    assert_eq!(linear_combination(&[], &weights, 3), Point::identity());
    assert_eq!(linear_combination(&[g], &weights, 0), g.mul(&Scalar::from(9)));
}
