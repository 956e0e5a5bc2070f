use polycommit::curve::Point;
use polycommit::field::Scalar;
use polycommit::pedersen_pcs::Commitment;
use polycommit::pedersen_pcs::CommitmentKey;
use polycommit::pedersen_pcs::Opening;
use polycommit::pedersen_pcs::PedersenPolynomialCommitmentScheme;
use polycommit::Pcs;
use polycommit::PcsError;

fn zero_to_nine() -> Vec<Scalar> {
    (0..10).map(|i| Scalar::from(i)).collect()
}

#[test]
fn pedersen_pcs_test_commit_open_verify() {
    let pcs = PedersenPolynomialCommitmentScheme::setup(0);
    let coefficients: Vec<Scalar> = (0..10).map(|i| Scalar::from(i)).collect();
    let (commitment, commitment_key) = pcs.commit(&coefficients).unwrap();
    let opening = pcs.open(&commitment_key, Scalar::from(5)).unwrap();
    println!("commitment num points: {:?}", commitment.points.len());
    assert!(pcs.verify_open(&commitment, &opening).unwrap());
}

#[test]
fn pedersen_opening_holds_the_value_of_the_polynomial() {
    let pcs = PedersenPolynomialCommitmentScheme::setup(10);
    let (commitment, key) = pcs.commit(&zero_to_nine()).unwrap();
    let opening = pcs.open(&key, Scalar::from(5)).unwrap();
    // 1*5 + 2*25 + 3*125 + .. + 9*5^9
    assert_eq!(opening.y, Scalar::from(21362305));
    assert_eq!(opening.x, Scalar::from(5));
    assert_eq!(commitment.points.len(), 10);
    assert_eq!(key.coefficients, zero_to_nine());
    assert_eq!(key.blinds.len(), 10);
    assert_eq!(pcs.verify_open(&commitment, &opening), Ok(true));
}

#[test]
fn pedersen_opening_folds_the_blinds_too() {
    let pcs = PedersenPolynomialCommitmentScheme::setup(3);
    let coefficients = vec![Scalar::from(7), Scalar::from(1), Scalar::from(2)];
    let blinds = vec![Scalar::from(4), Scalar::from(5), Scalar::from(6)];
    let (commitment, key) = pcs.commit_with_blinds(&coefficients, blinds.clone()).unwrap();
    assert_eq!(key.blinds, blinds);
    let opening = pcs.open(&key, Scalar::from(3)).unwrap();
    // 7 + 1*3 + 2*9 and 4 + 5*3 + 6*9
    assert_eq!(opening.y, Scalar::from(28));
    assert_eq!(opening.r_bar, Scalar::from(73));
    assert_eq!(pcs.verify_open(&commitment, &opening), Ok(true));
}

#[test]
fn pedersen_setup_derives_the_generators_from_the_tag() {
    let pcs = PedersenPolynomialCommitmentScheme::setup(0);
    let g = Point::hash_to_curve("cnode", &[b'g']);
    let h = Point::hash_to_curve("cnode", &[b'h']);
    let (commitment, _) = pcs
        .commit_with_blinds(&[Scalar::from(3), Scalar::from(0)], vec![Scalar::from(11), Scalar::from(1)])
        .unwrap();
    assert_eq!(commitment.points[0], g.mul(&Scalar::from(3)).add(&h.mul(&Scalar::from(11))));
    assert_eq!(commitment.points[1], h);
    // the size hint plays no part
    let other = PedersenPolynomialCommitmentScheme::setup(1000);
    let (again, _) = other
        .commit_with_blinds(&[Scalar::from(3), Scalar::from(0)], vec![Scalar::from(11), Scalar::from(1)])
        .unwrap();
    assert_eq!(again.points, commitment.points);
}

#[test]
fn pedersen_round_trip_at_several_points() {
    let pcs = PedersenPolynomialCommitmentScheme::setup(0);
    let coefficients = vec![Scalar::random(), Scalar::random(), Scalar::random(), Scalar::from(1)];
    let (commitment, key) = pcs.commit(&coefficients).unwrap();
    for x in [Scalar::zero(), Scalar::one(), Scalar::from(2), Scalar::random()] {
        let opening = pcs.open(&key, x).unwrap();
        assert_eq!(pcs.verify_open(&commitment, &opening), Ok(true));
    }
    let (single, single_key) = pcs.commit(&[Scalar::from(42)]).unwrap();
    let opening = pcs.open(&single_key, Scalar::from(9)).unwrap();
    assert_eq!(opening.y, Scalar::from(42));
    assert_eq!(pcs.verify_open(&single, &opening), Ok(true));
}

#[test]
fn pedersen_tampering_is_rejected() {
    let pcs = PedersenPolynomialCommitmentScheme::setup(0);
    let (commitment, key) = pcs.commit(&zero_to_nine()).unwrap();
    let x = Scalar::from(5);
    let opening = pcs.open(&key, x).unwrap();
    let one = Scalar::one();

    // a changed coefficient
    for i in 0..10 {
        let mut coefficients = key.coefficients.clone();
        coefficients[i] = coefficients[i].add(&one);
        let changed = CommitmentKey { coefficients, blinds: key.blinds.clone() };
        let forged = pcs.open(&changed, x).unwrap();
        assert_eq!(pcs.verify_open(&commitment, &forged), Ok(false));
    }
    // a changed blind
    for i in 0..10 {
        let mut blinds = key.blinds.clone();
        blinds[i] = blinds[i].add(&one);
        let changed = CommitmentKey { coefficients: key.coefficients.clone(), blinds };
        let forged = pcs.open(&changed, x).unwrap();
        assert_eq!(pcs.verify_open(&commitment, &forged), Ok(false));
    }
    // a changed commitment element
    for i in 0..10 {
        let mut points = commitment.points.clone();
        points[i] = points[i].add(&Point::hash_to_curve("cnode", &[b'g']));
        assert_eq!(pcs.verify_open(&Commitment { points }, &opening), Ok(false));
    }
    // a changed field of the opening
    let wrong_x = Opening { x: opening.x.add(&one), y: opening.y, r_bar: opening.r_bar };
    let wrong_y = Opening { x: opening.x, y: opening.y.add(&one), r_bar: opening.r_bar };
    let wrong_r = Opening { x: opening.x, y: opening.y, r_bar: opening.r_bar.add(&one) };
    assert_eq!(pcs.verify_open(&commitment, &wrong_x), Ok(false));
    assert_eq!(pcs.verify_open(&commitment, &wrong_y), Ok(false));
    assert_eq!(pcs.verify_open(&commitment, &wrong_r), Ok(false));
    // a shorter commitment
    let mut points = commitment.points.clone();
    points.pop();
    assert_eq!(pcs.verify_open(&Commitment { points }, &opening), Ok(false));
}

#[test]
fn pedersen_commitments_to_the_same_coefficients_differ() {
    let pcs = PedersenPolynomialCommitmentScheme::setup(0);
    let (first, first_key) = pcs.commit(&zero_to_nine()).unwrap();
    let (second, second_key) = pcs.commit(&zero_to_nine()).unwrap();
    assert_ne!(first.points, second.points);
    assert_ne!(first_key.blinds, second_key.blinds);
    for i in 0..10 {
        assert_ne!(first.points[i], second.points[i]);
    }
}

#[test]
fn pedersen_commit_with_blinds_is_deterministic() {
    let pcs = PedersenPolynomialCommitmentScheme::setup(0);
    let blinds: Vec<Scalar> = (20..30).map(|i| Scalar::from(i)).collect();
    let (first, _) = pcs.commit_with_blinds(&zero_to_nine(), blinds.clone()).unwrap();
    let (second, _) = pcs.commit_with_blinds(&zero_to_nine(), blinds).unwrap();
    assert_eq!(first.points, second.points);
}

#[test]
fn pedersen_rejects_an_empty_coefficient_vector() {
    let pcs = PedersenPolynomialCommitmentScheme::setup(0);
    assert!(matches!(pcs.commit(&[]), Err(PcsError::InvalidSize)));
    assert!(matches!(pcs.commit_with_blinds(&[], vec![]), Err(PcsError::InvalidSize)));
    assert!(matches!(
        pcs.commit_with_blinds(&[], vec![Scalar::one()]),
        Err(PcsError::InvalidSize)
    ));
}

#[test]
fn pedersen_rejects_malformed_inputs() {
    let pcs = PedersenPolynomialCommitmentScheme::setup(0);
    assert!(matches!(
        pcs.commit_with_blinds(&[Scalar::one()], vec![]),
        Err(PcsError::MalformedInput)
    ));
    assert!(matches!(
        pcs.commit_with_blinds(&[Scalar::one()], vec![Scalar::one(), Scalar::one()]),
        Err(PcsError::MalformedInput)
    ));
    let empty = CommitmentKey { coefficients: vec![], blinds: vec![] };
    assert!(matches!(pcs.open(&empty, Scalar::one()), Err(PcsError::MalformedInput)));
    let uneven = CommitmentKey { coefficients: vec![Scalar::one()], blinds: vec![] };
    assert!(matches!(pcs.open(&uneven, Scalar::one()), Err(PcsError::MalformedInput)));
    let opening = Opening { x: Scalar::zero(), y: Scalar::zero(), r_bar: Scalar::zero() };
    assert_eq!(
        pcs.verify_open(&Commitment { points: vec![] }, &opening),
        Err(PcsError::MalformedInput)
    );
}
