use polycommit::bootle16_pcs::ceil_sqrt;
use polycommit::bootle16_pcs::generator_message_bytes;
use polycommit::bootle16_pcs::stride_powers;
use polycommit::bootle16_pcs::Bootle16PCS;
use polycommit::bootle16_pcs::Commitment;
use polycommit::bootle16_pcs::CommitmentKey;
use polycommit::bootle16_pcs::Opening;
use polycommit::curve::Point;
use polycommit::field::Scalar;
use polycommit::Pcs;
use polycommit::PcsError;

fn zero_to_nine() -> Vec<Scalar> {
    (0..10).map(|i| Scalar::from(i)).collect()
}

fn scalars(values: &[u64]) -> Vec<Scalar> {
    values.iter().map(|v| Scalar::from(*v)).collect()
}

#[test]
fn bootle16_pcs_test_commit_open_verify() {
    let pcs = Bootle16PCS::setup(10);
    let coefficients: Vec<Scalar> = (0..10).map(|i| Scalar::from(i)).collect();
    let (commitment, commitment_key) = pcs.commit(&coefficients).unwrap();
    let opening = pcs.open(&commitment_key, Scalar::from(5)).unwrap();
    println!("commitment num points: {:?}", commitment.row_commitments.len());
    assert!(pcs.verify_open(&commitment, &opening).unwrap());
}

#[test]
fn ceil_sqrt_is_the_side_of_the_smallest_square() {
    assert_eq!(ceil_sqrt(0), 1);
    assert_eq!(ceil_sqrt(1), 1);
    assert_eq!(ceil_sqrt(2), 2);
    assert_eq!(ceil_sqrt(4), 2);
    assert_eq!(ceil_sqrt(5), 3);
    assert_eq!(ceil_sqrt(9), 3);
    assert_eq!(ceil_sqrt(10), 4);
    assert_eq!(ceil_sqrt(16), 4);
    assert_eq!(ceil_sqrt(17), 5);
    assert_eq!(ceil_sqrt(1_000_000), 1000);
    assert_eq!(ceil_sqrt(1_000_001), 1001);
    assert_eq!(ceil_sqrt(usize::MAX), 1 << (usize::BITS / 2));
    assert_eq!(ceil_sqrt(usize::MAX - 1), 1 << (usize::BITS / 2));
}

#[test]
fn supports_size_tells_whether_the_matrix_fits() {
    assert!(Bootle16PCS::supports_size(0));
    assert!(Bootle16PCS::supports_size(10));
    assert!(Bootle16PCS::supports_size(1 << 40));
    let largest_side: usize = (1 << (usize::BITS / 2)) - 1;
    assert!(Bootle16PCS::supports_size(largest_side * largest_side));
    assert!(!Bootle16PCS::supports_size(largest_side * largest_side + 1));
    assert!(!Bootle16PCS::supports_size(usize::MAX));
}

#[test]
fn stride_powers_are_the_powers_of_x_to_the_n() {
    assert_eq!(stride_powers(&Scalar::from(2), 3), scalars(&[1, 8, 64]));
    assert_eq!(stride_powers(&Scalar::from(5), 1), scalars(&[1]));
    assert_eq!(stride_powers(&Scalar::from(5), 0), scalars(&[]));
    assert_eq!(stride_powers(&Scalar::zero(), 2), scalars(&[1, 0]));
}

#[test]
fn bootle16_setup_derives_the_generators_from_the_tag() {
    let pcs = Bootle16PCS::setup(4);
    assert_eq!(pcs.side_length(), 2);
    let g0 = Point::hash_to_curve("bootle16", &[b'g', 0]);
    let g1 = Point::hash_to_curve("bootle16", &[b'g', 1]);
    let h = Point::hash_to_curve("bootle16", &[b'h']);
    let (commitment, key) = pcs
        .commit_with_blinds(&scalars(&[1, 2, 3, 4]), scalars(&[5, 6]), scalars(&[7]))
        .unwrap();
    assert_eq!(key.n, 2);
    assert_eq!(key.column_blinds, scalars(&[7]));
    assert_eq!(commitment.row_commitments.len(), 2);
    assert_eq!(
        commitment.row_commitments[0],
        g0.mul(&Scalar::from(1)).add(&g1.mul(&Scalar::from(2))).add(&h.mul(&Scalar::from(5)))
    );
    assert_eq!(
        commitment.row_commitments[1],
        g0.mul(&Scalar::from(3)).add(&g1.mul(&Scalar::from(4))).add(&h.mul(&Scalar::from(6)))
    );
}

#[test]
fn bootle16_opening_folds_columns_and_blinds() {
    let pcs = Bootle16PCS::setup(4);
    let (commitment, key) = pcs
        .commit_with_blinds(&scalars(&[1, 2, 3, 4]), scalars(&[5, 6]), scalars(&[7]))
        .unwrap();
    let opening = pcs.open(&key, Scalar::from(2)).unwrap();
    // x^n = 4: columns 1 + 3*4 and 2 + 4*4, blinds 5 + 6*4
    assert_eq!(opening.x, Scalar::from(2));
    assert_eq!(opening.t_bar, scalars(&[13, 18]));
    assert_eq!(opening.tau_bar, Scalar::from(29));
    assert_eq!(pcs.verify_open(&commitment, &opening), Ok(true));
}

#[test]
fn bootle16_pads_ten_coefficients_to_sixteen() {
    let pcs = Bootle16PCS::setup(10);
    assert_eq!(pcs.side_length(), 4);
    let (commitment, key) = pcs.commit(&zero_to_nine()).unwrap();
    assert_eq!(key.n, 4);
    assert_eq!(key.coefficients, scalars(&[0, 1, 2, 3, 4, 5, 6, 7, 8, 9, 0, 0, 0, 0, 0, 0]));
    assert_eq!(key.blinds.len(), 4);
    assert_eq!(key.column_blinds.len(), 3);
    assert_eq!(commitment.row_commitments.len(), 4);
    for x in [Scalar::zero(), Scalar::one(), Scalar::from(5), Scalar::random()] {
        let opening = pcs.open(&key, x).unwrap();
        assert_eq!(opening.t_bar.len(), 4);
        assert_eq!(pcs.verify_open(&commitment, &opening), Ok(true));
    }
}

#[test]
fn bootle16_changed_row_commitment_is_rejected() {
    let pcs = Bootle16PCS::setup(10);
    let (commitment, key) = pcs.commit(&zero_to_nine()).unwrap();
    let opening = pcs.open(&key, Scalar::from(5)).unwrap();
    assert_eq!(pcs.verify_open(&commitment, &opening), Ok(true));
    for i in 0..4 {
        let mut rows = commitment.row_commitments.clone();
        rows[i] = rows[i].add(&Point::hash_to_curve("bootle16", &[b'h']));
        let changed = Commitment { row_commitments: rows };
        assert_eq!(pcs.verify_open(&changed, &opening), Ok(false));
    }
    for i in 0..4 {
        let mut rows = commitment.row_commitments.clone();
        rows[i] = Point::identity();
        let changed = Commitment { row_commitments: rows };
        assert_eq!(pcs.verify_open(&changed, &opening), Ok(false));
    }
}

#[test]
fn bootle16_tampering_is_rejected() {
    let pcs = Bootle16PCS::setup(10);
    let (commitment, key) = pcs.commit(&zero_to_nine()).unwrap();
    let x = Scalar::from(5);
    let opening = pcs.open(&key, x).unwrap();
    let one = Scalar::one();
    for i in 0..16 {
        let mut coefficients = key.coefficients.clone();
        coefficients[i] = coefficients[i].add(&one);
        let changed = CommitmentKey {
            coefficients,
            blinds: key.blinds.clone(),
            column_blinds: key.column_blinds.clone(),
            n: 4,
        };
        let forged = pcs.open(&changed, x).unwrap();
        assert_eq!(pcs.verify_open(&commitment, &forged), Ok(false));
    }
    for i in 0..4 {
        let mut blinds = key.blinds.clone();
        blinds[i] = blinds[i].add(&one);
        let changed = CommitmentKey {
            coefficients: key.coefficients.clone(),
            blinds,
            column_blinds: key.column_blinds.clone(),
            n: 4,
        };
        let forged = pcs.open(&changed, x).unwrap();
        assert_eq!(pcs.verify_open(&commitment, &forged), Ok(false));
    }
    for j in 0..4 {
        let mut t_bar = opening.t_bar.clone();
        t_bar[j] = t_bar[j].add(&one);
        let forged = Opening { x: opening.x, t_bar, tau_bar: opening.tau_bar };
        assert_eq!(pcs.verify_open(&commitment, &forged), Ok(false));
    }
    let wrong_x = Opening { x: opening.x.add(&one), t_bar: opening.t_bar.clone(), tau_bar: opening.tau_bar };
    let wrong_tau = Opening { x: opening.x, t_bar: opening.t_bar.clone(), tau_bar: opening.tau_bar.add(&one) };
    assert_eq!(pcs.verify_open(&commitment, &wrong_x), Ok(false));
    assert_eq!(pcs.verify_open(&commitment, &wrong_tau), Ok(false));
}

#[test]
fn bootle16_column_blinds_play_no_part_in_an_opening() {
    let pcs = Bootle16PCS::setup(10);
    let (commitment, key) = pcs.commit(&zero_to_nine()).unwrap();
    let changed = CommitmentKey {
        coefficients: key.coefficients.clone(),
        blinds: key.blinds.clone(),
        column_blinds: scalars(&[1, 2, 3]),
        n: 4,
    };
    let first = pcs.open(&key, Scalar::from(5)).unwrap();
    let second = pcs.open(&changed, Scalar::from(5)).unwrap();
    assert_eq!(first.t_bar, second.t_bar);
    assert_eq!(first.tau_bar, second.tau_bar);
    assert_eq!(pcs.verify_open(&commitment, &second), Ok(true));
}

#[test]
fn bootle16_single_row() {
    for size in [0usize, 1] {
        let pcs = Bootle16PCS::setup(size);
        assert_eq!(pcs.side_length(), 1);
        let (commitment, key) = pcs.commit(&scalars(&[42])).unwrap();
        assert_eq!(key.n, 1);
        assert_eq!(key.coefficients, scalars(&[42]));
        assert_eq!(key.blinds.len(), 1);
        assert_eq!(key.column_blinds.len(), 0);
        assert_eq!(commitment.row_commitments.len(), 1);
        let opening = pcs.open(&key, Scalar::from(7)).unwrap();
        assert_eq!(opening.t_bar, scalars(&[42]));
        assert_eq!(opening.tau_bar, key.blinds[0]);
        assert_eq!(pcs.verify_open(&commitment, &opening), Ok(true));
        let g0 = Point::hash_to_curve("bootle16", &[b'g', 0]);
        let h = Point::hash_to_curve("bootle16", &[b'h']);
        assert_eq!(
            commitment.row_commitments[0],
            g0.mul(&Scalar::from(42)).add(&h.mul(&key.blinds[0]))
        );
    }
}

#[test]
fn bootle16_cuts_coefficients_past_the_matrix() {
    let pcs = Bootle16PCS::setup(4);
    let (commitment, key) = pcs.commit(&scalars(&[1, 2, 3, 4, 5, 6])).unwrap();
    assert_eq!(key.coefficients, scalars(&[1, 2, 3, 4]));
    let opening = pcs.open(&key, Scalar::from(3)).unwrap();
    assert_eq!(pcs.verify_open(&commitment, &opening), Ok(true));
}

#[test]
fn bootle16_commitments_to_the_same_coefficients_differ() {
    let pcs = Bootle16PCS::setup(10);
    let (first, _) = pcs.commit(&zero_to_nine()).unwrap();
    let (second, _) = pcs.commit(&zero_to_nine()).unwrap();
    assert_ne!(first.row_commitments, second.row_commitments);
}

#[test]
fn bootle16_rejects_an_empty_coefficient_vector() {
    let pcs = Bootle16PCS::setup(10);
    assert!(matches!(pcs.commit(&[]), Err(PcsError::InvalidSize)));
    assert!(matches!(
        pcs.commit_with_blinds(&[], scalars(&[1, 2, 3, 4]), scalars(&[1, 2, 3])),
        Err(PcsError::InvalidSize)
    ));
    assert!(matches!(
        pcs.commit_with_blinds(&[], scalars(&[]), scalars(&[])),
        Err(PcsError::InvalidSize)
    ));
}

#[test]
fn bootle16_rejects_malformed_inputs() {
    let pcs = Bootle16PCS::setup(4);
    let good = scalars(&[1, 2, 3, 4]);
    assert!(matches!(
        pcs.commit_with_blinds(&good, scalars(&[1]), scalars(&[1])),
        Err(PcsError::MalformedInput)
    ));
    assert!(matches!(
        pcs.commit_with_blinds(&good, scalars(&[1, 2]), scalars(&[])),
        Err(PcsError::MalformedInput)
    ));
    let (commitment, key) = pcs.commit(&good).unwrap();
    let opening = pcs.open(&key, Scalar::from(2)).unwrap();

    let wrong_side = CommitmentKey {
        coefficients: key.coefficients.clone(),
        blinds: key.blinds.clone(),
        column_blinds: key.column_blinds.clone(),
        n: 3,
    };
    assert!(matches!(pcs.open(&wrong_side, Scalar::one()), Err(PcsError::MalformedInput)));
    let short_matrix = CommitmentKey {
        coefficients: scalars(&[1, 2, 3]),
        blinds: key.blinds.clone(),
        column_blinds: key.column_blinds.clone(),
        n: 2,
    };
    assert!(matches!(pcs.open(&short_matrix, Scalar::one()), Err(PcsError::MalformedInput)));
    let short_blinds = CommitmentKey {
        coefficients: key.coefficients.clone(),
        blinds: scalars(&[1]),
        column_blinds: key.column_blinds.clone(),
        n: 2,
    };
    assert!(matches!(pcs.open(&short_blinds, Scalar::one()), Err(PcsError::MalformedInput)));
    let long_column_blinds = CommitmentKey {
        coefficients: key.coefficients.clone(),
        blinds: key.blinds.clone(),
        column_blinds: scalars(&[1, 2]),
        n: 2,
    };
    assert!(matches!(pcs.open(&long_column_blinds, Scalar::one()), Err(PcsError::MalformedInput)));

    let mut rows = commitment.row_commitments.clone();
    rows.pop();
    assert_eq!(
        pcs.verify_open(&Commitment { row_commitments: rows }, &opening),
        Err(PcsError::MalformedInput)
    );
    let mut t_bar = opening.t_bar.clone();
    t_bar.push(Scalar::zero());
    let long_opening = Opening { x: opening.x, t_bar, tau_bar: opening.tau_bar };
    assert_eq!(pcs.verify_open(&commitment, &long_opening), Err(PcsError::MalformedInput));
    let other = Bootle16PCS::setup(9);
    assert_eq!(other.verify_open(&commitment, &opening), Err(PcsError::MalformedInput));
}

#[test]
fn bootle16_generators_do_not_repeat_after_256() {
    let pcs = Bootle16PCS::setup(257 * 257);
    assert_eq!(pcs.side_length(), 257);
    // at x = 0 only the first row counts, and the opening below commits to
    // column 256 alone
    let mut t_bar = vec![Scalar::zero(); 257];
    t_bar[256] = Scalar::one();
    let opening = Opening { x: Scalar::zero(), t_bar, tau_bar: Scalar::zero() };
    // a commitment to column 0 is rejected
    let mut rows = vec![Point::identity(); 257];
    rows[0] = Point::hash_to_curve("bootle16", &[b'g', 0]);
    assert_eq!(pcs.verify_open(&Commitment { row_commitments: rows.clone() }, &opening), Ok(false));
    // generator 256 is the hash of "g" and the two digits of 256
    rows[0] = Point::hash_to_curve("bootle16", &[b'g', 0, 1]);
    assert_eq!(pcs.verify_open(&Commitment { row_commitments: rows }, &opening), Ok(true));
}

#[test]
fn generator_messages_hold_the_full_index() {
    assert_eq!(generator_message_bytes(0), vec![b'g', 0]);
    assert_eq!(generator_message_bytes(7), vec![b'g', 7]);
    assert_eq!(generator_message_bytes(255), vec![b'g', 255]);
    assert_eq!(generator_message_bytes(256), vec![b'g', 0, 1]);
    assert_eq!(generator_message_bytes(257), vec![b'g', 1, 1]);
    assert_eq!(generator_message_bytes(65535), vec![b'g', 255, 255]);
    assert_eq!(generator_message_bytes(65536), vec![b'g', 0, 0, 1]);
    assert_eq!(generator_message_bytes(0x0403_0201), vec![b'g', 1, 2, 3, 4]);
}
