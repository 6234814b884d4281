use groth16_params::bls12::{G1Affine, G2Affine};
use groth16_params::engine::CurvePoint;
use groth16_params::points::{decode_finite_point, decode_point, require_finite, require_point};
use groth16_params::wire::ReadError;

fn g1_generator() -> Vec<u8> {
    bls12_381::G1Affine::generator().to_uncompressed().to_vec()
}

fn g2_generator() -> Vec<u8> {
    bls12_381::G2Affine::generator().to_uncompressed().to_vec()
}

fn infinity(size: usize) -> Vec<u8> {
    let mut bytes = vec![0u8; size];
    bytes[0] = 0x40;
    bytes
}

/// `(0, 2)`: on the curve, and of order three.
fn g1_small_order() -> Vec<u8> {
    let mut bytes = vec![0u8; 96];
    bytes[95] = 2;
    bytes
}

/// The order of the base field.
fn modulus() -> Vec<u8> {
    let hex = "1a0111ea397fe69a4b1ba7b6434bacd764774b84f38512bf6730d2a0f6b0f6241eabfffeb153ffffb9feffffffffaaab";
    (0..48)
        .map(|i| u8::from_str_radix(&hex[2 * i..2 * i + 2], 16).unwrap())
        .collect()
}

#[test]
fn sizes_of_encodings() {
    assert_eq!(G1Affine::uncompressed_size(), 96);
    assert_eq!(G2Affine::uncompressed_size(), 192);
}

#[test]
fn generators_are_accepted() {
    let g1 = G1Affine::from_uncompressed(&g1_generator()).unwrap();
    assert_eq!(g1.to_uncompressed(), &g1_generator()[..]);
    assert!(!g1.is_identity());
    let g2 = G2Affine::from_uncompressed(&g2_generator()).unwrap();
    assert_eq!(g2.to_uncompressed(), &g2_generator()[..]);
    assert!(!g2.is_identity());
    let g1 = G1Affine::from_uncompressed_unchecked(&g1_generator()).unwrap();
    assert_eq!(g1.to_uncompressed(), &g1_generator()[..]);
    let g2 = G2Affine::from_uncompressed_unchecked(&g2_generator()).unwrap();
    assert_eq!(g2.to_uncompressed(), &g2_generator()[..]);
}

#[test]
fn infinity_is_the_identity() {
    let g1 = G1Affine::from_uncompressed(&infinity(96)).unwrap();
    assert!(g1.is_identity());
    assert_eq!(g1.to_uncompressed(), &infinity(96)[..]);
    assert!(G1Affine::from_uncompressed_unchecked(&infinity(96))
        .unwrap()
        .is_identity());
    let g2 = G2Affine::from_uncompressed(&infinity(192)).unwrap();
    assert!(g2.is_identity());
    assert_eq!(g2.to_uncompressed(), &infinity(192)[..]);
    assert!(G2Affine::from_uncompressed_unchecked(&infinity(192))
        .unwrap()
        .is_identity());
}

#[test]
fn checks_reject_points_outside_the_group() {
    assert!(G1Affine::from_uncompressed(&g1_small_order()).is_none());
    assert!(G1Affine::from_uncompressed_unchecked(&g1_small_order()).is_some());
    let mut off_curve = vec![0u8; 192];
    off_curve[191] = 1;
    assert!(G2Affine::from_uncompressed(&off_curve).is_none());
    assert!(G2Affine::from_uncompressed_unchecked(&off_curve).is_some());
}

#[test]
fn checks_reject_points_off_the_curve() {
    let mut bytes = g1_generator();
    bytes[95] ^= 1;
    assert!(G1Affine::from_uncompressed(&bytes).is_none());
    assert!(G1Affine::from_uncompressed_unchecked(&bytes).is_some());
    for at in [143usize, 191] {
        let mut bytes = g2_generator();
        bytes[at] ^= 1;
        assert!(G2Affine::from_uncompressed(&bytes).is_none());
        assert!(G2Affine::from_uncompressed_unchecked(&bytes).is_some());
    }
}

#[test]
fn flags_are_rejected() {
    for flag in [0x80u8, 0x20, 0x60, 0xc0, 0xe0] {
        let mut bytes = g1_generator();
        bytes[0] |= flag;
        assert!(G1Affine::from_uncompressed_unchecked(&bytes).is_none());
        let mut bytes = g2_generator();
        bytes[0] |= flag;
        assert!(G2Affine::from_uncompressed_unchecked(&bytes).is_none());
    }
    let mut bytes = infinity(96);
    bytes[95] = 1;
    assert!(G1Affine::from_uncompressed_unchecked(&bytes).is_none());
    let mut bytes = infinity(192);
    bytes[0] = 0x41;
    assert!(G2Affine::from_uncompressed_unchecked(&bytes).is_none());
}

#[test]
fn coordinates_are_reduced() {
    let p = modulus();
    let mut below = p.clone();
    below[47] -= 1;
    for at in [0usize, 48] {
        let mut bytes = vec![0u8; 96];
        bytes[at..at + 48].copy_from_slice(&p);
        assert!(G1Affine::from_uncompressed_unchecked(&bytes).is_none());
        bytes[at..at + 48].copy_from_slice(&below);
        let point = G1Affine::from_uncompressed_unchecked(&bytes).unwrap();
        assert_eq!(point.to_uncompressed(), &bytes[..]);
    }
    for at in [0usize, 48, 96, 144] {
        let mut bytes = vec![0u8; 192];
        bytes[at..at + 48].copy_from_slice(&p);
        assert!(G2Affine::from_uncompressed_unchecked(&bytes).is_none());
        bytes[at..at + 48].copy_from_slice(&below);
        let point = G2Affine::from_uncompressed_unchecked(&bytes).unwrap();
        assert_eq!(point.to_uncompressed(), &bytes[..]);
    }
}

#[test]
fn points_are_compared() {
    let a = G1Affine::from_uncompressed(&g1_generator()).unwrap();
    let b = G1Affine::from_uncompressed_unchecked(&g1_generator()).unwrap();
    let c = G1Affine::from_uncompressed(&infinity(96)).unwrap();
    assert!(a == b);
    assert!(a != c);
    assert!(a.same(&b));
    assert!(!a.same(&c));
    let a = G2Affine::from_uncompressed(&g2_generator()).unwrap();
    let c = G2Affine::from_uncompressed(&infinity(192)).unwrap();
    assert!(a == a.clone());
    assert!(a != c);
}

#[test]
fn decoding_gives_the_errors_of_reading() {
    assert_eq!(
        decode_point::<G1Affine>(&g1_small_order(), true),
        Err(ReadError::NotOnCurve)
    );
    assert!(decode_point::<G1Affine>(&g1_small_order(), false).is_ok());
    assert!(decode_point::<G1Affine>(&infinity(96), true).is_ok());
    assert_eq!(
        decode_finite_point::<G1Affine>(&infinity(96), true),
        Err(ReadError::PointAtInfinity)
    );
    assert_eq!(
        decode_finite_point::<G2Affine>(&infinity(192), false),
        Err(ReadError::PointAtInfinity)
    );
    let point = G1Affine::from_uncompressed(&g1_generator());
    assert_eq!(require_point(point), Ok(point.unwrap()));
    assert_eq!(
        require_point::<G1Affine>(None),
        Err(ReadError::NotOnCurve)
    );
    assert_eq!(require_finite(point.unwrap()), Ok(point.unwrap()));
    let zero = G1Affine::from_uncompressed(&infinity(96)).unwrap();
    assert_eq!(require_finite(zero), Err(ReadError::PointAtInfinity));
}
