use std::sync::Arc;

use groth16_params::bls12::{Bls12, G1Affine, G2Affine};
use groth16_params::engine::CurvePoint;
use groth16_params::mapped::MappedParameters;
use groth16_params::params::{ParameterSource, Parameters};
use groth16_params::reader::ParametersReader;
use groth16_params::verifying_key::VerifyingKey;
use groth16_params::wire::ReadError;
use groth16_params::writer::ParametersWriter;

/// The `n`-th multiple of the generator of the first group.
fn g1_bytes(n: u64) -> Vec<u8> {
    let p = bls12_381::G1Affine::generator() * bls12_381::Scalar::from(n);
    bls12_381::G1Affine::from(p).to_uncompressed().to_vec()
}

/// The `n`-th multiple of the generator of the second group.
fn g2_bytes(n: u64) -> Vec<u8> {
    let p = bls12_381::G2Affine::generator() * bls12_381::Scalar::from(n);
    bls12_381::G2Affine::from(p).to_uncompressed().to_vec()
}

fn g1(n: u64) -> G1Affine {
    G1Affine::from_uncompressed(&g1_bytes(n)).unwrap()
}

fn g2(n: u64) -> G2Affine {
    G2Affine::from_uncompressed(&g2_bytes(n)).unwrap()
}

fn infinity(size: usize) -> Vec<u8> {
    let mut bytes = vec![0u8; size];
    bytes[0] = 0x40;
    bytes
}

/// `(0, 2)`: on the curve, and of order three.
fn g1_small_order() -> Vec<u8> {
    let mut bytes = vec![0u8; 96];
    bytes[95] = 2;
    bytes
}

fn key() -> VerifyingKey<Bls12> {
    VerifyingKey {
        alpha_g1: g1(1),
        beta_g1: g1(2),
        beta_g2: g2(2),
        gamma_g2: g2(3),
        delta_g1: g1(4),
        delta_g2: g2(4),
        ic: vec![g1(5), g1(6)],
    }
}

fn params() -> Parameters<Bls12> {
    Parameters {
        vk: key(),
        h: Arc::new(vec![g1(7), g1(8), g1(9)]),
        l: Arc::new(vec![g1(10)]),
        a: Arc::new(vec![]),
        b_g1: Arc::new(vec![g1(11), g1(12)]),
        b_g2: Arc::new(vec![g2(13), g2(14)]),
    }
}

/// The offsets of the parts of the bytes of `params()`.
const IC: usize = 3 * 96 + 3 * 192;
const H: usize = IC + 4 + 2 * 96;
const L: usize = H + 4 + 3 * 96;
const A: usize = L + 4 + 96;
const B_G1: usize = A + 4;
const B_G2: usize = B_G1 + 4 + 2 * 96;
const END: usize = B_G2 + 4 + 2 * 192;

fn key_bytes() -> Vec<u8> {
    let mut bytes = Vec::new();
    bytes.extend(g1_bytes(1));
    bytes.extend(g1_bytes(2));
    bytes.extend(g2_bytes(2));
    bytes.extend(g2_bytes(3));
    bytes.extend(g1_bytes(4));
    bytes.extend(g2_bytes(4));
    bytes.extend([0, 0, 0, 2]);
    bytes.extend(g1_bytes(5));
    bytes.extend(g1_bytes(6));
    bytes
}

fn bytes() -> Vec<u8> {
    let mut bytes = key_bytes();
    bytes.extend([0, 0, 0, 3]);
    bytes.extend(g1_bytes(7));
    bytes.extend(g1_bytes(8));
    bytes.extend(g1_bytes(9));
    bytes.extend([0, 0, 0, 1]);
    bytes.extend(g1_bytes(10));
    bytes.extend([0, 0, 0, 0]);
    bytes.extend([0, 0, 0, 2]);
    bytes.extend(g1_bytes(11));
    bytes.extend(g1_bytes(12));
    bytes.extend([0, 0, 0, 2]);
    bytes.extend(g2_bytes(13));
    bytes.extend(g2_bytes(14));
    bytes
}

fn put(bytes: &mut [u8], at: usize, piece: &[u8]) {
    bytes[at..at + piece.len()].copy_from_slice(piece);
}

fn written(params: &Parameters<Bls12>) -> Vec<u8> {
    let mut writer = Vec::new();
    params.write(&mut writer);
    writer
}

fn error_of(bytes: &[u8], checked: bool) -> Option<ReadError> {
    Parameters::<Bls12>::read(bytes, checked).err()
}

#[test]
fn parts_lie_where_expected() {
    assert_eq!(bytes().len(), END);
    assert_eq!(key_bytes().len(), H);
}

#[test]
fn write_gives_the_bytes() {
    assert_eq!(written(&params()), bytes());
    let mut writer = vec![1, 2, 3];
    key().write(&mut writer);
    assert_eq!(writer[..3], [1, 2, 3]);
    assert_eq!(writer[3..], key_bytes()[..]);
}

#[test]
fn lengths_are_big_endian_words() {
    let mut p = params();
    p.a = Arc::new(vec![g1(3); 258]);
    let w = written(&p);
    assert_eq!(w[A..A + 4], [0, 0, 1, 2]);
    assert_eq!(w.len(), END + 258 * 96);
    let (q, used) = Parameters::<Bls12>::read(&w, false).unwrap();
    assert!(q == p);
    assert_eq!(used, w.len());
}

#[test]
fn read_gives_back_what_was_written() {
    for checked in [true, false] {
        let (p, used) = Parameters::<Bls12>::read(&bytes(), checked).unwrap();
        assert!(p == params());
        assert_eq!(used, END);
        assert_eq!(written(&p), bytes());
    }
}

#[test]
fn later_bytes_do_not_matter() {
    let mut b = bytes();
    b.extend([9, 9, 9]);
    let (p, used) = Parameters::<Bls12>::read(&b, true).unwrap();
    assert!(p == params());
    assert_eq!(used, END);
    let mut b = bytes();
    put(&mut b, H + 4, &infinity(96));
    b.truncate(H + 4 + 96);
    assert_eq!(error_of(&b, true), Some(ReadError::PointAtInfinity));
    b.extend([7; 500]);
    assert_eq!(error_of(&b, true), Some(ReadError::PointAtInfinity));
}

#[test]
fn cut_short_is_noticed() {
    for len in [0, 1, 95, 96, IC - 1, IC, IC + 3, IC + 4, H, H + 3, H + 4, L, A + 3, B_G2, END - 1] {
        assert_eq!(
            error_of(&bytes()[..len], true),
            Some(ReadError::UnexpectedEof)
        );
        assert_eq!(
            Parameters::<Bls12>::read_mmap(&bytes()[..len], true).err(),
            Some(ReadError::UnexpectedEof)
        );
    }
}

#[test]
fn points_at_infinity_in_lists_are_refused() {
    for at in [IC + 4, H + 4 + 96, L + 4, B_G1 + 4] {
        let mut b = bytes();
        put(&mut b, at, &infinity(96));
        assert_eq!(error_of(&b, true), Some(ReadError::PointAtInfinity));
        assert_eq!(error_of(&b, false), Some(ReadError::PointAtInfinity));
    }
    let mut b = bytes();
    put(&mut b, B_G2 + 4 + 192, &infinity(192));
    assert_eq!(error_of(&b, true), Some(ReadError::PointAtInfinity));
    assert_eq!(error_of(&b, false), Some(ReadError::PointAtInfinity));
}

#[test]
fn points_outside_the_group_are_refused_when_checked() {
    for at in [H + 4, L + 4, B_G1 + 4 + 96] {
        let mut b = bytes();
        put(&mut b, at, &g1_small_order());
        assert_eq!(error_of(&b, true), Some(ReadError::NotOnCurve));
        let (p, used) = Parameters::<Bls12>::read(&b, false).unwrap();
        assert!(p != params());
        assert_eq!(used, END);
        assert_eq!(written(&p), b);
    }
}

#[test]
fn the_key_is_always_checked() {
    for at in [0, 96, 2 * 96 + 2 * 192, IC + 4] {
        let mut b = bytes();
        put(&mut b, at, &g1_small_order());
        assert_eq!(error_of(&b, true), Some(ReadError::NotOnCurve));
        assert_eq!(error_of(&b, false), Some(ReadError::NotOnCurve));
    }
    let mut b = bytes();
    b[0] |= 0x80;
    assert_eq!(error_of(&b, false), Some(ReadError::NotOnCurve));
}

#[test]
fn bytes_that_encode_no_point_are_refused() {
    let mut b = bytes();
    b[B_G2 + 4] |= 0x20;
    assert_eq!(error_of(&b, true), Some(ReadError::NotOnCurve));
    assert_eq!(error_of(&b, false), Some(ReadError::NotOnCurve));
}

#[test]
fn checks_only_reject() {
    let mut b = bytes();
    let with = Parameters::<Bls12>::read(&b, true).unwrap();
    let without = Parameters::<Bls12>::read(&b, false).unwrap();
    assert!(with.0 == without.0);
    assert_eq!(with.1, without.1);
    put(&mut b, L + 4, &g1_small_order());
    assert!(Parameters::<Bls12>::read(&b, true).is_err());
    assert!(Parameters::<Bls12>::read(&b, false).is_ok());
}

#[test]
fn bytes_determine_parameters() {
    assert_eq!(written(&params()), written(&params()));
    let mut p = params();
    p.a = Arc::new(vec![g1(10)]);
    p.l = Arc::new(vec![]);
    assert!(p != params());
    assert!(written(&p) != written(&params()));
    assert_eq!(written(&p).len(), written(&params()).len());
}

#[test]
fn no_encoding_begins_another() {
    let mut p = params();
    p.b_g2 = Arc::new(vec![g2(13)]);
    let (w, b) = (written(&p), bytes());
    assert_eq!(w[..B_G2], b[..B_G2]);
    assert!(!b.starts_with(&w));
    assert!(!w.starts_with(&b));
    let mut q = params();
    q.vk.ic.push(G1Affine::from_uncompressed(&infinity(96)).unwrap());
    let v = written(&q);
    assert_eq!(v[..IC], b[..IC]);
    assert!(!v.starts_with(&b));
    assert!(!b.starts_with(&v));
}

#[test]
fn writer_hands_out_piece_by_piece() {
    let p = params();
    let mut writer = ParametersWriter::new(&p);
    let mut sizes = Vec::new();
    let mut all = Vec::new();
    while let Some(piece) = writer.next_piece() {
        sizes.push(piece.len());
        all.extend(piece);
    }
    assert!(writer.next_piece().is_none());
    assert_eq!(all, bytes());
    assert_eq!(
        sizes,
        vec![H, 4, 96, 96, 96, 4, 96, 4, 4, 96, 96, 4, 192, 192]
    );
}

#[test]
fn mapping_finds_points_at_infinity() {
    let mut p = params();
    p.h = Arc::new(vec![
        g1(7),
        G1Affine::from_uncompressed(&infinity(96)).unwrap(),
    ]);
    p.b_g2 = Arc::new(vec![G2Affine::from_uncompressed(&infinity(192)).unwrap()]);
    let w = written(&p);
    assert_eq!(error_of(&w, true), Some(ReadError::PointAtInfinity));
    let mapped = Parameters::<Bls12>::build_mapped_parameters(&w, true)
        .ok()
        .unwrap();
    assert!(mapped.vk == key());
    assert_eq!(mapped.h.len(), 2);
    assert_eq!(w[mapped.h[0].clone()], g1_bytes(7)[..]);
    assert_eq!(w[mapped.h[1].clone()], infinity(96)[..]);
    assert_eq!(w[mapped.b_g2[0].clone()], infinity(192)[..]);
    assert_eq!(mapped.b_g2[0].end, w.len());
}

#[test]
fn infinity_in_the_key_is_read_back() {
    let mut p = params();
    p.vk.alpha_g1 = G1Affine::from_uncompressed(&infinity(96)).unwrap();
    p.vk.delta_g2 = G2Affine::from_uncompressed(&infinity(192)).unwrap();
    let (q, used) = Parameters::<Bls12>::read(&written(&p), true).unwrap();
    assert!(q == p);
    assert_eq!(used, END);
}

#[test]
fn mapped_read_is_the_read() {
    for checked in [true, false] {
        let p = Parameters::<Bls12>::read_mmap(&bytes(), checked).ok().unwrap();
        assert!(p == params());
        let mut b = bytes();
        put(&mut b, L + 4, &infinity(96));
        assert_eq!(
            Parameters::<Bls12>::read_mmap(&b, checked).err(),
            Some(ReadError::PointAtInfinity)
        );
    }
    let mut b = bytes();
    put(&mut b, L + 4, &g1_small_order());
    assert_eq!(
        Parameters::<Bls12>::read_mmap(&b, true).err(),
        Some(ReadError::NotOnCurve)
    );
    let p = Parameters::<Bls12>::read_mmap(&b, false).ok().unwrap();
    assert_eq!(written(&p), b);
}

#[test]
fn reader_takes_piece_by_piece() {
    let b = bytes();
    let mut reader = ParametersReader::<Bls12>::new(true);
    let mut sizes = Vec::new();
    let mut at = 0;
    while reader.needed() > 0 {
        let n = reader.needed();
        sizes.push(n);
        assert!(reader.feed(&b[at..at + n]).is_ok());
        at += n;
    }
    assert_eq!(at, END);
    assert_eq!(
        sizes,
        vec![96, 96, 192, 192, 96, 192, 4, 96, 96, 4, 96, 96, 96, 4, 96, 4, 4, 96, 96, 4, 192, 192]
    );
    assert!(reader.finish() == params());
}

#[test]
fn reader_refuses_a_point_at_once() {
    let mut reader = ParametersReader::<Bls12>::new(false);
    assert_eq!(
        reader.feed(&g1_small_order()),
        Err(ReadError::NotOnCurve)
    );
    let b = bytes();
    let mut reader = ParametersReader::<Bls12>::new(true);
    let mut at = 0;
    while at < H + 4 {
        let n = reader.needed();
        reader.feed(&b[at..at + n]).unwrap();
        at += n;
    }
    assert_eq!(
        reader.feed(&infinity(96)),
        Err(ReadError::PointAtInfinity)
    );
}

fn ranges(mapped: &MappedParameters<Bls12>) -> Vec<Vec<(usize, usize)>> {
    [&mapped.h, &mapped.l, &mapped.a, &mapped.b_g1, &mapped.b_g2]
        .iter()
        .map(|list| list.iter().map(|r| (r.start, r.end)).collect())
        .collect()
}

#[test]
fn mapping_records_where_points_lie() {
    let b = bytes();
    for checked in [true, false] {
        let mapped = Parameters::<Bls12>::build_mapped_parameters(&b, checked)
            .ok()
            .unwrap();
        assert!(mapped.vk == key());
        assert_eq!(mapped.checked, checked);
        assert_eq!(
            ranges(&mapped),
            vec![
                vec![(H + 4, H + 100), (H + 100, H + 196), (H + 196, H + 292)],
                vec![(L + 4, L + 100)],
                vec![],
                vec![(B_G1 + 4, B_G1 + 100), (B_G1 + 100, B_G1 + 196)],
                vec![(B_G2 + 4, B_G2 + 196), (B_G2 + 196, B_G2 + 388)],
            ]
        );
        let p = params();
        for (list, points) in [(&mapped.h, &p.h), (&mapped.l, &p.l), (&mapped.b_g1, &p.b_g1)] {
            for (range, point) in list.iter().zip(points.iter()) {
                assert_eq!(&b[range.clone()], point.to_uncompressed());
            }
        }
        for (range, point) in mapped.b_g2.iter().zip(p.b_g2.iter()) {
            assert_eq!(&b[range.clone()], point.to_uncompressed());
        }
    }
}

#[test]
fn mapping_does_not_look_at_points() {
    let mut b = bytes();
    put(&mut b, H + 4, &[0xff; 96]);
    b.truncate(B_G2 + 4);
    let mapped = Parameters::<Bls12>::build_mapped_parameters(&b, true)
        .ok()
        .unwrap();
    assert_eq!(
        ranges(&mapped)[4],
        vec![(B_G2 + 4, B_G2 + 196), (B_G2 + 196, B_G2 + 388)]
    );
}

#[test]
fn mapping_out_of_bounds_is_noticed() {
    for len in [0, IC, IC + 5, H, H + 3, H + 4, L, A + 3, B_G2 + 3] {
        assert!(
            Parameters::<Bls12>::try_build_mapped_parameters(&bytes()[..len], true).is_none()
        );
    }
    let mut b = bytes();
    put(&mut b, IC + 4, &infinity(96));
    assert_eq!(
        Parameters::<Bls12>::build_mapped_parameters(&b, true).err(),
        Some(ReadError::PointAtInfinity)
    );
    put(&mut b, 0, &g1_small_order());
    assert_eq!(
        Parameters::<Bls12>::try_build_mapped_parameters(&b, false).unwrap().err(),
        Some(ReadError::NotOnCurve)
    );
}

#[test]
fn parameters_are_compared_part_by_part() {
    assert!(params() == params());
    assert!(params().clone() == params());
    assert!(key().clone() == key());
    let mut p = params();
    p.vk.ic.pop();
    assert!(p != params());
    let mut p = params();
    p.vk.gamma_g2 = g2(1);
    assert!(p != params());
    let mut p = params();
    p.h = Arc::new(vec![g1(7), g1(9), g1(8)]);
    assert!(p != params());
    let mut p = params();
    p.l = Arc::new(vec![]);
    assert!(p != params());
    let mut p = params();
    p.a = Arc::new(vec![g1(1)]);
    assert!(p != params());
    let mut p = params();
    p.b_g1 = Arc::new(vec![g1(11), g1(13)]);
    assert!(p != params());
    let mut p = params();
    p.b_g2 = Arc::new(vec![g2(13)]);
    assert!(p != params());
}

#[test]
fn parameters_are_a_source() {
    let p = params();
    let source = &p;
    assert!(*source.get_vk(17).unwrap() == key());
    let (h, start) = source.get_h(17).unwrap();
    assert!(Arc::ptr_eq(&h, &p.h));
    assert_eq!(start, 0);
    let (l, start) = source.get_l(17).unwrap();
    assert!(Arc::ptr_eq(&l, &p.l));
    assert_eq!(start, 0);
    let ((inputs, start), (aux, skipped)) = source.get_a(3, 5).unwrap();
    assert!(Arc::ptr_eq(&inputs, &p.a) && Arc::ptr_eq(&aux, &p.a));
    assert_eq!((start, skipped), (0, 3));
    let ((inputs, start), (aux, skipped)) = source.get_b_g1(1, 5).unwrap();
    assert!(Arc::ptr_eq(&inputs, &p.b_g1) && Arc::ptr_eq(&aux, &p.b_g1));
    assert_eq!((start, skipped), (0, 1));
    let ((inputs, start), (aux, skipped)) = source.get_b_g2(2, 5).unwrap();
    assert!(Arc::ptr_eq(&inputs, &p.b_g2) && Arc::ptr_eq(&aux, &p.b_g2));
    assert_eq!((start, skipped), (0, 2));
}
