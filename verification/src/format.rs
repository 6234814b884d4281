//! The binary format of the parameters: what a sequence of bytes stands for.
//!
//! Each of the functions below reads from the front of the bytes. It gives what
//! was read and how many bytes were used, or the first error.

use vstd::prelude::*;

use crate::engine::{CurvePoint, Engine};
use crate::wire::{be32, count_word, ReadError};

verus! {

/// What a verifying key holds, each point by its encoding.
#[verifier::ext_equal]
pub struct KeyView {
    pub alpha_g1: Seq<u8>,
    pub beta_g1: Seq<u8>,
    pub beta_g2: Seq<u8>,
    pub gamma_g2: Seq<u8>,
    pub delta_g1: Seq<u8>,
    pub delta_g2: Seq<u8>,
    pub ic: Seq<Seq<u8>>,
}

/// What a set of parameters holds, each point by its encoding.
#[verifier::ext_equal]
pub struct ParametersView {
    pub vk: KeyView,
    pub h: Seq<Seq<u8>>,
    pub l: Seq<Seq<u8>>,
    pub a: Seq<Seq<u8>>,
    pub b_g1: Seq<Seq<u8>>,
    pub b_g2: Seq<Seq<u8>>,
}

/// The same outcome after `by` more bytes were used.
pub open spec fn advance<T>(parsed: Result<(T, nat), ReadError>, by: nat) -> Result<
    (T, nat),
    ReadError,
> {
    match parsed {
        Ok((value, used)) => Ok((value, used + by)),
        Err(e) => Err(e),
    }
}

/// A point. It uses `P::size()` bytes.
pub open spec fn point<P: CurvePoint>(bytes: Seq<u8>, checked: bool) -> Result<
    Seq<u8>,
    ReadError,
> {
    if bytes.len() < P::size() {
        Err(ReadError::UnexpectedEof)
    } else if !P::admits(bytes.take(P::size() as int), checked) {
        Err(ReadError::NotOnCurve)
    } else {
        Ok(bytes.take(P::size() as int))
    }
}

/// A point other than the point at infinity. It uses `P::size()` bytes.
pub open spec fn finite_point<P: CurvePoint>(bytes: Seq<u8>, checked: bool) -> Result<
    Seq<u8>,
    ReadError,
> {
    match point::<P>(bytes, checked) {
        Ok(repr) => if P::at_infinity(repr) {
            Err(ReadError::PointAtInfinity)
        } else {
            Ok(repr)
        },
        Err(e) => Err(e),
    }
}

/// The rest of a list of `count` finite points of which `got` were read before.
pub open spec fn points_from<P: CurvePoint>(
    got: Seq<Seq<u8>>,
    count: nat,
    bytes: Seq<u8>,
    checked: bool,
) -> Result<(Seq<Seq<u8>>, nat), ReadError>
    decreases count - got.len(),
{
    if got.len() >= count {
        Ok((got, 0))
    } else {
        match finite_point::<P>(bytes, checked) {
            Ok(repr) => advance(
                points_from::<P>(got.push(repr), count, bytes.skip(P::size() as int), checked),
                P::size(),
            ),
            Err(e) => Err(e),
        }
    }
}

/// A list of finite points behind a word that gives their number.
pub open spec fn section<P: CurvePoint>(bytes: Seq<u8>, checked: bool) -> Result<
    (Seq<Seq<u8>>, nat),
    ReadError,
> {
    if bytes.len() < 4 {
        Err(ReadError::UnexpectedEof)
    } else {
        advance(
            points_from::<P>(Seq::empty(), be32(bytes), bytes.skip(4), checked),
            4,
        )
    }
}

/// Which of the six leading points of a verifying key are in the first group.
pub open spec fn key_point_in_g1(i: int) -> bool {
    i == 0 || i == 1 || i == 4
}

/// The size of a leading point of a verifying key.
pub open spec fn key_point_size<E: Engine>(i: int) -> nat {
    if key_point_in_g1(i) {
        E::G1Affine::size()
    } else {
        E::G2Affine::size()
    }
}

/// A leading point of a verifying key. These are always checked.
pub open spec fn key_point<E: Engine>(i: int, bytes: Seq<u8>) -> Result<Seq<u8>, ReadError> {
    if key_point_in_g1(i) {
        point::<E::G1Affine>(bytes, true)
    } else {
        point::<E::G2Affine>(bytes, true)
    }
}

/// The rest of the six leading points of a verifying key, of which `got` were
/// read before.
pub open spec fn key_points_from<E: Engine>(got: Seq<Seq<u8>>, bytes: Seq<u8>) -> Result<
    (Seq<Seq<u8>>, nat),
    ReadError,
>
    decreases 6 - got.len(),
{
    if got.len() >= 6 {
        Ok((got, 0))
    } else {
        match key_point::<E>(got.len() as int, bytes) {
            Ok(repr) => advance(
                key_points_from::<E>(
                    got.push(repr),
                    bytes.skip(key_point_size::<E>(got.len() as int) as int),
                ),
                key_point_size::<E>(got.len() as int),
            ),
            Err(e) => Err(e),
        }
    }
}

/// The verifying key with these leading points and these input points.
pub open spec fn key_of(points: Seq<Seq<u8>>, ic: Seq<Seq<u8>>) -> KeyView {
    KeyView {
        alpha_g1: points[0],
        beta_g1: points[1],
        beta_g2: points[2],
        gamma_g2: points[3],
        delta_g1: points[4],
        delta_g2: points[5],
        ic,
    }
}

/// A verifying key: six points, then a list of points of the first group, all
/// of them checked.
pub open spec fn key<E: Engine>(bytes: Seq<u8>) -> Result<(KeyView, nat), ReadError> {
    match key_points_from::<E>(Seq::empty(), bytes) {
        Err(e) => Err(e),
        Ok((points, n0)) => match section::<E::G1Affine>(bytes.skip(n0 as int), true) {
            Err(e) => Err(e),
            Ok((ic, n1)) => Ok((key_of(points, ic), n0 + n1)),
        },
    }
}

/// A set of parameters: the verifying key, then the lists `h`, `l`, `a` and
/// `b_g1` of points of the first group and `b_g2` of points of the second.
pub open spec fn parameters<E: Engine>(bytes: Seq<u8>, checked: bool) -> Result<
    (ParametersView, nat),
    ReadError,
> {
    match key::<E>(bytes) {
        Err(e) => Err(e),
        Ok((vk, n0)) => advance(lists::<E>(vk, bytes.skip(n0 as int), checked), n0),
    }
}

/// The lists that follow the verifying key in a set of parameters.
pub open spec fn lists<E: Engine>(vk: KeyView, bytes: Seq<u8>, checked: bool) -> Result<
    (ParametersView, nat),
    ReadError,
> {
    match section::<E::G1Affine>(bytes, checked) {
        Err(e) => Err(e),
        Ok((h, n1)) => match section::<E::G1Affine>(bytes.skip(n1 as int), checked) {
            Err(e) => Err(e),
            Ok((l, n2)) => match section::<E::G1Affine>(bytes.skip((n1 + n2) as int), checked) {
                Err(e) => Err(e),
                Ok((a, n3)) => match section::<E::G1Affine>(
                    bytes.skip((n1 + n2 + n3) as int),
                    checked,
                ) {
                    Err(e) => Err(e),
                    Ok((b_g1, n4)) => match section::<E::G2Affine>(
                        bytes.skip((n1 + n2 + n3 + n4) as int),
                        checked,
                    ) {
                        Err(e) => Err(e),
                        Ok((b_g2, n5)) => Ok(
                            (ParametersView { vk, h, l, a, b_g1, b_g2 }, n1 + n2 + n3 + n4 + n5),
                        ),
                    },
                },
            },
        },
    }
}

/// The bytes of a list of points.
pub open spec fn section_bytes(points: Seq<Seq<u8>>) -> Seq<u8> {
    count_word(points.len()) + points.flatten()
}

/// The bytes of a verifying key.
pub open spec fn key_bytes(vk: KeyView) -> Seq<u8> {
    vk.alpha_g1 + vk.beta_g1 + vk.beta_g2 + vk.gamma_g2 + vk.delta_g1 + vk.delta_g2
        + section_bytes(vk.ic)
}

/// The bytes of a set of parameters.
pub open spec fn parameters_bytes(params: ParametersView) -> Seq<u8> {
    key_bytes(params.vk) + section_bytes(params.h) + section_bytes(params.l) + section_bytes(
        params.a,
    ) + section_bytes(params.b_g1) + section_bytes(params.b_g2)
}

/// Whether the bytes encode a finite point.
pub open spec fn good_point<P: CurvePoint>(repr: Seq<u8>, checked: bool) -> bool {
    P::admits(repr, checked) && !P::at_infinity(repr)
}

/// Whether every point of a list is accepted and finite.
pub open spec fn good_points<P: CurvePoint>(points: Seq<Seq<u8>>, checked: bool) -> bool {
    forall|i: int| 0 <= i < points.len() ==> good_point::<P>(#[trigger] points[i], checked)
}

/// Whether a list can be written and read back: its points are accepted and
/// finite, and its length fits in a word.
pub open spec fn good_list<P: CurvePoint>(points: Seq<Seq<u8>>, checked: bool) -> bool {
    good_points::<P>(points, checked) && points.len() <= u32::MAX
}

/// Whether a verifying key can be written and read back.
pub open spec fn good_key<E: Engine>(vk: KeyView) -> bool {
    &&& E::G1Affine::admits(vk.alpha_g1, true)
    &&& E::G1Affine::admits(vk.beta_g1, true)
    &&& E::G2Affine::admits(vk.beta_g2, true)
    &&& E::G2Affine::admits(vk.gamma_g2, true)
    &&& E::G1Affine::admits(vk.delta_g1, true)
    &&& E::G2Affine::admits(vk.delta_g2, true)
    &&& good_list::<E::G1Affine>(vk.ic, true)
}

/// Whether parameters can be written and read back.
pub open spec fn good_parameters<E: Engine>(params: ParametersView, checked: bool) -> bool {
    &&& good_key::<E>(params.vk)
    &&& good_list::<E::G1Affine>(params.h, checked)
    &&& good_list::<E::G1Affine>(params.l, checked)
    &&& good_list::<E::G1Affine>(params.a, checked)
    &&& good_list::<E::G1Affine>(params.b_g1, checked)
    &&& good_list::<E::G2Affine>(params.b_g2, checked)
}

/// Whether the points of a list have the size of encodings, and its length fits
/// in a word.
pub open spec fn sized_list<P: CurvePoint>(points: Seq<Seq<u8>>) -> bool {
    &&& points.len() <= u32::MAX
    &&& forall|i: int| 0 <= i < points.len() ==> (#[trigger] points[i]).len() == P::size()
}

/// Whether the points of a verifying key have the size of encodings, and the
/// length of its list fits in a word.
pub open spec fn sized_key<E: Engine>(vk: KeyView) -> bool {
    &&& vk.alpha_g1.len() == E::G1Affine::size()
    &&& vk.beta_g1.len() == E::G1Affine::size()
    &&& vk.beta_g2.len() == E::G2Affine::size()
    &&& vk.gamma_g2.len() == E::G2Affine::size()
    &&& vk.delta_g1.len() == E::G1Affine::size()
    &&& vk.delta_g2.len() == E::G2Affine::size()
    &&& sized_list::<E::G1Affine>(vk.ic)
}

/// Whether the lengths of the lists of the parameters fit in words.
pub open spec fn lengths_fit(params: ParametersView) -> bool {
    &&& params.h.len() <= u32::MAX
    &&& params.l.len() <= u32::MAX
    &&& params.a.len() <= u32::MAX
    &&& params.b_g1.len() <= u32::MAX
    &&& params.b_g2.len() <= u32::MAX
}

/// Whether the points of the lists of the parameters have the size of encodings,
/// and the lengths of the lists fit in words.
pub open spec fn sized_parameters<E: Engine>(params: ParametersView) -> bool {
    &&& sized_list::<E::G1Affine>(params.h)
    &&& sized_list::<E::G1Affine>(params.l)
    &&& sized_list::<E::G1Affine>(params.a)
    &&& sized_list::<E::G1Affine>(params.b_g1)
    &&& sized_list::<E::G2Affine>(params.b_g2)
}

} // verus!
