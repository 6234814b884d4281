//! What holds of the points of the BLS12-381 groups, in terms of their bytes.

use vstd::prelude::*;

use crate::bls12::{
    be_value, field_value, g1_canonical, g1_in_subgroup, g1_on_curve, g2_canonical, g2_in_subgroup,
    g2_on_curve, infinity, Bls12, G1Affine, G2Affine,
};
use crate::engine::CurvePoint;
use crate::params::Parameters;
use crate::place_laws::read_keeps_only_accepted_points;
use crate::points::{decode_finite_point, decode_point, require_finite, require_point};
use crate::wire::ReadError;

verus! {

/// Digits to the base 256 are put together one by one.
proof fn lemma_be_value(bytes: Seq<u8>, step: spec_fn(int, u8) -> int)
    requires
        forall|v: int, d: u8| #[trigger] step(v, d) == v * 0x100 + d,
    ensures
        be_value(bytes) == bytes.fold_left(0, step),
    decreases bytes.len(),
{
    if bytes.len() > 0 {
        lemma_be_value(bytes.drop_last(), step);
    }
}

/// The point at infinity has one encoding of each size.
proof fn lemma_infinity(repr: Seq<u8>, size: nat)
    requires
        repr.len() == size,
        size > 0,
    ensures
        infinity(repr) <==> repr == seq![0x40u8] + Seq::new((size - 1) as nat, |i: int| 0u8),
{
    let only = seq![0x40u8] + Seq::new((size - 1) as nat, |i: int| 0u8);
    if infinity(repr) {
        assert(repr =~= only);
    }
    if repr == only {
        assert(forall|i: int| 1 <= i < size ==> only[i] == 0);
    }
}

/// A coordinate is the number that its bytes write to the base 256.
proof fn lemma_coordinate(repr: Seq<u8>, at: int, step: spec_fn(int, u8) -> int)
    requires
        forall|v: int, d: u8| #[trigger] step(v, d) == v * 0x100 + d,
    ensures
        field_value(repr, at) == repr.subrange(at, at + 48).fold_left(0, step),
{
    lemma_be_value(repr.subrange(at, at + 48), step);
}

/// The checked decoder of the first group accepts 96 bytes exactly where they
/// are the byte 0x40 and zeros, or two numbers `x` and `y` below the order of
/// the base field with `y^2 = x^3 + 4` in it that pass the test for the
/// subgroup. The unchecked decoder leaves out the equation and the test.
pub proof fn g1_decoders_accept_the_group(
    repr: &[u8],
    checked: Option<G1Affine>,
    unchecked: Option<G1Affine>,
)
    requires
        repr@.len() == 96,
        call_ensures(<G1Affine as CurvePoint>::from_uncompressed, (repr,), checked),
        call_ensures(<G1Affine as CurvePoint>::from_uncompressed_unchecked, (repr,), unchecked),
    ensures
        ({
            let order =
                0x1a0111ea397fe69a4b1ba7b6434bacd764774b84f38512bf6730d2a0f6b0f6241eabfffeb153ffffb9feffffffffaaabint;
            let step = |v: int, d: u8| v * 0x100 + d;
            let x = repr@.subrange(0, 48).fold_left(0, step);
            let y = repr@.subrange(48, 96).fold_left(0, step);
            let at_infinity = repr@ == seq![0x40u8] + Seq::new(95, |i: int| 0u8);
            &&& checked is Some <==> (at_infinity || (x < order && y < order && (y * y - (x * x * x
                + 4)) % order == 0 && g1_in_subgroup(repr@)))
            &&& unchecked is Some <==> (at_infinity || (x < order && y < order))
        }),
        checked matches Some(p) ==> p@ == repr@,
        unchecked matches Some(p) ==> p@ == repr@,
{
    let step = |v: int, d: u8| v * 0x100 + d;
    lemma_infinity(repr@, 96);
    lemma_coordinate(repr@, 0, step);
    lemma_coordinate(repr@, 48, step);
}

/// The checked decoder of the second group accepts 192 bytes exactly where they
/// are the byte 0x40 and zeros, or four numbers below the order of the base
/// field, `x1`, `x0`, `y1` and `y0`, such that `x = x0 + x1 u` and
/// `y = y0 + y1 u` satisfy `y^2 = x^3 + 4(u + 1)`, where `u^2 = -1`, that pass
/// the test for the subgroup. The unchecked decoder leaves out the equation and
/// the test.
pub proof fn g2_decoders_accept_the_group(
    repr: &[u8],
    checked: Option<G2Affine>,
    unchecked: Option<G2Affine>,
)
    requires
        repr@.len() == 192,
        call_ensures(<G2Affine as CurvePoint>::from_uncompressed, (repr,), checked),
        call_ensures(<G2Affine as CurvePoint>::from_uncompressed_unchecked, (repr,), unchecked),
    ensures
        ({
            let order =
                0x1a0111ea397fe69a4b1ba7b6434bacd764774b84f38512bf6730d2a0f6b0f6241eabfffeb153ffffb9feffffffffaaabint;
            let step = |v: int, d: u8| v * 0x100 + d;
            let x1 = repr@.subrange(0, 48).fold_left(0, step);
            let x0 = repr@.subrange(48, 96).fold_left(0, step);
            let y1 = repr@.subrange(96, 144).fold_left(0, step);
            let y0 = repr@.subrange(144, 192).fold_left(0, step);
            let reduced = x1 < order && x0 < order && y1 < order && y0 < order;
            let at_infinity = repr@ == seq![0x40u8] + Seq::new(191, |i: int| 0u8);
            &&& checked is Some <==> (at_infinity || (reduced && (y0 * y0 - y1 * y1 - (x0 * x0 * x0
                - 3 * x0 * x1 * x1 + 4)) % order == 0 && (2 * y0 * y1 - (3 * x0 * x0 * x1 - x1 * x1
                * x1 + 4)) % order == 0 && g2_in_subgroup(repr@)))
            &&& unchecked is Some <==> (at_infinity || reduced)
        }),
        checked matches Some(p) ==> p@ == repr@,
        unchecked matches Some(p) ==> p@ == repr@,
{
    let step = |v: int, d: u8| v * 0x100 + d;
    lemma_infinity(repr@, 192);
    lemma_coordinate(repr@, 0, step);
    lemma_coordinate(repr@, 48, step);
    lemma_coordinate(repr@, 96, step);
    lemma_coordinate(repr@, 144, step);
}

/// With the checks, the first group admits the canonical encodings of the point
/// at infinity and of the points of the curve that lie in the subgroup, and
/// nothing else. Without them it admits the canonical encodings. The canonical
/// encodings are those 96 bytes that are the byte 0x40 and zeros, or two
/// numbers below the order of the base field.
pub proof fn g1_admits_the_group(repr: Seq<u8>)
    ensures
        G1Affine::admits(repr, true) <==> (g1_canonical(repr) && (infinity(repr) || (g1_on_curve(
            repr,
        ) && g1_in_subgroup(repr)))),
        G1Affine::admits(repr, false) <==> g1_canonical(repr),
        ({
            let order =
                0x1a0111ea397fe69a4b1ba7b6434bacd764774b84f38512bf6730d2a0f6b0f6241eabfffeb153ffffb9feffffffffaaabint;
            let step = |v: int, d: u8| v * 0x100 + d;
            let x = repr.subrange(0, 48).fold_left(0, step);
            let y = repr.subrange(48, 96).fold_left(0, step);
            let at_infinity = repr == seq![0x40u8] + Seq::new(95, |i: int| 0u8);
            &&& G1Affine::admits(repr, true) <==> repr.len() == 96 && (at_infinity || (x < order
                && y < order && (y * y - (x * x * x + 4)) % order == 0 && g1_in_subgroup(repr)))
            &&& G1Affine::admits(repr, false) <==> repr.len() == 96 && (at_infinity || (x < order
                && y < order))
            &&& repr.len() == 96 ==> (G1Affine::at_infinity(repr) <==> at_infinity)
        }),
        G1Affine::size() == 96,
{
    let step = |v: int, d: u8| v * 0x100 + d;
    if repr.len() == 96 {
        lemma_infinity(repr, 96);
        lemma_coordinate(repr, 0, step);
        lemma_coordinate(repr, 48, step);
    }
}

/// With the checks, the second group admits the canonical encodings of the
/// point at infinity and of the points of the curve that lie in the subgroup,
/// and nothing else. Without them it admits the canonical encodings. The
/// canonical encodings are those 192 bytes that are the byte 0x40 and zeros, or
/// four numbers below the order of the base field.
pub proof fn g2_admits_the_group(repr: Seq<u8>)
    ensures
        G2Affine::admits(repr, true) <==> (g2_canonical(repr) && (infinity(repr) || (g2_on_curve(
            repr,
        ) && g2_in_subgroup(repr)))),
        G2Affine::admits(repr, false) <==> g2_canonical(repr),
        ({
            let order =
                0x1a0111ea397fe69a4b1ba7b6434bacd764774b84f38512bf6730d2a0f6b0f6241eabfffeb153ffffb9feffffffffaaabint;
            let step = |v: int, d: u8| v * 0x100 + d;
            let x1 = repr.subrange(0, 48).fold_left(0, step);
            let x0 = repr.subrange(48, 96).fold_left(0, step);
            let y1 = repr.subrange(96, 144).fold_left(0, step);
            let y0 = repr.subrange(144, 192).fold_left(0, step);
            let reduced = x1 < order && x0 < order && y1 < order && y0 < order;
            let at_infinity = repr == seq![0x40u8] + Seq::new(191, |i: int| 0u8);
            &&& G2Affine::admits(repr, true) <==> repr.len() == 192 && (at_infinity || (reduced && (
            y0 * y0 - y1 * y1 - (x0 * x0 * x0 - 3 * x0 * x1 * x1 + 4)) % order == 0 && (2 * y0 * y1
                - (3 * x0 * x0 * x1 - x1 * x1 * x1 + 4)) % order == 0 && g2_in_subgroup(repr)))
            &&& G2Affine::admits(repr, false) <==> repr.len() == 192 && (at_infinity || reduced)
            &&& repr.len() == 192 ==> (G2Affine::at_infinity(repr) <==> at_infinity)
        }),
        G2Affine::size() == 192,
{
    let step = |v: int, d: u8| v * 0x100 + d;
    if repr.len() == 192 {
        lemma_infinity(repr, 192);
        lemma_coordinate(repr, 0, step);
        lemma_coordinate(repr, 48, step);
        lemma_coordinate(repr, 96, step);
        lemma_coordinate(repr, 144, step);
    }
}

/// A point of the first group is the point at infinity exactly where its 96
/// bytes are the byte 0x40 and zeros.
pub proof fn g1_identity_shows_in_the_bytes(
    point: &G1Affine,
    size: usize,
    repr: &[u8],
    identity: bool,
)
    requires
        call_ensures(<G1Affine as CurvePoint>::uncompressed_size, (), size),
        call_ensures(<G1Affine as CurvePoint>::to_uncompressed, (point,), repr),
        call_ensures(<G1Affine as CurvePoint>::is_identity, (point,), identity),
    ensures
        size == 96,
        repr@.len() == 96,
        identity <==> repr@ == seq![0x40u8] + Seq::new(95, |i: int| 0u8),
{
    lemma_infinity(repr@, 96);
}

/// A point of the second group is the point at infinity exactly where its 192
/// bytes are the byte 0x40 and zeros.
pub proof fn g2_identity_shows_in_the_bytes(
    point: &G2Affine,
    size: usize,
    repr: &[u8],
    identity: bool,
)
    requires
        call_ensures(<G2Affine as CurvePoint>::uncompressed_size, (), size),
        call_ensures(<G2Affine as CurvePoint>::to_uncompressed, (point,), repr),
        call_ensures(<G2Affine as CurvePoint>::is_identity, (point,), identity),
    ensures
        size == 192,
        repr@.len() == 192,
        identity <==> repr@ == seq![0x40u8] + Seq::new(191, |i: int| 0u8),
{
    lemma_infinity(repr@, 192);
}

/// A decoded point is encoded as the bytes that it was decoded from.
pub proof fn encoding_undoes_decoding<P: CurvePoint>(repr: &[u8], point: P, back: &[u8])
    requires
        call_ensures(P::from_uncompressed, (repr,), Some(point)) || call_ensures(
            P::from_uncompressed_unchecked,
            (repr,),
            Some(point),
        ),
        call_ensures(P::to_uncompressed, (&point,), back),
    ensures
        back@ == repr@,
        back@.len() == P::size(),
{
}

/// Two points are the same exactly where they are encoded as the same bytes.
pub proof fn points_are_their_encodings<P: CurvePoint>(
    left: &P,
    left_repr: &[u8],
    right: &P,
    right_repr: &[u8],
    same: bool,
)
    requires
        call_ensures(P::to_uncompressed, (left,), left_repr),
        call_ensures(P::to_uncompressed, (right,), right_repr),
        call_ensures(P::same, (left, right), same),
    ensures
        same <==> left_repr@ == right_repr@,
        left_repr@ == left@,
        right_repr@ == right@,
{
}

/// Points of the first group are equal exactly where they are encoded as the
/// same bytes.
pub proof fn g1_equality_is_that_of_the_bytes(
    left: &G1Affine,
    left_repr: &[u8],
    right: &G1Affine,
    right_repr: &[u8],
    equal: bool,
)
    requires
        call_ensures(<G1Affine as CurvePoint>::to_uncompressed, (left,), left_repr),
        call_ensures(<G1Affine as CurvePoint>::to_uncompressed, (right,), right_repr),
        call_ensures(<G1Affine as PartialEq>::eq, (left, right), equal),
    ensures
        equal <==> left_repr@ == right_repr@,
{
}

/// Points of the second group are equal exactly where they are encoded as the
/// same bytes.
pub proof fn g2_equality_is_that_of_the_bytes(
    left: &G2Affine,
    left_repr: &[u8],
    right: &G2Affine,
    right_repr: &[u8],
    equal: bool,
)
    requires
        call_ensures(<G2Affine as CurvePoint>::to_uncompressed, (left,), left_repr),
        call_ensures(<G2Affine as CurvePoint>::to_uncompressed, (right,), right_repr),
        call_ensures(<G2Affine as PartialEq>::eq, (left, right), equal),
    ensures
        equal <==> left_repr@ == right_repr@,
{
}

/// Decoding tells why: bytes that the decoder does not accept are not on the
/// curve, and in the place of a finite point the point at infinity is refused as
/// such. Otherwise the point is the one whose bytes these are.
pub proof fn decoding_tells_why<P: CurvePoint>(
    repr: &[u8],
    checked: bool,
    decoded: Option<P>,
    point: Result<P, ReadError>,
    finite: Result<P, ReadError>,
)
    requires
        repr@.len() == P::size(),
        checked ==> call_ensures(P::from_uncompressed, (repr,), decoded),
        !checked ==> call_ensures(P::from_uncompressed_unchecked, (repr,), decoded),
        call_ensures(decode_point::<P>, (repr, checked), point),
        call_ensures(decode_finite_point::<P>, (repr, checked), finite),
    ensures
        match decoded {
            None => point == Err::<P, ReadError>(ReadError::NotOnCurve) && finite == Err::<
                P,
                ReadError,
            >(ReadError::NotOnCurve),
            Some(p) => {
                &&& p@ == repr@
                &&& point matches Ok(q) && q@ == repr@
                &&& if P::at_infinity(repr@) {
                    finite == Err::<P, ReadError>(ReadError::PointAtInfinity)
                } else {
                    finite matches Ok(q) && q@ == repr@
                }
            },
        },
{
    assert(repr@.take(P::size() as int) =~= repr@);
}

/// What a decoder gave is passed on as it is, or as an error, and so is a point,
/// unless it is the point at infinity.
pub proof fn requirements_pass_points_on<P: CurvePoint>(
    decoded: Option<P>,
    required: Result<P, ReadError>,
    point: P,
    identity: bool,
    finite: Result<P, ReadError>,
)
    requires
        call_ensures(require_point::<P>, (decoded,), required),
        call_ensures(P::is_identity, (&point,), identity),
        call_ensures(require_finite::<P>, (point,), finite),
    ensures
        decoded matches Some(p) ==> required == Ok::<P, ReadError>(p),
        decoded is None ==> required == Err::<P, ReadError>(ReadError::NotOnCurve),
        identity ==> finite == Err::<P, ReadError>(ReadError::PointAtInfinity),
        !identity ==> finite == Ok::<P, ReadError>(point),
{
}

/// With the checks, reading keeps only elements of the groups: every point of the
/// lists `ic`, `h`, `l`, `a` and `b_g1` is a pair of coordinates below the order of
/// the base field on the curve `y^2 = x^3 + 4`, and every point of `b_g2` one on
/// the curve `y^2 = x^3 + 4(u + 1)`, and each passes the test for the subgroup of
/// its group.
pub proof fn checked_read_keeps_elements_of_the_groups(
    bytes: &[u8],
    result: Result<(Parameters<Bls12>, usize), ReadError>,
)
    requires
        call_ensures(Parameters::<Bls12>::read, (bytes, true), result),
    ensures
        result matches Ok((p, used)) ==> ({
            let order =
                0x1a0111ea397fe69a4b1ba7b6434bacd764774b84f38512bf6730d2a0f6b0f6241eabfffeb153ffffb9feffffffffaaabint;
            let step = |v: int, d: u8| v * 0x100 + d;
            let g1 = |repr: Seq<u8>|
                {
                    let x = repr.subrange(0, 48).fold_left(0, step);
                    let y = repr.subrange(48, 96).fold_left(0, step);
                    repr.len() == 96 && x < order && y < order && (y * y - (x * x * x + 4)) % order
                        == 0 && g1_in_subgroup(repr)
                };
            let g2 = |repr: Seq<u8>|
                {
                    let x1 = repr.subrange(0, 48).fold_left(0, step);
                    let x0 = repr.subrange(48, 96).fold_left(0, step);
                    let y1 = repr.subrange(96, 144).fold_left(0, step);
                    let y0 = repr.subrange(144, 192).fold_left(0, step);
                    repr.len() == 192 && x1 < order && x0 < order && y1 < order && y0 < order && (y0
                        * y0 - y1 * y1 - (x0 * x0 * x0 - 3 * x0 * x1 * x1 + 4)) % order == 0 && (2
                        * y0 * y1 - (3 * x0 * x0 * x1 - x1 * x1 * x1 + 4)) % order == 0
                        && g2_in_subgroup(repr)
                };
            &&& forall|i: int| 0 <= i < p.vk.ic@.len() ==> g1((#[trigger] p.vk.ic@[i])@)
            &&& forall|i: int| 0 <= i < p.h@.len() ==> g1((#[trigger] p.h@[i])@)
            &&& forall|i: int| 0 <= i < p.l@.len() ==> g1((#[trigger] p.l@[i])@)
            &&& forall|i: int| 0 <= i < p.a@.len() ==> g1((#[trigger] p.a@[i])@)
            &&& forall|i: int| 0 <= i < p.b_g1@.len() ==> g1((#[trigger] p.b_g1@[i])@)
            &&& forall|i: int| 0 <= i < p.b_g2@.len() ==> g2((#[trigger] p.b_g2@[i])@)
        }),
{
    if let Ok((p, used)) = result {
        read_keeps_only_accepted_points::<Bls12>(bytes, true, result);
        assert forall|i: int| 0 <= i < p.vk.ic@.len() implies g1_finite(
            (#[trigger] p.vk.ic@[i])@,
        ) by {
            g1_admits_the_group(p.vk.ic@[i]@);
        }
        assert forall|i: int| 0 <= i < p.h@.len() implies g1_finite((#[trigger] p.h@[i])@) by {
            g1_admits_the_group(p.h@[i]@);
        }
        assert forall|i: int| 0 <= i < p.l@.len() implies g1_finite((#[trigger] p.l@[i])@) by {
            g1_admits_the_group(p.l@[i]@);
        }
        assert forall|i: int| 0 <= i < p.a@.len() implies g1_finite((#[trigger] p.a@[i])@) by {
            g1_admits_the_group(p.a@[i]@);
        }
        assert forall|i: int| 0 <= i < p.b_g1@.len() implies g1_finite(
            (#[trigger] p.b_g1@[i])@,
        ) by {
            g1_admits_the_group(p.b_g1@[i]@);
        }
        assert forall|i: int| 0 <= i < p.b_g2@.len() implies g2_finite(
            (#[trigger] p.b_g2@[i])@,
        ) by {
            g2_admits_the_group(p.b_g2@[i]@);
        }
    }
}

/// Whether the bytes encode a point of the first group other than the point at
/// infinity.
spec fn g1_finite(repr: Seq<u8>) -> bool {
    let order =
        0x1a0111ea397fe69a4b1ba7b6434bacd764774b84f38512bf6730d2a0f6b0f6241eabfffeb153ffffb9feffffffffaaabint;
    let step = |v: int, d: u8| v * 0x100 + d;
    let x = repr.subrange(0, 48).fold_left(0, step);
    let y = repr.subrange(48, 96).fold_left(0, step);
    repr.len() == 96 && x < order && y < order && (y * y - (x * x * x + 4)) % order == 0
        && g1_in_subgroup(repr)
}

/// Whether the bytes encode a point of the second group other than the point at
/// infinity.
spec fn g2_finite(repr: Seq<u8>) -> bool {
    let order =
        0x1a0111ea397fe69a4b1ba7b6434bacd764774b84f38512bf6730d2a0f6b0f6241eabfffeb153ffffb9feffffffffaaabint;
    let step = |v: int, d: u8| v * 0x100 + d;
    let x1 = repr.subrange(0, 48).fold_left(0, step);
    let x0 = repr.subrange(48, 96).fold_left(0, step);
    let y1 = repr.subrange(96, 144).fold_left(0, step);
    let y0 = repr.subrange(144, 192).fold_left(0, step);
    repr.len() == 192 && x1 < order && x0 < order && y1 < order && y0 < order && (y0 * y0 - y1 * y1
        - (x0 * x0 * x0 - 3 * x0 * x1 * x1 + 4)) % order == 0 && (2 * y0 * y1 - (3 * x0 * x0 * x1
        - x1 * x1 * x1 + 4)) % order == 0 && g2_in_subgroup(repr)
}

} // verus!
