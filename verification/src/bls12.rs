//! The BLS12-381 engine.

use group::prime::PrimeCurveAffine;
use group::UncompressedEncoding;
use vstd::prelude::*;

use crate::engine::{CurvePoint, Engine};

verus! {

/// The order of the base field.
pub open spec fn field_modulus() -> int {
    0x1a0111ea397fe69a4b1ba7b6434bacd764774b84f38512bf6730d2a0f6b0f6241eabfffeb153ffffb9feffffffffaaabint
}

/// The value of the bytes, most significant byte first.
pub open spec fn be_value(bytes: Seq<u8>) -> int
    decreases bytes.len(),
{
    if bytes.len() == 0 {
        0
    } else {
        be_value(bytes.drop_last()) * 0x100 + bytes.last()
    }
}

/// The value of the 48 bytes from `at` on.
pub open spec fn field_value(repr: Seq<u8>, at: int) -> int {
    be_value(repr.subrange(at, at + 48))
}

/// Whether the 48 bytes from `at` on are a reduced element of the base field.
pub open spec fn coordinate(repr: Seq<u8>, at: int) -> bool {
    field_value(repr, at) < field_modulus()
}

/// Whether two numbers stand for the same element of the base field.
pub open spec fn congruent(a: int, b: int) -> bool {
    (a - b) % field_modulus() == 0
}

/// Whether the bytes are those of the point at infinity: the second bit is set
/// and no other.
pub open spec fn infinity(repr: Seq<u8>) -> bool {
    &&& repr[0] == 0x40
    &&& forall|i: int| 1 <= i < repr.len() ==> repr[i] == 0
}

/// The uncompressed encodings of pairs of coordinates for the first group: `x`,
/// then `y`, both big-endian. The three most significant bits of an encoding
/// are flags, of which only that of the point at infinity may be set; a reduced
/// coordinate leaves them clear.
pub open spec fn g1_canonical(repr: Seq<u8>) -> bool {
    &&& repr.len() == 96
    &&& infinity(repr) || (coordinate(repr, 0) && coordinate(repr, 48))
}

/// The uncompressed encodings of pairs of coordinates for the second group:
/// `x`, then `y`, and of each the coefficient of `u` first.
pub open spec fn g2_canonical(repr: Seq<u8>) -> bool {
    &&& repr.len() == 192
    &&& infinity(repr) || (coordinate(repr, 0) && coordinate(repr, 48) && coordinate(repr, 96)
        && coordinate(repr, 144))
}

/// Whether the coordinates that the bytes encode are those of a point of the
/// curve `y^2 = x^3 + 4`.
pub open spec fn g1_on_curve(repr: Seq<u8>) -> bool {
    let x = field_value(repr, 0);
    let y = field_value(repr, 48);
    congruent(y * y, x * x * x + 4)
}

/// Whether the coordinates that the bytes encode are those of a point of the
/// curve `y^2 = x^3 + 4(u + 1)`, where `u^2 = -1`. The real parts and the
/// coefficients of `u` are compared apart.
pub open spec fn g2_on_curve(repr: Seq<u8>) -> bool {
    let (x1, x0) = (field_value(repr, 0), field_value(repr, 48));
    let (y1, y0) = (field_value(repr, 96), field_value(repr, 144));
    &&& congruent(y0 * y0 - y1 * y1, x0 * x0 * x0 - 3 * x0 * x1 * x1 + 4)
    &&& congruent(2 * y0 * y1, 3 * x0 * x0 * x1 - x1 * x1 * x1 + 4)
}

/// Whether the point that the bytes encode passes the test of
/// `bls12_381::G1Affine` for the subgroup of prime order.
pub uninterp spec fn g1_in_subgroup(repr: Seq<u8>) -> bool;

/// Whether the point that the bytes encode passes the test of
/// `bls12_381::G2Affine` for the subgroup of prime order.
pub uninterp spec fn g2_in_subgroup(repr: Seq<u8>) -> bool;

/// The encodings of the elements of the first group: the point at infinity, and
/// the points of the curve that lie in the subgroup of prime order.
pub open spec fn g1_element(repr: Seq<u8>) -> bool {
    infinity(repr) || (g1_on_curve(repr) && g1_in_subgroup(repr))
}

/// The encodings of the elements of the second group: the point at infinity, and
/// the points of the curve that lie in the subgroup of prime order.
pub open spec fn g2_element(repr: Seq<u8>) -> bool {
    infinity(repr) || (g2_on_curve(repr) && g2_in_subgroup(repr))
}

/// Whether two slices hold the same bytes.
fn same_bytes(a: &[u8], b: &[u8]) -> (same: bool)
    ensures
        same == (a@ == b@),
{
    if a.len() != b.len() {
        return false;
    }
    let mut i: usize = 0;
    while i < a.len()
        invariant
            a@.len() == b@.len(),
            i <= a@.len(),
            forall|j: int| 0 <= j < i ==> a@[j] == b@[j],
        decreases a@.len() - i,
    {
        if a[i] != b[i] {
            return false;
        }
        i += 1;
    }
    assert(a@ =~= b@);
    true
}

/// Decodes with `group::UncompressedEncoding::from_uncompressed` of
/// `bls12_381::G1Affine`, and hands the point out as its
/// `to_uncompressed` bytes and its `is_identity` flag.
///
/// The decoder accepts a canonical encoding of the point at infinity, or of a
/// point that satisfies the equation of the curve and passes the test for the
/// subgroup. What it accepts encodes to the same bytes again, and is the point
/// at infinity where the bytes say so. Of the test for the subgroup only the
/// name is given.
#[verifier::external_body]
fn g1_from_uncompressed(repr: &[u8]) -> (point: Option<([u8; 96], bool)>)
    requires
        repr@.len() == 96,
    ensures
        point is Some <==> (g1_canonical(repr@) && (infinity(repr@) || (g1_on_curve(repr@)
            && g1_in_subgroup(repr@)))),
        point matches Some(p) ==> p.0@ == repr@ && p.1 == infinity(repr@),
{
    let mut bytes = <bls12_381::G1Affine as UncompressedEncoding>::Uncompressed::default();
    bytes.as_mut().copy_from_slice(repr);
    let decoded = <bls12_381::G1Affine as UncompressedEncoding>::from_uncompressed(&bytes);
    match Option::<bls12_381::G1Affine>::from(decoded) {
        Some(p) => Some((p.to_uncompressed(), PrimeCurveAffine::is_identity(&p).into())),
        None => None,
    }
}

/// Decodes with `group::UncompressedEncoding::from_uncompressed_unchecked` of
/// `bls12_381::G1Affine`, and hands the point out as its
/// `to_uncompressed` bytes and its `is_identity` flag.
///
/// The decoder accepts the canonical encodings. What it accepts encodes to the
/// same bytes again, and is the point at infinity where the bytes say so.
#[verifier::external_body]
fn g1_from_uncompressed_unchecked(repr: &[u8]) -> (point: Option<([u8; 96], bool)>)
    requires
        repr@.len() == 96,
    ensures
        point is Some <==> g1_canonical(repr@),
        point matches Some(p) ==> p.0@ == repr@ && p.1 == infinity(repr@),
{
    let mut bytes = <bls12_381::G1Affine as UncompressedEncoding>::Uncompressed::default();
    bytes.as_mut().copy_from_slice(repr);
    let decoded =
        <bls12_381::G1Affine as UncompressedEncoding>::from_uncompressed_unchecked(&bytes);
    match Option::<bls12_381::G1Affine>::from(decoded) {
        Some(p) => Some((p.to_uncompressed(), PrimeCurveAffine::is_identity(&p).into())),
        None => None,
    }
}

/// A point of the first group.
#[derive(Clone, Copy, Debug)]
pub struct G1Affine {
    repr: [u8; 96],
    identity: bool,
}

impl G1Affine {
    #[verifier::type_invariant]
    spec fn well_formed(self) -> bool {
        &&& g1_canonical(self.repr@)
        &&& self.identity == infinity(self.repr@)
    }
}

impl View for G1Affine {
    type V = Seq<u8>;

    closed spec fn view(&self) -> Seq<u8> {
        self.repr@
    }
}

impl CurvePoint for G1Affine {
    open spec fn size() -> nat {
        96
    }

    open spec fn admits(repr: Seq<u8>, checked: bool) -> bool {
        g1_canonical(repr) && (checked ==> g1_element(repr))
    }

    open spec fn at_infinity(repr: Seq<u8>) -> bool {
        infinity(repr)
    }

    proof fn size_is_positive() {
    }

    proof fn admitted_encodings(repr: Seq<u8>, checked: bool) {
    }

    proof fn infinity_is_admitted(repr: Seq<u8>) {
    }

    proof fn encoding_has_size(&self) {
    }

    fn uncompressed_size() -> (size: usize) {
        96
    }

    fn to_uncompressed(&self) -> (repr: &[u8]) {
        self.repr.as_slice()
    }

    fn from_uncompressed(repr: &[u8]) -> (point: Option<Self>) {
        match g1_from_uncompressed(repr) {
            Some((repr, identity)) => Some(G1Affine { repr, identity }),
            None => None,
        }
    }

    fn from_uncompressed_unchecked(repr: &[u8]) -> (point: Option<Self>) {
        match g1_from_uncompressed_unchecked(repr) {
            Some((repr, identity)) => Some(G1Affine { repr, identity }),
            None => None,
        }
    }

    fn is_identity(&self) -> (identity: bool) {
        proof {
            use_type_invariant(self);
        }
        self.identity
    }

    fn same(&self, other: &Self) -> (same: bool) {
        same_bytes(self.repr.as_slice(), other.repr.as_slice())
    }
}

impl PartialEq for G1Affine {
    fn eq(&self, other: &Self) -> (equal: bool) {
        self.same(other)
    }
}

impl vstd::std_specs::cmp::PartialEqSpecImpl for G1Affine {
    open spec fn obeys_eq_spec() -> bool {
        true
    }

    open spec fn eq_spec(&self, other: &Self) -> bool {
        self@ == other@
    }
}

impl Eq for G1Affine {

}

/// Decodes with `group::UncompressedEncoding::from_uncompressed` of
/// `bls12_381::G2Affine`, and hands the point out as its
/// `to_uncompressed` bytes and its `is_identity` flag.
///
/// The decoder accepts a canonical encoding of the point at infinity, or of a
/// point that satisfies the equation of the curve and passes the test for the
/// subgroup. What it accepts encodes to the same bytes again, and is the point
/// at infinity where the bytes say so. Of the test for the subgroup only the
/// name is given.
#[verifier::external_body]
fn g2_from_uncompressed(repr: &[u8]) -> (point: Option<([u8; 192], bool)>)
    requires
        repr@.len() == 192,
    ensures
        point is Some <==> (g2_canonical(repr@) && (infinity(repr@) || (g2_on_curve(repr@)
            && g2_in_subgroup(repr@)))),
        point matches Some(p) ==> p.0@ == repr@ && p.1 == infinity(repr@),
{
    let mut bytes = <bls12_381::G2Affine as UncompressedEncoding>::Uncompressed::default();
    bytes.as_mut().copy_from_slice(repr);
    let decoded = <bls12_381::G2Affine as UncompressedEncoding>::from_uncompressed(&bytes);
    match Option::<bls12_381::G2Affine>::from(decoded) {
        Some(p) => Some((p.to_uncompressed(), PrimeCurveAffine::is_identity(&p).into())),
        None => None,
    }
}

/// Decodes with `group::UncompressedEncoding::from_uncompressed_unchecked` of
/// `bls12_381::G2Affine`, and hands the point out as its
/// `to_uncompressed` bytes and its `is_identity` flag.
///
/// The decoder accepts the canonical encodings. What it accepts encodes to the
/// same bytes again, and is the point at infinity where the bytes say so.
#[verifier::external_body]
fn g2_from_uncompressed_unchecked(repr: &[u8]) -> (point: Option<([u8; 192], bool)>)
    requires
        repr@.len() == 192,
    ensures
        point is Some <==> g2_canonical(repr@),
        point matches Some(p) ==> p.0@ == repr@ && p.1 == infinity(repr@),
{
    let mut bytes = <bls12_381::G2Affine as UncompressedEncoding>::Uncompressed::default();
    bytes.as_mut().copy_from_slice(repr);
    let decoded =
        <bls12_381::G2Affine as UncompressedEncoding>::from_uncompressed_unchecked(&bytes);
    match Option::<bls12_381::G2Affine>::from(decoded) {
        Some(p) => Some((p.to_uncompressed(), PrimeCurveAffine::is_identity(&p).into())),
        None => None,
    }
}

/// A point of the second group.
#[derive(Clone, Copy, Debug)]
pub struct G2Affine {
    repr: [u8; 192],
    identity: bool,
}

impl G2Affine {
    #[verifier::type_invariant]
    spec fn well_formed(self) -> bool {
        &&& g2_canonical(self.repr@)
        &&& self.identity == infinity(self.repr@)
    }
}

impl View for G2Affine {
    type V = Seq<u8>;

    closed spec fn view(&self) -> Seq<u8> {
        self.repr@
    }
}

impl CurvePoint for G2Affine {
    open spec fn size() -> nat {
        192
    }

    open spec fn admits(repr: Seq<u8>, checked: bool) -> bool {
        g2_canonical(repr) && (checked ==> g2_element(repr))
    }

    open spec fn at_infinity(repr: Seq<u8>) -> bool {
        infinity(repr)
    }

    proof fn size_is_positive() {
    }

    proof fn admitted_encodings(repr: Seq<u8>, checked: bool) {
    }

    proof fn infinity_is_admitted(repr: Seq<u8>) {
    }

    proof fn encoding_has_size(&self) {
    }

    fn uncompressed_size() -> (size: usize) {
        192
    }

    fn to_uncompressed(&self) -> (repr: &[u8]) {
        self.repr.as_slice()
    }

    fn from_uncompressed(repr: &[u8]) -> (point: Option<Self>) {
        match g2_from_uncompressed(repr) {
            Some((repr, identity)) => Some(G2Affine { repr, identity }),
            None => None,
        }
    }

    fn from_uncompressed_unchecked(repr: &[u8]) -> (point: Option<Self>) {
        match g2_from_uncompressed_unchecked(repr) {
            Some((repr, identity)) => Some(G2Affine { repr, identity }),
            None => None,
        }
    }

    fn is_identity(&self) -> (identity: bool) {
        proof {
            use_type_invariant(self);
        }
        self.identity
    }

    fn same(&self, other: &Self) -> (same: bool) {
        same_bytes(self.repr.as_slice(), other.repr.as_slice())
    }
}

impl PartialEq for G2Affine {
    fn eq(&self, other: &Self) -> (equal: bool) {
        self.same(other)
    }
}

impl vstd::std_specs::cmp::PartialEqSpecImpl for G2Affine {
    open spec fn obeys_eq_spec() -> bool {
        true
    }

    open spec fn eq_spec(&self, other: &Self) -> bool {
        self@ == other@
    }
}

impl Eq for G2Affine {

}

/// The pairing engine of the BLS12-381 curve.
#[derive(Clone, Copy, Debug)]
pub struct Bls12;

impl Engine for Bls12 {
    type G1Affine = G1Affine;

    type G2Affine = G2Affine;
}

} // verus!
