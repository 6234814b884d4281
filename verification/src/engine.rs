//! The pairing engine that a set of parameters is made for, seen through the
//! uncompressed encodings of its curve points.

use vstd::prelude::*;

verus! {

/// A point of one of the two source groups of a pairing, in affine form.
///
/// The view of a point is its uncompressed encoding: a decoder accepts at most
/// one encoding of a point, so two points are the same if their views are.
pub trait CurvePoint: Sized + Copy + Send + Sync + View<V = Seq<u8>> {
    /// The number of bytes of every uncompressed encoding.
    spec fn size() -> nat;

    /// Whether the bytes are accepted as the uncompressed encoding of a point,
    /// with the membership checks of the group (`checked`) or without them.
    spec fn admits(repr: Seq<u8>, checked: bool) -> bool;

    /// Whether the bytes encode the point at infinity.
    spec fn at_infinity(repr: Seq<u8>) -> bool;

    /// Encodings are not empty.
    proof fn size_is_positive()
        ensures
            Self::size() > 0,
    ;

    /// What is accepted has the size of an encoding, and the checks only ever
    /// reject more.
    proof fn admitted_encodings(repr: Seq<u8>, checked: bool)
        requires
            Self::admits(repr, checked),
        ensures
            repr.len() == Self::size(),
            Self::admits(repr, false),
    ;

    /// The point at infinity passes the checks.
    proof fn infinity_is_admitted(repr: Seq<u8>)
        requires
            Self::admits(repr, false),
            Self::at_infinity(repr),
        ensures
            Self::admits(repr, true),
    ;

    /// The encoding of every point has the size of an encoding.
    proof fn encoding_has_size(&self)
        ensures
            self@.len() == Self::size(),
    ;

    /// The number of bytes of every uncompressed encoding.
    fn uncompressed_size() -> (size: usize)
        ensures
            size == Self::size(),
    ;

    /// The uncompressed encoding of the point.
    fn to_uncompressed(&self) -> (repr: &[u8])
        ensures
            repr@ == self@,
            repr@.len() == Self::size(),
    ;

    /// Decodes a point and checks that it lies in the group.
    fn from_uncompressed(repr: &[u8]) -> (point: Option<Self>)
        requires
            repr@.len() == Self::size(),
        ensures
            point is Some <==> Self::admits(repr@, true),
            point matches Some(p) ==> p@ == repr@,
    ;

    /// Decodes a point without checking that it lies in the group.
    fn from_uncompressed_unchecked(repr: &[u8]) -> (point: Option<Self>)
        requires
            repr@.len() == Self::size(),
        ensures
            point is Some <==> Self::admits(repr@, false),
            point matches Some(p) ==> p@ == repr@,
    ;

    /// Whether this is the point at infinity.
    fn is_identity(&self) -> (identity: bool)
        ensures
            identity == Self::at_infinity(self@),
    ;

    /// Whether the two are the same point.
    fn same(&self, other: &Self) -> (same: bool)
        ensures
            same == (self@ == other@),
    ;
}

/// A pairing engine: the two groups whose points the parameters hold.
pub trait Engine: Sized {
    /// Points of the first group.
    type G1Affine: CurvePoint;

    /// Points of the second group.
    type G2Affine: CurvePoint;
}

/// The encodings of a sequence of points.
pub open spec fn encodings<P: CurvePoint>(points: Seq<P>) -> Seq<Seq<u8>> {
    points.map_values(|p: P| p@)
}

/// Each of the encodings of a sequence of points has the size of an encoding.
pub proof fn encodings_have_size<P: CurvePoint>(points: Seq<P>)
    ensures
        encodings(points).len() == points.len(),
        forall|i: int|
            0 <= i < points.len() ==> (#[trigger] encodings(points)[i]).len() == P::size(),
{
    assert forall|i: int| 0 <= i < points.len() implies (#[trigger] encodings(points)[i]).len()
        == P::size() by {
        points[i].encoding_has_size();
    }
}

} // verus!
