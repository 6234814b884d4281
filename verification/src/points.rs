//! Reading and writing points and lists of points.

use vstd::prelude::*;

use crate::engine::{encodings, CurvePoint};
use crate::format::{advance, finite_point, point, points_from, section, section_bytes};
use crate::wire::{be32, read_u32, write_all, write_count, ReadError};

verus! {

/// The point that a decoder gave, or the error that stands for none.
pub fn require_point<P: CurvePoint>(decoded: Option<P>) -> (result: Result<P, ReadError>)
    ensures
        result == (match decoded {
            Some(p) => Ok::<P, ReadError>(p),
            None => Err(ReadError::NotOnCurve),
        }),
{
    match decoded {
        Some(p) => Ok(p),
        None => Err(ReadError::NotOnCurve),
    }
}

/// The point, unless it is the point at infinity.
pub fn require_finite<P: CurvePoint>(p: P) -> (result: Result<P, ReadError>)
    ensures
        result == (if P::at_infinity(p@) {
            Err::<P, ReadError>(ReadError::PointAtInfinity)
        } else {
            Ok(p)
        }),
{
    if p.is_identity() {
        Err(ReadError::PointAtInfinity)
    } else {
        Ok(p)
    }
}

/// What a result holds, a point by its encoding.
pub open spec fn encoded<P: CurvePoint>(result: Result<P, ReadError>) -> Result<
    Seq<u8>,
    ReadError,
> {
    match result {
        Ok(p) => Ok(p@),
        Err(e) => Err(e),
    }
}

/// Decodes the encoding of a point, with the checks of its group or without.
pub fn decode_point<P: CurvePoint>(repr: &[u8], checked: bool) -> (result: Result<P, ReadError>)
    requires
        repr@.len() == P::size(),
    ensures
        encoded(result) == point::<P>(repr@, checked),
{
    assert(repr@.take(P::size() as int) =~= repr@);
    let decoded = if checked {
        P::from_uncompressed(repr)
    } else {
        P::from_uncompressed_unchecked(repr)
    };
    require_point(decoded)
}

/// Decodes the encoding of a point other than the point at infinity.
pub fn decode_finite_point<P: CurvePoint>(repr: &[u8], checked: bool) -> (result: Result<
    P,
    ReadError,
>)
    requires
        repr@.len() == P::size(),
    ensures
        encoded(result) == finite_point::<P>(repr@, checked),
{
    match decode_point::<P>(repr, checked) {
        Ok(p) => require_finite(p),
        Err(e) => Err(e),
    }
}

/// Reads a point at an offset and moves the offset behind it.
pub(crate) fn read_point<P: CurvePoint>(
    bytes: &[u8],
    offset: &mut usize,
    checked: bool,
) -> (result: Result<P, ReadError>)
    requires
        *old(offset) <= bytes@.len(),
    ensures
        encoded(result) == point::<P>(bytes@.skip(*old(offset) as int), checked),
        result is Ok ==> *final(offset) == *old(offset) + P::size() && *final(offset)
            <= bytes@.len(),
{
    let size: usize = P::uncompressed_size();
    if bytes.len() - *offset < size {
        return Err(ReadError::UnexpectedEof);
    }
    let start: usize = *offset;
    *offset = start + size;
    let repr = &bytes[start..start + size];
    proof {
        let rest = bytes@.skip(start as int);
        assert(repr@ =~= rest.take(size as int));
        assert(repr@.take(size as int) =~= repr@);
    }
    decode_point::<P>(repr, checked)
}

/// Reads the number of points of a list at an offset and moves the offset
/// behind it.
pub(crate) fn read_length(bytes: &[u8], offset: &mut usize) -> (result: Result<usize, ReadError>)
    requires
        *old(offset) <= bytes@.len(),
    ensures
        result == (if bytes@.len() - *old(offset) < 4 {
            Err::<usize, ReadError>(ReadError::UnexpectedEof)
        } else {
            Ok(be32(bytes@.skip(*old(offset) as int)) as usize)
        }),
        result is Ok ==> {
            &&& *final(offset) == *old(offset) + 4
            &&& *final(offset) <= bytes@.len()
            &&& result->Ok_0 == be32(bytes@.skip(*old(offset) as int))
        },
{
    if bytes.len() - *offset < 4 {
        return Err(ReadError::UnexpectedEof);
    }
    let start: usize = *offset;
    *offset = start + 4;
    let raw_len = &bytes[start..start + 4];
    let len: u32 = read_u32(raw_len);
    proof {
        let rest = bytes@.skip(start as int);
        assert(forall|i: int| 0 <= i < 4 ==> raw_len@[i] == rest[i]);
    }
    Ok(len as usize)
}

/// What a result holds, each point of a list by its encoding.
pub open spec fn encoded_list<P: CurvePoint>(result: Result<Vec<P>, ReadError>) -> Result<
    Seq<Seq<u8>>,
    ReadError,
> {
    match result {
        Ok(points) => Ok(encodings(points@)),
        Err(e) => Err(e),
    }
}

/// The outcome without the number of bytes that were used.
pub open spec fn value_of<T>(parsed: Result<(T, nat), ReadError>) -> Result<T, ReadError> {
    match parsed {
        Ok((value, used)) => Ok(value),
        Err(e) => Err(e),
    }
}

/// Reads a list of points at an offset and moves the offset behind it.
pub(crate) fn read_points<P: CurvePoint>(
    bytes: &[u8],
    offset: &mut usize,
    checked: bool,
) -> (result: Result<Vec<P>, ReadError>)
    requires
        *old(offset) <= bytes@.len(),
    ensures
        encoded_list(result) == value_of(
            section::<P>(bytes@.skip(*old(offset) as int), checked),
        ),
        result is Ok ==> {
            &&& *final(offset) == *old(offset) + section::<P>(
                bytes@.skip(*old(offset) as int),
                checked,
            )->Ok_0.1
            &&& *final(offset) <= bytes@.len()
        },
{
    let ghost start = bytes@.skip(*offset as int);
    let len: usize = match read_length(bytes, offset) {
        Ok(len) => len,
        Err(e) => return Err(e),
    };
    let size: usize = P::uncompressed_size();
    let ghost body = *offset as int;
    let ghost all = points_from::<P>(Seq::empty(), len as nat, bytes@.skip(body), checked);
    assert(start.skip(4) =~= bytes@.skip(body));
    let mut points: Vec<P> = Vec::new();
    assert(encodings(points@) =~= Seq::empty());
    while points.len() < len
        invariant
            size == P::size(),
            points@.len() <= len,
            body <= *offset <= bytes@.len(),
            section::<P>(bytes@.skip(*old(offset) as int), checked) == advance(all, 4),
            body == *old(offset) + 4,
            all == advance(
                points_from::<P>(
                    encodings(points@),
                    len as nat,
                    bytes@.skip(*offset as int),
                    checked,
                ),
                (*offset - body) as nat,
            ),
        decreases len - points@.len(),
    {
        let ghost before = *offset;
        let ghost got = encodings(points@);
        assert(got.len() == points@.len());
        let p: P = match read_point::<P>(bytes, offset, checked) {
            Ok(p) => p,
            Err(e) => return Err(e),
        };
        let p: P = match require_finite(p) {
            Ok(p) => p,
            Err(e) => return Err(e),
        };
        points.push(p);
        proof {
            assert(encodings(points@) =~= got.push(p@));
            assert(bytes@.skip(before as int).skip(size as int) =~= bytes@.skip(*offset as int));
        }
    }
    assert(encodings(points@).len() == points@.len());
    Ok(points)
}

/// Appends a list of points to a buffer: their number as a word, then the
/// encoding of each.
pub(crate) fn write_points<P: CurvePoint>(writer: &mut Vec<u8>, points: &Vec<P>)
    ensures
        final(writer)@ == old(writer)@ + section_bytes(encodings(points@)),
{
    write_count(writer, points.len());
    let ghost head = writer@;
    let ghost list = encodings(points@);
    assert(list.take(0).flatten() =~= Seq::<u8>::empty());
    assert(writer@ =~= head + list.take(0).flatten());
    let mut i: usize = 0;
    while i < points.len()
        invariant
            i <= points@.len(),
            list == encodings(points@),
            list.len() == points@.len(),
            writer@ == head + list.take(i as int).flatten(),
        decreases points@.len() - i,
    {
        write_all(writer, points[i].to_uncompressed());
        proof {
            assert(list.take(i + 1) =~= list.take(i as int).push(list[i as int]));
            list.take(i as int).lemma_flatten_push(list[i as int]);
            assert(writer@ =~= head + list.take(i + 1).flatten());
        }
        i += 1;
    }
    assert(list.take(list.len() as int) =~= list);
    assert(writer@ =~= old(writer)@ + section_bytes(list));
}

/// Whether two lists hold the same points in the same order.
pub(crate) fn same_points<P: CurvePoint>(a: &Vec<P>, b: &Vec<P>) -> (same: bool)
    ensures
        same == (encodings(a@) == encodings(b@)),
{
    let ghost left = encodings(a@);
    let ghost right = encodings(b@);
    if a.len() != b.len() {
        assert(left.len() != right.len());
        return false;
    }
    let mut i: usize = 0;
    while i < a.len()
        invariant
            a@.len() == b@.len(),
            left == encodings(a@),
            right == encodings(b@),
            i <= a@.len(),
            forall|j: int| 0 <= j < i ==> left[j] == right[j],
        decreases a@.len() - i,
    {
        if !a[i].same(&b[i]) {
            assert(left[i as int] != right[i as int]);
            return false;
        }
        i += 1;
    }
    assert(left =~= right);
    true
}

/// A copy of a list of points.
pub(crate) fn copy_points<P: CurvePoint>(points: &Vec<P>) -> (copy: Vec<P>)
    ensures
        copy@ == points@,
{
    let mut copy: Vec<P> = Vec::new();
    let mut i: usize = 0;
    while i < points.len()
        invariant
            i <= points@.len(),
            copy@ == points@.take(i as int),
        decreases points@.len() - i,
    {
        copy.push(points[i]);
        i += 1;
        assert(copy@ =~= points@.take(i as int));
    }
    assert(points@.take(i as int) =~= points@);
    copy
}

} // verus!
