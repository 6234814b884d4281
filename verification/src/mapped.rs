//! Parameters that stay in a mapped file: where each point lies in it.

use core::ops::Range;
use vstd::prelude::*;

use crate::engine::{CurvePoint, Engine};
use crate::format::{key, KeyView, ParametersView};
use crate::points::read_length;
use crate::verifying_key::VerifyingKey;
use crate::wire::{be32, ReadError};

verus! {

/// Where the points of a list lie: `count` of them, from `start` on.
pub struct Section {
    pub start: nat,
    pub count: nat,
}

/// Where the lists of a set of parameters lie, and where the last one ends.
pub struct Layout {
    pub h: Section,
    pub l: Section,
    pub a: Section,
    pub b_g1: Section,
    pub b_g2: Section,
    pub end: nat,
}

impl Section {
    /// Where the points end if each takes `size` bytes.
    pub open spec fn end(self, size: nat) -> nat {
        self.start + self.count * size
    }

    /// The range of each of the points if each takes `size` bytes.
    pub open spec fn ranges(self, size: nat) -> Seq<Range<usize>> {
        Seq::new(
            self.count,
            |i: int|
                Range {
                    start: (self.start + i * size) as usize,
                    end: (self.start + i * size + size) as usize,
                },
        )
    }
}

/// The list at an offset, if the word with its number of points is in bounds.
/// The points need not be.
pub open spec fn section_at(bytes: Seq<u8>, at: nat) -> Option<Section> {
    if at + 4 <= bytes.len() {
        Some(Section { start: at + 4, count: be32(bytes.skip(at as int)) })
    } else {
        None
    }
}

/// Where the lists lie that follow a verifying key, which ends at `at`.
pub open spec fn layout<E: Engine>(bytes: Seq<u8>, at: nat) -> Option<Layout> {
    let g1 = E::G1Affine::size();
    let g2 = E::G2Affine::size();
    match section_at(bytes, at) {
        None => None,
        Some(h) => match section_at(bytes, h.end(g1)) {
            None => None,
            Some(l) => match section_at(bytes, l.end(g1)) {
                None => None,
                Some(a) => match section_at(bytes, a.end(g1)) {
                    None => None,
                    Some(b_g1) => match section_at(bytes, b_g1.end(g1)) {
                        None => None,
                        Some(b_g2) => Some(Layout { h, l, a, b_g1, b_g2, end: b_g2.end(g2) }),
                    },
                },
            },
        },
    }
}

/// What a file holds of the parameters if only the lengths of the lists are
/// read: the verifying key and where the lists lie. There is none where a
/// length or the key lies out of bounds, or where an offset would not fit in
/// a `usize`.
pub open spec fn mapping<E: Engine>(bytes: Seq<u8>) -> Option<
    Result<(KeyView, Layout), ReadError>,
> {
    match key::<E>(bytes) {
        Err(ReadError::UnexpectedEof) => None,
        Err(e) => Some(Err(e)),
        Ok((vk, n)) => match layout::<E>(bytes, n) {
            None => None,
            Some(at) => if at.end <= usize::MAX {
                Some(Ok((vk, at)))
            } else {
                None
            },
        },
    }
}

/// Whether a range lies within the bytes and holds the encoding of a point.
pub open spec fn range_holds(range: Range<usize>, bytes: Seq<u8>, point: Seq<u8>) -> bool {
    &&& range.start <= range.end <= bytes.len()
    &&& bytes.subrange(range.start as int, range.end as int) == point
}

/// Whether there are as many ranges as points, and each holds the encoding of
/// the point in its place.
pub open spec fn ranges_hold(
    ranges: Seq<Range<usize>>,
    bytes: Seq<u8>,
    points: Seq<Seq<u8>>,
) -> bool {
    &&& ranges.len() == points.len()
    &&& forall|i: int|
        0 <= i < points.len() ==> range_holds(#[trigger] ranges[i], bytes, points[i])
}

impl Layout {
    /// Whether the lists of the parameters lie at these places in the bytes.
    pub open spec fn holds<E: Engine>(self, bytes: Seq<u8>, params: ParametersView) -> bool {
        let g1 = E::G1Affine::size();
        let g2 = E::G2Affine::size();
        &&& ranges_hold(self.h.ranges(g1), bytes, params.h)
        &&& ranges_hold(self.l.ranges(g1), bytes, params.l)
        &&& ranges_hold(self.a.ranges(g1), bytes, params.a)
        &&& ranges_hold(self.b_g1.ranges(g1), bytes, params.b_g1)
        &&& ranges_hold(self.b_g2.ranges(g2), bytes, params.b_g2)
    }
}

/// The verifying key of a mapped file of parameters, and the range of the file
/// in which each point lies.
pub struct MappedParameters<E: Engine> {
    pub vk: VerifyingKey<E>,
    pub h: Vec<Range<usize>>,
    pub l: Vec<Range<usize>>,
    pub a: Vec<Range<usize>>,
    pub b_g1: Vec<Range<usize>>,
    pub b_g2: Vec<Range<usize>>,
    /// Whether points are checked when they are read from the file.
    pub checked: bool,
}

impl<E: Engine> MappedParameters<E> {
    /// Whether the ranges are those of the layout and the key is the given one.
    pub open spec fn maps(self, vk: KeyView, at: Layout) -> bool {
        let g1 = E::G1Affine::size();
        let g2 = E::G2Affine::size();
        &&& self.vk@ == vk
        &&& self.h@ == at.h.ranges(g1)
        &&& self.l@ == at.l.ranges(g1)
        &&& self.a@ == at.a.ranges(g1)
        &&& self.b_g1@ == at.b_g1.ranges(g1)
        &&& self.b_g2@ == at.b_g2.ranges(g2)
    }
}

/// Records the range of each point of the list at an offset, and moves the
/// offset behind the list. Gives nothing where the length of the list is out
/// of bounds or an offset does not fit.
pub(crate) fn get_offsets(params: &[u8], offset: &mut usize, size: usize) -> (ranges: Option<
    Vec<Range<usize>>,
>)
    ensures
        match (ranges, section_at(params@, *old(offset) as nat)) {
            (Some(r), Some(s)) => r@ == s.ranges(size as nat) && *final(offset) == s.end(
                size as nat,
            ),
            (None, Some(s)) => s.end(size as nat) > usize::MAX,
            (Some(r), None) => false,
            (None, None) => true,
        },
{
    if *offset > params.len() {
        return None;
    }
    let ghost at = *offset as nat;
    let len: usize = match read_length(params, offset) {
        Ok(len) => len,
        Err(_) => return None,
    };
    let ghost list = Section { start: at + 4, count: len as nat };
    assert(section_at(params@, at) == Some(list));
    let mut ranges: Vec<Range<usize>> = Vec::new();
    let mut i: usize = 0;
    assert(0 * size == 0);
    while i < len
        invariant
            i <= len,
            list == (Section { start: at + 4, count: len as nat }),
            at == *old(offset),
            section_at(params@, at) == Some(list),
            *offset == list.start + i * size,
            ranges@ == list.ranges(size as nat).take(i as int),
        decreases len - i,
    {
        let start: usize = *offset;
        assert((i + 1) * size == i * size + size) by (nonlinear_arith);
        let end: usize = match start.checked_add(size) {
            Some(end) => end,
            None => {
                assert((i + 1) * size <= len * size) by (nonlinear_arith)
                    requires
                        i + 1 <= len,
                        0 <= size,
                ;
                return None;
            },
        };
        ranges.push(Range { start, end });
        *offset = end;
        i += 1;
        assert(ranges@ =~= list.ranges(size as nat).take(i as int));
    }
    assert(ranges@ =~= list.ranges(size as nat));
    Some(ranges)
}

} // verus!
