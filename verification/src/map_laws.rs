//! Where a mapped file is recorded to hold the parts of a set of parameters, in
//! terms of its bytes.

use core::ops::Range;
use vstd::prelude::*;

use crate::accepting::{lead_accepted, lemma_key_reach, lemma_key_same, lemma_products};
use crate::engine::{encodings, CurvePoint, Engine};
use crate::format::{good_key, good_point, key, KeyView};
use crate::laws::mapping_gives_what_is_read;
use crate::lemmas::{lemma_key, lemma_key_more};
use crate::mapped::{
    layout, range_holds, ranges_hold, section_at, MappedParameters, Section,
};
use crate::params::Parameters;
use crate::placing::{
    ic_start, leads, lemma_good_key_of_size, lemma_place_key, lemma_points_lie, list_lies, word_at,
};
use crate::verifying_key::VerifyingKey;
use crate::wire::ReadError;

verus! {

/// Whether ranges of one size lie one behind the other, behind a word with their
/// number.
#[verifier::opaque]
spec fn ranges_lie(all: Seq<u8>, at: int, size: int, ranges: Seq<Range<usize>>) -> bool {
    &&& at + 4 <= all.len()
    &&& word_at(all, at) == ranges.len()
    &&& forall|i: int|
        0 <= i < ranges.len() ==> {
            &&& (#[trigger] ranges[i]).start == at + 4 + i * size
            &&& ranges[i].end == at + 4 + i * size + size
        }
}

/// The ranges of a list lie one behind the other.
proof fn lemma_ranges_lie(all: Seq<u8>, at: nat, size: nat)
    requires
        section_at(all, at) is Some,
        section_at(all, at)->Some_0.end(size) <= usize::MAX,
    ensures
        ({
            let place = section_at(all, at)->Some_0;
            &&& ranges_lie(all, at as int, size as int, place.ranges(size))
            &&& place.end(size) == at + 4 + place.ranges(size).len() * size
            &&& at + 4 <= place.end(size)
        }),
{
    reveal(ranges_lie);
    let place = section_at(all, at)->Some_0;
    let ranges = place.ranges(size);
    let head = all.skip(at as int);
    let s = size as int;
    lemma_products(place.count, size);
    let k = at as int;
    assert(head[0] == all[k] && head[1] == all[k + 1] && head[2] == all[k + 2] && head[3] == all[k
        + 3]);
    assert forall|i: int| 0 <= i < ranges.len() implies {
        &&& (#[trigger] ranges[i]).start == at + 4 + i * s
        &&& ranges[i].end == at + 4 + i * s + s
    } by {
        assert(0 <= i * s && i * s + s <= place.count * s) by (nonlinear_arith)
            requires
                0 <= i < place.count,
                0 <= s,
        ;
    }
}

/// Whether the parts of a key lie at the front of the bytes.
#[verifier::opaque]
spec fn key_lies<E: Engine>(all: Seq<u8>, vk: VerifyingKey<E>) -> bool {
    &&& leads::<E>(all, vk@)
    &&& list_lies(all, ic_start::<E>(), E::G1Affine::size() as int, vk.ic@)
    &&& vk.ic@.len() <= u32::MAX
    &&& good_key::<E>(vk@)
}

/// The key of a mapped file lies at its front.
proof fn lemma_key_lies<E: Engine>(all: Seq<u8>, vk: VerifyingKey<E>, n: nat)
    requires
        key::<E>(all) == Ok::<(KeyView, nat), ReadError>((vk@, n)),
    ensures
        key_lies::<E>(all, vk),
        n == ic_start::<E>() + 4 + vk.ic@.len() * E::G1Affine::size(),
        n <= all.len(),
{
    reveal(key_lies);
    lemma_key::<E>(all);
    lemma_good_key_of_size::<E>(vk@);
    let rest = all.skip(n as int);
    assert(all.take(n as int) + rest =~= all);
    lemma_place_key::<E>(all, vk@, rest);
    lemma_points_lie(all, ic_start::<E>(), E::G1Affine::size() as int, vk.ic@);
}

/// Where the lists of a mapped file lie.
proof fn lemma_layout_lies<E: Engine>(all: Seq<u8>, n: nat)
    requires
        layout::<E>(all, n) is Some,
        layout::<E>(all, n)->Some_0.end <= usize::MAX,
    ensures
        ({
            let at = layout::<E>(all, n)->Some_0;
            let (g1, g2) = (E::G1Affine::size(), E::G2Affine::size());
            let l = n + 4 + at.h.ranges(g1).len() * g1;
            let a = l + 4 + at.l.ranges(g1).len() * g1;
            let b_g1 = a + 4 + at.a.ranges(g1).len() * g1;
            let b_g2 = b_g1 + 4 + at.b_g1.ranges(g1).len() * g1;
            &&& ranges_lie(all, n as int, g1 as int, at.h.ranges(g1))
            &&& ranges_lie(all, l as int, g1 as int, at.l.ranges(g1))
            &&& ranges_lie(all, a as int, g1 as int, at.a.ranges(g1))
            &&& ranges_lie(all, b_g1 as int, g1 as int, at.b_g1.ranges(g1))
            &&& ranges_lie(all, b_g2 as int, g2 as int, at.b_g2.ranges(g2))
        }),
{
    let at = layout::<E>(all, n)->Some_0;
    let (g1, g2) = (E::G1Affine::size(), E::G2Affine::size());
    lemma_products(at.h.count, g1);
    lemma_products(at.l.count, g1);
    lemma_products(at.a.count, g1);
    lemma_products(at.b_g1.count, g1);
    lemma_products(at.b_g2.count, g2);
    lemma_ranges_lie(all, at.b_g1.end(g1), g2);
    lemma_ranges_lie(all, at.a.end(g1), g1);
    lemma_ranges_lie(all, at.l.end(g1), g1);
    lemma_ranges_lie(all, at.h.end(g1), g1);
    lemma_ranges_lie(all, n, g1);
}

/// A mapped file is recorded to hold every part where it lies. The key is that at
/// the front of the file, and the lists follow it in the order `h`, `l`, `a`,
/// `b_g1`, `b_g2`: of each four bytes with its length, most significant byte
/// first, and then the ranges of its points one behind the other, as many bytes
/// each as an encoding of its group has.
pub proof fn mapping_records_every_place<E: Engine>(
    bytes: &[u8],
    checked: bool,
    result: Option<Result<MappedParameters<E>, ReadError>>,
)
    requires
        call_ensures(Parameters::<E>::try_build_mapped_parameters, (bytes, checked), result),
    ensures
        result matches Some(Ok(m)) ==> ({
            let b = bytes@;
            let g1 = E::G1Affine::size() as int;
            let g2 = E::G2Affine::size() as int;
            let word = |at: int|
                b[at] * 0x100_0000 + b[at + 1] * 0x1_0000 + b[at + 2] * 0x100 + b[at + 3];
            let ic = 3 * g1 + 3 * g2;
            let h = ic + 4 + m.vk.ic@.len() * g1;
            let l = h + 4 + m.h@.len() * g1;
            let a = l + 4 + m.l@.len() * g1;
            let b_g1 = a + 4 + m.a@.len() * g1;
            let b_g2 = b_g1 + 4 + m.b_g1@.len() * g1;
            &&& m.checked == checked
            &&& ic + 4 <= b.len()
            &&& m.vk.alpha_g1@ == b.subrange(0, g1)
            &&& m.vk.beta_g1@ == b.subrange(g1, 2 * g1)
            &&& m.vk.beta_g2@ == b.subrange(2 * g1, 2 * g1 + g2)
            &&& m.vk.gamma_g2@ == b.subrange(2 * g1 + g2, 2 * g1 + 2 * g2)
            &&& m.vk.delta_g1@ == b.subrange(2 * g1 + 2 * g2, 3 * g1 + 2 * g2)
            &&& m.vk.delta_g2@ == b.subrange(3 * g1 + 2 * g2, 3 * g1 + 3 * g2)
            &&& word(ic) == m.vk.ic@.len()
            &&& forall|i: int|
                0 <= i < m.vk.ic@.len() ==> (#[trigger] m.vk.ic@[i])@ == b.subrange(
                    ic + 4 + i * g1,
                    ic + 4 + i * g1 + g1,
                )
            &&& h + 4 <= b.len()
            &&& word(h) == m.h@.len()
            &&& forall|i: int|
                0 <= i < m.h@.len() ==> {
                    &&& (#[trigger] m.h@[i]).start == h + 4 + i * g1
                    &&& m.h@[i].end == h + 4 + i * g1 + g1
                }
            &&& l + 4 <= b.len()
            &&& word(l) == m.l@.len()
            &&& forall|i: int|
                0 <= i < m.l@.len() ==> {
                    &&& (#[trigger] m.l@[i]).start == l + 4 + i * g1
                    &&& m.l@[i].end == l + 4 + i * g1 + g1
                }
            &&& a + 4 <= b.len()
            &&& word(a) == m.a@.len()
            &&& forall|i: int|
                0 <= i < m.a@.len() ==> {
                    &&& (#[trigger] m.a@[i]).start == a + 4 + i * g1
                    &&& m.a@[i].end == a + 4 + i * g1 + g1
                }
            &&& b_g1 + 4 <= b.len()
            &&& word(b_g1) == m.b_g1@.len()
            &&& forall|i: int|
                0 <= i < m.b_g1@.len() ==> {
                    &&& (#[trigger] m.b_g1@[i]).start == b_g1 + 4 + i * g1
                    &&& m.b_g1@[i].end == b_g1 + 4 + i * g1 + g1
                }
            &&& b_g2 + 4 <= b.len()
            &&& word(b_g2) == m.b_g2@.len()
            &&& forall|i: int|
                0 <= i < m.b_g2@.len() ==> {
                    &&& (#[trigger] m.b_g2@[i]).start == b_g2 + 4 + i * g2
                    &&& m.b_g2@[i].end == b_g2 + 4 + i * g2 + g2
                }
        }),
{
    if let Some(Ok(m)) = result {
        let (vk, n) = key::<E>(bytes@)->Ok_0;
        lemma_key_lies::<E>(bytes@, m.vk, n);
        lemma_layout_lies::<E>(bytes@, n);
        lemma_products(m.vk.ic@.len(), E::G1Affine::size());
        reveal(key_lies);
        reveal(leads);
        reveal(list_lies);
        reveal(ranges_lie);
    }
}

/// The key of a mapped file holds only points that the decoders accept with the
/// checks, and its list not the point at infinity, whether or not the points of
/// the other lists are to be checked.
pub proof fn mapping_keeps_only_accepted_key_points<E: Engine>(
    bytes: &[u8],
    checked: bool,
    result: Option<Result<MappedParameters<E>, ReadError>>,
)
    requires
        call_ensures(Parameters::<E>::try_build_mapped_parameters, (bytes, checked), result),
    ensures
        result matches Some(Ok(m)) ==> {
            &&& E::G1Affine::admits(m.vk.alpha_g1@, true)
            &&& E::G1Affine::admits(m.vk.beta_g1@, true)
            &&& E::G2Affine::admits(m.vk.beta_g2@, true)
            &&& E::G2Affine::admits(m.vk.gamma_g2@, true)
            &&& E::G1Affine::admits(m.vk.delta_g1@, true)
            &&& E::G2Affine::admits(m.vk.delta_g2@, true)
            &&& forall|i: int|
                0 <= i < m.vk.ic@.len() ==> E::G1Affine::admits((#[trigger] m.vk.ic@[i])@, true)
                    && !E::G1Affine::at_infinity(m.vk.ic@[i]@)
        },
{
    if let Some(Ok(m)) = result {
        lemma_key::<E>(bytes@);
        assert forall|i: int| 0 <= i < m.vk.ic@.len() implies E::G1Affine::admits(
            (#[trigger] m.vk.ic@[i])@,
            true,
        ) && !E::G1Affine::at_infinity(m.vk.ic@[i]@) by {
            assert(encodings(m.vk.ic@)[i] == m.vk.ic@[i]@);
            assert(good_point::<E::G1Affine>(encodings(m.vk.ic@)[i], true));
        }
    }
}

/// Every file is mapped that holds a key and the lengths of the lists: where the
/// checked decoders accept the six points at the front of the file, the list `ic`
/// of accepted finite points lies behind them, the lengths of the five lists that
/// follow lie within the file, each where the points of the list before would
/// end, and the end of the last list fits in a `usize`, the file is mapped,
/// whatever the points of these lists are.
pub proof fn mapping_takes_what_lies_in_place<E: Engine>(
    bytes: &[u8],
    checked: bool,
    result: Option<Result<MappedParameters<E>, ReadError>>,
    points: Seq<Seq<u8>>,
    num_h: nat,
    num_l: nat,
    num_a: nat,
    num_b_g1: nat,
    num_b_g2: nat,
)
    requires
        call_ensures(Parameters::<E>::try_build_mapped_parameters, (bytes, checked), result),
        ({
            let b = bytes@;
            let g1 = E::G1Affine::size() as int;
            let g2 = E::G2Affine::size() as int;
            let word = |at: int|
                b[at] * 0x100_0000 + b[at + 1] * 0x1_0000 + b[at + 2] * 0x100 + b[at + 3];
            let ic = 3 * g1 + 3 * g2;
            let h = ic + 4 + points.len() * g1;
            let l = h + 4 + num_h * g1;
            let a = l + 4 + num_l * g1;
            let b_g1 = a + 4 + num_a * g1;
            let b_g2 = b_g1 + 4 + num_b_g1 * g1;
            &&& h <= b.len()
            &&& E::G1Affine::admits(b.subrange(0, g1), true)
            &&& E::G1Affine::admits(b.subrange(g1, 2 * g1), true)
            &&& E::G2Affine::admits(b.subrange(2 * g1, 2 * g1 + g2), true)
            &&& E::G2Affine::admits(b.subrange(2 * g1 + g2, 2 * g1 + 2 * g2), true)
            &&& E::G1Affine::admits(b.subrange(2 * g1 + 2 * g2, 3 * g1 + 2 * g2), true)
            &&& E::G2Affine::admits(b.subrange(3 * g1 + 2 * g2, 3 * g1 + 3 * g2), true)
            &&& word(ic) == points.len()
            &&& forall|i: int|
                0 <= i < points.len() ==> {
                    &&& #[trigger] points[i] == b.subrange(
                        ic + 4 + i * g1,
                        ic + 4 + i * g1 + g1,
                    )
                    &&& E::G1Affine::admits(points[i], true)
                    &&& !E::G1Affine::at_infinity(points[i])
                }
            &&& h + 4 <= b.len() && word(h) == num_h
            &&& l + 4 <= b.len() && word(l) == num_l
            &&& a + 4 <= b.len() && word(a) == num_a
            &&& b_g1 + 4 <= b.len() && word(b_g1) == num_b_g1
            &&& b_g2 + 4 <= b.len() && word(b_g2) == num_b_g2
            &&& b_g2 + 4 + num_b_g2 * g2 <= usize::MAX
        }),
    ensures
        result matches Some(Ok(m)),
{
    let b = bytes@;
    let g1 = E::G1Affine::size();
    let g2 = E::G2Affine::size();
    lemma_products(points.len(), g1);
    lemma_products(num_h, g1);
    lemma_products(num_l, g1);
    lemma_products(num_a, g1);
    lemma_products(num_b_g1, g1);
    assert(lead_accepted::<E>(b, 0) && lead_accepted::<E>(b, 1));
    assert(lead_accepted::<E>(b, 2) && lead_accepted::<E>(b, 3));
    assert(lead_accepted::<E>(b, 4) && lead_accepted::<E>(b, 5));
    lemma_key_reach::<E>(b, points);
    let h = 3 * g1 + 3 * g2 + 4 + points.len() * g1;
    let l = h + 4 + num_h * g1;
    let a = l + 4 + num_l * g1;
    let b_g1 = a + 4 + num_a * g1;
    let b_g2 = b_g1 + 4 + num_b_g1 * g1;
    lemma_section_at(b, h, num_h);
    lemma_section_at(b, l, num_l);
    lemma_section_at(b, a, num_a);
    lemma_section_at(b, b_g1, num_b_g1);
    lemma_section_at(b, b_g2, num_b_g2);
}

/// A list whose length lies within the bytes is found.
proof fn lemma_section_at(all: Seq<u8>, at: nat, count: nat)
    requires
        at + 4 <= all.len(),
        word_at(all, at as int) == count,
    ensures
        section_at(all, at) == Some(Section { start: at + 4, count }),
{
    let head = all.skip(at as int);
    let k = at as int;
    assert(head[0] == all[k] && head[1] == all[k + 1] && head[2] == all[k + 2] && head[3] == all[k
        + 3]);
}

/// A file whose parameters are read is mapped, and the map holds what is read:
/// the same key, as many ranges as points, and in each range the encoding of the
/// point in its place.
pub proof fn mapping_finds_what_is_read<E: Engine>(
    bytes: &[u8],
    read_checked: bool,
    p: Parameters<E>,
    used: usize,
    checked: bool,
    result: Option<Result<MappedParameters<E>, ReadError>>,
)
    requires
        call_ensures(
            Parameters::<E>::read,
            (bytes, read_checked),
            Ok::<(Parameters<E>, usize), ReadError>((p, used)),
        ),
        call_ensures(Parameters::<E>::try_build_mapped_parameters, (bytes, checked), result),
    ensures
        result matches Some(Ok(m)) && {
            &&& m.checked == checked
            &&& m.vk.alpha_g1@ == p.vk.alpha_g1@
            &&& m.vk.beta_g1@ == p.vk.beta_g1@
            &&& m.vk.beta_g2@ == p.vk.beta_g2@
            &&& m.vk.gamma_g2@ == p.vk.gamma_g2@
            &&& m.vk.delta_g1@ == p.vk.delta_g1@
            &&& m.vk.delta_g2@ == p.vk.delta_g2@
            &&& m.vk.ic@.len() == p.vk.ic@.len()
            &&& forall|i: int|
                0 <= i < m.vk.ic@.len() ==> (#[trigger] m.vk.ic@[i])@ == p.vk.ic@[i]@
            &&& m.h@.len() == p.h@.len()
            &&& forall|i: int|
                0 <= i < m.h@.len() ==> {
                    &&& (#[trigger] m.h@[i]).start <= m.h@[i].end <= bytes@.len()
                    &&& bytes@.subrange(m.h@[i].start as int, m.h@[i].end as int) == p.h@[i]@
                }
            &&& m.l@.len() == p.l@.len()
            &&& forall|i: int|
                0 <= i < m.l@.len() ==> {
                    &&& (#[trigger] m.l@[i]).start <= m.l@[i].end <= bytes@.len()
                    &&& bytes@.subrange(m.l@[i].start as int, m.l@[i].end as int) == p.l@[i]@
                }
            &&& m.a@.len() == p.a@.len()
            &&& forall|i: int|
                0 <= i < m.a@.len() ==> {
                    &&& (#[trigger] m.a@[i]).start <= m.a@[i].end <= bytes@.len()
                    &&& bytes@.subrange(m.a@[i].start as int, m.a@[i].end as int) == p.a@[i]@
                }
            &&& m.b_g1@.len() == p.b_g1@.len()
            &&& forall|i: int|
                0 <= i < m.b_g1@.len() ==> {
                    &&& (#[trigger] m.b_g1@[i]).start <= m.b_g1@[i].end <= bytes@.len()
                    &&& bytes@.subrange(m.b_g1@[i].start as int, m.b_g1@[i].end as int)
                        == p.b_g1@[i]@
                }
            &&& m.b_g2@.len() == p.b_g2@.len()
            &&& forall|i: int|
                0 <= i < m.b_g2@.len() ==> {
                    &&& (#[trigger] m.b_g2@[i]).start <= m.b_g2@[i].end <= bytes@.len()
                    &&& bytes@.subrange(m.b_g2@[i].start as int, m.b_g2@[i].end as int)
                        == p.b_g2@[i]@
                }
        },
{
    assert(bytes@.len() == bytes.len());
    mapping_gives_what_is_read::<E>(bytes@, read_checked);
    let m = result->Some_0->Ok_0;
    lemma_ranges_hold::<E::G1Affine>(bytes@, m.h@, p.h@);
    lemma_ranges_hold::<E::G1Affine>(bytes@, m.l@, p.l@);
    lemma_ranges_hold::<E::G1Affine>(bytes@, m.a@, p.a@);
    lemma_ranges_hold::<E::G1Affine>(bytes@, m.b_g1@, p.b_g1@);
    lemma_ranges_hold::<E::G2Affine>(bytes@, m.b_g2@, p.b_g2@);
    assert(encodings(m.vk.ic@) == encodings(p.vk.ic@));
    assert(encodings(m.vk.ic@).len() == encodings(p.vk.ic@).len());
    assert forall|i: int| 0 <= i < m.vk.ic@.len() implies (#[trigger] m.vk.ic@[i])@
        == p.vk.ic@[i]@ by {
        assert(encodings(m.vk.ic@)[i] == encodings(p.vk.ic@)[i]);
    }
}

/// Ranges that hold encodings hold those of the points.
pub(crate) proof fn lemma_ranges_hold<P: CurvePoint>(
    bytes: Seq<u8>,
    ranges: Seq<Range<usize>>,
    points: Seq<P>,
)
    requires
        ranges_hold(ranges, bytes, encodings(points)),
    ensures
        ranges.len() == points.len(),
        forall|i: int|
            0 <= i < ranges.len() ==> {
                &&& (#[trigger] ranges[i]).start <= ranges[i].end <= bytes.len()
                &&& bytes.subrange(ranges[i].start as int, ranges[i].end as int) == points[i]@
            },
{
    assert forall|i: int| 0 <= i < ranges.len() implies {
        &&& (#[trigger] ranges[i]).start <= ranges[i].end <= bytes.len()
        &&& bytes.subrange(ranges[i].start as int, ranges[i].end as int) == points[i]@
    } by {
        assert(range_holds(ranges[i], bytes, encodings(points)[i]));
        assert(encodings(points)[i] == points[i]@);
    }
}

/// Where a file is not mapped for the sake of its key, its parameters are not
/// read either, and for the same reason.
pub proof fn mapping_refuses_what_reading_does<E: Engine>(
    bytes: &[u8],
    checked: bool,
    read: Result<(Parameters<E>, usize), ReadError>,
    mapped_checked: bool,
    result: Option<Result<MappedParameters<E>, ReadError>>,
)
    requires
        call_ensures(Parameters::<E>::read, (bytes, checked), read),
        call_ensures(Parameters::<E>::try_build_mapped_parameters, (bytes, mapped_checked), result),
    ensures
        result matches Some(Err(e)) ==> e != ReadError::UnexpectedEof && read == Err::<
            (Parameters<E>, usize),
            ReadError,
        >(e),
        result is None ==> read is Err,
{
    if read is Ok {
        assert(bytes@.len() == bytes.len());
        mapping_gives_what_is_read::<E>(bytes@, checked);
    }
}

/// `build_mapped_parameters` may be called where `try_build_mapped_parameters`
/// gives something, and then both give the same ranges and the same key, or the
/// same error.
pub proof fn building_is_trying<E: Engine>(
    bytes: &[u8],
    checked: bool,
    tried: Option<Result<MappedParameters<E>, ReadError>>,
    built: Result<MappedParameters<E>, ReadError>,
)
    requires
        call_ensures(Parameters::<E>::try_build_mapped_parameters, (bytes, checked), tried),
        tried is Some,
        call_ensures(Parameters::<E>::build_mapped_parameters, (bytes, checked), built),
    ensures
        call_requires(Parameters::<E>::build_mapped_parameters, (bytes, checked)),
        match (tried->Some_0, built) {
            (Ok(m), Ok(n)) => {
                &&& m.vk@ == n.vk@
                &&& m.h@ == n.h@
                &&& m.l@ == n.l@
                &&& m.a@ == n.a@
                &&& m.b_g1@ == n.b_g1@
                &&& m.b_g2@ == n.b_g2@
                &&& m.checked == checked
                &&& n.checked == checked
            },
            (Err(e), Err(f)) => e == f,
            _ => false,
        },
{
}

/// In a file that is cut short, a list is found as before where its length is
/// left, and not found otherwise.
proof fn lemma_section_cut(whole: Seq<u8>, len: nat, at: nat)
    requires
        len <= whole.len(),
    ensures
        section_at(whole.take(len as int), at) == (if at + 4 <= len {
            section_at(whole, at)
        } else {
            None
        }),
{
    let front = whole.take(len as int);
    if at + 4 <= len {
        let (x, y) = (front.skip(at as int), whole.skip(at as int));
        assert(x[0] == y[0] && x[1] == y[1] && x[2] == y[2] && x[3] == y[3]);
    }
}

/// A key that is cut short is noticed.
proof fn lemma_key_cut<E: Engine>(whole: Seq<u8>, len: nat)
    requires
        len <= whole.len(),
        key::<E>(whole) is Ok,
    ensures
        key::<E>(whole.take(len as int)) == (if len < key::<E>(whole)->Ok_0.1 {
            Err::<(KeyView, nat), ReadError>(ReadError::UnexpectedEof)
        } else {
            key::<E>(whole)
        }),
{
    let front = whole.take(len as int);
    let (vk, n) = key::<E>(whole)->Ok_0;
    lemma_key::<E>(whole);
    if len >= n {
        assert(front.take(n as int) =~= whole.take(n as int));
        lemma_key_same::<E>(whole, front);
    } else if key::<E>(front) != Err::<(KeyView, nat), ReadError>(ReadError::UnexpectedEof) {
        assert(front + whole.skip(len as int) =~= whole);
        lemma_key_more::<E>(front, whole.skip(len as int));
        lemma_key::<E>(front);
    }
}

/// A file that is cut short is noticed where the key or the length of a list is
/// cut off: where a file is the beginning of one that is mapped, and does not hold
/// the length of the last list of that, it is not mapped, and no error is given.
pub proof fn mapping_notices_what_is_cut_short<E: Engine>(
    whole: &[u8],
    m: MappedParameters<E>,
    whole_checked: bool,
    bytes: &[u8],
    checked: bool,
    result: Option<Result<MappedParameters<E>, ReadError>>,
)
    requires
        call_ensures(
            Parameters::<E>::try_build_mapped_parameters,
            (whole, whole_checked),
            Some(Ok::<MappedParameters<E>, ReadError>(m)),
        ),
        call_ensures(Parameters::<E>::try_build_mapped_parameters, (bytes, checked), result),
        bytes@.len() <= whole@.len(),
        bytes@ == whole@.take(bytes@.len() as int),
        ({
            let g1 = E::G1Affine::size() as int;
            let h = 3 * g1 + 3 * (E::G2Affine::size() as int) + 4 + m.vk.ic@.len() * g1;
            let l = h + 4 + m.h@.len() * g1;
            let a = l + 4 + m.l@.len() * g1;
            let b_g1 = a + 4 + m.a@.len() * g1;
            let b_g2 = b_g1 + 4 + m.b_g1@.len() * g1;
            bytes@.len() < b_g2 + 4
        }),
    ensures
        result is None,
{
    let g1 = E::G1Affine::size();
    let len = bytes@.len();
    let (vk, n) = key::<E>(whole@)->Ok_0;
    let at = layout::<E>(whole@, n)->Some_0;
    lemma_key_lies::<E>(whole@, m.vk, n);
    lemma_key_cut::<E>(whole@, len);
    lemma_section_cut(whole@, len, n);
    lemma_section_cut(whole@, len, at.h.end(g1));
    lemma_section_cut(whole@, len, at.l.end(g1));
    lemma_section_cut(whole@, len, at.a.end(g1));
    lemma_section_cut(whole@, len, at.b_g1.end(g1));
}

} // verus!
