//! Steps of the proofs about where the parts of a set of parameters lie.

use vstd::prelude::*;

use crate::engine::{encodings, CurvePoint, Engine};
use crate::format::{
    good_key, good_parameters, good_point, good_points, key_bytes, parameters_bytes,
    section_bytes, KeyView, ParametersView,
};
use crate::lemmas::{
    lemma_five, lemma_key_parts, lemma_key_then_lists, lemma_pieces, lemma_three, slot,
};
use crate::params::Parameters;
use crate::wire::{be32_bytes, count_word, lemma_be32_of_bytes};

verus! {

/// The value of the four bytes from `at` on, most significant byte first.
pub(crate) open spec fn word_at(all: Seq<u8>, at: int) -> int {
    all[at] * 0x100_0000 + all[at + 1] * 0x1_0000 + all[at + 2] * 0x100 + all[at + 3]
}

/// Whether the points of a list have the given size.
pub(crate) open spec fn of_size(points: Seq<Seq<u8>>, size: int) -> bool {
    forall|i: int| 0 <= i < points.len() ==> (#[trigger] points[i]).len() == size
}

/// Whether a list lies at an offset: a word with its length, then its points
/// one behind the other.
#[verifier::opaque]
pub(crate) open spec fn lies_at(
    all: Seq<u8>,
    at: int,
    size: int,
    points: Seq<Seq<u8>>,
) -> bool {
    &&& 0 <= at
    &&& at + 4 + points.len() * size <= all.len()
    &&& word_at(all, at) == points.len() as int % 0x1_0000_0000
    &&& forall|i: int|
        0 <= i < points.len() ==> #[trigger] points[i] == all.subrange(
            at + 4 + i * size,
            at + 4 + i * size + size,
        )
}

/// Where a list of points of the given size ends.
pub(crate) open spec fn end_of(at: int, size: int, points: Seq<Seq<u8>>) -> int {
    at + 4 + points.len() * size
}

/// A piece lies where the bytes begin with it.
pub(crate) proof fn lemma_place_point(all: Seq<u8>, at: int, point: Seq<u8>, rest: Seq<u8>)
    requires
        0 <= at <= all.len(),
        all.skip(at) == point + rest,
    ensures
        at + point.len() <= all.len(),
        point == all.subrange(at, at + point.len()),
        all.skip(at + point.len()) == rest,
{
    let after = all.skip(at);
    assert(after.len() == point.len() + rest.len());
    assert forall|k: int| 0 <= k < point.len() implies point[k] == all[at + k] by {
        assert(after[k] == (point + rest)[k]);
    }
    assert(point =~= all.subrange(at, at + point.len()));
    assert forall|k: int| 0 <= k < rest.len() implies rest[k] == all[at + point.len() + k] by {
        assert(after[point.len() + k] == (point + rest)[point.len() + k]);
    }
    assert(all.skip(at + point.len()) =~= rest);
}

/// Three pieces lie where the bytes begin with them.
pub(crate) proof fn lemma_place_three(
    all: Seq<u8>,
    at: int,
    a: Seq<u8>,
    b: Seq<u8>,
    c: Seq<u8>,
    rest: Seq<u8>,
)
    requires
        0 <= at <= all.len(),
        all.skip(at) == a + (b + (c + rest)),
    ensures
        at + a.len() + b.len() + c.len() <= all.len(),
        a == all.subrange(at, at + a.len()),
        b == all.subrange(at + a.len(), at + a.len() + b.len()),
        c == all.subrange(at + a.len() + b.len(), at + a.len() + b.len() + c.len()),
        all.skip(at + a.len() + b.len() + c.len()) == rest,
{
    lemma_place_point(all, at, a, b + (c + rest));
    lemma_place_point(all, at + a.len(), b, c + rest);
    lemma_place_point(all, at + a.len() + b.len(), c, rest);
}

/// The word that stands for a length.
pub(crate) proof fn lemma_place_word(all: Seq<u8>, at: int, len: nat, rest: Seq<u8>)
    requires
        0 <= at <= all.len(),
        all.skip(at) == count_word(len) + rest,
    ensures
        at + 4 <= all.len(),
        word_at(all, at) == len as int % 0x1_0000_0000,
        all.skip(at + 4) == rest,
{
    let word = (len % 0x1_0000_0000) as u32;
    lemma_be32_of_bytes(word);
    lemma_place_point(all, at, count_word(len), rest);
    assert(forall|i: int| 0 <= i < 4 ==> be32_bytes(word)[i] == all.subrange(at, at + 4)[i]);
    assert(be32_bytes(word)[0] == all[at]);
    assert(be32_bytes(word)[1] == all[at + 1]);
    assert(be32_bytes(word)[2] == all[at + 2]);
    assert(be32_bytes(word)[3] == all[at + 3]);
}

/// A list lies where the bytes begin with it.
pub(crate) proof fn lemma_place_list(
    all: Seq<u8>,
    at: int,
    size: nat,
    points: Seq<Seq<u8>>,
    rest: Seq<u8>,
)
    requires
        0 <= at <= all.len(),
        all.skip(at) == section_bytes(points) + rest,
        of_size(points, size as int),
    ensures
        lies_at(all, at, size as int, points),
        0 <= end_of(at, size as int, points) <= all.len(),
        all.skip(end_of(at, size as int, points)) == rest,
{
    let list = points.flatten();
    lemma_three(count_word(points.len()), list, rest);
    lemma_place_word(all, at, points.len(), list + rest);
    lemma_place_point(all, at + 4, list, rest);
    lemma_pieces(points, size);
    let s = size as int;
    assert forall|i: int| 0 <= i < points.len() implies #[trigger] points[i] == all.subrange(
        at + 4 + i * s,
        at + 4 + i * s + s,
    ) by {
        assert(0 <= i * s && i * s + s <= points.len() * s) by (nonlinear_arith)
            requires
                0 <= i < points.len(),
                s >= 0,
        ;
        assert(slot(list, 0, s, i) =~= all.subrange(at + 4 + i * s, at + 4 + i * s + s));
    }
    reveal(lies_at);
}

/// Where the list of a verifying key begins.
pub(crate) open spec fn ic_start<E: Engine>() -> int {
    3 * (E::G1Affine::size() as int) + 3 * (E::G2Affine::size() as int)
}

/// Whether the points of a key have the sizes of encodings.
pub(crate) open spec fn key_of_size<E: Engine>(vk: KeyView) -> bool {
    &&& vk.alpha_g1.len() == E::G1Affine::size()
    &&& vk.beta_g1.len() == E::G1Affine::size()
    &&& vk.beta_g2.len() == E::G2Affine::size()
    &&& vk.gamma_g2.len() == E::G2Affine::size()
    &&& vk.delta_g1.len() == E::G1Affine::size()
    &&& vk.delta_g2.len() == E::G2Affine::size()
    &&& of_size(vk.ic, E::G1Affine::size() as int)
}

/// Whether the points of the lists have the sizes of encodings.
pub(crate) open spec fn lists_of_size<E: Engine>(params: ParametersView) -> bool {
    &&& of_size(params.h, E::G1Affine::size() as int)
    &&& of_size(params.l, E::G1Affine::size() as int)
    &&& of_size(params.a, E::G1Affine::size() as int)
    &&& of_size(params.b_g1, E::G1Affine::size() as int)
    &&& of_size(params.b_g2, E::G2Affine::size() as int)
}

/// Whether the leading points of a key lie at the front of the bytes.
#[verifier::opaque]
pub(crate) open spec fn leads<E: Engine>(all: Seq<u8>, vk: KeyView) -> bool {
    let g1 = E::G1Affine::size() as int;
    let g2 = E::G2Affine::size() as int;
    &&& 3 * g1 + 3 * g2 <= all.len()
    &&& vk.alpha_g1 == all.subrange(0, g1)
    &&& vk.beta_g1 == all.subrange(g1, 2 * g1)
    &&& vk.beta_g2 == all.subrange(2 * g1, 2 * g1 + g2)
    &&& vk.gamma_g2 == all.subrange(2 * g1 + g2, 2 * g1 + 2 * g2)
    &&& vk.delta_g1 == all.subrange(2 * g1 + 2 * g2, 3 * g1 + 2 * g2)
    &&& vk.delta_g2 == all.subrange(3 * g1 + 2 * g2, 3 * g1 + 3 * g2)
}

/// The leading points lie one behind the other.
proof fn lemma_place_leading<E: Engine>(all: Seq<u8>, vk: KeyView, rest: Seq<u8>)
    requires
        all == vk.alpha_g1 + (vk.beta_g1 + (vk.beta_g2 + (vk.gamma_g2 + (vk.delta_g1 + (vk.delta_g2
            + rest))))),
        key_of_size::<E>(vk),
    ensures
        leads::<E>(all, vk),
        ic_start::<E>() <= all.len(),
        all.skip(ic_start::<E>()) == rest,
{
    let g1 = E::G1Affine::size() as int;
    let g2 = E::G2Affine::size() as int;
    let r3 = vk.gamma_g2 + (vk.delta_g1 + (vk.delta_g2 + rest));
    assert(all.skip(0) =~= all);
    lemma_place_three(all, 0, vk.alpha_g1, vk.beta_g1, vk.beta_g2, r3);
    lemma_place_three(all, 2 * g1 + g2, vk.gamma_g2, vk.delta_g1, vk.delta_g2, rest);
    reveal(leads);
}

/// The parts of a key lie one behind the other.
pub(crate) proof fn lemma_place_key<E: Engine>(all: Seq<u8>, vk: KeyView, rest: Seq<u8>)
    requires
        all == key_bytes(vk) + rest,
        key_of_size::<E>(vk),
    ensures
        leads::<E>(all, vk),
        lies_at(all, ic_start::<E>(), E::G1Affine::size() as int, vk.ic),
        0 <= end_of(ic_start::<E>(), E::G1Affine::size() as int, vk.ic) <= all.len(),
        all.skip(end_of(ic_start::<E>(), E::G1Affine::size() as int, vk.ic)) == rest,
{
    lemma_key_parts(vk, rest);
    lemma_place_leading::<E>(all, vk, section_bytes(vk.ic) + rest);
    lemma_place_list(all, ic_start::<E>(), E::G1Affine::size(), vk.ic, rest);
}

/// The lists lie one behind the other.
pub(crate) proof fn lemma_place_lists<E: Engine>(
    all: Seq<u8>,
    at: int,
    params: ParametersView,
    rest: Seq<u8>,
)
    requires
        0 <= at <= all.len(),
        all.skip(at) == section_bytes(params.h) + section_bytes(params.l) + section_bytes(params.a)
            + section_bytes(params.b_g1) + section_bytes(params.b_g2) + rest,
        lists_of_size::<E>(params),
    ensures
        ({
            let g1 = E::G1Affine::size() as int;
            let g2 = E::G2Affine::size() as int;
            let l = end_of(at, g1, params.h);
            let a = end_of(l, g1, params.l);
            let b_g1 = end_of(a, g1, params.a);
            let b_g2 = end_of(b_g1, g1, params.b_g1);
            let end = end_of(b_g2, g2, params.b_g2);
            &&& lies_at(all, at, g1, params.h)
            &&& lies_at(all, l, g1, params.l)
            &&& lies_at(all, a, g1, params.a)
            &&& lies_at(all, b_g1, g1, params.b_g1)
            &&& lies_at(all, b_g2, g2, params.b_g2)
            &&& 0 <= end <= all.len()
            &&& all.skip(end) == rest
        }),
{
    let g1 = E::G1Affine::size();
    let g2 = E::G2Affine::size();
    let h = section_bytes(params.h);
    let l = section_bytes(params.l);
    let a = section_bytes(params.a);
    let b_g1 = section_bytes(params.b_g1);
    let b_g2 = section_bytes(params.b_g2);
    lemma_five(h, l, a, b_g1, b_g2, rest);
    let at_l = end_of(at, g1 as int, params.h);
    let at_a = end_of(at_l, g1 as int, params.l);
    let at_b_g1 = end_of(at_a, g1 as int, params.a);
    let at_b_g2 = end_of(at_b_g1, g1 as int, params.b_g1);
    lemma_place_list(all, at, g1, params.h, l + (a + (b_g1 + (b_g2 + rest))));
    lemma_place_list(all, at_l, g1, params.l, a + (b_g1 + (b_g2 + rest)));
    lemma_place_list(all, at_a, g1, params.a, b_g1 + (b_g2 + rest));
    lemma_place_list(all, at_b_g1, g1, params.b_g1, b_g2 + rest);
    lemma_place_list(all, at_b_g2, g2, params.b_g2, rest);
}

/// Where the bytes of a set of parameters begin the input, its parts lie one
/// behind the other.
pub(crate) open spec fn placed<E: Engine>(all: Seq<u8>, params: ParametersView, end: int) -> bool {
    let g1 = E::G1Affine::size() as int;
    let g2 = E::G2Affine::size() as int;
    let ic = ic_start::<E>();
    let h = end_of(ic, g1, params.vk.ic);
    let l = end_of(h, g1, params.h);
    let a = end_of(l, g1, params.l);
    let b_g1 = end_of(a, g1, params.a);
    let b_g2 = end_of(b_g1, g1, params.b_g1);
    &&& leads::<E>(all, params.vk)
    &&& lies_at(all, ic, g1, params.vk.ic)
    &&& lies_at(all, h, g1, params.h)
    &&& lies_at(all, l, g1, params.l)
    &&& lies_at(all, a, g1, params.a)
    &&& lies_at(all, b_g1, g1, params.b_g1)
    &&& lies_at(all, b_g2, g2, params.b_g2)
    &&& end == end_of(b_g2, g2, params.b_g2)
    &&& 0 <= end <= all.len()
}

/// The parts of a set of parameters lie one behind the other in its bytes.
pub(crate) proof fn lemma_placed<E: Engine>(params: ParametersView, rest: Seq<u8>)
    requires
        key_of_size::<E>(params.vk),
        lists_of_size::<E>(params),
    ensures
        placed::<E>(
            parameters_bytes(params) + rest,
            params,
            parameters_bytes(params).len() as int,
        ),
{
    let all = parameters_bytes(params) + rest;
    let lists = section_bytes(params.h) + section_bytes(params.l) + section_bytes(params.a)
        + section_bytes(params.b_g1) + section_bytes(params.b_g2) + rest;
    let g1 = E::G1Affine::size() as int;
    let h = end_of(ic_start::<E>(), g1, params.vk.ic);
    lemma_key_then_lists(params, rest);
    lemma_place_key::<E>(all, params.vk, lists);
    lemma_place_lists::<E>(all, h, params, rest);
}

/// The points of a list that can be read have the size of encodings.
pub(crate) proof fn lemma_good_list_of_size<P: CurvePoint>(points: Seq<Seq<u8>>, checked: bool)
    requires
        good_points::<P>(points, checked),
    ensures
        of_size(points, P::size() as int),
{
    assert forall|i: int| 0 <= i < points.len() implies (#[trigger] points[i]).len()
        == P::size() by {
        assert(good_point::<P>(points[i], checked));
        P::admitted_encodings(points[i], checked);
    }
}

/// The points of a key that can be read have the sizes of encodings.
pub(crate) proof fn lemma_good_key_of_size<E: Engine>(vk: KeyView)
    requires
        good_key::<E>(vk),
    ensures
        key_of_size::<E>(vk),
{
    E::G1Affine::admitted_encodings(vk.alpha_g1, true);
    E::G1Affine::admitted_encodings(vk.beta_g1, true);
    E::G2Affine::admitted_encodings(vk.beta_g2, true);
    E::G2Affine::admitted_encodings(vk.gamma_g2, true);
    E::G1Affine::admitted_encodings(vk.delta_g1, true);
    E::G2Affine::admitted_encodings(vk.delta_g2, true);
    lemma_good_list_of_size::<E::G1Affine>(vk.ic, true);
}

/// The points of parameters that can be read have the sizes of encodings.
pub(crate) proof fn lemma_good_of_size<E: Engine>(params: ParametersView, checked: bool)
    requires
        good_parameters::<E>(params, checked),
    ensures
        key_of_size::<E>(params.vk),
        lists_of_size::<E>(params),
{
    lemma_good_key_of_size::<E>(params.vk);
    lemma_good_list_of_size::<E::G1Affine>(params.h, checked);
    lemma_good_list_of_size::<E::G1Affine>(params.l, checked);
    lemma_good_list_of_size::<E::G1Affine>(params.a, checked);
    lemma_good_list_of_size::<E::G1Affine>(params.b_g1, checked);
    lemma_good_list_of_size::<E::G2Affine>(params.b_g2, checked);
}

/// Where the input begins with the bytes of parameters, these lie at its front.
pub(crate) proof fn lemma_placed_in<E: Engine>(
    bytes: Seq<u8>,
    params: ParametersView,
    used: nat,
    checked: bool,
)
    requires
        used <= bytes.len(),
        parameters_bytes(params) == bytes.take(used as int),
        good_parameters::<E>(params, checked),
    ensures
        placed::<E>(bytes, params, used as int),
{
    let front = bytes.take(used as int);
    let rest = bytes.skip(used as int);
    lemma_good_of_size::<E>(params, checked);
    assert(front + rest =~= bytes);
    lemma_placed::<E>(params, rest);
}

/// The points of a list lie where their encodings do.
pub(crate) proof fn lemma_points_lie<P: CurvePoint>(
    all: Seq<u8>,
    at: int,
    size: int,
    points: Seq<P>,
)
    requires
        lies_at(all, at, size, encodings(points)),
    ensures
        encodings(points).len() == points.len(),
        list_lies(all, at, size, points),
{
    reveal(lies_at);
    reveal(list_lies);
    assert forall|i: int| 0 <= i < points.len() implies (#[trigger] points[i])@ == all.subrange(
        at + 4 + i * size,
        at + 4 + i * size + size,
    ) by {
        assert(encodings(points)[i] == points[i]@);
    }
}

/// Whether a list of points lies at an offset.
#[verifier::opaque]
pub(crate) open spec fn list_lies<P: CurvePoint>(
    all: Seq<u8>,
    at: int,
    size: int,
    points: Seq<P>,
) -> bool {
    &&& word_at(all, at) == points.len() as int % 0x1_0000_0000
    &&& forall|i: int|
        0 <= i < points.len() ==> (#[trigger] points[i])@ == all.subrange(
            at + 4 + i * size,
            at + 4 + i * size + size,
        )
}

/// Whether the points of parameters lie one behind the other in the bytes, each
/// list behind its length, and end at an offset.
pub(crate) open spec fn fields_lie<E: Engine>(
    all: Seq<u8>,
    params: Parameters<E>,
    end: int,
) -> bool {
    let g1 = E::G1Affine::size() as int;
    let g2 = E::G2Affine::size() as int;
    let ic = 3 * g1 + 3 * g2;
    let h = ic + 4 + params.vk.ic@.len() * g1;
    let l = h + 4 + params.h@.len() * g1;
    let a = l + 4 + params.l@.len() * g1;
    let b_g1 = a + 4 + params.a@.len() * g1;
    let b_g2 = b_g1 + 4 + params.b_g1@.len() * g1;
    &&& end == b_g2 + 4 + params.b_g2@.len() * g2
    &&& 0 <= end <= all.len()
    &&& leads::<E>(all, params.vk@)
    &&& list_lies(all, ic, g1, params.vk.ic@)
    &&& list_lies(all, h, g1, params.h@)
    &&& list_lies(all, l, g1, params.l@)
    &&& list_lies(all, a, g1, params.a@)
    &&& list_lies(all, b_g1, g1, params.b_g1@)
    &&& list_lies(all, b_g2, g2, params.b_g2@)
}

/// The points of the lists lie where their encodings do.
pub(crate) proof fn lemma_fields_lie<E: Engine>(all: Seq<u8>, params: Parameters<E>, end: int)
    requires
        placed::<E>(all, params@, end),
    ensures
        fields_lie::<E>(all, params, end),
{
    let g1 = E::G1Affine::size() as int;
    let g2 = E::G2Affine::size() as int;
    let ic = 3 * g1 + 3 * g2;
    let h = end_of(ic, g1, params@.vk.ic);
    let l = end_of(h, g1, params@.h);
    let a = end_of(l, g1, params@.l);
    let b_g1 = end_of(a, g1, params@.a);
    let b_g2 = end_of(b_g1, g1, params@.b_g1);
    lemma_points_lie(all, ic, g1, params.vk.ic@);
    lemma_points_lie(all, h, g1, params.h@);
    lemma_points_lie(all, l, g1, params.l@);
    lemma_points_lie(all, a, g1, params.a@);
    lemma_points_lie(all, b_g1, g1, params.b_g1@);
    lemma_points_lie(all, b_g2, g2, params.b_g2@);
}

} // verus!
