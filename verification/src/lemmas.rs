//! Steps of the proofs about the format.

use vstd::prelude::*;

use crate::engine::{CurvePoint, Engine};
use crate::format::{
    advance, finite_point, good_key, good_list, good_parameters, good_point, good_points, key,
    key_bytes, key_of, key_point, key_point_in_g1, key_point_size, key_points_from, lists,
    parameters, parameters_bytes, points_from, section, section_bytes, sized_key,
    sized_list, sized_parameters, KeyView, ParametersView,
};
use crate::mapped::{layout, range_holds, ranges_hold, section_at, Section};
use crate::wire::{
    be32, be32_bytes, count_word, lemma_be32_of_bytes, lemma_bytes_of_be32, ReadError,
};

verus! {

/// The bytes of the `i`-th of the points of `size` bytes that lie one behind
/// the other from `start` on.
pub(crate) open spec fn slot(bytes: Seq<u8>, start: int, size: int, i: int) -> Seq<u8> {
    bytes.subrange(start + i * size, start + i * size + size)
}

/// What a list that could be read holds: the points read before, and the points
/// that lie one behind the other in the bytes.
pub(crate) proof fn lemma_points<P: CurvePoint>(
    got: Seq<Seq<u8>>,
    count: nat,
    bytes: Seq<u8>,
    checked: bool,
)
    requires
        got.len() <= count,
        points_from::<P>(got, count, bytes, checked) is Ok,
    ensures
        ({
            let (points, used) = points_from::<P>(got, count, bytes, checked)->Ok_0;
            &&& used <= bytes.len()
            &&& used == (count - got.len()) * P::size()
            &&& points.len() == count
            &&& points.take(got.len() as int) == got
            &&& good_points::<P>(points.skip(got.len() as int), checked)
            &&& points.skip(got.len() as int).flatten() == bytes.take(used as int)
            &&& forall|i: int|
                0 <= i < count - got.len() ==> #[trigger] points[got.len() + i] == slot(
                    bytes,
                    0,
                    P::size() as int,
                    i,
                )
        }),
    decreases count - got.len(),
{
    let (points, used) = points_from::<P>(got, count, bytes, checked)->Ok_0;
    let g = got.len() as int;
    let size = P::size() as int;
    if got.len() == count {
        assert(points.skip(g) =~= Seq::empty());
        assert(points.take(g) =~= got);
        assert(bytes.take(0) =~= Seq::empty());
        assert(0 * size == 0);
    } else {
        let repr = bytes.take(size);
        let rest = bytes.skip(size);
        let more = got.push(repr);
        lemma_points::<P>(more, count, rest, checked);
        let left = (count - g - 1) as int;
        assert((left + 1) * size == left * size + size) by (nonlinear_arith);
        assert(points.take(g) =~= got) by {
            assert(points.take(g) =~= points.take(g + 1).take(g));
            assert(more.take(g) =~= got);
        }
        assert(points[g] == repr) by {
            assert(points.take(g + 1)[g] == more[g]);
        }
        let tail = points.skip(g);
        assert(tail.drop_first() =~= points.skip(g + 1));
        assert(tail.first() == repr);
        assert(tail.flatten() =~= repr + points.skip(g + 1).flatten());
        assert(repr + rest.take(used - size) =~= bytes.take(used as int));
        assert forall|i: int| 0 <= i < tail.len() implies good_point::<P>(
            #[trigger] tail[i],
            checked,
        ) by {
            if i > 0 {
                assert(tail[i] == points.skip(g + 1)[i - 1]);
            }
        }
        assert forall|i: int| 0 <= i < count - g implies #[trigger] points[g + i] == slot(
            bytes,
            0,
            size,
            i,
        ) by {
            if i == 0 {
                assert(0 * size == 0);
                assert(bytes.subrange(0, size) =~= repr);
            } else {
                assert(points[more.len() + (i - 1)] == slot(rest, 0, size, i - 1));
                assert(i * size == (i - 1) * size + size) by (nonlinear_arith);
                assert(0 <= (i - 1) * size) by (nonlinear_arith)
                    requires
                        i >= 1,
                        size >= 0,
                ;
                assert(i * size <= left * size) by (nonlinear_arith)
                    requires
                        i <= left,
                        size >= 0,
                ;
                assert(slot(rest, 0, size, i - 1) =~= slot(bytes, 0, size, i));
            }
        }
    }
}

/// The word in front of a list is that of its length.
pub(crate) proof fn lemma_word_of_count(bytes: Seq<u8>)
    requires
        bytes.len() >= 4,
    ensures
        be32(bytes) <= u32::MAX,
        count_word(be32(bytes)) == bytes.take(4),
{
    let word = bytes.take(4);
    lemma_bytes_of_be32(word);
    assert(be32(word) == be32(bytes));
}

/// The points of a list lie behind the word with its length.
pub(crate) proof fn lemma_behind_word(bytes: Seq<u8>, size: int, count: int, i: int)
    requires
        0 <= i < count,
        0 <= size,
        4 + count * size <= bytes.len(),
    ensures
        slot(bytes.skip(4), 0, size, i) == slot(bytes, 4, size, i),
{
    assert(0 <= i * size && i * size + size <= count * size) by (nonlinear_arith)
        requires
            0 <= i < count,
            size >= 0,
    ;
    assert(slot(bytes.skip(4), 0, size, i) =~= slot(bytes, 4, size, i));
}

/// What a list at the front of the bytes holds.
pub(crate) proof fn lemma_section<P: CurvePoint>(bytes: Seq<u8>, checked: bool)
    requires
        section::<P>(bytes, checked) is Ok,
    ensures
        ({
            let (points, used) = section::<P>(bytes, checked)->Ok_0;
            &&& 4 <= used <= bytes.len()
            &&& used == 4 + points.len() * P::size()
            &&& points.len() == be32(bytes)
            &&& points.len() <= u32::MAX
            &&& good_points::<P>(points, checked)
            &&& section_bytes(points) == bytes.take(used as int)
            &&& forall|i: int|
                0 <= i < points.len() ==> #[trigger] points[i] == slot(
                    bytes,
                    4,
                    P::size() as int,
                    i,
                )
        }),
{
    let (points, used) = section::<P>(bytes, checked)->Ok_0;
    let rest = bytes.skip(4);
    let size = P::size() as int;
    let none = Seq::<Seq<u8>>::empty();
    lemma_points::<P>(none, be32(bytes), rest, checked);
    assert(points.skip(0) =~= points);
    lemma_word_of_count(bytes);
    lemma_take_more(bytes, 4, (used - 4) as nat);
    assert forall|i: int| 0 <= i < points.len() implies #[trigger] points[i] == slot(
        bytes,
        4,
        size,
        i,
    ) by {
        assert(points[none.len() + i] == slot(rest, 0, size, i));
        lemma_behind_word(bytes, size, points.len() as int, i);
    }
}

/// The points of a list are read back from their bytes.
pub(crate) proof fn lemma_points_of_bytes<P: CurvePoint>(
    got: Seq<Seq<u8>>,
    points: Seq<Seq<u8>>,
    tail: Seq<u8>,
    checked: bool,
)
    requires
        good_points::<P>(points, checked),
    ensures
        points_from::<P>(got, got.len() + points.len(), points.flatten() + tail, checked) == Ok::<
            (Seq<Seq<u8>>, nat),
            ReadError,
        >((got + points, points.flatten().len())),
    decreases points.len(),
{
    let bytes = points.flatten() + tail;
    if points.len() == 0 {
        assert(got + points =~= got);
    } else {
        let first = points.first();
        let others = points.drop_first();
        assert(first == points[0]);
        P::admitted_encodings(first, checked);
        assert forall|i: int| 0 <= i < others.len() implies good_point::<P>(
            #[trigger] others[i],
            checked,
        ) by {
            assert(others[i] == points[i + 1]);
        }
        assert(bytes.take(P::size() as int) =~= first);
        assert(bytes.skip(P::size() as int) =~= others.flatten() + tail);
        lemma_points_of_bytes::<P>(got.push(first), others, tail, checked);
        assert(got.push(first) + others =~= got + points);
        assert(points.flatten().len() == first.len() + others.flatten().len());
    }
}

/// The word in front of a list gives its length.
pub(crate) proof fn lemma_count_word(len: nat, rest: Seq<u8>)
    requires
        len <= u32::MAX,
    ensures
        count_word(len).len() == 4,
        be32(count_word(len) + rest) == len,
{
    let word = len as u32;
    lemma_be32_of_bytes(word);
    let bytes = count_word(len) + rest;
    assert(forall|i: int| 0 <= i < 4 ==> bytes[i] == be32_bytes(word)[i]);
}

/// A list is read back from its bytes.
pub(crate) proof fn lemma_section_of_bytes<P: CurvePoint>(
    points: Seq<Seq<u8>>,
    tail: Seq<u8>,
    checked: bool,
)
    requires
        good_list::<P>(points, checked),
    ensures
        section::<P>(section_bytes(points) + tail, checked) == Ok::<
            (Seq<Seq<u8>>, nat),
            ReadError,
        >((points, section_bytes(points).len())),
{
    let word = count_word(points.len());
    let list = points.flatten();
    let none = Seq::<Seq<u8>>::empty();
    lemma_count_word(points.len(), list + tail);
    lemma_three(word, list, tail);
    lemma_front(word, list + tail);
    assert(none + points =~= points);
    lemma_points_of_bytes::<P>(none, points, tail, checked);
    assert(section::<P>(word + (list + tail), checked) == advance(
        points_from::<P>(none, points.len(), list + tail, checked),
        4,
    ));
}

/// Of two pieces, the first is taken and the second is left.
pub(crate) proof fn lemma_front(a: Seq<u8>, b: Seq<u8>)
    ensures
        (a + b).take(a.len() as int) == a,
        (a + b).skip(a.len() as int) == b,
{
    assert((a + b).take(a.len() as int) =~= a);
    assert((a + b).skip(a.len() as int) =~= b);
}

/// What is left of five pieces, and of what follows them, after each piece.
pub(crate) proof fn lemma_five(
    a: Seq<u8>,
    b: Seq<u8>,
    c: Seq<u8>,
    d: Seq<u8>,
    e: Seq<u8>,
    tail: Seq<u8>,
)
    ensures
        ({
            let all = a + b + c + d + e + tail;
            let (na, nb, nc, nd) = (a.len(), b.len(), c.len(), d.len());
            &&& all == a + (b + (c + (d + (e + tail))))
            &&& all.skip(na as int) == b + (c + (d + (e + tail)))
            &&& all.skip((na + nb) as int) == c + (d + (e + tail))
            &&& all.skip((na + nb + nc) as int) == d + (e + tail)
            &&& all.skip((na + nb + nc + nd) as int) == e + tail
        }),
{
    let all = a + b + c + d + e + tail;
    let (na, nb, nc, nd) = (a.len(), b.len(), c.len(), d.len());
    assert(all =~= a + (b + (c + (d + (e + tail)))));
    assert(all.skip(na as int) =~= b + (c + (d + (e + tail))));
    assert(all.skip((na + nb) as int) =~= c + (d + (e + tail)));
    assert(all.skip((na + nb + nc) as int) =~= d + (e + tail));
    assert(all.skip((na + nb + nc + nd) as int) =~= e + tail);
}

/// Three pieces can be grouped either way.
pub(crate) proof fn lemma_three(a: Seq<u8>, b: Seq<u8>, c: Seq<u8>)
    ensures
        (a + b) + c == a + (b + c),
        (a + b).len() == a.len() + b.len(),
{
    assert((a + b) + c =~= a + (b + c));
}

/// Parameters are a key and the lists behind it.
pub(crate) proof fn lemma_parts<E: Engine>(
    bytes: Seq<u8>,
    n0: nat,
    params: ParametersView,
    n1: nat,
    checked: bool,
)
    requires
        key::<E>(bytes) == Ok::<(KeyView, nat), ReadError>((params.vk, n0)),
        lists::<E>(params.vk, bytes.skip(n0 as int), checked) == Ok::<
            (ParametersView, nat),
            ReadError,
        >((params, n1)),
    ensures
        parameters::<E>(bytes, checked) == Ok::<(ParametersView, nat), ReadError>(
            (params, n0 + n1),
        ),
{
}

/// Six pieces are the first, and the other five.
pub(crate) proof fn lemma_six(
    a: Seq<u8>,
    b: Seq<u8>,
    c: Seq<u8>,
    d: Seq<u8>,
    e: Seq<u8>,
    f: Seq<u8>,
)
    ensures
        a + b + c + d + e + f == a + (b + c + d + e + f),
{
    assert(a + b + c + d + e + f =~= a + (b + c + d + e + f));
}

/// The leading points of a key are read back from their bytes.
pub(crate) proof fn lemma_key_points_of_bytes<E: Engine>(
    got: Seq<Seq<u8>>,
    vk: KeyView,
    tail: Seq<u8>,
)
    requires
        good_key::<E>(vk),
        got.len() <= 6,
    ensures
        key_points_from::<E>(got, leading(vk).skip(got.len() as int).flatten() + tail) == Ok::<
            (Seq<Seq<u8>>, nat),
            ReadError,
        >(
            (
                got + leading(vk).skip(got.len() as int),
                leading(vk).skip(got.len() as int).flatten().len(),
            ),
        ),
    decreases 6 - got.len(),
{
    let k = got.len() as int;
    let points = leading(vk).skip(k);
    if k == 6 {
        assert(got + points =~= got);
    } else {
        let first = points.first();
        let others = points.drop_first();
        assert(first == leading(vk)[k]);
        if key_point_in_g1(k) {
            E::G1Affine::admitted_encodings(first, true);
        } else {
            E::G2Affine::admitted_encodings(first, true);
        }
        assert(others =~= leading(vk).skip(k + 1));
        assert(points.flatten() + tail =~= first + (others.flatten() + tail));
        lemma_front(first, others.flatten() + tail);
        lemma_key_points_of_bytes::<E>(got.push(first), vk, tail);
        assert(got.push(first) + others =~= got + points);
    }
}

/// The leading points of a key.
pub(crate) open spec fn leading(vk: KeyView) -> Seq<Seq<u8>> {
    seq![vk.alpha_g1, vk.beta_g1, vk.beta_g2, vk.gamma_g2, vk.delta_g1, vk.delta_g2]
}

/// The bytes of a key are those of its leading points and of its list.
pub(crate) proof fn lemma_key_bytes(vk: KeyView)
    ensures
        key_bytes(vk) == leading(vk).flatten() + section_bytes(vk.ic),
{
    let none = Seq::<Seq<u8>>::empty();
    let s1 = none.push(vk.alpha_g1);
    let s2 = s1.push(vk.beta_g1);
    let s3 = s2.push(vk.beta_g2);
    let s4 = s3.push(vk.gamma_g2);
    let s5 = s4.push(vk.delta_g1);
    let s6 = s5.push(vk.delta_g2);
    none.lemma_flatten_push(vk.alpha_g1);
    s1.lemma_flatten_push(vk.beta_g1);
    s2.lemma_flatten_push(vk.beta_g2);
    s3.lemma_flatten_push(vk.gamma_g2);
    s4.lemma_flatten_push(vk.delta_g1);
    s5.lemma_flatten_push(vk.delta_g2);
    assert(none.flatten() + vk.alpha_g1 =~= vk.alpha_g1);
    assert(s6 =~= leading(vk));
}

/// A verifying key is read back from its bytes.
pub(crate) proof fn lemma_key_of_bytes<E: Engine>(vk: KeyView, tail: Seq<u8>)
    requires
        good_key::<E>(vk),
    ensures
        key::<E>(key_bytes(vk) + tail) == Ok::<(KeyView, nat), ReadError>(
            (vk, key_bytes(vk).len()),
        ),
{
    let none = Seq::<Seq<u8>>::empty();
    let heads = leading(vk).flatten();
    let rest = section_bytes(vk.ic) + tail;
    lemma_key_bytes(vk);
    assert(key_bytes(vk) + tail =~= heads + rest);
    assert(leading(vk).skip(0) =~= leading(vk));
    assert(none + leading(vk) =~= leading(vk));
    lemma_key_points_of_bytes::<E>(none, vk, rest);
    lemma_front(heads, rest);
    lemma_section_of_bytes::<E::G1Affine>(vk.ic, tail, true);
    assert(key_of(leading(vk), vk.ic) =~= vk);
}

/// The key is read back from the bytes of parameters, and the lists are left.
pub(crate) proof fn lemma_key_first<E: Engine>(params: ParametersView, rest: Seq<u8>)
    requires
        good_key::<E>(params.vk),
    ensures
        ({
            let bytes = parameters_bytes(params) + rest;
            let n = key_bytes(params.vk).len();
            &&& key::<E>(bytes) == Ok::<(KeyView, nat), ReadError>((params.vk, n))
            &&& bytes.skip(n as int) == section_bytes(params.h) + section_bytes(params.l)
                + section_bytes(params.a) + section_bytes(params.b_g1) + section_bytes(params.b_g2)
                + rest
        }),
{
    let lists = section_bytes(params.h) + section_bytes(params.l) + section_bytes(params.a)
        + section_bytes(params.b_g1) + section_bytes(params.b_g2) + rest;
    lemma_key_then_lists(params, rest);
    lemma_front(key_bytes(params.vk), lists);
    lemma_key_of_bytes::<E>(params.vk, lists);
}

/// The lists are read back from their bytes.
pub(crate) proof fn lemma_lists_of_bytes<E: Engine>(
    params: ParametersView,
    tail: Seq<u8>,
    checked: bool,
)
    requires
        good_parameters::<E>(params, checked),
    ensures
        ({
            let bytes = section_bytes(params.h) + section_bytes(params.l) + section_bytes(params.a)
                + section_bytes(params.b_g1) + section_bytes(params.b_g2);
            lists::<E>(params.vk, bytes + tail, checked) == Ok::<(ParametersView, nat), ReadError>(
                (params, bytes.len()),
            )
        }),
{
    let h = section_bytes(params.h);
    let l = section_bytes(params.l);
    let a = section_bytes(params.a);
    let b_g1 = section_bytes(params.b_g1);
    let b_g2 = section_bytes(params.b_g2);
    lemma_five(h, l, a, b_g1, b_g2, tail);
    lemma_section_of_bytes::<E::G1Affine>(params.h, l + (a + (b_g1 + (b_g2 + tail))), checked);
    lemma_section_of_bytes::<E::G1Affine>(params.l, a + (b_g1 + (b_g2 + tail)), checked);
    lemma_section_of_bytes::<E::G1Affine>(params.a, b_g1 + (b_g2 + tail), checked);
    lemma_section_of_bytes::<E::G1Affine>(params.b_g1, b_g2 + tail, checked);
    lemma_section_of_bytes::<E::G2Affine>(params.b_g2, tail, checked);
}

/// A piece and the piece behind it.
pub(crate) proof fn lemma_take_more(bytes: Seq<u8>, m: nat, n: nat)
    requires
        m + n <= bytes.len(),
    ensures
        bytes.take(m as int) + bytes.skip(m as int).take(n as int) == bytes.take((m + n) as int),
{
    assert(bytes.take(m as int) + bytes.skip(m as int).take(n as int) =~= bytes.take(
        (m + n) as int,
    ));
}

/// What the leading points of a key that could be read are.
pub(crate) proof fn lemma_key_points<E: Engine>(got: Seq<Seq<u8>>, bytes: Seq<u8>)
    requires
        got.len() <= 6,
        key_points_from::<E>(got, bytes) is Ok,
    ensures
        ({
            let (points, used) = key_points_from::<E>(got, bytes)->Ok_0;
            let k = got.len() as int;
            &&& used <= bytes.len()
            &&& points.len() == 6
            &&& points.take(k) == got
            &&& points.skip(k).flatten() == bytes.take(used as int)
            &&& forall|i: int|
                k <= i < 6 ==> if key_point_in_g1(i) {
                    E::G1Affine::admits(#[trigger] points[i], true)
                } else {
                    E::G2Affine::admits(points[i], true)
                }
        }),
    decreases 6 - got.len(),
{
    let (points, used) = key_points_from::<E>(got, bytes)->Ok_0;
    let k = got.len() as int;
    if k == 6 {
        assert(points.skip(k) =~= Seq::empty());
        assert(points.take(k) =~= got);
        assert(bytes.take(0) =~= Seq::empty());
    } else {
        let size = key_point_size::<E>(k);
        let repr = bytes.take(size as int);
        let more = got.push(repr);
        lemma_key_points::<E>(more, bytes.skip(size as int));
        assert(points.take(k) =~= points.take(k + 1).take(k));
        assert(more.take(k) =~= got);
        assert(points[k] == points.take(k + 1)[k]);
        let rest = points.skip(k);
        assert(rest.first() == repr);
        assert(rest.drop_first() =~= points.skip(k + 1));
        lemma_take_more(bytes, size, (used - size) as nat);
    }
}

/// What a key that could be read is.
pub(crate) proof fn lemma_key<E: Engine>(bytes: Seq<u8>)
    requires
        key::<E>(bytes) is Ok,
    ensures
        ({
            let (vk, used) = key::<E>(bytes)->Ok_0;
            &&& used <= bytes.len()
            &&& key_bytes(vk) == bytes.take(used as int)
            &&& good_key::<E>(vk)
        }),
{
    let none = Seq::<Seq<u8>>::empty();
    let (points, n0) = key_points_from::<E>(none, bytes)->Ok_0;
    let rest = bytes.skip(n0 as int);
    let (ic, n1) = section::<E::G1Affine>(rest, true)->Ok_0;
    let vk = key_of(points, ic);
    lemma_key_points::<E>(none, bytes);
    lemma_section::<E::G1Affine>(rest, true);
    assert(points.skip(0) =~= points);
    assert(leading(vk) =~= points);
    lemma_key_bytes(vk);
    lemma_take_more(bytes, n0, n1);
    assert(E::G1Affine::admits(points[0], true));
    assert(E::G1Affine::admits(points[1], true));
    assert(E::G2Affine::admits(points[2], true));
    assert(E::G2Affine::admits(points[3], true));
    assert(E::G1Affine::admits(points[4], true));
    assert(E::G2Affine::admits(points[5], true));
}

/// The parts of a set of parameters that could be read, with the number of
/// bytes of each.
pub(crate) proof fn lemma_lists<E: Engine>(vk: KeyView, bytes: Seq<u8>, checked: bool)
    requires
        lists::<E>(vk, bytes, checked) is Ok,
    ensures
        ({
            let (params, used) = lists::<E>(vk, bytes, checked)->Ok_0;
            &&& used <= bytes.len()
            &&& params.vk == vk
            &&& section_bytes(params.h) + section_bytes(params.l) + section_bytes(params.a)
                + section_bytes(params.b_g1) + section_bytes(params.b_g2) == bytes.take(
                used as int,
            )
            &&& good_list::<E::G1Affine>(params.h, checked)
            &&& good_list::<E::G1Affine>(params.l, checked)
            &&& good_list::<E::G1Affine>(params.a, checked)
            &&& good_list::<E::G1Affine>(params.b_g1, checked)
            &&& good_list::<E::G2Affine>(params.b_g2, checked)
        }),
{
    let (h, n1) = section::<E::G1Affine>(bytes, checked)->Ok_0;
    lemma_section::<E::G1Affine>(bytes, checked);
    let (l, n2) = section::<E::G1Affine>(bytes.skip(n1 as int), checked)->Ok_0;
    lemma_section::<E::G1Affine>(bytes.skip(n1 as int), checked);
    lemma_take_more(bytes, n1, n2);
    let (a, n3) = section::<E::G1Affine>(bytes.skip((n1 + n2) as int), checked)->Ok_0;
    lemma_section::<E::G1Affine>(bytes.skip((n1 + n2) as int), checked);
    lemma_take_more(bytes, n1 + n2, n3);
    let (b_g1, n4) = section::<E::G1Affine>(bytes.skip((n1 + n2 + n3) as int), checked)->Ok_0;
    lemma_section::<E::G1Affine>(bytes.skip((n1 + n2 + n3) as int), checked);
    lemma_take_more(bytes, n1 + n2 + n3, n4);
    let (b_g2, n5) = section::<E::G2Affine>(bytes.skip((n1 + n2 + n3 + n4) as int), checked)->Ok_0;
    lemma_section::<E::G2Affine>(bytes.skip((n1 + n2 + n3 + n4) as int), checked);
    lemma_take_more(bytes, n1 + n2 + n3 + n4, n5);
}

/// A list that is read with checks is read without them.
pub(crate) proof fn lemma_points_unchecked<P: CurvePoint>(
    got: Seq<Seq<u8>>,
    count: nat,
    bytes: Seq<u8>,
)
    requires
        points_from::<P>(got, count, bytes, true) is Ok,
    ensures
        points_from::<P>(got, count, bytes, false) == points_from::<P>(got, count, bytes, true),
    decreases count - got.len(),
{
    if got.len() < count {
        let repr = bytes.take(P::size() as int);
        P::admitted_encodings(repr, true);
        lemma_points_unchecked::<P>(got.push(repr), count, bytes.skip(P::size() as int));
    }
}

/// A list that is read with checks is read without them.
pub(crate) proof fn lemma_section_unchecked<P: CurvePoint>(bytes: Seq<u8>)
    requires
        section::<P>(bytes, true) is Ok,
    ensures
        section::<P>(bytes, false) == section::<P>(bytes, true),
{
    lemma_points_unchecked::<P>(Seq::empty(), be32(bytes), bytes.skip(4));
}

/// Bytes without their first ones, with something behind them.
pub(crate) proof fn lemma_skip_front(bytes: Seq<u8>, tail: Seq<u8>, n: nat)
    requires
        n <= bytes.len(),
    ensures
        (bytes + tail).take(n as int) == bytes.take(n as int),
        (bytes + tail).skip(n as int) == bytes.skip(n as int) + tail,
{
    assert((bytes + tail).take(n as int) =~= bytes.take(n as int));
    assert((bytes + tail).skip(n as int) =~= bytes.skip(n as int) + tail);
}

/// Unless a list is cut short, the bytes behind it do not matter.
pub(crate) proof fn lemma_points_more<P: CurvePoint>(
    got: Seq<Seq<u8>>,
    count: nat,
    bytes: Seq<u8>,
    tail: Seq<u8>,
    checked: bool,
)
    requires
        points_from::<P>(got, count, bytes, checked) != Err::<(Seq<Seq<u8>>, nat), ReadError>(
            ReadError::UnexpectedEof,
        ),
    ensures
        points_from::<P>(got, count, bytes + tail, checked) == points_from::<P>(
            got,
            count,
            bytes,
            checked,
        ),
    decreases count - got.len(),
{
    if got.len() < count {
        lemma_skip_front(bytes, tail, P::size());
        if let Ok(repr) = finite_point::<P>(bytes, checked) {
            lemma_points_more::<P>(
                got.push(repr),
                count,
                bytes.skip(P::size() as int),
                tail,
                checked,
            );
        }
    }
}

/// Unless a list is cut short, the bytes behind it do not matter.
pub(crate) proof fn lemma_section_more<P: CurvePoint>(bytes: Seq<u8>, tail: Seq<u8>, checked: bool)
    requires
        section::<P>(bytes, checked) != Err::<(Seq<Seq<u8>>, nat), ReadError>(
            ReadError::UnexpectedEof,
        ),
    ensures
        section::<P>(bytes + tail, checked) == section::<P>(bytes, checked),
{
    lemma_skip_front(bytes, tail, 4);
    assert(be32(bytes + tail) == be32(bytes));
    lemma_points_more::<P>(Seq::empty(), be32(bytes), bytes.skip(4), tail, checked);
}

/// Unless they are cut short, the bytes behind the leading points of a key do
/// not matter.
pub(crate) proof fn lemma_key_points_more<E: Engine>(
    got: Seq<Seq<u8>>,
    bytes: Seq<u8>,
    tail: Seq<u8>,
)
    requires
        key_points_from::<E>(got, bytes) != Err::<(Seq<Seq<u8>>, nat), ReadError>(
            ReadError::UnexpectedEof,
        ),
    ensures
        key_points_from::<E>(got, bytes + tail) == key_points_from::<E>(got, bytes),
    decreases 6 - got.len(),
{
    if got.len() < 6 {
        let size = key_point_size::<E>(got.len() as int);
        lemma_skip_front(bytes, tail, size);
        if let Ok(repr) = key_point::<E>(got.len() as int, bytes) {
            lemma_key_points_more::<E>(got.push(repr), bytes.skip(size as int), tail);
        }
    }
}

/// Unless a key is cut short, the bytes behind it do not matter.
pub(crate) proof fn lemma_key_more<E: Engine>(bytes: Seq<u8>, tail: Seq<u8>)
    requires
        key::<E>(bytes) != Err::<(KeyView, nat), ReadError>(ReadError::UnexpectedEof),
    ensures
        key::<E>(bytes + tail) == key::<E>(bytes),
{
    let none = Seq::<Seq<u8>>::empty();
    lemma_key_points_more::<E>(none, bytes, tail);
    if let Ok((points, n0)) = key_points_from::<E>(none, bytes) {
        lemma_key_points::<E>(none, bytes);
        lemma_skip_front(bytes, tail, n0);
        lemma_section_more::<E::G1Affine>(bytes.skip(n0 as int), tail, true);
    }
}

/// Unless the lists are cut short, the bytes behind them do not matter.
pub(crate) proof fn lemma_lists_more<E: Engine>(
    vk: KeyView,
    bytes: Seq<u8>,
    tail: Seq<u8>,
    checked: bool,
)
    requires
        lists::<E>(vk, bytes, checked) != Err::<(ParametersView, nat), ReadError>(
            ReadError::UnexpectedEof,
        ),
    ensures
        lists::<E>(vk, bytes + tail, checked) == lists::<E>(vk, bytes, checked),
{
    lemma_section_more::<E::G1Affine>(bytes, tail, checked);
    if let Ok((h, n1)) = section::<E::G1Affine>(bytes, checked) {
        lemma_section::<E::G1Affine>(bytes, checked);
        let m1 = n1;
        lemma_skip_front(bytes, tail, m1);
        lemma_section_more::<E::G1Affine>(bytes.skip(m1 as int), tail, checked);
        if let Ok((l, n2)) = section::<E::G1Affine>(bytes.skip(m1 as int), checked) {
            lemma_section::<E::G1Affine>(bytes.skip(m1 as int), checked);
            let m2 = n1 + n2;
            lemma_skip_front(bytes, tail, m2);
            lemma_section_more::<E::G1Affine>(bytes.skip(m2 as int), tail, checked);
            if let Ok((a, n3)) = section::<E::G1Affine>(bytes.skip(m2 as int), checked) {
                lemma_section::<E::G1Affine>(bytes.skip(m2 as int), checked);
                let m3 = n1 + n2 + n3;
                lemma_skip_front(bytes, tail, m3);
                lemma_section_more::<E::G1Affine>(bytes.skip(m3 as int), tail, checked);
                if let Ok((b_g1, n4)) = section::<E::G1Affine>(bytes.skip(m3 as int), checked) {
                    lemma_section::<E::G1Affine>(bytes.skip(m3 as int), checked);
                    let m4 = n1 + n2 + n3 + n4;
                    lemma_skip_front(bytes, tail, m4);
                    lemma_section_more::<E::G2Affine>(bytes.skip(m4 as int), tail, checked);
                }
            }
        }
    }
}

/// A list that can be read lies where its length says.
pub(crate) proof fn lemma_section_lies<P: CurvePoint>(
    bytes: Seq<u8>,
    n0: nat,
    n: nat,
    checked: bool,
)
    requires
        n0 + n <= bytes.len() <= usize::MAX,
        section::<P>(bytes.skip(n0 as int).skip(n as int), checked) is Ok,
    ensures
        ({
            let at = n0 + n;
            let (points, used) = section::<P>(
                bytes.skip(n0 as int).skip(n as int),
                checked,
            )->Ok_0;
            &&& section_at(bytes, at) is Some
            &&& section_at(bytes, at)->Some_0.end(P::size()) == at + used
            &&& at + used <= bytes.len()
            &&& ranges_hold(section_at(bytes, at)->Some_0.ranges(P::size()), bytes, points)
        }),
{
    let at = n0 + n;
    let rest = bytes.skip(at as int);
    assert(bytes.skip(n0 as int).skip(n as int) =~= rest);
    lemma_section::<P>(rest, checked);
    let (points, used) = section::<P>(rest, checked)->Ok_0;
    let s = section_at(bytes, at)->Some_0;
    let size = P::size() as int;
    let ranges = s.ranges(P::size());
    assert forall|i: int| 0 <= i < points.len() implies range_holds(
        #[trigger] ranges[i],
        bytes,
        points[i],
    ) by {
        assert(0 <= i * size && i * size + size <= points.len() * size) by (nonlinear_arith)
            requires
                0 <= i < points.len(),
                size >= 0,
        ;
        assert(slot(rest, 4, size, i) =~= bytes.subrange(
            ranges[i].start as int,
            ranges[i].end as int,
        ));
    }
}

/// The lists of parameters that can be read lie where their lengths say.
#[verifier::rlimit(30)]
pub(crate) proof fn lemma_lists_lie<E: Engine>(vk: KeyView, bytes: Seq<u8>, n0: nat, checked: bool)
    requires
        n0 <= bytes.len() <= usize::MAX,
        lists::<E>(vk, bytes.skip(n0 as int), checked) is Ok,
    ensures
        ({
            let (params, used) = lists::<E>(vk, bytes.skip(n0 as int), checked)->Ok_0;
            &&& n0 + used <= bytes.len()
            &&& layout::<E>(bytes, n0) matches Some(at)
            &&& at.end == n0 + used
            &&& at.holds::<E>(bytes, params)
        }),
{
    let rest = bytes.skip(n0 as int);
    assert(rest.skip(0) =~= rest);
    let (h, n1) = section::<E::G1Affine>(rest, checked)->Ok_0;
    lemma_section_lies::<E::G1Affine>(bytes, n0, 0, checked);
    let (l, n2) = section::<E::G1Affine>(rest.skip(n1 as int), checked)->Ok_0;
    lemma_section_lies::<E::G1Affine>(bytes, n0, n1, checked);
    let (a, n3) = section::<E::G1Affine>(rest.skip((n1 + n2) as int), checked)->Ok_0;
    lemma_section_lies::<E::G1Affine>(bytes, n0, n1 + n2, checked);
    let (b_g1, n4) = section::<E::G1Affine>(rest.skip((n1 + n2 + n3) as int), checked)->Ok_0;
    lemma_section_lies::<E::G1Affine>(bytes, n0, n1 + n2 + n3, checked);
    lemma_section_lies::<E::G2Affine>(bytes, n0, n1 + n2 + n3 + n4, checked);
}

/// Pieces of one size lie one behind the other.
pub(crate) proof fn lemma_pieces(points: Seq<Seq<u8>>, size: nat)
    requires
        forall|i: int| 0 <= i < points.len() ==> (#[trigger] points[i]).len() == size,
    ensures
        points.flatten().len() == points.len() * size,
        forall|i: int|
            0 <= i < points.len() ==> #[trigger] points[i] == slot(
                points.flatten(),
                0,
                size as int,
                i,
            ),
    decreases points.len(),
{
    let n = points.len() as int;
    if n == 0 {
        assert(0 * size == 0);
    } else {
        let first = points.first();
        let others = points.drop_first();
        assert forall|i: int| 0 <= i < others.len() implies (#[trigger] others[i]).len()
            == size by {
            assert(others[i] == points[i + 1]);
        }
        lemma_pieces(others, size);
        assert((n - 1) * size + size == n * size) by (nonlinear_arith);
        assert(first == points[0]);
        assert forall|i: int| 0 <= i < n implies #[trigger] points[i] == slot(
            points.flatten(),
            0,
            size as int,
            i,
        ) by {
            if i == 0 {
                assert(0 * size == 0);
                assert(slot(points.flatten(), 0, size as int, 0) =~= first);
            } else {
                assert(others[i - 1] == points[i]);
                assert((i - 1) * size + size == i * size) by (nonlinear_arith);
                assert(0 <= (i - 1) * size && i * size <= (n - 1) * size) by (nonlinear_arith)
                    requires
                        1 <= i < n,
                ;
                assert(slot(points.flatten(), 0, size as int, i) =~= slot(
                    others.flatten(),
                    0,
                    size as int,
                    i - 1,
                ));
            }
        }
    }
}

/// A list that was written lies where its length says.
pub(crate) proof fn lemma_section_written<P: CurvePoint>(
    bytes: Seq<u8>,
    at: nat,
    points: Seq<Seq<u8>>,
    rest: Seq<u8>,
)
    requires
        at <= bytes.len() <= usize::MAX,
        bytes.skip(at as int) == section_bytes(points) + rest,
        sized_list::<P>(points),
    ensures
        section_at(bytes, at) is Some,
        section_at(bytes, at)->Some_0.end(P::size()) == at + section_bytes(points).len(),
        at + section_bytes(points).len() <= bytes.len(),
        ranges_hold(section_at(bytes, at)->Some_0.ranges(P::size()), bytes, points),
{
    let word = count_word(points.len());
    let list = points.flatten();
    let size = P::size() as int;
    lemma_count_word(points.len(), list + rest);
    lemma_three(word, list, rest);
    lemma_pieces(points, P::size());
    let s = section_at(bytes, at)->Some_0;
    let ranges = s.ranges(P::size());
    let after = bytes.skip(at as int);
    assert(after.len() == 4 + list.len() + rest.len());
    assert forall|i: int| 0 <= i < points.len() implies range_holds(
        #[trigger] ranges[i],
        bytes,
        points[i],
    ) by {
        assert(0 <= i * size && i * size + size <= points.len() * size) by (nonlinear_arith)
            requires
                0 <= i < points.len(),
                size >= 0,
        ;
        assert(forall|k: int| 0 <= k < list.len() ==> list[k] == bytes[at + 4 + k]) by {
            assert forall|k: int| 0 <= k < list.len() implies list[k] == bytes[at + 4 + k] by {
                assert(after[4 + k] == (word + (list + rest))[4 + k]);
            }
        }
        assert(slot(list, 0, size, i) =~= bytes.subrange(
            ranges[i].start as int,
            ranges[i].end as int,
        ));
    }
}

/// The lists that were written lie where their lengths say.
#[verifier::rlimit(30)]
pub(crate) proof fn lemma_lists_written<E: Engine>(
    bytes: Seq<u8>,
    n0: nat,
    params: ParametersView,
    tail: Seq<u8>,
)
    requires
        n0 <= bytes.len() <= usize::MAX,
        bytes.skip(n0 as int) == section_bytes(params.h) + section_bytes(params.l) + section_bytes(
            params.a,
        ) + section_bytes(params.b_g1) + section_bytes(params.b_g2) + tail,
        sized_parameters::<E>(params),
    ensures
        layout::<E>(bytes, n0) matches Some(at) && {
            &&& at.end == n0 + section_bytes(params.h).len() + section_bytes(params.l).len()
                + section_bytes(params.a).len() + section_bytes(params.b_g1).len()
                + section_bytes(params.b_g2).len()
            &&& at.end <= bytes.len()
            &&& at.holds::<E>(bytes, params)
        },
{
    let h = section_bytes(params.h);
    let l = section_bytes(params.l);
    let a = section_bytes(params.a);
    let b_g1 = section_bytes(params.b_g1);
    let b_g2 = section_bytes(params.b_g2);
    let n1 = h.len();
    let n2 = l.len();
    let n3 = a.len();
    let n4 = b_g1.len();
    lemma_five(h, l, a, b_g1, b_g2, tail);
    lemma_skip_skip(bytes, n0, n1);
    lemma_skip_skip(bytes, n0, n1 + n2);
    lemma_skip_skip(bytes, n0, n1 + n2 + n3);
    lemma_skip_skip(bytes, n0, n1 + n2 + n3 + n4);
    lemma_section_written::<E::G1Affine>(bytes, n0, params.h, l + (a + (b_g1 + (b_g2 + tail))));
    lemma_section_written::<E::G1Affine>(bytes, n0 + n1, params.l, a + (b_g1 + (b_g2 + tail)));
    lemma_section_written::<E::G1Affine>(bytes, n0 + n1 + n2, params.a, b_g1 + (b_g2 + tail));
    lemma_section_written::<E::G1Affine>(bytes, n0 + n1 + n2 + n3, params.b_g1, b_g2 + tail);
    lemma_section_written::<E::G2Affine>(bytes, n0 + n1 + n2 + n3 + n4, params.b_g2, tail);
}

/// Bytes without their first ones, twice.
pub(crate) proof fn lemma_skip_skip(bytes: Seq<u8>, m: nat, n: nat)
    requires
        m <= bytes.len(),
        n <= bytes.skip(m as int).len(),
    ensures
        bytes.skip(m as int).skip(n as int) == bytes.skip((m + n) as int),
{
    assert(bytes.skip(m as int).skip(n as int) =~= bytes.skip((m + n) as int));
}

/// The bytes of a list determine it, and where they end.
pub(crate) proof fn lemma_section_determined<P: CurvePoint>(
    left: Seq<Seq<u8>>,
    left_rest: Seq<u8>,
    right: Seq<Seq<u8>>,
    right_rest: Seq<u8>,
)
    requires
        sized_list::<P>(left),
        sized_list::<P>(right),
        section_bytes(left) + left_rest == section_bytes(right) + right_rest,
    ensures
        left == right,
        left_rest == right_rest,
{
    let word = count_word(left.len());
    let (list, other) = (left.flatten(), right.flatten());
    lemma_count_word(left.len(), list + left_rest);
    lemma_count_word(right.len(), other + right_rest);
    lemma_three(word, list, left_rest);
    lemma_three(count_word(right.len()), other, right_rest);
    assert(left.len() == right.len());
    lemma_front(word, list + left_rest);
    lemma_front(word, other + right_rest);
    lemma_pieces(left, P::size());
    lemma_pieces(right, P::size());
    lemma_front(list, left_rest);
    lemma_front(other, right_rest);
    assert(list == other);
    assert forall|i: int| 0 <= i < left.len() implies left[i] == right[i] by {
        assert(left[i] == slot(list, 0, P::size() as int, i));
        assert(right[i] == slot(other, 0, P::size() as int, i));
    }
    assert(left =~= right);
}

/// Where two inputs are the same and begin with pieces of the same size, the
/// pieces are the same, and so is what follows.
pub(crate) proof fn lemma_same_front(a: Seq<u8>, a_rest: Seq<u8>, b: Seq<u8>, b_rest: Seq<u8>)
    requires
        a.len() == b.len(),
        a + a_rest == b + b_rest,
    ensures
        a == b,
        a_rest == b_rest,
{
    lemma_front(a, a_rest);
    lemma_front(b, b_rest);
}

/// The bytes of a key, one part behind the other.
pub(crate) proof fn lemma_key_parts(vk: KeyView, rest: Seq<u8>)
    ensures
        key_bytes(vk) + rest == vk.alpha_g1 + (vk.beta_g1 + (vk.beta_g2 + (vk.gamma_g2 + (
        vk.delta_g1 + (vk.delta_g2 + (section_bytes(vk.ic) + rest)))))),
{
    assert(key_bytes(vk) + rest =~= vk.alpha_g1 + (vk.beta_g1 + (vk.beta_g2 + (vk.gamma_g2 + (
    vk.delta_g1 + (vk.delta_g2 + (section_bytes(vk.ic) + rest)))))));
}

/// The bytes of a key determine it, and where they end.
pub(crate) proof fn lemma_key_determined<E: Engine>(
    left: KeyView,
    left_rest: Seq<u8>,
    right: KeyView,
    right_rest: Seq<u8>,
)
    requires
        sized_key::<E>(left),
        sized_key::<E>(right),
        key_bytes(left) + left_rest == key_bytes(right) + right_rest,
    ensures
        left == right,
        left_rest == right_rest,
{
    lemma_key_parts(left, left_rest);
    lemma_key_parts(right, right_rest);
    let l6 = section_bytes(left.ic) + left_rest;
    let l5 = left.delta_g2 + l6;
    let l4 = left.delta_g1 + l5;
    let l3 = left.gamma_g2 + l4;
    let l2 = left.beta_g2 + l3;
    let l1 = left.beta_g1 + l2;
    let r6 = section_bytes(right.ic) + right_rest;
    let r5 = right.delta_g2 + r6;
    let r4 = right.delta_g1 + r5;
    let r3 = right.gamma_g2 + r4;
    let r2 = right.beta_g2 + r3;
    let r1 = right.beta_g1 + r2;
    lemma_same_front(left.alpha_g1, l1, right.alpha_g1, r1);
    lemma_same_front(left.beta_g1, l2, right.beta_g1, r2);
    lemma_same_front(left.beta_g2, l3, right.beta_g2, r3);
    lemma_same_front(left.gamma_g2, l4, right.gamma_g2, r4);
    lemma_same_front(left.delta_g1, l5, right.delta_g1, r5);
    lemma_same_front(left.delta_g2, l6, right.delta_g2, r6);
    lemma_section_determined::<E::G1Affine>(left.ic, left_rest, right.ic, right_rest);
}

/// The bytes of parameters are those of the key, and those of the lists.
pub(crate) proof fn lemma_key_then_lists(params: ParametersView, rest: Seq<u8>)
    ensures
        parameters_bytes(params) + rest == key_bytes(params.vk) + (section_bytes(params.h)
            + section_bytes(params.l) + section_bytes(params.a) + section_bytes(params.b_g1)
            + section_bytes(params.b_g2) + rest),
{
    let vk = key_bytes(params.vk);
    let (h, l, a) = (section_bytes(params.h), section_bytes(params.l), section_bytes(params.a));
    let (b_g1, b_g2) = (section_bytes(params.b_g1), section_bytes(params.b_g2));
    lemma_six(vk, h, l, a, b_g1, b_g2);
    lemma_three(vk, h + l + a + b_g1 + b_g2, rest);
}

/// The bytes of the lists of parameters determine them, and where they end.
pub(crate) proof fn lemma_lists_determined<E: Engine>(
    left: ParametersView,
    left_rest: Seq<u8>,
    right: ParametersView,
    right_rest: Seq<u8>,
)
    requires
        sized_parameters::<E>(left),
        sized_parameters::<E>(right),
        section_bytes(left.h) + section_bytes(left.l) + section_bytes(left.a) + section_bytes(
            left.b_g1,
        ) + section_bytes(left.b_g2) + left_rest == section_bytes(right.h) + section_bytes(right.l)
            + section_bytes(right.a) + section_bytes(right.b_g1) + section_bytes(right.b_g2)
            + right_rest,
    ensures
        left.h == right.h,
        left.l == right.l,
        left.a == right.a,
        left.b_g1 == right.b_g1,
        left.b_g2 == right.b_g2,
        left_rest == right_rest,
{
    let (h, l, a) = (section_bytes(left.h), section_bytes(left.l), section_bytes(left.a));
    let (b_g1, b_g2) = (section_bytes(left.b_g1), section_bytes(left.b_g2));
    let (i, m, c) = (section_bytes(right.h), section_bytes(right.l), section_bytes(right.a));
    let (d_g1, d_g2) = (section_bytes(right.b_g1), section_bytes(right.b_g2));
    lemma_five(h, l, a, b_g1, b_g2, left_rest);
    lemma_five(i, m, c, d_g1, d_g2, right_rest);
    lemma_section_determined::<E::G1Affine>(
        left.h,
        l + (a + (b_g1 + (b_g2 + left_rest))),
        right.h,
        m + (c + (d_g1 + (d_g2 + right_rest))),
    );
    lemma_section_determined::<E::G1Affine>(
        left.l,
        a + (b_g1 + (b_g2 + left_rest)),
        right.l,
        c + (d_g1 + (d_g2 + right_rest)),
    );
    lemma_section_determined::<E::G1Affine>(
        left.a,
        b_g1 + (b_g2 + left_rest),
        right.a,
        d_g1 + (d_g2 + right_rest),
    );
    lemma_section_determined::<E::G1Affine>(
        left.b_g1,
        b_g2 + left_rest,
        right.b_g1,
        d_g2 + right_rest,
    );
    lemma_section_determined::<E::G2Affine>(left.b_g2, left_rest, right.b_g2, right_rest);
}

/// The last of the ranges of a list ends where the list does.
pub(crate) proof fn lemma_last_range(place: Section, size: nat)
    requires
        place.count > 0,
        place.end(size) <= usize::MAX,
    ensures
        place.ranges(size).last().end == place.end(size),
{
    let n = place.count;
    assert((n - 1) * size + size == n * size) by (nonlinear_arith);
}

} // verus!
