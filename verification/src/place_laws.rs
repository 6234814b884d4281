//! Where the parts of a set of parameters lie in a file, in terms of its bytes.

use vstd::prelude::*;

use crate::accepting::{lead_accepted, lemma_key_reach, lemma_lists_reach, lemma_products};
use crate::engine::{encodings, encodings_have_size, CurvePoint, Engine};
use crate::format::{
    good_parameters, good_point, good_points, key_bytes, parameters, parameters_bytes,
    ParametersView,
};
use crate::laws::written_is_what_was_read;
use crate::lemmas::lemma_front;
use crate::params::Parameters;
use crate::placing::{
    fields_lie, ic_start, key_of_size, leads, lemma_fields_lie, lemma_place_key, lemma_placed,
    lemma_placed_in, lemma_points_lie, list_lies,
};
use crate::verifying_key::VerifyingKey;
use crate::wire::ReadError;

verus! {

/// Parameters that were read lie at the front of the bytes, and are good.
proof fn lemma_read_lies<E: Engine>(bytes: Seq<u8>, checked: bool, p: Parameters<E>, used: nat)
    requires
        parameters::<E>(bytes, checked) == Ok::<(ParametersView, nat), ReadError>((p@, used)),
    ensures
        fields_lie::<E>(bytes, p, used as int),
        good_parameters::<E>(p@, checked),
{
    written_is_what_was_read::<E>(bytes, checked);
    lemma_placed_in::<E>(bytes, p@, used, checked);
    lemma_fields_lie(bytes, p, used as int);
}

/// The points of a list that can be read are accepted and finite.
proof fn lemma_accepted_points<P: CurvePoint>(points: Seq<P>, checked: bool)
    requires
        good_points::<P>(encodings(points), checked),
    ensures
        forall|i: int|
            0 <= i < points.len() ==> P::admits((#[trigger] points[i])@, checked)
                && !P::at_infinity(points[i]@),
{
    assert forall|i: int| 0 <= i < points.len() implies P::admits(
        (#[trigger] points[i])@,
        checked,
    ) && !P::at_infinity(points[i]@) by {
        assert(encodings(points)[i] == points[i]@);
        assert(good_point::<P>(encodings(points)[i], checked));
    }
}

/// The points of a key have the sizes of encodings.
proof fn lemma_key_sizes<E: Engine>(vk: VerifyingKey<E>)
    ensures
        key_of_size::<E>(vk@),
{
    vk.alpha_g1.encoding_has_size();
    vk.beta_g1.encoding_has_size();
    vk.beta_g2.encoding_has_size();
    vk.gamma_g2.encoding_has_size();
    vk.delta_g1.encoding_has_size();
    vk.delta_g2.encoding_has_size();
    encodings_have_size(vk.ic@);
}

/// What is written lies where it should.
proof fn lemma_written_lies<E: Engine>(p: Parameters<E>)
    ensures
        fields_lie::<E>(parameters_bytes(p@), p, parameters_bytes(p@).len() as int),
{
    let none = Seq::<u8>::empty();
    lemma_key_sizes::<E>(p.vk);
    encodings_have_size(p.h@);
    encodings_have_size(p.l@);
    encodings_have_size(p.a@);
    encodings_have_size(p.b_g1@);
    encodings_have_size(p.b_g2@);
    assert(parameters_bytes(p@) + none =~= parameters_bytes(p@));
    lemma_placed::<E>(p@, none);
    lemma_fields_lie(parameters_bytes(p@), p, parameters_bytes(p@).len() as int);
}

/// Reading takes every part from its place. The six points of the key lie at the
/// front of the input, and behind them the lists, in the order `ic`, `h`, `l`,
/// `a`, `b_g1`, `b_g2`: of each four bytes with its length, most significant
/// byte first, and then its points one behind the other. What is used ends with
/// the last list.
pub proof fn read_takes_every_part_from_its_place<E: Engine>(
    bytes: &[u8],
    checked: bool,
    result: Result<(Parameters<E>, usize), ReadError>,
)
    requires
        call_ensures(Parameters::<E>::read, (bytes, checked), result),
    ensures
        result matches Ok((p, used)) ==> ({
            let b = bytes@;
            let g1 = E::G1Affine::size() as int;
            let g2 = E::G2Affine::size() as int;
            let word = |at: int|
                b[at] * 0x100_0000 + b[at + 1] * 0x1_0000 + b[at + 2] * 0x100 + b[at + 3];
            let ic = 3 * g1 + 3 * g2;
            let h = ic + 4 + p.vk.ic@.len() * g1;
            let l = h + 4 + p.h@.len() * g1;
            let a = l + 4 + p.l@.len() * g1;
            let b_g1 = a + 4 + p.a@.len() * g1;
            let b_g2 = b_g1 + 4 + p.b_g1@.len() * g1;
            &&& used == b_g2 + 4 + p.b_g2@.len() * g2
            &&& used <= b.len()
            &&& p.vk.alpha_g1@ == b.subrange(0, g1)
            &&& p.vk.beta_g1@ == b.subrange(g1, 2 * g1)
            &&& p.vk.beta_g2@ == b.subrange(2 * g1, 2 * g1 + g2)
            &&& p.vk.gamma_g2@ == b.subrange(2 * g1 + g2, 2 * g1 + 2 * g2)
            &&& p.vk.delta_g1@ == b.subrange(2 * g1 + 2 * g2, 3 * g1 + 2 * g2)
            &&& p.vk.delta_g2@ == b.subrange(3 * g1 + 2 * g2, 3 * g1 + 3 * g2)
            &&& word(ic) == p.vk.ic@.len()
            &&& forall|i: int|
                0 <= i < p.vk.ic@.len() ==> (#[trigger] p.vk.ic@[i])@ == b.subrange(
                    ic + 4 + i * g1,
                    ic + 4 + i * g1 + g1,
                )
            &&& word(h) == p.h@.len()
            &&& forall|i: int|
                0 <= i < p.h@.len() ==> (#[trigger] p.h@[i])@ == b.subrange(
                    h + 4 + i * g1,
                    h + 4 + i * g1 + g1,
                )
            &&& word(l) == p.l@.len()
            &&& forall|i: int|
                0 <= i < p.l@.len() ==> (#[trigger] p.l@[i])@ == b.subrange(
                    l + 4 + i * g1,
                    l + 4 + i * g1 + g1,
                )
            &&& word(a) == p.a@.len()
            &&& forall|i: int|
                0 <= i < p.a@.len() ==> (#[trigger] p.a@[i])@ == b.subrange(
                    a + 4 + i * g1,
                    a + 4 + i * g1 + g1,
                )
            &&& word(b_g1) == p.b_g1@.len()
            &&& forall|i: int|
                0 <= i < p.b_g1@.len() ==> (#[trigger] p.b_g1@[i])@ == b.subrange(
                    b_g1 + 4 + i * g1,
                    b_g1 + 4 + i * g1 + g1,
                )
            &&& word(b_g2) == p.b_g2@.len()
            &&& forall|i: int|
                0 <= i < p.b_g2@.len() ==> (#[trigger] p.b_g2@[i])@ == b.subrange(
                    b_g2 + 4 + i * g2,
                    b_g2 + 4 + i * g2 + g2,
                )
        }),
{
    if let Ok((p, used)) = result {
        lemma_read_lies::<E>(bytes@, checked, p, used as nat);
        reveal(leads);
        reveal(list_lies);
    }
}

/// Reading keeps only points that the decoders accept: in the key with the
/// checks, and in the lists with the checks where they are asked for. No list
/// holds the point at infinity, the list of the key among them.
pub proof fn read_keeps_only_accepted_points<E: Engine>(
    bytes: &[u8],
    checked: bool,
    result: Result<(Parameters<E>, usize), ReadError>,
)
    requires
        call_ensures(Parameters::<E>::read, (bytes, checked), result),
    ensures
        result matches Ok((p, used)) ==> {
            &&& E::G1Affine::admits(p.vk.alpha_g1@, true)
            &&& E::G1Affine::admits(p.vk.beta_g1@, true)
            &&& E::G2Affine::admits(p.vk.beta_g2@, true)
            &&& E::G2Affine::admits(p.vk.gamma_g2@, true)
            &&& E::G1Affine::admits(p.vk.delta_g1@, true)
            &&& E::G2Affine::admits(p.vk.delta_g2@, true)
            &&& forall|i: int|
                0 <= i < p.vk.ic@.len() ==> E::G1Affine::admits((#[trigger] p.vk.ic@[i])@, true)
                    && !E::G1Affine::at_infinity(p.vk.ic@[i]@)
            &&& forall|i: int|
                0 <= i < p.h@.len() ==> E::G1Affine::admits((#[trigger] p.h@[i])@, checked)
                    && !E::G1Affine::at_infinity(p.h@[i]@)
            &&& forall|i: int|
                0 <= i < p.l@.len() ==> E::G1Affine::admits((#[trigger] p.l@[i])@, checked)
                    && !E::G1Affine::at_infinity(p.l@[i]@)
            &&& forall|i: int|
                0 <= i < p.a@.len() ==> E::G1Affine::admits((#[trigger] p.a@[i])@, checked)
                    && !E::G1Affine::at_infinity(p.a@[i]@)
            &&& forall|i: int|
                0 <= i < p.b_g1@.len() ==> E::G1Affine::admits((#[trigger] p.b_g1@[i])@, checked)
                    && !E::G1Affine::at_infinity(p.b_g1@[i]@)
            &&& forall|i: int|
                0 <= i < p.b_g2@.len() ==> E::G2Affine::admits((#[trigger] p.b_g2@[i])@, checked)
                    && !E::G2Affine::at_infinity(p.b_g2@[i]@)
        },
{
    if let Ok((p, used)) = result {
        lemma_read_lies::<E>(bytes@, checked, p, used as nat);
        lemma_accepted_points::<E::G1Affine>(p.vk.ic@, true);
        lemma_accepted_points::<E::G1Affine>(p.h@, checked);
        lemma_accepted_points::<E::G1Affine>(p.l@, checked);
        lemma_accepted_points::<E::G1Affine>(p.a@, checked);
        lemma_accepted_points::<E::G1Affine>(p.b_g1@, checked);
        lemma_accepted_points::<E::G2Affine>(p.b_g2@, checked);
    }
}

/// Reading takes whatever lies in place: where the decoders accept the six points
/// at the front of the input, and the lists `ic`, `h`, `l`, `a`, `b_g1` and
/// `b_g2` of accepted finite points lie behind them, each behind its length, the
/// input is read, whatever follows.
pub proof fn read_takes_what_lies_in_place<E: Engine>(
    bytes: &[u8],
    checked: bool,
    result: Result<(Parameters<E>, usize), ReadError>,
    ic: Seq<Seq<u8>>,
    h: Seq<Seq<u8>>,
    l: Seq<Seq<u8>>,
    a: Seq<Seq<u8>>,
    b_g1: Seq<Seq<u8>>,
    b_g2: Seq<Seq<u8>>,
)
    requires
        call_ensures(Parameters::<E>::read, (bytes, checked), result),
        ({
            let b = bytes@;
            let g1 = E::G1Affine::size() as int;
            let g2 = E::G2Affine::size() as int;
            let word = |at: int|
                b[at] * 0x100_0000 + b[at + 1] * 0x1_0000 + b[at + 2] * 0x100 + b[at + 3];
            let at_ic = 3 * g1 + 3 * g2;
            let at_h = at_ic + 4 + ic.len() * g1;
            let at_l = at_h + 4 + h.len() * g1;
            let at_a = at_l + 4 + l.len() * g1;
            let at_b_g1 = at_a + 4 + a.len() * g1;
            let at_b_g2 = at_b_g1 + 4 + b_g1.len() * g1;
            &&& at_b_g2 + 4 + b_g2.len() * g2 <= b.len()
            &&& E::G1Affine::admits(b.subrange(0, g1), true)
            &&& E::G1Affine::admits(b.subrange(g1, 2 * g1), true)
            &&& E::G2Affine::admits(b.subrange(2 * g1, 2 * g1 + g2), true)
            &&& E::G2Affine::admits(b.subrange(2 * g1 + g2, 2 * g1 + 2 * g2), true)
            &&& E::G1Affine::admits(b.subrange(2 * g1 + 2 * g2, 3 * g1 + 2 * g2), true)
            &&& E::G2Affine::admits(b.subrange(3 * g1 + 2 * g2, 3 * g1 + 3 * g2), true)
            &&& word(at_ic) == ic.len()
            &&& forall|i: int|
                0 <= i < ic.len() ==> {
                    &&& #[trigger] ic[i] == b.subrange(
                        at_ic + 4 + i * g1,
                        at_ic + 4 + i * g1 + g1,
                    )
                    &&& E::G1Affine::admits(ic[i], true)
                    &&& !E::G1Affine::at_infinity(ic[i])
                }
            &&& word(at_h) == h.len()
            &&& forall|i: int|
                0 <= i < h.len() ==> {
                    &&& #[trigger] h[i] == b.subrange(
                        at_h + 4 + i * g1,
                        at_h + 4 + i * g1 + g1,
                    )
                    &&& E::G1Affine::admits(h[i], checked)
                    &&& !E::G1Affine::at_infinity(h[i])
                }
            &&& word(at_l) == l.len()
            &&& forall|i: int|
                0 <= i < l.len() ==> {
                    &&& #[trigger] l[i] == b.subrange(
                        at_l + 4 + i * g1,
                        at_l + 4 + i * g1 + g1,
                    )
                    &&& E::G1Affine::admits(l[i], checked)
                    &&& !E::G1Affine::at_infinity(l[i])
                }
            &&& word(at_a) == a.len()
            &&& forall|i: int|
                0 <= i < a.len() ==> {
                    &&& #[trigger] a[i] == b.subrange(
                        at_a + 4 + i * g1,
                        at_a + 4 + i * g1 + g1,
                    )
                    &&& E::G1Affine::admits(a[i], checked)
                    &&& !E::G1Affine::at_infinity(a[i])
                }
            &&& word(at_b_g1) == b_g1.len()
            &&& forall|i: int|
                0 <= i < b_g1.len() ==> {
                    &&& #[trigger] b_g1[i] == b.subrange(
                        at_b_g1 + 4 + i * g1,
                        at_b_g1 + 4 + i * g1 + g1,
                    )
                    &&& E::G1Affine::admits(b_g1[i], checked)
                    &&& !E::G1Affine::at_infinity(b_g1[i])
                }
            &&& word(at_b_g2) == b_g2.len()
            &&& forall|i: int|
                0 <= i < b_g2.len() ==> {
                    &&& #[trigger] b_g2[i] == b.subrange(
                        at_b_g2 + 4 + i * g2,
                        at_b_g2 + 4 + i * g2 + g2,
                    )
                    &&& E::G2Affine::admits(b_g2[i], checked)
                    &&& !E::G2Affine::at_infinity(b_g2[i])
                }
        }),
    ensures
        result is Ok,
{
    let g1 = E::G1Affine::size();
    let g2 = E::G2Affine::size();
    lemma_products(ic.len(), g1);
    lemma_products(h.len(), g1);
    lemma_products(l.len(), g1);
    lemma_products(a.len(), g1);
    lemma_products(b_g1.len(), g1);
    lemma_products(b_g2.len(), g2);
    assert(lead_accepted::<E>(bytes@, 0) && lead_accepted::<E>(bytes@, 1));
    assert(lead_accepted::<E>(bytes@, 2) && lead_accepted::<E>(bytes@, 3));
    assert(lead_accepted::<E>(bytes@, 4) && lead_accepted::<E>(bytes@, 5));
    lemma_key_reach::<E>(bytes@, ic);
    let at_h = 3 * g1 + 3 * g2 + 4 + ic.len() * g1;
    lemma_lists_reach::<E>(bytes@, checked, at_h as int, h, l, a, b_g1, b_g2);
}

/// Writing puts every part in its place, behind what the buffer held before. The
/// six points of the key come first, and behind them the lists, in the order
/// `ic`, `h`, `l`, `a`, `b_g1`, `b_g2`: of each four bytes with its length, modulo
/// 2^32 and most significant byte first, and then its points one behind the
/// other. Nothing else is written.
pub proof fn write_puts_every_part_in_its_place<E: Engine>(
    p: &Parameters<E>,
    writer: &mut Vec<u8>,
)
    requires
        call_ensures(Parameters::<E>::write, (p, writer), ()),
    ensures
        ({
            let start = old(writer)@.len() as int;
            let b = final(writer)@.skip(start);
            let g1 = E::G1Affine::size() as int;
            let g2 = E::G2Affine::size() as int;
            let word = |at: int|
                b[at] * 0x100_0000 + b[at + 1] * 0x1_0000 + b[at + 2] * 0x100 + b[at + 3];
            let ic = 3 * g1 + 3 * g2;
            let h = ic + 4 + p.vk.ic@.len() * g1;
            let l = h + 4 + p.h@.len() * g1;
            let a = l + 4 + p.l@.len() * g1;
            let b_g1 = a + 4 + p.a@.len() * g1;
            let b_g2 = b_g1 + 4 + p.b_g1@.len() * g1;
            &&& final(writer)@.take(start) == old(writer)@
            &&& final(writer)@.len() == start + b_g2 + 4 + p.b_g2@.len() * g2
            &&& p.vk.alpha_g1@ == b.subrange(0, g1)
            &&& p.vk.beta_g1@ == b.subrange(g1, 2 * g1)
            &&& p.vk.beta_g2@ == b.subrange(2 * g1, 2 * g1 + g2)
            &&& p.vk.gamma_g2@ == b.subrange(2 * g1 + g2, 2 * g1 + 2 * g2)
            &&& p.vk.delta_g1@ == b.subrange(2 * g1 + 2 * g2, 3 * g1 + 2 * g2)
            &&& p.vk.delta_g2@ == b.subrange(3 * g1 + 2 * g2, 3 * g1 + 3 * g2)
            &&& word(ic) == p.vk.ic@.len() as int % 0x1_0000_0000
            &&& forall|i: int|
                0 <= i < p.vk.ic@.len() ==> (#[trigger] p.vk.ic@[i])@ == b.subrange(
                    ic + 4 + i * g1,
                    ic + 4 + i * g1 + g1,
                )
            &&& word(h) == p.h@.len() as int % 0x1_0000_0000
            &&& forall|i: int|
                0 <= i < p.h@.len() ==> (#[trigger] p.h@[i])@ == b.subrange(
                    h + 4 + i * g1,
                    h + 4 + i * g1 + g1,
                )
            &&& word(l) == p.l@.len() as int % 0x1_0000_0000
            &&& forall|i: int|
                0 <= i < p.l@.len() ==> (#[trigger] p.l@[i])@ == b.subrange(
                    l + 4 + i * g1,
                    l + 4 + i * g1 + g1,
                )
            &&& word(a) == p.a@.len() as int % 0x1_0000_0000
            &&& forall|i: int|
                0 <= i < p.a@.len() ==> (#[trigger] p.a@[i])@ == b.subrange(
                    a + 4 + i * g1,
                    a + 4 + i * g1 + g1,
                )
            &&& word(b_g1) == p.b_g1@.len() as int % 0x1_0000_0000
            &&& forall|i: int|
                0 <= i < p.b_g1@.len() ==> (#[trigger] p.b_g1@[i])@ == b.subrange(
                    b_g1 + 4 + i * g1,
                    b_g1 + 4 + i * g1 + g1,
                )
            &&& word(b_g2) == p.b_g2@.len() as int % 0x1_0000_0000
            &&& forall|i: int|
                0 <= i < p.b_g2@.len() ==> (#[trigger] p.b_g2@[i])@ == b.subrange(
                    b_g2 + 4 + i * g2,
                    b_g2 + 4 + i * g2 + g2,
                )
        }),
{
    let start = old(writer)@.len() as int;
    let b = parameters_bytes(p@);
    lemma_front(old(writer)@, b);
    lemma_written_lies::<E>(*p);
    reveal(leads);
    reveal(list_lies);
}

/// Writing a key puts every part of it in its place, behind what the buffer held
/// before: the six points, four bytes with the length of `ic`, and the points of
/// `ic`.
pub proof fn key_write_puts_every_part_in_its_place<E: Engine>(
    vk: &VerifyingKey<E>,
    writer: &mut Vec<u8>,
)
    requires
        call_ensures(VerifyingKey::<E>::write, (vk, writer), ()),
    ensures
        ({
            let start = old(writer)@.len() as int;
            let b = final(writer)@.skip(start);
            let g1 = E::G1Affine::size() as int;
            let g2 = E::G2Affine::size() as int;
            let word = |at: int|
                b[at] * 0x100_0000 + b[at + 1] * 0x1_0000 + b[at + 2] * 0x100 + b[at + 3];
            let ic = 3 * g1 + 3 * g2;
            &&& final(writer)@.take(start) == old(writer)@
            &&& final(writer)@.len() == start + ic + 4 + vk.ic@.len() * g1
            &&& vk.alpha_g1@ == b.subrange(0, g1)
            &&& vk.beta_g1@ == b.subrange(g1, 2 * g1)
            &&& vk.beta_g2@ == b.subrange(2 * g1, 2 * g1 + g2)
            &&& vk.gamma_g2@ == b.subrange(2 * g1 + g2, 2 * g1 + 2 * g2)
            &&& vk.delta_g1@ == b.subrange(2 * g1 + 2 * g2, 3 * g1 + 2 * g2)
            &&& vk.delta_g2@ == b.subrange(3 * g1 + 2 * g2, 3 * g1 + 3 * g2)
            &&& word(ic) == vk.ic@.len() as int % 0x1_0000_0000
            &&& forall|i: int|
                0 <= i < vk.ic@.len() ==> (#[trigger] vk.ic@[i])@ == b.subrange(
                    ic + 4 + i * g1,
                    ic + 4 + i * g1 + g1,
                )
        }),
{
    let b = key_bytes(vk@);
    lemma_front(old(writer)@, b);
    lemma_key_sizes::<E>(*vk);
    let none = Seq::<u8>::empty();
    assert(b + none =~= b);
    lemma_place_key::<E>(b, vk@, none);
    lemma_points_lie(b, ic_start::<E>(), E::G1Affine::size() as int, vk.ic@);
    reveal(leads);
    reveal(list_lies);
}

} // verus!
