//! What holds of keys and parameters as values: when they are equal, what a copy
//! is, and what a prover is handed.

use std::sync::Arc;

use bellpepper_core::SynthesisError;
use vstd::prelude::*;
use vstd::std_specs::cmp::PartialEqSpec;

use crate::engine::{encodings, CurvePoint, Engine};
use crate::format::{good_list, good_point, key_bytes, parameters_bytes};
use crate::laws::{
    bytes_determine_parameters, encodings_are_sized, mapping_finds_what_was_written,
    read_gives_back_what_was_written,
};
use crate::map_laws::lemma_ranges_hold;
use crate::mapped::MappedParameters;
use crate::params::{ParameterSource, Parameters};
use crate::verifying_key::VerifyingKey;
use crate::wire::ReadError;

verus! {

/// Lists have the same encodings exactly where they are as long and hold points
/// with the same encodings in the same places.
proof fn lemma_same_encodings<P: CurvePoint>(left: Seq<P>, right: Seq<P>)
    ensures
        encodings(left) == encodings(right) <==> {
            &&& left.len() == right.len()
            &&& forall|i: int| 0 <= i < left.len() ==> (#[trigger] left[i])@ == right[i]@
        },
{
    let (x, y) = (encodings(left), encodings(right));
    assert(x.len() == left.len() && y.len() == right.len());
    assert(forall|i: int| 0 <= i < left.len() ==> x[i] == (#[trigger] left[i])@);
    assert(forall|i: int| 0 <= i < right.len() ==> y[i] == (#[trigger] right[i])@);
    if x == y {
        assert forall|i: int| 0 <= i < left.len() implies (#[trigger] left[i])@ == right[i]@ by {
            assert(x[i] == y[i]);
        }
    }
    if left.len() == right.len() && (forall|i: int|
        0 <= i < left.len() ==> (#[trigger] left[i])@ == right[i]@) {
        assert forall|i: int| 0 <= i < x.len() implies x[i] == y[i] by {
            assert(left[i]@ == right[i]@);
        }
        assert(x =~= y);
    }
}

/// The view of a key shows each of its points by its encoding, in its place.
pub proof fn key_view_shows_the_fields<E: Engine>(vk: VerifyingKey<E>)
    ensures
        vk@.alpha_g1 == vk.alpha_g1@,
        vk@.beta_g1 == vk.beta_g1@,
        vk@.beta_g2 == vk.beta_g2@,
        vk@.gamma_g2 == vk.gamma_g2@,
        vk@.delta_g1 == vk.delta_g1@,
        vk@.delta_g2 == vk.delta_g2@,
        vk@.ic == encodings(vk.ic@),
        vk@.ic.len() == vk.ic@.len(),
        forall|i: int| 0 <= i < vk.ic@.len() ==> vk@.ic[i] == (#[trigger] vk.ic@[i])@,
{
}

/// The view of parameters shows each of their lists by the encodings of its
/// points, in its place, whatever the lengths of the lists are.
pub proof fn parameters_view_shows_the_fields<E: Engine>(params: Parameters<E>)
    ensures
        params@.vk == params.vk@,
        params@.h == encodings(params.h@),
        params@.h.len() == params.h@.len(),
        forall|i: int| 0 <= i < params.h@.len() ==> params@.h[i] == (#[trigger] params.h@[i])@,
        params@.l == encodings(params.l@),
        params@.l.len() == params.l@.len(),
        forall|i: int| 0 <= i < params.l@.len() ==> params@.l[i] == (#[trigger] params.l@[i])@,
        params@.a == encodings(params.a@),
        params@.a.len() == params.a@.len(),
        forall|i: int| 0 <= i < params.a@.len() ==> params@.a[i] == (#[trigger] params.a@[i])@,
        params@.b_g1 == encodings(params.b_g1@),
        params@.b_g1.len() == params.b_g1@.len(),
        forall|i: int|
            0 <= i < params.b_g1@.len() ==> params@.b_g1[i] == (#[trigger] params.b_g1@[i])@,
        params@.b_g2 == encodings(params.b_g2@),
        params@.b_g2.len() == params.b_g2@.len(),
        forall|i: int|
            0 <= i < params.b_g2@.len() ==> params@.b_g2[i] == (#[trigger] params.b_g2@[i])@,
{
}

/// Two keys are equal exactly where they hold the same points in the same
/// places, each by its encoding.
pub proof fn key_equality_is_that_of_the_points<E: Engine>(
    left: &VerifyingKey<E>,
    right: &VerifyingKey<E>,
    equal: bool,
)
    requires
        call_ensures(<VerifyingKey<E> as PartialEq>::eq, (left, right), equal),
    ensures
        equal <==> left@ == right@,
        equal <==> {
            &&& left.alpha_g1@ == right.alpha_g1@
            &&& left.beta_g1@ == right.beta_g1@
            &&& left.beta_g2@ == right.beta_g2@
            &&& left.gamma_g2@ == right.gamma_g2@
            &&& left.delta_g1@ == right.delta_g1@
            &&& left.delta_g2@ == right.delta_g2@
            &&& left.ic@.len() == right.ic@.len()
            &&& forall|i: int|
                0 <= i < left.ic@.len() ==> (#[trigger] left.ic@[i])@ == right.ic@[i]@
        },
{
    lemma_same_encodings(left.ic@, right.ic@);
}

/// Two sets of parameters are equal exactly where their keys are and their lists
/// hold the same points in the same places, each by its encoding.
pub proof fn parameters_equality_is_that_of_the_points<E: Engine>(
    left: &Parameters<E>,
    right: &Parameters<E>,
    equal: bool,
)
    requires
        call_ensures(<Parameters<E> as PartialEq>::eq, (left, right), equal),
    ensures
        equal <==> left@ == right@,
        equal <==> {
            &&& left.vk.alpha_g1@ == right.vk.alpha_g1@
            &&& left.vk.beta_g1@ == right.vk.beta_g1@
            &&& left.vk.beta_g2@ == right.vk.beta_g2@
            &&& left.vk.gamma_g2@ == right.vk.gamma_g2@
            &&& left.vk.delta_g1@ == right.vk.delta_g1@
            &&& left.vk.delta_g2@ == right.vk.delta_g2@
            &&& left.vk.ic@.len() == right.vk.ic@.len()
            &&& forall|i: int|
                0 <= i < left.vk.ic@.len() ==> (#[trigger] left.vk.ic@[i])@ == right.vk.ic@[i]@
            &&& left.h@.len() == right.h@.len()
            &&& forall|i: int| 0 <= i < left.h@.len() ==> (#[trigger] left.h@[i])@ == right.h@[i]@
            &&& left.l@.len() == right.l@.len()
            &&& forall|i: int| 0 <= i < left.l@.len() ==> (#[trigger] left.l@[i])@ == right.l@[i]@
            &&& left.a@.len() == right.a@.len()
            &&& forall|i: int| 0 <= i < left.a@.len() ==> (#[trigger] left.a@[i])@ == right.a@[i]@
            &&& left.b_g1@.len() == right.b_g1@.len()
            &&& forall|i: int|
                0 <= i < left.b_g1@.len() ==> (#[trigger] left.b_g1@[i])@ == right.b_g1@[i]@
            &&& left.b_g2@.len() == right.b_g2@.len()
            &&& forall|i: int|
                0 <= i < left.b_g2@.len() ==> (#[trigger] left.b_g2@[i])@ == right.b_g2@[i]@
        },
{
    lemma_same_encodings(left.vk.ic@, right.vk.ic@);
    lemma_same_encodings(left.h@, right.h@);
    lemma_same_encodings(left.l@, right.l@);
    lemma_same_encodings(left.a@, right.a@);
    lemma_same_encodings(left.b_g1@, right.b_g1@);
    lemma_same_encodings(left.b_g2@, right.b_g2@);
}

/// A copy of a key holds the same points in the same places.
pub proof fn key_copy_holds_the_same_points<E: Engine>(vk: &VerifyingKey<E>, copy: VerifyingKey<E>)
    requires
        call_ensures(<VerifyingKey<E> as Clone>::clone, (vk,), copy),
    ensures
        copy.alpha_g1@ == vk.alpha_g1@,
        copy.beta_g1@ == vk.beta_g1@,
        copy.beta_g2@ == vk.beta_g2@,
        copy.gamma_g2@ == vk.gamma_g2@,
        copy.delta_g1@ == vk.delta_g1@,
        copy.delta_g2@ == vk.delta_g2@,
        copy.ic@.len() == vk.ic@.len(),
        forall|i: int| 0 <= i < copy.ic@.len() ==> (#[trigger] copy.ic@[i])@ == vk.ic@[i]@,
{
    lemma_same_encodings(copy.ic@, vk.ic@);
}

/// A copy of parameters holds the same points in the same places.
pub proof fn parameters_copy_holds_the_same_points<E: Engine>(
    params: &Parameters<E>,
    copy: Parameters<E>,
)
    requires
        call_ensures(<Parameters<E> as Clone>::clone, (params,), copy),
    ensures
        copy.vk.alpha_g1@ == params.vk.alpha_g1@,
        copy.vk.beta_g1@ == params.vk.beta_g1@,
        copy.vk.beta_g2@ == params.vk.beta_g2@,
        copy.vk.gamma_g2@ == params.vk.gamma_g2@,
        copy.vk.delta_g1@ == params.vk.delta_g1@,
        copy.vk.delta_g2@ == params.vk.delta_g2@,
        copy.vk.ic@.len() == params.vk.ic@.len(),
        forall|i: int|
            0 <= i < copy.vk.ic@.len() ==> (#[trigger] copy.vk.ic@[i])@ == params.vk.ic@[i]@,
        copy.h@.len() == params.h@.len(),
        forall|i: int| 0 <= i < copy.h@.len() ==> (#[trigger] copy.h@[i])@ == params.h@[i]@,
        copy.l@.len() == params.l@.len(),
        forall|i: int| 0 <= i < copy.l@.len() ==> (#[trigger] copy.l@[i])@ == params.l@[i]@,
        copy.a@.len() == params.a@.len(),
        forall|i: int| 0 <= i < copy.a@.len() ==> (#[trigger] copy.a@[i])@ == params.a@[i]@,
        copy.b_g1@.len() == params.b_g1@.len(),
        forall|i: int|
            0 <= i < copy.b_g1@.len() ==> (#[trigger] copy.b_g1@[i])@ == params.b_g1@[i]@,
        copy.b_g2@.len() == params.b_g2@.len(),
        forall|i: int|
            0 <= i < copy.b_g2@.len() ==> (#[trigger] copy.b_g2@[i])@ == params.b_g2@[i]@,
{
    lemma_same_encodings(copy.vk.ic@, params.vk.ic@);
    lemma_same_encodings(copy.h@, params.h@);
    lemma_same_encodings(copy.l@, params.l@);
    lemma_same_encodings(copy.a@, params.a@);
    lemma_same_encodings(copy.b_g1@, params.b_g1@);
    lemma_same_encodings(copy.b_g2@, params.b_g2@);
}

/// Reading a mapped file is reading: on the same bytes `read_mmap` and `read`
/// give the same points in the same places, or the same error.
pub proof fn mapped_read_gives_the_same_points<E: Engine>(
    bytes: &[u8],
    checked: bool,
    read: Result<(Parameters<E>, usize), ReadError>,
    mapped: Result<Parameters<E>, ReadError>,
)
    requires
        call_ensures(Parameters::<E>::read, (bytes, checked), read),
        call_ensures(Parameters::<E>::read_mmap, (bytes, checked), mapped),
    ensures
        match (read, mapped) {
            (Ok((left, used)), Ok(right)) => {
                &&& left.vk.alpha_g1@ == right.vk.alpha_g1@
                &&& left.vk.beta_g1@ == right.vk.beta_g1@
                &&& left.vk.beta_g2@ == right.vk.beta_g2@
                &&& left.vk.gamma_g2@ == right.vk.gamma_g2@
                &&& left.vk.delta_g1@ == right.vk.delta_g1@
                &&& left.vk.delta_g2@ == right.vk.delta_g2@
                &&& left.vk.ic@.len() == right.vk.ic@.len()
                &&& forall|i: int|
                    0 <= i < left.vk.ic@.len() ==> (#[trigger] left.vk.ic@[i])@ == right.vk.ic@[i]@
                &&& left.h@.len() == right.h@.len()
                &&& forall|i: int|
                    0 <= i < left.h@.len() ==> (#[trigger] left.h@[i])@ == right.h@[i]@
                &&& left.l@.len() == right.l@.len()
                &&& forall|i: int|
                    0 <= i < left.l@.len() ==> (#[trigger] left.l@[i])@ == right.l@[i]@
                &&& left.a@.len() == right.a@.len()
                &&& forall|i: int|
                    0 <= i < left.a@.len() ==> (#[trigger] left.a@[i])@ == right.a@[i]@
                &&& left.b_g1@.len() == right.b_g1@.len()
                &&& forall|i: int|
                    0 <= i < left.b_g1@.len() ==> (#[trigger] left.b_g1@[i])@ == right.b_g1@[i]@
                &&& left.b_g2@.len() == right.b_g2@.len()
                &&& forall|i: int|
                    0 <= i < left.b_g2@.len() ==> (#[trigger] left.b_g2@[i])@ == right.b_g2@[i]@
            },
            (Err(e), Err(f)) => e == f,
            _ => false,
        },
{
    if let (Ok((left, used)), Ok(right)) = (read, mapped) {
        lemma_same_encodings(left.vk.ic@, right.vk.ic@);
        lemma_same_encodings(left.h@, right.h@);
        lemma_same_encodings(left.l@, right.l@);
        lemma_same_encodings(left.a@, right.a@);
        lemma_same_encodings(left.b_g1@, right.b_g1@);
        lemma_same_encodings(left.b_g2@, right.b_g2@);
    }
}

/// A prover is handed the key and the lists as they are: `h` and `l` from their
/// first point on, and of `a`, `b_g1` and `b_g2` each twice, from its first point
/// on and from the point behind those of the inputs on, whatever numbers are
/// asked for.
pub proof fn source_hands_out_the_lists<'a, E: Engine>(
    params: &'a &'a Parameters<E>,
    num_ic: usize,
    num_h: usize,
    num_l: usize,
    num_inputs: usize,
    num_aux: usize,
    vk: Result<&'a VerifyingKey<E>, SynthesisError>,
    h: Result<(Arc<Vec<E::G1Affine>>, usize), SynthesisError>,
    l: Result<(Arc<Vec<E::G1Affine>>, usize), SynthesisError>,
    a: Result<
        ((Arc<Vec<E::G1Affine>>, usize), (Arc<Vec<E::G1Affine>>, usize)),
        SynthesisError,
    >,
    b_g1: Result<
        ((Arc<Vec<E::G1Affine>>, usize), (Arc<Vec<E::G1Affine>>, usize)),
        SynthesisError,
    >,
    b_g2: Result<
        ((Arc<Vec<E::G2Affine>>, usize), (Arc<Vec<E::G2Affine>>, usize)),
        SynthesisError,
    >,
)
    requires
        call_ensures(<&'a Parameters<E> as ParameterSource<E>>::get_vk, (params, num_ic), vk),
        call_ensures(<&'a Parameters<E> as ParameterSource<E>>::get_h, (params, num_h), h),
        call_ensures(<&'a Parameters<E> as ParameterSource<E>>::get_l, (params, num_l), l),
        call_ensures(
            <&'a Parameters<E> as ParameterSource<E>>::get_a,
            (params, num_inputs, num_aux),
            a,
        ),
        call_ensures(
            <&'a Parameters<E> as ParameterSource<E>>::get_b_g1,
            (params, num_inputs, num_aux),
            b_g1,
        ),
        call_ensures(
            <&'a Parameters<E> as ParameterSource<E>>::get_b_g2,
            (params, num_inputs, num_aux),
            b_g2,
        ),
    ensures
        vk matches Ok(key) && *key == params.vk,
        h matches Ok((points, from)) && points == params.h && from == 0,
        l matches Ok((points, from)) && points == params.l && from == 0,
        a matches Ok((inputs, aux)) && inputs.0 == params.a && inputs.1 == 0 && aux.0 == params.a
            && aux.1 == num_inputs,
        b_g1 matches Ok((inputs, aux)) && inputs.0 == params.b_g1 && inputs.1 == 0 && aux.0
            == params.b_g1 && aux.1 == num_inputs,
        b_g2 matches Ok((inputs, aux)) && inputs.0 == params.b_g2 && inputs.1 == 0 && aux.0
            == params.b_g2 && aux.1 == num_inputs,
{
}

/// What `==` means of parameters is that their views are the same, and then they
/// are written as the same bytes. Where their lengths fit in words, parameters
/// that are written as the same bytes are equal.
pub proof fn equality_is_that_of_the_bytes<E: Engine>(left: Parameters<E>, right: Parameters<E>)
    ensures
        left.eq_spec(&right) <==> left@ == right@,
        left.vk.eq_spec(&right.vk) <==> left.vk@ == right.vk@,
        left.eq_spec(&right) ==> parameters_bytes(left@) == parameters_bytes(right@),
        left.vk.eq_spec(&right.vk) ==> key_bytes(left.vk@) == key_bytes(right.vk@),
        ({
            &&& left.vk.ic@.len() <= u32::MAX && right.vk.ic@.len() <= u32::MAX
            &&& left.h@.len() <= u32::MAX && right.h@.len() <= u32::MAX
            &&& left.l@.len() <= u32::MAX && right.l@.len() <= u32::MAX
            &&& left.a@.len() <= u32::MAX && right.a@.len() <= u32::MAX
            &&& left.b_g1@.len() <= u32::MAX && right.b_g1@.len() <= u32::MAX
            &&& left.b_g2@.len() <= u32::MAX && right.b_g2@.len() <= u32::MAX
            &&& parameters_bytes(left@) == parameters_bytes(right@)
        }) ==> left.eq_spec(&right),
{
    let none = Seq::<u8>::empty();
    encodings_are_sized(left);
    encodings_are_sized(right);
    if left.vk.ic@.len() <= u32::MAX && right.vk.ic@.len() <= u32::MAX && left.h@.len() <= u32::MAX
        && right.h@.len() <= u32::MAX && left.l@.len() <= u32::MAX && right.l@.len() <= u32::MAX
        && left.a@.len() <= u32::MAX && right.a@.len() <= u32::MAX && left.b_g1@.len() <= u32::MAX
        && right.b_g1@.len() <= u32::MAX && left.b_g2@.len() <= u32::MAX && right.b_g2@.len()
        <= u32::MAX && parameters_bytes(left@) == parameters_bytes(right@) {
        bytes_determine_parameters::<E>(left@, none, right@, none);
    }
}

/// Points that are accepted and finite make a list that can be read.
proof fn lemma_good_list<P: CurvePoint>(points: Seq<P>, checked: bool)
    requires
        points.len() <= u32::MAX,
        forall|i: int|
            0 <= i < points.len() ==> P::admits((#[trigger] points[i])@, checked)
                && !P::at_infinity(points[i]@),
    ensures
        good_list::<P>(encodings(points), checked),
{
    assert forall|i: int| 0 <= i < encodings(points).len() implies good_point::<P>(
        #[trigger] encodings(points)[i],
        checked,
    ) by {
        assert(encodings(points)[i] == points[i]@);
    }
}

/// Reading undoes writing: where the points of parameters are accepted, those of
/// the lists are finite, and the lengths fit in words, an input that begins with
/// what `write` appended to an empty buffer is read as the same points in the same
/// places, and what was written is used, whatever follows.
pub proof fn reading_gives_the_written_points<E: Engine>(
    params: &Parameters<E>,
    writer: &mut Vec<u8>,
    bytes: &[u8],
    checked: bool,
    result: Result<(Parameters<E>, usize), ReadError>,
)
    requires
        old(writer)@.len() == 0,
        call_ensures(Parameters::<E>::write, (params, writer), ()),
        final(writer)@.len() <= bytes@.len(),
        bytes@.take(final(writer)@.len() as int) == final(writer)@,
        call_ensures(Parameters::<E>::read, (bytes, checked), result),
        E::G1Affine::admits(params.vk.alpha_g1@, true),
        E::G1Affine::admits(params.vk.beta_g1@, true),
        E::G2Affine::admits(params.vk.beta_g2@, true),
        E::G2Affine::admits(params.vk.gamma_g2@, true),
        E::G1Affine::admits(params.vk.delta_g1@, true),
        E::G2Affine::admits(params.vk.delta_g2@, true),
        params.vk.ic@.len() <= u32::MAX,
        forall|i: int|
            0 <= i < params.vk.ic@.len() ==> E::G1Affine::admits(
                (#[trigger] params.vk.ic@[i])@,
                true,
            )
                && !E::G1Affine::at_infinity(params.vk.ic@[i]@),
        params.h@.len() <= u32::MAX,
        forall|i: int|
            0 <= i < params.h@.len() ==> E::G1Affine::admits((#[trigger] params.h@[i])@, checked)
                && !E::G1Affine::at_infinity(params.h@[i]@),
        params.l@.len() <= u32::MAX,
        forall|i: int|
            0 <= i < params.l@.len() ==> E::G1Affine::admits((#[trigger] params.l@[i])@, checked)
                && !E::G1Affine::at_infinity(params.l@[i]@),
        params.a@.len() <= u32::MAX,
        forall|i: int|
            0 <= i < params.a@.len() ==> E::G1Affine::admits((#[trigger] params.a@[i])@, checked)
                && !E::G1Affine::at_infinity(params.a@[i]@),
        params.b_g1@.len() <= u32::MAX,
        forall|i: int|
            0 <= i < params.b_g1@.len() ==> E::G1Affine::admits(
                (#[trigger] params.b_g1@[i])@,
                checked,
            )
                && !E::G1Affine::at_infinity(params.b_g1@[i]@),
        params.b_g2@.len() <= u32::MAX,
        forall|i: int|
            0 <= i < params.b_g2@.len() ==> E::G2Affine::admits(
                (#[trigger] params.b_g2@[i])@,
                checked,
            )
                && !E::G2Affine::at_infinity(params.b_g2@[i]@),
    ensures
        result matches Ok((back, used)) && {
            &&& used == final(writer)@.len()
            &&& back.vk.alpha_g1@ == params.vk.alpha_g1@
            &&& back.vk.beta_g1@ == params.vk.beta_g1@
            &&& back.vk.beta_g2@ == params.vk.beta_g2@
            &&& back.vk.gamma_g2@ == params.vk.gamma_g2@
            &&& back.vk.delta_g1@ == params.vk.delta_g1@
            &&& back.vk.delta_g2@ == params.vk.delta_g2@
            &&& back.vk.ic@.len() == params.vk.ic@.len()
            &&& forall|i: int|
                0 <= i < back.vk.ic@.len() ==> (#[trigger] back.vk.ic@[i])@ == params.vk.ic@[i]@
            &&& back.h@.len() == params.h@.len()
            &&& forall|i: int| 0 <= i < back.h@.len() ==> (#[trigger] back.h@[i])@ == params.h@[i]@
            &&& back.l@.len() == params.l@.len()
            &&& forall|i: int| 0 <= i < back.l@.len() ==> (#[trigger] back.l@[i])@ == params.l@[i]@
            &&& back.a@.len() == params.a@.len()
            &&& forall|i: int| 0 <= i < back.a@.len() ==> (#[trigger] back.a@[i])@ == params.a@[i]@
            &&& back.b_g1@.len() == params.b_g1@.len()
            &&& forall|i: int|
                0 <= i < back.b_g1@.len() ==> (#[trigger] back.b_g1@[i])@ == params.b_g1@[i]@
            &&& back.b_g2@.len() == params.b_g2@.len()
            &&& forall|i: int|
                0 <= i < back.b_g2@.len() ==> (#[trigger] back.b_g2@[i])@ == params.b_g2@[i]@
        },
{
    let written = parameters_bytes(params@);
    let tail = bytes@.skip(written.len() as int);
    assert(old(writer)@ + written =~= written);
    assert(written + tail =~= bytes@);
    lemma_good_list::<E::G1Affine>(params.vk.ic@, true);
    lemma_good_list::<E::G1Affine>(params.h@, checked);
    lemma_good_list::<E::G1Affine>(params.l@, checked);
    lemma_good_list::<E::G1Affine>(params.a@, checked);
    lemma_good_list::<E::G1Affine>(params.b_g1@, checked);
    lemma_good_list::<E::G2Affine>(params.b_g2@, checked);
    read_gives_back_what_was_written::<E>(params@, tail, checked);
    let back = result->Ok_0.0;
    lemma_same_encodings(back.vk.ic@, params.vk.ic@);
    lemma_same_encodings(back.h@, params.h@);
    lemma_same_encodings(back.l@, params.l@);
    lemma_same_encodings(back.a@, params.a@);
    lemma_same_encodings(back.b_g1@, params.b_g1@);
    lemma_same_encodings(back.b_g2@, params.b_g2@);
}

/// Mapping undoes writing: where the points of the key of parameters are accepted,
/// those of its list are finite, and the lengths fit in words, a file that begins
/// with what `write` appended to an empty buffer is mapped, with the same key, and
/// with as many ranges as points, of which each holds the encoding of the point in
/// its place. The points of the other lists may be any points.
pub proof fn mapping_gives_the_written_points<E: Engine>(
    params: &Parameters<E>,
    writer: &mut Vec<u8>,
    bytes: &[u8],
    checked: bool,
    result: Option<Result<MappedParameters<E>, ReadError>>,
)
    requires
        old(writer)@.len() == 0,
        call_ensures(Parameters::<E>::write, (params, writer), ()),
        final(writer)@.len() <= bytes@.len(),
        bytes@.take(final(writer)@.len() as int) == final(writer)@,
        call_ensures(Parameters::<E>::try_build_mapped_parameters, (bytes, checked), result),
        E::G1Affine::admits(params.vk.alpha_g1@, true),
        E::G1Affine::admits(params.vk.beta_g1@, true),
        E::G2Affine::admits(params.vk.beta_g2@, true),
        E::G2Affine::admits(params.vk.gamma_g2@, true),
        E::G1Affine::admits(params.vk.delta_g1@, true),
        E::G2Affine::admits(params.vk.delta_g2@, true),
        params.vk.ic@.len() <= u32::MAX,
        forall|i: int|
            0 <= i < params.vk.ic@.len() ==> E::G1Affine::admits(
                (#[trigger] params.vk.ic@[i])@,
                true,
            )
                && !E::G1Affine::at_infinity(params.vk.ic@[i]@),
        params.h@.len() <= u32::MAX,
        params.l@.len() <= u32::MAX,
        params.a@.len() <= u32::MAX,
        params.b_g1@.len() <= u32::MAX,
        params.b_g2@.len() <= u32::MAX,
    ensures
        result matches Some(Ok(m)) && {
            &&& m.checked == checked
            &&& m.vk.alpha_g1@ == params.vk.alpha_g1@
            &&& m.vk.beta_g1@ == params.vk.beta_g1@
            &&& m.vk.beta_g2@ == params.vk.beta_g2@
            &&& m.vk.gamma_g2@ == params.vk.gamma_g2@
            &&& m.vk.delta_g1@ == params.vk.delta_g1@
            &&& m.vk.delta_g2@ == params.vk.delta_g2@
            &&& m.vk.ic@.len() == params.vk.ic@.len()
            &&& forall|i: int|
                0 <= i < m.vk.ic@.len() ==> (#[trigger] m.vk.ic@[i])@ == params.vk.ic@[i]@
            &&& m.h@.len() == params.h@.len()
            &&& forall|i: int|
                0 <= i < m.h@.len() ==> {
                    &&& (#[trigger] m.h@[i]).start <= m.h@[i].end <= bytes@.len()
                    &&& bytes@.subrange(m.h@[i].start as int, m.h@[i].end as int)
                        == params.h@[i]@
                }
            &&& m.l@.len() == params.l@.len()
            &&& forall|i: int|
                0 <= i < m.l@.len() ==> {
                    &&& (#[trigger] m.l@[i]).start <= m.l@[i].end <= bytes@.len()
                    &&& bytes@.subrange(m.l@[i].start as int, m.l@[i].end as int)
                        == params.l@[i]@
                }
            &&& m.a@.len() == params.a@.len()
            &&& forall|i: int|
                0 <= i < m.a@.len() ==> {
                    &&& (#[trigger] m.a@[i]).start <= m.a@[i].end <= bytes@.len()
                    &&& bytes@.subrange(m.a@[i].start as int, m.a@[i].end as int)
                        == params.a@[i]@
                }
            &&& m.b_g1@.len() == params.b_g1@.len()
            &&& forall|i: int|
                0 <= i < m.b_g1@.len() ==> {
                    &&& (#[trigger] m.b_g1@[i]).start <= m.b_g1@[i].end <= bytes@.len()
                    &&& bytes@.subrange(m.b_g1@[i].start as int, m.b_g1@[i].end as int)
                        == params.b_g1@[i]@
                }
            &&& m.b_g2@.len() == params.b_g2@.len()
            &&& forall|i: int|
                0 <= i < m.b_g2@.len() ==> {
                    &&& (#[trigger] m.b_g2@[i]).start <= m.b_g2@[i].end <= bytes@.len()
                    &&& bytes@.subrange(m.b_g2@[i].start as int, m.b_g2@[i].end as int)
                        == params.b_g2@[i]@
                }
        },
{
    let written = parameters_bytes(params@);
    let tail = bytes@.skip(written.len() as int);
    assert(bytes@.len() == bytes.len());
    assert(old(writer)@ + written =~= written);
    assert(written + tail =~= bytes@);
    lemma_good_list::<E::G1Affine>(params.vk.ic@, true);
    encodings_are_sized(*params);
    mapping_finds_what_was_written::<E>(params@, tail);
    let m = result->Some_0->Ok_0;
    lemma_same_encodings(m.vk.ic@, params.vk.ic@);
    lemma_ranges_hold::<E::G1Affine>(bytes@, m.h@, params.h@);
    lemma_ranges_hold::<E::G1Affine>(bytes@, m.l@, params.l@);
    lemma_ranges_hold::<E::G1Affine>(bytes@, m.a@, params.a@);
    lemma_ranges_hold::<E::G1Affine>(bytes@, m.b_g1@, params.b_g1@);
    lemma_ranges_hold::<E::G2Affine>(bytes@, m.b_g2@, params.b_g2@);
}

} // verus!
