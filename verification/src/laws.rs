//! What holds of the format as a whole.

use vstd::prelude::*;

use crate::engine::{encodings, encodings_have_size, CurvePoint, Engine};
use crate::format::{
    finite_point, good_key, good_parameters, key, key_bytes, lengths_fit, lists, parameters,
    parameters_bytes, point, section, section_bytes, sized_key, sized_parameters, ParametersView,
};
use crate::lemmas::{
    lemma_key, lemma_key_determined, lemma_key_first, lemma_key_more, lemma_key_then_lists,
    lemma_last_range, lemma_lists, lemma_lists_determined, lemma_lists_lie, lemma_lists_more,
    lemma_lists_of_bytes, lemma_lists_written, lemma_parts, lemma_section_unchecked, lemma_six,
    lemma_skip_front, lemma_take_more,
};
use crate::mapped::{mapping, ranges_hold, MappedParameters};
use crate::params::Parameters;
use crate::wire::ReadError;

verus! {

/// What is written is read back: parameters whose points are accepted and
/// finite, and whose lists are not too long, are read from their bytes,
/// whatever follows these, and all of these are used.
pub proof fn read_gives_back_what_was_written<E: Engine>(
    params: ParametersView,
    tail: Seq<u8>,
    checked: bool,
)
    requires
        good_parameters::<E>(params, checked),
    ensures
        parameters::<E>(parameters_bytes(params) + tail, checked) == Ok::<
            (ParametersView, nat),
            ReadError,
        >((params, parameters_bytes(params).len())),
{
    let bytes = parameters_bytes(params) + tail;
    let n = key_bytes(params.vk).len();
    let (h, l, a) = (section_bytes(params.h), section_bytes(params.l), section_bytes(params.a));
    let (b_g1, b_g2) = (section_bytes(params.b_g1), section_bytes(params.b_g2));
    let after = h + l + a + b_g1 + b_g2;
    lemma_six(key_bytes(params.vk), h, l, a, b_g1, b_g2);
    lemma_key_first::<E>(params, tail);
    lemma_lists_of_bytes::<E>(params, tail, checked);
    lemma_parts::<E>(bytes, n, params, after.len(), checked);
}

/// What is read is what would be written: the parameters that were read have
/// the bytes that they were read from, and only these. Their lists hold no
/// point at infinity, and no point that the decoder does not accept.
pub proof fn written_is_what_was_read<E: Engine>(bytes: Seq<u8>, checked: bool)
    requires
        parameters::<E>(bytes, checked) is Ok,
    ensures
        ({
            let (params, used) = parameters::<E>(bytes, checked)->Ok_0;
            &&& used <= bytes.len()
            &&& parameters_bytes(params) == bytes.take(used as int)
            &&& good_parameters::<E>(params, checked)
        }),
{
    let (vk, n0) = key::<E>(bytes)->Ok_0;
    let rest = bytes.skip(n0 as int);
    let (params, n1) = lists::<E>(vk, rest, checked)->Ok_0;
    lemma_key::<E>(bytes);
    lemma_lists::<E>(vk, rest, checked);
    lemma_take_more(bytes, n0, n1);
    lemma_six(
        key_bytes(vk),
        section_bytes(params.h),
        section_bytes(params.l),
        section_bytes(params.a),
        section_bytes(params.b_g1),
        section_bytes(params.b_g2),
    );
}

/// The encoding is self-delimiting: where the bytes of one set of parameters
/// and the bytes of another begin the same input, the two are equal, and so is
/// what follows them. In particular no encoding is the beginning of another.
/// The points need not be accepted or finite.
pub proof fn bytes_determine_parameters<E: Engine>(
    left: ParametersView,
    left_rest: Seq<u8>,
    right: ParametersView,
    right_rest: Seq<u8>,
)
    requires
        sized_key::<E>(left.vk),
        sized_parameters::<E>(left),
        sized_key::<E>(right.vk),
        sized_parameters::<E>(right),
        parameters_bytes(left) + left_rest == parameters_bytes(right) + right_rest,
    ensures
        left == right,
        left_rest == right_rest,
{
    lemma_key_then_lists(left, left_rest);
    lemma_key_then_lists(right, right_rest);
    lemma_key_determined::<E>(
        left.vk,
        section_bytes(left.h) + section_bytes(left.l) + section_bytes(left.a) + section_bytes(
            left.b_g1,
        ) + section_bytes(left.b_g2) + left_rest,
        right.vk,
        section_bytes(right.h) + section_bytes(right.l) + section_bytes(right.a) + section_bytes(
            right.b_g1,
        ) + section_bytes(right.b_g2) + right_rest,
    );
    lemma_lists_determined::<E>(left, left_rest, right, right_rest);
}

/// The encoding of every point of a set of parameters has the size of an
/// encoding, so the key and the lists have the sizes that their lengths say.
pub proof fn encodings_are_sized<E: Engine>(params: Parameters<E>)
    ensures
        lengths_fit(params@) ==> sized_parameters::<E>(params@),
        params@.vk.ic.len() <= u32::MAX ==> sized_key::<E>(params@.vk),
{
    params.vk.alpha_g1.encoding_has_size();
    params.vk.beta_g1.encoding_has_size();
    params.vk.beta_g2.encoding_has_size();
    params.vk.gamma_g2.encoding_has_size();
    params.vk.delta_g1.encoding_has_size();
    params.vk.delta_g2.encoding_has_size();
    encodings_have_size(params.vk.ic@);
    encodings_have_size(params.h@);
    encodings_have_size(params.l@);
    encodings_have_size(params.a@);
    encodings_have_size(params.b_g1@);
    encodings_have_size(params.b_g2@);
}

/// The point at infinity is refused as such in a list, and accepted in front of
/// the lists, with checks and without.
pub proof fn infinity_is_refused_as_such<P: CurvePoint>(bytes: Seq<u8>, checked: bool)
    requires
        bytes.len() >= P::size(),
        P::admits(bytes.take(P::size() as int), false),
        P::at_infinity(bytes.take(P::size() as int)),
    ensures
        point::<P>(bytes, checked) == Ok::<Seq<u8>, ReadError>(bytes.take(P::size() as int)),
        finite_point::<P>(bytes, checked) == Err::<Seq<u8>, ReadError>(ReadError::PointAtInfinity),
{
    P::infinity_is_admitted(bytes.take(P::size() as int));
}

/// The checks only reject: what is read with them is read without them too, and
/// is the same.
pub proof fn checks_only_reject<E: Engine>(bytes: Seq<u8>)
    requires
        parameters::<E>(bytes, true) is Ok,
    ensures
        parameters::<E>(bytes, false) == parameters::<E>(bytes, true),
{
    let (vk, n0) = key::<E>(bytes)->Ok_0;
    let rest = bytes.skip(n0 as int);
    lemma_section_unchecked::<E::G1Affine>(rest);
    let n1 = section::<E::G1Affine>(rest, true)->Ok_0.1;
    lemma_section_unchecked::<E::G1Affine>(rest.skip(n1 as int));
    let n2 = section::<E::G1Affine>(rest.skip(n1 as int), true)->Ok_0.1;
    lemma_section_unchecked::<E::G1Affine>(rest.skip((n1 + n2) as int));
    let n3 = section::<E::G1Affine>(rest.skip((n1 + n2) as int), true)->Ok_0.1;
    lemma_section_unchecked::<E::G1Affine>(rest.skip((n1 + n2 + n3) as int));
    let n4 = section::<E::G1Affine>(rest.skip((n1 + n2 + n3) as int), true)->Ok_0.1;
    lemma_section_unchecked::<E::G2Affine>(rest.skip((n1 + n2 + n3 + n4) as int));
}

/// Unless the input is cut short, the bytes behind the parameters, or behind
/// the first error, do not matter.
pub proof fn later_bytes_do_not_matter<E: Engine>(bytes: Seq<u8>, tail: Seq<u8>, checked: bool)
    requires
        parameters::<E>(bytes, checked) != Err::<(ParametersView, nat), ReadError>(
            ReadError::UnexpectedEof,
        ),
    ensures
        parameters::<E>(bytes + tail, checked) == parameters::<E>(bytes, checked),
{
    lemma_key_more::<E>(bytes, tail);
    if let Ok((vk, n0)) = key::<E>(bytes) {
        lemma_key::<E>(bytes);
        lemma_skip_front(bytes, tail, n0);
        lemma_lists_more::<E>(vk, bytes.skip(n0 as int), tail, checked);
    }
}

/// Parameters that are cut short are noticed: without the last of their bytes
/// they are not read, and the error says so.
pub proof fn cut_short_is_noticed<E: Engine>(bytes: Seq<u8>, len: nat, checked: bool)
    requires
        parameters::<E>(bytes, checked) is Ok,
        len < parameters::<E>(bytes, checked)->Ok_0.1,
    ensures
        parameters::<E>(bytes.take(len as int), checked) == Err::<(ParametersView, nat), ReadError>(
            ReadError::UnexpectedEof,
        ),
{
    let front = bytes.take(len as int);
    written_is_what_was_read::<E>(bytes, checked);
    if parameters::<E>(front, checked) != Err::<(ParametersView, nat), ReadError>(
        ReadError::UnexpectedEof,
    ) {
        assert(front + bytes.skip(len as int) =~= bytes);
        later_bytes_do_not_matter::<E>(front, bytes.skip(len as int), checked);
        written_is_what_was_read::<E>(front, checked);
    }
}

/// A mapped file gives the points that reading it gives: where the parameters
/// can be read, the file can be mapped, each recorded range holds the encoding
/// of the point that is read in its place, the recorded ranges end where the
/// parameters do, and the verifying key is the same.
pub proof fn mapping_gives_what_is_read<E: Engine>(bytes: Seq<u8>, checked: bool)
    requires
        parameters::<E>(bytes, checked) is Ok,
        bytes.len() <= usize::MAX,
    ensures
        ({
            let (params, used) = parameters::<E>(bytes, checked)->Ok_0;
            &&& mapping::<E>(bytes) matches Some(Ok((vk, at)))
            &&& at.end == used
            &&& vk == params.vk
            &&& at.holds::<E>(bytes, params)
        }),
{
    let (vk, n0) = key::<E>(bytes)->Ok_0;
    lemma_key::<E>(bytes);
    lemma_lists_lie::<E>(vk, bytes, n0, checked);
}

/// A mapped file gives the points that were written to it, whatever follows
/// them, and whether or not the points of the lists are accepted or finite.
pub proof fn mapping_finds_what_was_written<E: Engine>(params: ParametersView, tail: Seq<u8>)
    requires
        good_key::<E>(params.vk),
        sized_parameters::<E>(params),
        parameters_bytes(params).len() + tail.len() <= usize::MAX,
    ensures
        ({
            let bytes = parameters_bytes(params) + tail;
            &&& mapping::<E>(bytes) matches Some(Ok((vk, at)))
            &&& at.end == parameters_bytes(params).len()
            &&& vk == params.vk
            &&& at.holds::<E>(bytes, params)
        }),
{
    lemma_key_first::<E>(params, tail);
    lemma_lists_written::<E>(
        parameters_bytes(params) + tail,
        key_bytes(params.vk).len(),
        params,
        tail,
    );
}

/// Reading a mapped file is reading: on the same bytes `read_mmap` and `read`
/// give the same parameters, or the same error.
pub proof fn mapped_read_is_the_read<E: Engine>(
    bytes: &[u8],
    checked: bool,
    read: Result<(Parameters<E>, usize), ReadError>,
    mapped: Result<Parameters<E>, ReadError>,
)
    requires
        call_ensures(Parameters::<E>::read, (bytes, checked), read),
        call_ensures(Parameters::<E>::read_mmap, (bytes, checked), mapped),
    ensures
        match (read, mapped) {
            (Ok((left, used)), Ok(right)) => left@ == right@,
            (Err(e), Err(f)) => e == f,
            _ => false,
        },
{
}

/// Reading what `write` appended to an empty buffer gives equal parameters, and
/// uses the whole buffer.
pub proof fn read_undoes_write<E: Engine>(
    params: Parameters<E>,
    bytes: &[u8],
    checked: bool,
    read: Result<(Parameters<E>, usize), ReadError>,
)
    requires
        good_parameters::<E>(params@, checked),
        bytes@ == parameters_bytes(params@),
        call_ensures(Parameters::<E>::read, (bytes, checked), read),
    ensures
        read matches Ok((back, used)) && back@ == params@ && used == bytes@.len(),
{
    read_gives_back_what_was_written::<E>(params@, Seq::empty(), checked);
    assert(bytes@ + Seq::<u8>::empty() =~= bytes@);
}

/// Building an index of a file that holds what `write` appended to an empty
/// buffer finds everything that was written: the key is the same, every recorded
/// range lies within the file and holds the encoding of the point in its place,
/// and the ranges end where the file does. The points of the lists may be any
/// points, the point at infinity among them.
pub proof fn mapping_undoes_write<E: Engine>(
    params: Parameters<E>,
    bytes: &[u8],
    checked: bool,
    result: Result<MappedParameters<E>, ReadError>,
)
    requires
        good_key::<E>(params.vk@),
        lengths_fit(params@),
        bytes@ == parameters_bytes(params@),
        call_ensures(Parameters::<E>::build_mapped_parameters, (bytes, checked), result),
    ensures
        mapping::<E>(bytes@) is Some,
        result matches Ok(mapped) && {
            &&& mapped.vk@ == params.vk@
            &&& mapped.checked == checked
            &&& ranges_hold(mapped.h@, bytes@, encodings(params.h@))
            &&& ranges_hold(mapped.l@, bytes@, encodings(params.l@))
            &&& ranges_hold(mapped.a@, bytes@, encodings(params.a@))
            &&& ranges_hold(mapped.b_g1@, bytes@, encodings(params.b_g1@))
            &&& ranges_hold(mapped.b_g2@, bytes@, encodings(params.b_g2@))
            &&& mapped.b_g2@.len() > 0 ==> mapped.b_g2@.last().end == bytes@.len()
        },
{
    encodings_are_sized(params);
    assert(bytes@.len() == bytes.len());
    assert(bytes@ + Seq::<u8>::empty() =~= bytes@);
    mapping_finds_what_was_written::<E>(params@, Seq::empty());
    let at = mapping::<E>(bytes@)->Some_0->Ok_0.1;
    if at.b_g2.count > 0 {
        lemma_last_range(at.b_g2, E::G2Affine::size());
    }
}

} // verus!
