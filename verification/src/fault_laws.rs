//! What reading says of inputs that hold a bad point or are cut short.

use vstd::prelude::*;

use crate::engine::{CurvePoint, Engine};
use crate::faults::{
    fails, lemma_a_corrupted, lemma_b_g1_corrupted, lemma_b_g2_corrupted, lemma_h_corrupted,
    lemma_ic_corrupted, lemma_l_corrupted, lemma_lead_corrupted, reads_as,
};
use crate::format::key;
use crate::laws::{cut_short_is_noticed, later_bytes_do_not_matter};
use crate::mapped::MappedParameters;
use crate::params::Parameters;
use crate::wire::ReadError;

verus! {

/// What was read is what the format says.
proof fn lemma_read<E: Engine>(
    bytes: &[u8],
    checked: bool,
    params: Parameters<E>,
    used: usize,
)
    requires
        call_ensures(
            Parameters::<E>::read,
            (bytes, checked),
            Ok::<(Parameters<E>, usize), ReadError>((params, used)),
        ),
    ensures
        reads_as::<E>(bytes@, checked, params@, used as nat),
        params@.vk.ic.len() == params.vk.ic@.len(),
        params@.h.len() == params.h@.len(),
        params@.l.len() == params.l@.len(),
        params@.a.len() == params.a@.len(),
        params@.b_g1.len() == params.b_g1@.len(),
        params@.b_g2.len() == params.b_g2@.len(),
{
    reveal(reads_as);
}

/// Where the format says so, reading fails.
proof fn lemma_fails<E: Engine>(
    bytes: &[u8],
    checked: bool,
    result: Result<(Parameters<E>, usize), ReadError>,
)
    requires
        call_ensures(Parameters::<E>::read, (bytes, checked), result),
    ensures
        forall|e: ReadError| #[trigger]
            fails::<E>(bytes@, checked, e) ==> result == Err::<(Parameters<E>, usize), ReadError>(
                e,
            ),
{
    reveal(fails);
}

/// The first bad point decides. Where an input is as one that is read up to the
/// place of a point of `h`, `l`, `a` or `b_g1`, the lists counted from zero, and
/// does not hold such a point there, it is refused: as cut short where it ends
/// before the point does, as not on the curve where the decoder does not accept
/// the bytes, and otherwise as holding the point at infinity. What follows does
/// not matter.
pub proof fn first_bad_point_decides<E: Engine>(
    good: &[u8],
    params: Parameters<E>,
    used: usize,
    bytes: &[u8],
    checked: bool,
    result: Result<(Parameters<E>, usize), ReadError>,
    list: int,
    index: nat,
)
    requires
        call_ensures(
            Parameters::<E>::read,
            (good, checked),
            Ok::<(Parameters<E>, usize), ReadError>((params, used)),
        ),
        call_ensures(Parameters::<E>::read, (bytes, checked), result),
        0 <= list < 4,
        index < (if list == 0 {
            params.h@.len()
        } else if list == 1 {
            params.l@.len()
        } else if list == 2 {
            params.a@.len()
        } else {
            params.b_g1@.len()
        }),
        ({
            let g1 = E::G1Affine::size() as int;
            let ic = 3 * g1 + 3 * (E::G2Affine::size() as int);
            let h = ic + 4 + params.vk.ic@.len() * g1;
            let l = h + 4 + params.h@.len() * g1;
            let a = l + 4 + params.l@.len() * g1;
            let b_g1 = a + 4 + params.a@.len() * g1;
            let start = if list == 0 {
                h
            } else if list == 1 {
                l
            } else if list == 2 {
                a
            } else {
                b_g1
            };
            let at = start + 4 + index * g1;
            at <= bytes@.len() && bytes@.take(at) == good@.take(at)
        }),
    ensures
        ({
            let g1 = E::G1Affine::size() as int;
            let ic = 3 * g1 + 3 * (E::G2Affine::size() as int);
            let h = ic + 4 + params.vk.ic@.len() * g1;
            let l = h + 4 + params.h@.len() * g1;
            let a = l + 4 + params.l@.len() * g1;
            let b_g1 = a + 4 + params.a@.len() * g1;
            let start = if list == 0 {
                h
            } else if list == 1 {
                l
            } else if list == 2 {
                a
            } else {
                b_g1
            };
            let at = start + 4 + index * g1;
            let repr = bytes@.subrange(at, at + g1);
            let whole = at + g1 <= bytes@.len();
            let accepted = E::G1Affine::admits(repr, checked);
            &&& !whole ==> result == Err::<(Parameters<E>, usize), ReadError>(
                ReadError::UnexpectedEof,
            )
            &&& whole && !accepted ==> result == Err::<(Parameters<E>, usize), ReadError>(
                ReadError::NotOnCurve,
            )
            &&& whole && accepted && E::G1Affine::at_infinity(repr) ==> result
                == Err::<(Parameters<E>, usize), ReadError>(
                ReadError::PointAtInfinity,
            )
        }),
{
    lemma_read(good, checked, params, used);
    if list == 0 {
        lemma_h_corrupted::<E>(good@, bytes@, checked, params@, used as nat, index);
    } else if list == 1 {
        lemma_l_corrupted::<E>(good@, bytes@, checked, params@, used as nat, index);
    } else if list == 2 {
        lemma_a_corrupted::<E>(good@, bytes@, checked, params@, used as nat, index);
    } else {
        lemma_b_g1_corrupted::<E>(good@, bytes@, checked, params@, used as nat, index);
    }
    lemma_fails(bytes, checked, result);
}

/// The first bad point of `b_g2` decides, as that of another list does.
pub proof fn first_bad_point_of_b_g2_decides<E: Engine>(
    good: &[u8],
    params: Parameters<E>,
    used: usize,
    bytes: &[u8],
    checked: bool,
    result: Result<(Parameters<E>, usize), ReadError>,
    index: nat,
)
    requires
        call_ensures(
            Parameters::<E>::read,
            (good, checked),
            Ok::<(Parameters<E>, usize), ReadError>((params, used)),
        ),
        call_ensures(Parameters::<E>::read, (bytes, checked), result),
        index < params.b_g2@.len(),
        ({
            let g1 = E::G1Affine::size() as int;
            let ic = 3 * g1 + 3 * (E::G2Affine::size() as int);
            let h = ic + 4 + params.vk.ic@.len() * g1;
            let l = h + 4 + params.h@.len() * g1;
            let a = l + 4 + params.l@.len() * g1;
            let b_g1 = a + 4 + params.a@.len() * g1;
            let b_g2 = b_g1 + 4 + params.b_g1@.len() * g1;
            let at = b_g2 + 4 + index * E::G2Affine::size();
            at <= bytes@.len() && bytes@.take(at) == good@.take(at)
        }),
    ensures
        ({
            let g1 = E::G1Affine::size() as int;
            let ic = 3 * g1 + 3 * (E::G2Affine::size() as int);
            let h = ic + 4 + params.vk.ic@.len() * g1;
            let l = h + 4 + params.h@.len() * g1;
            let a = l + 4 + params.l@.len() * g1;
            let b_g1 = a + 4 + params.a@.len() * g1;
            let b_g2 = b_g1 + 4 + params.b_g1@.len() * g1;
            let at = b_g2 + 4 + index * E::G2Affine::size();
            let end = at + E::G2Affine::size();
            let repr = bytes@.subrange(at, end);
            let whole = end <= bytes@.len();
            let accepted = E::G2Affine::admits(repr, checked);
            &&& !whole ==> result == Err::<(Parameters<E>, usize), ReadError>(
                ReadError::UnexpectedEof,
            )
            &&& whole && !accepted ==> result == Err::<(Parameters<E>, usize), ReadError>(
                ReadError::NotOnCurve,
            )
            &&& whole && accepted && E::G2Affine::at_infinity(repr) ==> result
                == Err::<(Parameters<E>, usize), ReadError>(
                ReadError::PointAtInfinity,
            )
        }),
{
    lemma_read(good, checked, params, used);
    lemma_b_g2_corrupted::<E>(good@, bytes@, checked, params@, used as nat, index);
    lemma_fails(bytes, checked, result);
}

/// The first bad point of a key decides. Where an input is as one whose key is
/// read up to the place of one of the six leading points, counted from zero, and
/// does not hold an accepted point there, it is refused: as cut short where it
/// ends before the point does, and otherwise as not on the curve, whether or not
/// the points of the lists are to be checked. A file like that is not mapped
/// either.
pub proof fn first_bad_leading_point_decides<E: Engine>(
    good: &[u8],
    mapped: MappedParameters<E>,
    good_checked: bool,
    bytes: &[u8],
    checked: bool,
    read: Result<(Parameters<E>, usize), ReadError>,
    index: Option<Result<MappedParameters<E>, ReadError>>,
    which: int,
)
    requires
        call_ensures(
            Parameters::<E>::try_build_mapped_parameters,
            (good, good_checked),
            Some(Ok::<MappedParameters<E>, ReadError>(mapped)),
        ),
        call_ensures(Parameters::<E>::read, (bytes, checked), read),
        call_ensures(Parameters::<E>::try_build_mapped_parameters, (bytes, checked), index),
        0 <= which < 6,
        ({
            let g1 = E::G1Affine::size() as int;
            let g2 = E::G2Affine::size() as int;
            let at = if which == 0 {
                0
            } else if which == 1 {
                g1
            } else if which == 2 {
                2 * g1
            } else if which == 3 {
                2 * g1 + g2
            } else if which == 4 {
                2 * g1 + 2 * g2
            } else {
                3 * g1 + 2 * g2
            };
            at <= bytes@.len() && bytes@.take(at) == good@.take(at)
        }),
    ensures
        ({
            let g1 = E::G1Affine::size() as int;
            let g2 = E::G2Affine::size() as int;
            let at = if which == 0 {
                0
            } else if which == 1 {
                g1
            } else if which == 2 {
                2 * g1
            } else if which == 3 {
                2 * g1 + g2
            } else if which == 4 {
                2 * g1 + 2 * g2
            } else {
                3 * g1 + 2 * g2
            };
            let in_g1 = which == 0 || which == 1 || which == 4;
            let end = if in_g1 {
                at + g1
            } else {
                at + g2
            };
            let repr = bytes@.subrange(at, end);
            let whole = end <= bytes@.len();
            let accepted = if in_g1 {
                E::G1Affine::admits(repr, true)
            } else {
                E::G2Affine::admits(repr, true)
            };
            &&& !whole ==> {
                &&& read == Err::<(Parameters<E>, usize), ReadError>(ReadError::UnexpectedEof)
                &&& index is None
            }
            &&& whole && !accepted ==> {
                &&& read == Err::<(Parameters<E>, usize), ReadError>(ReadError::NotOnCurve)
                &&& index == Some(Err::<MappedParameters<E>, ReadError>(ReadError::NotOnCurve))
            }
        }),
{
    let (vk, n) = key::<E>(good@)->Ok_0;
    lemma_lead_corrupted::<E>(good@, bytes@, vk, n, which);
}

/// The first bad point of the list of a key decides. Where an input is as one
/// whose key is read up to the place of a point of `ic`, and does not hold an
/// accepted finite point there, it is refused: as cut short where it ends before
/// the point does, as not on the curve where the checked decoder does not accept
/// the bytes, and otherwise as holding the point at infinity. A file like that is
/// not mapped either.
pub proof fn first_bad_input_point_decides<E: Engine>(
    good: &[u8],
    mapped: MappedParameters<E>,
    good_checked: bool,
    bytes: &[u8],
    checked: bool,
    read: Result<(Parameters<E>, usize), ReadError>,
    index: Option<Result<MappedParameters<E>, ReadError>>,
    i: nat,
)
    requires
        call_ensures(
            Parameters::<E>::try_build_mapped_parameters,
            (good, good_checked),
            Some(Ok::<MappedParameters<E>, ReadError>(mapped)),
        ),
        call_ensures(Parameters::<E>::read, (bytes, checked), read),
        call_ensures(Parameters::<E>::try_build_mapped_parameters, (bytes, checked), index),
        i < mapped.vk.ic@.len(),
        ({
            let g1 = E::G1Affine::size() as int;
            let at = 3 * g1 + 3 * (E::G2Affine::size() as int) + 4 + i * g1;
            at <= bytes@.len() && bytes@.take(at) == good@.take(at)
        }),
    ensures
        ({
            let g1 = E::G1Affine::size() as int;
            let at = 3 * g1 + 3 * (E::G2Affine::size() as int) + 4 + i * g1;
            let repr = bytes@.subrange(at, at + g1);
            let whole = at + g1 <= bytes@.len();
            let accepted = E::G1Affine::admits(repr, true);
            &&& !whole ==> {
                &&& read == Err::<(Parameters<E>, usize), ReadError>(ReadError::UnexpectedEof)
                &&& index is None
            }
            &&& whole && !accepted ==> {
                &&& read == Err::<(Parameters<E>, usize), ReadError>(ReadError::NotOnCurve)
                &&& index == Some(Err::<MappedParameters<E>, ReadError>(ReadError::NotOnCurve))
            }
            &&& whole && accepted && E::G1Affine::at_infinity(repr) ==> {
                &&& read == Err::<(Parameters<E>, usize), ReadError>(ReadError::PointAtInfinity)
                &&& index == Some(Err::<MappedParameters<E>, ReadError>(ReadError::PointAtInfinity))
            }
        }),
{
    let (vk, n) = key::<E>(good@)->Ok_0;
    lemma_ic_corrupted::<E>(good@, bytes@, vk, n, i);
}

/// Parameters that are cut short are noticed: where an input is the beginning of
/// one that is read, and does not hold all of what was used of that, it is
/// refused as cut short.
pub proof fn reading_notices_what_is_cut_short<E: Engine>(
    whole: &[u8],
    params: Parameters<E>,
    used: usize,
    bytes: &[u8],
    checked: bool,
    result: Result<(Parameters<E>, usize), ReadError>,
)
    requires
        call_ensures(
            Parameters::<E>::read,
            (whole, checked),
            Ok::<(Parameters<E>, usize), ReadError>((params, used)),
        ),
        call_ensures(Parameters::<E>::read, (bytes, checked), result),
        bytes@.len() < used,
        bytes@.len() <= whole@.len(),
        bytes@ == whole@.take(bytes@.len() as int),
    ensures
        result == Err::<(Parameters<E>, usize), ReadError>(ReadError::UnexpectedEof),
{
    cut_short_is_noticed::<E>(whole@, bytes@.len(), checked);
}

/// Unless an input is cut short, what follows it does not matter: with more
/// bytes behind it, the same is read and as many bytes are used, or the error is
/// the same.
pub proof fn reading_does_not_look_behind<E: Engine>(
    bytes: &[u8],
    first: Result<(Parameters<E>, usize), ReadError>,
    more: &[u8],
    second: Result<(Parameters<E>, usize), ReadError>,
    checked: bool,
)
    requires
        call_ensures(Parameters::<E>::read, (bytes, checked), first),
        call_ensures(Parameters::<E>::read, (more, checked), second),
        bytes@.len() <= more@.len(),
        more@.take(bytes@.len() as int) == bytes@,
        first != Err::<(Parameters<E>, usize), ReadError>(ReadError::UnexpectedEof),
    ensures
        match (first, second) {
            (Ok((p, used)), Ok((q, n))) => used == n && p@ == q@,
            (Err(e), Err(f)) => e == f,
            _ => false,
        },
{
    let tail = more@.skip(bytes@.len() as int);
    assert(bytes@ + tail =~= more@);
    later_bytes_do_not_matter::<E>(bytes@, tail, checked);
}

} // verus!
