//! The verifying key.

use vstd::prelude::*;

use crate::engine::{encodings, CurvePoint, Engine};
use crate::format::{
    advance, key, key_bytes, key_of, key_point, key_point_size, key_points_from, KeyView,
};
use crate::points::{copy_points, read_point, read_points, same_points, value_of, write_points};
use crate::wire::{write_all, ReadError};

verus! {

/// The key with which proofs are verified.
pub struct VerifyingKey<E: Engine> {
    /// `alpha` in the first group.
    pub alpha_g1: E::G1Affine,
    /// `beta` in the first group.
    pub beta_g1: E::G1Affine,
    /// `beta` in the second group.
    pub beta_g2: E::G2Affine,
    /// `gamma` in the second group.
    pub gamma_g2: E::G2Affine,
    /// `delta` in the first group.
    pub delta_g1: E::G1Affine,
    /// `delta` in the second group.
    pub delta_g2: E::G2Affine,
    /// One point for each public input. Never contains points at infinity.
    pub ic: Vec<E::G1Affine>,
}

impl<E: Engine> View for VerifyingKey<E> {
    type V = KeyView;

    open spec fn view(&self) -> KeyView {
        KeyView {
            alpha_g1: self.alpha_g1@,
            beta_g1: self.beta_g1@,
            beta_g2: self.beta_g2@,
            gamma_g2: self.gamma_g2@,
            delta_g1: self.delta_g1@,
            delta_g2: self.delta_g2@,
            ic: encodings(self.ic@),
        }
    }
}

/// What a result holds, the points of a key by their encodings.
pub open spec fn encoded_key<E: Engine>(result: Result<VerifyingKey<E>, ReadError>) -> Result<
    KeyView,
    ReadError,
> {
    match result {
        Ok(vk) => Ok(vk@),
        Err(e) => Err(e),
    }
}

impl<E: Engine> Clone for VerifyingKey<E> {
    fn clone(&self) -> (copy: Self)
        ensures
            copy@ == self@,
    {
        VerifyingKey {
            alpha_g1: self.alpha_g1,
            beta_g1: self.beta_g1,
            beta_g2: self.beta_g2,
            gamma_g2: self.gamma_g2,
            delta_g1: self.delta_g1,
            delta_g2: self.delta_g2,
            ic: copy_points(&self.ic),
        }
    }
}

impl<E: Engine> PartialEq for VerifyingKey<E> {
    fn eq(&self, other: &Self) -> (equal: bool) {
        self.alpha_g1.same(&other.alpha_g1) && self.beta_g1.same(&other.beta_g1)
            && self.beta_g2.same(&other.beta_g2) && self.gamma_g2.same(&other.gamma_g2)
            && self.delta_g1.same(&other.delta_g1) && self.delta_g2.same(&other.delta_g2)
            && same_points(&self.ic, &other.ic)
    }
}

impl<E: Engine> vstd::std_specs::cmp::PartialEqSpecImpl for VerifyingKey<E> {
    open spec fn obeys_eq_spec() -> bool {
        true
    }

    open spec fn eq_spec(&self, other: &Self) -> bool {
        self@ == other@
    }
}

/// The leading points of a key, after one more of them was read at an offset.
proof fn lemma_key_points_step<E: Engine>(
    bytes: Seq<u8>,
    start: nat,
    got: Seq<Seq<u8>>,
    at: nat,
    repr: Seq<u8>,
)
    requires
        start <= at <= bytes.len(),
        got.len() < 6,
        key_points_from::<E>(Seq::empty(), bytes.skip(start as int)) == advance(
            key_points_from::<E>(got, bytes.skip(at as int)),
            (at - start) as nat,
        ),
        key_point::<E>(got.len() as int, bytes.skip(at as int)) == Ok::<Seq<u8>, ReadError>(repr),
    ensures
        ({
            let next = at + key_point_size::<E>(got.len() as int);
            key_points_from::<E>(Seq::empty(), bytes.skip(start as int)) == advance(
                key_points_from::<E>(got.push(repr), bytes.skip(next as int)),
                (next - start) as nat,
            )
        }),
{
    let size = key_point_size::<E>(got.len() as int);
    assert(bytes.skip(at as int).skip(size as int) =~= bytes.skip((at + size) as int));
}

impl<E: Engine> VerifyingKey<E> {
    /// Appends the bytes of the key to a buffer.
    pub fn write(&self, writer: &mut Vec<u8>)
        ensures
            final(writer)@ == old(writer)@ + key_bytes(self@),
    {
        write_all(writer, self.alpha_g1.to_uncompressed());
        write_all(writer, self.beta_g1.to_uncompressed());
        write_all(writer, self.beta_g2.to_uncompressed());
        write_all(writer, self.gamma_g2.to_uncompressed());
        write_all(writer, self.delta_g1.to_uncompressed());
        write_all(writer, self.delta_g2.to_uncompressed());
        write_points(writer, &self.ic);
        assert(writer@ =~= old(writer)@ + key_bytes(self@));
    }

    /// Reads a key at an offset and moves the offset behind it.
    pub(crate) fn read_at(bytes: &[u8], offset: &mut usize) -> (result: Result<Self, ReadError>)
        requires
            *old(offset) <= bytes@.len(),
        ensures
            encoded_key(result) == value_of(key::<E>(bytes@.skip(*old(offset) as int))),
            result is Ok ==> {
                &&& *final(offset) == *old(offset) + key::<E>(
                    bytes@.skip(*old(offset) as int),
                )->Ok_0.1
                &&& *final(offset) <= bytes@.len()
            },
    {
        let ghost start = *offset as nat;
        let ghost rest = bytes@.skip(start as int);
        let ghost mut got = Seq::<Seq<u8>>::empty();
        let ghost all = key_points_from::<E>(got, rest);
        let ghost mut at = *offset as nat;
        let alpha_g1: E::G1Affine = match read_point(bytes, offset, true) {
            Ok(p) => p,
            Err(e) => return Err(e),
        };
        proof {
            lemma_key_points_step::<E>(bytes@, start, got, at, alpha_g1@);
            got = got.push(alpha_g1@);
            at = *offset as nat;
        }
        let beta_g1: E::G1Affine = match read_point(bytes, offset, true) {
            Ok(p) => p,
            Err(e) => return Err(e),
        };
        proof {
            lemma_key_points_step::<E>(bytes@, start, got, at, beta_g1@);
            got = got.push(beta_g1@);
            at = *offset as nat;
        }
        let beta_g2: E::G2Affine = match read_point(bytes, offset, true) {
            Ok(p) => p,
            Err(e) => return Err(e),
        };
        proof {
            lemma_key_points_step::<E>(bytes@, start, got, at, beta_g2@);
            got = got.push(beta_g2@);
            at = *offset as nat;
        }
        let gamma_g2: E::G2Affine = match read_point(bytes, offset, true) {
            Ok(p) => p,
            Err(e) => return Err(e),
        };
        proof {
            lemma_key_points_step::<E>(bytes@, start, got, at, gamma_g2@);
            got = got.push(gamma_g2@);
            at = *offset as nat;
        }
        let delta_g1: E::G1Affine = match read_point(bytes, offset, true) {
            Ok(p) => p,
            Err(e) => return Err(e),
        };
        proof {
            lemma_key_points_step::<E>(bytes@, start, got, at, delta_g1@);
            got = got.push(delta_g1@);
            at = *offset as nat;
        }
        let delta_g2: E::G2Affine = match read_point(bytes, offset, true) {
            Ok(p) => p,
            Err(e) => return Err(e),
        };
        proof {
            lemma_key_points_step::<E>(bytes@, start, got, at, delta_g2@);
            got = got.push(delta_g2@);
            at = *offset as nat;
        }
        let ghost n0 = (at - start) as nat;
        assert(all == Ok::<_, ReadError>((got, n0)));
        assert(rest.skip(n0 as int) =~= bytes@.skip(at as int));
        let ic: Vec<E::G1Affine> = match read_points(bytes, offset, true) {
            Ok(ic) => ic,
            Err(e) => return Err(e),
        };
        let vk = VerifyingKey { alpha_g1, beta_g1, beta_g2, gamma_g2, delta_g1, delta_g2, ic };
        assert(vk@ =~= key_of(got, encodings(ic@)));
        Ok(vk)
    }
}

} // verus!
