//! The parameters of a circuit.

use std::sync::Arc;

use bellpepper_core::SynthesisError;
use vstd::prelude::*;

use crate::engine::{encodings, CurvePoint, Engine};
use crate::format::{advance, lists, parameters, parameters_bytes, section, ParametersView};
use crate::mapped::{get_offsets, mapping, MappedParameters};
use crate::points::{read_points, same_points, value_of, write_points};
use crate::reader::ParametersReader;
use crate::verifying_key::VerifyingKey;
use crate::wire::ReadError;

verus! {

/// The parameters with which proofs of a circuit are made.
pub struct Parameters<E: Engine> {
    pub vk: VerifyingKey<E>,
    /// Elements of the form ((tau^i * t(tau)) / delta) for i between 0 and
    /// m-2 inclusive. Never contains points at infinity.
    pub h: Arc<Vec<E::G1Affine>>,
    /// Elements of the form (beta * u_i(tau) + alpha v_i(tau) + w_i(tau)) / delta
    /// for all auxiliary inputs. Variables can never be unconstrained, so this
    /// never contains points at infinity.
    pub l: Arc<Vec<E::G1Affine>>,
    /// QAP "A" polynomials evaluated at tau in the Lagrange basis. Never contains
    /// points at infinity: polynomials that evaluate to zero are omitted from
    /// the CRS and the prover can deterministically skip their evaluation.
    pub a: Arc<Vec<E::G1Affine>>,
    /// QAP "B" polynomials evaluated at tau in the Lagrange basis, in the first
    /// group. Never contains points at infinity for the same reason as the "A"
    /// polynomials.
    pub b_g1: Arc<Vec<E::G1Affine>>,
    /// QAP "B" polynomials evaluated at tau in the Lagrange basis, in the second
    /// group. Never contains points at infinity for the same reason as the "A"
    /// polynomials.
    pub b_g2: Arc<Vec<E::G2Affine>>,
}

impl<E: Engine> View for Parameters<E> {
    type V = ParametersView;

    open spec fn view(&self) -> ParametersView {
        ParametersView {
            vk: self.vk@,
            h: encodings(self.h@),
            l: encodings(self.l@),
            a: encodings(self.a@),
            b_g1: encodings(self.b_g1@),
            b_g2: encodings(self.b_g2@),
        }
    }
}

/// What a result holds, the points of the parameters by their encodings.
pub open spec fn encoded_parameters<E: Engine>(result: Result<Parameters<E>, ReadError>) -> Result<
    ParametersView,
    ReadError,
> {
    match result {
        Ok(params) => Ok(params@),
        Err(e) => Err(e),
    }
}

/// Another handle on a shared value, with `Arc::clone`: it points to the same
/// value.
#[verifier::external_body]
fn share<T>(shared: &Arc<T>) -> (handle: Arc<T>)
    ensures
        handle == *shared,
{
    shared.clone()
}

impl<E: Engine> Clone for Parameters<E> {
    fn clone(&self) -> (copy: Self)
        ensures
            copy@ == self@,
    {
        Parameters {
            vk: self.vk.clone(),
            h: share(&self.h),
            l: share(&self.l),
            a: share(&self.a),
            b_g1: share(&self.b_g1),
            b_g2: share(&self.b_g2),
        }
    }
}

impl<E: Engine> PartialEq for Parameters<E> {
    fn eq(&self, other: &Self) -> (equal: bool) {
        self.vk == other.vk && same_points(&self.h, &other.h) && same_points(&self.l, &other.l)
            && same_points(&self.a, &other.a) && same_points(&self.b_g1, &other.b_g1)
            && same_points(&self.b_g2, &other.b_g2)
    }
}

impl<E: Engine> vstd::std_specs::cmp::PartialEqSpecImpl for Parameters<E> {
    open spec fn obeys_eq_spec() -> bool {
        true
    }

    open spec fn eq_spec(&self, other: &Self) -> bool {
        self@ == other@
    }
}

impl<E: Engine> Parameters<E> {
    /// Appends the bytes of the parameters to a buffer.
    pub fn write(&self, writer: &mut Vec<u8>)
        ensures
            final(writer)@ == old(writer)@ + parameters_bytes(self@),
    {
        self.vk.write(writer);
        write_points(writer, &self.h);
        write_points(writer, &self.l);
        write_points(writer, &self.a);
        write_points(writer, &self.b_g1);
        write_points(writer, &self.b_g2);
        assert(writer@ =~= old(writer)@ + parameters_bytes(self@));
    }

    /// Reads the parameters from the front of the input. Gives them together
    /// with the number of bytes that they use, and asks for no byte behind
    /// these.
    pub fn read(reader: &[u8], checked: bool) -> (result: Result<(Self, usize), ReadError>)
        ensures
            match (result, parameters::<E>(reader@, checked)) {
                (Ok((params, used)), Ok((view, n))) => params@ == view && used == n,
                (Err(e), Err(f)) => e == f,
                _ => false,
            },
    {
        let mut state: ParametersReader<E> = ParametersReader::new(checked);
        let mut used: usize = 0;
        let mut n: usize = state.needed();
        assert(reader@.skip(0) =~= reader@);
        while n > 0
            invariant
                state.valid(),
                n == state.needs(),
                forall|s: Seq<u8>|
                    s.len() < n ==> #[trigger] state.outcome(s) == Err::<
                        (ParametersView, nat),
                        ReadError,
                    >(ReadError::UnexpectedEof),
                used <= reader@.len(),
                parameters::<E>(reader@, checked) == advance(
                    state.outcome(reader@.skip(used as int)),
                    used as nat,
                ),
            decreases reader@.len() - used,
        {
            let ghost rest = reader@.skip(used as int);
            if reader.len() - used < n {
                assert(rest.len() < n);
                return Err(ReadError::UnexpectedEof);
            }
            let chunk = &reader[used..used + n];
            proof {
                assert(chunk@ + reader@.skip(used + n) =~= rest);
            }
            match state.feed(chunk) {
                Ok(_) => {},
                Err(e) => return Err(e),
            }
            used = used + n;
            n = state.needed();
        }
        let params = state.finish();
        assert(state.outcome(reader@.skip(used as int)) is Ok);
        Ok((params, used))
    }

    /// Records where each point lies in the bytes of a mapped file, and reads
    /// the verifying key.
    ///
    /// The points of the lists are not looked at, and the last of them may lie
    /// behind the end of the file.
    pub fn build_mapped_parameters(params: &[u8], checked: bool) -> (result: Result<
        MappedParameters<E>,
        ReadError,
    >)
        requires
            mapping::<E>(params@) is Some,
        ensures
            match (result, mapping::<E>(params@)->Some_0) {
                (Ok(mapped), Ok((vk, at))) => mapped.maps(vk, at) && mapped.checked == checked,
                (Err(e), Err(f)) => e == f,
                _ => false,
            },
    {
        Self::try_build_mapped_parameters(params, checked).unwrap()
    }

    /// As `build_mapped_parameters`, for any bytes: gives nothing where the key
    /// or the length of a list lies out of bounds, or where an offset does not
    /// fit in a `usize`.
    pub fn try_build_mapped_parameters(params: &[u8], checked: bool) -> (result: Option<
        Result<MappedParameters<E>, ReadError>,
    >)
        ensures
            match (result, mapping::<E>(params@)) {
                (Some(Ok(mapped)), Some(Ok((vk, at)))) => mapped.maps(vk, at) && mapped.checked
                    == checked,
                (Some(Err(e)), Some(Err(f))) => e == f,
                (None, None) => true,
                _ => false,
            },
    {
        let mut offset: usize = 0;
        assert(params@.skip(0) =~= params@);
        let g1: usize = E::G1Affine::uncompressed_size();
        let g2: usize = E::G2Affine::uncompressed_size();
        let vk = match VerifyingKey::<E>::read_at(params, &mut offset) {
            Ok(vk) => vk,
            Err(ReadError::UnexpectedEof) => return None,
            Err(e) => return Some(Err(e)),
        };
        let h = match get_offsets(params, &mut offset, g1) {
            Some(ranges) => ranges,
            None => return None,
        };
        let l = match get_offsets(params, &mut offset, g1) {
            Some(ranges) => ranges,
            None => return None,
        };
        let a = match get_offsets(params, &mut offset, g1) {
            Some(ranges) => ranges,
            None => return None,
        };
        let b_g1 = match get_offsets(params, &mut offset, g1) {
            Some(ranges) => ranges,
            None => return None,
        };
        let b_g2 = match get_offsets(params, &mut offset, g2) {
            Some(ranges) => ranges,
            None => return None,
        };
        Some(Ok(MappedParameters { vk, h, l, a, b_g1, b_g2, checked }))
    }

    /// Reads the parameters from the bytes of a mapped file. It gives what
    /// `read` gives.
    pub fn read_mmap(mmap: &[u8], checked: bool) -> (result: Result<Self, ReadError>)
        ensures
            encoded_parameters(result) == value_of(parameters::<E>(mmap@, checked)),
    {
        let mut offset: usize = 0;
        assert(mmap@.skip(0) =~= mmap@);
        match VerifyingKey::<E>::read_at(mmap, &mut offset) {
            Ok(vk) => Self::read_lists(vk, mmap, offset, checked),
            Err(e) => Err(e),
        }
    }

    /// Reads the lists that follow the verifying key, at an offset.
    fn read_lists(vk: VerifyingKey<E>, mmap: &[u8], start: usize, checked: bool) -> (result: Result<
        Self,
        ReadError,
    >)
        requires
            start <= mmap@.len(),
        ensures
            encoded_parameters(result) == value_of(
                lists::<E>(vk@, mmap@.skip(start as int), checked),
            ),
    {
        let mut offset: usize = start;
        let ghost rest = mmap@.skip(start as int);
        let h = match read_points::<E::G1Affine>(mmap, &mut offset, checked) {
            Ok(points) => points,
            Err(e) => return Err(e),
        };
        let ghost n1 = (offset - start) as nat;
        assert(section::<E::G1Affine>(rest, checked) == Ok::<_, ReadError>((encodings(h@), n1)));
        assert(rest.skip(n1 as int) =~= mmap@.skip(offset as int));
        let l = match read_points::<E::G1Affine>(mmap, &mut offset, checked) {
            Ok(points) => points,
            Err(e) => return Err(e),
        };
        let ghost n2 = (offset - start - n1) as nat;
        assert(section::<E::G1Affine>(rest.skip(n1 as int), checked) == Ok::<_, ReadError>(
            (encodings(l@), n2),
        ));
        assert(rest.skip((n1 + n2) as int) =~= mmap@.skip(offset as int));
        let a = match read_points::<E::G1Affine>(mmap, &mut offset, checked) {
            Ok(points) => points,
            Err(e) => return Err(e),
        };
        let ghost n3 = (offset - start - n1 - n2) as nat;
        assert(section::<E::G1Affine>(rest.skip((n1 + n2) as int), checked) == Ok::<_, ReadError>(
            (encodings(a@), n3),
        ));
        assert(rest.skip((n1 + n2 + n3) as int) =~= mmap@.skip(offset as int));
        let b_g1 = match read_points::<E::G1Affine>(mmap, &mut offset, checked) {
            Ok(points) => points,
            Err(e) => return Err(e),
        };
        let ghost n4 = (offset - start - n1 - n2 - n3) as nat;
        assert(section::<E::G1Affine>(rest.skip((n1 + n2 + n3) as int), checked) == Ok::<
            _,
            ReadError,
        >((encodings(b_g1@), n4)));
        assert(rest.skip((n1 + n2 + n3 + n4) as int) =~= mmap@.skip(offset as int));
        let b_g2 = match read_points::<E::G2Affine>(mmap, &mut offset, checked) {
            Ok(points) => points,
            Err(e) => return Err(e),
        };
        Ok(
            Parameters {
                vk,
                h: Arc::new(h),
                l: Arc::new(l),
                a: Arc::new(a),
                b_g1: Arc::new(b_g1),
                b_g2: Arc::new(b_g2),
            },
        )
    }
}

/// `bellpepper_core::SynthesisError`, which passes through unread.
#[verifier::external_type_specification]
#[verifier::external_body]
pub struct ExSynthesisError(SynthesisError);

/// A source of the parameters that a prover asks for.
pub trait ParameterSource<E: Engine>: Send + Sync {
    /// Gives the points of a list of the first group, from some index on.
    type G1Builder;

    /// Gives the points of a list of the second group, from some index on.
    type G2Builder;

    /// The verifying key, with `num_ic` input points.
    fn get_vk(&self, num_ic: usize) -> Result<&VerifyingKey<E>, SynthesisError>;

    /// The first `num_h` points of `h`.
    fn get_h(&self, num_h: usize) -> Result<Self::G1Builder, SynthesisError>;

    /// The first `num_l` points of `l`.
    fn get_l(&self, num_l: usize) -> Result<Self::G1Builder, SynthesisError>;

    /// The points of `a` for the inputs, and those for the auxiliary variables.
    fn get_a(&self, num_inputs: usize, num_aux: usize) -> Result<
        (Self::G1Builder, Self::G1Builder),
        SynthesisError,
    >;

    /// The points of `b_g1` for the inputs, and those for the auxiliary
    /// variables.
    fn get_b_g1(&self, num_inputs: usize, num_aux: usize) -> Result<
        (Self::G1Builder, Self::G1Builder),
        SynthesisError,
    >;

    /// The points of `b_g2` for the inputs, and those for the auxiliary
    /// variables.
    fn get_b_g2(&self, num_inputs: usize, num_aux: usize) -> Result<
        (Self::G2Builder, Self::G2Builder),
        SynthesisError,
    >;
}

impl<E: Engine> ParameterSource<E> for &Parameters<E> {
    type G1Builder = (Arc<Vec<E::G1Affine>>, usize);

    type G2Builder = (Arc<Vec<E::G2Affine>>, usize);

    fn get_vk(&self, _num_ic: usize) -> (result: Result<&VerifyingKey<E>, SynthesisError>)
        ensures
            result == Ok::<&VerifyingKey<E>, SynthesisError>(&self.vk),
    {
        Ok(&self.vk)
    }

    fn get_h(&self, _num_h: usize) -> (result: Result<Self::G1Builder, SynthesisError>)
        ensures
            result == Ok::<Self::G1Builder, SynthesisError>((self.h, 0)),
    {
        Ok((share(&self.h), 0))
    }

    fn get_l(&self, _num_l: usize) -> (result: Result<Self::G1Builder, SynthesisError>)
        ensures
            result == Ok::<Self::G1Builder, SynthesisError>((self.l, 0)),
    {
        Ok((share(&self.l), 0))
    }

    fn get_a(&self, num_inputs: usize, _num_aux: usize) -> (result: Result<
        (Self::G1Builder, Self::G1Builder),
        SynthesisError,
    >)
        ensures
            result == Ok::<(Self::G1Builder, Self::G1Builder), SynthesisError>(
                ((self.a, 0), (self.a, num_inputs)),
            ),
    {
        Ok(((share(&self.a), 0), (share(&self.a), num_inputs)))
    }

    fn get_b_g1(&self, num_inputs: usize, _num_aux: usize) -> (result: Result<
        (Self::G1Builder, Self::G1Builder),
        SynthesisError,
    >)
        ensures
            result == Ok::<(Self::G1Builder, Self::G1Builder), SynthesisError>(
                ((self.b_g1, 0), (self.b_g1, num_inputs)),
            ),
    {
        Ok(((share(&self.b_g1), 0), (share(&self.b_g1), num_inputs)))
    }

    fn get_b_g2(&self, num_inputs: usize, _num_aux: usize) -> (result: Result<
        (Self::G2Builder, Self::G2Builder),
        SynthesisError,
    >)
        ensures
            result == Ok::<(Self::G2Builder, Self::G2Builder), SynthesisError>(
                ((self.b_g2, 0), (self.b_g2, num_inputs)),
            ),
    {
        Ok(((share(&self.b_g2), 0), (share(&self.b_g2), num_inputs)))
    }
}

} // verus!
