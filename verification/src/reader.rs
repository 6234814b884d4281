//! Reading parameters from a source that gives its bytes piece by piece.
//!
//! A [`ParametersReader`] says how many bytes it needs next and takes exactly
//! those. It never asks for a byte behind the parameters, and refuses a point
//! as soon as it has its bytes.

use std::sync::Arc;

use vstd::prelude::*;

use crate::engine::{encodings, CurvePoint, Engine};
use crate::format::{
    advance, finite_point, key, key_of, key_point, key_point_size, key_points_from, lists,
    parameters, points_from, section, KeyView, ParametersView,
};
use crate::lemmas::{lemma_points, lemma_section};
use crate::params::Parameters;
use crate::points::{decode_finite_point, decode_point};
use crate::verifying_key::VerifyingKey;
use crate::wire::{be32, read_u32, ReadError};

verus! {

/// A list of which a part was read: its length, once known, and its points.
pub struct ListState {
    pub count: Option<nat>,
    pub points: Seq<Seq<u8>>,
}

impl ListState {
    /// A list of which nothing was read.
    pub open spec fn new() -> ListState {
        ListState { count: None, points: Seq::empty() }
    }

    /// No points were read before the length, and not too many after it.
    pub open spec fn valid(self) -> bool {
        match self.count {
            None => self.points.len() == 0,
            Some(n) => self.points.len() <= n,
        }
    }

    /// Whether the whole list was read.
    pub open spec fn done(self) -> bool {
        self.count == Some(self.points.len())
    }

    /// How many bytes are needed next.
    pub open spec fn needs(self, size: nat) -> nat {
        if self.count is None {
            4
        } else if self.done() {
            0
        } else {
            size
        }
    }

    /// What the list is, given the bytes to come.
    #[verifier::opaque]
    pub open spec fn outcome<P: CurvePoint>(self, bytes: Seq<u8>, checked: bool) -> Result<
        (Seq<Seq<u8>>, nat),
        ReadError,
    > {
        match self.count {
            None => section::<P>(bytes, checked),
            Some(n) => points_from::<P>(self.points, n, bytes, checked),
        }
    }
}

/// A list that can be read ends within the bytes.
proof fn lemma_list_used<P: CurvePoint>(list: ListState, bytes: Seq<u8>, checked: bool)
    requires
        list.valid(),
        list.outcome::<P>(bytes, checked) is Ok,
    ensures
        list.outcome::<P>(bytes, checked)->Ok_0.1 <= bytes.len(),
{
    reveal(ListState::outcome);
    match list.count {
        None => lemma_section::<P>(bytes, checked),
        Some(n) => lemma_points::<P>(list.points, n, bytes, checked),
    }
}

/// A list that was read needs no more bytes.
proof fn lemma_list_done<P: CurvePoint>(list: ListState, bytes: Seq<u8>, checked: bool)
    requires
        list.done(),
    ensures
        list.outcome::<P>(bytes, checked) == Ok::<(Seq<Seq<u8>>, nat), ReadError>((list.points, 0)),
{
    reveal(ListState::outcome);
}

/// A list of points as it is read.
struct PointList<P: CurvePoint> {
    count: Option<usize>,
    points: Vec<P>,
}

impl<P: CurvePoint> View for PointList<P> {
    type V = ListState;

    closed spec fn view(&self) -> ListState {
        ListState {
            count: match self.count {
                None => None,
                Some(n) => Some(n as nat),
            },
            points: encodings(self.points@),
        }
    }
}

impl<P: CurvePoint> PointList<P> {
    fn new() -> (list: Self)
        ensures
            list@ == ListState::new(),
    {
        let points: Vec<P> = Vec::new();
        assert(encodings(points@) =~= Seq::empty());
        PointList { count: None, points }
    }

    fn needed(&self) -> (n: usize)
        requires
            self@.valid(),
        ensures
            n == self@.needs(P::size()),
            n == 0 <==> self@.done(),
    {
        proof {
            P::size_is_positive();
            assert(encodings(self.points@).len() == self.points@.len());
        }
        match self.count {
            None => 4,
            Some(count) => if self.points.len() == count {
                0
            } else {
                P::uncompressed_size()
            },
        }
    }

    /// Takes the next piece of the list.
    fn feed(&mut self, chunk: &[u8], checked: bool) -> (result: Result<(), ReadError>)
        requires
            old(self)@.valid(),
            !old(self)@.done(),
            chunk@.len() == old(self)@.needs(P::size()),
        ensures
            final(self)@.valid(),
            forall|s: Seq<u8>|
                #![trigger chunk@ + s]
                old(self)@.outcome::<P>(chunk@ + s, checked) == (match result {
                    Ok(_) => advance(final(self)@.outcome::<P>(s, checked), chunk@.len()),
                    Err(e) => Err(e),
                }),
    {
        let ghost before = self@;
        proof {
            reveal(ListState::outcome);
            assert(encodings(self.points@).len() == self.points@.len());
        }
        match self.count {
            None => {
                let count: u32 = read_u32(chunk);
                self.count = Some(count as usize);
                assert forall|s: Seq<u8>| #![trigger chunk@ + s] before.outcome::<P>(
                    chunk@ + s,
                    checked,
                ) == advance(self@.outcome::<P>(s, checked), 4) by {
                    assert((chunk@ + s).skip(4) =~= s);
                    assert(be32(chunk@ + s) == be32(chunk@));
                    assert(before.points =~= Seq::empty());
                }
                Ok(())
            },
            Some(count) => {
                let result = decode_finite_point::<P>(chunk, checked);
                proof {
                    assert(chunk@.take(P::size() as int) =~= chunk@);
                    assert forall|s: Seq<u8>| #![trigger chunk@ + s] finite_point::<P>(
                        chunk@ + s,
                        checked,
                    ) == finite_point::<P>(chunk@, checked) && (chunk@ + s).skip(
                        P::size() as int,
                    ) == s by {
                        assert((chunk@ + s).take(P::size() as int) =~= chunk@);
                        assert((chunk@ + s).skip(P::size() as int) =~= s);
                    }
                }
                match result {
                    Ok(p) => {
                        self.points.push(p);
                        assert(encodings(self.points@) =~= before.points.push(p@));
                        Ok(())
                    },
                    Err(e) => Err(e),
                }
            },
        }
    }
}

/// A verifying key of which a part was read: its leading points, and the list
/// behind them.
pub struct KeyState {
    pub points: Seq<Seq<u8>>,
    pub ic: ListState,
}

impl KeyState {
    /// A key of which nothing was read.
    pub open spec fn new() -> KeyState {
        KeyState { points: Seq::empty(), ic: ListState::new() }
    }

    /// There are no more than six leading points.
    pub open spec fn valid(self) -> bool {
        self.points.len() <= 6 && self.ic.valid()
    }

    /// Whether the whole key was read.
    pub open spec fn done(self) -> bool {
        self.points.len() == 6 && self.ic.done()
    }

    /// How many bytes are needed next.
    pub open spec fn needs<E: Engine>(self) -> nat {
        if self.points.len() < 6 {
            key_point_size::<E>(self.points.len() as int)
        } else {
            self.ic.needs(E::G1Affine::size())
        }
    }

    /// What the key is, given the bytes to come.
    pub open spec fn outcome<E: Engine>(self, bytes: Seq<u8>) -> Result<(KeyView, nat), ReadError> {
        match key_points_from::<E>(self.points, bytes) {
            Err(e) => Err(e),
            Ok((points, n0)) => match self.ic.outcome::<E::G1Affine>(
                bytes.skip(n0 as int),
                true,
            ) {
                Err(e) => Err(e),
                Ok((ic, n1)) => Ok((key_of(points, ic), n0 + n1)),
            },
        }
    }
}

/// The leading points of a key that can be read end within the bytes.
proof fn lemma_key_points_used<E: Engine>(got: Seq<Seq<u8>>, bytes: Seq<u8>)
    requires
        key_points_from::<E>(got, bytes) is Ok,
    ensures
        key_points_from::<E>(got, bytes)->Ok_0.1 <= bytes.len(),
    decreases 6 - got.len(),
{
    if got.len() < 6 {
        let size = key_point_size::<E>(got.len() as int) as int;
        lemma_key_points_used::<E>(got.push(bytes.take(size)), bytes.skip(size));
    }
}

/// A key that can be read ends within the bytes.
proof fn lemma_key_used<E: Engine>(state: KeyState, bytes: Seq<u8>)
    requires
        state.valid(),
        state.outcome::<E>(bytes) is Ok,
    ensures
        state.outcome::<E>(bytes)->Ok_0.1 <= bytes.len(),
{
    lemma_key_points_used::<E>(state.points, bytes);
    let n0 = key_points_from::<E>(state.points, bytes)->Ok_0.1;
    lemma_list_used::<E::G1Affine>(state.ic, bytes.skip(n0 as int), true);
}

/// A key after its next leading point was read.
proof fn lemma_key_point_fed<E: Engine>(state: KeyState, chunk: Seq<u8>, s: Seq<u8>)
    requires
        state.valid(),
        state.points.len() < 6,
        chunk.len() == state.needs::<E>(),
    ensures
        state.outcome::<E>(chunk + s) == (match key_point::<E>(
            state.points.len() as int,
            chunk,
        ) {
            Ok(repr) => advance(
                (KeyState { points: state.points.push(repr), ic: state.ic }).outcome::<E>(s),
                chunk.len(),
            ),
            Err(e) => Err(e),
        }),
{
    let bytes = chunk + s;
    let n = chunk.len();
    assert(bytes.take(n as int) =~= chunk);
    assert(chunk.take(n as int) =~= chunk);
    assert(bytes.skip(n as int) =~= s);
    if let Ok(repr) = key_point::<E>(state.points.len() as int, chunk) {
        let more = state.points.push(repr);
        if let Ok((points, n0)) = key_points_from::<E>(more, s) {
            lemma_key_points_used::<E>(more, s);
            assert(bytes.skip((n0 + n) as int) =~= s.skip(n0 as int));
        }
    }
}

/// A verifying key as it is read: the leading points of each group, and the
/// list behind them.
struct KeyReader<E: Engine> {
    g1: Vec<E::G1Affine>,
    g2: Vec<E::G2Affine>,
    ic: PointList<E::G1Affine>,
}

impl<E: Engine> View for KeyReader<E> {
    type V = KeyState;

    closed spec fn view(&self) -> KeyState {
        KeyState {
            points: Seq::new(
                self.g1@.len() + self.g2@.len(),
                |i: int|
                    if i < 2 {
                        self.g1@[i]@
                    } else if i == 4 {
                        self.g1@[2]@
                    } else if i < 4 {
                        self.g2@[i - 2]@
                    } else {
                        self.g2@[2]@
                    },
            ),
            ic: self.ic@,
        }
    }
}

impl<E: Engine> KeyReader<E> {
    /// The points of the two groups alternate as they do in a key.
    spec fn in_step(self) -> bool {
        let (m, n) = (self.g1@.len(), self.g2@.len());
        ||| n == 0 && m <= 2
        ||| n == 1 && m == 2
        ||| n == 2 && (m == 2 || m == 3)
        ||| n == 3 && m == 3
    }

    spec fn valid(self) -> bool {
        self.in_step() && self@.valid()
    }

    fn new() -> (reader: Self)
        ensures
            reader.valid(),
            reader@ == KeyState::new(),
    {
        let reader = KeyReader { g1: Vec::new(), g2: Vec::new(), ic: PointList::new() };
        assert(reader@.points =~= Seq::empty());
        reader
    }

    fn needed(&self) -> (n: usize)
        requires
            self.valid(),
        ensures
            n == self@.needs::<E>(),
            n == 0 <==> self@.done(),
    {
        proof {
            E::G1Affine::size_is_positive();
            E::G2Affine::size_is_positive();
        }
        let read: usize = self.g1.len() + self.g2.len();
        if read == 0 || read == 1 || read == 4 {
            E::G1Affine::uncompressed_size()
        } else if read < 6 {
            E::G2Affine::uncompressed_size()
        } else {
            self.ic.needed()
        }
    }

    /// Takes the next piece of the key.
    fn feed(&mut self, chunk: &[u8]) -> (result: Result<(), ReadError>)
        requires
            old(self).valid(),
            !old(self)@.done(),
            chunk@.len() == old(self)@.needs::<E>(),
        ensures
            final(self).valid(),
            forall|s: Seq<u8>|
                #![trigger chunk@ + s]
                old(self)@.outcome::<E>(chunk@ + s) == (match result {
                    Ok(_) => advance(final(self)@.outcome::<E>(s), chunk@.len()),
                    Err(e) => Err(e),
                }),
    {
        let ghost before = self@;
        let read: usize = self.g1.len() + self.g2.len();
        if read < 6 {
            proof {
                assert forall|s: Seq<u8>| #![trigger chunk@ + s] before.outcome::<E>(chunk@ + s)
                    == (match key_point::<E>(read as int, chunk@) {
                    Ok(repr) => advance(
                        (KeyState { points: before.points.push(repr), ic: before.ic }).outcome::<E>(
                            s,
                        ),
                        chunk@.len(),
                    ),
                    Err(e) => Err(e),
                }) by {
                    lemma_key_point_fed::<E>(before, chunk@, s);
                }
            }
            if read == 0 || read == 1 || read == 4 {
                match decode_point::<E::G1Affine>(chunk, true) {
                    Ok(p) => {
                        self.g1.push(p);
                        assert(self@.points =~= before.points.push(p@));
                    },
                    Err(e) => return Err(e),
                }
            } else {
                match decode_point::<E::G2Affine>(chunk, true) {
                    Ok(p) => {
                        self.g2.push(p);
                        assert(self@.points =~= before.points.push(p@));
                    },
                    Err(e) => return Err(e),
                }
            }
            Ok(())
        } else {
            let result = self.ic.feed(chunk, true);
            proof {
                assert(self@.points =~= before.points);
                assert forall|s: Seq<u8>| #![trigger chunk@ + s] before.outcome::<E>(chunk@ + s)
                    == (match result {
                    Ok(_) => advance(self@.outcome::<E>(s), chunk@.len()),
                    Err(e) => Err(e),
                }) by {
                    assert((chunk@ + s).skip(0) =~= chunk@ + s);
                    assert(s.skip(0) =~= s);
                }
            }
            result
        }
    }

    /// The key, once it is complete.
    fn finish(self) -> (vk: VerifyingKey<E>)
        requires
            self.valid(),
            self@.done(),
        ensures
            vk@ == key_of(self@.points, self@.ic.points),
    {
        let vk = VerifyingKey {
            alpha_g1: self.g1[0],
            beta_g1: self.g1[1],
            beta_g2: self.g2[0],
            gamma_g2: self.g2[1],
            delta_g1: self.g1[2],
            delta_g2: self.g2[2],
            ic: self.ic.points,
        };
        assert(vk@ =~= key_of(self@.points, self@.ic.points));
        vk
    }
}

/// The lists of a set of parameters of which a part was read.
pub struct ListsState {
    pub h: ListState,
    pub l: ListState,
    pub a: ListState,
    pub b_g1: ListState,
    pub b_g2: ListState,
}

impl ListsState {
    /// Lists of which nothing was read.
    pub open spec fn new() -> ListsState {
        ListsState {
            h: ListState::new(),
            l: ListState::new(),
            a: ListState::new(),
            b_g1: ListState::new(),
            b_g2: ListState::new(),
        }
    }

    pub open spec fn valid(self) -> bool {
        &&& self.h.valid()
        &&& self.l.valid()
        &&& self.a.valid()
        &&& self.b_g1.valid()
        &&& self.b_g2.valid()
    }

    /// Whether all lists were read.
    pub open spec fn done(self) -> bool {
        &&& self.h.done()
        &&& self.l.done()
        &&& self.a.done()
        &&& self.b_g1.done()
        &&& self.b_g2.done()
    }

    /// How many bytes are needed next: those of the first list that is not
    /// complete.
    pub open spec fn needs<E: Engine>(self) -> nat {
        let g1 = E::G1Affine::size();
        if !self.h.done() {
            self.h.needs(g1)
        } else if !self.l.done() {
            self.l.needs(g1)
        } else if !self.a.done() {
            self.a.needs(g1)
        } else if !self.b_g1.done() {
            self.b_g1.needs(g1)
        } else {
            self.b_g2.needs(E::G2Affine::size())
        }
    }

    /// What the parameters with this key are, given the bytes to come.
    pub open spec fn outcome<E: Engine>(self, vk: KeyView, bytes: Seq<u8>, checked: bool) -> Result<
        (ParametersView, nat),
        ReadError,
    > {
        match self.h.outcome::<E::G1Affine>(bytes, checked) {
            Err(e) => Err(e),
            Ok((h, n1)) => match self.l.outcome::<E::G1Affine>(bytes.skip(n1 as int), checked) {
                Err(e) => Err(e),
                Ok((l, n2)) => match self.a.outcome::<E::G1Affine>(
                    bytes.skip((n1 + n2) as int),
                    checked,
                ) {
                    Err(e) => Err(e),
                    Ok((a, n3)) => match self.b_g1.outcome::<E::G1Affine>(
                        bytes.skip((n1 + n2 + n3) as int),
                        checked,
                    ) {
                        Err(e) => Err(e),
                        Ok((b_g1, n4)) => match self.b_g2.outcome::<E::G2Affine>(
                            bytes.skip((n1 + n2 + n3 + n4) as int),
                            checked,
                        ) {
                            Err(e) => Err(e),
                            Ok((b_g2, n5)) => Ok(
                                (
                                    ParametersView { vk, h, l, a, b_g1, b_g2 },
                                    n1 + n2 + n3 + n4 + n5,
                                ),
                            ),
                        },
                    },
                },
            },
        }
    }
}

/// Whether a piece took a list from one state to another, or could not be taken.
spec fn list_fed<P: CurvePoint>(
    before: ListState,
    after: ListState,
    chunk: Seq<u8>,
    s: Seq<u8>,
    checked: bool,
    result: Result<(), ReadError>,
) -> bool {
    before.outcome::<P>(chunk + s, checked) == (match result {
        Ok(_) => advance(after.outcome::<P>(s, checked), chunk.len()),
        Err(e) => Err(e),
    })
}

/// The lists after a piece went to the first one that was not complete.
proof fn lemma_lists_fed<E: Engine>(
    vk: KeyView,
    before: ListsState,
    after: ListsState,
    chunk: Seq<u8>,
    s: Seq<u8>,
    checked: bool,
    result: Result<(), ReadError>,
)
    requires
        before.valid(),
        after.valid(),
        if !before.h.done() {
            &&& list_fed::<E::G1Affine>(before.h, after.h, chunk, s, checked, result)
            &&& after == ListsState { h: after.h, ..before }
        } else if !before.l.done() {
            &&& list_fed::<E::G1Affine>(before.l, after.l, chunk, s, checked, result)
            &&& after == ListsState { l: after.l, ..before }
        } else if !before.a.done() {
            &&& list_fed::<E::G1Affine>(before.a, after.a, chunk, s, checked, result)
            &&& after == ListsState { a: after.a, ..before }
        } else if !before.b_g1.done() {
            &&& list_fed::<E::G1Affine>(before.b_g1, after.b_g1, chunk, s, checked, result)
            &&& after == ListsState { b_g1: after.b_g1, ..before }
        } else {
            &&& list_fed::<E::G2Affine>(before.b_g2, after.b_g2, chunk, s, checked, result)
            &&& after == ListsState { b_g2: after.b_g2, ..before }
        },
    ensures
        before.outcome::<E>(vk, chunk + s, checked) == (match result {
            Ok(_) => advance(after.outcome::<E>(vk, s, checked), chunk.len()),
            Err(e) => Err(e),
        }),
{
    let bytes = chunk + s;
    let n = chunk.len();
    assert(bytes.skip(0) =~= bytes);
    assert(s.skip(0) =~= s);
    assert forall|m: int| 0 <= m <= s.len() implies #[trigger] s.skip(m) == bytes.skip(n + m) by {
        assert(s.skip(m) =~= bytes.skip(n + m));
    }
    if before.h.done() {
        lemma_list_done::<E::G1Affine>(before.h, bytes, checked);
        lemma_list_done::<E::G1Affine>(before.h, s, checked);
        if before.l.done() {
            lemma_list_done::<E::G1Affine>(before.l, bytes, checked);
            lemma_list_done::<E::G1Affine>(before.l, s, checked);
            if before.a.done() {
                lemma_list_done::<E::G1Affine>(before.a, bytes, checked);
                lemma_list_done::<E::G1Affine>(before.a, s, checked);
                if before.b_g1.done() {
                    lemma_list_done::<E::G1Affine>(before.b_g1, bytes, checked);
                    lemma_list_done::<E::G1Affine>(before.b_g1, s, checked);
                }
            }
        }
    }
    if result is Ok {
        let r1 = after.h.outcome::<E::G1Affine>(s, checked);
        if let Ok((h, n1)) = r1 {
            lemma_list_used::<E::G1Affine>(after.h, s, checked);
            let s1 = s.skip(n1 as int);
            if let Ok((l, n2)) = after.l.outcome::<E::G1Affine>(s1, checked) {
                lemma_list_used::<E::G1Affine>(after.l, s1, checked);
                let s2 = s.skip((n1 + n2) as int);
                if let Ok((a, n3)) = after.a.outcome::<E::G1Affine>(s2, checked) {
                    lemma_list_used::<E::G1Affine>(after.a, s2, checked);
                    let s3 = s.skip((n1 + n2 + n3) as int);
                    if let Ok((b_g1, n4)) = after.b_g1.outcome::<E::G1Affine>(s3, checked) {
                        lemma_list_used::<E::G1Affine>(after.b_g1, s3, checked);
                        let s4 = s.skip((n1 + n2 + n3 + n4) as int);
                    }
                }
            }
        }
    }
}

/// Less than the next piece is not enough for a list.
proof fn lemma_list_short<P: CurvePoint>(list: ListState, s: Seq<u8>, checked: bool)
    requires
        list.valid(),
        s.len() < list.needs(P::size()),
    ensures
        list.outcome::<P>(s, checked) == Err::<(Seq<Seq<u8>>, nat), ReadError>(
            ReadError::UnexpectedEof,
        ),
{
    reveal(ListState::outcome);
}

/// Less than the next piece is not enough for a key.
proof fn lemma_key_short<E: Engine>(state: KeyState, s: Seq<u8>)
    requires
        state.valid(),
        s.len() < state.needs::<E>(),
    ensures
        state.outcome::<E>(s) == Err::<(KeyView, nat), ReadError>(ReadError::UnexpectedEof),
{
    if state.points.len() == 6 {
        assert(s.skip(0) =~= s);
        lemma_list_short::<E::G1Affine>(state.ic, s, true);
    }
}

/// Less than the next piece is not enough for the lists.
proof fn lemma_lists_short<E: Engine>(vk: KeyView, state: ListsState, s: Seq<u8>, checked: bool)
    requires
        state.valid(),
        s.len() < state.needs::<E>(),
    ensures
        state.outcome::<E>(vk, s, checked) == Err::<(ParametersView, nat), ReadError>(
            ReadError::UnexpectedEof,
        ),
{
    assert(s.skip(0) =~= s);
    if !state.h.done() {
        lemma_list_short::<E::G1Affine>(state.h, s, checked);
    } else {
        lemma_list_done::<E::G1Affine>(state.h, s, checked);
        if !state.l.done() {
            lemma_list_short::<E::G1Affine>(state.l, s, checked);
        } else {
            lemma_list_done::<E::G1Affine>(state.l, s, checked);
            if !state.a.done() {
                lemma_list_short::<E::G1Affine>(state.a, s, checked);
            } else {
                lemma_list_done::<E::G1Affine>(state.a, s, checked);
                if !state.b_g1.done() {
                    lemma_list_short::<E::G1Affine>(state.b_g1, s, checked);
                } else {
                    lemma_list_done::<E::G1Affine>(state.b_g1, s, checked);
                    lemma_list_short::<E::G2Affine>(state.b_g2, s, checked);
                }
            }
        }
    }
}

/// A key that was read needs no more bytes.
proof fn lemma_key_done<E: Engine>(state: KeyState, s: Seq<u8>)
    requires
        state.done(),
    ensures
        state.outcome::<E>(s) == Ok::<(KeyView, nat), ReadError>(
            (key_of(state.points, state.ic.points), 0),
        ),
{
    assert(s.skip(0) =~= s);
    lemma_list_done::<E::G1Affine>(state.ic, s, true);
}

/// Lists that were read need no more bytes.
proof fn lemma_lists_done<E: Engine>(vk: KeyView, state: ListsState, s: Seq<u8>, checked: bool)
    requires
        state.done(),
    ensures
        state.outcome::<E>(vk, s, checked) == Ok::<(ParametersView, nat), ReadError>(
            (
                ParametersView {
                    vk,
                    h: state.h.points,
                    l: state.l.points,
                    a: state.a.points,
                    b_g1: state.b_g1.points,
                    b_g2: state.b_g2.points,
                },
                0,
            ),
        ),
{
    assert(s.skip(0) =~= s);
    lemma_list_done::<E::G1Affine>(state.h, s, checked);
    lemma_list_done::<E::G1Affine>(state.l, s, checked);
    lemma_list_done::<E::G1Affine>(state.a, s, checked);
    lemma_list_done::<E::G1Affine>(state.b_g1, s, checked);
    lemma_list_done::<E::G2Affine>(state.b_g2, s, checked);
}

/// Nothing read yet: what the bytes to come are is what the format says.
proof fn lemma_nothing_read<E: Engine>(s: Seq<u8>, checked: bool)
    ensures
        KeyState::new().outcome::<E>(s) == key::<E>(s),
        forall|vk: KeyView|
            ListsState::new().outcome::<E>(vk, s, checked) == #[trigger] lists::<E>(vk, s, checked),
{
    reveal(ListState::outcome);
}

/// Parameters as they are read.
pub struct ParametersReader<E: Engine> {
    checked: bool,
    key: KeyReader<E>,
    h: PointList<E::G1Affine>,
    l: PointList<E::G1Affine>,
    a: PointList<E::G1Affine>,
    b_g1: PointList<E::G1Affine>,
    b_g2: PointList<E::G2Affine>,
}

impl<E: Engine> ParametersReader<E> {
    spec fn lists(self) -> ListsState {
        ListsState {
            h: self.h@,
            l: self.l@,
            a: self.a@,
            b_g1: self.b_g1@,
            b_g2: self.b_g2@,
        }
    }

    /// The invariant of a reader.
    pub closed spec fn valid(self) -> bool {
        self.key.valid() && self.lists().valid()
    }

    /// How many bytes are needed next. None are when the parameters are
    /// complete.
    pub closed spec fn needs(self) -> nat {
        if !self.key@.done() {
            self.key@.needs::<E>()
        } else {
            self.lists().needs::<E>()
        }
    }

    /// What the parameters are, given the bytes to come, and how many of these
    /// they use.
    pub closed spec fn outcome(self, bytes: Seq<u8>) -> Result<(ParametersView, nat), ReadError> {
        match self.key@.outcome::<E>(bytes) {
            Err(e) => Err(e),
            Ok((vk, n0)) => advance(
                self.lists().outcome::<E>(vk, bytes.skip(n0 as int), self.checked),
                n0,
            ),
        }
    }

    /// A reader needs a whole piece at a time: the four bytes of a length, or the
    /// encoding of a point, or nothing more.
    pub proof fn needs_a_whole_piece(self)
        ensures
            self.needs() == 0 || self.needs() == 4 || self.needs() == E::G1Affine::size()
                || self.needs() == E::G2Affine::size(),
    {
    }

    /// A reader at the start of a set of parameters.
    pub fn new(checked: bool) -> (reader: Self)
        ensures
            reader.valid(),
            forall|s: Seq<u8>| #[trigger]
                reader.outcome(s) == parameters::<E>(s, checked),
    {
        let reader = ParametersReader {
            checked,
            key: KeyReader::new(),
            h: PointList::new(),
            l: PointList::new(),
            a: PointList::new(),
            b_g1: PointList::new(),
            b_g2: PointList::new(),
        };
        proof {
            assert(reader.lists() == ListsState::new());
            assert forall|s: Seq<u8>| #[trigger] reader.outcome(s) == parameters::<E>(
                s,
                checked,
            ) by {
                lemma_nothing_read::<E>(s, checked);
                if let Ok((vk, n0)) = key::<E>(s) {
                    lemma_nothing_read::<E>(s.skip(n0 as int), checked);
                    assert(lists::<E>(vk, s.skip(n0 as int), checked)
                        == ListsState::new().outcome::<E>(vk, s.skip(n0 as int), checked));
                }
            }
        }
        reader
    }

    /// The number of bytes that the reader takes next, or zero when the
    /// parameters are complete. With fewer bytes to come the parameters would
    /// be cut short.
    pub fn needed(&self) -> (n: usize)
        requires
            self.valid(),
        ensures
            n == self.needs(),
            forall|s: Seq<u8>|
                s.len() < n ==> #[trigger] self.outcome(s) == Err::<
                    (ParametersView, nat),
                    ReadError,
                >(ReadError::UnexpectedEof),
    {
        proof {
            assert forall|s: Seq<u8>| s.len() < self.needs() implies #[trigger] self.outcome(s)
                == Err::<(ParametersView, nat), ReadError>(ReadError::UnexpectedEof) by {
                if !self.key@.done() {
                    lemma_key_short::<E>(self.key@, s);
                } else {
                    lemma_key_done::<E>(self.key@, s);
                    assert(s.skip(0) =~= s);
                    let vk = key_of(self.key@.points, self.key@.ic.points);
                    lemma_lists_short::<E>(vk, self.lists(), s, self.checked);
                }
            }
        }
        let n: usize = self.key.needed();
        if n > 0 {
            return n;
        }
        let n: usize = self.h.needed();
        if n > 0 {
            return n;
        }
        let n: usize = self.l.needed();
        if n > 0 {
            return n;
        }
        let n: usize = self.a.needed();
        if n > 0 {
            return n;
        }
        let n: usize = self.b_g1.needed();
        if n > 0 {
            return n;
        }
        self.b_g2.needed()
    }

    /// Takes the next bytes, which must be as many as are needed. An error is
    /// the one that the parameters have, whatever bytes come after.
    pub fn feed(&mut self, chunk: &[u8]) -> (result: Result<(), ReadError>)
        requires
            old(self).valid(),
            old(self).needs() > 0,
            chunk@.len() == old(self).needs(),
        ensures
            final(self).valid(),
            forall|s: Seq<u8>|
                #![trigger chunk@ + s]
                #![trigger final(self).outcome(s)]
                old(self).outcome(chunk@ + s) == (match result {
                    Ok(_) => advance(final(self).outcome(s), chunk@.len()),
                    Err(e) => Err(e),
                }),
    {
        let ghost before = *self;
        let checked: bool = self.checked;
        if self.key.needed() > 0 {
            let result = self.key.feed(chunk);
            proof {
                assert forall|s: Seq<u8>| #![trigger chunk@ + s] before.outcome(chunk@ + s) == (
                match result {
                    Ok(_) => advance(self.outcome(s), chunk@.len()),
                    Err(e) => Err(e),
                }) by {
                    if result is Ok {
                        if let Ok((vk, n0)) = self.key@.outcome::<E>(s) {
                            lemma_key_used::<E>(self.key@, s);
                            assert((chunk@ + s).skip((n0 + chunk@.len()) as int) =~= s.skip(
                                n0 as int,
                            ));
                        }
                    }
                }
            }
            return result;
        }
        let result = if self.h.needed() > 0 {
            self.h.feed(chunk, checked)
        } else if self.l.needed() > 0 {
            self.l.feed(chunk, checked)
        } else if self.a.needed() > 0 {
            self.a.feed(chunk, checked)
        } else if self.b_g1.needed() > 0 {
            self.b_g1.feed(chunk, checked)
        } else {
            self.b_g2.feed(chunk, checked)
        };
        proof {
            assert forall|s: Seq<u8>| #![trigger chunk@ + s] before.outcome(chunk@ + s) == (
            match result {
                Ok(_) => advance(self.outcome(s), chunk@.len()),
                Err(e) => Err(e),
            }) by {
                let vk = key_of(before.key@.points, before.key@.ic.points);
                lemma_key_done::<E>(before.key@, chunk@ + s);
                lemma_key_done::<E>(before.key@, s);
                assert((chunk@ + s).skip(0) =~= chunk@ + s);
                assert(s.skip(0) =~= s);
                lemma_lists_fed::<E>(
                    vk,
                    before.lists(),
                    self.lists(),
                    chunk@,
                    s,
                    checked,
                    result,
                );
            }
        }
        result
    }

    /// The parameters, once they are complete.
    pub fn finish(self) -> (params: Parameters<E>)
        requires
            self.valid(),
            self.needs() == 0,
        ensures
            forall|s: Seq<u8>| #[trigger]
                self.outcome(s) == Ok::<(ParametersView, nat), ReadError>((params@, 0)),
    {
        proof {
            E::G1Affine::size_is_positive();
            E::G2Affine::size_is_positive();
        }
        let ghost lists = self.lists();
        let params = Parameters {
            vk: self.key.finish(),
            h: Arc::new(self.h.points),
            l: Arc::new(self.l.points),
            a: Arc::new(self.a.points),
            b_g1: Arc::new(self.b_g1.points),
            b_g2: Arc::new(self.b_g2.points),
        };
        proof {
            assert forall|s: Seq<u8>| #[trigger] self.outcome(s) == Ok::<
                (ParametersView, nat),
                ReadError,
            >((params@, 0)) by {
                lemma_key_done::<E>(self.key@, s);
                assert(s.skip(0) =~= s);
                lemma_lists_done::<E>(params.vk@, lists, s, self.checked);
            }
        }
        params
    }
}

} // verus!
