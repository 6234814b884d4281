//! Writing parameters piece by piece.
//!
//! A [`ParametersWriter`] hands the bytes of the parameters out in order: the
//! verifying key, then of each list its length and its points one by one. No
//! more than one piece is held at a time.

use vstd::prelude::*;
use vstd::seq_lib::lemma_flatten_concat;

use crate::engine::{encodings, encodings_have_size, CurvePoint, Engine};
use crate::format::{key_bytes, parameters_bytes, section_bytes, ParametersView};
use crate::params::Parameters;
use crate::wire::{count_word, write_all, write_count};

verus! {

/// The pieces of a list: its length, then its points.
pub open spec fn list_pieces(points: Seq<Seq<u8>>) -> Seq<Seq<u8>> {
    seq![count_word(points.len())] + points
}

/// The pieces of the lists of parameters from the list `part` on. The lists are
/// counted from one.
pub open spec fn pieces_of_lists(params: ParametersView, part: int) -> Seq<Seq<u8>>
    decreases 6 - part,
{
    if part < 1 || part > 5 {
        Seq::empty()
    } else {
        list_pieces(list_of(params, part)) + pieces_of_lists(params, part + 1)
    }
}

/// One of the lists of parameters.
pub open spec fn list_of(params: ParametersView, part: int) -> Seq<Seq<u8>> {
    if part == 1 {
        params.h
    } else if part == 2 {
        params.l
    } else if part == 3 {
        params.a
    } else if part == 4 {
        params.b_g1
    } else {
        params.b_g2
    }
}

/// The pieces of parameters: the key, then those of each list.
pub open spec fn parameters_pieces(params: ParametersView) -> Seq<Seq<u8>> {
    seq![key_bytes(params.vk)] + pieces_of_lists(params, 1)
}

/// One piece joined is the piece.
proof fn lemma_one_piece(piece: Seq<u8>)
    ensures
        seq![piece].flatten() == piece,
{
    seq![piece].lemma_flatten_one_element();
}

/// The pieces of a list join up to its bytes.
proof fn lemma_list_pieces(points: Seq<Seq<u8>>)
    ensures
        list_pieces(points).flatten() == section_bytes(points),
{
    lemma_flatten_concat(seq![count_word(points.len())], points);
    lemma_one_piece(count_word(points.len()));
}

/// The pieces of a list, and those of the lists behind it.
proof fn lemma_lists_pieces(params: ParametersView, part: int)
    requires
        1 <= part <= 5,
    ensures
        pieces_of_lists(params, part).flatten() == section_bytes(list_of(params, part))
            + pieces_of_lists(params, part + 1).flatten(),
{
    lemma_flatten_concat(list_pieces(list_of(params, part)), pieces_of_lists(params, part + 1));
    lemma_list_pieces(list_of(params, part));
}

/// The pieces of parameters join up to their bytes.
pub proof fn pieces_join_up(params: ParametersView)
    ensures
        parameters_pieces(params).flatten() == parameters_bytes(params),
{
    lemma_flatten_concat(seq![key_bytes(params.vk)], pieces_of_lists(params, 1));
    lemma_one_piece(key_bytes(params.vk));
    lemma_lists_pieces(params, 1);
    lemma_lists_pieces(params, 2);
    lemma_lists_pieces(params, 3);
    lemma_lists_pieces(params, 4);
    lemma_lists_pieces(params, 5);
    assert(pieces_of_lists(params, 6).flatten() =~= Seq::<u8>::empty());
    assert(parameters_pieces(params).flatten() =~= parameters_bytes(params));
}

/// A piece of a list.
fn list_piece<P: CurvePoint>(points: &Vec<P>, index: usize) -> (piece: Vec<u8>)
    requires
        index <= points@.len(),
    ensures
        piece@ == list_pieces(encodings(points@))[index as int],
        piece@.len() > 0,
{
    proof {
        P::size_is_positive();
        encodings_have_size(points@);
    }
    let mut piece: Vec<u8> = Vec::new();
    if index == 0 {
        write_count(&mut piece, points.len());
        assert(piece@ =~= count_word(points@.len()));
    } else {
        write_all(&mut piece, points[index - 1].to_uncompressed());
        assert(piece@ =~= encodings(points@)[index - 1]);
    }
    piece
}

/// The pieces of parameters from the piece `index` of a part on. Part zero is the
/// key, and the others are the lists.
pub open spec fn pieces_from(params: ParametersView, part: int, index: int) -> Seq<Seq<u8>> {
    if part == 0 {
        parameters_pieces(params)
    } else if part > 5 {
        Seq::empty()
    } else {
        list_pieces(list_of(params, part)).skip(index) + pieces_of_lists(params, part + 1)
    }
}

/// From its first piece on, a list is whole.
proof fn lemma_list_start(params: ParametersView, part: int)
    requires
        1 <= part <= 6,
    ensures
        pieces_from(params, part, 0) == pieces_of_lists(params, part),
{
    if part <= 5 {
        let list = list_pieces(list_of(params, part));
        assert(list.skip(0) =~= list);
    }
}

/// The key is the first piece, and the lists are left.
proof fn lemma_after_key(params: ParametersView)
    ensures
        parameters_pieces(params).first() == key_bytes(params.vk),
        parameters_pieces(params).drop_first() == pieces_from(params, 1, 0),
        key_bytes(params.vk).len() > 0,
{
    lemma_list_start(params, 1);
    assert(parameters_pieces(params).drop_first() =~= pieces_of_lists(params, 1));
}

/// After a piece of a list comes the next piece of the list, or the next list.
proof fn lemma_after_piece(params: ParametersView, part: int, index: int)
    requires
        1 <= part <= 5,
        0 <= index <= list_of(params, part).len(),
    ensures
        ({
            let pieces = pieces_from(params, part, index);
            &&& pieces.len() > 0
            &&& pieces.first() == list_pieces(list_of(params, part))[index]
            &&& pieces.drop_first() == if index < list_of(params, part).len() {
                pieces_from(params, part, index + 1)
            } else {
                pieces_from(params, part + 1, 0)
            }
        }),
{
    let list = list_pieces(list_of(params, part));
    let after = pieces_of_lists(params, part + 1);
    let pieces = list.skip(index) + after;
    assert(pieces.drop_first() =~= list.skip(index + 1) + after);
    if index == list_of(params, part).len() {
        lemma_list_start(params, part + 1);
        assert(list.skip(index + 1) + after =~= after);
    }
}

/// A piece of one of the lists, and whether the list has more.
fn piece_of_list<E: Engine>(params: &Parameters<E>, part: usize, index: usize) -> (result: (
    Vec<u8>,
    bool,
))
    requires
        1 <= part <= 5,
        index <= list_of(params@, part as int).len(),
    ensures
        result.0@ == list_pieces(list_of(params@, part as int))[index as int],
        result.0@.len() > 0,
        result.1 == (index < list_of(params@, part as int).len()),
        result.1 ==> index < usize::MAX,
{
    if part == 1 {
        (list_piece(&params.h, index), index < params.h.len())
    } else if part == 2 {
        (list_piece(&params.l, index), index < params.l.len())
    } else if part == 3 {
        (list_piece(&params.a, index), index < params.a.len())
    } else if part == 4 {
        (list_piece(&params.b_g1, index), index < params.b_g1.len())
    } else {
        (list_piece(&params.b_g2, index), index < params.b_g2.len())
    }
}

/// Parameters as they are written.
pub struct ParametersWriter<'a, E: Engine> {
    params: &'a Parameters<E>,
    part: usize,
    index: usize,
}

impl<'a, E: Engine> ParametersWriter<'a, E> {
    /// The invariant of a writer.
    pub closed spec fn valid(self) -> bool {
        &&& self.part <= 6
        &&& 1 <= self.part <= 5 ==> self.index <= list_of(self.params@, self.part as int).len()
    }

    /// The pieces that are still to be handed out.
    pub closed spec fn pieces(self) -> Seq<Seq<u8>> {
        pieces_from(self.params@, self.part as int, self.index as int)
    }

    /// The bytes that are still to be written.
    pub open spec fn remaining(self) -> Seq<u8> {
        self.pieces().flatten()
    }

    /// A writer at the start of the parameters.
    pub fn new(params: &'a Parameters<E>) -> (writer: Self)
        ensures
            writer.valid(),
            writer.pieces() == parameters_pieces(params@),
            writer.remaining() == parameters_bytes(params@),
    {
        proof {
            pieces_join_up(params@);
        }
        ParametersWriter { params, part: 0, index: 0 }
    }

    /// The next of the pieces that are still to be handed out. There is none
    /// when all were.
    pub fn next_piece(&mut self) -> (piece: Option<Vec<u8>>)
        requires
            old(self).valid(),
        ensures
            final(self).valid(),
            match piece {
                Some(bytes) => {
                    &&& old(self).pieces().len() > 0
                    &&& bytes@ == old(self).pieces().first()
                    &&& bytes@.len() > 0
                    &&& final(self).pieces() == old(self).pieces().drop_first()
                    &&& old(self).remaining() == bytes@ + final(self).remaining()
                },
                None => old(self).pieces().len() == 0 && *final(self) == *old(self),
            },
    {
        let ghost view = self.params@;
        if self.part > 5 {
            return None;
        }
        if self.part == 0 {
            let mut piece: Vec<u8> = Vec::new();
            self.params.vk.write(&mut piece);
            self.part = 1;
            self.index = 0;
            proof {
                lemma_after_key(view);
                assert(piece@ =~= key_bytes(view.vk));
            }
            return Some(piece);
        }
        proof {
            lemma_after_piece(view, self.part as int, self.index as int);
        }
        let (piece, more) = piece_of_list(self.params, self.part, self.index);
        if more {
            self.index = self.index + 1;
        } else {
            self.part = self.part + 1;
            self.index = 0;
        }
        Some(piece)
    }
}

} // verus!
