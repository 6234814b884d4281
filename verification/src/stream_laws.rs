//! What holds of parameters that are read or written piece by piece.

use vstd::prelude::*;

use crate::engine::{encodings, CurvePoint, Engine};
use crate::format::{advance, ParametersView};
use crate::params::Parameters;
use crate::reader::ParametersReader;
use crate::verifying_key::VerifyingKey;
use crate::wire::{count_word, lemma_be32_of_bytes, ReadError};
use crate::writer::{
    list_of, list_pieces, parameters_pieces, pieces_join_up, pieces_of_lists, ParametersWriter,
};

verus! {

/// The word of a length is its value modulo 2^32, most significant byte first.
proof fn lemma_word(len: nat)
    ensures
        ({
            let piece = count_word(len);
            &&& piece.len() == 4
            &&& piece[0] * 0x100_0000 + piece[1] * 0x1_0000 + piece[2] * 0x100 + piece[3]
                == len as int % 0x1_0000_0000
        }),
{
    lemma_be32_of_bytes((len % 0x1_0000_0000) as u32);
}

/// The pieces of a list begin with its length, then its points follow, and then
/// what is behind the list.
proof fn lemma_list_first<P: CurvePoint>(
    pieces: Seq<Seq<u8>>,
    at: int,
    points: Seq<P>,
    rest: Seq<Seq<u8>>,
)
    requires
        0 <= at <= pieces.len(),
        pieces.skip(at) == list_pieces(encodings(points)) + rest,
    ensures
        at + 1 + points.len() <= pieces.len(),
        pieces[at] == count_word(points.len()),
        forall|i: int| 0 <= i < points.len() ==> pieces[at + 1 + i] == (#[trigger] points[i])@,
        pieces.skip(at + 1 + points.len()) == rest,
{
    let list = list_pieces(encodings(points));
    let after = pieces.skip(at);
    assert(list.len() == 1 + points.len());
    assert(after.len() == list.len() + rest.len());
    assert(after[0] == list[0]);
    assert forall|i: int| 0 <= i < points.len() implies pieces[at + 1 + i] == (#[trigger]
        points[i])@ by {
        assert(after[1 + i] == list[1 + i]);
        assert(list[1 + i] == encodings(points)[i]);
    }
    assert forall|k: int| 0 <= k < rest.len() implies rest[k] == pieces[at + 1 + points.len()
        + k] by {
        assert(after[list.len() + k] == (list + rest)[list.len() + k]);
    }
    assert(pieces.skip(at + 1 + points.len()) =~= rest);
}

/// A writer hands the parts of parameters out in order: first the key, then the
/// lists `h`, `l`, `a`, `b_g1` and `b_g2`, of each four bytes with its length,
/// modulo 2^32 and most significant byte first, and then each of its points.
pub proof fn writer_hands_out_every_part<'a, E: Engine>(
    params: &'a Parameters<E>,
    writer: ParametersWriter<'a, E>,
    buffer: &mut Vec<u8>,
)
    requires
        call_ensures(ParametersWriter::<'a, E>::new, (params,), writer),
        call_ensures(VerifyingKey::<E>::write, (&params.vk, buffer), ()),
    ensures
        ({
            let pieces = writer.pieces();
            let word = |piece: Seq<u8>, len: nat|
                piece.len() == 4 && piece[0] * 0x100_0000 + piece[1] * 0x1_0000 + piece[2] * 0x100
                    + piece[3] == len as int % 0x1_0000_0000;
            let h = 1int;
            let l = h + 1 + params.h@.len();
            let a = l + 1 + params.l@.len();
            let b_g1 = a + 1 + params.a@.len();
            let b_g2 = b_g1 + 1 + params.b_g1@.len();
            &&& pieces.len() == b_g2 + 1 + params.b_g2@.len()
            &&& final(buffer)@ == old(buffer)@ + pieces[0]
            &&& word(pieces[h], params.h@.len())
            &&& forall|i: int|
                0 <= i < params.h@.len() ==> pieces[h + 1 + i] == (#[trigger] params.h@[i])@
            &&& word(pieces[l], params.l@.len())
            &&& forall|i: int|
                0 <= i < params.l@.len() ==> pieces[l + 1 + i] == (#[trigger] params.l@[i])@
            &&& word(pieces[a], params.a@.len())
            &&& forall|i: int|
                0 <= i < params.a@.len() ==> pieces[a + 1 + i] == (#[trigger] params.a@[i])@
            &&& word(pieces[b_g1], params.b_g1@.len())
            &&& forall|i: int|
                0 <= i < params.b_g1@.len() ==> pieces[b_g1 + 1 + i]
                    == (#[trigger] params.b_g1@[i])@
            &&& word(pieces[b_g2], params.b_g2@.len())
            &&& forall|i: int|
                0 <= i < params.b_g2@.len() ==> pieces[b_g2 + 1 + i]
                    == (#[trigger] params.b_g2@[i])@
        }),
        writer.remaining() == writer.pieces().flatten(),
{
    let pieces = parameters_pieces(params@);
    let h = 1int;
    let l = h + 1 + params.h@.len();
    let a = l + 1 + params.l@.len();
    let b_g1 = a + 1 + params.a@.len();
    let b_g2 = b_g1 + 1 + params.b_g1@.len();
    assert(pieces.skip(1) =~= pieces_of_lists(params@, 1));
    lemma_list_first(pieces, h, params.h@, pieces_of_lists(params@, 2));
    lemma_list_first(pieces, l, params.l@, pieces_of_lists(params@, 3));
    lemma_list_first(pieces, a, params.a@, pieces_of_lists(params@, 4));
    lemma_list_first(pieces, b_g1, params.b_g1@, pieces_of_lists(params@, 5));
    assert(pieces_of_lists(params@, 5) == list_pieces(list_of(params@, 5)) + pieces_of_lists(
        params@,
        6,
    ));
    lemma_list_first(pieces, b_g2, params.b_g2@, pieces_of_lists(params@, 6));
    lemma_word(params.h@.len());
    lemma_word(params.l@.len());
    lemma_word(params.a@.len());
    lemma_word(params.b_g1@.len());
    lemma_word(params.b_g2@.len());
}

/// The pieces of a writer are the bytes that `write` appends.
pub proof fn pieces_are_what_is_written<'a, E: Engine>(
    params: &'a Parameters<E>,
    writer: ParametersWriter<'a, E>,
    buffer: &mut Vec<u8>,
)
    requires
        call_ensures(ParametersWriter::<'a, E>::new, (params,), writer),
        call_ensures(Parameters::<E>::write, (params, buffer), ()),
    ensures
        final(buffer)@ == old(buffer)@ + writer.pieces().flatten(),
{
    pieces_join_up(params@);
}

/// A writer hands out the first of its pieces and keeps the others, and hands out
/// nothing exactly where it has none.
pub proof fn writer_hands_out_its_first_piece<'a, E: Engine>(
    writer: &mut ParametersWriter<'a, E>,
    piece: Option<Vec<u8>>,
)
    requires
        call_ensures(ParametersWriter::<'a, E>::next_piece, (writer,), piece),
    ensures
        piece is None <==> old(writer).pieces().len() == 0,
        piece matches Some(bytes) ==> old(writer).pieces() == seq![bytes@] + final(writer).pieces(),
        piece is None ==> final(writer).pieces() == old(writer).pieces(),
{
    if let Some(bytes) = piece {
        let all = old(writer).pieces();
        assert(all =~= seq![all.first()] + all.drop_first());
    }
}

/// A reader at the start says of any bytes what `read` gives on them.
pub proof fn reader_starts_as_read<E: Engine>(
    bytes: &[u8],
    checked: bool,
    reader: ParametersReader<E>,
    result: Result<(Parameters<E>, usize), ReadError>,
)
    requires
        call_ensures(ParametersReader::<E>::new, (checked,), reader),
        call_ensures(Parameters::<E>::read, (bytes, checked), result),
    ensures
        match (result, reader.outcome(bytes@)) {
            (Ok((p, used)), Ok((view, n))) => {
                &&& used == n
                &&& p.vk.alpha_g1@ == view.vk.alpha_g1
                &&& p.vk.beta_g1@ == view.vk.beta_g1
                &&& p.vk.beta_g2@ == view.vk.beta_g2
                &&& p.vk.gamma_g2@ == view.vk.gamma_g2
                &&& p.vk.delta_g1@ == view.vk.delta_g1
                &&& p.vk.delta_g2@ == view.vk.delta_g2
                &&& p.vk.ic@.len() == view.vk.ic.len()
                &&& forall|i: int|
                    0 <= i < p.vk.ic@.len() ==> (#[trigger] p.vk.ic@[i])@ == view.vk.ic[i]
                &&& p.h@.len() == view.h.len()
                &&& forall|i: int| 0 <= i < p.h@.len() ==> (#[trigger] p.h@[i])@ == view.h[i]
                &&& p.l@.len() == view.l.len()
                &&& forall|i: int| 0 <= i < p.l@.len() ==> (#[trigger] p.l@[i])@ == view.l[i]
                &&& p.a@.len() == view.a.len()
                &&& forall|i: int| 0 <= i < p.a@.len() ==> (#[trigger] p.a@[i])@ == view.a[i]
                &&& p.b_g1@.len() == view.b_g1.len()
                &&& forall|i: int|
                    0 <= i < p.b_g1@.len() ==> (#[trigger] p.b_g1@[i])@ == view.b_g1[i]
                &&& p.b_g2@.len() == view.b_g2.len()
                &&& forall|i: int|
                    0 <= i < p.b_g2@.len() ==> (#[trigger] p.b_g2@[i])@ == view.b_g2[i]
            },
            (Err(e), Err(f)) => e == f,
            _ => false,
        },
{
}

/// Once a reader is complete, it gives the parameters that it said of any bytes,
/// and uses none of them.
pub proof fn reader_ends_as_it_said<E: Engine>(
    reader: ParametersReader<E>,
    p: Parameters<E>,
    rest: Seq<u8>,
)
    requires
        reader.valid(),
        reader.needs() == 0,
        call_ensures(ParametersReader::<E>::finish, (reader,), p),
    ensures
        reader.outcome(rest) matches Ok((view, n)) && {
            &&& n == 0
            &&& p.vk.alpha_g1@ == view.vk.alpha_g1
            &&& p.vk.beta_g1@ == view.vk.beta_g1
            &&& p.vk.beta_g2@ == view.vk.beta_g2
            &&& p.vk.gamma_g2@ == view.vk.gamma_g2
            &&& p.vk.delta_g1@ == view.vk.delta_g1
            &&& p.vk.delta_g2@ == view.vk.delta_g2
            &&& p.vk.ic@.len() == view.vk.ic.len()
            &&& forall|i: int|
                0 <= i < p.vk.ic@.len() ==> (#[trigger] p.vk.ic@[i])@ == view.vk.ic[i]
            &&& p.h@.len() == view.h.len()
            &&& forall|i: int| 0 <= i < p.h@.len() ==> (#[trigger] p.h@[i])@ == view.h[i]
            &&& p.l@.len() == view.l.len()
            &&& forall|i: int| 0 <= i < p.l@.len() ==> (#[trigger] p.l@[i])@ == view.l[i]
            &&& p.a@.len() == view.a.len()
            &&& forall|i: int| 0 <= i < p.a@.len() ==> (#[trigger] p.a@[i])@ == view.a[i]
            &&& p.b_g1@.len() == view.b_g1.len()
            &&& forall|i: int| 0 <= i < p.b_g1@.len() ==> (#[trigger] p.b_g1@[i])@ == view.b_g1[i]
            &&& p.b_g2@.len() == view.b_g2.len()
            &&& forall|i: int| 0 <= i < p.b_g2@.len() ==> (#[trigger] p.b_g2@[i])@ == view.b_g2[i]
        },
{
    assert(call_requires(ParametersReader::<E>::finish, (reader,)));
}

/// A reader that was fed says of the bytes that follow what it said before of
/// both together, or gives the error that it said.
pub proof fn reader_moves_on<E: Engine>(
    reader: &mut ParametersReader<E>,
    chunk: &[u8],
    result: Result<(), ReadError>,
    rest: Seq<u8>,
)
    requires
        old(reader).valid(),
        old(reader).needs() > 0,
        chunk@.len() == old(reader).needs(),
        call_ensures(ParametersReader::<E>::feed, (reader, chunk), result),
    ensures
        match (result, old(reader).outcome(chunk@ + rest), final(reader).outcome(rest)) {
            (Ok(_), Ok((v, n)), Ok((w, m))) => v == w && n == chunk@.len() + m,
            (Ok(_), Err(e), Err(f)) => e == f,
            (Err(e), Err(f), _) => e == f,
            _ => false,
        },
{
    let after = final(reader).outcome(rest);
    assert(old(reader).outcome(chunk@ + rest) == (match result {
        Ok(_) => advance(after, chunk@.len()),
        Err(e) => Err(e),
    }));
}

/// A reader never asks for more than there must be: with fewer bytes to come the
/// parameters would be cut short.
pub proof fn reader_asks_for_what_must_come<E: Engine>(
    reader: &ParametersReader<E>,
    n: usize,
    rest: Seq<u8>,
)
    requires
        call_ensures(ParametersReader::<E>::needed, (reader,), n),
        rest.len() < n,
    ensures
        reader.outcome(rest) == Err::<(ParametersView, nat), ReadError>(ReadError::UnexpectedEof),
{
}

} // verus!
