//! Big-endian words and the errors of reading.

use byteorder::{BigEndian, ReadBytesExt, WriteBytesExt};
use vstd::prelude::*;

verus! {

/// Why a set of parameters could not be read.
#[derive(Clone, Copy, Debug, PartialEq, Eq, Structural)]
pub enum ReadError {
    /// The input ended before the parameters did.
    UnexpectedEof,
    /// The bytes in the place of a point do not encode one.
    NotOnCurve,
    /// A point that must be finite is the point at infinity.
    PointAtInfinity,
}

/// The value of the first four bytes, most significant byte first.
pub open spec fn be32(bytes: Seq<u8>) -> nat {
    (bytes[0] * 0x100_0000 + bytes[1] * 0x1_0000 + bytes[2] * 0x100 + bytes[3]) as nat
}

/// The four bytes of a word, most significant byte first.
pub open spec fn be32_bytes(word: u32) -> Seq<u8> {
    seq![
        (word / 0x100_0000) as u8,
        (word / 0x1_0000 % 0x100) as u8,
        (word / 0x100 % 0x100) as u8,
        (word % 0x100) as u8,
    ]
}

/// The four bytes that stand for the length of a list: the length modulo 2^32.
pub open spec fn count_word(len: nat) -> Seq<u8> {
    be32_bytes((len % 0x1_0000_0000) as u32)
}

/// A word is made up of its digits to the base 256.
proof fn lemma_word_of_digits(word: u32)
    by (bit_vector)
    ensures
        word / 0x100_0000 < 0x100,
        (word / 0x100_0000) * 0x100_0000 + (word / 0x1_0000 % 0x100) * 0x1_0000 + (word / 0x100
            % 0x100) * 0x100 + word % 0x100 == word,
{
}

/// The bytes of a word stand for the word.
pub(crate) proof fn lemma_be32_of_bytes(word: u32)
    ensures
        be32_bytes(word).len() == 4,
        be32(be32_bytes(word)) == word,
{
    lemma_word_of_digits(word);
}

/// The digits of a word to the base 256.
proof fn lemma_digits(word: u32, a: u8, b: u8, c: u8, d: u8)
    by (bit_vector)
    requires
        word == a * 0x100_0000 + b * 0x1_0000 + c * 0x100 + d,
    ensures
        word / 0x100_0000 == a,
        word / 0x1_0000 % 0x100 == b,
        word / 0x100 % 0x100 == c,
        word % 0x100 == d,
{
}

/// Four bytes are the bytes of the word that they stand for.
pub(crate) proof fn lemma_bytes_of_be32(bytes: Seq<u8>)
    requires
        bytes.len() == 4,
    ensures
        be32(bytes) <= u32::MAX,
        be32_bytes(be32(bytes) as u32) == bytes,
{
    let word = be32(bytes) as u32;
    lemma_digits(word, bytes[0], bytes[1], bytes[2], bytes[3]);
    assert(be32_bytes(word) =~= bytes);
}

/// Reads a word from the front of the bytes with
/// `byteorder::ReadBytesExt::read_u32::<BigEndian>`, which takes four bytes off
/// a slice and puts them together with the most significant byte first. It
/// fails only where the slice is shorter.
#[verifier::external_body]
pub(crate) fn read_u32(bytes: &[u8]) -> (word: u32)
    requires
        bytes@.len() >= 4,
    ensures
        word == be32(bytes@),
{
    let mut reader = bytes;
    reader.read_u32::<BigEndian>().unwrap()
}

/// Appends a word to a buffer with
/// `byteorder::WriteBytesExt::write_u32::<BigEndian>`, which writes the four
/// bytes of the word with the most significant byte first. Writing to a vector
/// appends, and does not fail.
#[verifier::external_body]
pub(crate) fn write_u32(writer: &mut Vec<u8>, word: u32)
    ensures
        final(writer)@ == old(writer)@ + be32_bytes(word),
{
    writer.write_u32::<BigEndian>(word).unwrap()
}

/// Appends bytes to a buffer.
pub(crate) fn write_all(writer: &mut Vec<u8>, bytes: &[u8])
    ensures
        final(writer)@ == old(writer)@ + bytes@,
{
    writer.extend_from_slice(bytes);
    assert(writer@ =~= old(writer)@ + bytes@);
}

/// Appends the length of a list to a buffer, as a word.
pub(crate) fn write_count(writer: &mut Vec<u8>, len: usize)
    ensures
        final(writer)@ == old(writer)@ + count_word(len as nat),
{
    let wide: u64 = len as u64;
    let word: u32 = #[verifier::truncate] (wide as u32);
    assert(word == wide % 0x1_0000_0000) by (bit_vector)
        requires
            word == wide as u32,
    ;
    write_u32(writer, word);
}

} // verus!
