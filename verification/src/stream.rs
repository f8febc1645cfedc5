//! The grammar of a compressed stream: what a sequence of bits decodes to,
//! or the error that it fails with.

use vstd::prelude::*;
use crate::bits::lsb_value;
use crate::bits::msb_value;
use crate::codes::copy_back;
use crate::codes::distance_base;
use crate::codes::distance_extra_bits;
use crate::codes::length_base;
use crate::codes::length_extra_bits;
use crate::huffman::canonical_table;
use crate::huffman::code_lengths_valid;
use crate::huffman::nonzero_lengths;
use crate::huffman::nonzero_symbols;

verus! {

/// Why a stream cannot be decoded.
#[derive(Clone, Copy, Debug, PartialEq, Eq, Structural)]
pub enum DecodeError {
    /// The stream ends before the data does.
    EndOfInput,
    /// A block has the reserved type 3.
    InvalidBlockType,
    /// The bits match no code of the Huffman code in use, or stand for a
    /// symbol that the format does not use.
    InvalidCode,
    /// The code lengths of a block do not make a Huffman code.
    InvalidTable,
    /// A match reaches back beyond the start of the output.
    InvalidBackReference,
    /// A stored block, which this decoder does not read.
    UnsupportedBlockType,
}

/// The Huffman codes that a block's data is written in.
pub enum Coding {
    /// The fixed codes of the format.
    Fixed,
    /// The codes that the block brings with it, as decoding tables.
    Dynamic { literals: Seq<Map<u16, u16>>, distances: Seq<Map<u16, u16>> },
}

/// The `count` bits from `pos` on.
pub open spec fn bits_at(bits: Seq<bool>, pos: int, count: int) -> Seq<bool> {
    bits.subrange(pos, pos + count)
}

/// The integer that the `count` bits from `pos` on spell: least significant
/// bit first if `reverse` is set, most significant bit first if not.
pub open spec fn field_at(bits: Seq<bool>, pos: int, count: int, reverse: bool) -> nat {
    if reverse {
        lsb_value(bits_at(bits, pos, count))
    } else {
        msb_value(bits_at(bits, pos, count))
    }
}

/// The symbol that the `count` bits of value `value` stand for in the fixed
/// Huffman code, where they are a code word of it, and 300 where not.
pub open spec fn fixed_conversion(count: int, value: int) -> int {
    if count == 7 && value <= 23 {
        value + 256
    } else if count == 8 && 48 <= value <= 191 {
        value - 48
    } else if count == 8 && 192 <= value <= 199 {
        value + 88
    } else if count == 9 && 400 <= value <= 511 {
        value - 256
    } else {
        300
    }
}

/// The symbol whose fixed code word has `count` bits or more and starts at
/// `pos`, with the position behind it: the first of 7, 8 and 9 bits that are
/// a code word.
pub open spec fn fixed_symbol_from(bits: Seq<bool>, pos: int, count: int) -> Result<
    (int, int),
    DecodeError,
>
    decreases 10 - count,
{
    if count > 9 {
        Err(DecodeError::InvalidCode)
    } else if pos + count > bits.len() {
        Err(DecodeError::EndOfInput)
    } else {
        let symbol = fixed_conversion(count, field_at(bits, pos, count, false) as int);
        if symbol != 300 {
            Ok((symbol, pos + count))
        } else {
            fixed_symbol_from(bits, pos, count + 1)
        }
    }
}

/// The symbol whose fixed code word starts at `pos`, with the position behind it.
pub open spec fn fixed_symbol(bits: Seq<bool>, pos: int) -> Result<(int, int), DecodeError> {
    fixed_symbol_from(bits, pos, 7)
}

/// The symbol whose code of `len` bits or more, up to `limit`, starts at
/// `pos`, with the position behind it: the shortest run of bits that is a code
/// of its length in `table`.
pub open spec fn table_symbol_from(
    table: Seq<Map<u16, u16>>,
    bits: Seq<bool>,
    pos: int,
    len: int,
    limit: int,
) -> Result<(int, int), DecodeError>
    decreases limit + 1 - len,
{
    if len > limit {
        Err(DecodeError::InvalidCode)
    } else if pos + len > bits.len() {
        Err(DecodeError::EndOfInput)
    } else {
        let code = field_at(bits, pos, len, false) as u16;
        if len < table.len() && table[len].contains_key(code) {
            Ok((table[len][code] as int, pos + len))
        } else {
            table_symbol_from(table, bits, pos, len + 1, limit)
        }
    }
}

/// The symbol whose code in `table` starts at `pos`, with the position behind
/// it, where no code has more than `limit` bits.
pub open spec fn table_symbol(
    table: Seq<Map<u16, u16>>,
    bits: Seq<bool>,
    pos: int,
    limit: int,
) -> Result<(int, int), DecodeError> {
    table_symbol_from(table, bits, pos, 1, limit)
}

/// The literal/length symbol at `pos`, with the position behind it.
pub open spec fn literal_symbol(coding: Coding, bits: Seq<bool>, pos: int) -> Result<
    (int, int),
    DecodeError,
> {
    match coding {
        Coding::Fixed => fixed_symbol(bits, pos),
        Coding::Dynamic { literals, distances } => table_symbol(literals, bits, pos, 15),
    }
}

/// The distance code at `pos`, with the position behind it: five bits in
/// the fixed coding, a code of the distance table in the dynamic one.
pub open spec fn distance_symbol_at(coding: Coding, bits: Seq<bool>, pos: int) -> Result<
    (int, int),
    DecodeError,
> {
    match coding {
        Coding::Fixed => if pos + 5 > bits.len() {
            Err(DecodeError::EndOfInput)
        } else {
            Ok((field_at(bits, pos, 5, false) as int, pos + 5))
        },
        Coding::Dynamic { literals, distances } => table_symbol(distances, bits, pos, 15),
    }
}

/// The match length that the length symbol `symbol` and the extra bits at
/// `pos` stand for, with the position behind them.
pub open spec fn match_length_at(bits: Seq<bool>, pos: int, symbol: int) -> Result<
    (int, int),
    DecodeError,
> {
    if symbol < 257 || symbol > 285 {
        Err(DecodeError::InvalidCode)
    } else if pos + length_extra_bits(symbol) > bits.len() {
        Err(DecodeError::EndOfInput)
    } else {
        Ok(
            (
                length_base(symbol) + field_at(bits, pos, length_extra_bits(symbol) as int, true),
                pos + length_extra_bits(symbol),
            ),
        )
    }
}

/// The match distance that the distance code `code` and the extra bits at
/// `pos` stand for, with the position behind them.
pub open spec fn match_distance_at(bits: Seq<bool>, pos: int, code: int) -> Result<
    (int, int),
    DecodeError,
> {
    if code < 0 || code > 29 {
        Err(DecodeError::InvalidCode)
    } else if pos + distance_extra_bits(code) > bits.len() {
        Err(DecodeError::EndOfInput)
    } else {
        Ok(
            (
                distance_base(code) + field_at(bits, pos, distance_extra_bits(code) as int, true),
                pos + distance_extra_bits(code),
            ),
        )
    }
}

/// The match at `pos` behind the length symbol `symbol`, as its length and
/// its distance, with the position behind it.
pub open spec fn match_at(coding: Coding, bits: Seq<bool>, pos: int, symbol: int) -> Result<
    (int, int, int),
    DecodeError,
> {
    match match_length_at(bits, pos, symbol) {
        Err(e) => Err(e),
        Ok((length, behind_length)) => match distance_symbol_at(coding, bits, behind_length) {
            Err(e) => Err(e),
            Ok((code, behind_code)) => match match_distance_at(bits, behind_code, code) {
                Err(e) => Err(e),
                Ok((distance, behind)) => Ok((length, distance, behind)),
            },
        },
    }
}

/// What the data of a block from `pos` on adds to the output `out`, up to the
/// symbol that ends the block, with the position behind that symbol.
pub open spec fn block_body(coding: Coding, bits: Seq<bool>, pos: int, out: Seq<u8>) -> Result<
    (Seq<u8>, int),
    DecodeError,
>
    decreases bits.len() - pos,
    via block_body_decreases
{
    match literal_symbol(coding, bits, pos) {
        Err(e) => Err(e),
        Ok((symbol, behind_symbol)) => {
            if symbol < 256 {
                block_body(coding, bits, behind_symbol, out.push(symbol as u8))
            } else if symbol == 256 {
                Ok((out, behind_symbol))
            } else {
                match match_at(coding, bits, behind_symbol, symbol) {
                    Err(e) => Err(e),
                    Ok((length, distance, behind)) => {
                        if distance > out.len() {
                            Err(DecodeError::InvalidBackReference)
                        } else {
                            block_body(
                                coding,
                                bits,
                                behind,
                                copy_back(out, length as nat, distance),
                            )
                        }
                    },
                }
            }
        },
    }
}

/// A symbol takes at least one bit, so that the data goes forward.
#[via_fn]
proof fn block_body_decreases(coding: Coding, bits: Seq<bool>, pos: int, out: Seq<u8>) {
    lemma_literal_symbol_behind(coding, bits, pos);
    if let Ok((symbol, behind_symbol)) = literal_symbol(coding, bits, pos) {
        lemma_match_at_behind(coding, bits, behind_symbol, symbol);
    }
}

/// A fixed code word that is read has at least `count` bits and lies within
/// the stream.
pub proof fn lemma_fixed_symbol_from_behind(bits: Seq<bool>, pos: int, count: int)
    requires
        1 <= count,
    ensures
        fixed_symbol_from(bits, pos, count) matches Ok((symbol, behind)) ==> pos < behind
            <= bits.len(),
    decreases 10 - count,
{
    if count <= 9 && pos + count <= bits.len() {
        if fixed_conversion(count, field_at(bits, pos, count, false) as int) == 300 {
            lemma_fixed_symbol_from_behind(bits, pos, count + 1);
        }
    }
}

/// A code of a table that is read has at least `len` bits and lies within the
/// stream.
pub proof fn lemma_table_symbol_from_behind(
    table: Seq<Map<u16, u16>>,
    bits: Seq<bool>,
    pos: int,
    len: int,
    limit: int,
)
    requires
        1 <= len,
    ensures
        table_symbol_from(table, bits, pos, len, limit) matches Ok((symbol, behind)) ==> pos
            < behind <= bits.len(),
    decreases limit + 1 - len,
{
    if len <= limit && pos + len <= bits.len() {
        let code = field_at(bits, pos, len, false) as u16;
        if !(len < table.len() && table[len].contains_key(code)) {
            lemma_table_symbol_from_behind(table, bits, pos, len + 1, limit);
        }
    }
}

/// A literal/length symbol that is read takes at least one bit and lies
/// within the stream.
pub proof fn lemma_literal_symbol_behind(coding: Coding, bits: Seq<bool>, pos: int)
    ensures
        literal_symbol(coding, bits, pos) matches Ok((symbol, behind)) ==> pos < behind
            <= bits.len(),
{
    match coding {
        Coding::Fixed => {
            lemma_fixed_symbol_from_behind(bits, pos, 7);
        },
        Coding::Dynamic { literals, distances } => {
            lemma_table_symbol_from_behind(literals, bits, pos, 1, 15);
        },
    }
}

/// A match that is read lies within the stream.
pub proof fn lemma_match_at_behind(coding: Coding, bits: Seq<bool>, pos: int, symbol: int)
    ensures
        match_at(coding, bits, pos, symbol) matches Ok((length, distance, behind)) ==> pos
            <= behind <= bits.len(),
{
    if let Ok((length, behind_length)) = match_length_at(bits, pos, symbol) {
        if let Coding::Dynamic { literals, distances } = coding {
            lemma_table_symbol_from_behind(distances, bits, behind_length, 1, 15);
        }
    }
}

/// The data of a block that is read takes at least one bit and lies within
/// the stream.
pub proof fn lemma_block_body_behind(coding: Coding, bits: Seq<bool>, pos: int, out: Seq<u8>)
    ensures
        block_body(coding, bits, pos, out) matches Ok((data, behind)) ==> pos < behind
            <= bits.len(),
    decreases bits.len() - pos,
{
    lemma_literal_symbol_behind(coding, bits, pos);
    if let Ok((symbol, behind_symbol)) = literal_symbol(coding, bits, pos) {
        if symbol < 256 {
            lemma_block_body_behind(coding, bits, behind_symbol, out.push(symbol as u8));
        } else if symbol != 256 {
            lemma_match_at_behind(coding, bits, behind_symbol, symbol);
            if let Ok((length, distance, behind)) = match_at(coding, bits, behind_symbol, symbol) {
                if distance <= out.len() {
                    lemma_block_body_behind(
                        coding,
                        bits,
                        behind,
                        copy_back(out, length as nat, distance),
                    );
                }
            }
        }
    }
}

/// Code lengths that are read end where they start or behind it.
pub proof fn lemma_code_lengths_from_behind(
    table: Seq<Map<u16, u16>>,
    bits: Seq<bool>,
    pos: int,
    total: int,
    acc: Seq<usize>,
)
    ensures
        code_lengths_from(table, bits, pos, total, acc) matches Ok((lengths, behind)) ==> pos
            <= behind,
    decreases total - acc.len(),
{
    if acc.len() < total {
        lemma_table_symbol_from_behind(table, bits, pos, 1, 7);
        if let Ok((symbol, behind)) = table_symbol(table, bits, pos, 7) {
            if 0 <= symbol < 16 {
                lemma_code_lengths_from_behind(
                    table,
                    bits,
                    behind,
                    total,
                    acc.push(symbol as usize),
                );
            } else if symbol == 16 {
                if acc.len() != 0 && behind + 2 <= bits.len() {
                    let count = field_at(bits, behind, 2, true) + 3;
                    if acc.len() + count <= total {
                        lemma_code_lengths_from_behind(
                            table,
                            bits,
                            behind + 2,
                            total,
                            acc + repeated(acc.last(), count as int),
                        );
                    }
                }
            } else if symbol == 17 {
                if behind + 3 <= bits.len() {
                    let count = field_at(bits, behind, 3, true) + 3;
                    if acc.len() + count <= total {
                        lemma_code_lengths_from_behind(
                            table,
                            bits,
                            behind + 3,
                            total,
                            acc + repeated(0, count as int),
                        );
                    }
                }
            } else if symbol == 18 {
                if behind + 7 <= bits.len() {
                    let count = field_at(bits, behind, 7, true) + 11;
                    if acc.len() + count <= total {
                        lemma_code_lengths_from_behind(
                            table,
                            bits,
                            behind + 7,
                            total,
                            acc + repeated(0, count as int),
                        );
                    }
                }
            }
        }
    }
}

/// A block that is read takes at least one bit and lies within the stream.
pub proof fn lemma_one_block_behind(bits: Seq<bool>, pos: int, out: Seq<u8>)
    ensures
        one_block(bits, pos, out) matches Ok((data, behind, last)) ==> pos < behind <= bits.len(),
{
    reveal(one_block);
    reveal(dynamic_block);
    if pos + 3 <= bits.len() {
        let kind = field_at(bits, pos + 1, 2, true);
        if kind == 1 {
            lemma_block_body_behind(Coding::Fixed, bits, pos + 3, out);
        } else if pos + 17 <= bits.len() {
            let at = pos + 3;
            let hlit = field_at(bits, at, 5, true) + 257;
            let hdist = field_at(bits, at + 5, 5, true) + 1;
            let hclen = field_at(bits, at + 10, 4, true) + 4;
            if at + 14 + 3 * hclen <= bits.len() {
                let first = code_length_code_lengths(bits, at + 14, hclen as int);
                lemma_code_lengths_from_behind(
                    table_of_lengths(first),
                    bits,
                    at + 14 + 3 * hclen,
                    (hlit + hdist) as int,
                    Seq::empty(),
                );
                if let Ok((lengths, behind)) = code_lengths_from(
                    table_of_lengths(first),
                    bits,
                    at + 14 + 3 * hclen,
                    (hlit + hdist) as int,
                    Seq::empty(),
                ) {
                    lemma_block_body_behind(
                        Coding::Dynamic {
                            literals: table_of_lengths(lengths.take(hlit as int)),
                            distances: table_of_lengths(lengths.skip(hlit as int)),
                        },
                        bits,
                        behind,
                        out,
                    );
                }
            }
        }
    }
}

/// The order in which a dynamic block gives the lengths of the codes for code
/// lengths.
pub open spec fn code_length_order() -> Seq<usize> {
    seq![16, 17, 18, 0, 8, 7, 9, 6, 10, 5, 11, 4, 12, 3, 13, 2, 14, 1, 15]
}

/// The lengths of the codes for the 19 code length symbols, after the first
/// `count` fields of three bits from `pos` on have been read: each field
/// is the length for its symbol in the given order, and the symbols without
/// a field have length 0.
pub open spec fn code_length_code_lengths(bits: Seq<bool>, pos: int, count: int) -> Seq<usize>
    decreases count,
{
    if count <= 0 {
        Seq::new(19, |s: int| 0usize)
    } else {
        code_length_code_lengths(bits, pos, count - 1).update(
            code_length_order()[count - 1] as int,
            field_at(bits, pos + 3 * (count - 1), 3, true) as usize,
        )
    }
}

/// `count` times the length `len`.
pub open spec fn repeated(len: usize, count: int) -> Seq<usize> {
    Seq::new(
        if count > 0 {
            count as nat
        } else {
            0
        },
        |k: int| len,
    )
}

/// The code lengths that follow `acc` up to `total` in all, read from `pos`
/// on with the code for code lengths in `table`, with the position behind
/// them. The symbols 0 to 15 are lengths; 16 repeats the length before it 3 to
/// 6 times; 17 and 18 stand for 3 to 10 and 11 to 138 lengths of 0.
pub open spec fn code_lengths_from(
    table: Seq<Map<u16, u16>>,
    bits: Seq<bool>,
    pos: int,
    total: int,
    acc: Seq<usize>,
) -> Result<(Seq<usize>, int), DecodeError>
    decreases total - acc.len(),
{
    if acc.len() >= total {
        Ok((acc, pos))
    } else {
        match table_symbol(table, bits, pos, 7) {
            Err(e) => Err(e),
            Ok((symbol, behind)) => {
                if 0 <= symbol < 16 {
                    code_lengths_from(table, bits, behind, total, acc.push(symbol as usize))
                } else if symbol == 16 {
                    if acc.len() == 0 {
                        Err(DecodeError::InvalidTable)
                    } else if behind + 2 > bits.len() {
                        Err(DecodeError::EndOfInput)
                    } else {
                        let count = field_at(bits, behind, 2, true) + 3;
                        if acc.len() + count > total {
                            Err(DecodeError::InvalidTable)
                        } else {
                            code_lengths_from(
                                table,
                                bits,
                                behind + 2,
                                total,
                                acc + repeated(acc.last(), count as int),
                            )
                        }
                    }
                } else if symbol == 17 {
                    if behind + 3 > bits.len() {
                        Err(DecodeError::EndOfInput)
                    } else {
                        let count = field_at(bits, behind, 3, true) + 3;
                        if acc.len() + count > total {
                            Err(DecodeError::InvalidTable)
                        } else {
                            code_lengths_from(
                                table,
                                bits,
                                behind + 3,
                                total,
                                acc + repeated(0, count as int),
                            )
                        }
                    }
                } else if symbol == 18 {
                    if behind + 7 > bits.len() {
                        Err(DecodeError::EndOfInput)
                    } else {
                        let count = field_at(bits, behind, 7, true) + 11;
                        if acc.len() + count > total {
                            Err(DecodeError::InvalidTable)
                        } else {
                            code_lengths_from(
                                table,
                                bits,
                                behind + 7,
                                total,
                                acc + repeated(0, count as int),
                            )
                        }
                    }
                } else {
                    Err(DecodeError::InvalidCode)
                }
            },
        }
    }
}

/// The decoding table for the code lengths `lengths` of the symbols 0, 1, and
/// so on: the canonical code of the symbols whose length is not 0.
pub open spec fn table_of_lengths(lengths: Seq<usize>) -> Seq<Map<u16, u16>> {
    canonical_table(nonzero_lengths(lengths), nonzero_symbols(lengths))
}

/// The code lengths make a tree that the decoder accepts, the lengths of 0
/// left aside.
pub open spec fn lengths_accepted(lengths: Seq<usize>) -> bool {
    code_lengths_valid(nonzero_lengths(lengths))
}

/// What a block with dynamic Huffman codes adds to the output `out`, from the
/// position `pos` behind the block's header on, with the position behind the
/// block.
#[verifier::opaque]
pub open spec fn dynamic_block(bits: Seq<bool>, pos: int, out: Seq<u8>) -> Result<
    (Seq<u8>, int),
    DecodeError,
> {
    if pos + 14 > bits.len() {
        Err(DecodeError::EndOfInput)
    } else {
        let hlit = field_at(bits, pos, 5, true) + 257;
        let hdist = field_at(bits, pos + 5, 5, true) + 1;
        let hclen = field_at(bits, pos + 10, 4, true) + 4;
        if pos + 14 + 3 * hclen > bits.len() {
            Err(DecodeError::EndOfInput)
        } else {
            let first = code_length_code_lengths(bits, pos + 14, hclen as int);
            if !lengths_accepted(first) {
                Err(DecodeError::InvalidTable)
            } else {
                match code_lengths_from(
                    table_of_lengths(first),
                    bits,
                    pos + 14 + 3 * hclen,
                    (hlit + hdist) as int,
                    Seq::empty(),
                ) {
                    Err(e) => Err(e),
                    Ok((lengths, behind)) => {
                        let literals = lengths.take(hlit as int);
                        let distances = lengths.skip(hlit as int);
                        if !lengths_accepted(literals) || !lengths_accepted(distances) {
                            Err(DecodeError::InvalidTable)
                        } else {
                            block_body(
                                Coding::Dynamic {
                                    literals: table_of_lengths(literals),
                                    distances: table_of_lengths(distances),
                                },
                                bits,
                                behind,
                                out,
                            )
                        }
                    },
                }
            }
        }
    }
}

/// What one block from `pos` on adds to the output `out`, whether it is the
/// last block, and the position behind it. A block starts with one bit that
/// says whether it is the last and two bits for its type: 1 for the fixed
/// codes, 2 for codes of its own.
#[verifier::opaque]
pub open spec fn one_block(bits: Seq<bool>, pos: int, out: Seq<u8>) -> Result<
    (Seq<u8>, int, bool),
    DecodeError,
> {
    if pos + 3 > bits.len() {
        Err(DecodeError::EndOfInput)
    } else {
        let kind = field_at(bits, pos + 1, 2, true);
        if kind == 3 {
            Err(DecodeError::InvalidBlockType)
        } else if kind == 0 {
            Err(DecodeError::UnsupportedBlockType)
        } else {
            let body = if kind == 1 {
                block_body(Coding::Fixed, bits, pos + 3, out)
            } else {
                dynamic_block(bits, pos + 3, out)
            };
            match body {
                Err(e) => Err(e),
                Ok((data, behind)) => Ok((data, behind, bits[pos])),
            }
        }
    }
}

/// What the blocks from `pos` on, up to the last one, add to the output
/// `out`, with the position behind the last block.
pub open spec fn stream_blocks(bits: Seq<bool>, pos: int, out: Seq<u8>) -> Result<
    (Seq<u8>, int),
    DecodeError,
>
    decreases bits.len() - pos,
    via stream_blocks_decreases
{
    match one_block(bits, pos, out) {
        Err(e) => Err(e),
        Ok((data, behind, last)) => {
            if last {
                Ok((data, behind))
            } else {
                stream_blocks(bits, behind, data)
            }
        },
    }
}

/// A block takes at least one bit, so that the blocks go forward.
#[via_fn]
proof fn stream_blocks_decreases(bits: Seq<bool>, pos: int, out: Seq<u8>) {
    lemma_one_block_behind(bits, pos, out);
}

/// A stream in which a block of the reserved type 3 stands fails with
/// `InvalidBlockType` from that block on.
pub proof fn lemma_reserved_block_type(bits: Seq<bool>, pos: int, out: Seq<u8>)
    requires
        0 <= pos,
        pos + 3 <= bits.len(),
        bits[pos + 1],
        bits[pos + 2],
    ensures
        stream_blocks(bits, pos, out) == Err::<(Seq<u8>, int), DecodeError>(
            DecodeError::InvalidBlockType,
        ),
{
    reveal(one_block);
    let kind = bits_at(bits, pos + 1, 2);
    assert(kind.skip(1) =~= seq![true]);
    crate::bits::lemma_value_of_one_bit(kind.skip(1));
    assert(lsb_value(kind) == 3);
}

/// Behind a block that decodes and is not the last, the stream goes on with
/// the next block and the output so far: it fails if what follows fails.
pub proof fn lemma_stream_goes_on(bits: Seq<bool>, pos: int, out: Seq<u8>)
    requires
        one_block(bits, pos, out) is Ok,
        !one_block(bits, pos, out)->Ok_0.2,
    ensures
        stream_blocks(bits, pos, out) == stream_blocks(
            bits,
            one_block(bits, pos, out)->Ok_0.1,
            one_block(bits, pos, out)->Ok_0.0,
        ),
{
}

/// What a stream decodes to: the data of its blocks, or the error that
/// decoding fails with.
pub open spec fn decoded(bits: Seq<bool>) -> Result<Seq<u8>, DecodeError> {
    match stream_blocks(bits, 0, Seq::empty()) {
        Err(e) => Err(e),
        Ok((data, behind)) => Ok(data),
    }
}

/// The order of the code length symbols names each of the 19 symbols.
pub proof fn lemma_code_length_order()
    ensures
        code_length_order().len() == 19,
        forall|k: int| 0 <= k < 19 ==> #[trigger] code_length_order()[k] < 19,
{
    let order = code_length_order();
    assert forall|k: int| 0 <= k < 19 implies #[trigger] order[k] < 19 by {
        if k == 0 {
        } else if k == 1 {
        } else if k == 2 {
        } else if k == 3 {
        } else if k == 4 {
        } else if k == 5 {
        } else if k == 6 {
        } else if k == 7 {
        } else if k == 8 {
        } else if k == 9 {
        } else if k == 10 {
        } else if k == 11 {
        } else if k == 12 {
        } else if k == 13 {
        } else if k == 14 {
        } else if k == 15 {
        } else if k == 16 {
        } else if k == 17 {
        } else {
        }
    }
}

} // verus!
