//! The code tables of the format: literal/length symbols, their fixed Huffman
//! code words, length and distance ranges with their extra bits, and the bits
//! that stand for a token.

use vstd::prelude::*;
use vstd::arithmetic::power2::pow2;
use crate::bits::lsb_bits;
use crate::bits::msb_bits;
use crate::bits::zero_bits;
use crate::bits::lemma_pow2_values;

verus! {

/// One step of the compressed data: a byte as it is, or a copy of `length`
/// bytes that starts `distance` bytes back in what has been produced so far.
pub enum Token {
    Literal(u8),
    Match { length: int, distance: int },
}

/// A token that the format can hold: a literal, or a match of 3 to 258 bytes
/// at a distance of 1 to 32768.
pub open spec fn token_valid(t: Token) -> bool {
    match t {
        Token::Literal(_) => true,
        Token::Match { length, distance } => 3 <= length <= 258 && 1 <= distance <= 32768,
    }
}

/// Every token of `tokens` is one that the format can hold.
pub open spec fn tokens_valid(tokens: Seq<Token>) -> bool {
    forall|k: int| 0 <= k < tokens.len() ==> token_valid(#[trigger] tokens[k])
}

/// `out` followed by `length` bytes copied one at a time from `distance` bytes
/// back, so that a byte written by the copy can be read by it again; `out`
/// itself where the distance reaches back beyond its start.
pub open spec fn copy_back(out: Seq<u8>, length: nat, distance: int) -> Seq<u8>
    decreases length,
{
    if length == 0 || distance < 1 || distance > out.len() {
        out
    } else {
        copy_back(out.push(out[out.len() - distance]), (length - 1) as nat, distance)
    }
}

/// `out` after one token.
pub open spec fn apply_token(out: Seq<u8>, t: Token) -> Seq<u8> {
    match t {
        Token::Literal(b) => out.push(b),
        Token::Match { length, distance } => copy_back(out, length as nat, distance),
    }
}

/// `out` after the tokens of `tokens`, in order.
pub open spec fn apply_tokens(out: Seq<u8>, tokens: Seq<Token>) -> Seq<u8>
    decreases tokens.len(),
{
    if tokens.len() == 0 {
        out
    } else {
        apply_token(apply_tokens(out, tokens.drop_last()), tokens.last())
    }
}

/// Every match of `tokens`, applied in order to `out`, reaches back no
/// further than the output goes at that point.
pub open spec fn tokens_reach(out: Seq<u8>, tokens: Seq<Token>) -> bool
    decreases tokens.len(),
{
    tokens.len() == 0 || (tokens_reach(out, tokens.drop_last()) && match tokens.last() {
        Token::Literal(_) => true,
        Token::Match { length, distance } => 1 <= distance <= apply_tokens(
            out,
            tokens.drop_last(),
        ).len(),
    })
}

/// The fixed Huffman code word of a literal byte: 48 to 191 for the bytes 0 to
/// 143, 400 to 511 for the bytes 144 to 255.
pub open spec fn literal_code(v: u8) -> nat {
    if v < 144 {
        (v + 48) as nat
    } else {
        (v + 256) as nat
    }
}

/// The number of bits of a literal byte's fixed code word.
pub open spec fn literal_code_len(v: u8) -> nat {
    if v < 144 {
        8
    } else {
        9
    }
}

/// The fixed Huffman code word of a symbol from 256 to 287.
pub open spec fn length_symbol_code(sym: int) -> nat {
    if sym < 280 {
        (sym - 256) as nat
    } else {
        (sym - 88) as nat
    }
}

/// The number of bits of the fixed code word of a symbol from 256 to 287.
pub open spec fn length_symbol_code_len(sym: int) -> nat {
    if sym < 280 {
        7
    } else {
        8
    }
}

/// The number of extra bits that follow the length symbol `sym` (257 to 285).
pub open spec fn length_extra_bits(sym: int) -> nat {
    if sym < 265 {
        0
    } else if sym < 269 {
        1
    } else if sym < 273 {
        2
    } else if sym < 277 {
        3
    } else if sym < 281 {
        4
    } else if sym < 285 {
        5
    } else {
        0
    }
}

/// The shortest length that the length symbol `sym` (257 to 285) stands for.
pub open spec fn length_base(sym: int) -> int {
    if sym < 265 {
        sym - 254
    } else if sym < 269 {
        2 * (sym - 265) + 11
    } else if sym < 273 {
        4 * (sym - 269) + 19
    } else if sym < 277 {
        8 * (sym - 273) + 35
    } else if sym < 281 {
        16 * (sym - 277) + 67
    } else if sym < 285 {
        32 * (sym - 281) + 131
    } else {
        258
    }
}

/// The length symbol for a match of `len` bytes (3 to 258).
pub open spec fn length_symbol(len: int) -> int {
    if len < 11 {
        len + 254
    } else if len < 19 {
        (len - 11) / 2 + 265
    } else if len < 35 {
        (len - 19) / 4 + 269
    } else if len < 67 {
        (len - 35) / 8 + 273
    } else if len < 131 {
        (len - 67) / 16 + 277
    } else if len < 258 {
        (len - 131) / 32 + 281
    } else {
        285
    }
}

/// The number of extra bits that follow the distance code `code` (0 to 29).
pub open spec fn distance_extra_bits(code: int) -> nat {
    if code < 4 {
        0
    } else {
        (code / 2 - 1) as nat
    }
}

/// The smallest distance that the distance code `code` (0 to 29) stands for.
pub open spec fn distance_base(code: int) -> int {
    if code < 4 {
        code + 1
    } else if code % 2 == 0 {
        pow2((code / 2) as nat) as int + 1
    } else {
        pow2((code / 2) as nat) as int + pow2((code / 2 - 1) as nat) as int + 1
    }
}

/// The largest code from `code` to 29 whose range starts at or below `d`.
pub open spec fn distance_symbol_from(d: int, code: int) -> int
    decreases 29 - code,
{
    if code >= 29 || d < distance_base(code + 1) {
        code
    } else {
        distance_symbol_from(d, code + 1)
    }
}

/// The distance code for the distance `d` (1 to 32768): the largest code whose
/// range starts at or below `d`.
pub open spec fn distance_symbol(d: int) -> int {
    distance_symbol_from(d, 0)
}

/// The bits of a literal byte in a fixed Huffman block.
pub open spec fn literal_bits(v: u8) -> Seq<bool> {
    msb_bits(literal_code(v), literal_code_len(v))
}

/// The bits of a match length in a fixed Huffman block: the code word of its
/// symbol, then the offset within the symbol's range as extra bits.
pub open spec fn length_bits(len: int) -> Seq<bool> {
    let sym = length_symbol(len);
    msb_bits(length_symbol_code(sym), length_symbol_code_len(sym)) + lsb_bits(
        (len - length_base(sym)) as nat,
        length_extra_bits(sym),
    )
}

/// The bits of a match distance in a fixed Huffman block: the code as five
/// bits, then the offset within the code's range as extra bits.
pub open spec fn distance_bits(d: int) -> Seq<bool> {
    let code = distance_symbol(d);
    msb_bits(code as nat, 5) + lsb_bits((d - distance_base(code)) as nat, distance_extra_bits(code))
}

/// The bits of one token in a fixed Huffman block.
pub open spec fn token_bits(t: Token) -> Seq<bool> {
    match t {
        Token::Literal(b) => literal_bits(b),
        Token::Match { length, distance } => length_bits(length) + distance_bits(distance),
    }
}

/// The bits of a run of tokens in a fixed Huffman block.
pub open spec fn tokens_bits(tokens: Seq<Token>) -> Seq<bool>
    decreases tokens.len(),
{
    if tokens.len() == 0 {
        Seq::empty()
    } else {
        tokens_bits(tokens.drop_last()) + token_bits(tokens.last())
    }
}

/// The three bits that open a final block with fixed Huffman codes.
pub open spec fn fixed_header_bits() -> Seq<bool> {
    seq![true, true, false]
}

/// The bits of the symbol that ends a fixed Huffman block.
pub open spec fn end_of_block_bits() -> Seq<bool> {
    zero_bits(7)
}

/// A complete stream of one final fixed Huffman block that holds `tokens`.
pub open spec fn fixed_block_bits(tokens: Seq<Token>) -> Seq<bool> {
    fixed_header_bits() + tokens_bits(tokens) + end_of_block_bits()
}

/// A copy only adds to the output: `length` bytes where the distance is
/// within the output.
pub proof fn lemma_copy_back_extends(out: Seq<u8>, length: nat, distance: int)
    requires
        1 <= distance <= out.len(),
    ensures
        copy_back(out, length, distance).len() == out.len() + length,
        copy_back(out, length, distance).take(out.len() as int) == out,
    decreases length,
{
    if length == 0 {
        assert(out.take(out.len() as int) =~= out);
    } else {
        let more = out.push(out[out.len() - distance]);
        lemma_copy_back_extends(more, (length - 1) as nat, distance);
        let all = copy_back(out, length, distance);
        assert(all.take(out.len() as int) =~= all.take(more.len() as int).take(out.len() as int));
        assert(more.take(out.len() as int) =~= out);
    }
}

/// A copy repeats the output with the period of its distance: each byte that
/// it adds is the byte that stands `distance` places before it. At distance 1
/// the copy repeats the last byte.
pub proof fn lemma_copy_back_period(out: Seq<u8>, length: nat, distance: int, k: int)
    requires
        1 <= distance <= out.len(),
        0 <= k < length,
    ensures
        copy_back(out, length, distance)[out.len() + k] == copy_back(
            out,
            length,
            distance,
        )[out.len() + k - distance],
    decreases length,
{
    let more = out.push(out[out.len() - distance]);
    let all = copy_back(out, length, distance);
    lemma_copy_back_extends(more, (length - 1) as nat, distance);
    if k == 0 {
        assert(all.take(more.len() as int)[out.len() as int] == all[out.len() as int]);
        assert(all.take(more.len() as int)[out.len() - distance] == all[out.len() - distance]);
    } else {
        lemma_copy_back_period(more, (length - 1) as nat, distance, k - 1);
    }
}

/// The ranges of the distance codes, one after the other: each starts where
/// the one before it ends, the first at 1, and the last ends at 32768.
pub proof fn lemma_distance_ranges(code: int)
    requires
        0 <= code <= 29,
    ensures
        distance_extra_bits(code) <= 13,
        1 <= distance_base(code) <= 24577,
        code < 29 ==> distance_base(code + 1) == distance_base(code) + pow2(
            distance_extra_bits(code),
        ),
        code == 29 ==> distance_base(code) + pow2(distance_extra_bits(code)) == 32769,
{
    if code >= 4 {
        lemma_pow2_values((code / 2) as nat);
        lemma_pow2_values((code / 2 - 1) as nat);
        lemma_pow2_values((code / 2 + 1) as nat);
    } else {
        lemma_pow2_values(0);
        lemma_pow2_values(1);
        lemma_pow2_values(2);
    }
}

/// The code of a distance from 1 to 32768 lies in 0 to 29, and the distance
/// lies in that code's range.
pub proof fn lemma_distance_symbol(d: int)
    requires
        1 <= d <= 32768,
    ensures
        0 <= distance_symbol(d) <= 29,
        distance_base(distance_symbol(d)) <= d < distance_base(distance_symbol(d)) + pow2(
            distance_extra_bits(distance_symbol(d)),
        ),
{
    lemma_distance_symbol_from(d, 0);
}

/// The search for a distance's code, started at a code whose range starts at
/// or below the distance, ends at the code whose range holds it.
pub proof fn lemma_distance_symbol_from(d: int, code: int)
    requires
        0 <= code <= 29,
        distance_base(code) <= d <= 32768,
    ensures
        code <= distance_symbol_from(d, code) <= 29,
        distance_base(distance_symbol_from(d, code)) <= d < distance_base(
            distance_symbol_from(d, code),
        ) + pow2(distance_extra_bits(distance_symbol_from(d, code))),
    decreases 29 - code,
{
    lemma_distance_ranges(code);
    if code >= 29 || d < distance_base(code + 1) {
    } else {
        lemma_distance_symbol_from(d, code + 1);
    }
}

/// The symbol of a length from 3 to 258 lies in 257 to 285, and the length
/// lies in that symbol's range.
pub proof fn lemma_length_symbol(len: int)
    requires
        3 <= len <= 258,
    ensures
        257 <= length_symbol(len) <= 285,
        length_extra_bits(length_symbol(len)) <= 5,
        length_base(length_symbol(len)) <= len < length_base(length_symbol(len)) + pow2(
            length_extra_bits(length_symbol(len)),
        ),
{
    lemma_pow2_values(length_extra_bits(length_symbol(len)));
}

} // verus!
