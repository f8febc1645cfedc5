//! The fixed Huffman encoder: code conversions and the bit writer that turns
//! literals and matches into a block of the compressed stream.

use vstd::prelude::*;
use vstd::arithmetic::power2::pow2;
use vstd::arithmetic::power2::lemma2_to64;
use crate::bits::bit_of_u16;
use crate::bits::byte_chunk;
use crate::bits::lsb_bits;
use crate::bits::lsb_value;
use crate::bits::msb_bits;
use crate::bits::pack_bits;
use crate::bits::padding_len;
use crate::bits::zero_bits;
use crate::bits::lemma_lsb_value_bound;
use crate::bits::lemma_lsb_value_push;
use crate::codes::distance_base;
use crate::codes::distance_bits;
use crate::codes::distance_extra_bits;
use crate::codes::distance_symbol;
use crate::codes::distance_symbol_from;
use crate::codes::end_of_block_bits;
use crate::codes::fixed_header_bits;
use crate::codes::length_base;
use crate::codes::length_bits;
use crate::codes::length_extra_bits;
use crate::codes::length_symbol;
use crate::codes::length_symbol_code;
use crate::codes::length_symbol_code_len;
use crate::codes::literal_bits;
use crate::codes::literal_code;
use crate::codes::literal_code_len;
use crate::codes::fixed_block_bits;
use crate::codes::token_bits;
use crate::codes::tokens_bits;
use crate::codes::Token;
use crate::lz77::matcher_tokens;
use crate::lz77::TokenSink;
use crate::lz77::LZ77;
use crate::codes::lemma_distance_ranges;
use crate::codes::lemma_distance_symbol;
use crate::codes::lemma_length_symbol;
use crate::bits::lemma_pow2_values;

verus! {

/// The fixed Huffman code word of a literal byte.
pub fn convert_to_fixed_huffman_code(real_value: u8) -> (code: u16)
    ensures
        code == literal_code(real_value),
{
    let real_value: u16 = real_value as u16;
    if real_value < 144 {
        real_value + 48
    } else {
        real_value + 256
    }
}

/// The length symbol of a match length, the number of its extra bits, and the
/// value that the extra bits hold: the length's offset within the symbol's range.
pub fn convert_length_to_fixed_huffman_code(real_value: u16) -> (r: (u16, u16, u16))
    requires
        3 <= real_value <= 258,
    ensures
        r.0 == length_symbol(real_value as int),
        r.1 == length_extra_bits(r.0 as int),
        r.2 == real_value - length_base(r.0 as int),
        257 <= r.0 <= 285,
        r.1 <= 5,
        r.2 < pow2(r.1 as nat),
{
    proof {
        lemma_length_symbol(real_value as int);
    }
    if real_value < 11 {
        (real_value - 3 + 257, 0, 0)
    } else if real_value < 19 {
        let code_value: u16 = (real_value - 11) / 2 + 265;
        (code_value, 1, (real_value + 1) % 2)
    } else if real_value < 35 {
        let code_value: u16 = (real_value - 19) / 4 + 269;
        (code_value, 2, (real_value - 19) % 4)
    } else if real_value < 67 {
        let code_value: u16 = (real_value - 35) / 8 + 273;
        (code_value, 3, (real_value - 35) % 8)
    } else if real_value < 131 {
        let code_value: u16 = (real_value - 67) / 16 + 277;
        (code_value, 4, (real_value - 67) % 16)
    } else if real_value < 258 {
        let code_value: u16 = (real_value - 131) / 32 + 281;
        (code_value, 5, (real_value - 131) % 32)
    } else {
        (285, 0, 0)
    }
}

/// The fixed Huffman code word of a symbol from 256 to 287.
pub fn convert_length_to_fixed_huffman_code_step_2(code_value: u16) -> (code: u16)
    requires
        256 <= code_value <= 287,
    ensures
        code == length_symbol_code(code_value as int),
{
    if code_value < 280 {
        code_value - 256
    } else {
        code_value - 88
    }
}

/// The distance code of a match distance, the number of its extra bits, and
/// the value that the extra bits hold: the distance's offset within the code's
/// range.
pub fn convert_distance_to_fixed_huffman_code(real_value: u16) -> (r: (u16, u16, u16))
    requires
        1 <= real_value <= 32768,
    ensures
        r.0 == distance_symbol(real_value as int),
        r.1 == distance_extra_bits(r.0 as int),
        r.2 == real_value - distance_base(r.0 as int),
        r.0 <= 29,
        r.1 <= 13,
        r.2 < pow2(r.1 as nat),
{
    if real_value < 5 {
        proof {
            lemma_pow2_values(0);
            lemma_pow2_values(1);
            lemma_pow2_values(2);
            reveal_with_fuel(distance_symbol_from, 5);
        }
        return (real_value - 1, 0, 0);
    }
    let mut code: u16 = 4;
    let mut base: u32 = 5;
    let mut extra: u32 = 1;
    let mut span: u32 = 2;
    proof {
        lemma_pow2_values(0);
        lemma_pow2_values(1);
        lemma_pow2_values(2);
        reveal_with_fuel(distance_symbol_from, 5);
        lemma_distance_ranges(4);
    }
    while code < 29 && base + span <= real_value as u32
        invariant
            span <= 8192,
            4 <= code <= 29,
            base == distance_base(code as int),
            extra == distance_extra_bits(code as int),
            span == pow2(extra as nat),
            extra <= 13,
            base <= real_value <= 32768,
            distance_symbol(real_value as int) == distance_symbol_from(
                real_value as int,
                code as int,
            ),
        decreases 29 - code,
    {
        proof {
            lemma_distance_ranges(code as int);
            lemma_distance_ranges(code as int + 1);
            lemma_pow2_values(extra as nat);
            lemma_pow2_values((extra + 1) as nat);
        }
        base = base + span;
        code = code + 1;
        if code % 2 == 0 {
            extra = extra + 1;
            span = span * 2;
        }
    }
    proof {
        lemma_distance_ranges(code as int);
        lemma_distance_symbol(real_value as int);
    }
    (code, extra as u16, (real_value as u32 - base) as u16)
}

/// The number of bits of a literal byte's fixed code word.
pub fn get_fixed_huffman_code_length(real_value: u8) -> (count: u8)
    ensures
        count == literal_code_len(real_value),
{
    if real_value < 144 {
        8
    } else {
        9
    }
}

/// The number of bits of the fixed code word of a symbol from 256 to 287.
pub fn get_fixed_huffman_code_length_for_u16(code_value: u16) -> (count: u8)
    ensures
        count == length_symbol_code_len(code_value as int),
{
    if code_value < 280 {
        7
    } else {
        8
    }
}

/// A growing sequence of bits, and the bytes that they have been packed into.
pub struct BitWriter {
    buffer: Vec<u8>,
    vec_bool: Vec<bool>,
}

impl BitWriter {
    /// The bits written so far, in stream order.
    pub closed spec fn bits(&self) -> Seq<bool> {
        self.vec_bool@
    }

    /// The bytes packed so far.
    pub closed spec fn bytes(&self) -> Seq<u8> {
        self.buffer@
    }

    /// A writer that holds no bits and no bytes.
    pub fn new() -> (w: Self)
        ensures
            w.bits() == Seq::<bool>::empty(),
            w.bytes() == Seq::<u8>::empty(),
    {
        BitWriter { buffer: Vec::new(), vec_bool: Vec::new() }
    }

    /// Appends the header of a final block with fixed Huffman codes.
    pub fn write_header(&mut self)
        ensures
            final(self).bits() == old(self).bits() + fixed_header_bits(),
            final(self).bytes() == old(self).bytes(),
    {
        self.vec_bool.push(true);
        self.vec_bool.push(true);
        self.vec_bool.push(false);
        assert(self.vec_bool@ =~= old(self).vec_bool@ + fixed_header_bits());
    }

    /// Appends the low `count` bits of `value`: least significant bit first
    /// if `reverse` is set, most significant bit first if not.
    pub fn write_single_general(&mut self, value: u16, count: u8, reverse: bool)
        requires
            count <= 16,
        ensures
            final(self).bits() == old(self).bits() + (if reverse {
                lsb_bits(value as nat, count as nat)
            } else {
                msb_bits(value as nat, count as nat)
            }),
            final(self).bytes() == old(self).bytes(),
    {
        let ghost want = if reverse {
            lsb_bits(value as nat, count as nat)
        } else {
            msb_bits(value as nat, count as nat)
        };
        let mut i: u8 = 0;
        while i < count
            invariant
                i <= count <= 16,
                self.buffer@ == old(self).buffer@,
                self.vec_bool@ == old(self).vec_bool@ + want.take(i as int),
                want.len() == count,
                want == if reverse {
                    lsb_bits(value as nat, count as nat)
                } else {
                    msb_bits(value as nat, count as nat)
                },
            decreases count - i,
        {
            let k: u8 = if reverse {
                i
            } else {
                count - i - 1
            };
            let bit = bit_of_u16(value, k as u16);
            self.vec_bool.push(bit);
            i = i + 1;
            assert(self.vec_bool@ =~= old(self).vec_bool@ + want.take(i as int));
        }
        assert(want.take(count as int) =~= want);
    }

    /// Appends the fixed Huffman code word of a literal byte.
    pub fn write_single_literal(&mut self, value: u8)
        ensures
            final(self).bits() == old(self).bits() + literal_bits(value),
            final(self).bytes() == old(self).bytes(),
    {
        let count: u8 = get_fixed_huffman_code_length(value);
        let huffman_code = convert_to_fixed_huffman_code(value);
        self.write_single_general(huffman_code, count, false)
    }

    /// Appends a match length: the fixed code word of its symbol, then its
    /// extra bits, least significant first.
    pub fn write_length(&mut self, length_value: u16)
        requires
            3 <= length_value <= 258,
        ensures
            final(self).bits() == old(self).bits() + length_bits(length_value as int),
            final(self).bytes() == old(self).bytes(),
    {
        let (code_value, extra_bits, extra_value) = convert_length_to_fixed_huffman_code(
            length_value,
        );
        let count = get_fixed_huffman_code_length_for_u16(code_value);
        let huffman_code = convert_length_to_fixed_huffman_code_step_2(code_value);
        self.write_single_general(huffman_code, count, false);
        if extra_bits != 0 {
            self.write_single_general(extra_value, extra_bits as u8, true);
        }
        assert(self.vec_bool@ =~= old(self).vec_bool@ + length_bits(length_value as int));
    }

    /// Appends a match distance: its code as five bits, most significant
    /// first, then its extra bits, least significant first.
    pub fn write_distance(&mut self, distance_value: u16)
        requires
            1 <= distance_value <= 32768,
        ensures
            final(self).bits() == old(self).bits() + distance_bits(distance_value as int),
            final(self).bytes() == old(self).bytes(),
    {
        let count: u8 = 5;
        let (code_value, extra_bits, extra_value) = convert_distance_to_fixed_huffman_code(
            distance_value,
        );
        self.write_single_general(code_value, count, false);
        if extra_bits != 0 {
            self.write_single_general(extra_value, extra_bits as u8, true);
        }
        assert(self.vec_bool@ =~= old(self).vec_bool@ + distance_bits(distance_value as int));
    }

    /// Appends the symbol that ends a block: seven clear bits.
    pub fn write_eob(&mut self)
        ensures
            final(self).bits() == old(self).bits() + end_of_block_bits(),
            final(self).bytes() == old(self).bytes(),
    {
        let mut i: usize = 0;
        while i < 7
            invariant
                i <= 7,
                self.buffer@ == old(self).buffer@,
                self.vec_bool@ == old(self).vec_bool@ + zero_bits(i as nat),
            decreases 7 - i,
        {
            self.vec_bool.push(false);
            i = i + 1;
            assert(self.vec_bool@ =~= old(self).vec_bool@ + zero_bits(i as nat));
        }
    }

    /// Appends clear bits until the number of bits is a multiple of eight.
    pub fn align_to_byte(&mut self)
        ensures
            final(self).bits() == old(self).bits() + zero_bits(padding_len(old(self).bits().len())),
            final(self).bits().len() % 8 == 0,
            final(self).bytes() == old(self).bytes(),
    {
        let rest: usize = self.vec_bool.len() % 8;
        if rest != 0 {
            let mut count: usize = rest;
            while count < 8
                invariant
                    rest <= count <= 8,
                    rest == old(self).vec_bool@.len() % 8,
                    self.buffer@ == old(self).buffer@,
                    self.vec_bool@ == old(self).vec_bool@ + zero_bits((count - rest) as nat),
                decreases 8 - count,
            {
                self.vec_bool.push(false);
                count = count + 1;
                assert(self.vec_bool@ =~= old(self).vec_bool@ + zero_bits((count - rest) as nat));
            }
        } else {
            assert(self.vec_bool@ =~= old(self).vec_bool@ + zero_bits(0));
        }
    }

    /// Packs all the bits written so far into bytes, least significant bit
    /// first, and appends the bytes to those packed before.
    pub fn write_bitstream_buffer_little_endian(&mut self)
        ensures
            final(self).bits() == old(self).bits(),
            final(self).bytes() == old(self).bytes() + pack_bits(old(self).bits()),
    {
        let ghost bits = self.vec_bool@;
        let mut byte: u8 = 0;
        let mut count: u8 = 0;
        let mut weight: u16 = 1;
        let mut i: usize = 0;
        let n = self.vec_bool.len();
        proof {
            lemma2_to64();
            assert(bits.subrange(0, 0) =~= Seq::<bool>::empty());
        }
        while i < n
            invariant
                i <= n == bits.len(),
                self.vec_bool@ == bits,
                count < 8,
                count == i % 8,
                weight == pow2(count as nat),
                byte == lsb_value(bits.subrange(i - count, i as int)),
                self.buffer@.len() == old(self).buffer@.len() + i / 8,
                self.buffer@ == old(self).buffer@ + pack_bits(bits).take((i / 8) as int),
            decreases n - i,
        {
            let bit = self.vec_bool[i];
            proof {
                let part = bits.subrange(i - count, i as int);
                lemma_lsb_value_push(part, bit);
                lemma_lsb_value_bound(part.push(bit));
                assert(part.push(bit) =~= bits.subrange(i - count, i + 1));
                lemma_pow2_values(count as nat);
                lemma_pow2_values((count + 1) as nat);
                lemma_pow2_values(0);
            }
            if bit {
                byte = byte + (weight as u8);
            }
            count = count + 1;
            weight = weight * 2;
            i = i + 1;
            if count == 8 {
                proof {
                    let k = (i / 8 - 1) as int;
                    assert(byte_chunk(bits, k) =~= bits.subrange(i - 8, i as int));
                    assert(pack_bits(bits)[k] == byte);
                    assert(pack_bits(bits).take(k + 1) =~= pack_bits(bits).take(k).push(byte));
                }
                self.buffer.push(byte);
                byte = 0;
                count = 0;
                weight = 1;
                proof {
                    assert(bits.subrange(i as int, i as int) =~= Seq::<bool>::empty());
                }
            }
        }
        if count != 0 {
            proof {
                let k = (i / 8) as int;
                assert(byte_chunk(bits, k) =~= bits.subrange(i - count, i as int));
                assert(pack_bits(bits)[k] == byte);
                assert(pack_bits(bits) =~= pack_bits(bits).take(k).push(byte));
            }
            self.buffer.push(byte);
        } else {
            assert(pack_bits(bits).take((i / 8) as int) =~= pack_bits(bits));
        }
    }

    /// Appends one final fixed Huffman block that holds `data`, fills the bits
    /// up to whole bytes, and packs all the bits written so far into bytes:
    /// the header, the tokens that the matcher finds in `data` with a window
    /// of 32768 bytes and a lookahead of 258, and the end of the block.
    pub fn write_bitstream_fixed_huffman(&mut self, data: &Vec<u8>)
        ensures
            final(self).bits() == byte_aligned(
                old(self).bits() + fixed_block_bits(matcher_tokens(data@, 32768, 258)),
            ),
            final(self).bytes() == old(self).bytes() + pack_bits(final(self).bits()),
    {
        let mut matcher = LZ77::new(32768, 258);
        self.write_header();
        let ghost opened = *self;
        matcher.compress(data.as_slice(), self);
        self.write_eob();
        proof {
            let tokens = matcher_tokens(data@, 32768, 258);
            assert(self.bits() =~= old(self).bits() + fixed_block_bits(tokens));
        }
        self.align_to_byte();
        self.write_bitstream_buffer_little_endian();
    }

    /// Gives up the writer for the bytes packed so far.
    pub fn into_buffer(self) -> (buffer: Vec<u8>)
        ensures
            buffer@ == self.bytes(),
    {
        self.buffer
    }

    /// The bytes packed so far.
    pub fn get_buffer(&self) -> (buffer: &Vec<u8>)
        ensures
            buffer@ == self.bytes(),
    {
        &self.buffer
    }

    /// The bits written so far.
    pub fn get_vec_bool(&self) -> (bits: &Vec<bool>)
        ensures
            bits@ == self.bits(),
    {
        &self.vec_bool
    }
}


/// `bits`, filled up with clear bits to a whole number of bytes.
pub open spec fn byte_aligned(bits: Seq<bool>) -> Seq<bool> {
    bits + zero_bits(padding_len(bits.len()))
}

/// The bits of a single token.
pub proof fn lemma_tokens_bits_one(t: Token)
    ensures
        tokens_bits(seq![t]) == token_bits(t),
{
    assert(seq![t].drop_last() =~= Seq::<Token>::empty());
    assert(tokens_bits(seq![t].drop_last()) =~= Seq::<bool>::empty());
    assert(seq![t].last() == t);
    assert(tokens_bits(seq![t]) =~= token_bits(t));
}

impl TokenSink for BitWriter {
    open spec fn received(&self, before: &Self, tokens: Seq<Token>) -> bool {
        self.bits() == before.bits() + tokens_bits(tokens) && self.bytes() == before.bytes()
    }

    proof fn lemma_received_none(&self) {
        assert(self.bits() =~= self.bits() + tokens_bits(Seq::empty()));
    }

    proof fn lemma_received_more(
        &self,
        mid: &Self,
        before: &Self,
        first: Seq<Token>,
        t: Token,
    ) {
        assert(first.push(t).drop_last() =~= first);
        lemma_tokens_bits_one(t);
        assert(self.bits() =~= before.bits() + tokens_bits(first.push(t)));
    }

    fn emit_literal(&mut self, byte: u8) {
        self.write_single_literal(byte);
        proof {
            lemma_tokens_bits_one(Token::Literal(byte));
        }
    }

    fn emit_match(&mut self, length: usize, distance: usize) {
        self.write_length(length as u16);
        self.write_distance(distance as u16);
        proof {
            let t = Token::Match { length: length as int, distance: distance as int };
            lemma_tokens_bits_one(t);
            assert(self.bits() =~= old(self).bits() + token_bits(t));
        }
    }
}

} // verus!
