//! The decoder: a reader of bit fields over a byte string, and on top of it
//! the reading of blocks with fixed and with dynamic Huffman codes.

use std::collections::HashMap;
use vstd::prelude::*;
use vstd::arithmetic::power2::pow2;
use crate::bits::bit_of_u16;
use crate::bits::bits_of_bytes;
use crate::bits::bit_weight;
use crate::bits::lemma_lsb_value_push;
use crate::bits::lemma_msb_value_bound;
use crate::bits::lemma_msb_value_push;
use crate::bits::lemma_value_of_one_bit;
use crate::stream::lemma_code_length_order;
use crate::bits::lemma_pow2_values;
use crate::codes::copy_back;
use crate::codes::lemma_distance_ranges;
use crate::huffman::check_code_lengths;
use crate::huffman::generate_no_zero_lengths_and_alphabets;
use crate::huffman::get_mapping_from_canonical_huffman_lengths;
use crate::huffman::table_view;
use crate::stream::bits_at;
use crate::stream::block_body;
use crate::stream::code_length_code_lengths;
use crate::stream::code_length_order;
use crate::stream::code_lengths_from;
use crate::stream::dynamic_block;
use crate::stream::field_at;
use crate::stream::fixed_conversion;
use crate::stream::fixed_symbol;
use crate::stream::fixed_symbol_from;
use crate::stream::lengths_accepted;
use crate::stream::match_at;
use crate::stream::match_distance_at;
use crate::stream::match_length_at;
use crate::stream::one_block;
use crate::stream::repeated;
use crate::stream::stream_blocks;
use crate::stream::table_of_lengths;
use crate::stream::table_symbol;
use crate::stream::table_symbol_from;
use crate::stream::Coding;
use crate::stream::DecodeError;

verus! {

broadcast use vstd::std_specs::hash::group_hash_axioms;

/// The symbol that `count` bits of value `value_from_binary` stand for in the
/// fixed Huffman code, where they are a code word of it, and 300 where not.
pub fn check_valid_conversion(count: u8, value_from_binary: u16) -> (symbol: u16)
    ensures
        symbol == fixed_conversion(count as int, value_from_binary as int),
{
    if count == 7 && value_from_binary <= 23 {
        value_from_binary + 256
    } else if count == 8 {
        if value_from_binary >= 48 && value_from_binary <= 191 {
            value_from_binary - 48
        } else if value_from_binary >= 192 && value_from_binary <= 199 {
            value_from_binary + 88
        } else {
            300
        }
    } else if count == 9 && value_from_binary >= 400 && value_from_binary <= 511 {
        value_from_binary - 256
    } else {
        300
    }
}

/// `got` is the value of `want`, and `cursor` the position behind it; or both
/// are the same error.
pub open spec fn read_agrees(
    got: Result<u16, DecodeError>,
    cursor: int,
    want: Result<(int, int), DecodeError>,
) -> bool {
    match want {
        Ok((value, behind)) => got == Ok::<u16, DecodeError>(value as u16) && value == value as u16
            && cursor == behind,
        Err(e) => got == Err::<u16, DecodeError>(e),
    }
}

/// A cursor over the bits of a byte string, and the output decoded so far.
pub struct BitReader<'a> {
    data: &'a [u8],
    position: usize,
    vec_bool: Vec<bool>,
    resulted_bytes: Vec<u8>,
}

impl<'a> BitReader<'a> {
    /// The byte string that is read.
    pub closed spec fn data(&self) -> Seq<u8> {
        self.data@
    }

    /// The bits of the byte string, in stream order.
    pub closed spec fn bits(&self) -> Seq<bool> {
        self.vec_bool@
    }

    /// The index of the next bit to read.
    pub closed spec fn cursor(&self) -> int {
        self.position as int
    }

    /// The output decoded so far and not yet handed out.
    pub closed spec fn output(&self) -> Seq<u8> {
        self.resulted_bytes@
    }

    /// The reader holds the bits of its byte string, and its cursor is within
    /// them or at their end.
    pub open spec fn wf(&self) -> bool {
        &&& self.bits() == bits_of_bytes(self.data())
        &&& 0 <= self.cursor() <= self.bits().len()
    }

    /// `self` reads the same byte string as `other`.
    pub open spec fn same_input(&self, other: &Self) -> bool {
        self.data() == other.data() && self.bits() == other.bits()
    }

    /// A reader at the start of `data`, with no output.
    pub fn new(data: &'a [u8]) -> (reader: Self)
        requires
            data@.len() * 8 <= usize::MAX,
        ensures
            reader.wf(),
            reader.data() == data@,
            reader.bits() == bits_of_bytes(data@),
            reader.cursor() == 0,
            reader.output() == Seq::<u8>::empty(),
    {
        let mut bitreader = BitReader {
            data,
            position: 0,
            vec_bool: Vec::new(),
            resulted_bytes: Vec::new(),
        };
        bitreader.get_vec_bool();
        bitreader
    }

    /// Unpacks the byte string into its bits anew.
    pub fn get_vec_bool(&mut self)
        requires
            old(self).data().len() * 8 <= usize::MAX,
        ensures
            final(self).data() == old(self).data(),
            final(self).bits() == bits_of_bytes(old(self).data()),
            final(self).cursor() == old(self).cursor(),
            final(self).output() == old(self).output(),
    {
        let size: usize = self.data.len() * 8;
        let mut result: Vec<bool> = Vec::new();
        let mut i: usize = 0;
        while i < size
            invariant
                i <= size == self.data@.len() * 8,
                result@ == bits_of_bytes(self.data@).take(i as int),
            decreases size - i,
        {
            let byte_index = i / 8;
            let bit_index = i % 8;
            let bit = bit_of_u16(self.data[byte_index] as u16, bit_index as u16);
            result.push(bit);
            i = i + 1;
            assert(result@ =~= bits_of_bytes(self.data@).take(i as int));
        }
        assert(bits_of_bytes(self.data@).take(size as int) =~= bits_of_bytes(self.data@));
        self.vec_bool = result;
    }

    /// The index of the next bit to read.
    pub fn position(&self) -> (index: usize)
        ensures
            index == self.cursor(),
    {
        self.position
    }

    /// Moves the cursor back by `count` bits.
    pub fn rewind(&mut self, count: usize)
        requires
            count <= old(self).cursor(),
        ensures
            final(self).cursor() == old(self).cursor() - count,
            final(self).same_input(old(self)),
            final(self).output() == old(self).output(),
            old(self).wf() ==> final(self).wf(),
    {
        self.position = self.position - count;
    }

    /// Reads `count` bits as an integer, least significant bit first if
    /// `reverse` is set and most significant bit first if not, and moves the
    /// cursor behind them. Where fewer than `count` bits are left it fails
    /// with `EndOfInput` and leaves the cursor where it is.
    pub fn read_bits(&mut self, count: u8, reverse: bool) -> (r: Result<u16, DecodeError>)
        requires
            old(self).wf(),
            1 <= count <= 16,
        ensures
            final(self).wf(),
            final(self).same_input(old(self)),
            final(self).output() == old(self).output(),
            old(self).cursor() + count <= old(self).bits().len() ==> r == Ok::<u16, DecodeError>(
                field_at(old(self).bits(), old(self).cursor(), count as int, reverse) as u16,
            ) && final(self).cursor() == old(self).cursor() + count,
            old(self).cursor() + count > old(self).bits().len() ==> r == Err::<u16, DecodeError>(
                DecodeError::EndOfInput,
            ) && final(self).cursor() == old(self).cursor(),
            r is Ok ==> field_at(old(self).bits(), old(self).cursor(), count as int, reverse)
                < pow2(count as nat),
    {
        let count: usize = count as usize;
        if count > self.vec_bool.len() - self.position {
            return Err(DecodeError::EndOfInput);
        }
        let ghost bits = self.vec_bool@;
        let ghost pos = self.position as int;
        let mut result: u32 = 0;
        let mut weight: u32 = 1;
        let mut i: usize = 0;
        proof {
            lemma_pow2_values(0);
            assert(bits_at(bits, pos, 0) =~= Seq::<bool>::empty());
        }
        while i < count
            invariant
                i <= count <= 16,
                pos == self.position,
                bits == self.vec_bool@,
                pos + count <= bits.len() <= usize::MAX,
                weight == pow2(i as nat),
                result == field_at(bits, pos, i as int, reverse),
                result < weight,
            decreases count - i,
        {
            let bit = self.vec_bool[self.position + i];
            proof {
                let part = bits_at(bits, pos, i as int);
                let more = bits_at(bits, pos, i + 1);
                assert(more =~= part.push(bit));
                assert(more.drop_last() =~= part);
                lemma_lsb_value_push(part, bit);
                lemma_pow2_values(i as nat);
                lemma_pow2_values((i + 1) as nat);
                assert(bit_weight(bit) * pow2(i as nat) == if bit {
                    pow2(i as nat)
                } else {
                    0
                }) by (nonlinear_arith)
                    requires
                        bit_weight(bit) == if bit {
                            1nat
                        } else {
                            0nat
                        },
                ;
            }
            if reverse {
                if bit {
                    result = result + weight;
                }
            } else {
                result = result * 2;
                if bit {
                    result = result + 1;
                }
            }
            weight = weight * 2;
            i = i + 1;
        }
        proof {
            lemma_pow2_values(count as nat);
        }
        self.position = self.position + count;
        Ok(result as u16)
    }

    /// Reads the literal/length symbol whose fixed Huffman code word starts
    /// at the cursor: it tries 7, 8 and 9 bits in turn, moving back after a
    /// try that gave no code word. On failure the cursor stays where it was.
    pub fn match_fixed_huffman(&mut self) -> (r: Result<u16, DecodeError>)
        requires
            old(self).wf(),
        ensures
            final(self).wf(),
            final(self).same_input(old(self)),
            final(self).output() == old(self).output(),
            read_agrees(
                r,
                final(self).cursor(),
                fixed_symbol(old(self).bits(), old(self).cursor()),
            ),
            r is Err ==> final(self).cursor() == old(self).cursor(),
            r is Ok ==> final(self).cursor() > old(self).cursor() && r->Ok_0 <= 287,
    {
        let mut count: u8 = 7;
        while count <= 9
            invariant
                7 <= count <= 10,
                self.wf(),
                self.same_input(old(self)),
                self.output() == old(self).output(),
                self.cursor() == old(self).cursor(),
                fixed_symbol(old(self).bits(), old(self).cursor()) == fixed_symbol_from(
                    old(self).bits(),
                    old(self).cursor(),
                    count as int,
                ),
            decreases 10 - count,
        {
            let value = match self.read_bits(count, false) {
                Ok(value) => value,
                Err(e) => {
                    return Err(e);
                },
            };
            proof {
                lemma_pow2_values(count as nat);
            }
            let symbol = check_valid_conversion(count, value);
            if symbol == 300 {
                self.rewind(count as usize);
            } else {
                return Ok(symbol);
            }
            count = count + 1;
        }
        Err(DecodeError::InvalidCode)
    }

    /// Reads the extra bits of the length symbol `code` and gives the match
    /// length.
    fn read_length(&mut self, code: u16) -> (r: Result<u16, DecodeError>)
        requires
            old(self).wf(),
            257 <= code <= 285,
        ensures
            final(self).wf(),
            final(self).same_input(old(self)),
            final(self).output() == old(self).output(),
            read_agrees(
                r,
                final(self).cursor(),
                match_length_at(old(self).bits(), old(self).cursor(), code as int),
            ),
            r is Ok ==> final(self).cursor() >= old(self).cursor() && 3 <= r->Ok_0 <= 258,
    {
        if code < 265 {
            proof {
                assert(bits_at(self.bits(), self.cursor(), 0) =~= Seq::<bool>::empty());
            }
            Ok(code - 254)
        } else if code < 269 {
            let designation = self.read_bits(1, true)?;
            proof {
                lemma_pow2_values(1);
            }
            Ok(2 * (code - 265) + 11 + designation)
        } else if code < 273 {
            let designation = self.read_bits(2, true)?;
            proof {
                lemma_pow2_values(2);
            }
            Ok(4 * (code - 269) + 19 + designation)
        } else if code < 277 {
            let designation = self.read_bits(3, true)?;
            proof {
                lemma_pow2_values(3);
            }
            Ok(8 * (code - 273) + 35 + designation)
        } else if code < 281 {
            let designation = self.read_bits(4, true)?;
            proof {
                lemma_pow2_values(4);
            }
            Ok(16 * (code - 277) + 67 + designation)
        } else if code < 285 {
            let designation = self.read_bits(5, true)?;
            proof {
                lemma_pow2_values(5);
            }
            Ok(32 * (code - 281) + 131 + designation)
        } else {
            proof {
                assert(bits_at(self.bits(), self.cursor(), 0) =~= Seq::<bool>::empty());
            }
            Ok(258)
        }
    }

    /// Reads the extra bits of the distance code `length_code` and gives the
    /// match distance.
    fn read_distance(&mut self, length_code: u16) -> (r: Result<u16, DecodeError>)
        requires
            old(self).wf(),
            length_code <= 29,
        ensures
            final(self).wf(),
            final(self).same_input(old(self)),
            final(self).output() == old(self).output(),
            read_agrees(
                r,
                final(self).cursor(),
                match_distance_at(old(self).bits(), old(self).cursor(), length_code as int),
            ),
            r is Ok ==> final(self).cursor() >= old(self).cursor() && 1 <= r->Ok_0 <= 32768,
    {
        proof {
            lemma_distance_ranges(length_code as int);
        }
        if length_code < 4 {
            proof {
                assert(bits_at(self.bits(), self.cursor(), 0) =~= Seq::<bool>::empty());
            }
            return Ok(length_code + 1);
        }
        let extra_bits: u32 = ((length_code - 2) / 2) as u32;
        let to_add = self.read_bits(extra_bits as u8, true)?;
        let high: u32 = crate::bits::pow2_u32(extra_bits + 1);
        let low: u32 = crate::bits::pow2_u32(extra_bits);
        proof {
            lemma_pow2_values(extra_bits as nat);
            lemma_pow2_values((extra_bits + 1) as nat);
        }
        if length_code % 2 == 0 {
            Ok((high + 1 + to_add as u32) as u16)
        } else {
            Ok((high + 1 + to_add as u32 + low) as u16)
        }
    }

    /// Reads the symbol whose code in `map` starts at the cursor: it takes
    /// one bit after the other, most significant first, and looks the bits up
    /// among the codes of their length, up to `limit` bits. On failure the
    /// cursor stays where it was.
    fn decode_one_dynamic_huffman(&mut self, map: &Vec<HashMap<u16, u16>>, limit: u8) -> (r: Result<
        u16,
        DecodeError,
    >)
        requires
            old(self).wf(),
            1 <= limit <= 15,
        ensures
            final(self).wf(),
            final(self).same_input(old(self)),
            final(self).output() == old(self).output(),
            read_agrees(
                r,
                final(self).cursor(),
                table_symbol(table_view(map@), old(self).bits(), old(self).cursor(), limit as int),
            ),
            r is Err ==> final(self).cursor() == old(self).cursor(),
            r is Ok ==> final(self).cursor() > old(self).cursor(),
    {
        let start: usize = self.position;
        let ghost bits = self.bits();
        let ghost table = table_view(map@);
        let mut code: u16 = 0;
        let mut count: u8 = 1;
        proof {
            assert(bits_at(bits, start as int, 0) =~= Seq::<bool>::empty());
        }
        while count <= limit
            invariant
                1 <= count <= limit + 1,
                limit <= 15,
                self.wf(),
                self.same_input(old(self)),
                self.output() == old(self).output(),
                bits == self.bits(),
                table == table_view(map@),
                start == old(self).cursor(),
                self.cursor() == start + count - 1,
                code == field_at(bits, start as int, count - 1, false),
                table_symbol(table, bits, start as int, limit as int) == table_symbol_from(
                    table,
                    bits,
                    start as int,
                    count as int,
                    limit as int,
                ),
            decreases limit + 1 - count,
        {
            let bit = match self.read_bits(1, false) {
                Ok(bit) => bit,
                Err(e) => {
                    self.position = start;
                    return Err(e);
                },
            };
            proof {
                let part = bits_at(bits, start as int, count - 1);
                let one = bits_at(bits, start + count - 1, 1);
                let more = bits_at(bits, start as int, count as int);
                lemma_value_of_one_bit(one);
                assert(more =~= part.push(one[0]));
                lemma_msb_value_push(part, one[0]);
                lemma_msb_value_bound(more);
                lemma_pow2_values(count as nat);
            }
            code = code * 2 + bit;
            if (count as usize) < map.len() {
                match map[count as usize].get(&code) {
                    Some(value) => {
                        return Ok(*value);
                    },
                    None => {},
                }
            }
            count = count + 1;
        }
        self.position = start;
        Err(DecodeError::InvalidCode)
    }

    /// Appends `length` bytes to the output, each a copy of the byte
    /// `distance` places before the end of the output as it then is.
    fn copy_from_output(&mut self, length: usize, distance: usize)
        requires
            old(self).wf(),
            1 <= distance <= old(self).output().len(),
        ensures
            final(self).wf(),
            final(self).same_input(old(self)),
            final(self).cursor() == old(self).cursor(),
            final(self).output() == copy_back(old(self).output(), length as nat, distance as int),
    {
        let mut i: usize = 0;
        while i < length
            invariant
                i <= length,
                self.wf(),
                self.same_input(old(self)),
                self.cursor() == old(self).cursor(),
                1 <= distance <= old(self).output().len(),
                self.resulted_bytes@.len() == old(self).output().len() + i,
                copy_back(old(self).output(), length as nat, distance as int) == copy_back(
                    self.output(),
                    (length - i) as nat,
                    distance as int,
                ),
            decreases length - i,
        {
            let index = self.resulted_bytes.len() - distance;
            let byte = self.resulted_bytes[index];
            self.resulted_bytes.push(byte);
            i = i + 1;
        }
    }

    /// Reads the data of a block up to the symbol that ends it, and appends
    /// what it stands for to the output: with the block's own codes if
    /// `dynamic` is set, with the fixed codes if not.
    fn read_block_body(
        &mut self,
        dynamic: bool,
        literals: &Vec<HashMap<u16, u16>>,
        distances: &Vec<HashMap<u16, u16>>,
    ) -> (r: Result<(), DecodeError>)
        requires
            old(self).wf(),
        ensures
            final(self).wf(),
            final(self).same_input(old(self)),
            body_agrees(
                r,
                final(self).output(),
                final(self).cursor(),
                block_body(
                    coding_of(dynamic, literals@, distances@),
                    old(self).bits(),
                    old(self).cursor(),
                    old(self).output(),
                ),
            ),
            r is Ok ==> final(self).cursor() > old(self).cursor(),
    {
        let ghost coding = coding_of(dynamic, literals@, distances@);
        let ghost bits = self.bits();
        let ghost want = block_body(coding, bits, self.cursor(), self.output());
        loop
            invariant
                self.wf(),
                self.same_input(old(self)),
                bits == self.bits(),
                coding == coding_of(dynamic, literals@, distances@),
                self.cursor() >= old(self).cursor(),
                want == block_body(coding, bits, old(self).cursor(), old(self).output()),
                want == block_body(coding, bits, self.cursor(), self.output()),
            decreases bits.len() - self.cursor(),
        {
            let next_code = if dynamic {
                self.decode_one_dynamic_huffman(literals, 15)?
            } else {
                self.match_fixed_huffman()?
            };
            if next_code == 256 {
                return Ok(());
            } else if next_code > 256 {
                let (len, distance) = self.read_match(dynamic, literals, distances, next_code)?;
                if distance > self.resulted_bytes.len() {
                    return Err(DecodeError::InvalidBackReference);
                }
                self.copy_from_output(len, distance);
            } else {
                self.resulted_bytes.push(next_code as u8);
            }
        }
    }

    /// Reads what follows the length symbol `symbol` of a match: the extra
    /// bits of the length, the distance code and its extra bits. It gives the
    /// length and the distance of the match.
    fn read_match(
        &mut self,
        dynamic: bool,
        literals: &Vec<HashMap<u16, u16>>,
        distances: &Vec<HashMap<u16, u16>>,
        symbol: u16,
    ) -> (r: Result<(usize, usize), DecodeError>)
        requires
            old(self).wf(),
            symbol > 256,
        ensures
            final(self).wf(),
            final(self).same_input(old(self)),
            final(self).output() == old(self).output(),
            match match_at(
                coding_of(dynamic, literals@, distances@),
                old(self).bits(),
                old(self).cursor(),
                symbol as int,
            ) {
                Ok((length, distance, behind)) => r is Ok && r->Ok_0.0 == length && r->Ok_0.1
                    == distance && final(self).cursor() == behind && behind >= old(self).cursor(),
                Err(e) => r is Err && r->Err_0 == e,
            },
    {
        if symbol > 285 {
            return Err(DecodeError::InvalidCode);
        }
        let len = self.read_length(symbol)? as usize;
        let distance_code = if dynamic {
            self.decode_one_dynamic_huffman(distances, 15)?
        } else {
            proof {
                lemma_pow2_values(5);
            }
            self.read_bits(5, false)?
        };
        if distance_code > 29 {
            return Err(DecodeError::InvalidCode);
        }
        let distance = self.read_distance(distance_code)? as usize;
        Ok((len, distance))
    }

    /// Reads the data of a block with fixed Huffman codes and appends what it
    /// stands for to the output.
    fn read_fixed_block(&mut self) -> (r: Result<(), DecodeError>)
        requires
            old(self).wf(),
        ensures
            final(self).wf(),
            final(self).same_input(old(self)),
            body_agrees(
                r,
                final(self).output(),
                final(self).cursor(),
                block_body(
                    Coding::Fixed,
                    old(self).bits(),
                    old(self).cursor(),
                    old(self).output(),
                ),
            ),
            r is Ok ==> final(self).cursor() > old(self).cursor(),
    {
        let none: Vec<HashMap<u16, u16>> = Vec::new();
        self.read_block_body(false, &none, &none)
    }

    /// Reads the counts at the start of a dynamic block: the numbers of
    /// literal/length codes, of distance codes, and of lengths given for the
    /// codes for code lengths.
    pub fn parse_dynamic_header(&mut self) -> (r: Result<(usize, usize, usize), DecodeError>)
        requires
            old(self).wf(),
        ensures
            final(self).wf(),
            final(self).same_input(old(self)),
            final(self).output() == old(self).output(),
            old(self).cursor() + 14 > old(self).bits().len() ==> r == Err::<
                (usize, usize, usize),
                DecodeError,
            >(DecodeError::EndOfInput),
            old(self).cursor() + 14 <= old(self).bits().len() ==> r is Ok && r->Ok_0.0 == field_at(
                old(self).bits(),
                old(self).cursor(),
                5,
                true,
            ) + 257 && r->Ok_0.1 == field_at(old(self).bits(), old(self).cursor() + 5, 5, true) + 1
                && r->Ok_0.2 == field_at(old(self).bits(), old(self).cursor() + 10, 4, true) + 4
                && final(self).cursor() == old(self).cursor() + 14,
            r is Ok ==> 257 <= r->Ok_0.0 <= 288 && 1 <= r->Ok_0.1 <= 32 && 4 <= r->Ok_0.2 <= 19,
    {
        proof {
            lemma_pow2_values(5);
            lemma_pow2_values(4);
        }
        let hlit = self.read_bits(5, true)? as usize + 257;
        let hdist = self.read_bits(5, true)? as usize + 1;
        let hclen = self.read_bits(4, true)? as usize + 4;
        Ok((hlit, hdist, hclen))
    }

    /// Reads `hclen` lengths of three bits each for the codes for code
    /// lengths, and gives the lengths of all 19 of them by symbol.
    fn read_hclen(&mut self, hclen: usize) -> (r: Result<Vec<usize>, DecodeError>)
        requires
            old(self).wf(),
            4 <= hclen <= 19,
        ensures
            final(self).wf(),
            final(self).same_input(old(self)),
            final(self).output() == old(self).output(),
            old(self).cursor() + 3 * hclen > old(self).bits().len() ==> r is Err && r->Err_0
                == DecodeError::EndOfInput,
            old(self).cursor() + 3 * hclen <= old(self).bits().len() ==> r is Ok && r->Ok_0@
                == code_length_code_lengths(old(self).bits(), old(self).cursor(), hclen as int)
                && final(self).cursor() == old(self).cursor() + 3 * hclen,
    {
        let order: [usize; 19] = [16, 17, 18, 0, 8, 7, 9, 6, 10, 5, 11, 4, 12, 3, 13, 2, 14, 1, 15];
        proof {
            lemma_code_length_order();
            assert(order@ =~= code_length_order());
        }
        let mut lengths: Vec<usize> = Vec::new();
        let mut s: usize = 0;
        while s < 19
            invariant
                s <= 19,
                lengths@ == Seq::new(s as nat, |s: int| 0usize),
            decreases 19 - s,
        {
            lengths.push(0);
            s = s + 1;
            assert(lengths@ =~= Seq::new(s as nat, |s: int| 0usize));
        }
        let ghost bits = self.bits();
        let ghost start = self.cursor();
        let mut i: usize = 0;
        while i < hclen
            invariant
                i <= hclen <= 19,
                self.wf(),
                self.same_input(old(self)),
                self.output() == old(self).output(),
                bits == self.bits(),
                start == old(self).cursor(),
                self.cursor() == start + 3 * i,
                order@ == code_length_order(),
                lengths@.len() == 19,
                lengths@ == code_length_code_lengths(bits, start, i as int),
            decreases hclen - i,
        {
            let code = self.read_bits(3, true)?;
            proof {
                lemma_code_length_order();
                lemma_pow2_values(3);
            }
            lengths.set(order[i], code as usize);
            i = i + 1;
            proof {
                assert(lengths@ == code_length_code_lengths(bits, start, i - 1).update(
                    code_length_order()[i - 1] as int,
                    field_at(bits, start + 3 * (i - 1), 3, true) as usize,
                ));
            }
        }
        Ok(lengths)
    }

    /// Reads `num_huffman_codes` code lengths with the code for code lengths
    /// in `map`: a symbol below 16 is a length, 16 repeats the length before
    /// it, 17 and 18 stand for runs of the length 0.
    fn read_and_decode_dynamic_huffman(
        &mut self,
        num_huffman_codes: usize,
        map: &Vec<HashMap<u16, u16>>,
    ) -> (r: Result<Vec<usize>, DecodeError>)
        requires
            old(self).wf(),
        ensures
            final(self).wf(),
            final(self).same_input(old(self)),
            final(self).output() == old(self).output(),
            lengths_agree(
                r,
                final(self).cursor(),
                code_lengths_from(
                    table_view(map@),
                    old(self).bits(),
                    old(self).cursor(),
                    num_huffman_codes as int,
                    Seq::empty(),
                ),
            ),
            r is Ok ==> r->Ok_0@.len() >= num_huffman_codes && final(self).cursor() >= old(
                self,
            ).cursor(),
    {
        let ghost bits = self.bits();
        let ghost table = table_view(map@);
        let ghost total = num_huffman_codes as int;
        let ghost want = code_lengths_from(table, bits, self.cursor(), total, Seq::empty());
        let mut code_lengths: Vec<usize> = Vec::new();
        while code_lengths.len() < num_huffman_codes
            invariant
                self.wf(),
                self.same_input(old(self)),
                self.output() == old(self).output(),
                bits == self.bits(),
                table == table_view(map@),
                total == num_huffman_codes,
                self.cursor() >= old(self).cursor(),
                want == code_lengths_from(
                    table,
                    bits,
                    old(self).cursor(),
                    total,
                    Seq::empty(),
                ),
                want == code_lengths_from(table, bits, self.cursor(), total, code_lengths@),
            decreases num_huffman_codes - code_lengths.len(),
        {
            let code = self.decode_one_dynamic_huffman(map, 7)?;
            if code < 16 {
                code_lengths.push(code as usize);
            } else if code > 18 {
                return Err(DecodeError::InvalidCode);
            } else {
                let room: usize = num_huffman_codes - code_lengths.len();
                let mut value: usize = 0;
                let repeat: usize;
                proof {
                    lemma_pow2_values(2);
                    lemma_pow2_values(3);
                    lemma_pow2_values(7);
                }
                if code == 16 {
                    if code_lengths.len() == 0 {
                        return Err(DecodeError::InvalidTable);
                    }
                    value = code_lengths[code_lengths.len() - 1];
                    repeat = self.read_bits(2, true)? as usize + 3;
                } else if code == 17 {
                    repeat = self.read_bits(3, true)? as usize + 3;
                } else {
                    repeat = self.read_bits(7, true)? as usize + 11;
                }
                if repeat > room {
                    return Err(DecodeError::InvalidTable);
                }
                let ghost before = code_lengths@;
                let mut k: usize = 0;
                while k < repeat
                    invariant
                        k <= repeat,
                        code_lengths@ == before + repeated(value, k as int),
                    decreases repeat - k,
                {
                    code_lengths.push(value);
                    k = k + 1;
                    assert(code_lengths@ =~= before + repeated(value, k as int));
                }
            }
        }
        Ok(code_lengths)
    }

    /// Builds the decoding table for the code lengths `lengths` of the
    /// symbols 0, 1, and so on, or fails with `InvalidTable` where the
    /// lengths make no tree that the decoder accepts.
    fn get_hlit_or_hdist_map(lengths: Vec<usize>) -> (r: Result<
        Vec<HashMap<u16, u16>>,
        DecodeError,
    >)
        ensures
            lengths_accepted(lengths@) ==> r is Ok && table_view(r->Ok_0@) == table_of_lengths(
                lengths@,
            ),
            !lengths_accepted(lengths@) ==> r is Err && r->Err_0 == DecodeError::InvalidTable,
    {
        let (list_lengths, alphabets) = generate_no_zero_lengths_and_alphabets(lengths);
        proof {
            crate::huffman::lemma_nonzero_same_len(lengths@);
        }
        if !check_code_lengths(&list_lengths) {
            return Err(DecodeError::InvalidTable);
        }
        Ok(get_mapping_from_canonical_huffman_lengths(list_lengths, alphabets))
    }

    /// Reads a block with dynamic Huffman codes from behind its header on:
    /// the code lengths, from which it builds the block's tables, and the
    /// data, which it appends to the output.
    fn read_dynamic_block(&mut self) -> (r: Result<(), DecodeError>)
        requires
            old(self).wf(),
        ensures
            final(self).wf(),
            final(self).same_input(old(self)),
            body_agrees(
                r,
                final(self).output(),
                final(self).cursor(),
                dynamic_block(old(self).bits(), old(self).cursor(), old(self).output()),
            ),
            r is Ok ==> final(self).cursor() > old(self).cursor(),
    {
        reveal(dynamic_block);
        let (hlit, hdist, hclen) = self.parse_dynamic_header()?;
        let first = self.read_hclen(hclen)?;
        let hclen_map = Self::get_hlit_or_hdist_map(first)?;
        let mut literal_lengths = self.read_and_decode_dynamic_huffman(hlit + hdist, &hclen_map)?;
        let distance_lengths = literal_lengths.split_off(hlit);
        proof {
            let all = old(self).bits();
            let lengths = literal_lengths@ + distance_lengths@;
            assert(literal_lengths@ =~= lengths.take(hlit as int));
            assert(distance_lengths@ =~= lengths.skip(hlit as int));
        }
        let hlit_map = Self::get_hlit_or_hdist_map(literal_lengths)?;
        let hdist_map = Self::get_hlit_or_hdist_map(distance_lengths)?;
        self.read_block_body(true, &hlit_map, &hdist_map)
    }

    /// Reads one block from its header on and appends its data to the
    /// output. It tells whether the block was the last one.
    fn read_one_block(&mut self) -> (r: Result<bool, DecodeError>)
        requires
            old(self).wf(),
        ensures
            final(self).wf(),
            final(self).same_input(old(self)),
            block_agrees(
                r,
                final(self).output(),
                final(self).cursor(),
                one_block(old(self).bits(), old(self).cursor(), old(self).output()),
            ),
            r is Ok ==> final(self).cursor() > old(self).cursor(),
    {
        reveal(one_block);
        let ghost bits = self.bits();
        let ghost at = self.cursor();
        let bfinal = self.read_bits(1, false)?;
        let btype = self.read_bits(2, true)?;
        proof {
            lemma_value_of_one_bit(bits_at(bits, at, 1));
            lemma_pow2_values(2);
        }
        if btype == 3 {
            return Err(DecodeError::InvalidBlockType);
        }
        if btype == 0 {
            return Err(DecodeError::UnsupportedBlockType);
        }
        if btype == 1 {
            self.read_fixed_block()?;
        } else {
            proof {
                lemma_pow2_values(2);
            }
            self.read_dynamic_block()?;
        }
        Ok(bfinal == 1)
    }

    /// Decodes the blocks from the cursor on, up to the last one, and hands
    /// out the output: what was there before, followed by the data of the
    /// blocks. On success the cursor is behind the last block. On failure
    /// nothing is handed out, and the cursor is where it was. Either way the
    /// reader keeps no output.
    pub fn read_bitstream_blocks(&mut self) -> (r: Result<Vec<u8>, DecodeError>)
        requires
            old(self).wf(),
        ensures
            final(self).wf(),
            final(self).same_input(old(self)),
            match stream_blocks(old(self).bits(), old(self).cursor(), old(self).output()) {
                Ok((data, behind)) => r is Ok && r->Ok_0@ == data && final(self).cursor() == behind
                    && final(self).output() == Seq::<u8>::empty(),
                Err(e) => r is Err && r->Err_0 == e && final(self).cursor() == old(self).cursor()
                    && final(self).output() == Seq::<u8>::empty(),
            },
    {
        let start: usize = self.position;
        let ghost bits = self.bits();
        let ghost want = stream_blocks(bits, self.cursor(), self.output());
        loop
            invariant
                self.wf(),
                self.same_input(old(self)),
                bits == self.bits(),
                start == old(self).cursor(),
                start <= bits.len(),
                want == stream_blocks(bits, old(self).cursor(), old(self).output()),
                want == stream_blocks(bits, self.cursor(), self.output()),
            decreases bits.len() - self.cursor(),
        {
            match self.read_one_block() {
                Ok(last) => {
                    if last {
                        let mut data: Vec<u8> = Vec::new();
                        std::mem::swap(&mut data, &mut self.resulted_bytes);
                        return Ok(data);
                    }
                },
                Err(e) => {
                    self.position = start;
                    self.resulted_bytes.clear();
                    return Err(e);
                },
            }
        }
    }

    /// Decodes the data of one block with fixed Huffman codes from the
    /// cursor on, which stands behind the block's header, and hands it out.
    /// The reader's own output plays no part and stays as it is. On failure
    /// the cursor is what it was.
    pub fn read_bitstream_fixed_huffman(&mut self) -> (r: Result<Vec<u8>, DecodeError>)
        requires
            old(self).wf(),
        ensures
            final(self).wf(),
            final(self).same_input(old(self)),
            final(self).output() == old(self).output(),
            match block_body(Coding::Fixed, old(self).bits(), old(self).cursor(), Seq::empty()) {
                Ok((data, behind)) => r is Ok && r->Ok_0@ == data && final(self).cursor() == behind,
                Err(e) => r is Err && r->Err_0 == e && final(self).cursor() == old(self).cursor(),
            },
    {
        let start: usize = self.position;
        let mut result: Vec<u8> = Vec::new();
        std::mem::swap(&mut result, &mut self.resulted_bytes);
        let outcome = self.read_fixed_block();
        std::mem::swap(&mut result, &mut self.resulted_bytes);
        match outcome {
            Ok(()) => Ok(result),
            Err(e) => {
                self.position = start;
                Err(e)
            },
        }
    }
}

/// The coding of a block: its own tables if `dynamic` is set, the fixed codes
/// if not.
pub open spec fn coding_of(
    dynamic: bool,
    literals: Seq<HashMap<u16, u16>>,
    distances: Seq<HashMap<u16, u16>>,
) -> Coding {
    if dynamic {
        Coding::Dynamic { literals: table_view(literals), distances: table_view(distances) }
    } else {
        Coding::Fixed
    }
}

/// Reading a block's data went as `want` says: it succeeded with that output
/// and that position, or failed with that error.
pub open spec fn body_agrees(
    got: Result<(), DecodeError>,
    output: Seq<u8>,
    cursor: int,
    want: Result<(Seq<u8>, int), DecodeError>,
) -> bool {
    match want {
        Ok((data, behind)) => got is Ok && output == data && cursor == behind,
        Err(e) => got == Err::<(), DecodeError>(e),
    }
}

/// Reading a block went as `want` says.
pub open spec fn block_agrees(
    got: Result<bool, DecodeError>,
    output: Seq<u8>,
    cursor: int,
    want: Result<(Seq<u8>, int, bool), DecodeError>,
) -> bool {
    match want {
        Ok((data, behind, last)) => got == Ok::<bool, DecodeError>(last) && output == data
            && cursor == behind,
        Err(e) => got == Err::<bool, DecodeError>(e),
    }
}

/// Reading code lengths went as `want` says.
pub open spec fn lengths_agree(
    got: Result<Vec<usize>, DecodeError>,
    cursor: int,
    want: Result<(Seq<usize>, int), DecodeError>,
) -> bool {
    match want {
        Ok((lengths, behind)) => got is Ok && got->Ok_0@ == lengths && cursor == behind,
        Err(e) => got is Err && got->Err_0 == e,
    }
}

} // verus!
