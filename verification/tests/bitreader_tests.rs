use deflate::bitreader::check_valid_conversion;
use deflate::bitreader::BitReader;
use deflate::bitwriter::BitWriter;
use deflate::codec::decode;
use deflate::codec::encode;
use deflate::stream::DecodeError;

/// Packs a stream written as `0` and `1`, in stream order, into bytes.
fn stream(bits: &str) -> Vec<u8> {
    let mut bytes: Vec<u8> = Vec::new();
    let mut count = 0;
    for c in bits.chars() {
        if c != '0' && c != '1' {
            continue;
        }
        if count % 8 == 0 {
            bytes.push(0);
        }
        if c == '1' {
            let last = bytes.len() - 1;
            bytes[last] |= 1 << (count % 8);
        }
        count += 1;
    }
    bytes
}

const FIXED_LITERALS: &str =
    "1 10 00110000 10110000 10111111 110010000 111000000 111111111 0000000";

const FIXED_OVERLAPPING_RUN: &str = "1 10 00110001 0000010 00000 0000000";

/// 257 literal/length codes, 2 distance codes, 19 code length code lengths;
/// literal 0 and the end symbol have codes of one bit; the data is the end
/// symbol alone.
const DYNAMIC_EMPTY: &str = "1 01 00000 10000 1111 \
    000 000 100 000 000 000 000 000 000 000 000 000 000 000 000 000 000 100 000 \
    0 11111111 10101011 0 0 0 \
    1";

/// As above, with a single distance code of length 0.
const DYNAMIC_EMPTY_NO_DISTANCE_CODE: &str = "1 01 00000 00000 0111 \
    000 000 100 010 000 000 000 000 000 000 000 000 000 000 000 000 000 010 \
    11 01111111 00101011 11 10 \
    1";

/// Literal 1, the end symbol and the length symbol 257 have codes, and there
/// is one distance code; the data is literal 1, a match of three bytes at
/// distance 1, and the end symbol.
const DYNAMIC_ONE_DISTANCE_CODE: &str = "1 01 10000 00000 0111 \
    000 000 010 010 000 000 000 000 000 000 000 000 000 000 000 010 000 010 \
    00 10 111111111 111001011 01 10 01 \
    10 11 0 0";

#[test]
fn test_read_bits_1() {
    let data = stream(FIXED_LITERALS);
    println!("{:?}", data);

    let mut bit_reader = BitReader::new(&data);
    assert_eq!(bit_reader.read_bits(1, false), Ok(1));
    let kind = bit_reader.read_bits(2, false).unwrap();
    println!("{}", kind);
    assert_eq!(kind, 2);
    let word = bit_reader.read_bits(8, false).unwrap();
    println!("{}", word);
    assert_eq!(word, 48);
}

#[test]
fn test_read_bits_2() {
    let data = stream(FIXED_OVERLAPPING_RUN);

    let mut bit_reader = BitReader::new(&data);
    bit_reader.read_bits(3, false).unwrap();
    let decoded_results = bit_reader.read_bitstream_fixed_huffman().unwrap();
    println!("{:?}", decoded_results);
    assert_eq!(decoded_results, vec![1, 1, 1, 1, 1]);
}

#[test]
fn test_read_bits_3() {
    // one literal, then a match of every length from 3 to 258 at distance 1
    let mut writer = BitWriter::new();
    writer.write_header();
    writer.write_single_literal(b'x');
    let mut total = 1usize;
    for length in 3u16..=258 {
        writer.write_length(length);
        writer.write_distance(1);
        total += length as usize;
    }
    writer.write_eob();
    writer.align_to_byte();
    writer.write_bitstream_buffer_little_endian();
    let data = writer.get_buffer().clone();
    let mut bit_reader = BitReader::new(&data);
    bit_reader.read_bits(3, false).unwrap();
    let decoded_results = bit_reader.read_bitstream_fixed_huffman().unwrap();
    println!("{:?}", decoded_results);
    assert_eq!(decoded_results, vec![b'x'; total]);
}

#[test]
fn test_read_bits_4() {
    let data = stream(DYNAMIC_EMPTY);
    let mut bit_reader = BitReader::new(&data);
    let decoded_results = bit_reader.read_bitstream_blocks().unwrap();
    println!("{:?}", decoded_results);
    assert_eq!(decoded_results, Vec::<u8>::new());
}

#[test]
fn test_read_bits_5() {
    let data = stream(DYNAMIC_EMPTY_NO_DISTANCE_CODE);
    let mut bit_reader = BitReader::new(&data);
    let decoded_results = bit_reader.read_bitstream_blocks().unwrap();
    println!("{:?}", decoded_results);
    assert_eq!(decoded_results, Vec::<u8>::new());
}

#[test]
fn test_read_bits_6() {
    let data = stream(DYNAMIC_ONE_DISTANCE_CODE);
    let mut bit_reader = BitReader::new(&data);
    let decoded_results = bit_reader.read_bitstream_blocks().unwrap();
    println!("decoded result is {:?}", decoded_results);
    assert_eq!(decoded_results, vec![1, 1, 1, 1]);
}

#[test]
fn test_read_bits_7() {
    // a grey map: a short header and rows that repeat with small changes
    let mut image: Vec<u8> = b"P5\n64 64\n255\n".to_vec();
    for row in 0..64u32 {
        for column in 0..64u32 {
            image.push(((row / 8) * 31 + (column / 4) * 7) as u8);
        }
    }
    let data = encode(&image);
    let mut bit_reader = BitReader::new(&data);
    let decoded_results = bit_reader.read_bitstream_blocks().unwrap();
    println!("decoded result is {:?}", decoded_results);
    assert_eq!(decoded_results, image);
    assert!(data.len() < image.len());
}

#[test]
fn test_parse_dynamic_header() {
    let streams = [DYNAMIC_ONE_DISTANCE_CODE, DYNAMIC_EMPTY_NO_DISTANCE_CODE, DYNAMIC_EMPTY];
    let expected = [(258, 1, 18), (257, 1, 18), (257, 2, 19)];
    for (bits, want) in streams.iter().zip(expected.iter()) {
        let data = stream(bits);
        let mut bit_reader = BitReader::new(&data);
        bit_reader.read_bits(3, false).unwrap();
        let (hlit, hdist, hclen) = BitReader::parse_dynamic_header(&mut bit_reader).unwrap();
        println!("hlit: {}, hdist: {}, hclen: {}", hlit, hdist, hclen);
        assert_eq!((hlit, hdist, hclen), *want);
        assert_eq!(bit_reader.position(), 17);
    }
}

#[test]
fn read_bits_takes_fields_in_either_order() {
    let data = vec![0b1010_0110u8, 0b0000_0001u8];
    let mut reader = BitReader::new(&data);
    // stream order: 0 1 1 0 0 1 0 1 | 1 0 0 0 0 0 0 0
    assert_eq!(reader.read_bits(3, true), Ok(0b110));
    assert_eq!(reader.position(), 3);
    assert_eq!(reader.read_bits(3, false), Ok(0b001));
    assert_eq!(reader.read_bits(3, true), Ok(0b110));
    assert_eq!(reader.read_bits(7, false), Ok(0));
    assert_eq!(reader.position(), 16);
    reader.rewind(16);
    assert_eq!(reader.read_bits(16, true), Ok(0x01A6));
    reader.rewind(16);
    assert_eq!(reader.read_bits(16, false), Ok(0x6580));
}

#[test]
fn read_bits_past_the_end_fails_and_stays() {
    let data = vec![0xFFu8];
    let mut reader = BitReader::new(&data);
    assert_eq!(reader.read_bits(5, true), Ok(31));
    assert_eq!(reader.read_bits(4, true), Err(DecodeError::EndOfInput));
    assert_eq!(reader.position(), 5);
    assert_eq!(reader.read_bits(3, true), Ok(7));
    assert_eq!(reader.read_bits(1, true), Err(DecodeError::EndOfInput));
    let empty: Vec<u8> = Vec::new();
    let mut reader = BitReader::new(&empty);
    assert_eq!(reader.read_bits(1, false), Err(DecodeError::EndOfInput));
}

#[test]
fn written_bits_are_read_back() {
    let fields: [(u16, u8, bool); 6] =
        [(5, 3, true), (5, 3, false), (0x1234, 13, true), (1, 1, false), (400, 9, false), (65535, 16, true)];
    let mut writer = BitWriter::new();
    for &(value, count, reverse) in fields.iter() {
        writer.write_single_general(value, count, reverse);
    }
    let written = writer.get_vec_bool().clone();
    writer.write_bitstream_buffer_little_endian();
    let bytes = writer.get_buffer().clone();
    for (i, &bit) in written.iter().enumerate() {
        assert_eq!((bytes[i / 8] >> (i % 8)) & 1 == 1, bit);
    }
    let mut reader = BitReader::new(&bytes);
    for &(value, count, reverse) in fields.iter() {
        assert_eq!(reader.read_bits(count, reverse), Ok(value));
    }
}

#[test]
fn check_valid_conversion_knows_the_fixed_code() {
    assert_eq!(check_valid_conversion(7, 0), 256);
    assert_eq!(check_valid_conversion(7, 23), 279);
    assert_eq!(check_valid_conversion(7, 24), 300);
    assert_eq!(check_valid_conversion(8, 47), 300);
    assert_eq!(check_valid_conversion(8, 48), 0);
    assert_eq!(check_valid_conversion(8, 191), 143);
    assert_eq!(check_valid_conversion(8, 192), 280);
    assert_eq!(check_valid_conversion(8, 199), 287);
    assert_eq!(check_valid_conversion(8, 200), 300);
    assert_eq!(check_valid_conversion(9, 399), 300);
    assert_eq!(check_valid_conversion(9, 400), 144);
    assert_eq!(check_valid_conversion(9, 511), 255);
    assert_eq!(check_valid_conversion(9, 512), 300);
    assert_eq!(check_valid_conversion(6, 0), 300);
    assert_eq!(check_valid_conversion(10, 400), 300);
}

#[test]
fn match_fixed_huffman_reads_words_of_each_length() {
    let data = stream("0000000 0010111 00110000 10111111 11000000 11000111 110010000 111111111");
    let mut reader = BitReader::new(&data);
    assert_eq!(reader.match_fixed_huffman(), Ok(256));
    assert_eq!(reader.match_fixed_huffman(), Ok(279));
    assert_eq!(reader.match_fixed_huffman(), Ok(0));
    assert_eq!(reader.match_fixed_huffman(), Ok(143));
    assert_eq!(reader.match_fixed_huffman(), Ok(280));
    assert_eq!(reader.match_fixed_huffman(), Ok(287));
    assert_eq!(reader.match_fixed_huffman(), Ok(144));
    assert_eq!(reader.match_fixed_huffman(), Ok(255));
    assert_eq!(reader.position(), 64);
    assert_eq!(reader.match_fixed_huffman(), Err(DecodeError::EndOfInput));
    assert_eq!(reader.position(), 64);
}

#[test]
fn fixed_literals_decode() {
    assert_eq!(decode(&stream(FIXED_LITERALS)), Ok(vec![0x00, 0x80, 0x8F, 0x90, 0xC0, 0xFF]));
}

#[test]
fn overlapping_copy_repeats_the_last_byte() {
    // 'a', then five bytes from distance 1
    let bits = "1 10 10010001 0000011 00000 0000000";
    assert_eq!(decode(&stream(bits)), Ok(b"aaaaaa".to_vec()));
}

#[test]
fn copy_as_long_as_its_distance() {
    // 'a' 'b' 'c', then three bytes from distance 3
    let bits = "1 10 10010001 10010010 10010011 0000001 00010 0000000";
    assert_eq!(decode(&stream(bits)), Ok(b"abcabc".to_vec()));
    // 'a' 'b', then four bytes from distance 2: the copy reads what it wrote
    let bits = "1 10 10010001 10010010 0000010 00001 0000000";
    assert_eq!(decode(&stream(bits)), Ok(b"ababab".to_vec()));
}

#[test]
fn longest_match_at_its_own_distance() {
    let mut writer = BitWriter::new();
    writer.write_header();
    for _ in 0..258 {
        writer.write_single_literal(b'x');
    }
    writer.write_length(258);
    writer.write_distance(258);
    writer.write_eob();
    writer.write_bitstream_buffer_little_endian();
    assert_eq!(decode(writer.get_buffer()), Ok(vec![b'x'; 516]));
}

#[test]
fn farthest_match_decodes() {
    let mut writer = BitWriter::new();
    writer.write_header();
    let mut expected: Vec<u8> = Vec::new();
    for i in 0..32768u32 {
        let byte = (i % 251) as u8;
        writer.write_single_literal(byte);
        expected.push(byte);
    }
    writer.write_length(100);
    writer.write_distance(32768);
    writer.write_length(3);
    writer.write_distance(24577);
    writer.write_eob();
    writer.write_bitstream_buffer_little_endian();
    for i in 0..100 {
        expected.push(expected[i]);
    }
    for _ in 0..3 {
        expected.push(expected[expected.len() - 24577]);
    }
    assert_eq!(decode(writer.get_buffer()), Ok(expected));
}

#[test]
fn blocks_follow_each_other_until_the_last() {
    // a block that is not the last with 'a', then a last block that copies it
    let bits = "0 10 10010001 0000000 \
                1 10 0000001 00000 0000000";
    assert_eq!(decode(&stream(bits)), Ok(b"aaaa".to_vec()));
    // what follows the last block is not read
    let bits = "1 10 10010001 0000000 1 11 1111111111";
    assert_eq!(decode(&stream(bits)), Ok(b"a".to_vec()));
}

#[test]
fn minimum_dynamic_block_decodes_to_nothing() {
    assert_eq!(decode(&stream(DYNAMIC_EMPTY)), Ok(Vec::new()));
    assert_eq!(decode(&stream(DYNAMIC_EMPTY_NO_DISTANCE_CODE)), Ok(Vec::new()));
}

#[test]
fn minimum_dynamic_block_with_one_code_of_one_bit() {
    // 257 literal/length codes of which the end symbol alone has a code, of
    // one bit; one distance code of length 0; 19 code length code lengths
    let bits = "1 01 00000 00000 1111 \
        000 000 100 010 000 000 000 000 000 000 000 000 000 000 000 000 000 010 000 \
        01111111 01101011 11 10 \
        0";
    assert_eq!(decode(&stream(bits)), Ok(Vec::new()));
}

#[test]
fn dynamic_block_with_a_match_decodes() {
    assert_eq!(decode(&stream(DYNAMIC_ONE_DISTANCE_CODE)), Ok(vec![1, 1, 1, 1]));
}

#[test]
fn dynamic_header_with_four_code_length_codes() {
    // code length codes of two bits for the symbols 16, 17, 18 and 0; the 258
    // code lengths are two runs of zeros, so that no symbol has a code
    let header = "1 01 00000 00000 0000 010 010 010 010 111111111 111011011";
    let mut bits = String::from(header);
    bits.push_str(" 000000000000000");
    assert_eq!(decode(&stream(&bits)), Err(DecodeError::InvalidCode));
    let mut bits = String::from(header);
    bits.push_str(" 0000");
    assert_eq!(decode(&stream(&bits)), Err(DecodeError::EndOfInput));
}

#[test]
fn reserved_block_type_fails() {
    assert_eq!(decode(&stream("1 11")), Err(DecodeError::InvalidBlockType));
    assert_eq!(decode(&stream("0 11 00000")), Err(DecodeError::InvalidBlockType));
    // behind a block that decodes
    let bits = "0 10 10010001 0000000 1 11";
    assert_eq!(decode(&stream(bits)), Err(DecodeError::InvalidBlockType));
    let bits = "0 10 10010001 0000000 0 10 10010001 0000000 0 11";
    assert_eq!(decode(&stream(bits)), Err(DecodeError::InvalidBlockType));
}

#[test]
fn stored_block_is_not_supported() {
    assert_eq!(decode(&stream("1 00 00000")), Err(DecodeError::UnsupportedBlockType));
}

#[test]
fn end_of_input_fails() {
    assert_eq!(decode(&[]), Err(DecodeError::EndOfInput));
    // a literal and no end symbol
    assert_eq!(decode(&stream("1 10 10010001")), Err(DecodeError::EndOfInput));
    // a block that is not the last and two bits behind it
    let bits = "0 10 110010000 110010000 110010000 110010000 0000000";
    assert_eq!(decode(&stream(bits)), Err(DecodeError::EndOfInput));
    // a length symbol whose extra bits are missing
    assert_eq!(decode(&stream("1 10 10010001 11000100 1111")), Err(DecodeError::EndOfInput));
    // a dynamic header that breaks off
    assert_eq!(decode(&stream("1 01 00000 000")), Err(DecodeError::EndOfInput));
}

#[test]
fn symbols_outside_the_format_fail() {
    // the literal/length symbols 286 and 287
    assert_eq!(decode(&stream("1 10 11000110 00000 0000000")), Err(DecodeError::InvalidCode));
    assert_eq!(decode(&stream("1 10 11000111 00000 0000000")), Err(DecodeError::InvalidCode));
    // the distance codes 30 and 31
    let bits = "1 10 10010001 0000001 11110 0000000";
    assert_eq!(decode(&stream(bits)), Err(DecodeError::InvalidCode));
    let bits = "1 10 10010001 0000001 11111 0000000";
    assert_eq!(decode(&stream(bits)), Err(DecodeError::InvalidCode));
}

#[test]
fn match_before_the_start_of_the_output_fails() {
    assert_eq!(
        decode(&stream("1 10 0000001 00000 0000000")),
        Err(DecodeError::InvalidBackReference)
    );
    // one byte of output, distance 2
    assert_eq!(
        decode(&stream("1 10 10010001 0000001 00001 0000000")),
        Err(DecodeError::InvalidBackReference)
    );
}

#[test]
fn code_lengths_that_make_no_tree_fail() {
    // two code length codes of two bits: half of the code space is unused
    let bits = "1 01 00000 00000 0000 010 010 000 000 0000000000000000";
    assert_eq!(decode(&stream(bits)), Err(DecodeError::InvalidTable));
    // three code length codes of one bit: more than the code space holds
    let bits = "1 01 00000 00000 0000 100 100 100 000 0000000000000000";
    assert_eq!(decode(&stream(bits)), Err(DecodeError::InvalidTable));
    // literal/length codes that are not a full tree: two codes of two bits
    let bits = "1 01 00000 00000 0111 \
        000 000 100 010 000 000 000 000 000 000 000 000 000 000 000 010 000 000 \
        11 01111111 00101011 11 10 \
        00";
    assert_eq!(decode(&stream(bits)), Err(DecodeError::InvalidTable));
}

#[test]
fn repeat_without_a_length_before_it_fails() {
    let bits = "1 01 00000 00000 0000 010 010 010 010 01 00 111111111";
    assert_eq!(decode(&stream(bits)), Err(DecodeError::InvalidTable));
}

#[test]
fn run_of_code_lengths_beyond_their_number_fails() {
    let bits = "1 01 00000 00000 0000 010 010 010 010 111111111 111111111 0000000000000000";
    assert_eq!(decode(&stream(bits)), Err(DecodeError::InvalidTable));
}

#[test]
fn failed_decoding_leaves_the_reader_at_its_start() {
    let data = stream("1 10 10010001 0000001 00001 0000000");
    let mut reader = BitReader::new(&data);
    assert_eq!(reader.read_bitstream_blocks(), Err(DecodeError::InvalidBackReference));
    assert_eq!(reader.position(), 0);
    let data = stream("1 10 10010001 0000000");
    let mut reader = BitReader::new(&data);
    assert_eq!(reader.read_bitstream_blocks(), Ok(b"a".to_vec()));
    assert_eq!(reader.position(), 18);
    let mut reader = BitReader::new(&data);
    reader.read_bits(3, true).unwrap();
    assert_eq!(reader.read_bitstream_fixed_huffman(), Ok(b"a".to_vec()));
    assert_eq!(reader.position(), 18);
}

#[test]
fn get_vec_bool_keeps_the_reader_as_it_is() {
    let data = vec![0x4Bu8, 0x04, 0x00];
    let mut reader = BitReader::new(&data);
    reader.read_bits(3, true).unwrap();
    reader.get_vec_bool();
    assert_eq!(reader.position(), 3);
    assert_eq!(reader.read_bitstream_fixed_huffman(), Ok(b"a".to_vec()));
}
