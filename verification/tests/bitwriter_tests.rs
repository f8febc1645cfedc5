use deflate::bitwriter::convert_distance_to_fixed_huffman_code;
use deflate::bitwriter::convert_length_to_fixed_huffman_code;
use deflate::bitwriter::convert_length_to_fixed_huffman_code_step_2;
use deflate::bitwriter::convert_to_fixed_huffman_code;
use deflate::bitwriter::get_fixed_huffman_code_length;
use deflate::bitwriter::get_fixed_huffman_code_length_for_u16;
use deflate::bitwriter::BitWriter;
use deflate::codec::decode;

/// Packs a stream written as `0` and `1`, in stream order, into bytes.
fn packed(bits: &str) -> Vec<u8> {
    let mut bytes: Vec<u8> = Vec::new();
    let mut count = 0;
    for c in bits.chars() {
        if c != '0' && c != '1' {
            continue;
        }
        if count % 8 == 0 {
            bytes.push(0);
        }
        if c == '1' {
            let last = bytes.len() - 1;
            bytes[last] |= 1 << (count % 8);
        }
        count += 1;
    }
    bytes
}

/// Compresses `data`, shows bytes and bits, and checks both against each
/// other and against the decoder.
fn write_and_check(data: &Vec<u8>) -> Vec<u8> {
    let mut bit_writer = BitWriter::new();
    bit_writer.write_bitstream_fixed_huffman(data);
    let buffer = bit_writer.get_buffer();
    println!("{:?}", buffer);
    let vec_bool = bit_writer.get_vec_bool();
    let mut vec_u8: Vec<u8> = Vec::new();
    for bit in vec_bool {
        if *bit {
            vec_u8.push(1);
        } else {
            vec_u8.push(0);
        }
    }
    println!("{:?}", vec_u8);
    assert_eq!(vec_u8.len(), buffer.len() * 8);
    for (i, bit) in vec_u8.iter().enumerate() {
        assert_eq!((buffer[i / 8] >> (i % 8)) & 1, *bit);
    }
    assert_eq!(decode(buffer), Ok(data.clone()));
    buffer.clone()
}

#[test]
fn test_write_bits_1() {
    let data: Vec<u8> = vec![0x00, 0x80, 0x8F, 0x90, 0xC0, 0xFF];
    let buffer = write_and_check(&data);
    assert_eq!(
        buffer,
        packed("1 10 00110000 10110000 10111111 110010000 111000000 111111111 0000000")
    );
}

#[test]
fn test_write_bits_2() {
    let data: Vec<u8> = Vec::new();
    let buffer = write_and_check(&data);
    assert_eq!(buffer, packed("1 10 0000000"));
}

#[test]
fn test_write_bits_3() {
    let data: Vec<u8> = vec![1, 1, 1, 1, 1];
    let buffer = write_and_check(&data);
    assert_eq!(buffer, packed("1 10 00110001 0000010 00000 0000000"));
}

#[test]
fn test_write_bits_4() {
    let data: Vec<u8> = vec![0x8E, 0x8F, 0x8E, 0x8F, 0x8E, 0x8F, 0x8E];
    let buffer = write_and_check(&data);
    assert_eq!(buffer, packed("1 10 10111110 10111111 0000011 00001 0000000"));
}

#[test]
fn test_write_bits_5() {
    let text = " _______________\n< Hello, World! >\n ---------------\n        \\   ^__^\n         \\  (oo)\\_______\n            (__)\\       )\\/\\\n                ||----w |\n                ||     ||\n";
    let data: Vec<u8> = text.as_bytes().to_vec();
    let buffer = write_and_check(&data);
    assert!(buffer.len() < data.len());
}

#[test]
fn test_write_bits_6() {
    // the same three bytes again and again, ever further apart
    let mut data: Vec<u8> = Vec::new();
    let mut gap = 1usize;
    let mut filler = 0u32;
    while gap < 40000 {
        data.extend_from_slice(b"\xF0\xF1\xF2");
        for _ in 0..gap {
            filler = filler.wrapping_mul(1103515245).wrapping_add(12345);
            data.push(((filler >> 16) % 200) as u8);
        }
        gap = gap * 2 + 1;
    }
    data.extend_from_slice(b"\xF0\xF1\xF2");
    write_and_check(&data);
}

#[test]
fn test_write_bits_7() {
    // runs of one byte, of every length from 1 to 300
    let mut data: Vec<u8> = Vec::new();
    for length in 1..=300usize {
        for _ in 0..length {
            data.push((length % 256) as u8);
        }
    }
    write_and_check(&data);
}

#[test]
fn test_convert_to_fixed_huffman_code() {
    assert_eq!(convert_to_fixed_huffman_code(0), 48);
    assert_eq!(convert_to_fixed_huffman_code(143), 191);
    assert_eq!(convert_to_fixed_huffman_code(144), 400);
    assert_eq!(convert_to_fixed_huffman_code(255), 511);
}

#[test]
fn test_integer_division() {
    let a = 16383 / (2 << 11);
    println!("{}", a);
    assert_eq!(a, 3);
}

#[test]
fn test_get_fixed_huffman_code_length() {
    assert_eq!(get_fixed_huffman_code_length(0), 8);
    assert_eq!(get_fixed_huffman_code_length(143), 8);
    assert_eq!(get_fixed_huffman_code_length(144), 9);
    assert_eq!(get_fixed_huffman_code_length(255), 9);
}

#[test]
fn test_convert_distance_to_fixed_huffman_code() {
    let (code_value, extra_bits, extra_value) = convert_distance_to_fixed_huffman_code(1);
    println!("{}, {}, {}", code_value, extra_bits, extra_value);
    assert_eq!((code_value, extra_bits, extra_value), (0, 0, 0));
    let (code_value, extra_bits, extra_value) = convert_distance_to_fixed_huffman_code(7);
    println!("{}, {}, {}", code_value, extra_bits, extra_value);
    assert_eq!((code_value, extra_bits, extra_value), (5, 1, 0));
    let (code_value, extra_bits, extra_value) = convert_distance_to_fixed_huffman_code(16384);
    println!("{}, {}, {}", code_value, extra_bits, extra_value);
    assert_eq!((code_value, extra_bits, extra_value), (27, 12, 4095));
    let (code_value, extra_bits, extra_value) = convert_distance_to_fixed_huffman_code(23);
    println!("{}, {}, {}", code_value, extra_bits, extra_value);
    assert_eq!((code_value, extra_bits, extra_value), (8, 3, 6));
    let (code_value, extra_bits, extra_value) = convert_distance_to_fixed_huffman_code(17);
    println!("{}, {}, {}", code_value, extra_bits, extra_value);
    assert_eq!((code_value, extra_bits, extra_value), (8, 3, 0));
}

#[test]
fn test_convert_length_to_fixed_huffman_code() {
    let (code_value, extra_bits, extra_value) = convert_length_to_fixed_huffman_code(3);
    println!("{}, {}, {}", code_value, extra_bits, extra_value);
    assert_eq!((code_value, extra_bits, extra_value), (257, 0, 0));
    let (code_value, extra_bits, extra_value) = convert_length_to_fixed_huffman_code(10);
    println!("{}, {}, {}", code_value, extra_bits, extra_value);
    assert_eq!((code_value, extra_bits, extra_value), (264, 0, 0));
    let (code_value, extra_bits, extra_value) = convert_length_to_fixed_huffman_code(156);
    println!("{}, {}, {}", code_value, extra_bits, extra_value);
    assert_eq!((code_value, extra_bits, extra_value), (281, 5, 25));
    let real_huffman = convert_length_to_fixed_huffman_code_step_2(code_value);
    println!("{}", real_huffman);
    assert_eq!(real_huffman, 193);
}

#[test]
fn test_convert_to_fixed_huffman_code_2() {
    let real_value = 'A' as u8;
    let fixed_huffman_code = convert_to_fixed_huffman_code(real_value);
    println!("{}", fixed_huffman_code);
    assert_eq!(fixed_huffman_code, 113);
}

#[test]
fn length_codes_cover_every_length() {
    let bases: [u16; 29] = [
        3, 4, 5, 6, 7, 8, 9, 10, 11, 13, 15, 17, 19, 23, 27, 31, 35, 43, 51, 59, 67, 83, 99, 115,
        131, 163, 195, 227, 258,
    ];
    let extras: [u16; 29] = [
        0, 0, 0, 0, 0, 0, 0, 0, 1, 1, 1, 1, 2, 2, 2, 2, 3, 3, 3, 3, 4, 4, 4, 4, 5, 5, 5, 5, 0,
    ];
    for length in 3u16..=258 {
        let (code, extra_bits, extra_value) = convert_length_to_fixed_huffman_code(length);
        assert!((257..=285).contains(&code));
        let index = (code - 257) as usize;
        assert_eq!(extra_bits, extras[index]);
        assert_eq!(bases[index] + extra_value, length);
        assert!(extra_value < (1 << extra_bits));
    }
    assert_eq!(convert_length_to_fixed_huffman_code(257), (284, 5, 30));
    assert_eq!(convert_length_to_fixed_huffman_code(258), (285, 0, 0));
}

#[test]
fn distance_codes_cover_every_distance() {
    let bases: [u32; 30] = [
        1, 2, 3, 4, 5, 7, 9, 13, 17, 25, 33, 49, 65, 97, 129, 193, 257, 385, 513, 769, 1025, 1537,
        2049, 3073, 4097, 6145, 8193, 12289, 16385, 24577,
    ];
    let extras: [u16; 30] = [
        0, 0, 0, 0, 1, 1, 2, 2, 3, 3, 4, 4, 5, 5, 6, 6, 7, 7, 8, 8, 9, 9, 10, 10, 11, 11, 12, 12,
        13, 13,
    ];
    for distance in 1u32..=32768 {
        let (code, extra_bits, extra_value) =
            convert_distance_to_fixed_huffman_code(distance as u16);
        assert!(code <= 29);
        assert_eq!(extra_bits, extras[code as usize]);
        assert_eq!(bases[code as usize] + extra_value as u32, distance);
        assert!((extra_value as u32) < (1u32 << extra_bits));
    }
    assert_eq!(convert_distance_to_fixed_huffman_code(32768), (29, 13, 8191));
}

#[test]
fn step_2_gives_seven_and_eight_bit_words() {
    assert_eq!(convert_length_to_fixed_huffman_code_step_2(256), 0);
    assert_eq!(convert_length_to_fixed_huffman_code_step_2(279), 23);
    assert_eq!(convert_length_to_fixed_huffman_code_step_2(280), 192);
    assert_eq!(convert_length_to_fixed_huffman_code_step_2(287), 199);
    assert_eq!(get_fixed_huffman_code_length_for_u16(256), 7);
    assert_eq!(get_fixed_huffman_code_length_for_u16(279), 7);
    assert_eq!(get_fixed_huffman_code_length_for_u16(280), 8);
    assert_eq!(get_fixed_huffman_code_length_for_u16(285), 8);
}

#[test]
fn write_single_general_orders_bits() {
    let mut writer = BitWriter::new();
    writer.write_single_general(0b110, 3, false);
    writer.write_single_general(0b110, 3, true);
    assert_eq!(writer.get_vec_bool(), &vec![true, true, false, false, true, true]);
    writer.align_to_byte();
    assert_eq!(writer.get_vec_bool().len(), 8);
    writer.write_bitstream_buffer_little_endian();
    assert_eq!(writer.get_buffer(), &vec![0b0011_0011u8]);
}

#[test]
fn packing_puts_the_first_bit_lowest() {
    let mut writer = BitWriter::new();
    writer.write_single_general(1, 1, true);
    for _ in 0..8 {
        writer.write_single_general(0, 1, true);
    }
    writer.write_single_general(1, 1, true);
    writer.write_bitstream_buffer_little_endian();
    assert_eq!(writer.get_buffer(), &vec![0x01u8, 0x02u8]);
}

#[test]
fn empty_input_is_one_block_with_the_end_symbol() {
    let mut writer = BitWriter::new();
    writer.write_bitstream_fixed_huffman(&Vec::new());
    let mut expected = vec![true, true, false];
    expected.extend(vec![false; 7]);
    expected.extend(vec![false; 6]);
    assert_eq!(writer.get_vec_bool(), &expected);
    assert_eq!(writer.get_buffer(), &vec![0x03u8, 0x00u8]);
}

#[test]
fn literals_are_written_most_significant_bit_first() {
    let mut writer = BitWriter::new();
    writer.write_single_literal(0x00);
    writer.write_single_literal(0x90);
    let bits: Vec<u8> = writer.get_vec_bool().iter().map(|&b| b as u8).collect();
    assert_eq!(bits, vec![0, 0, 1, 1, 0, 0, 0, 0, 1, 1, 0, 0, 1, 0, 0, 0, 0]);
}

#[test]
fn match_is_length_then_distance() {
    let mut writer = BitWriter::new();
    writer.write_length(13);
    writer.write_distance(7);
    let bits: Vec<u8> = writer.get_vec_bool().iter().map(|&b| b as u8).collect();
    // length 13: symbol 266 (word 0001010), one extra bit 0
    // distance 7: code 5 (00101), one extra bit 0
    assert_eq!(bits, vec![0, 0, 0, 1, 0, 1, 0, 0, 0, 0, 1, 0, 1, 0]);
    let mut writer = BitWriter::new();
    writer.write_length(258);
    writer.write_distance(32768);
    let bits: Vec<u8> = writer.get_vec_bool().iter().map(|&b| b as u8).collect();
    // length 258: symbol 285, word 11000101; distance 32768: code 29 and 13 set bits
    let mut expected = vec![1, 1, 0, 0, 0, 1, 0, 1, 1, 1, 1, 0, 1];
    expected.extend(vec![1u8; 13]);
    assert_eq!(bits, expected);
}
