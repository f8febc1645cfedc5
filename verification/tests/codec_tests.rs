use deflate::bitwriter::BitWriter;
use deflate::codec::decode;
use deflate::codec::encode;
use deflate::lz77::OutputBuffer;
use deflate::lz77::LZ77;
use deflate::stream::DecodeError;

/// Bytes without pattern, from a fixed seed.
fn scrambled(count: usize, seed: u64) -> Vec<u8> {
    let mut state = seed;
    let mut bytes = Vec::with_capacity(count);
    for _ in 0..count {
        state = state.wrapping_mul(6364136223846793005).wrapping_add(1442695040888963407);
        bytes.push((state >> 56) as u8);
    }
    bytes
}

fn round_trip(data: &[u8]) {
    let packed = encode(data);
    assert_eq!(decode(&packed), Ok(data.to_vec()));
}

#[test]
fn hello_world_round_trip() {
    let data = b"Hello, World!\n";
    assert_eq!(data.len(), 14);
    round_trip(data);
}

#[test]
fn ten_a_round_trip() {
    let data = b"aaaaaaaaaa";
    let packed = encode(data);
    assert_eq!(decode(&packed), Ok(data.to_vec()));
    // header, 'a', a match of nine bytes at distance 1, the end symbol
    let mut writer = BitWriter::new();
    writer.write_header();
    writer.write_single_literal(b'a');
    writer.write_length(9);
    writer.write_distance(1);
    writer.write_eob();
    writer.write_bitstream_buffer_little_endian();
    assert_eq!(&packed, writer.get_buffer());
    let mut matcher = LZ77::new(32768, 258);
    let mut text = OutputBuffer::new();
    matcher.compress(data, &mut text);
    assert_eq!(text.contents().as_slice(), b"a<9,1>");
}

#[test]
fn empty_round_trip() {
    let packed = encode(&[]);
    // the header, then the end symbol, in two bytes
    assert_eq!(packed, vec![0x03, 0x00]);
    assert_eq!(decode(&packed), Ok(Vec::new()));
}

#[test]
fn scrambled_bytes_round_trip() {
    let data = scrambled(65536, 1);
    round_trip(&data);
}

#[test]
fn matches_across_the_window_round_trip() {
    // 40000 bytes without pattern, then their start again: the repeat lies
    // further back than the window reaches, and its end within it
    let mut data = scrambled(40000, 7);
    let again: Vec<u8> = data[..20000].to_vec();
    data.extend_from_slice(&again);
    round_trip(&data);
    // a short pattern over more than two windows
    let mut data = Vec::new();
    for i in 0..70000u32 {
        data.push(b"abcdefg"[(i % 7) as usize]);
    }
    round_trip(&data);
}

#[test]
fn every_byte_value_round_trips() {
    let mut data: Vec<u8> = (0..=255).collect();
    data.extend((0..=255).rev());
    round_trip(&data);
    for byte in [0u8, 143, 144, 255] {
        round_trip(&[byte]);
        round_trip(&[byte, byte]);
        round_trip(&vec![byte; 1000]);
    }
}

#[test]
fn short_inputs_round_trip() {
    for length in 0..40usize {
        let data: Vec<u8> = (0..length).map(|i| b"abcab"[i % 5]).collect();
        round_trip(&data);
    }
}

#[test]
fn encode_gives_the_known_bytes() {
    // 1 10, then 'a' as 10010001, then seven clear bits
    assert_eq!(encode(b"a"), vec![0x4B, 0x04, 0x00]);
    assert_eq!(encode(b"hello"), vec![0xCB, 0x48, 0xCD, 0xC9, 0xC9, 0x07, 0x00]);
}

#[test]
fn decode_reads_a_known_stream() {
    assert_eq!(decode(&[0xCB, 0x48, 0xCD, 0xC9, 0xC9, 0x07, 0x00]), Ok(b"hello".to_vec()));
    assert_eq!(decode(&[0x4B, 0x04, 0x00]), Ok(b"a".to_vec()));
    assert_eq!(decode(&[0x03, 0x00]), Ok(Vec::new()));
}

#[test]
fn writer_keeps_what_it_wrote_before() {
    let mut writer = BitWriter::new();
    writer.write_bitstream_fixed_huffman(&b"a".to_vec());
    assert_eq!(writer.get_buffer(), &vec![0x4B, 0x04, 0x00]);
    assert_eq!(writer.get_vec_bool().len(), 24);
    // a second call adds a block to the bits and packs all of them again
    writer.write_bitstream_fixed_huffman(&Vec::new());
    assert_eq!(writer.get_vec_bool().len(), 40);
    assert_eq!(writer.get_buffer(), &vec![0x4B, 0x04, 0x00, 0x4B, 0x04, 0x00, 0x03, 0x00]);
}

#[test]
fn truncated_stream_fails() {
    let packed = encode(b"Hello, World!\n");
    for keep in 0..packed.len() - 1 {
        assert_eq!(decode(&packed[..keep]), Err(DecodeError::EndOfInput));
    }
}
