use deflate::lz77::OutputBuffer;
use deflate::lz77::LZ77;

fn tokens_as_text(input: &[u8]) -> String {
    let mut compressor = LZ77::new(32768, 258);
    let mut output_buffer = OutputBuffer::new();
    compressor.compress(input, &mut output_buffer);
    String::from_utf8(output_buffer.contents().clone()).unwrap()
}

#[test]
fn test_lz77() {
    let mut compressor = LZ77::new(32768, 258);
    let mut output_buffer = OutputBuffer::new();

    let input = b"abcabcaaaaabcabcaaooooooabcabaca";
    compressor.compress(input, &mut output_buffer);
    let output_str = std::str::from_utf8(output_buffer.contents()).unwrap();
    println!("{}", output_str);
    assert_eq!(output_str, "abc<4,3>a<3,1><7,10>o<5,1><5,24>aca");
}

#[test]
fn short_inputs_are_literals() {
    assert_eq!(tokens_as_text(b""), "");
    assert_eq!(tokens_as_text(b"a"), "a");
    assert_eq!(tokens_as_text(b"ab"), "ab");
    assert_eq!(tokens_as_text(b"abc"), "abc");
    assert_eq!(tokens_as_text(b"aaa"), "aaa");
}

#[test]
fn a_run_is_one_literal_and_one_overlapping_match() {
    assert_eq!(tokens_as_text(b"aaaaaaaaaa"), "a<9,1>");
    assert_eq!(tokens_as_text(b"aaaa"), "a<3,1>");
}

#[test]
fn a_repeat_is_found_at_its_distance() {
    assert_eq!(tokens_as_text(b"abcdeabcde"), "abcde<5,5>");
    assert_eq!(tokens_as_text(b"abcXabcYabcZ"), "abcX<3,4>Y<3,4>Z");
}

#[test]
fn of_two_longest_matches_the_nearest_is_taken() {
    // "abc" stands at 0 and at 4; both give a match of three bytes at 8.
    assert_eq!(tokens_as_text(b"abcXabcYabc"), "abcX<3,4>Y<3,4>");
}

#[test]
fn a_match_is_no_longer_than_the_lookahead() {
    // The last position of a match is not recorded, so the next match starts
    // two bytes behind the nearest recorded position.
    let input = vec![b'z'; 600];
    assert_eq!(tokens_as_text(&input), "z<258,1><258,2><83,2>");
    let mut compressor = LZ77::new(32768, 10);
    let mut output_buffer = OutputBuffer::new();
    compressor.compress(&input[..30], &mut output_buffer);
    assert_eq!(output_buffer.contents().as_slice(), b"z<10,1><10,2><9,2>");
}

#[test]
fn a_match_reaches_no_further_back_than_the_window() {
    let mut compressor = LZ77::new(4, 258);
    let mut output_buffer = OutputBuffer::new();
    // "abc" at 0 is five bytes before "abc" at 5: outside a window of four.
    compressor.compress(b"abcXYabc", &mut output_buffer);
    assert_eq!(output_buffer.contents().as_slice(), b"abcXYabc");
    let mut compressor = LZ77::new(5, 258);
    let mut output_buffer = OutputBuffer::new();
    compressor.compress(b"abcXYabc", &mut output_buffer);
    assert_eq!(output_buffer.contents().as_slice(), b"abcXY<3,5>");
}

#[test]
fn compress_starts_from_an_empty_index() {
    let mut compressor = LZ77::new(32768, 258);
    compressor.add_to_hash(b"abc", 0);
    compressor.update_hash(100000);
    let mut first = OutputBuffer::new();
    compressor.compress(b"abcabc", &mut first);
    assert_eq!(first.contents().as_slice(), b"abc<3,3>");
    let mut second = OutputBuffer::new();
    compressor.compress(b"abcabc", &mut second);
    assert_eq!(second.contents().as_slice(), b"abc<3,3>");
}

#[test]
fn output_buffer_renders_pairs_in_decimal() {
    let mut output_buffer = OutputBuffer::new();
    output_buffer.append_literal(b'x');
    output_buffer.append_pair(258, 32768);
    output_buffer.append_pair(0, 7);
    output_buffer.append_literal(b'<');
    assert_eq!(output_buffer.contents().as_slice(), b"x<258,32768><0,7><");
}
