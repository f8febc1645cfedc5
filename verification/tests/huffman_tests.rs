use deflate::huffman::check_code_lengths;
use deflate::huffman::delete_zero_from_lengths_and_alphabets;
use deflate::huffman::generate_no_zero_lengths_and_alphabets;
use deflate::huffman::get_mapping_from_canonical_huffman_lengths;
use std::collections::HashMap;

fn pairs(map: &HashMap<u16, u16>) -> Vec<(u16, u16)> {
    let mut pairs: Vec<(u16, u16)> = map.iter().map(|(&code, &symbol)| (code, symbol)).collect();
    pairs.sort();
    pairs
}

#[test]
fn test_get_mapping_from_canonical_huffman_lengths() {
    let list_lengths = vec![3, 3, 3, 3, 3, 2, 4, 4];
    let alphabets = vec![0, 1, 2, 3, 4, 5, 6, 7];
    let result = get_mapping_from_canonical_huffman_lengths(list_lengths, alphabets);
    println!("{:?}", result);
    assert_eq!(result.len(), 5);
    assert!(result[0].is_empty());
    assert!(result[1].is_empty());
    assert_eq!(pairs(&result[2]), vec![(0b00, 5)]);
    assert_eq!(
        pairs(&result[3]),
        vec![(0b010, 0), (0b011, 1), (0b100, 2), (0b101, 3), (0b110, 4)]
    );
    assert_eq!(pairs(&result[4]), vec![(0b1110, 6), (0b1111, 7)]);
}

#[test]
fn test_get_mapping_from_canonical_huffman_lengths_2() {
    let list_lengths = vec![2; 4];
    let alphabets = vec![0, 1, 2, 18];
    let result = get_mapping_from_canonical_huffman_lengths(list_lengths, alphabets);
    println!("{:?}", result);
    assert_eq!(result.len(), 3);
    assert_eq!(pairs(&result[2]), vec![(0, 0), (1, 1), (2, 2), (3, 18)]);

    let list_lengths = vec![2, 1, 2];
    let alphabets = vec![1, 256, 257];
    let result = get_mapping_from_canonical_huffman_lengths(list_lengths, alphabets);
    println!("hlit map is {:?}", result);
    assert_eq!(result.len(), 3);
    assert_eq!(pairs(&result[1]), vec![(0, 256)]);
    assert_eq!(pairs(&result[2]), vec![(0b10, 1), (0b11, 257)]);

    let list_lengths = vec![1];
    let alphabets = vec![0];
    let result = get_mapping_from_canonical_huffman_lengths(list_lengths, alphabets);
    println!("hlit map is {:?}", result);
    assert_eq!(result.len(), 2);
    assert!(result[0].is_empty());
    assert_eq!(pairs(&result[1]), vec![(0, 0)]);
}

#[test]
fn test_dynamic_huffman_empty() {
    let list_lengths = vec![1, 1];
    let alphabets = vec![1, 18];
    let map = get_mapping_from_canonical_huffman_lengths(list_lengths, alphabets);
    println!("{:?}", map);
    assert_eq!(map.len(), 2);
    assert_eq!(pairs(&map[1]), vec![(0, 1), (1, 18)]);
}

#[test]
fn no_lengths_give_no_table() {
    let table = get_mapping_from_canonical_huffman_lengths(Vec::new(), Vec::new());
    assert!(table.is_empty());
}

#[test]
fn lengths_of_zero_have_no_code() {
    let table = get_mapping_from_canonical_huffman_lengths(vec![0, 1, 0, 1], vec![10, 11, 12, 13]);
    assert_eq!(table.len(), 2);
    assert!(table[0].is_empty());
    assert_eq!(pairs(&table[1]), vec![(0, 11), (1, 13)]);
    let table = get_mapping_from_canonical_huffman_lengths(vec![0, 0], vec![0, 1]);
    assert_eq!(table.len(), 1);
    assert!(table[0].is_empty());
}

#[test]
fn codes_of_fifteen_bits_fit() {
    // one code each of 1 to 14 bits and two of 15: a full tree
    let mut lengths: Vec<usize> = (1..=15).collect();
    lengths.push(15);
    let alphabets: Vec<usize> = (0..16).collect();
    assert!(check_code_lengths(&lengths));
    let table = get_mapping_from_canonical_huffman_lengths(lengths, alphabets);
    assert_eq!(table.len(), 16);
    assert_eq!(pairs(&table[1]), vec![(0, 0)]);
    assert_eq!(pairs(&table[2]), vec![(0b10, 1)]);
    assert_eq!(pairs(&table[14]), vec![(0b11_1111_1111_1110, 13)]);
    assert_eq!(
        pairs(&table[15]),
        vec![(0b111_1111_1111_1110, 14), (0b111_1111_1111_1111, 15)]
    );
}

#[test]
fn recovering_lengths_from_a_table_gives_them_back() {
    let lengths: Vec<usize> = vec![3, 0, 3, 3, 3, 3, 2, 0, 4, 4];
    let alphabets: Vec<usize> = (0..10).collect();
    let table = get_mapping_from_canonical_huffman_lengths(lengths.clone(), alphabets);
    let mut recovered = vec![0usize; 10];
    for (length, map) in table.iter().enumerate() {
        for (_, &symbol) in map.iter() {
            assert_eq!(recovered[symbol as usize], 0);
            recovered[symbol as usize] = length;
        }
    }
    assert_eq!(recovered, lengths);
}

#[test]
fn check_code_lengths_accepts_full_and_degenerate_trees() {
    assert!(check_code_lengths(&vec![]));
    assert!(check_code_lengths(&vec![0, 0, 0]));
    assert!(check_code_lengths(&vec![1]));
    assert!(check_code_lengths(&vec![0, 7, 0]));
    assert!(check_code_lengths(&vec![15]));
    assert!(check_code_lengths(&vec![1, 1]));
    assert!(check_code_lengths(&vec![2, 1, 2]));
    assert!(check_code_lengths(&vec![3, 3, 3, 3, 3, 2, 4, 4]));
}

#[test]
fn check_code_lengths_rejects_other_trees() {
    // not full
    assert!(!check_code_lengths(&vec![2, 2]));
    assert!(!check_code_lengths(&vec![1, 2]));
    assert!(!check_code_lengths(&vec![3, 3, 3, 3, 3, 2, 4]));
    // more codes than the code space holds
    assert!(!check_code_lengths(&vec![1, 1, 1]));
    assert!(!check_code_lengths(&vec![1, 1, 2]));
    // a length above 15
    assert!(!check_code_lengths(&vec![16]));
    assert!(!check_code_lengths(&vec![1, 16]));
    assert!(!check_code_lengths(&vec![usize::MAX]));
}

#[test]
fn zero_lengths_are_left_out() {
    let (lengths, names) =
        delete_zero_from_lengths_and_alphabets(vec![0, 2, 0, 1, 2], vec![7, 8, 9, 256, 257]);
    assert_eq!(lengths, vec![2, 1, 2]);
    assert_eq!(names, vec![8, 256, 257]);
    let (lengths, symbols) = generate_no_zero_lengths_and_alphabets(vec![0, 2, 0, 1, 2]);
    assert_eq!(lengths, vec![2, 1, 2]);
    assert_eq!(symbols, vec![1, 3, 4]);
    let (lengths, symbols) = generate_no_zero_lengths_and_alphabets(vec![0, 0]);
    assert!(lengths.is_empty());
    assert!(symbols.is_empty());
}
