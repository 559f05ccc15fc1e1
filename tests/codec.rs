use piston::{
    build_huffman_tree, code_table, compress, decode, decompress, encode, frequency_table,
    BitBuffer, CodeEntry, CodecError, HuffmanNode, PistonService,
};

fn round_trip(input: &[u8]) -> Vec<u8> {
    let data = input.to_vec();
    let c = compress(&data);
    assert_eq!(c.count, data.len());
    decompress(&c.data, c.count, &c.table).unwrap()
}

fn is_prefix(p: &[bool], q: &[bool]) -> bool {
    p.len() <= q.len() && q[..p.len()] == *p
}

fn assert_prefix_free(table: &[CodeEntry]) {
    for i in 0..table.len() {
        for j in 0..table.len() {
            if i != j {
                assert!(!is_prefix(&table[i].path, &table[j].path));
                assert_ne!(table[i].symbol, table[j].symbol);
            }
        }
    }
}

#[test]
fn literal_scenario_aaab() {
    let data = b"aaab".to_vec();
    assert_eq!(frequency_table(&data), vec![(b'a', 3), (b'b', 1)]);
    let tree = build_huffman_tree(&data).unwrap();
    assert_eq!(tree.frequency(), 4);
    assert!(matches!(tree, HuffmanNode::Internal { .. }));
    let c = compress(&data);
    assert_eq!(c.count, 4);
    assert_eq!(c.table.len(), 2);
    for e in &c.table {
        assert_eq!(e.path.len(), 1);
    }
    assert_ne!(c.table[0].path, c.table[1].path);
    // b is the lighter leaf and goes left; a goes right: 1110 then padding.
    assert_eq!(c.table[0].symbol, b'b');
    assert_eq!(c.table[0].path, vec![false]);
    assert_eq!(c.table[1].symbol, b'a');
    assert_eq!(c.table[1].path, vec![true]);
    assert_eq!(c.data, vec![0b1110_0000]);
    assert_eq!(decompress(&c.data, c.count, &c.table), Ok(data));
}

#[test]
fn round_trip_various_inputs() {
    let inputs: Vec<Vec<u8>> = vec![
        vec![],
        vec![0],
        vec![255, 0],
        b"hello, world".to_vec(),
        b"abracadabra alakazam".to_vec(),
        (0..=255u8).collect(),
        (0..2000u32).map(|i| ((i * i + 7 * i) % 251) as u8).collect(),
        (0..500u32).map(|i| if i % 17 == 0 { 200 } else { (i % 3) as u8 }).collect(),
    ];
    for input in inputs {
        assert_eq!(round_trip(&input), input);
    }
}

#[test]
fn code_table_is_prefix_free() {
    let inputs: Vec<Vec<u8>> = vec![
        b"mississippi river".to_vec(),
        (0..=255u8).collect(),
        (0..300u32).map(|i| (i % 13) as u8).collect(),
        vec![1, 1, 2, 3, 5, 8, 13, 21, 34, 55, 89, 144, 233],
    ];
    for input in inputs {
        let c = compress(&input);
        assert_prefix_free(&c.table);
        let tree = build_huffman_tree(&input).unwrap();
        assert_prefix_free(&code_table(&tree));
    }
}

#[test]
fn table_covers_exactly_the_alphabet() {
    let input = b"the quick brown fox".to_vec();
    let c = compress(&input);
    let mut expected: Vec<u8> = input.clone();
    expected.sort();
    expected.dedup();
    let mut got: Vec<u8> = c.table.iter().map(|e| e.symbol).collect();
    got.sort();
    assert_eq!(got, expected);
}

#[test]
fn skewed_input_shrinks() {
    let mut input = vec![b'x'; 1000];
    input.push(b'y');
    let c = compress(&input);
    assert!(c.data.len() < input.len());
    assert_eq!(c.data.len(), 126);
    assert_eq!(decompress(&c.data, c.count, &c.table), Ok(input));
}

#[test]
fn single_symbol_input() {
    let input = vec![0x41u8; 100];
    let c = compress(&input);
    assert_eq!(c.count, 100);
    assert_eq!(c.table.len(), 1);
    assert_eq!(c.table[0].symbol, 0x41);
    assert!(c.table[0].path.is_empty());
    assert!(c.data.is_empty());
    assert_eq!(decompress(&c.data, c.count, &c.table), Ok(input));
    let tree = build_huffman_tree(&vec![0x41u8; 100]).unwrap();
    assert!(matches!(tree, HuffmanNode::Leaf { frequency: 100, symbol: 0x41 }));
}

#[test]
fn empty_input() {
    let c = compress(&Vec::new());
    assert!(c.data.is_empty());
    assert_eq!(c.count, 0);
    assert!(c.table.is_empty());
    assert_eq!(decompress(&c.data, c.count, &c.table), Ok(vec![]));
    assert!(build_huffman_tree(&Vec::new()).is_none());
    assert!(frequency_table(&Vec::new()).is_empty());
}

#[test]
fn count_beyond_bits_is_corruption() {
    let input = b"abcabcabcd".to_vec();
    let c = compress(&input);
    assert_eq!(
        decompress(&c.data, c.count + 8 * c.data.len() + 1, &c.table),
        Err(CodecError::DataCorruption)
    );
    assert_eq!(decompress(&vec![], 1, &c.table), Err(CodecError::DataCorruption));
}

#[test]
fn empty_table_with_count_is_invalid() {
    assert_eq!(decompress(&vec![0xff], 3, &vec![]), Err(CodecError::InvalidArgument));
    assert_eq!(decompress(&vec![0xff], 0, &vec![]), Ok(vec![]));
}

#[test]
fn encode_missing_symbol_is_internal_error() {
    let table = vec![CodeEntry { symbol: 1, path: vec![false] }];
    assert!(matches!(encode(&vec![1, 2], &table), Err(CodecError::InternalConsistency)));
    let ok = encode(&vec![1, 1, 1], &table).unwrap();
    assert_eq!(ok.len(), 3);
}

#[test]
fn decode_reads_bits_in_order() {
    let table = vec![
        CodeEntry { symbol: 7, path: vec![false] },
        CodeEntry { symbol: 8, path: vec![true, false] },
        CodeEntry { symbol: 9, path: vec![true, true] },
    ];
    // 0 10 11 0 | padding
    let bits = BitBuffer::from_bytes(&vec![0b0101_1000]);
    assert_eq!(decode(&bits, 4, &table), Ok(vec![7, 8, 9, 7]));
    assert_eq!(decompress(&vec![0b0101_1000], 4, &table), Ok(vec![7, 8, 9, 7]));
    assert_eq!(decode(&bits, 8, &table), Err(CodecError::DataCorruption));
}

#[test]
fn bit_buffer_packs_most_significant_first() {
    let mut b = BitBuffer::new();
    assert_eq!(b.len(), 0);
    b.push(true);
    b.push(false);
    b.append(&vec![true, true]);
    assert_eq!(b.len(), 4);
    assert_eq!(b.get(0), Some(true));
    assert_eq!(b.get(1), Some(false));
    assert_eq!(b.get(4), None);
    assert_eq!(b.to_bytes(), vec![0b1011_0000]);
    let mut nine = BitBuffer::new();
    for i in 0..9 {
        nine.push(i == 2 || i == 8);
    }
    assert_eq!(nine.to_bytes(), vec![0b0010_0000, 0b1000_0000]);
}

#[test]
fn bit_buffer_unpacks_eight_bits_per_byte() {
    let b = BitBuffer::from_bytes(&vec![0b1010_0000, 0b0001_0010]);
    assert_eq!(b.len(), 16);
    let expected = [
        true, false, true, false, false, false, false, false, false, false, false, true, false,
        false, true, false,
    ];
    for (i, e) in expected.iter().enumerate() {
        assert_eq!(b.get(i), Some(*e));
    }
}

#[test]
fn frequency_table_counts_sorted() {
    let data = vec![5u8, 3, 5, 255, 0, 5, 3];
    assert_eq!(frequency_table(&data), vec![(0, 1), (3, 2), (5, 3), (255, 1)]);
}

#[test]
fn tree_frequency_and_contains() {
    let data = b"aabbbbc".to_vec();
    let tree = build_huffman_tree(&data).unwrap();
    assert_eq!(tree.frequency(), 7);
    assert!(tree.contains(b'a'));
    assert!(tree.contains(b'b'));
    assert!(tree.contains(b'c'));
    assert!(!tree.contains(b'd'));
    match &tree {
        HuffmanNode::Internal { left, right, .. } => {
            assert_eq!(left.frequency() + right.frequency(), 7);
        }
        HuffmanNode::Leaf { .. } => panic!("expected an internal root"),
    }
    let leaf = HuffmanNode::Leaf { frequency: 3, symbol: 9 };
    assert_eq!(leaf.frequency(), 3);
    assert!(leaf.contains(9));
    assert!(!leaf.contains(8));
}

#[test]
fn huffman_tree_merges_least_frequent_first() {
    // a:1 b:1 c:2 d:4 gives depths 3, 3, 2, 1.
    let data = b"abccdddd".to_vec();
    let tree = build_huffman_tree(&data).unwrap();
    let table = code_table(&tree);
    let len_of = |s: u8| table.iter().find(|e| e.symbol == s).unwrap().path.len();
    assert_eq!(len_of(b'a'), 3);
    assert_eq!(len_of(b'b'), 3);
    assert_eq!(len_of(b'c'), 2);
    assert_eq!(len_of(b'd'), 1);
    let c = compress(&data);
    assert_eq!(c.data.len(), 2);
}

#[test]
fn service_round_trip() {
    let service = PistonService::default();
    let input = b"service payload payload".to_vec();
    let c = service.compress(&input);
    assert_eq!(c.count, input.len());
    assert_eq!(service.decompress(&c.data, c.count, &c.table), Ok(input));
    assert_eq!(service.decompress(&vec![], 2, &vec![]), Err(CodecError::InvalidArgument));
}
