use std::collections::HashMap;
use ymir::error::CacheError;
use ymir::huffman::{
    get_frequencies, huffman_decode, huffman_encode, huffman_table, lookup_table, queue_push,
    MinHeapNode,
};

fn code_table(buffer: &[u8]) -> HashMap<u8, Vec<u8>> {
    let (symbols, freqs) = get_frequencies(buffer);
    let mut queue = huffman_table(symbols, &freqs);
    let mut table = HashMap::new();
    lookup_table(queue.pop().map(Box::new), Vec::new(), &mut table);
    table
}

/// A buffer in which byte value `k` occurs as often as the Fibonacci
/// number of `k` says, for the values below `symbols`.
fn fibonacci_buffer(symbols: u8) -> Vec<u8> {
    let mut buffer = Vec::new();
    let (mut a, mut b) = (1usize, 1usize);
    for value in 0..symbols {
        buffer.extend(std::iter::repeat(value).take(a));
        let next = a + b;
        a = b;
        b = next;
    }
    buffer
}

#[test]
fn round_trip_of_a_short_text() {
    let text = b"abracadabra".to_vec();
    let encoded = huffman_encode(&text).unwrap();
    assert_eq!(huffman_decode(&encoded).unwrap(), text);
}

#[test]
fn round_trip_of_two_bytes() {
    // Six padding bits follow the two codes; none of them may read as a byte:
    // the code of zero bits is lengthened.
    let text = b"ab".to_vec();
    let encoded = huffman_encode(&text).unwrap();
    assert_eq!(huffman_decode(&encoded).unwrap(), text);
}

#[test]
fn round_trip_of_every_byte_value() {
    let mut buffer: Vec<u8> = (0..=255u8).collect();
    buffer.extend((0..=255u8).filter(|b| b % 3 == 0));
    buffer.extend(std::iter::repeat(7u8).take(1000));
    let encoded = huffman_encode(&buffer).unwrap();
    assert_eq!(huffman_decode(&encoded).unwrap(), buffer);
}

#[test]
fn round_trip_of_every_length_up_to_a_hundred() {
    for len in 0..100usize {
        let buffer: Vec<u8> = (0..len).map(|i| (i * i % 11) as u8).collect();
        let encoded = huffman_encode(&buffer).unwrap();
        assert_eq!(huffman_decode(&encoded).unwrap(), buffer, "length {len}");
    }
}

#[test]
fn empty_buffer_is_two_zero_bytes() {
    let encoded = huffman_encode(&[]).unwrap();
    assert_eq!(encoded, vec![0u8, 0u8]);
    assert_eq!(huffman_decode(&encoded).unwrap(), Vec::<u8>::new());
}

/// The summed length of the codes of a buffer under the shortest prefix code
/// there is: the sum of the frequencies of all merged nodes.
fn least_cost(freqs: &[u64]) -> u64 {
    let mut heap: std::collections::BinaryHeap<std::cmp::Reverse<u64>> =
        freqs.iter().map(|f| std::cmp::Reverse(*f)).collect();
    let mut cost = 0;
    while heap.len() > 1 {
        let a = heap.pop().unwrap().0;
        let b = heap.pop().unwrap().0;
        cost += a + b;
        heap.push(std::cmp::Reverse(a + b));
    }
    cost
}

#[test]
fn codes_of_the_tree_are_as_short_as_a_prefix_code_can_be() {
    let mut seed = 12345u64;
    for round in 0..200u64 {
        let len = 2 + (round * 37 % 400) as usize;
        let spread = 2 + (round % 40);
        let buffer: Vec<u8> = (0..len)
            .map(|_| {
                seed = seed.wrapping_mul(6364136223846793005).wrapping_add(1442695040888963407);
                let r = (seed >> 33) % spread;
                (r * r % spread) as u8
            })
            .collect();
        let (symbols, freqs) = get_frequencies(&buffer);
        if symbols.len() < 2 {
            continue;
        }
        let table = code_table(&buffer);
        let cost: u64 =
            symbols.iter().zip(&freqs).map(|(s, f)| table[s].len() as u64 * f).sum();
        assert_eq!(cost, least_cost(&freqs), "round {round}");
    }
}

#[test]
fn frequent_value_never_has_the_longer_code() {
    let buffer: Vec<u8> = (0..3000u32).map(|i| (i * i * 7 % 61 % 23) as u8).collect();
    let (symbols, freqs) = get_frequencies(&buffer);
    let table = code_table(&buffer);
    for (a, fa) in symbols.iter().zip(&freqs) {
        for (b, fb) in symbols.iter().zip(&freqs) {
            if fa > fb {
                assert!(table[a].len() <= table[b].len(), "{a} against {b}");
            }
        }
    }
}

#[test]
fn one_repeated_byte_gets_a_code_of_one_bit() {
    let buffer = vec![b'a'; 3];
    let encoded = huffman_encode(&buffer).unwrap();
    // table length 4, entry (a, 1 bit, code 1 left-justified), stream 111 padded
    assert_eq!(encoded, vec![4, 0, b'a', 1, 0x00, 0x80, 0b1110_0000]);
    assert_eq!(huffman_decode(&encoded).unwrap(), buffer);
}

#[test]
fn one_repeated_byte_of_many_lengths() {
    for len in 1..40usize {
        let buffer = vec![0u8; len];
        let encoded = huffman_encode(&buffer).unwrap();
        assert_eq!(encoded.len(), 2 + 4 + (len + 7) / 8);
        assert_eq!(huffman_decode(&encoded).unwrap(), buffer);
    }
}

#[test]
fn codes_of_the_tree_are_written_where_no_padding_can_be_misread() {
    // b is the rarer and goes left: b gets the code 0, a the code 1. The eight
    // bits fill a byte, so nothing is padded and nothing lengthened.
    let encoded = huffman_encode(b"aaaaaabb").unwrap();
    assert_eq!(
        encoded,
        vec![8, 0, b'a', 1, 0x00, 0x80, b'b', 1, 0x00, 0x00, 0xfc]
    );
    assert_eq!(huffman_decode(&encoded).unwrap(), b"aaaaaabb".to_vec());
}

#[test]
fn code_of_zero_bits_is_kept_while_it_is_longer_than_the_padding() {
    // b and c are merged first, b to the left, and go left of a: b = 00,
    // c = 01, a = 1. The stream 1 1 1 1 00 01 has 8 bits: no padding.
    let encoded = huffman_encode(b"aaaabc").unwrap();
    assert_eq!(
        encoded,
        vec![12, 0, b'a', 1, 0x00, 0x80, b'b', 2, 0x00, 0x00, b'c', 2, 0x00, 0x40, 0b1111_0001]
    );
    assert_eq!(huffman_decode(&encoded).unwrap(), b"aaaabc".to_vec());
    // With one a more the stream has 9 bits and 7 are padded: b becomes 001.
    let encoded = huffman_encode(b"aaaaabc").unwrap();
    assert_eq!(
        encoded,
        vec![
            12, 0, b'a', 1, 0x00, 0x80, b'b', 3, 0x00, 0x20, b'c', 2, 0x00, 0x40, 0b1111_1001,
            0b0100_0000
        ]
    );
    assert_eq!(huffman_decode(&encoded).unwrap(), b"aaaaabc".to_vec());
}

#[test]
fn code_of_zero_bits_is_lengthened_only_for_padding_that_could_be_misread() {
    // 11 bits: five zero bits are padded, and the code 00 of b could be read
    // from them twice over. It is lengthened to 001.
    let encoded = huffman_encode(b"aaaaaaabc").unwrap();
    assert_eq!(&encoded[6..10], &[b'b', 3, 0x00, 0x20]);
    assert_eq!(huffman_decode(&encoded).unwrap(), b"aaaaaaabc".to_vec());
    // 15 bits: one zero bit is padded, too few for the code 00, which stays.
    let encoded = huffman_encode(b"aaaaaaaaaaabc").unwrap();
    assert_eq!(&encoded[6..10], &[b'b', 2, 0x00, 0x00]);
    assert_eq!(encoded[14..], [0xff, 0b1110_0010]);
    assert_eq!(huffman_decode(&encoded).unwrap(), b"aaaaaaaaaaabc".to_vec());
}

#[test]
fn encoded_bytes_of_a_small_buffer() {
    // a occurs twice, b once: b goes left and would get the code 0, a the
    // code 1. Five zero bits are padded behind the three of the stream, so
    // the code of b is lengthened to 01.
    let encoded = huffman_encode(b"aab").unwrap();
    assert_eq!(
        encoded,
        vec![8, 0, b'a', 1, 0x00, 0x80, b'b', 2, 0x00, 0x40, 0b1101_0000]
    );
    assert_eq!(huffman_decode(&encoded).unwrap(), b"aab".to_vec());
}

#[test]
fn encoding_is_deterministic() {
    let buffer: Vec<u8> = (0..2000u32).map(|i| (i * 7919 % 251) as u8).collect();
    let first = huffman_encode(&buffer).unwrap();
    for _ in 0..5 {
        assert_eq!(huffman_encode(&buffer).unwrap(), first);
    }
}

#[test]
fn table_entries_are_in_rising_order_of_the_byte_values() {
    let encoded = huffman_encode(b"the quick brown fox").unwrap();
    let table_len = u16::from_le_bytes([encoded[0], encoded[1]]) as usize;
    let symbols: Vec<u8> = encoded[2..2 + table_len].chunks(4).map(|e| e[0]).collect();
    let mut sorted = symbols.clone();
    sorted.sort();
    sorted.dedup();
    assert_eq!(symbols, sorted);
    assert_eq!(symbols.len(), 16);
}

#[test]
fn frequencies_are_ordered_by_count_then_value() {
    let (symbols, freqs) = get_frequencies(b"abracadabra");
    assert_eq!(symbols, vec![b'a', b'b', b'r', b'c', b'd']);
    assert_eq!(freqs, vec![5, 2, 2, 1, 1]);
}

#[test]
fn frequencies_of_an_empty_buffer() {
    let (symbols, freqs) = get_frequencies(&[]);
    assert!(symbols.is_empty());
    assert!(freqs.is_empty());
}

#[test]
fn tree_of_an_empty_table_is_empty() {
    let queue = huffman_table(Vec::new(), &[]);
    assert!(queue.is_empty());
    let mut table = HashMap::new();
    lookup_table(None, Vec::new(), &mut table);
    assert!(table.is_empty());
}

#[test]
fn tree_of_one_symbol_is_its_leaf() {
    let mut queue = huffman_table(vec![b'x'], &[9]);
    assert_eq!(queue.len(), 1);
    let root = queue.pop().unwrap();
    assert_eq!((root.data, root.freq), (Some(b'x'), 9));
    assert!(root.left.is_none() && root.right.is_none());
    let mut table = HashMap::new();
    lookup_table(Some(Box::new(root)), Vec::new(), &mut table);
    assert_eq!(table[&b'x'], Vec::<u8>::new());
}

fn leaves(node: &MinHeapNode, found: &mut Vec<(u8, u64)>) -> u64 {
    match (&node.left, &node.right) {
        (None, None) => {
            found.push((node.data.unwrap(), node.freq));
            node.freq
        }
        (Some(left), Some(right)) => {
            assert_eq!(node.data, None);
            let sum = leaves(left, found) + leaves(right, found);
            assert_eq!(node.freq, sum);
            sum
        }
        _ => panic!("a node with one child"),
    }
}

#[test]
fn leaves_of_the_tree_are_the_pairs_of_the_table() {
    let (symbols, freqs) = get_frequencies(b"the quick brown fox jumps over the lazy dog");
    let mut queue = huffman_table(symbols.clone(), &freqs);
    let root = queue.pop().unwrap();
    let mut found = Vec::new();
    assert_eq!(leaves(&root, &mut found), 43);
    assert_eq!(root.freq, 43);
    let mut expected: Vec<(u8, u64)> = symbols.into_iter().zip(freqs).collect();
    expected.sort();
    found.sort();
    assert_eq!(found, expected);
}

#[test]
fn lower_frequency_goes_left() {
    let mut queue = huffman_table(vec![b'a', b'b'], &[6, 2]);
    let root = queue.pop().unwrap();
    assert_eq!(root.freq, 8);
    assert_eq!(root.left.unwrap().data, Some(b'b'));
    assert_eq!(root.right.unwrap().data, Some(b'a'));
    // of two equal frequencies the lower byte value goes left
    let mut queue = huffman_table(vec![b'z', b'y'], &[3, 3]);
    let root = queue.pop().unwrap();
    assert_eq!(root.left.unwrap().data, Some(b'y'));
    assert_eq!(root.right.unwrap().data, Some(b'z'));
}

#[test]
fn new_node_is_a_leaf() {
    let node = MinHeapNode::new(Some(4), 17);
    assert_eq!(node.data, Some(4));
    assert_eq!(node.freq, 17);
    assert_eq!(node.rank, 4);
    assert!(node.left.is_none() && node.right.is_none());
    assert_eq!(MinHeapNode::new(None, 0).rank, 0);
}

#[test]
fn queue_orders_by_frequency_then_rank() {
    let mut queue = Vec::new();
    queue_push(&mut queue, MinHeapNode::new(Some(9), 5));
    queue_push(&mut queue, MinHeapNode::new(Some(1), 7));
    queue_push(&mut queue, MinHeapNode::new(Some(3), 5));
    queue_push(&mut queue, MinHeapNode::new(Some(0), 1));
    queue_push(&mut queue, MinHeapNode::new(Some(2), 1));
    let order: Vec<(Option<u8>, u64)> = queue.iter().map(|n| (n.data, n.freq)).collect();
    assert_eq!(
        order,
        vec![(Some(0), 1), (Some(2), 1), (Some(3), 5), (Some(9), 5), (Some(1), 7)]
    );
}

#[test]
fn merge_puts_the_first_node_on_the_left() {
    let node = MinHeapNode::merge(MinHeapNode::new(Some(9), 1), MinHeapNode::new(Some(2), 4));
    assert_eq!(node.freq, 5);
    assert_eq!(node.rank, 2);
    assert_eq!(node.data, None);
    assert_eq!(node.left.unwrap().data, Some(9));
    assert_eq!(node.right.unwrap().data, Some(2));
}

#[test]
fn lookup_table_walks_left_before_right() {
    let tree = MinHeapNode::merge(
        MinHeapNode::merge(MinHeapNode::new(None, 0), MinHeapNode::new(Some(b'b'), 1)),
        MinHeapNode::new(Some(b'a'), 2),
    );
    let mut table = HashMap::new();
    lookup_table(Some(Box::new(tree)), vec![1], &mut table);
    assert_eq!(table.len(), 2);
    assert_eq!(table[&b'b'], vec![1, 0, 1]);
    assert_eq!(table[&b'a'], vec![1, 1]);
}

#[test]
fn no_code_is_the_start_of_another_and_one_is_all_zero() {
    let buffer: Vec<u8> = (0..5000u32).map(|i| (i * i % 97) as u8).collect();
    let table = code_table(&buffer);
    let zero_codes = table.values().filter(|code| code.iter().all(|bit| *bit == 0)).count();
    assert_eq!(zero_codes, 1);
    for (s, code) in &table {
        assert!(!code.is_empty());
        for (t, other) in &table {
            if s != t {
                assert!(!other.starts_with(code), "code of {s} starts code of {t}");
            }
        }
    }
    for byte in &buffer {
        assert!(table.contains_key(byte));
    }
}

#[test]
fn a_code_of_sixteen_bits_is_still_written() {
    // 17 byte values of Fibonacci frequencies give a longest code of exactly
    // 16 bits.
    let buffer = fibonacci_buffer(17);
    let longest = code_table(&buffer).values().map(Vec::len).max().unwrap();
    assert_eq!(longest, 16);
    let encoded = huffman_encode(&buffer).unwrap();
    assert_eq!(huffman_decode(&encoded).unwrap(), buffer);
}

#[test]
fn a_code_of_seventeen_bits_is_refused() {
    let buffer = fibonacci_buffer(18);
    let longest = code_table(&buffer).values().map(Vec::len).max().unwrap();
    assert_eq!(longest, 17);
    assert_eq!(huffman_encode(&buffer), Err(CacheError::CodeLengthOverflow));
}

#[test]
fn decode_refuses_an_input_without_a_table_length() {
    assert_eq!(huffman_decode(&[]), Err(CacheError::TruncatedInput));
    assert_eq!(huffman_decode(&[4]), Err(CacheError::TruncatedInput));
}

#[test]
fn decode_refuses_a_table_that_is_cut_short() {
    assert_eq!(huffman_decode(&[4, 0, b'a', 1]), Err(CacheError::TruncatedInput));
    assert_eq!(huffman_decode(&[8, 0, b'a', 1, 0, 0x80]), Err(CacheError::TruncatedInput));
}

#[test]
fn decode_refuses_a_code_of_more_than_sixteen_bits() {
    assert_eq!(
        huffman_decode(&[4, 0, b'a', 17, 0, 0x80, 0xff]),
        Err(CacheError::CodeLengthOverflow)
    );
}

#[test]
fn decode_reads_entries_while_inside_the_table_region() {
    // A table length of 5 makes the reader take a second entry.
    let input = [5, 0, b'a', 1, 0x00, 0x80, b'b', 2, 0x00, 0x40, 0b1011_0100];
    assert_eq!(huffman_decode(&input).unwrap(), b"abab".to_vec());
}

#[test]
fn decode_maps_a_code_to_its_last_entry() {
    let input = [8, 0, b'a', 1, 0x00, 0x80, b'z', 1, 0x00, 0x80, 0b1100_0000];
    assert_eq!(huffman_decode(&input).unwrap(), b"zz".to_vec());
}

#[test]
fn decode_ignores_the_bits_of_an_entry_behind_its_code() {
    let input = [4, 0, b'a', 1, 0xff, 0xff, 0b1100_0000];
    assert_eq!(huffman_decode(&input).unwrap(), b"aa".to_vec());
}

#[test]
fn decode_stops_matching_after_sixteen_unmatched_bits() {
    // The code 1 never gets its turn: seventeen zero bits come first.
    let input = [4, 0, b'a', 1, 0x00, 0x80, 0, 0, 0b0111_1111];
    assert_eq!(huffman_decode(&input).unwrap(), Vec::<u8>::new());
}
