use huffman::bits::{bin_string_to_bytes_vec, bytes_vec_to_bin_string};
use huffman::codec::{decode, encode};
use huffman::codes::make_codes;
use huffman::error::HuffmanError;
use huffman::frequency::{checked_total, frequencies};
use huffman::symbol_map::SymbolMap;
use huffman::tree::{make_huffman_tree, make_nodes, HuffmanNode, NodeQueue};

fn table(entries: &[(char, usize)]) -> SymbolMap<usize> {
    let mut map = SymbolMap::new();
    for (symbol, count) in entries {
        map.insert(*symbol, *count);
    }
    map
}

fn codes_of(entries: &[(char, usize)]) -> Vec<(char, String)> {
    let freqs = table(entries);
    let mut nodes = make_nodes(&freqs);
    let tree = make_huffman_tree(&mut nodes).unwrap();
    let mut codes = SymbolMap::new();
    make_codes(&tree, String::new(), &mut codes);
    let mut listed = Vec::new();
    for i in 0..codes.len() {
        listed.push((codes.key_at(i), codes.value_at(i).clone()));
    }
    listed
}

#[test]
fn symbol_map_keeps_one_value_for_each_symbol() {
    let mut map = SymbolMap::new();
    assert!(map.is_empty());
    assert_eq!(map.insert('m', 1), None);
    assert_eq!(map.insert('a', 2), None);
    assert_eq!(map.insert('z', 3), None);
    assert_eq!(map.insert('m', 4), Some(1));
    assert_eq!(map.len(), 3);
    assert_eq!(map.get(&'m'), Some(&4));
    assert_eq!(map.get(&'q'), None);
    assert!(map.contains_key(&'z'));
    assert!(!map.contains_key(&'b'));
    assert_eq!((map.key_at(0), map.key_at(1), map.key_at(2)), ('a', 'm', 'z'));
    assert_eq!((*map.value_at(0), *map.value_at(1), *map.value_at(2)), (2, 4, 3));
}

#[test]
fn symbol_map_does_not_depend_on_the_order_of_insertion() {
    let one = table(&[('x', 1), ('b', 7), ('k', 3)]);
    let other = table(&[('k', 3), ('x', 1), ('b', 7)]);
    assert_eq!(one, other);
}

#[test]
fn frequencies_of_the_empty_text() {
    assert!(frequencies("").is_empty());
}

#[test]
fn frequencies_count_characters_not_bytes() {
    let freqs = frequencies("££€£");
    assert_eq!(freqs.len(), 2);
    assert_eq!(freqs.get(&'£'), Some(&3));
    assert_eq!(freqs.get(&'€'), Some(&1));
}

#[test]
fn frequencies_add_up_to_the_number_of_symbols() {
    let text = "the quick brown fox jumps over the lazy dog — twice: ££";
    let freqs = frequencies(text);
    assert_eq!(checked_total(&freqs), Some(text.chars().count()));
}

#[test]
fn checked_total_reports_overflow() {
    assert_eq!(checked_total(&table(&[('a', usize::MAX), ('b', 1)])), None);
    assert_eq!(checked_total(&table(&[('a', usize::MAX - 1), ('b', 1)])), Some(usize::MAX));
    assert_eq!(checked_total(&SymbolMap::new()), Some(0));
}

#[test]
fn new_node_has_no_children() {
    let node = HuffmanNode::new(7, Some('x'));
    assert_eq!(node.frequency, 7);
    assert_eq!(node.ch, Some('x'));
    assert!(node.left_node.is_none());
    assert!(node.right_node.is_none());
}

#[test]
fn queue_hands_out_the_lightest_first() {
    let mut queue = NodeQueue::new();
    queue.push(HuffmanNode::new(5, Some('a')));
    queue.push(HuffmanNode::new(2, Some('b')));
    queue.push(HuffmanNode::new(5, Some('c')));
    queue.push(HuffmanNode::new(3, Some('d')));
    assert_eq!(queue.len(), 4);
    let order: Vec<char> = vec![
        queue.pop().unwrap().ch.unwrap(),
        queue.pop().unwrap().ch.unwrap(),
        queue.pop().unwrap().ch.unwrap(),
        queue.pop().unwrap().ch.unwrap(),
    ];
    assert_eq!(order, vec!['b', 'd', 'a', 'c']);
    assert!(queue.pop().is_none());
}

#[test]
fn tree_of_an_empty_table_is_refused() {
    let mut nodes = make_nodes(&SymbolMap::new());
    assert_eq!(nodes.len(), 0);
    assert_eq!(make_huffman_tree(&mut nodes), Err(HuffmanError::EmptyAlphabet));
}

#[test]
fn tree_of_one_symbol_is_a_leaf() {
    let mut nodes = make_nodes(&table(&[('a', 4)]));
    let tree = make_huffman_tree(&mut nodes).unwrap();
    assert_eq!(tree, HuffmanNode::new(4, Some('a')));
    assert_eq!(nodes.len(), 0);
}

#[test]
fn tree_has_the_expected_shape() {
    let mut nodes = make_nodes(&table(&[('a', 5), ('b', 9), ('c', 12)]));
    let tree = make_huffman_tree(&mut nodes).unwrap();
    let mut inner = HuffmanNode::new(14, None);
    inner.left_node = Some(Box::new(HuffmanNode::new(5, Some('a'))));
    inner.right_node = Some(Box::new(HuffmanNode::new(9, Some('b'))));
    let mut root = HuffmanNode::new(26, None);
    root.left_node = Some(Box::new(HuffmanNode::new(12, Some('c'))));
    root.right_node = Some(Box::new(inner));
    assert_eq!(tree, root);
}

#[test]
fn code_of_a_single_symbol_is_one_bit() {
    assert_eq!(codes_of(&[('a', 4)]), vec![('a', "0".to_string())]);
}

#[test]
fn equal_frequencies_are_ordered_by_symbol() {
    let expected = vec![
        ('a', "00".to_string()),
        ('b', "01".to_string()),
        ('c', "10".to_string()),
        ('d', "11".to_string()),
    ];
    assert_eq!(codes_of(&[('a', 1), ('b', 1), ('c', 1), ('d', 1)]), expected);
    assert_eq!(codes_of(&[('d', 1), ('b', 1), ('a', 1), ('c', 1)]), expected);
}

#[test]
fn building_twice_gives_the_same_codes() {
    let entries = [('q', 3), ('w', 3), ('e', 1), ('r', 1), ('t', 2), ('y', 2), ('u', 3)];
    let mut reversed = entries;
    reversed.reverse();
    assert_eq!(codes_of(&entries), codes_of(&entries));
    assert_eq!(codes_of(&entries), codes_of(&reversed));
}

#[test]
fn codes_of_hello() {
    let freqs = frequencies("hello");
    let mut nodes = make_nodes(&freqs);
    let tree = make_huffman_tree(&mut nodes).unwrap();
    let mut codes = SymbolMap::new();
    make_codes(&tree, String::new(), &mut codes);
    assert_eq!(codes.get(&'e'), Some(&"00".to_string()));
    assert_eq!(codes.get(&'h'), Some(&"01".to_string()));
    assert_eq!(codes.get(&'o'), Some(&"10".to_string()));
    assert_eq!(codes.get(&'l'), Some(&"11".to_string()));
    let longest_allowed = codes.get(&'l').unwrap().len();
    for i in 0..codes.len() {
        assert!(longest_allowed <= codes.value_at(i).len());
    }
    let encoded = encode(&codes, "hello").unwrap();
    assert_eq!(encoded, "0100111110");
    assert_eq!(decode(&encoded, &tree), Ok("hello".to_string()));
}

#[test]
fn codes_are_prefix_free() {
    let listed = codes_of(&[('a', 1), ('b', 2), ('c', 4), ('d', 8), ('e', 16), ('f', 3), ('g', 3)]);
    assert_eq!(listed.len(), 7);
    for (a, code_a) in &listed {
        assert!(!code_a.is_empty());
        for (b, code_b) in &listed {
            if a != b {
                assert!(!code_b.starts_with(code_a.as_str()));
            }
        }
    }
}

#[test]
fn make_codes_puts_the_prefix_in_front() {
    let mut nodes = make_nodes(&table(&[('a', 1), ('b', 2)]));
    let tree = make_huffman_tree(&mut nodes).unwrap();
    let mut codes = SymbolMap::new();
    codes.insert('z', "keep".to_string());
    make_codes(&tree, "11".to_string(), &mut codes);
    assert_eq!(codes.get(&'a'), Some(&"110".to_string()));
    assert_eq!(codes.get(&'b'), Some(&"111".to_string()));
    assert_eq!(codes.get(&'z'), Some(&"keep".to_string()));
}

#[test]
fn encode_names_the_first_unknown_symbol() {
    let mut codes = SymbolMap::new();
    codes.insert('a', "0".to_string());
    assert_eq!(encode(&codes, "aaxay"), Err(HuffmanError::UnknownSymbol { symbol: 'x' }));
    assert_eq!(encode(&codes, ""), Ok(String::new()));
}

#[test]
fn decode_refuses_a_walk_that_ends_inside_a_code() {
    let mut nodes = make_nodes(&table(&[('a', 5), ('b', 9), ('c', 12)]));
    let tree = make_huffman_tree(&mut nodes).unwrap();
    // c = 0, a = 10, b = 11
    assert_eq!(decode("01011", &tree), Ok("cab".to_string()));
    assert_eq!(decode("0101", &tree), Err(HuffmanError::TruncatedStream));
    assert_eq!(decode("", &tree), Ok(String::new()));
}

#[test]
fn decode_under_a_single_leaf_emits_one_symbol_for_each_bit() {
    let tree = HuffmanNode::new(3, Some('a'));
    assert_eq!(decode("000", &tree), Ok("aaa".to_string()));
}

#[test]
fn packing_pads_on_the_right() {
    assert_eq!(bin_string_to_bytes_vec(""), Vec::<u8>::new());
    assert_eq!(bin_string_to_bytes_vec("1"), vec![128]);
    assert_eq!(bin_string_to_bytes_vec("0000001"), vec![2]);
    assert_eq!(bin_string_to_bytes_vec("010000011"), vec![65, 128]);
    assert_eq!(bin_string_to_bytes_vec("1111111100000001"), vec![255, 1]);
}

#[test]
fn unpacking_gives_eight_bits_for_each_byte() {
    assert_eq!(bytes_vec_to_bin_string(Vec::new()), "");
    assert_eq!(bytes_vec_to_bin_string(vec![128, 1]), "1000000000000001");
    assert_eq!(bytes_vec_to_bin_string(vec![0xA5]), "10100101");
}

#[test]
fn unpacking_what_was_packed_gives_the_bits_and_zeros() {
    let pattern = "1011001110001111000010111010010110100101101001011010010110100101";
    for n in 0..=64 {
        let bits = &pattern[..n];
        let back = bytes_vec_to_bin_string(bin_string_to_bytes_vec(bits));
        assert_eq!(back.len(), (n + 7) / 8 * 8);
        assert_eq!(&back[..n], bits);
        assert!(back[n..].chars().all(|c| c == '0'));
    }
}

#[test]
fn codes_have_the_least_weighted_length() {
    let entries = [('a', 45), ('b', 13), ('c', 12), ('d', 16), ('e', 9), ('f', 5)];
    let listed = codes_of(&entries);
    let mut bits = 0;
    for (symbol, code) in &listed {
        let (_, count) = entries.iter().find(|(s, _)| s == symbol).unwrap();
        bits += count * code.len();
    }
    assert_eq!(bits, 224);
    assert_eq!(listed[0], ('a', "0".to_string()));
}

#[test]
fn two_maps_of_one_table_give_the_same_tree() {
    let entries = [('q', 3), ('w', 3), ('e', 1), ('r', 1), ('t', 2), ('y', 2), ('u', 3)];
    let mut reversed = entries;
    reversed.reverse();
    let mut first = make_nodes(&table(&entries));
    let mut second = make_nodes(&table(&reversed));
    let one = make_huffman_tree(&mut first).unwrap();
    let other = make_huffman_tree(&mut second).unwrap();
    assert_eq!(one.frequency, 15);
    assert_eq!(one, other);
}
