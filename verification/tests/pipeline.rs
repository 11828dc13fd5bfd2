use huffman::archive::{decrypt, encrypt, BinaryData};
use huffman::bits::{bin_string_to_bytes_vec, bytes_vec_to_bin_string};
use huffman::codec::{decode, encode};
use huffman::codes::make_codes;
use huffman::error::HuffmanError;
use huffman::frequency::frequencies;
use huffman::symbol_map::SymbolMap;
use huffman::tree::{make_huffman_tree, make_nodes};

#[test]
fn encrypt_decrypt1() {
    let data = "hello";
    let bd = encrypt(data);
    let new_data = decrypt(&bd).unwrap();
    assert_eq!(data, new_data);
}

#[test]
fn encrypt_decrypt2() {
    let data = "hellohellohello how are you doing today?, I'm well thank you";
    let bd = encrypt(data);
    let new_data = decrypt(&bd).unwrap();
    assert_eq!(data, new_data);
}

#[test]
fn encrypt_decrypt3() {
    let data = "hellohellohello how are you doing today?, I'm well thank you, hellohellohello how are you doing today?, I'm well thank you, sdhsdsdsdshdsdsjm763£££$$%^BHjfshdfshfsfskjsjk";
    let bd = encrypt(data);
    let new_data = decrypt(&bd).unwrap();
    assert_eq!(data, new_data);
}

#[test]
fn test_frequencies() {
    let data = "hello";
    let freqs = frequencies(data);
    let mut expected = SymbolMap::new();
    expected.insert('h', 1);
    expected.insert('e', 1);
    expected.insert('l', 2);
    expected.insert('o', 1);
    assert_eq!(freqs, expected);
}

#[test]
fn test_make_nodes() {
    let mut freqs = SymbolMap::new();
    freqs.insert('a', 5);
    freqs.insert('b', 9);
    freqs.insert('c', 12);
    let nodes = make_nodes(&freqs);
    assert_eq!(nodes.len(), 3);
}

#[test]
fn test_make_huffman_tree() {
    let mut freqs = SymbolMap::new();
    freqs.insert('a', 5);
    freqs.insert('b', 9);
    freqs.insert('c', 12);
    let mut nodes = make_nodes(&freqs);
    let tree = make_huffman_tree(&mut nodes).unwrap();
    assert_eq!(tree.frequency, 26);
}

#[test]
fn test_make_codes() {
    let mut freqs = SymbolMap::new();
    freqs.insert('a', 5);
    freqs.insert('b', 9);
    freqs.insert('c', 12);
    let mut nodes = make_nodes(&freqs);
    let tree = make_huffman_tree(&mut nodes).unwrap();
    let mut codes = SymbolMap::new();
    make_codes(&tree, String::new(), &mut codes);
    assert!(codes.contains_key(&'a'));
    assert!(codes.contains_key(&'b'));
    assert!(codes.contains_key(&'c'));
}

#[test]
fn test_encode_more() {
    let data = "Hello, World!";
    let freqs = frequencies(data);
    let mut huff = make_nodes(&freqs);
    let huff_tree = make_huffman_tree(&mut huff).unwrap();
    let mut codes = SymbolMap::new();
    make_codes(&huff_tree, String::new(), &mut codes);
    let encoded = encode(&codes, data).unwrap();

    let decoded = decode(&encoded, &huff_tree).unwrap();

    assert_eq!(decoded, data);
}

#[test]
fn test_encode() {
    let mut codes = SymbolMap::new();
    codes.insert('a', "0".to_string());
    codes.insert('b', "10".to_string());
    codes.insert('c', "11".to_string());
    let data = "abc";
    let encoded = encode(&codes, data).unwrap();
    assert_eq!(encoded, "01011");
}

#[test]
fn test_decode() {
    let mut freqs = SymbolMap::new();
    freqs.insert('a', 5);
    freqs.insert('b', 9);
    freqs.insert('c', 12);
    let mut nodes = make_nodes(&freqs);
    let tree = make_huffman_tree(&mut nodes).unwrap();
    let mut codes = SymbolMap::new();
    make_codes(&tree, String::new(), &mut codes);
    let encoded = encode(&codes, "abc").unwrap();
    let decoded = decode(&encoded, &tree).unwrap();
    assert_eq!(decoded, "abc");
}

#[test]
fn test_bin_string_to_bytes_vec() {
    let bin_string = "01000001";
    let bytes = bin_string_to_bytes_vec(bin_string);
    assert_eq!(bytes, vec![65]);
}

#[test]
fn test_bytes_vec_to_bin_string() {
    let bytes = vec![65];
    let bin_string = bytes_vec_to_bin_string(bytes);
    assert_eq!(bin_string, "01000001");
}

#[test]
fn round_trip_of_the_empty_text() {
    let bd = encrypt("");
    assert_eq!(bd.original_length, 0);
    assert!(bd.table.is_empty());
    assert!(bd.encoded_data.is_empty());
    assert_eq!(decrypt(&bd), Ok(String::new()));
}

#[test]
fn round_trip_of_one_repeated_symbol() {
    let bd = encrypt("aaaa");
    assert_eq!(bd.original_length, 4);
    assert_eq!(bd.encoded_data, vec![0]);
    assert_eq!(decrypt(&bd), Ok("aaaa".to_string()));
}

#[test]
fn round_trip_of_symbols_of_several_bytes() {
    let data = "naïve café — 日本語のテキスト, ¿qué tal? €5";
    let bd = encrypt(data);
    assert_eq!(decrypt(&bd), Ok(data.to_string()));
}

#[test]
fn round_trip_of_a_long_text() {
    let mut data = String::new();
    for i in 0..2000u32 {
        data.push(char::from_u32(97 + (i * i + 3 * i) % 23).unwrap());
    }
    let bd = encrypt(&data);
    assert!(bd.encoded_data.len() > 8);
    assert_eq!(bd.encoded_data.len(), (bd.original_length + 7) / 8);
    assert_eq!(decrypt(&bd), Ok(data));
}

#[test]
fn hello_compresses_to_two_bytes() {
    let bd = encrypt("hello");
    assert_eq!(bd.original_length, 10);
    assert_eq!(bd.encoded_data, vec![0x4F, 0x80]);
    assert_eq!(bd.table, frequencies("hello"));
}

#[test]
fn decrypt_refuses_a_length_beyond_the_bytes() {
    let bd = BinaryData::new(17, frequencies("ab"), vec![0x40, 0x00]);
    assert_eq!(decrypt(&bd), Err(HuffmanError::TruncatedStream));
}

#[test]
fn decrypt_refuses_bits_without_a_table() {
    let bd = BinaryData::new(3, SymbolMap::new(), vec![0xE0]);
    assert_eq!(decrypt(&bd), Err(HuffmanError::EmptyAlphabet));
}

#[test]
fn decrypt_refuses_a_stream_that_ends_inside_a_code() {
    // c = 0, a = 10, b = 11: the single bit 1 is half a code.
    let mut table = SymbolMap::new();
    table.insert('a', 1);
    table.insert('b', 1);
    table.insert('c', 2);
    let bd = BinaryData::new(1, table, vec![0x80]);
    assert_eq!(decrypt(&bd), Err(HuffmanError::TruncatedStream));
}

#[test]
fn decrypt_refuses_counts_beyond_the_machine_word() {
    let mut table = SymbolMap::new();
    table.insert('a', usize::MAX);
    table.insert('b', 1);
    let bd = BinaryData::new(1, table, vec![0x00]);
    assert_eq!(decrypt(&bd), Err(HuffmanError::CorruptContainer));
}

#[test]
fn decrypt_ignores_the_padding() {
    // "ab" under a = 0, b = 1 is "01", padded to 0100_0000.
    let bd = BinaryData::new(2, frequencies("ab"), vec![0x40]);
    assert_eq!(decrypt(&bd), Ok("ab".to_string()));
}

#[test]
fn encrypt_declares_the_bits_of_the_codes() {
    // Eight symbols of equal frequency take three bits each.
    let bd = encrypt("abcdefgh");
    assert_eq!(bd.original_length, 24);
    assert_eq!(bd.encoded_data.len(), 3);
    // One symbol in two takes one bit, the others two.
    let bd = encrypt("aabc");
    assert_eq!(bd.original_length, 6);
}
