use huffman::archive::{decrypt, encrypt, BinaryData};
use huffman::container::{assemble, deserialize, serialize};
use huffman::error::HuffmanError;
use huffman::frequency::frequencies;
use huffman::symbol_map::SymbolMap;

#[test]
fn blob_has_the_expected_bytes() {
    let mut table = SymbolMap::new();
    table.insert('b', 2);
    table.insert('a', 1);
    let data = BinaryData::new(5, table, vec![0x80, 0x01]);
    let blob = serialize(&data).unwrap();
    let expected: Vec<u8> = vec![
        5, 0, 0, 0, 0, 0, 0, 0, // bit length
        2, 0, 0, 0, 0, 0, 0, 0, // number of entries
        b'a', 1, 0, 0, 0, 0, 0, 0, 0, //
        b'b', 2, 0, 0, 0, 0, 0, 0, 0, //
        2, 0, 0, 0, 0, 0, 0, 0, // number of bytes
        0x80, 0x01,
    ];
    assert_eq!(blob, expected);
}

#[test]
fn container_round_trip() {
    let data = BinaryData::new(10, frequencies("hello"), vec![0x4F, 0x80]);
    let blob = serialize(&data).unwrap();
    assert_eq!(deserialize(&blob), Ok(data));
}

#[test]
fn container_round_trip_of_the_empty_archive() {
    let data = BinaryData::new(0, SymbolMap::new(), Vec::new());
    let blob = serialize(&data).unwrap();
    assert_eq!(blob.len(), 24);
    assert_eq!(deserialize(&blob), Ok(data));
}

#[test]
fn container_round_trip_with_symbols_of_several_bytes() {
    let text = "£€ 日本 £";
    let data = encrypt(text);
    let blob = serialize(&data).unwrap();
    let back = deserialize(&blob).unwrap();
    assert_eq!(back, data);
    assert_eq!(decrypt(&back), Ok(text.to_string()));
}

#[test]
fn truncated_blob_is_corrupt() {
    let blob = serialize(&encrypt("hello world")).unwrap();
    for cut in 0..blob.len() {
        assert_eq!(deserialize(&blob[..cut]), Err(HuffmanError::CorruptContainer));
    }
}

#[test]
fn blob_with_a_broken_symbol_is_corrupt() {
    let mut blob = serialize(&encrypt("aab")).unwrap();
    blob[16] = 0xFF;
    assert_eq!(deserialize(&blob), Err(HuffmanError::CorruptContainer));
}

#[test]
fn bytes_behind_the_archive_are_ignored() {
    let data = encrypt("hello");
    let mut blob = serialize(&data).unwrap();
    blob.push(7);
    assert_eq!(deserialize(&blob), Ok(data));
}

#[test]
fn assemble_lets_the_later_entry_count() {
    let data = assemble(3, vec![('a', 1), ('b', 2), ('a', 5)], vec![9]).unwrap();
    assert_eq!(data.original_length, 3);
    assert_eq!(data.table.len(), 2);
    assert_eq!(data.table.get(&'a'), Some(&5));
    assert_eq!(data.table.get(&'b'), Some(&2));
    assert_eq!(data.encoded_data, vec![9]);
}
