use vstd::prelude::*;
use vstd::string::StrSliceExecFns;
use crate::bits::{
    bin_string_to_bytes_vec, bytes_vec_to_bin_string, is_bit_string, lemma_unpack_pack, packed,
    unpacked,
};
use crate::codec::{decode, decoded, encode, encoded, lemma_decode_encoded};
use crate::codes::{
    code_table, code_views, lemma_huffman_tree_holds, lemma_leaf_queue_holds, lemma_path_is_bits,
    make_codes, path_to,
};
use crate::error::HuffmanError;
use crate::frequency::{
    checked_total, frequencies, frequency_map, lemma_frequency_conservation, lemma_occurs,
    table_total,
};
use crate::symbol_map::{is_listing, lemma_map_of_keys, listing, SymbolMap};
use crate::tree::{
    leaf_queue, lemma_leaf_queue, make_huffman_tree, make_nodes, tree_of, Tree,
};

verus! {

/// What is persisted of a compressed text, as mathematical values.
pub struct Archive {
    /// The number of bits of the encoded stream, before padding.
    pub original_length: nat,
    /// The frequency table that the tree is rebuilt from.
    pub table: Map<char, usize>,
    /// The encoded stream, packed.
    pub encoded_data: Seq<u8>,
}

/// What is persisted of a compressed text: the exact number of bits of the
/// encoded stream, the frequency table, and the packed bytes.
#[derive(Debug, PartialEq, Eq)]
pub struct BinaryData {
    pub original_length: usize,
    pub table: SymbolMap<usize>,
    pub encoded_data: Vec<u8>,
}

impl View for BinaryData {
    type V = Archive;

    open spec fn view(&self) -> Archive {
        Archive {
            original_length: self.original_length as nat,
            table: self.table@,
            encoded_data: self.encoded_data@,
        }
    }
}

impl BinaryData {
    /// The record of the three values.
    pub fn new(original_length: usize, table: SymbolMap<usize>, encoded_data: Vec<u8>) -> (data:
        Self)
        ensures
            data.original_length == original_length,
            data.table == table,
            data.encoded_data == encoded_data,
    {
        BinaryData { original_length, table, encoded_data }
    }
}

/// What a text compresses to. The empty text has no tree: it compresses to an
/// empty table and no bytes.
pub open spec fn encrypted(text: Seq<char>) -> Archive {
    let table = frequency_map(text);
    if text.len() == 0 {
        Archive { original_length: 0, table, encoded_data: Seq::empty() }
    } else {
        let bits = encoded(code_table(tree_of(table)), text).unwrap();
        Archive { original_length: bits.len(), table, encoded_data: packed(bits) }
    }
}

/// What an archive decompresses to: the text that the first `original_length`
/// bits of its bytes decode to under the tree of its table.
pub open spec fn decrypted(archive: Archive) -> Result<Seq<char>, HuffmanError> {
    let bits = unpacked(archive.encoded_data);
    if archive.original_length > bits.len() {
        Err(HuffmanError::TruncatedStream)
    } else if archive.table == Map::<char, usize>::empty() {
        if archive.original_length == 0 {
            Ok(Seq::empty())
        } else {
            Err(HuffmanError::EmptyAlphabet)
        }
    } else if table_total(archive.table) > usize::MAX {
        Err(HuffmanError::CorruptContainer)
    } else {
        match decoded(tree_of(archive.table), bits.take(archive.original_length as int)) {
            Some(text) => Ok(text),
            None => Err(HuffmanError::TruncatedStream),
        }
    }
}

/// The tree of a table holds the symbols of the table, and no others.
pub proof fn lemma_tree_holds(table: Map<char, usize>, c: char)
    requires
        is_listing(listing(table), table),
        table != Map::<char, usize>::empty(),
    ensures
        path_to(tree_of(table), c) is Some <==> table.contains_key(c),
{
    let entries = listing(table);
    lemma_leaf_queue(entries);
    lemma_leaf_queue_holds(entries, c);
    lemma_map_of_keys(entries, c);
    if entries.len() == 0 {
        assert(table =~= Map::<char, usize>::empty());
    }
    lemma_huffman_tree_holds(leaf_queue(entries), c);
}

/// What the code table of a tree encodes is a bit string.
pub proof fn lemma_encoded_is_bits(t: Tree, text: Seq<char>)
    requires
        forall|i: int| 0 <= i < text.len() ==> path_to(t, #[trigger] text[i]) is Some,
    ensures
        encoded(code_table(t), text) is Ok,
        is_bit_string(encoded(code_table(t), text).unwrap()),
    decreases text.len(),
{
    lemma_decode_encoded(t, text);
    if text.len() > 0 {
        let tail = text.skip(1);
        assert forall|i: int| 0 <= i < tail.len() implies path_to(t, #[trigger] tail[i])
            is Some by {
            assert(tail[i] == text[i + 1]);
        }
        lemma_encoded_is_bits(t, tail);
        lemma_path_is_bits(t, text[0]);
        let code = code_table(t)[text[0]];
        let rest = encoded(code_table(t), tail).unwrap();
        let all = encoded(code_table(t), text).unwrap();
        assert(all == code + rest);
        assert forall|i: int| 0 <= i < all.len() implies all[i] == '0' || all[i] == '1' by {
            if i < code.len() {
                assert(all[i] == code[i]);
                if path_to(t, text[0]).unwrap().len() > 0 {
                    assert(code[i] == path_to(t, text[0]).unwrap()[i]);
                }
            } else {
                assert(all[i] == rest[i - code.len()]);
            }
        }
    }
}

/// Round trip: every text decompresses from what it compresses to.
pub proof fn lemma_round_trip(text: Seq<char>)
    requires
        text.len() <= usize::MAX,
    ensures
        decrypted(encrypted(text)) == Ok::<Seq<char>, HuffmanError>(text),
{
    let table = frequency_map(text);
    lemma_frequency_conservation(text);
    if text.len() == 0 {
        assert(table =~= Map::<char, usize>::empty());
        assert(unpacked(Seq::<u8>::empty()).len() == 0);
        assert(text =~= Seq::<char>::empty());
    } else {
        lemma_occurs(text, 0);
        let tree = tree_of(table);
        assert forall|i: int| 0 <= i < text.len() implies path_to(tree, #[trigger] text[i])
            is Some by {
            lemma_occurs(text, i);
            lemma_tree_holds(table, text[i]);
        }
        lemma_decode_encoded(tree, text);
        lemma_encoded_is_bits(tree, text);
        let bits = encoded(code_table(tree), text).unwrap();
        lemma_unpack_pack(bits);
        assert(table.contains_key(text[0]));
    }
}

/// Compresses a text: counts its symbols, builds the tree, encodes the text
/// and packs the bits.
pub fn encrypt(data: &str) -> (archive: BinaryData)
    ensures
        archive@ == encrypted(data@),
{
    let ghost text = data@;
    let freqs = frequencies(data);
    let symbols = freqs.len();
    if symbols == 0 {
        proof {
            if text.len() > 0 {
                lemma_occurs(text, 0);
            }
            assert(freqs@.dom() =~= Set::<char>::empty());
        }
        return BinaryData::new(0, freqs, Vec::new());
    }
    let mut nodes = make_nodes(&freqs);
    proof {
        lemma_leaf_queue(listing(freqs@));
        if text.len() == 0 {
            assert(freqs@ =~= Map::<char, usize>::empty());
        }
    }
    let tree = make_huffman_tree(&mut nodes).unwrap();
    let mut codes: SymbolMap<String> = SymbolMap::new();
    make_codes(&tree, String::new(), &mut codes);
    proof {
        assert(code_views(codes@) =~= code_table(tree@)) by {
            assert forall|c: char| path_to(tree@, c) is Some implies #[trigger] code_views(
                codes@,
            )[c] == code_table(tree@)[c] by {
                assert(Seq::<char>::empty() + path_to(tree@, c).unwrap() =~= path_to(
                    tree@,
                    c,
                ).unwrap());
            }
        }
        assert forall|i: int| 0 <= i < text.len() implies path_to(tree@, #[trigger] text[i])
            is Some by {
            lemma_occurs(text, i);
            lemma_tree_holds(freqs@, text[i]);
        }
        lemma_encoded_is_bits(tree@, text);
    }
    let bin_string = encode(&codes, data).unwrap();
    let bytes = bin_string_to_bytes_vec(bin_string.as_str());
    BinaryData::new(bin_string.as_str().unicode_len(), freqs, bytes)
}

/// Decompresses an archive: rebuilds the tree from the table, unpacks the
/// bytes, and decodes the bits that the archive declares. The stream is
/// truncated where the archive declares more bits than its bytes hold, or
/// where the declared bits end inside a code; the alphabet is empty where
/// bits are declared without a table; the container is corrupt where the
/// counts of the table do not add up within a machine word.
pub fn decrypt(data: &BinaryData) -> (result: Result<String, HuffmanError>)
    ensures
        match result {
            Ok(text) => decrypted(data@) == Ok::<Seq<char>, HuffmanError>(text@),
            Err(e) => decrypted(data@) == Err::<Seq<char>, HuffmanError>(e),
        },
{
    let bits = bytes_vec_to_bin_string(data.encoded_data.clone());
    let available = bits.as_str().unicode_len();
    if data.original_length > available {
        return Err(HuffmanError::TruncatedStream);
    }
    if data.table.len() == 0 {
        assert(data.table@.dom() =~= Set::<char>::empty());
        assert(data.table@ =~= Map::<char, usize>::empty());
        if data.original_length == 0 {
            return Ok(String::new());
        } else {
            return Err(HuffmanError::EmptyAlphabet);
        }
    }
    if checked_total(&data.table).is_none() {
        return Err(HuffmanError::CorruptContainer);
    }
    let mut nodes = make_nodes(&data.table);
    proof {
        lemma_leaf_queue(listing(data.table@));
    }
    let tree = make_huffman_tree(&mut nodes).unwrap();
    let payload = bits.as_str().substring_char(0, data.original_length);
    decode(payload, &tree)
}

} // verus!
