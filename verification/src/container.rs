use vstd::prelude::*;
use crate::archive::{Archive, BinaryData};
use crate::error::HuffmanError;
use crate::symbol_map::{is_listing, listing, map_of, SymbolMap};

verus! {

/// The error type of bincode. Nothing is read out of it.
#[verifier::external_type_specification]
#[verifier::external_body]
pub struct ExErrorKind(bincode::ErrorKind);

/// The bytes that bincode writes for a length, a list of counted symbols and
/// a list of bytes, in this order.
pub uninterp spec fn bincode_encoded(length: u64, entries: Seq<(char, u64)>, bytes: Seq<u8>) -> Seq<
    u8,
>;

/// The length, the counted symbols and the bytes that bincode reads from the
/// front of a blob, where it can read them.
pub uninterp spec fn bincode_decoded(blob: Seq<u8>) -> Option<(u64, Seq<(char, u64)>, Seq<u8>)>;

/// Calls `bincode::serialize` on the three values as one tuple. It always
/// succeeds: the function sets no byte limit, writes into a vector, and a
/// vector is a sequence of known length. The bytes depend on the three values
/// alone, and `bincode::deserialize` reads the three values back from them.
#[verifier::external_body]
fn bincode_serialize(length: u64, entries: &Vec<(char, u64)>, bytes: &Vec<u8>) -> (result: Result<
    Vec<u8>,
    Box<bincode::ErrorKind>,
>)
    ensures
        result is Ok,
        result matches Ok(blob) ==> blob@ == bincode_encoded(length, entries@, bytes@),
        result matches Ok(blob) ==> bincode_decoded(blob@) == Some((length, entries@, bytes@)),
{
    bincode::serialize(&(length, entries, bytes))
}

/// Calls `bincode::deserialize` for a tuple of a length, counted symbols and
/// bytes. Whether it succeeds, and with what, depends on the blob alone.
/// Bytes behind the three values are not looked at.
#[verifier::external_body]
fn bincode_deserialize(blob: &[u8]) -> (result: Result<
    (u64, Vec<(char, u64)>, Vec<u8>),
    Box<bincode::ErrorKind>,
>)
    ensures
        match result {
            Ok(parts) => bincode_decoded(blob@) == Some((parts.0, parts.1@, parts.2@)),
            Err(_) => bincode_decoded(blob@) is None,
        },
{
    bincode::deserialize(blob)
}

/// The entries of a table as they are persisted: by increasing symbol, the
/// counts as 64-bit numbers.
pub open spec fn flattened(table: Map<char, usize>) -> Seq<(char, u64)> {
    listing(table).map_values(|e: (char, usize)| (e.0, e.1 as u64))
}

/// Persisted entries with their counts as machine words.
pub open spec fn counts_of(entries: Seq<(char, u64)>) -> Seq<(char, usize)> {
    entries.map_values(|e: (char, u64)| (e.0, e.1 as usize))
}

/// Every count of the entries fits a machine word.
pub open spec fn counts_fit(entries: Seq<(char, u64)>) -> bool {
    forall|i: int| 0 <= i < entries.len() ==> (#[trigger] entries[i]).1 <= usize::MAX
}

/// The archive that three persisted values stand for. Numbers that do not
/// fit a machine word make the blob corrupt; of two entries with one symbol
/// the later one counts.
pub open spec fn assembled(length: u64, entries: Seq<(char, u64)>, bytes: Seq<u8>) -> Result<
    Archive,
    HuffmanError,
> {
    if length > usize::MAX || !counts_fit(entries) {
        Err(HuffmanError::CorruptContainer)
    } else {
        Ok(
            Archive {
                original_length: length as nat,
                table: map_of(counts_of(entries)),
                encoded_data: bytes,
            },
        )
    }
}

/// The archive that a blob stands for.
pub open spec fn deserialized(blob: Seq<u8>) -> Result<Archive, HuffmanError> {
    match bincode_decoded(blob) {
        Some(parts) => assembled(parts.0, parts.1, parts.2),
        None => Err(HuffmanError::CorruptContainer),
    }
}

/// What is handed to the encoder for an archive is assembled to the same
/// archive again.
pub proof fn lemma_assembled_flattened(length: usize, table: Map<char, usize>, bytes: Seq<u8>)
    requires
        is_listing(listing(table), table),
    ensures
        assembled(length as u64, flattened(table), bytes) == Ok::<Archive, HuffmanError>(
            Archive { original_length: length as nat, table, encoded_data: bytes },
        ),
{
    let entries = flattened(table);
    assert(counts_fit(entries));
    assert(counts_of(entries) =~= listing(table));
}

/// Builds the archive of three persisted values.
pub fn assemble(length: u64, entries: Vec<(char, u64)>, bytes: Vec<u8>) -> (result: Result<
    BinaryData,
    HuffmanError,
>)
    ensures
        match result {
            Ok(data) => assembled(length, entries@, bytes@) == Ok::<Archive, HuffmanError>(data@),
            Err(e) => assembled(length, entries@, bytes@) == Err::<Archive, HuffmanError>(e),
        },
{
    if length > usize::MAX as u64 {
        return Err(HuffmanError::CorruptContainer);
    }
    let mut table: SymbolMap<usize> = SymbolMap::new();
    let mut i: usize = 0;
    while i < entries.len()
        invariant
            i <= entries.len(),
            length <= usize::MAX,
            counts_fit(entries@.take(i as int)),
            table@ == map_of(counts_of(entries@.take(i as int))),
        decreases entries.len() - i,
    {
        let (symbol, count) = entries[i];
        if count > usize::MAX as u64 {
            return Err(HuffmanError::CorruptContainer);
        }
        table.insert(symbol, count as usize);
        proof {
            let next = entries@.take(i + 1);
            assert(next.drop_last() == entries@.take(i as int));
            assert(counts_of(next).drop_last() =~= counts_of(entries@.take(i as int)));
            assert(counts_of(next).last() == (symbol, count as usize));
            assert forall|j: int| 0 <= j < next.len() implies (#[trigger] next[j]).1
                <= usize::MAX by {
                if j < i {
                    assert(next[j] == entries@.take(i as int)[j]);
                }
            }
        }
        i = i + 1;
    }
    assert(entries@.take(entries.len() as int) == entries@);
    Ok(BinaryData::new(length as usize, table, bytes))
}

/// Reads an archive from a blob.
pub fn deserialize(blob: &[u8]) -> (result: Result<BinaryData, HuffmanError>)
    ensures
        match result {
            Ok(data) => deserialized(blob@) == Ok::<Archive, HuffmanError>(data@),
            Err(e) => deserialized(blob@) == Err::<Archive, HuffmanError>(e),
        },
{
    match bincode_deserialize(blob) {
        Ok(parts) => assemble(parts.0, parts.1, parts.2),
        Err(_) => Err(HuffmanError::CorruptContainer),
    }
}

/// Writes an archive to a blob: the bit length, the table by increasing
/// symbol, and the packed bytes. Every archive has a blob, and `deserialize`
/// reads the archive back from it.
pub fn serialize(data: &BinaryData) -> (result: Result<Vec<u8>, HuffmanError>)
    ensures
        result matches Ok(blob) && blob@ == bincode_encoded(
            data.original_length as u64,
            flattened(data.table@),
            data.encoded_data@,
        ) && deserialized(blob@) == Ok::<Archive, HuffmanError>(data@),
{
    let ghost entries = listing(data.table@);
    let n = data.table.len();
    let mut flat: Vec<(char, u64)> = Vec::new();
    let mut i: usize = 0;
    while i < n
        invariant
            i <= n,
            n == data.table@.len(),
            n == entries.len(),
            entries == listing(data.table@),
            flat@ == flattened(data.table@).take(i as int),
        decreases n - i,
    {
        flat.push((data.table.key_at(i), *data.table.value_at(i) as u64));
        assert(flat@ =~= flattened(data.table@).take(i + 1));
        i = i + 1;
    }
    proof {
        assert(flat@ =~= flattened(data.table@));
        lemma_assembled_flattened(data.original_length, data.table@, data.encoded_data@);
    }
    match bincode_serialize(data.original_length as u64, &flat, &data.encoded_data) {
        Ok(blob) => Ok(blob),
        Err(_) => Err(HuffmanError::CorruptContainer),
    }
}

} // verus!
