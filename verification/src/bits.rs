use vstd::prelude::*;

verus! {

/// A bit string is text made of the characters `'0'` and `'1'` only.
pub open spec fn is_bit_string(s: Seq<char>) -> bool {
    forall|i: int| 0 <= i < s.len() ==> s[i] == '0' || s[i] == '1'
}

/// The bit at position `i` of a bit string that is followed by zeros without
/// end.
pub open spec fn bit_at(bits: Seq<char>, i: int) -> nat {
    if 0 <= i < bits.len() && bits[i] == '1' {
        1
    } else {
        0
    }
}

/// What a bit is worth at position `j` of a byte. The first bit of a group of
/// eight is the most significant one.
pub open spec fn place_value(j: int) -> nat {
    if j == 0 {
        128
    } else if j == 1 {
        64
    } else if j == 2 {
        32
    } else if j == 3 {
        16
    } else if j == 4 {
        8
    } else if j == 5 {
        4
    } else if j == 6 {
        2
    } else if j == 7 {
        1
    } else {
        0
    }
}

/// The value of the first `n` bits of the group that starts at `start`.
pub open spec fn group_value(bits: Seq<char>, start: int, n: nat) -> nat
    decreases n,
{
    if n == 0 {
        0
    } else {
        group_value(bits, start, (n - 1) as nat) + if bit_at(bits, start + n - 1) == 1 {
            place_value(n - 1)
        } else {
            0
        }
    }
}

/// The bytes that a bit string packs to: eight bits to a byte, the last group
/// filled up with zeros on the right.
pub open spec fn packed(bits: Seq<char>) -> Seq<u8> {
    Seq::new(((bits.len() + 7) / 8) as nat, |k: int| group_value(bits, 8 * k, 8) as u8)
}

/// The character for bit `j` of a byte, counted from the most significant.
pub open spec fn bit_char(byte: u8, j: int) -> char {
    if (byte as nat / place_value(j)) % 2 == 1 {
        '1'
    } else {
        '0'
    }
}

/// The bit string that bytes unpack to: eight characters for every byte.
pub open spec fn unpacked(bytes: Seq<u8>) -> Seq<char> {
    Seq::new(8 * bytes.len(), |i: int| bit_char(bytes[i / 8], i % 8))
}

/// A group of eight bits is worth less than 256, and each of its bits can be
/// read back from its value.
pub proof fn lemma_group_value(bits: Seq<char>, start: int)
    ensures
        group_value(bits, start, 8) < 256,
        forall|j: int|
            0 <= j < 8 ==> (#[trigger] bit_char(group_value(bits, start, 8) as u8, j) == '1')
                == (bit_at(bits, start + j) == 1),
{
    reveal_with_fuel(group_value, 9);
    let v = group_value(bits, start, 8);
    let b0 = bit_at(bits, start);
    let b1 = bit_at(bits, start + 1);
    let b2 = bit_at(bits, start + 2);
    let b3 = bit_at(bits, start + 3);
    let b4 = bit_at(bits, start + 4);
    let b5 = bit_at(bits, start + 5);
    let b6 = bit_at(bits, start + 6);
    let b7 = bit_at(bits, start + 7);
    assert(v == 128 * b0 + 64 * b1 + 32 * b2 + 16 * b3 + 8 * b4 + 4 * b5 + 2 * b6 + b7);
    assert((v / 128) % 2 == b0);
    assert((v / 64) % 2 == b1);
    assert((v / 32) % 2 == b2);
    assert((v / 16) % 2 == b3);
    assert((v / 8) % 2 == b4);
    assert((v / 4) % 2 == b5);
    assert((v / 2) % 2 == b6);
    assert((v / 1) % 2 == b7);
}

/// Unpacking what was packed gives the bit string back, followed by fewer than
/// eight `'0'` characters that fill it up to a multiple of eight.
pub proof fn lemma_unpack_pack(bits: Seq<char>)
    requires
        is_bit_string(bits),
    ensures
        unpacked(packed(bits)).len() == 8 * ((bits.len() + 7) / 8),
        bits.len() <= unpacked(packed(bits)).len() < bits.len() + 8,
        unpacked(packed(bits)).take(bits.len() as int) == bits,
        forall|i: int|
            bits.len() <= i < unpacked(packed(bits)).len() ==> unpacked(packed(bits))[i] == '0',
{
    let bytes = packed(bits);
    let out = unpacked(bytes);
    assert forall|i: int| 0 <= i < out.len() implies out[i] == (if i < bits.len() {
        bits[i]
    } else {
        '0'
    }) by {
        let k = i / 8;
        let j = i % 8;
        lemma_group_value(bits, 8 * k);
        assert(bytes[k] == group_value(bits, 8 * k, 8) as u8);
        assert(out[i] == bit_char(bytes[k], j));
        assert(8 * k + j == i);
    }
    assert(out.take(bits.len() as int) =~= bits);
}

/// Packs a bit string into bytes. The first character of each group of eight
/// becomes the most significant bit of its byte; the last group is filled up
/// with zeros on the right.
pub fn bin_string_to_bytes_vec(bin_string: &str) -> (bytes: Vec<u8>)
    requires
        is_bit_string(bin_string@),
    ensures
        bytes@ == packed(bin_string@),
{
    let ghost bits = bin_string@;
    let mut bytes: Vec<u8> = Vec::new();
    let mut acc: u8 = 0;
    let mut place: u8 = 128;
    let mut filled: usize = 0;
    for ch in it: bin_string.chars()
        invariant
            it.seq() == bits,
            filled < 8,
            place == place_value(filled as int),
            it.index() == 8 * bytes.len() + filled,
            acc == group_value(bits, 8 * bytes.len(), filled as nat),
            acc + 2 * place <= 256,
            forall|k: int| 0 <= k < bytes.len() ==> bytes[k] == group_value(bits, 8 * k, 8) as u8,
    {
        proof {
            assert(bits[it.index()] == ch);
            assert(bit_at(bits, 8 * bytes.len() + filled) == if ch == '1' {
                1nat
            } else {
                0nat
            });
        }
        if ch == '1' {
            acc = acc + place;
        }
        filled = filled + 1;
        if filled == 8 {
            bytes.push(acc);
            acc = 0;
            place = 128;
            filled = 0;
        } else {
            place = place / 2;
        }
    }
    if filled > 0 {
        proof {
            reveal_with_fuel(group_value, 9);
            assert(group_value(bits, 8 * bytes.len(), 8) == acc);
        }
        bytes.push(acc);
    }
    assert(bytes@ =~= packed(bits));
    bytes
}

/// Unpacks bytes into a bit string of eight characters per byte, the most
/// significant bit of each byte first. Padding bits are not trimmed.
pub fn bytes_vec_to_bin_string(bytes: Vec<u8>) -> (bin_string: String)
    ensures
        bin_string@ == unpacked(bytes@),
{
    let mut bin_string = String::new();
    let mut k: usize = 0;
    while k < bytes.len()
        invariant
            k <= bytes.len(),
            bin_string@.len() == 8 * k,
            forall|i: int| 0 <= i < 8 * k ==> bin_string@[i] == bit_char(bytes[i / 8], i % 8),
        decreases bytes.len() - k,
    {
        let byte = bytes[k];
        let mut place: u8 = 128;
        let mut j: usize = 0;
        while j < 8
            invariant
                j <= 8,
                k < bytes.len(),
                byte == bytes[k as int],
                j < 8 ==> place == place_value(j as int),
                bin_string@.len() == 8 * k + j,
                forall|i: int|
                    0 <= i < 8 * k + j ==> bin_string@[i] == bit_char(bytes[i / 8], i % 8),
            decreases 8 - j,
        {
            let bit = (byte / place) % 2;
            bin_string.push(if bit == 1 {
                '1'
            } else {
                '0'
            });
            place = place / 2;
            j = j + 1;
        }
        k = k + 1;
    }
    assert(bin_string@ =~= unpacked(bytes@));
    bin_string
}

} // verus!
