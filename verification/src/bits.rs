//! Bit sequences and their packing, most significant bit first.
//!
//! A bit is held as a `u8` that is 0 or 1. A code of up to sixteen bits packs
//! into a `u16`, left-justified; a bit stream packs into bytes, the last byte
//! padded with zero bits.

use vstd::prelude::*;

verus! {

/// Every element is 0 or 1.
pub open spec fn is_bits(bits: Seq<u8>) -> bool {
    forall|i: int| 0 <= i < bits.len() ==> #[trigger] bits[i] <= 1
}

/// The bit at index `i`, and 0 outside the sequence.
pub open spec fn bit_at(bits: Seq<u8>, i: int) -> u8 {
    if 0 <= i < bits.len() {
        bits[i]
    } else {
        0
    }
}

/// `n` zero bits.
pub open spec fn zero_bits(n: nat) -> Seq<u8> {
    Seq::new(n, |i: int| 0u8)
}

/// Every element is 0.
pub open spec fn all_zero(bits: Seq<u8>) -> bool {
    forall|i: int| 0 <= i < bits.len() ==> #[trigger] bits[i] == 0
}

/// `a` is the start of `b`.
pub open spec fn is_prefix_of(a: Seq<u8>, b: Seq<u8>) -> bool {
    a.len() <= b.len() && b.subrange(0, a.len() as int) == a
}

/// The word that holds `code` left-justified: bit `i` of the code is bit
/// `15 - i` of the word, and the bits past the code's end are 0. Codes longer
/// than sixteen bits have no word; they are given 0.
pub open spec fn pack_code(code: Seq<u8>) -> u16
    decreases code.len(),
{
    if code.len() == 0 || code.len() > 16 {
        0
    } else {
        pack_code(code.drop_last()) | ((code.last() as u16) << ((16 - code.len()) as u16))
    }
}

/// Bit `i` of a left-justified word, for `0 <= i < 16`.
pub open spec fn word_bit(word: u16, i: int) -> u8 {
    ((word >> ((15 - i) as u16)) & 1) as u8
}

/// The first `len` bits of a left-justified word.
pub open spec fn unpack_code(word: u16, len: nat) -> Seq<u8> {
    Seq::new(len, |i: int| word_bit(word, i))
}

/// The byte that holds up to eight bits left-justified: bit `i` of `chunk` is
/// bit `7 - i` of the byte, and the bits past the chunk's end are 0.
pub open spec fn pack_byte(chunk: Seq<u8>) -> u8
    decreases chunk.len(),
{
    if chunk.len() == 0 || chunk.len() > 8 {
        0
    } else {
        pack_byte(chunk.drop_last()) | (chunk.last() << ((8 - chunk.len()) as u8))
    }
}

/// Bit `i` of a byte counted from its most significant bit, for `0 <= i < 8`.
pub open spec fn byte_bit(byte: u8, i: int) -> u8 {
    (byte >> ((7 - i) as u8)) & 1
}

/// The bits of `bits` from `8 * j`, at most eight of them.
pub open spec fn chunk_of(bits: Seq<u8>, j: int) -> Seq<u8> {
    bits.subrange(8 * j, if 8 * j + 8 <= bits.len() { 8 * j + 8 } else { bits.len() as int })
}

/// The bytes that hold a bit stream: eight bits to a byte, first bit most
/// significant, the last byte filled up with zero bits.
pub open spec fn pack_bits(bits: Seq<u8>) -> Seq<u8> {
    Seq::new(((bits.len() + 7) / 8) as nat, |j: int| pack_byte(chunk_of(bits, j)))
}

/// The bit stream that a byte sequence holds: eight bits for each byte, the
/// most significant first.
pub open spec fn unpack_bits(bytes: Seq<u8>) -> Seq<u8> {
    Seq::new(8 * bytes.len(), |i: int| byte_bit(bytes[i / 8], i % 8))
}

/// Number of zero bits that fill the last byte of a packed stream of `n` bits.
pub open spec fn padding_len(n: nat) -> nat {
    ((8 - n % 8) % 8) as nat
}

/// Setting one bit of a word leaves the other bits as they were.
proof fn lemma_word_set_bit(word: u16, bit: u16, n: u16, i: u16)
    by (bit_vector)
    requires
        bit <= 1,
        n < 16,
        i < 16,
    ensures
        ((word | (bit << ((15 - n) as u16))) >> ((15 - i) as u16)) & 1 == if i == n {
            ((word >> ((15 - n) as u16)) & 1) | bit
        } else {
            (word >> ((15 - i) as u16)) & 1
        },
{
}

/// Setting one bit of a byte leaves the other bits as they were.
proof fn lemma_byte_set_bit(byte: u8, bit: u8, n: u8, i: u8)
    by (bit_vector)
    requires
        bit <= 1,
        n < 8,
        i < 8,
    ensures
        ((byte | (bit << ((7 - n) as u8))) >> ((7 - i) as u8)) & 1 == if i == n {
            ((byte >> ((7 - n) as u8)) & 1) | bit
        } else {
            (byte >> ((7 - i) as u8)) & 1
        },
{
}

proof fn lemma_zero_word(i: u16)
    by (bit_vector)
    requires
        i < 16,
    ensures
        (0u16 >> ((15 - i) as u16)) & 1 == 0,
{
}

proof fn lemma_zero_byte(i: u8)
    by (bit_vector)
    requires
        i < 8,
    ensures
        (0u8 >> ((7 - i) as u8)) & 1 == 0,
{
}

proof fn lemma_or_bit(bit: u16)
    by (bit_vector)
    requires
        bit <= 1,
    ensures
        0u16 | bit == bit,
{
}

proof fn lemma_or_bit_byte(bit: u8)
    by (bit_vector)
    requires
        bit <= 1,
    ensures
        0u8 | bit == bit,
{
}

proof fn lemma_bit_is_bit(word: u16, i: u16)
    by (bit_vector)
    requires
        i < 16,
    ensures
        (word >> ((15 - i) as u16)) & 1 <= 1,
{
}

proof fn lemma_byte_bit_is_bit(byte: u8, i: u8)
    by (bit_vector)
    requires
        i < 8,
    ensures
        (byte >> ((7 - i) as u8)) & 1 <= 1,
{
}

/// A packed code holds each bit of the code at its place, and zeros after it.
pub proof fn lemma_pack_code_bits(code: Seq<u8>, i: int)
    requires
        is_bits(code),
        code.len() <= 16,
        0 <= i < 16,
    ensures
        word_bit(pack_code(code), i) == bit_at(code, i),
    decreases code.len(),
{
    if code.len() == 0 {
        lemma_zero_word(i as u16);
    } else {
        let shorter = code.drop_last();
        let n = (code.len() - 1) as u16;
        let bit = code.last() as u16;
        assert(code[code.len() - 1] <= 1);
        assert(is_bits(shorter)) by {
            assert forall|k: int| 0 <= k < shorter.len() implies #[trigger] shorter[k] <= 1 by {
                assert(shorter[k] == code[k]);
            }
        }
        lemma_pack_code_bits(shorter, i);
        lemma_pack_code_bits(shorter, n as int);
        lemma_word_set_bit(pack_code(shorter), bit, n, i as u16);
        lemma_bit_is_bit(pack_code(shorter), n);
        lemma_bit_is_bit(pack_code(shorter), i as u16);
        assert((16 - code.len()) as u16 == (15 - n) as u16);
        assert(pack_code(code) == pack_code(shorter) | (bit << ((15 - n) as u16)));
        if i == n {
            lemma_or_bit(bit);
        } else if i < n {
            assert(shorter[i] == code[i]);
        }
    }
}

/// Unpacking a packed code gives the code back.
pub proof fn lemma_unpack_pack_code(code: Seq<u8>)
    requires
        is_bits(code),
        code.len() <= 16,
    ensures
        unpack_code(pack_code(code), code.len()) == code,
{
    assert forall|i: int| 0 <= i < code.len() implies unpack_code(pack_code(code), code.len())[i]
        == code[i] by {
        lemma_pack_code_bits(code, i);
    }
    assert(unpack_code(pack_code(code), code.len()) =~= code);
}

/// What comes out of a word is a bit sequence.
pub proof fn lemma_unpack_code_is_bits(word: u16, len: nat)
    requires
        len <= 16,
    ensures
        is_bits(unpack_code(word, len)),
        unpack_code(word, len).len() == len,
{
    assert forall|i: int| 0 <= i < len implies #[trigger] unpack_code(word, len)[i] <= 1 by {
        lemma_bit_is_bit(word, i as u16);
    }
}

/// A packed chunk holds each bit of the chunk at its place, and zeros after it.
pub proof fn lemma_pack_byte_bits(chunk: Seq<u8>, i: int)
    requires
        is_bits(chunk),
        chunk.len() <= 8,
        0 <= i < 8,
    ensures
        byte_bit(pack_byte(chunk), i) == bit_at(chunk, i),
    decreases chunk.len(),
{
    if chunk.len() == 0 {
        lemma_zero_byte(i as u8);
    } else {
        let shorter = chunk.drop_last();
        let n = (chunk.len() - 1) as u8;
        let bit = chunk.last();
        assert(chunk[chunk.len() - 1] <= 1);
        assert(is_bits(shorter)) by {
            assert forall|k: int| 0 <= k < shorter.len() implies #[trigger] shorter[k] <= 1 by {
                assert(shorter[k] == chunk[k]);
            }
        }
        lemma_pack_byte_bits(shorter, i);
        lemma_pack_byte_bits(shorter, n as int);
        lemma_byte_set_bit(pack_byte(shorter), bit, n, i as u8);
        assert((8 - chunk.len()) as u8 == (7 - n) as u8);
        assert(pack_byte(chunk) == pack_byte(shorter) | (bit << ((7 - n) as u8)));
        if i == n {
            lemma_or_bit_byte(bit);
        } else if i < n {
            assert(shorter[i] == chunk[i]);
        }
    }
}

/// What comes out of bytes is a bit sequence.
pub proof fn lemma_unpack_bits_is_bits(bytes: Seq<u8>)
    ensures
        is_bits(unpack_bits(bytes)),
{
    assert forall|i: int| 0 <= i < unpack_bits(bytes).len() implies #[trigger] unpack_bits(
        bytes,
    )[i] <= 1 by {
        lemma_byte_bit_is_bit(bytes[i / 8], (i % 8) as u8);
    }
}

/// Unpacking a packed bit stream gives the stream back, followed by the zero
/// bits that filled its last byte.
pub proof fn lemma_unpack_pack_bits(bits: Seq<u8>)
    requires
        is_bits(bits),
    ensures
        unpack_bits(pack_bits(bits)) == bits + zero_bits(padding_len(bits.len())),
        padding_len(bits.len()) < 8,
{
    let packed = pack_bits(bits);
    let back = unpack_bits(packed);
    let padded = bits + zero_bits(padding_len(bits.len()));
    assert(back.len() == padded.len());
    assert forall|i: int| 0 <= i < back.len() implies back[i] == padded[i] by {
        let j = i / 8;
        let k = i % 8;
        let chunk = chunk_of(bits, j);
        assert(is_bits(chunk)) by {
            assert forall|m: int| 0 <= m < chunk.len() implies #[trigger] chunk[m] <= 1 by {
                assert(chunk[m] == bits[8 * j + m]);
            }
        }
        lemma_pack_byte_bits(chunk, k);
        assert(back[i] == byte_bit(packed[j], k));
        assert(packed[j] == pack_byte(chunk));
        if i < bits.len() {
            assert(chunk[k] == bits[8 * j + k]);
        }
    }
    assert(back =~= padded);
}

/// Packs a code of at most sixteen bits into a word, first bit most
/// significant. A longer code has no word and gives 0.
pub fn pack_code_word(code: &Vec<u8>) -> (word: u16)
    ensures
        word == pack_code(code@),
{
    if code.len() > 16 {
        return 0;
    }
    let mut word: u16 = 0;
    let mut i: usize = 0;
    while i < code.len()
        invariant
            i <= code.len() <= 16,
            word == pack_code(code@.subrange(0, i as int)),
        decreases code.len() - i,
    {
        let bit: u16 = code[i] as u16;
        let shift: u16 = 15 - (i as u16);
        proof {
            let grown = code@.subrange(0, i + 1);
            assert(grown.drop_last() =~= code@.subrange(0, i as int));
            assert(grown.last() == code@[i as int]);
        }
        word = word | (bit << shift);
        i += 1;
    }
    proof {
        assert(code@.subrange(0, code.len() as int) =~= code@);
    }
    word
}

/// The first `len` bits of a word, most significant first.
pub fn unpack_code_word(word: u16, len: u8) -> (code: Vec<u8>)
    requires
        len <= 16,
    ensures
        code@ == unpack_code(word, len as nat),
{
    let mut code: Vec<u8> = Vec::new();
    let mut i: u8 = 0;
    while i < len
        invariant
            i <= len <= 16,
            code@ == unpack_code(word, i as nat),
        decreases len - i,
    {
        let shift: u16 = 15 - (i as u16);
        let bit: u16 = (word >> shift) & 1;
        proof {
            lemma_bit_is_bit(word, i as u16);
        }
        code.push(bit as u8);
        i += 1;
        proof {
            assert(code@ =~= unpack_code(word, i as nat));
        }
    }
    code
}

/// Packs a bit stream into bytes, first bit most significant; a last byte
/// that is only partly filled is padded with zero bits.
pub fn pack_bit_stream(bits: &Vec<u8>) -> (bytes: Vec<u8>)
    ensures
        bytes@ == pack_bits(bits@),
{
    let mut bytes: Vec<u8> = Vec::new();
    let mut byte: u8 = 0;
    let mut bit_count: u8 = 0;
    let mut i: usize = 0;
    while i < bits.len()
        invariant
            i <= bits.len(),
            bit_count < 8,
            i == 8 * bytes.len() + bit_count,
            byte == pack_byte(bits@.subrange(i - bit_count, i as int)),
            forall|j: int| 0 <= j < bytes.len() ==> bytes[j] == pack_byte(chunk_of(bits@, j)),
        decreases bits.len() - i,
    {
        let bit: u8 = bits[i];
        let shift: u8 = 7 - bit_count;
        proof {
            let grown = bits@.subrange(i - bit_count, i + 1);
            assert(grown.drop_last() =~= bits@.subrange(i - bit_count, i as int));
            assert(grown.last() == bits@[i as int]);
        }
        byte = byte | (bit << shift);
        bit_count += 1;
        i += 1;
        if bit_count == 8 {
            proof {
                assert(bits@.subrange(i - 8, i as int) =~= chunk_of(bits@, bytes.len() as int));
            }
            bytes.push(byte);
            byte = 0;
            bit_count = 0;
            proof {
                assert(bits@.subrange(i as int, i as int) =~= Seq::<u8>::empty());
            }
        }
    }
    if bit_count > 0 {
        proof {
            assert(bits@.subrange(i - bit_count, i as int) =~= chunk_of(
                bits@,
                bytes.len() as int,
            ));
        }
        bytes.push(byte);
    }
    proof {
        assert(bytes@ =~= pack_bits(bits@));
    }
    bytes
}

/// Unpacks bytes into a bit stream, eight bits for each byte, the most
/// significant first.
pub fn unpack_bit_stream(bytes: &[u8]) -> (bits: Vec<u8>)
    ensures
        bits@ == unpack_bits(bytes@),
{
    let mut bits: Vec<u8> = Vec::new();
    let mut j: usize = 0;
    while j < bytes.len()
        invariant
            j <= bytes.len(),
            bits@ == unpack_bits(bytes@.subrange(0, j as int)),
        decreases bytes.len() - j,
    {
        let byte: u8 = bytes[j];
        let ghost before = bits@;
        let mut k: u8 = 0;
        while k < 8
            invariant
                k <= 8,
                j < bytes.len(),
                byte == bytes@[j as int],
                bits@.len() == before.len() + k,
                before.len() == 8 * j,
                forall|m: int| 0 <= m < before.len() ==> bits@[m] == before[m],
                forall|m: int| 0 <= m < k ==> bits@[before.len() + m] == byte_bit(byte, m),
            decreases 8 - k,
        {
            let shift: u8 = 7 - k;
            bits.push((byte >> shift) & 1);
            k += 1;
        }
        j += 1;
        proof {
            let grown = unpack_bits(bytes@.subrange(0, j as int));
            assert(bits@.len() == grown.len());
            assert forall|m: int| 0 <= m < bits@.len() implies bits@[m] == grown[m] by {
                if m < before.len() {
                    assert(before[m] == byte_bit(bytes@.subrange(0, j - 1)[m / 8], m % 8));
                } else {
                    assert(m / 8 == j - 1);
                    assert(bits@[before.len() + (m - before.len())] == byte_bit(
                        byte,
                        m - before.len(),
                    ));
                }
            }
            assert(bits@ =~= grown);
        }
    }
    proof {
        assert(bytes@.subrange(0, bytes.len() as int) =~= bytes@);
    }
    bits
}

} // verus!
