//! Decoding undoes encoding: what `huffman_encode` makes of a buffer,
//! `huffman_decode` turns back into that buffer.

use crate::bits::{
    all_zero, is_prefix_of, lemma_unpack_pack_bits, lemma_unpack_pack_code, pack_bits, pack_code,
    padding_len, zero_bits,
};
use crate::error::CacheError;
use crate::frequency::{
    comes_before, frequency_table, lemma_frequency_table, lemma_occurrences_bound,
    lemma_occurrences_contains, occurrences,
};
use crate::huffman::{
    code_stream, code_table, codes_fit, decode_stream, has_zero_code, huffman_decode_spec,
    huffman_encode_spec, huffman_queue, leaf_node, leaf_queue, lemma_code_stream_is_bits,
    lemma_table_entries_len, merged_node, merged_queue, padding_reads_as_code, queue_slot, queue_with,
    read_table, table_entries, table_entry, tree_codes, zero_symbol, MinHeapNode,
};
use crate::tree_laws::{is_prefix_code, lemma_code_table, pad_safe};
use crate::wire::{le_u16, lemma_le_u16};
use vstd::prelude::*;

verus! {

/// The entry of a byte value in the table region, and nothing where it has
/// no code.
pub open spec fn entry_or_nothing(table: Map<u8, Seq<u8>>, symbol: u8) -> Seq<u8> {
    if table.contains_key(symbol) {
        table_entry(symbol, table[symbol])
    } else {
        Seq::empty()
    }
}

/// The entries of the byte values from `from` on, in rising order.
pub open spec fn entries_from(table: Map<u8, Seq<u8>>, from: int) -> Seq<u8>
    decreases 256 - from,
{
    if from >= 256 || from < 0 {
        Seq::empty()
    } else {
        entry_or_nothing(table, from as u8) + entries_from(table, from + 1)
    }
}

/// The decoding table that reading the entries from `from` on adds to
/// `found`.
pub open spec fn decoding_table(
    table: Map<u8, Seq<u8>>,
    from: int,
    found: Map<Seq<u8>, u8>,
) -> Map<Seq<u8>, u8>
    decreases 256 - from,
{
    if from >= 256 || from < 0 {
        found
    } else {
        decoding_table(
            table,
            from + 1,
            if table.contains_key(from as u8) {
                found.insert(table[from as u8], from as u8)
            } else {
                found
            },
        )
    }
}

/// Some byte value from `from` on has this code.
pub open spec fn is_code_from(table: Map<u8, Seq<u8>>, from: int, code: Seq<u8>) -> bool {
    exists|s: u8| from <= s && table.contains_key(s) && #[trigger] table[s] == code
}

/// The entries below `upto` and those from `upto` on make up the table
/// region.
proof fn lemma_entries_split(table: Map<u8, Seq<u8>>, upto: int)
    requires
        0 <= upto <= 256,
    ensures
        table_entries(table, upto) + entries_from(table, upto) == table_entries(table, 256),
    decreases 256 - upto,
{
    if upto == 256 {
        assert(table_entries(table, 256) + Seq::<u8>::empty() =~= table_entries(table, 256));
    } else {
        lemma_entries_split(table, upto + 1);
        let entry = entry_or_nothing(table, upto as u8);
        assert(table_entries(table, upto + 1) == table_entries(table, upto) + entry);
        assert((table_entries(table, upto) + entry) + entries_from(table, upto + 1)
            =~= table_entries(table, upto) + (entry + entries_from(table, upto + 1)));
    }
}

/// Reading the entries that the encoder wrote gives the decoding table of
/// the code table.
proof fn lemma_read_entries(
    table: Map<u8, Seq<u8>>,
    from: int,
    input: Seq<u8>,
    at: int,
    end: int,
    found: Map<Seq<u8>, u8>,
)
    requires
        0 <= from <= 256,
        0 <= at,
        end == at + entries_from(table, from).len(),
        end <= input.len(),
        input.subrange(at, end) == entries_from(table, from),
        is_prefix_code(table),
        codes_fit(table),
    ensures
        read_table(input, at, end, found) == Ok::<(Map<Seq<u8>, u8>, int), CacheError>(
            (decoding_table(table, from, found), end),
        ),
    decreases 256 - from,
{
    if from < 256 {
        let symbol = from as u8;
        if table.contains_key(symbol) {
            let code = table[symbol];
            let entry = table_entry(symbol, code);
            let rest = entries_from(table, from + 1);
            let region = input.subrange(at, end);
            lemma_le_u16(pack_code(code), Seq::empty());
            assert(entry.len() == 4);
            assert(region == entry + rest);
            assert(input[at] == region[0]);
            assert(input[at + 1] == region[1]);
            assert(region[0] == symbol);
            assert(code.len() <= 16);
            assert(region[1] == code.len() as u8);
            assert(input.subrange(at + 2, at + 4) =~= le_u16(pack_code(code))) by {
                assert(input[at + 2] == region[2]);
                assert(input[at + 3] == region[3]);
                assert(region[2] == entry[2]);
                assert(region[3] == entry[3]);
            }
            lemma_unpack_pack_code(code);
            assert(region.len() == 4 + rest.len());
            assert forall|i: int| 0 <= i < rest.len() implies input.subrange(at + 4, end)[i]
                == rest[i] by {
                assert(input[at + 4 + i] == region[4 + i]);
                assert(region[4 + i] == rest[i]);
            }
            assert(input.subrange(at + 4, end) =~= rest);
            lemma_read_entries(table, from + 1, input, at + 4, end, found.insert(code, symbol));
        } else {
            assert(entries_from(table, from) =~= entries_from(table, from + 1));
            lemma_read_entries(table, from + 1, input, at, end, found);
        }
    }
}

/// What the decoding table holds: the codes of the code table and what was
/// found before, and for each code of the code table its byte value.
proof fn lemma_decoding_table(table: Map<u8, Seq<u8>>, from: int, found: Map<Seq<u8>, u8>)
    requires
        0 <= from <= 256,
        is_prefix_code(table),
        forall|s: u8| s < from && table.contains_key(s) ==> found.contains_key(#[trigger] table[s])
            && found[table[s]] == s,
    ensures
        forall|code: Seq<u8>| #[trigger]
            decoding_table(table, from, found).contains_key(code) ==> found.contains_key(code)
                || is_code_from(table, from, code),
        forall|s: u8|
            table.contains_key(s) ==> decoding_table(table, from, found).contains_key(
                #[trigger] table[s],
            ) && decoding_table(table, from, found)[table[s]] == s,
    decreases 256 - from,
{
    if from < 256 {
        let symbol = from as u8;
        let next = if table.contains_key(symbol) {
            found.insert(table[symbol], symbol)
        } else {
            found
        };
        assert forall|s: u8| s < from + 1 && table.contains_key(s) implies next.contains_key(
            #[trigger] table[s],
        ) && next[table[s]] == s by {
            if s < from && table.contains_key(symbol) && table[s] == table[symbol] {
                assert(table[s].subrange(0, table[s].len() as int) =~= table[s]);
                assert(is_prefix_of(table[s], table[symbol]));
            }
        }
        lemma_decoding_table(table, from + 1, next);
        assert(decoding_table(table, from, found) == decoding_table(table, from + 1, next));
        assert forall|code: Seq<u8>| #[trigger]
            decoding_table(table, from, found).contains_key(code) implies found.contains_key(code)
            || is_code_from(table, from, code) by {
            assert(decoding_table(table, from + 1, next).contains_key(code));
            if !found.contains_key(code) {
                if next.contains_key(code) {
                    assert(table[symbol] == code);
                } else {
                    assert(is_code_from(table, from + 1, code));
                    let s = choose|s: u8|
                        from + 1 <= s && table.contains_key(s) && #[trigger] table[s] == code;
                    assert(from <= s && table.contains_key(s) && table[s] == code);
                }
            }
        }
    }
}

/// A reader that has taken the first `taken` bits of a code, with the rest
/// of the code ahead, gives out the code's byte value and starts afresh.
proof fn lemma_decode_code(
    table: Map<u8, Seq<u8>>,
    decoding: Map<Seq<u8>, u8>,
    symbol: u8,
    taken: int,
    rest: Seq<u8>,
)
    requires
        is_prefix_code(table),
        table.contains_key(symbol),
        0 <= taken < table[symbol].len(),
        forall|code: Seq<u8>| #[trigger]
            decoding.contains_key(code) ==> is_code_from(table, 0, code),
        forall|s: u8|
            table.contains_key(s) ==> decoding.contains_key(#[trigger] table[s])
                && decoding[table[s]] == s,
    ensures
        decode_stream(
            decoding,
            table[symbol].skip(taken) + rest,
            table[symbol].subrange(0, taken),
        ) == seq![symbol] + decode_stream(decoding, rest, Seq::empty()),
    decreases table[symbol].len() - taken,
{
    let code = table[symbol];
    let bits = code.skip(taken) + rest;
    let pending = code.subrange(0, taken);
    let grown = pending.push(bits[0]);
    assert(bits[0] == code[taken]);
    assert(grown =~= code.subrange(0, taken + 1));
    if taken + 1 == code.len() {
        assert(grown =~= code);
        assert(bits.skip(1) =~= rest);
    } else {
        if decoding.contains_key(grown) {
            let s = choose|s: u8| 0 <= s && table.contains_key(s) && #[trigger] table[s] == grown;
            assert(is_prefix_of(table[s], code));
        }
        assert(bits.skip(1) =~= code.skip(taken + 1) + rest);
        lemma_decode_code(table, decoding, symbol, taken + 1, rest);
    }
}

/// A reader gives out the bytes of a buffer from the codes of its bytes,
/// and goes on with what follows them.
proof fn lemma_decode_codes(
    table: Map<u8, Seq<u8>>,
    decoding: Map<Seq<u8>, u8>,
    data: Seq<u8>,
    rest: Seq<u8>,
)
    requires
        is_prefix_code(table),
        forall|s: u8| table.contains_key(s) ==> (#[trigger] table[s]).len() > 0,
        forall|i: int| 0 <= i < data.len() ==> table.contains_key(#[trigger] data[i]),
        forall|code: Seq<u8>| #[trigger]
            decoding.contains_key(code) ==> is_code_from(table, 0, code),
        forall|s: u8|
            table.contains_key(s) ==> decoding.contains_key(#[trigger] table[s])
                && decoding[table[s]] == s,
    ensures
        decode_stream(decoding, code_stream(table, data) + rest, Seq::empty()) == data
            + decode_stream(decoding, rest, Seq::empty()),
    decreases data.len(),
{
    if data.len() == 0 {
        assert(code_stream(table, data) + rest =~= rest);
        assert(data + decode_stream(decoding, rest, Seq::empty()) =~= decode_stream(
            decoding,
            rest,
            Seq::empty(),
        ));
    } else {
        let shorter = data.drop_last();
        let last = data.last();
        assert(table.contains_key(data[data.len() - 1]));
        let code = table[last];
        assert forall|i: int| 0 <= i < shorter.len() implies table.contains_key(
            #[trigger] shorter[i],
        ) by {
            assert(shorter[i] == data[i]);
        }
        lemma_decode_codes(table, decoding, shorter, code + rest);
        assert(code_stream(table, data) + rest =~= code_stream(table, shorter) + (code + rest));
        assert(code.len() > 0);
        lemma_decode_code(table, decoding, last, 0, rest);
        assert(code.skip(0) =~= code);
        assert(code.subrange(0, 0) =~= Seq::<u8>::empty());
        assert(shorter + (seq![last] + decode_stream(decoding, rest, Seq::empty())) =~= data
            + decode_stream(decoding, rest, Seq::empty()));
    }
}

/// The zero bits of the padding give out nothing: with the zero bits that
/// are pending they are too few to be a code.
proof fn lemma_decode_padding(
    table: Map<u8, Seq<u8>>,
    decoding: Map<Seq<u8>, u8>,
    limit: nat,
    padding: nat,
    pending: nat,
)
    requires
        pad_safe(table, limit),
        pending + padding <= limit,
        forall|code: Seq<u8>| #[trigger]
            decoding.contains_key(code) ==> is_code_from(table, 0, code),
    ensures
        decode_stream(decoding, zero_bits(padding), zero_bits(pending)) == Seq::<u8>::empty(),
    decreases padding,
{
    if padding > 0 {
        let grown = zero_bits(pending).push(zero_bits(padding)[0]);
        assert(grown =~= zero_bits(pending + 1));
        if decoding.contains_key(grown) {
            let s = choose|s: u8| 0 <= s && table.contains_key(s) && #[trigger] table[s] == grown;
            assert(all_zero(table[s]));
        }
        assert(zero_bits(padding).skip(1) =~= zero_bits((padding - 1) as nat));
        lemma_decode_padding(table, decoding, limit, (padding - 1) as nat, pending + 1);
    }
}

/// Decoding restores what was encoded: where a buffer can be encoded at
/// all, the decoder makes the buffer of what the encoder made of it. This
/// holds of the empty buffer and of a buffer of one repeated byte value too.
pub proof fn law_huffman_round_trip(data: Seq<u8>, encoded: Seq<u8>)
    requires
        data.len() <= u64::MAX,
        huffman_encode_spec(data) == Ok::<Seq<u8>, CacheError>(encoded),
    ensures
        huffman_decode_spec(encoded) == Ok::<Seq<u8>, CacheError>(data),
{
    let table = code_table(data);
    lemma_code_table(data);
    let entries = table_entries(table, 256);
    lemma_table_entries_len(table, 256);
    let stream = code_stream(table, data);
    let packed = pack_bits(stream);
    let size = entries.len() as u16;
    lemma_le_u16(size, Seq::empty());
    assert(encoded == le_u16(size) + entries + packed);
    assert(encoded.subrange(0, 2) =~= le_u16(size));
    let end = 2 + entries.len();
    lemma_entries_split(table, 0);
    assert(table_entries(table, 0) + entries_from(table, 0) =~= entries_from(table, 0));
    assert(encoded.subrange(2, end as int) =~= entries);
    lemma_read_entries(table, 0, encoded, 2, end as int, Map::empty());
    let decoding = decoding_table(table, 0, Map::empty());
    lemma_decoding_table(table, 0, Map::empty());
    assert(encoded.skip(end as int) =~= packed);
    lemma_code_stream_is_bits(table, data);
    lemma_unpack_pack_bits(stream);
    let limit = padding_len(stream.len());
    let padding = zero_bits(limit);
    assert forall|s: u8| table.contains_key(s) implies (#[trigger] table[s]).len() > 0 by {
        if table[s].len() == 0 {
            assert(all_zero(table[s]));
        }
    }
    lemma_decode_codes(table, decoding, data, padding);
    lemma_decode_padding(table, decoding, limit, limit, 0);
    assert(zero_bits(0) =~= Seq::<u8>::empty());
    assert(data + Seq::<u8>::empty() =~= data);
}

/// A byte value that is all that a buffer holds occurs as often as the
/// buffer is long, and no other value occurs in it.
proof fn lemma_occurrences_of_one_value(data: Seq<u8>, symbol: u8, other: u8)
    requires
        forall|i: int| 0 <= i < data.len() ==> data[i] == symbol,
    ensures
        occurrences(data, symbol) == data.len(),
        other != symbol ==> occurrences(data, other) == 0,
    decreases data.len(),
{
    if data.len() > 0 {
        lemma_occurrences_of_one_value(data.drop_last(), symbol, other);
    }
}

/// Codes that are all empty make an empty stream.
proof fn lemma_empty_codes_stream(table: Map<u8, Seq<u8>>, data: Seq<u8>)
    requires
        forall|i: int| 0 <= i < data.len() ==> (#[trigger] table[data[i]]).len() == 0,
    ensures
        code_stream(table, data).len() == 0,
    decreases data.len(),
{
    if data.len() > 0 {
        let shorter = data.drop_last();
        assert forall|i: int| 0 <= i < shorter.len() implies (#[trigger] table[shorter[i]]).len()
            == 0 by {
            assert(shorter[i] == data[i]);
        }
        lemma_empty_codes_stream(table, shorter);
        assert(table[data[data.len() - 1]].len() == 0);
    }
}

/// A buffer that holds one byte value, however often, can always be
/// encoded: its tree is the leaf of that value, whose code is empty; the
/// encoder makes the single bit 1 of it, the table has one entry, and
/// decoding restores the buffer.
pub proof fn law_one_repeated_byte(data: Seq<u8>, symbol: u8)
    requires
        0 < data.len() <= u64::MAX,
        forall|i: int| 0 <= i < data.len() ==> data[i] == symbol,
    ensures
        huffman_queue(frequency_table(data).0, frequency_table(data).1) == seq![
            leaf_node(Some(symbol), data.len() as u64),
        ],
        code_table(data) == Map::<u8, Seq<u8>>::empty().insert(symbol, seq![1u8]),
        huffman_encode_spec(data) is Ok,
        huffman_decode_spec(huffman_encode_spec(data)->Ok_0) == Ok::<Seq<u8>, CacheError>(data),
{
    let table = frequency_table(data);
    let symbols = table.0;
    let freqs = table.1;
    lemma_frequency_table(data);
    lemma_occurrences_of_one_value(data, symbol, symbol);
    assert(symbols.contains(symbol));
    assert forall|i: int| 0 <= i < symbols.len() implies symbols[i] == symbol by {
        assert(symbols.contains(symbols[i]));
        lemma_occurrences_of_one_value(data, symbol, symbols[i]);
    }
    if symbols.len() >= 2 {
        assert(comes_before(freqs[0], symbols[0], freqs[1], symbols[1]));
    }
    assert(symbols.len() == 1);
    let count = freqs[0];
    assert(count == data.len());
    let leaf = leaf_node(Some(symbol), count);
    let none = Seq::<MinHeapNode>::empty();
    assert(symbols.drop_last().len() == 0);
    assert(leaf_queue(symbols.drop_last(), freqs.drop_last()) == none);
    assert(symbols.last() == symbol && freqs.last() == count);
    assert(leaf_queue(symbols, freqs) == queue_with(none, leaf));
    assert(queue_slot(none, leaf) == 0);
    assert(none.insert(0, leaf) =~= seq![leaf]);
    assert(merged_queue(seq![leaf]) == seq![leaf]);
    assert(huffman_queue(symbols, freqs) == seq![leaf]);
    let empty = Map::<u8, Seq<u8>>::empty();
    let plain = tree_codes(data);
    assert(plain =~= empty.insert(symbol, Seq::<u8>::empty()));
    assert(plain.contains_key(symbol) && all_zero(plain[symbol]));
    assert(has_zero_code(plain));
    let zero = zero_symbol(plain);
    assert(plain.contains_key(zero));
    assert(zero == symbol);
    lemma_empty_codes_stream(plain, data);
    assert(padding_reads_as_code(plain, data));
    assert(Seq::<u8>::empty().push(1u8) =~= seq![1u8]);
    let codes = code_table(data);
    assert(codes =~= empty.insert(symbol, seq![1u8]));
    assert(codes_fit(codes));
    law_huffman_round_trip(data, huffman_encode_spec(data)->Ok_0);
}

/// A code of one bit for each byte makes a stream as long as the buffer.
proof fn lemma_one_bit_codes_stream(table: Map<u8, Seq<u8>>, data: Seq<u8>)
    requires
        forall|i: int| 0 <= i < data.len() ==> (#[trigger] table[data[i]]).len() == 1,
    ensures
        code_stream(table, data).len() == data.len(),
    decreases data.len(),
{
    if data.len() > 0 {
        let shorter = data.drop_last();
        assert forall|i: int| 0 <= i < shorter.len() implies (#[trigger] table[shorter[i]]).len()
            == 1 by {
            assert(shorter[i] == data[i]);
        }
        lemma_one_bit_codes_stream(table, shorter);
        assert(table[data[data.len() - 1]].len() == 1);
    }
}

/// In the tree of a buffer of two byte values each value has a code of one
/// bit: the rarer one, or of two equally frequent ones the lower, goes left
/// and has the code 0, the other has the code 1. The codes of the buffer
/// then have as many bits as the buffer has bytes.
pub proof fn law_two_byte_values(data: Seq<u8>, rare: u8, common: u8)
    requires
        data.len() <= u64::MAX,
        rare != common,
        forall|i: int| 0 <= i < data.len() ==> data[i] == rare || data[i] == common,
        occurrences(data, rare) > 0,
        occurrences(data, rare) < occurrences(data, common) || (occurrences(data, rare)
            == occurrences(data, common) && rare < common),
    ensures
        tree_codes(data) == Map::<u8, Seq<u8>>::empty().insert(rare, seq![0u8]).insert(
            common,
            seq![1u8],
        ),
        code_stream(tree_codes(data), data).len() == data.len(),
{
    let table = frequency_table(data);
    let symbols = table.0;
    let freqs = table.1;
    lemma_frequency_table(data);
    lemma_occurrences_bound(data, rare);
    lemma_occurrences_bound(data, common);
    assert(symbols.contains(rare));
    assert(symbols.contains(common));
    assert forall|i: int| 0 <= i < symbols.len() implies symbols[i] == rare || symbols[i]
        == common by {
        assert(symbols.contains(symbols[i]));
        lemma_occurrences_contains(data, symbols[i]);
        let k = choose|k: int| 0 <= k < data.len() && data[k] == symbols[i];
        assert(data[k] == rare || data[k] == common);
    }
    assert forall|i: int, j: int| 0 <= i < j < symbols.len() implies symbols[i] != symbols[j] by {
        assert(comes_before(freqs[i], symbols[i], freqs[j], symbols[j]));
    }
    if symbols.len() >= 3 {
        assert(symbols[0] != symbols[1] && symbols[0] != symbols[2] && symbols[1] != symbols[2]);
    }
    let at_rare = choose|i: int| 0 <= i < symbols.len() && symbols[i] == rare;
    let at_common = choose|i: int| 0 <= i < symbols.len() && symbols[i] == common;
    assert(symbols.len() == 2);
    let low = leaf_node(Some(rare), occurrences(data, rare) as u64);
    let high = leaf_node(Some(common), occurrences(data, common) as u64);
    let none = Seq::<MinHeapNode>::empty();
    let first = leaf_node(Some(symbols[0]), freqs[0]);
    let second = leaf_node(Some(symbols[1]), freqs[1]);
    assert(comes_before(freqs[0], symbols[0], freqs[1], symbols[1]));
    assert(low.precedes(high));
    assert(!high.precedes(low));
    let one = symbols.drop_last();
    let one_freq = freqs.drop_last();
    assert(one.len() == 1 && one_freq.len() == 1);
    assert(one.last() == symbols[0] && one_freq.last() == freqs[0]);
    assert(one.drop_last().len() == 0);
    assert(leaf_queue(one.drop_last(), one_freq.drop_last()) == none);
    assert(queue_slot(none, first) == 0);
    assert(none.insert(0, first) =~= seq![first]);
    assert(leaf_queue(one, one_freq) == seq![first]);
    assert(symbols.last() == symbols[1] && freqs.last() == freqs[1]);
    assert(leaf_queue(symbols, freqs) == queue_with(seq![first], second));
    assert(seq![first].last() == first);
    assert(seq![first].drop_last() =~= none);
    let leaves = leaf_queue(symbols, freqs);
    if symbols[0] == rare {
        assert(first == low && second == high);
        assert(queue_slot(seq![first], second) == 1);
        assert(seq![first].insert(1, second) =~= seq![low, high]);
    } else {
        assert(first == high && second == low);
        assert(queue_slot(none, second) == 0);
        assert(queue_slot(seq![first], second) == 0);
        assert(seq![first].insert(0, second) =~= seq![low, high]);
    }
    assert(leaves == seq![low, high]);
    let root = merged_node(low, high);
    assert(leaves.skip(2) =~= none);
    assert(queue_slot(none, root) == 0);
    assert(none.insert(0, root) =~= seq![root]);
    assert(merged_queue(leaves) == merged_queue(seq![root])) by {
        reveal_with_fuel(merged_queue, 2);
    }
    assert(merged_queue(seq![root]) == seq![root]);
    assert(huffman_queue(symbols, freqs) == seq![root]);
    let empty = Map::<u8, Seq<u8>>::empty();
    let expected = empty.insert(rare, seq![0u8]).insert(common, seq![1u8]);
    assert(root.codes_under(Seq::empty(), empty) =~= expected) by {
        reveal_with_fuel(MinHeapNode::codes_under, 3);
        assert(Seq::<u8>::empty().push(0u8) =~= seq![0u8]);
        assert(Seq::<u8>::empty().push(1u8) =~= seq![1u8]);
    }
    assert(tree_codes(data) == expected);
    lemma_one_bit_codes_stream(expected, data);
}

/// An empty buffer is encoded as two zero bytes, and two zero bytes are
/// decoded as an empty buffer.
pub proof fn law_empty_buffer()
    ensures
        huffman_encode_spec(Seq::<u8>::empty()) == Ok::<Seq<u8>, CacheError>(seq![0u8, 0u8]),
        huffman_decode_spec(seq![0u8, 0u8]) == Ok::<Seq<u8>, CacheError>(Seq::<u8>::empty()),
{
    crate::huffman::lemma_empty_buffer(Seq::<u8>::empty());
    law_huffman_round_trip(Seq::<u8>::empty(), seq![0u8, 0u8]);
}

/// Encoding is a function of the buffer's bytes alone: two buffers with the
/// same bytes are encoded alike.
pub proof fn law_huffman_deterministic(first: Seq<u8>, second: Seq<u8>)
    requires
        first == second,
    ensures
        huffman_encode_spec(first) == huffman_encode_spec(second),
{
}

} // verus!
