//! How often each byte value occurs in a buffer, and the table of the values
//! that occur, ordered from the most frequent to the least.

use vstd::prelude::*;

verus! {

/// How many times `symbol` occurs in `data`.
pub open spec fn occurrences(data: Seq<u8>, symbol: u8) -> nat
    decreases data.len(),
{
    if data.len() == 0 {
        0
    } else {
        occurrences(data.drop_last(), symbol) + if data.last() == symbol {
            1nat
        } else {
            0nat
        }
    }
}

/// The sum of a sequence of frequencies.
pub open spec fn total(freqs: Seq<u64>) -> nat
    decreases freqs.len(),
{
    if freqs.len() == 0 {
        0
    } else {
        total(freqs.drop_last()) + freqs.last() as nat
    }
}

/// The order of the table: the higher frequency first, and of two equal
/// frequencies the lower byte value.
pub open spec fn comes_before(f1: u64, s1: u8, f2: u64, s2: u8) -> bool {
    f1 > f2 || (f1 == f2 && s1 < s2)
}

/// `symbols` and `freqs` are the frequency table of `data`: the byte values
/// that occur in it, each once, with the number of times each occurs, in the
/// table's order.
pub open spec fn is_frequency_table(data: Seq<u8>, symbols: Seq<u8>, freqs: Seq<u64>) -> bool {
    &&& symbols.len() == freqs.len()
    &&& forall|s: u8| symbols.contains(s) <==> occurrences(data, s) > 0
    &&& forall|i: int| 0 <= i < symbols.len() ==> #[trigger] freqs[i] == occurrences(data, symbols[i])
    &&& forall|i: int, j: int|
        0 <= i < j < symbols.len() ==> comes_before(
            #[trigger] freqs[i],
            symbols[i],
            #[trigger] freqs[j],
            symbols[j],
        )
}

/// Where a frequency goes among frequencies ordered from high to low: behind
/// the last one that is not lower.
pub open spec fn slot_for(freqs: Seq<u64>, f: u64) -> int
    decreases freqs.len(),
{
    if freqs.len() == 0 {
        0
    } else if freqs.last() >= f {
        freqs.len() as int
    } else {
        slot_for(freqs.drop_last(), f)
    }
}

/// The frequency table of `data` restricted to the byte values below `upto`.
pub open spec fn frequency_table_below(data: Seq<u8>, upto: int) -> (Seq<u8>, Seq<u64>)
    decreases upto,
{
    if upto <= 0 {
        (Seq::empty(), Seq::empty())
    } else {
        let lower = frequency_table_below(data, upto - 1);
        let symbol = (upto - 1) as u8;
        let f = occurrences(data, symbol) as u64;
        if f == 0 {
            lower
        } else {
            let at = slot_for(lower.1, f);
            (lower.0.insert(at, symbol), lower.1.insert(at, f))
        }
    }
}

/// The frequency table of `data`: its distinct byte values, most frequent
/// first and of equally frequent ones the lower value first, and beside each
/// the number of times it occurs.
pub open spec fn frequency_table(data: Seq<u8>) -> (Seq<u8>, Seq<u64>) {
    frequency_table_below(data, 256)
}

/// How many elements of `data` are below `upto`.
pub open spec fn occurrences_below(data: Seq<u8>, upto: int) -> nat
    decreases upto,
{
    if upto <= 0 {
        0
    } else {
        occurrences_below(data, upto - 1) + occurrences(data, (upto - 1) as u8)
    }
}

/// A value cannot occur more often than the buffer is long.
pub proof fn lemma_occurrences_bound(data: Seq<u8>, symbol: u8)
    ensures
        occurrences(data, symbol) <= data.len(),
    decreases data.len(),
{
    if data.len() > 0 {
        lemma_occurrences_bound(data.drop_last(), symbol);
    }
}

/// A value occurs in `data` exactly when its number of occurrences is not 0.
pub proof fn lemma_occurrences_contains(data: Seq<u8>, symbol: u8)
    ensures
        data.contains(symbol) <==> occurrences(data, symbol) > 0,
    decreases data.len(),
{
    if data.len() > 0 {
        let shorter = data.drop_last();
        lemma_occurrences_contains(shorter, symbol);
        if shorter.contains(symbol) {
            let i = choose|i: int| 0 <= i < shorter.len() && shorter[i] == symbol;
            assert(data[i] == symbol);
        }
        if data.last() == symbol {
            assert(data[data.len() - 1] == symbol);
        }
        if data.contains(symbol) {
            let i = choose|i: int| 0 <= i < data.len() && data[i] == symbol;
            if i < data.len() - 1 {
                assert(shorter[i] == symbol);
            }
        }
    }
}

proof fn lemma_occurrences_below_push(data: Seq<u8>, x: u8, upto: int)
    requires
        0 <= upto <= 256,
    ensures
        occurrences_below(data.push(x), upto) == occurrences_below(data, upto) + if x < upto {
            1nat
        } else {
            0nat
        },
    decreases upto,
{
    if upto > 0 {
        lemma_occurrences_below_push(data, x, upto - 1);
        assert(data.push(x).drop_last() =~= data);
    }
}

/// Counted value by value, the occurrences add up to the buffer's length.
pub proof fn lemma_occurrences_below_all(data: Seq<u8>)
    ensures
        occurrences_below(data, 256) == data.len(),
    decreases data.len(),
{
    if data.len() == 0 {
        lemma_occurrences_below_empty(data, 256);
    } else {
        let shorter = data.drop_last();
        lemma_occurrences_below_all(shorter);
        lemma_occurrences_below_push(shorter, data.last(), 256);
        assert(shorter.push(data.last()) =~= data);
    }
}

proof fn lemma_occurrences_below_empty(data: Seq<u8>, upto: int)
    requires
        data.len() == 0,
    ensures
        occurrences_below(data, upto) == 0,
    decreases upto,
{
    if upto > 0 {
        lemma_occurrences_below_empty(data, upto - 1);
    }
}

/// The slot is inside the sequence or at its end; what stands from it on is
/// lower, and what stands just before it is not.
pub proof fn lemma_slot_for(freqs: Seq<u64>, f: u64)
    ensures
        0 <= slot_for(freqs, f) <= freqs.len(),
        forall|j: int| slot_for(freqs, f) <= j < freqs.len() ==> #[trigger] freqs[j] < f,
        slot_for(freqs, f) > 0 ==> freqs[slot_for(freqs, f) - 1] >= f,
    decreases freqs.len(),
{
    if freqs.len() > 0 && freqs.last() < f {
        let shorter = freqs.drop_last();
        lemma_slot_for(shorter, f);
        assert forall|j: int| slot_for(freqs, f) <= j < freqs.len() implies #[trigger] freqs[j]
            < f by {
            if j < shorter.len() {
                assert(shorter[j] < f);
            }
        }
        if slot_for(freqs, f) > 0 {
            assert(shorter[slot_for(freqs, f) - 1] >= f);
        }
    }
}

/// Inserting a frequency adds it to the sum.
pub proof fn lemma_total_insert(freqs: Seq<u64>, at: int, f: u64)
    requires
        0 <= at <= freqs.len(),
    ensures
        total(freqs.insert(at, f)) == total(freqs) + f,
    decreases freqs.len(),
{
    let grown = freqs.insert(at, f);
    if at == freqs.len() {
        assert(grown.drop_last() =~= freqs);
    } else {
        let shorter = freqs.drop_last();
        lemma_total_insert(shorter, at, f);
        assert(grown.drop_last() =~= shorter.insert(at, f));
        assert(grown.last() == freqs.last());
    }
}

/// What holds of the table restricted to the values below `upto`.
pub open spec fn is_frequency_table_below(
    data: Seq<u8>,
    upto: int,
    symbols: Seq<u8>,
    freqs: Seq<u64>,
) -> bool {
    &&& symbols.len() == freqs.len()
    &&& forall|s: u8| symbols.contains(s) <==> (s < upto && occurrences(data, s) > 0)
    &&& forall|i: int| 0 <= i < symbols.len() ==> #[trigger] freqs[i] == occurrences(data, symbols[i])
    &&& forall|i: int, j: int|
        0 <= i < j < symbols.len() ==> comes_before(
            #[trigger] freqs[i],
            symbols[i],
            #[trigger] freqs[j],
            symbols[j],
        )
    &&& total(freqs) == occurrences_below(data, upto)
}

/// The restricted table is what its name says, as long as the buffer's
/// length fits a frequency.
pub proof fn lemma_frequency_table_below(data: Seq<u8>, upto: int)
    requires
        data.len() <= u64::MAX,
        0 <= upto <= 256,
    ensures
        is_frequency_table_below(
            data,
            upto,
            frequency_table_below(data, upto).0,
            frequency_table_below(data, upto).1,
        ),
    decreases upto,
{
    let table = frequency_table_below(data, upto);
    if upto == 0 {
        assert forall|s: u8| table.0.contains(s) <==> (s < upto && occurrences(data, s) > 0) by {}
    } else {
        let lower = frequency_table_below(data, upto - 1);
        let symbol = (upto - 1) as u8;
        lemma_frequency_table_below(data, upto - 1);
        lemma_occurrences_bound(data, symbol);
        let f = occurrences(data, symbol) as u64;
        if f == 0 {
            assert forall|s: u8| table.0.contains(s) <==> (s < upto && occurrences(data, s)
                > 0) by {}
        } else {
            let at = slot_for(lower.1, f);
            lemma_slot_for(lower.1, f);
            lemma_total_insert(lower.1, at, f);
            let symbols = table.0;
            let freqs = table.1;
            assert(symbols == lower.0.insert(at, symbol));
            assert(freqs == lower.1.insert(at, f));
            assert forall|s: u8| symbols.contains(s) <==> (s < upto && occurrences(data, s)
                > 0) by {
                if symbols.contains(s) {
                    let i = choose|i: int| 0 <= i < symbols.len() && symbols[i] == s;
                    if i < at {
                        assert(lower.0[i] == s);
                        assert(lower.0.contains(s));
                    } else if i > at {
                        assert(lower.0[i - 1] == s);
                        assert(lower.0.contains(s));
                    } else {
                        assert(s == symbol);
                    }
                }
                if s < upto && occurrences(data, s) > 0 {
                    if s == symbol {
                        assert(symbols[at] == s);
                        assert(symbols.contains(s));
                    } else {
                        assert(lower.0.contains(s));
                        let i = choose|i: int| 0 <= i < lower.0.len() && lower.0[i] == s;
                        if i < at {
                            assert(symbols[i] == s);
                        } else {
                            assert(symbols[i + 1] == s);
                        }
                        assert(symbols.contains(s));
                    }
                }
            }
            assert forall|i: int| 0 <= i < symbols.len() implies #[trigger] freqs[i]
                == occurrences(data, symbols[i]) by {
                if i < at {
                    assert(freqs[i] == lower.1[i]);
                } else if i > at {
                    assert(freqs[i] == lower.1[i - 1]);
                }
            }
            assert forall|i: int, j: int| 0 <= i < j < symbols.len() implies comes_before(
                #[trigger] freqs[i],
                symbols[i],
                #[trigger] freqs[j],
                symbols[j],
            ) by {
                let li = if i < at { i } else { i - 1 };
                let lj = if j < at { j } else { j - 1 };
                if i != at && j != at {
                    assert(comes_before(lower.1[li], lower.0[li], lower.1[lj], lower.0[lj]));
                } else if j == at {
                    // what stands before the slot is not lower, and is a lower byte value
                    assert(lower.0.contains(lower.0[li]));
                    if at - 1 > li {
                        assert(comes_before(
                            lower.1[li],
                            lower.0[li],
                            lower.1[at - 1],
                            lower.0[at - 1],
                        ));
                    }
                    assert(lower.1[li] >= f);
                } else {
                    assert(lower.1[lj] < f);
                }
            }
        }
    }
}

/// The frequency table is what its name says, and its frequencies add up to
/// the buffer's length.
pub proof fn lemma_frequency_table(data: Seq<u8>)
    requires
        data.len() <= u64::MAX,
    ensures
        is_frequency_table(data, frequency_table(data).0, frequency_table(data).1),
        total(frequency_table(data).1) == data.len(),
{
    lemma_frequency_table_below(data, 256);
    lemma_occurrences_below_all(data);
}

} // verus!
