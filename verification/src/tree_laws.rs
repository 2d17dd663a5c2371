//! What holds of the code tree and of the code table taken from it: the
//! leaves of the tree are the pairs of the frequency table, every byte value
//! of the buffer has a code, no code is the start of another, and the zero
//! bits that pad the packed stream cannot be read as a code.

use crate::bits::{all_zero, is_bits, is_prefix_of, padding_len};
use crate::frequency::{frequency_table, lemma_frequency_table, lemma_occurrences_contains, total};
use crate::huffman::{
    code_stream, code_table, has_zero_code, huffman_queue, leaf_node, leaf_queue,
    lemma_queue_slot, lemma_queue_total_insert, lemma_queue_total_skip, mended, merged_node,
    merged_queue, padding_reads_as_code, queue_bag, queue_slot, queue_total, queue_with,
    table_bag, tree_codes, zero_symbol, MinHeapNode,
};
use vstd::multiset::Multiset;
use vstd::prelude::*;

verus! {

/// The codes of the table are bit sequences, and none is the start of
/// another.
pub open spec fn is_prefix_code(table: Map<u8, Seq<u8>>) -> bool {
    &&& forall|s: u8| table.contains_key(s) ==> is_bits(#[trigger] table[s])
    &&& forall|s: u8, t: u8|
        table.contains_key(s) && table.contains_key(t) && is_prefix_of(
            #[trigger] table[s],
            #[trigger] table[t],
        ) ==> s == t
}

/// As many as `padding` zero bits cannot be read as a code of the table: a
/// code that consists of zero bits only, as the empty code does, has more
/// bits than that.
pub open spec fn pad_safe(table: Map<u8, Seq<u8>>, padding: nat) -> bool {
    forall|s: u8|
        table.contains_key(s) && all_zero(#[trigger] table[s]) ==> table[s].len() > padding
}

/// Every node of the queue is a node of a code tree.
pub open spec fn queue_well_formed(queue: Seq<MinHeapNode>) -> bool {
    forall|i: int| 0 <= i < queue.len() ==> (#[trigger] queue[i]).well_formed()
}

/// Some node of the queue has the leaf of `symbol` below it.
pub open spec fn queue_has_symbol(queue: Seq<MinHeapNode>, symbol: u8) -> bool {
    exists|i: int| 0 <= i < queue.len() && (#[trigger] queue[i]).has_symbol(symbol)
}

/// A path that ends at the leaf of a byte value consists of bits.
pub proof fn lemma_path_is_bits(node: MinHeapNode, path: Seq<u8>)
    requires
        node.symbol_at(path) is Some,
    ensures
        is_bits(path),
    decreases path.len(),
{
    if path.len() > 0 {
        let rest = path.skip(1);
        if path[0] == 0 {
            lemma_path_is_bits(*node.left->0, rest);
        } else {
            lemma_path_is_bits(*node.right->0, rest);
        }
        assert forall|i: int| 0 <= i < path.len() implies #[trigger] path[i] <= 1 by {
            if i > 0 {
                assert(rest[i - 1] == path[i]);
            }
        }
    }
}

/// Of two paths that end at leaves of byte values, one is the start of the
/// other only where they are the same path.
pub proof fn lemma_paths_prefix_free(node: MinHeapNode, p: Seq<u8>, q: Seq<u8>)
    requires
        node.symbol_at(p) is Some,
        node.symbol_at(q) is Some,
        is_prefix_of(p, q),
    ensures
        p == q,
    decreases p.len(),
{
    if p.len() == 0 {
        assert(p =~= q);
    } else {
        assert(q.subrange(0, p.len() as int)[0] == p[0]);
        let child = if p[0] == 0 {
            *node.left->0
        } else {
            *node.right->0
        };
        assert(q.skip(1).subrange(0, p.len() - 1) =~= q.subrange(0, p.len() as int).skip(1));
        lemma_paths_prefix_free(child, p.skip(1), q.skip(1));
        assert(p =~= seq![p[0]] + p.skip(1));
        assert(q =~= seq![q[0]] + q.skip(1));
    }
}

/// What a walk over a node adds to a table: a code for each byte value that
/// has a leaf below the node, which is the given prefix and then the path to
/// that leaf.
pub proof fn lemma_codes_under(node: MinHeapNode, prefix: Seq<u8>, table: Map<u8, Seq<u8>>)
    requires
        node.well_formed(),
    ensures
        forall|s: u8| #[trigger]
            node.codes_under(prefix, table).contains_key(s) <==> (table.contains_key(s)
                || node.has_symbol(s)),
        forall|s: u8| #[trigger]
            node.codes_under(prefix, table).contains_key(s) ==> {
                let code = node.codes_under(prefix, table)[s];
                ||| (table.contains_key(s) && code == table[s])
                ||| (is_prefix_of(prefix, code) && node.symbol_at(code.skip(prefix.len() as int))
                    == Some(s))
            },
    decreases node,
{
    let result = node.codes_under(prefix, table);
    if node.left is None {
        assert(prefix.skip(prefix.len() as int) =~= Seq::<u8>::empty());
        assert(prefix.subrange(0, prefix.len() as int) =~= prefix);
    } else {
        let left = *node.left->0;
        let right = *node.right->0;
        let left_prefix = prefix.push(0);
        let right_prefix = prefix.push(1);
        let with_left = left.codes_under(left_prefix, table);
        lemma_codes_under(left, left_prefix, table);
        lemma_codes_under(right, right_prefix, with_left);
        assert(result == right.codes_under(right_prefix, with_left));
        assert forall|s: u8| #[trigger] result.contains_key(s) implies {
            let code = result[s];
            ||| (table.contains_key(s) && code == table[s])
            ||| (is_prefix_of(prefix, code) && node.symbol_at(code.skip(prefix.len() as int))
                == Some(s))
        } by {
            let code = result[s];
            if with_left.contains_key(s) && code == with_left[s] {
                if !(table.contains_key(s) && code == table[s]) {
                    lemma_step_down(node, left, prefix, 0, code, s);
                }
            } else {
                lemma_step_down(node, right, prefix, 1, code, s);
            }
        }
    }
}

/// A path below a child, behind the bit that leads to the child, is a path
/// below the node.
proof fn lemma_step_down(
    node: MinHeapNode,
    child: MinHeapNode,
    prefix: Seq<u8>,
    bit: u8,
    code: Seq<u8>,
    symbol: u8,
)
    requires
        bit == 0 ==> node.left == Some(Box::new(child)),
        bit == 1 ==> node.right == Some(Box::new(child)),
        bit <= 1,
        is_prefix_of(prefix.push(bit), code),
        child.symbol_at(code.skip(prefix.len() as int + 1)) == Some(symbol),
    ensures
        is_prefix_of(prefix, code),
        node.symbol_at(code.skip(prefix.len() as int)) == Some(symbol),
{
    let longer = prefix.push(bit);
    let tail = code.skip(prefix.len() as int);
    assert(code.subrange(0, longer.len() as int)[prefix.len() as int] == bit);
    assert(code.subrange(0, prefix.len() as int) =~= code.subrange(0, longer.len() as int).subrange(
        0,
        prefix.len() as int,
    ));
    assert(longer.subrange(0, prefix.len() as int) =~= prefix);
    assert(tail[0] == bit);
    assert(tail.skip(1) =~= code.skip(prefix.len() as int + 1));
}

/// What is in a queue stays in it when a node is put in.
pub proof fn lemma_queue_with(queue: Seq<MinHeapNode>, node: MinHeapNode)
    requires
        queue_well_formed(queue),
        node.well_formed(),
    ensures
        queue_well_formed(queue_with(queue, node)),
        forall|s: u8|
            queue_has_symbol(queue, s) || node.has_symbol(s) ==> queue_has_symbol(
                queue_with(queue, node),
                s,
            ),
{
    let at = queue_slot(queue, node);
    let grown = queue_with(queue, node);
    lemma_queue_slot(queue, node);
    assert forall|i: int| 0 <= i < grown.len() implies (#[trigger] grown[i]).well_formed() by {
        if i < at {
            assert(grown[i] == queue[i]);
        } else if i > at {
            assert(grown[i] == queue[i - 1]);
        }
    }
    assert forall|s: u8| queue_has_symbol(queue, s) || node.has_symbol(s) implies queue_has_symbol(
        grown,
        s,
    ) by {
        if node.has_symbol(s) {
            assert(grown[at].has_symbol(s));
        } else {
            let i = choose|i: int| 0 <= i < queue.len() && (#[trigger] queue[i]).has_symbol(s);
            if i < at {
                assert(grown[i].has_symbol(s));
            } else {
                assert(grown[i + 1] == queue[i]);
                assert(grown[i + 1].has_symbol(s));
            }
        }
    }
}

/// Putting a node into a queue adds its leaves to those of the queue.
pub proof fn lemma_queue_bag_insert(queue: Seq<MinHeapNode>, at: int, node: MinHeapNode)
    requires
        0 <= at <= queue.len(),
    ensures
        queue_bag(queue.insert(at, node)) == queue_bag(queue).add(node.leaf_bag()),
    decreases queue.len(),
{
    let grown = queue.insert(at, node);
    if at == queue.len() {
        assert(grown.drop_last() =~= queue);
    } else {
        let shorter = queue.drop_last();
        lemma_queue_bag_insert(shorter, at, node);
        assert(grown.drop_last() =~= shorter.insert(at, node));
        assert(grown.last() == queue.last());
        assert(queue_bag(shorter).add(node.leaf_bag()).add(queue.last().leaf_bag()) =~= queue_bag(
            shorter,
        ).add(queue.last().leaf_bag()).add(node.leaf_bag()));
    }
}

/// The leaves of a queue are those of its first node and those of the rest.
pub proof fn lemma_queue_bag_skip(queue: Seq<MinHeapNode>)
    requires
        queue.len() > 0,
    ensures
        queue_bag(queue) == queue[0].leaf_bag().add(queue_bag(queue.skip(1))),
    decreases queue.len(),
{
    if queue.len() == 1 {
        assert(queue.skip(1) =~= Seq::<MinHeapNode>::empty());
        assert(queue.drop_last() =~= Seq::<MinHeapNode>::empty());
        assert(queue_bag(queue) =~= queue[0].leaf_bag().add(queue_bag(queue.skip(1))));
    } else {
        let shorter = queue.drop_last();
        lemma_queue_bag_skip(shorter);
        assert(queue.skip(1).drop_last() =~= shorter.skip(1));
        assert(queue.skip(1).last() == queue.last());
        assert(queue_bag(queue) =~= queue[0].leaf_bag().add(queue_bag(queue.skip(1))));
    }
}

/// The queue of the leaves holds the leaf of each pair of the table, each
/// once, and nothing else.
pub proof fn lemma_leaf_queue(symbols: Seq<u8>, freqs: Seq<u64>)
    requires
        symbols.len() == freqs.len(),
    ensures
        leaf_queue(symbols, freqs).len() == symbols.len(),
        queue_well_formed(leaf_queue(symbols, freqs)),
        queue_bag(leaf_queue(symbols, freqs)) == table_bag(symbols, freqs),
        queue_total(leaf_queue(symbols, freqs)) == total(freqs),
        forall|i: int|
            0 <= i < symbols.len() ==> queue_has_symbol(
                leaf_queue(symbols, freqs),
                #[trigger] symbols[i],
            ),
    decreases symbols.len(),
{
    let queue = leaf_queue(symbols, freqs);
    if symbols.len() > 0 {
        let shorter = leaf_queue(symbols.drop_last(), freqs.drop_last());
        let node = leaf_node(Some(symbols.last()), freqs.last());
        lemma_leaf_queue(symbols.drop_last(), freqs.drop_last());
        lemma_queue_with(shorter, node);
        lemma_queue_slot(shorter, node);
        lemma_queue_bag_insert(shorter, queue_slot(shorter, node), node);
        lemma_queue_total_insert(shorter, queue_slot(shorter, node), node);
        assert(node.has_symbol(symbols.last()));
        assert(queue_bag(queue) =~= table_bag(symbols, freqs));
        assert forall|i: int| 0 <= i < symbols.len() implies queue_has_symbol(
            queue,
            #[trigger] symbols[i],
        ) by {
            if i < symbols.len() - 1 {
                assert(symbols.drop_last()[i] == symbols[i]);
            }
        }
    }
}

/// Merging leaves one node. Its leaves are those that the queue had, each
/// as often as it was there, and its frequency is the sum of theirs.
pub proof fn lemma_merged_queue(queue: Seq<MinHeapNode>)
    requires
        queue.len() >= 1,
        queue_well_formed(queue),
        queue_total(queue) <= u64::MAX,
    ensures
        merged_queue(queue).len() == 1,
        merged_queue(queue)[0].well_formed(),
        merged_queue(queue)[0].leaf_bag() == queue_bag(queue),
        merged_queue(queue)[0].freq == queue_total(queue),
        queue.len() == 1 ==> merged_queue(queue) == queue,
        forall|s: u8| queue_has_symbol(queue, s) ==> merged_queue(queue)[0].has_symbol(s),
    decreases queue.len(),
{
    if queue.len() >= 2 {
        let node = merged_node(queue[0], queue[1]);
        let rest = queue.skip(2);
        let next = queue_with(rest, node);
        lemma_queue_total_skip(queue);
        lemma_queue_total_skip(queue.skip(1));
        lemma_queue_bag_skip(queue);
        lemma_queue_bag_skip(queue.skip(1));
        assert(queue.skip(1).skip(1) =~= rest);
        assert(queue.skip(1)[0] == queue[1]);
        assert(queue[0].well_formed());
        assert(queue[1].well_formed());
        assert(node.freq == queue[0].freq + queue[1].freq);
        assert(node.well_formed());
        assert(queue_well_formed(rest)) by {
            assert forall|i: int| 0 <= i < rest.len() implies (#[trigger] rest[i]).well_formed() by {
                assert(rest[i] == queue[i + 2]);
            }
        }
        lemma_queue_with(rest, node);
        lemma_queue_slot(rest, node);
        lemma_queue_total_insert(rest, queue_slot(rest, node), node);
        lemma_queue_bag_insert(rest, queue_slot(rest, node), node);
        assert(queue_bag(next) =~= queue_bag(queue));
        lemma_merged_queue(next);
        assert forall|s: u8| queue_has_symbol(queue, s) implies merged_queue(queue)[0].has_symbol(
            s,
        ) by {
            let i = choose|i: int| 0 <= i < queue.len() && (#[trigger] queue[i]).has_symbol(s);
            if i >= 2 {
                assert(rest[i - 2] == queue[i]);
                assert(rest[i - 2].has_symbol(s));
                assert(queue_has_symbol(rest, s));
            } else {
                assert(i == 0 || i == 1);
                assert(node.left->0.has_symbol(s) || node.right->0.has_symbol(s));
                assert(node.has_symbol(s));
            }
            assert(queue_has_symbol(next, s));
        }
    } else {
        assert(queue.drop_last() =~= Seq::<MinHeapNode>::empty());
        assert(queue.last() == queue[0]);
        assert(queue_bag(queue.drop_last()) =~= Multiset::<(u8, u64)>::empty());
        assert(queue_total(queue.drop_last()) == 0);
        assert(queue_bag(queue) =~= queue[0].leaf_bag());
        assert(queue_total(queue) == queue[0].freq);
    }
}

/// The queue is in order: no node stands behind one that it precedes. The
/// first node is then one of lowest frequency, and among those of lowest
/// rank; the second is so among the rest.
pub open spec fn queue_sorted(queue: Seq<MinHeapNode>) -> bool {
    forall|i: int, j: int|
        0 <= i <= j < queue.len() ==> !(#[trigger] queue[j]).precedes(#[trigger] queue[i])
}

/// What stands before the slot of a node precedes it or equals it in
/// frequency and rank, and what stands from the slot on does not precede
/// it.
proof fn lemma_queue_slot_splits(queue: Seq<MinHeapNode>, node: MinHeapNode)
    requires
        queue_sorted(queue),
    ensures
        forall|k: int|
            0 <= k < queue_slot(queue, node) ==> !node.precedes(#[trigger] queue[k]),
        forall|k: int|
            queue_slot(queue, node) <= k < queue.len() ==> !(#[trigger] queue[k]).precedes(node),
    decreases queue.len(),
{
    lemma_queue_slot(queue, node);
    if queue.len() > 0 {
        let last = queue[queue.len() - 1];
        if last.precedes(node) {
            assert forall|k: int| 0 <= k < queue.len() implies !node.precedes(
                #[trigger] queue[k],
            ) by {
                assert(!last.precedes(queue[k]));
            }
        } else {
            let shorter = queue.drop_last();
            assert(queue_sorted(shorter)) by {
                assert forall|i: int, j: int| 0 <= i <= j < shorter.len() implies !(
                #[trigger] shorter[j]).precedes(#[trigger] shorter[i]) by {
                    assert(shorter[i] == queue[i] && shorter[j] == queue[j]);
                }
            }
            lemma_queue_slot_splits(shorter, node);
            lemma_queue_slot(shorter, node);
            assert forall|k: int| 0 <= k < queue_slot(queue, node) implies !node.precedes(
                #[trigger] queue[k],
            ) by {
                assert(shorter[k] == queue[k]);
            }
            assert forall|k: int| queue_slot(queue, node) <= k < queue.len() implies !(
            #[trigger] queue[k]).precedes(node) by {
                if k < shorter.len() {
                    assert(shorter[k] == queue[k]);
                }
            }
        }
    }
}

/// A queue that is in order stays in order when a node is put in.
pub proof fn lemma_queue_with_sorted(queue: Seq<MinHeapNode>, node: MinHeapNode)
    requires
        queue_sorted(queue),
    ensures
        queue_sorted(queue_with(queue, node)),
{
    let at = queue_slot(queue, node);
    let grown = queue_with(queue, node);
    lemma_queue_slot(queue, node);
    lemma_queue_slot_splits(queue, node);
    assert forall|i: int, j: int| 0 <= i <= j < grown.len() implies !(#[trigger] grown[j]).precedes(
        #[trigger] grown[i],
    ) by {
        let was_i = if i < at {
            i
        } else {
            i - 1
        };
        let was_j = if j < at {
            j
        } else {
            j - 1
        };
        if i != at {
            assert(grown[i] == queue[was_i]);
        }
        if j != at {
            assert(grown[j] == queue[was_j]);
        }
        if i != at && j != at {
            assert(!queue[was_j].precedes(queue[was_i]));
        }
    }
}

/// The queue of the leaves is in order.
pub proof fn law_leaf_queue_sorted(symbols: Seq<u8>, freqs: Seq<u64>)
    ensures
        queue_sorted(leaf_queue(symbols, freqs)),
    decreases symbols.len(),
{
    if symbols.len() == 0 || freqs.len() == 0 {
    } else {
        law_leaf_queue_sorted(symbols.drop_last(), freqs.drop_last());
        lemma_queue_with_sorted(
            leaf_queue(symbols.drop_last(), freqs.drop_last()),
            leaf_node(Some(symbols.last()), freqs.last()),
        );
    }
}

/// Merging takes the two nodes that come first in the order, which are the
/// two of lowest frequency, and leaves the queue in order.
pub proof fn law_merge_keeps_sorted(queue: Seq<MinHeapNode>)
    requires
        queue_sorted(queue),
        queue.len() >= 2,
    ensures
        forall|k: int| 0 <= k < queue.len() ==> (#[trigger] queue[k]).freq >= queue[0].freq,
        forall|k: int| 1 <= k < queue.len() ==> (#[trigger] queue[k]).freq >= queue[1].freq,
        queue_sorted(queue_with(queue.skip(2), merged_node(queue[0], queue[1]))),
{
    let rest = queue.skip(2);
    assert(queue_sorted(rest)) by {
        assert forall|i: int, j: int| 0 <= i <= j < rest.len() implies !(#[trigger] rest[j]).precedes(
            #[trigger] rest[i],
        ) by {
            assert(rest[i] == queue[i + 2] && rest[j] == queue[j + 2]);
        }
    }
    lemma_queue_with_sorted(rest, merged_node(queue[0], queue[1]));
    assert forall|k: int| 0 <= k < queue.len() implies (#[trigger] queue[k]).freq
        >= queue[0].freq by {
        assert(!queue[k].precedes(queue[0]));
    }
    assert forall|k: int| 1 <= k < queue.len() implies (#[trigger] queue[k]).freq
        >= queue[1].freq by {
        assert(!queue[k].precedes(queue[1]));
    }
}

/// The table taken from a code tree holds a prefix code for the byte values
/// that have a leaf in the tree, each code the way to a leaf of its value.
pub proof fn lemma_tree_codes(root: MinHeapNode)
    requires
        root.well_formed(),
    ensures
        is_prefix_code(root.codes_under(Seq::empty(), Map::empty())),
        forall|s: u8|
            root.codes_under(Seq::empty(), Map::empty()).contains_key(s) <==> root.has_symbol(s),
        forall|s: u8| #[trigger]
            root.codes_under(Seq::empty(), Map::empty()).contains_key(s) ==> root.symbol_at(
                root.codes_under(Seq::empty(), Map::empty())[s],
            ) == Some(s),
{
    let empty = Seq::<u8>::empty();
    let table = root.codes_under(empty, Map::empty());
    lemma_codes_under(root, empty, Map::empty());
    assert forall|s: u8| #[trigger] table.contains_key(s) implies root.symbol_at(table[s]) == Some(
        s,
    ) by {
        assert(table[s].skip(0) =~= table[s]);
    }
    assert forall|s: u8| table.contains_key(s) implies is_bits(#[trigger] table[s]) by {
        lemma_path_is_bits(root, table[s]);
    }
    assert forall|s: u8, t: u8|
        table.contains_key(s) && table.contains_key(t) && is_prefix_of(
            #[trigger] table[s],
            #[trigger] table[t],
        ) implies s == t by {
        lemma_paths_prefix_free(root, table[s], table[t]);
    }
}

/// A prefix code has at most one code that consists of zero bits only.
pub proof fn lemma_zero_code_unique(table: Map<u8, Seq<u8>>, s: u8, t: u8)
    requires
        is_prefix_code(table),
        table.contains_key(s),
        table.contains_key(t),
        all_zero(table[s]),
        all_zero(table[t]),
    ensures
        s == t,
{
    let a = table[s];
    let b = table[t];
    if a.len() <= b.len() {
        assert(b.subrange(0, a.len() as int) =~= a);
    } else {
        assert(a.subrange(0, b.len() as int) =~= b);
    }
}

/// A prefix code whose code of zero bits is lengthened by a one bit is a
/// prefix code still, with the same byte values, and with no code of zero
/// bits only.
pub proof fn lemma_mended(table: Map<u8, Seq<u8>>)
    requires
        is_prefix_code(table),
        has_zero_code(table),
    ensures
        is_prefix_code(mended(table)),
        forall|s: u8| mended(table).contains_key(s) <==> table.contains_key(s),
        forall|s: u8| mended(table).contains_key(s) ==> !all_zero(#[trigger] mended(table)[s]),
{
    let z = zero_symbol(table);
    let code = table[z];
    let longer = code.push(1u8);
    let after = mended(table);
    assert(table.contains_key(z) && all_zero(code));
    assert forall|s: u8| after.contains_key(s) implies is_bits(#[trigger] after[s]) by {
        if s == z {
            assert forall|i: int| 0 <= i < longer.len() implies #[trigger] longer[i] <= 1 by {
                if i < code.len() {
                    assert(longer[i] == code[i]);
                }
            }
        }
    }
    assert forall|s: u8| after.contains_key(s) implies !all_zero(#[trigger] after[s]) by {
        if s == z {
            assert(longer[code.len() as int] == 1);
        } else if all_zero(table[s]) {
            lemma_zero_code_unique(table, s, z);
        }
    }
    assert forall|s: u8, t: u8|
        after.contains_key(s) && after.contains_key(t) && is_prefix_of(
            #[trigger] after[s],
            #[trigger] after[t],
        ) implies s == t by {
        if s == z && t != z {
            // the lengthened code starts another: so does the code it was
            let other = table[t];
            assert(other.subrange(0, code.len() as int) =~= other.subrange(
                0,
                longer.len() as int,
            ).subrange(0, code.len() as int));
            assert(longer.subrange(0, code.len() as int) =~= code);
            assert(is_prefix_of(code, other));
        } else if s != z && t == z {
            // another code starts the lengthened one: it starts the code it
            // was, or the code it was starts it
            let other = table[s];
            if other.len() <= code.len() {
                assert(code.subrange(0, other.len() as int) =~= longer.subrange(
                    0,
                    other.len() as int,
                ));
                assert(is_prefix_of(other, code));
            } else {
                assert(other =~= longer);
                assert(other.subrange(0, code.len() as int) =~= code);
                assert(is_prefix_of(code, other));
            }
        }
    }
}

/// The codes of the tree of a buffer are a prefix code, and every byte value
/// of the buffer has one.
pub proof fn lemma_tree_code_table(data: Seq<u8>)
    requires
        data.len() <= u64::MAX,
    ensures
        is_prefix_code(tree_codes(data)),
        forall|i: int| 0 <= i < data.len() ==> tree_codes(data).contains_key(#[trigger] data[i]),
{
    let table = frequency_table(data);
    lemma_frequency_table(data);
    let queue = huffman_queue(table.0, table.1);
    let leaves = leaf_queue(table.0, table.1);
    lemma_leaf_queue(table.0, table.1);
    if table.0.len() == 0 {
        assert forall|i: int| 0 <= i < data.len() implies tree_codes(data).contains_key(
            #[trigger] data[i],
        ) by {
            lemma_occurrences_contains(data, data[i]);
            assert(data.contains(data[i]));
            assert(table.0.contains(data[i]));
        }
    } else {
        lemma_merged_queue(leaves);
        let root = queue[0];
        lemma_tree_codes(root);
        assert forall|i: int| 0 <= i < data.len() implies tree_codes(data).contains_key(
            #[trigger] data[i],
        ) by {
            let s = data[i];
            lemma_occurrences_contains(data, s);
            assert(data.contains(s));
            assert(table.0.contains(s));
            let k = choose|k: int| 0 <= k < table.0.len() && table.0[k] == s;
            assert(queue_has_symbol(leaves, table.0[k]));
        }
    }
}

/// The tree of a buffer that is not empty is one node. Its leaves are the
/// pairs of the buffer's frequency table, each once; every inner node has
/// the summed frequency of its children, and the root that of the whole
/// buffer, its length.
pub proof fn law_tree_of_a_buffer(data: Seq<u8>)
    requires
        0 < data.len() <= u64::MAX,
    ensures
        huffman_queue(frequency_table(data).0, frequency_table(data).1).len() == 1,
        huffman_queue(frequency_table(data).0, frequency_table(data).1)[0].well_formed(),
        huffman_queue(frequency_table(data).0, frequency_table(data).1)[0].leaf_bag() == table_bag(
            frequency_table(data).0,
            frequency_table(data).1,
        ),
        huffman_queue(frequency_table(data).0, frequency_table(data).1)[0].freq == data.len(),
{
    let table = frequency_table(data);
    lemma_frequency_table(data);
    lemma_occurrences_contains(data, data[0]);
    assert(data.contains(data[0]));
    assert(table.0.contains(data[0]));
    lemma_leaf_queue(table.0, table.1);
    lemma_merged_queue(leaf_queue(table.0, table.1));
}

/// The code table of a buffer holds the codes of the buffer's tree. Only
/// the code of zero bits may differ, and only where the padding could be
/// read as that code: there it has a one bit more.
pub proof fn law_code_table_keeps_the_tree(data: Seq<u8>, s: u8)
    requires
        tree_codes(data).contains_key(s),
    ensures
        code_table(data).contains_key(s),
        !padding_reads_as_code(tree_codes(data), data) ==> code_table(data) == tree_codes(data),
        !all_zero(tree_codes(data)[s]) ==> code_table(data)[s] == tree_codes(data)[s],
        code_table(data)[s] == tree_codes(data)[s] || code_table(data)[s] == tree_codes(data)[s].push(
            1u8,
        ),
{
    let plain = tree_codes(data);
    if padding_reads_as_code(plain, data) && s == zero_symbol(plain) {
        assert(plain.contains_key(zero_symbol(plain)) && all_zero(plain[zero_symbol(plain)]));
    }
}

/// The code table of a buffer is a prefix code, every byte value of the
/// buffer has a code in it, and the zero bits that pad the packed codes of
/// the buffer cannot be read as one of its codes.
pub proof fn lemma_code_table(data: Seq<u8>)
    requires
        data.len() <= u64::MAX,
    ensures
        is_prefix_code(code_table(data)),
        forall|i: int| 0 <= i < data.len() ==> code_table(data).contains_key(#[trigger] data[i]),
        forall|s: u8| code_table(data).contains_key(s) <==> tree_codes(data).contains_key(s),
        pad_safe(code_table(data), padding_len(code_stream(code_table(data), data).len())),
{
    let plain = tree_codes(data);
    lemma_tree_code_table(data);
    if padding_reads_as_code(plain, data) {
        lemma_mended(plain);
    } else {
        let padding = padding_len(code_stream(plain, data).len());
        assert forall|s: u8| plain.contains_key(s) && all_zero(#[trigger] plain[s]) implies plain[s].len()
            > padding by {
            lemma_zero_code_unique(plain, s, zero_symbol(plain));
        }
    }
}

} // verus!
