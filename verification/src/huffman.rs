//! The Huffman coder that compresses the serialized records.
//!
//! A code tree is built from the byte frequencies of a buffer, with one leaf
//! for each byte value, by merging, over and over, the two nodes that a
//! priority queue holds first. The code of a byte value is the way from the
//! root to its leaf. One code of every tree consists of zero bits only, that
//! of the leftmost leaf; in the tree of a single byte value it is empty.
//! Where the zero bits that pad the last byte of the packed stream could be
//! read as that code, the encoder lengthens it by a one bit. A buffer of one
//! repeated value thereby gets a code of one bit.

use crate::bits::{
    all_zero, is_bits, lemma_unpack_bits_is_bits, lemma_unpack_code_is_bits, lemma_unpack_pack_code,
    pack_bit_stream, pack_bits, pack_code, pack_code_word, padding_len, unpack_bit_stream,
    unpack_bits, unpack_code, unpack_code_word,
};
use crate::error::CacheError;
use crate::frequency::{
    frequency_table, frequency_table_below, is_frequency_table, lemma_frequency_table,
    lemma_occurrences_bound, occurrences, slot_for, total,
};
use crate::tree_laws::{
    lemma_code_table, lemma_leaf_queue, lemma_merged_queue, lemma_tree_code_table,
    lemma_zero_code_unique, queue_has_symbol,
};
use crate::wire::{
    bytes_of, from_le_u16, le_u16, lemma_le_u16, lemma_le_u16_zero, push_bytes, push_u16, u16_at,
};
use std::collections::HashMap;
use vstd::multiset::Multiset;
use vstd::prelude::*;
use vstd::slice::slice_subrange;

verus! {

/// A node of the code tree: a leaf, which has no children, or an inner node,
/// which has two.
#[derive(Debug)]
pub struct MinHeapNode {
    /// The byte value of a leaf; `None` in an inner node.
    pub data: Option<u8>,
    /// How often the byte values below this node occur, taken together.
    pub freq: u64,
    /// The smallest byte value below this node, by which nodes of equal
    /// frequency are told apart.
    pub rank: u8,
    pub left: Option<Box<MinHeapNode>>,
    pub right: Option<Box<MinHeapNode>>,
}

/// The rank of a leaf: its byte value, and 0 for a leaf without one.
pub open spec fn leaf_rank(data: Option<u8>) -> u8 {
    match data {
        Some(symbol) => symbol,
        None => 0,
    }
}

/// The leaf of a byte value.
pub open spec fn leaf_node(data: Option<u8>, freq: u64) -> MinHeapNode {
    MinHeapNode { data, freq, rank: leaf_rank(data), left: None, right: None }
}

/// The inner node above two nodes: the first becomes the left child and the
/// second the right one, the frequencies add up, and the rank is the lower
/// of the two.
pub open spec fn merged_node(first: MinHeapNode, second: MinHeapNode) -> MinHeapNode {
    MinHeapNode {
        data: None,
        freq: (first.freq + second.freq) as u64,
        rank: if second.rank < first.rank {
            second.rank
        } else {
            first.rank
        },
        left: Some(Box::new(first)),
        right: Some(Box::new(second)),
    }
}

impl MinHeapNode {
    /// The order of the priority queue: the lower frequency first, and of two
    /// equal frequencies the lower rank.
    pub open spec fn precedes(self, other: MinHeapNode) -> bool {
        self.freq < other.freq || (self.freq == other.freq && self.rank < other.rank)
    }

    /// The node is the leaf of a byte value, or it has two children that are
    /// nodes of a code tree themselves; only a leaf holds a byte value, the
    /// frequency of an inner node is the sum of those of its children, and
    /// the rank is the smallest byte value below the node.
    pub open spec fn well_formed(self) -> bool
        decreases self,
    {
        match (self.left, self.right) {
            (None, None) => self.data is Some && self.rank == leaf_rank(self.data),
            (Some(left), Some(right)) => {
                &&& self.data is None
                &&& left.well_formed()
                &&& right.well_formed()
                &&& self.freq == left.freq + right.freq
                &&& self.rank == if right.rank < left.rank {
                    right.rank
                } else {
                    left.rank
                }
            },
            _ => false,
        }
    }

    /// The leaves below this node, or the node itself where it is a leaf,
    /// each as the pair of its byte value and its frequency, and as often as
    /// it is there.
    pub open spec fn leaf_bag(self) -> Multiset<(u8, u64)>
        decreases self,
    {
        match (self.left, self.right) {
            (None, None) => match self.data {
                Some(symbol) => Multiset::singleton((symbol, self.freq)),
                None => Multiset::empty(),
            },
            (Some(left), None) => left.leaf_bag(),
            (None, Some(right)) => right.leaf_bag(),
            (Some(left), Some(right)) => left.leaf_bag().add(right.leaf_bag()),
        }
    }

    /// The byte value whose leaf the path ends at, going left on a 0 and
    /// right on a 1; `None` where the path ends elsewhere.
    pub open spec fn symbol_at(self, path: Seq<u8>) -> Option<u8>
        decreases path.len(),
    {
        if path.len() == 0 {
            if self.left is None && self.right is None {
                self.data
            } else {
                None
            }
        } else if path[0] == 0 {
            match self.left {
                Some(left) => left.symbol_at(path.skip(1)),
                None => None,
            }
        } else if path[0] == 1 {
            match self.right {
                Some(right) => right.symbol_at(path.skip(1)),
                None => None,
            }
        } else {
            None
        }
    }

    /// Whether a leaf below this node, or the node itself, is the leaf of
    /// `symbol`.
    pub open spec fn has_symbol(self, symbol: u8) -> bool
        decreases self,
    {
        ||| (self.left is None && self.right is None && self.data == Some(symbol))
        ||| match self.left {
            Some(left) => left.has_symbol(symbol),
            None => false,
        }
        ||| match self.right {
            Some(right) => right.has_symbol(symbol),
            None => false,
        }
    }

    /// The table after a walk over this node and what is below it: a node
    /// that holds a byte value enters it with the path that led there, then
    /// the left child is walked with a 0 added to the path, then the right
    /// child with a 1.
    pub open spec fn codes_under(self, prefix: Seq<u8>, table: Map<u8, Seq<u8>>) -> Map<
        u8,
        Seq<u8>,
    >
        decreases self,
    {
        let own = match self.data {
            Some(symbol) => table.insert(symbol, prefix),
            None => table,
        };
        let with_left = match self.left {
            Some(left) => left.codes_under(prefix.push(0), own),
            None => own,
        };
        match self.right {
            Some(right) => right.codes_under(prefix.push(1), with_left),
            None => with_left,
        }
    }

    /// A leaf for `data` that occurs `freq` times.
    pub fn new(data: Option<u8>, freq: u64) -> (node: Self)
        ensures
            node == leaf_node(data, freq),
    {
        let rank: u8 = match data {
            Some(symbol) => symbol,
            None => 0,
        };
        Self { data, freq, rank, left: None, right: None }
    }

    /// Whether this node leaves the priority queue before `other`.
    pub fn comes_first(&self, other: &MinHeapNode) -> (first: bool)
        ensures
            first == self.precedes(*other),
    {
        self.freq < other.freq || (self.freq == other.freq && self.rank < other.rank)
    }

    /// The inner node above `first`, its left child, and `second`, its right
    /// child.
    pub fn merge(first: MinHeapNode, second: MinHeapNode) -> (node: Self)
        requires
            first.freq + second.freq <= u64::MAX,
        ensures
            node == merged_node(first, second),
    {
        let freq: u64 = first.freq + second.freq;
        let rank: u8 = if second.rank < first.rank {
            second.rank
        } else {
            first.rank
        };
        Self { data: None, freq, rank, left: Some(Box::new(first)), right: Some(Box::new(second)) }
    }
}

/// Where a node goes in a queue: behind the last node that precedes it.
pub open spec fn queue_slot(queue: Seq<MinHeapNode>, node: MinHeapNode) -> int
    decreases queue.len(),
{
    if queue.len() == 0 {
        0
    } else if queue.last().precedes(node) {
        queue.len() as int
    } else {
        queue_slot(queue.drop_last(), node)
    }
}

/// The queue with one more node, at its slot.
pub open spec fn queue_with(queue: Seq<MinHeapNode>, node: MinHeapNode) -> Seq<MinHeapNode> {
    queue.insert(queue_slot(queue, node), node)
}

/// The queue that holds a leaf for each byte value of the table, put in one
/// by one.
pub open spec fn leaf_queue(symbols: Seq<u8>, freqs: Seq<u64>) -> Seq<MinHeapNode>
    decreases symbols.len(),
{
    if symbols.len() == 0 || freqs.len() == 0 {
        Seq::empty()
    } else {
        queue_with(
            leaf_queue(symbols.drop_last(), freqs.drop_last()),
            leaf_node(Some(symbols.last()), freqs.last()),
        )
    }
}

/// The pairs of a frequency table, each as often as the table holds it.
pub open spec fn table_bag(symbols: Seq<u8>, freqs: Seq<u64>) -> Multiset<(u8, u64)>
    decreases symbols.len(),
{
    if symbols.len() == 0 || freqs.len() == 0 {
        Multiset::empty()
    } else {
        table_bag(symbols.drop_last(), freqs.drop_last()).insert((symbols.last(), freqs.last()))
    }
}

/// The leaves below the nodes of a queue, taken together.
pub open spec fn queue_bag(queue: Seq<MinHeapNode>) -> Multiset<(u8, u64)>
    decreases queue.len(),
{
    if queue.len() == 0 {
        Multiset::empty()
    } else {
        queue_bag(queue.drop_last()).add(queue.last().leaf_bag())
    }
}

/// What is left of a queue when its first two nodes are merged and put back,
/// over and over, until fewer than two nodes are left.
pub open spec fn merged_queue(queue: Seq<MinHeapNode>) -> Seq<MinHeapNode>
    decreases queue.len(),
    via merged_queue_decreases
{
    if queue.len() < 2 {
        queue
    } else {
        merged_queue(queue_with(queue.skip(2), merged_node(queue[0], queue[1])))
    }
}

#[via_fn]
proof fn merged_queue_decreases(queue: Seq<MinHeapNode>) {
    if queue.len() >= 2 {
        lemma_queue_slot(queue.skip(2), merged_node(queue[0], queue[1]));
    }
}

/// The code tree of a frequency table, as the one node of a queue; of an
/// empty table, an empty queue.
pub open spec fn huffman_queue(symbols: Seq<u8>, freqs: Seq<u64>) -> Seq<MinHeapNode> {
    merged_queue(leaf_queue(symbols, freqs))
}

/// The frequencies of the nodes of a queue, added up.
pub open spec fn queue_total(queue: Seq<MinHeapNode>) -> nat
    decreases queue.len(),
{
    if queue.len() == 0 {
        0
    } else {
        queue_total(queue.drop_last()) + queue.last().freq as nat
    }
}

/// The slot is inside the queue or at its end.
pub proof fn lemma_queue_slot(queue: Seq<MinHeapNode>, node: MinHeapNode)
    ensures
        0 <= queue_slot(queue, node) <= queue.len(),
        queue_with(queue, node).len() == queue.len() + 1,
    decreases queue.len(),
{
    if queue.len() > 0 && !queue.last().precedes(node) {
        lemma_queue_slot(queue.drop_last(), node);
    }
}

/// Inserting a node adds its frequency to the total.
pub proof fn lemma_queue_total_insert(queue: Seq<MinHeapNode>, at: int, node: MinHeapNode)
    requires
        0 <= at <= queue.len(),
    ensures
        queue_total(queue.insert(at, node)) == queue_total(queue) + node.freq,
    decreases queue.len(),
{
    let grown = queue.insert(at, node);
    if at == queue.len() {
        assert(grown.drop_last() =~= queue);
    } else {
        let shorter = queue.drop_last();
        lemma_queue_total_insert(shorter, at, node);
        assert(grown.drop_last() =~= shorter.insert(at, node));
        assert(grown.last() == queue.last());
    }
}

/// Taking the first node away takes its frequency off the total.
pub proof fn lemma_queue_total_skip(queue: Seq<MinHeapNode>)
    requires
        queue.len() > 0,
    ensures
        queue_total(queue.skip(1)) + queue[0].freq == queue_total(queue),
    decreases queue.len(),
{
    if queue.len() == 1 {
        assert(queue.skip(1) =~= Seq::<MinHeapNode>::empty());
        assert(queue.drop_last() =~= Seq::<MinHeapNode>::empty());
    } else {
        let shorter = queue.drop_last();
        lemma_queue_total_skip(shorter);
        assert(queue.skip(1).drop_last() =~= shorter.skip(1));
        assert(queue.skip(1).last() == queue.last());
    }
}

/// Puts a node into the queue, behind the last node that precedes it.
pub fn queue_push(queue: &mut Vec<MinHeapNode>, node: MinHeapNode)
    ensures
        final(queue)@ == queue_with(old(queue)@, node),
{
    let mut at: usize = queue.len();
    proof {
        assert(queue@.subrange(0, at as int) =~= queue@);
    }
    while at > 0 && !queue[at - 1].comes_first(&node)
        invariant
            at <= queue.len(),
            queue_slot(queue@, node) == queue_slot(queue@.subrange(0, at as int), node),
        decreases at,
    {
        proof {
            let head = queue@.subrange(0, at as int);
            assert(head.last() == queue@[at - 1]);
            assert(head.drop_last() =~= queue@.subrange(0, at - 1));
        }
        at -= 1;
    }
    proof {
        let head = queue@.subrange(0, at as int);
        if at > 0 {
            assert(head.last() == queue@[at - 1]);
        }
    }
    queue.insert(at, node);
}

/// The first `count` frequencies of a list.
pub open spec fn leading(freqs: Seq<u64>, count: int) -> Seq<u64> {
    if count == freqs.len() {
        freqs
    } else {
        freqs.subrange(0, count)
    }
}

/// Builds the code tree of a frequency table: `data` holds the byte values,
/// `freq` at the same index how often each occurs. A queue is filled with a
/// leaf for each byte value; then its first two nodes, which are the two of
/// lowest frequency, are merged and the new node is put back, until one node
/// is left. The result is the queue with the root of the tree as its one
/// node, and an empty queue where `data` is empty. The leaves of the tree are
/// the pairs of the table, each once; the frequency of an inner node is the
/// sum of those of its children, so that of the root is the sum of all; the
/// tree of a single byte value is the leaf of that value.
pub fn huffman_table(data: Vec<u8>, freq: &[u64]) -> (queue: Vec<MinHeapNode>)
    requires
        data.len() <= freq.len(),
        total(leading(freq@, data.len() as int)) <= u64::MAX,
    ensures
        queue@ == huffman_queue(data@, leading(freq@, data.len() as int)),
        queue@.len() == if data.len() == 0 { 0nat } else { 1nat },
        data.len() > 0 ==> queue@[0].well_formed(),
        data.len() > 0 ==> queue@[0].freq == total(leading(freq@, data.len() as int)),
        data.len() > 0 ==> queue@[0].leaf_bag() == table_bag(
            data@,
            leading(freq@, data.len() as int),
        ),
        data.len() == 1 ==> queue@[0] == leaf_node(Some(data@[0]), freq@[0]),
        forall|i: int| 0 <= i < data.len() ==> queue@[0].has_symbol(#[trigger] data@[i]),
{
    let mut queue: Vec<MinHeapNode> = Vec::new();
    if data.len() == 0 {
        proof {
            assert(merged_queue(Seq::<MinHeapNode>::empty()) == Seq::<MinHeapNode>::empty());
        }
        return queue;
    }
    let ghost freqs = leading(freq@, data.len() as int);
    let mut i: usize = 0;
    proof {
        assert(freqs =~= freq@.subrange(0, data.len() as int));
    }
    while i < data.len()
        invariant
            i <= data.len() <= freq.len(),
            freqs == freq@.subrange(0, data.len() as int),
            queue@ == leaf_queue(data@.subrange(0, i as int), freqs.subrange(0, i as int)),
            queue_total(queue@) == total(freqs.subrange(0, i as int)),
            queue@.len() == i,
        decreases data.len() - i,
    {
        let node = MinHeapNode::new(Some(data[i]), freq[i]);
        proof {
            let symbols_next = data@.subrange(0, i + 1);
            let freqs_next = freqs.subrange(0, i + 1);
            assert(symbols_next.drop_last() =~= data@.subrange(0, i as int));
            assert(freqs_next.drop_last() =~= freqs.subrange(0, i as int));
            assert(symbols_next.last() == data@[i as int]);
            assert(freqs_next.last() == freq@[i as int]);
            lemma_queue_slot(queue@, node);
            lemma_queue_total_insert(queue@, queue_slot(queue@, node), node);
        }
        queue_push(&mut queue, node);
        i += 1;
    }
    proof {
        assert(data@.subrange(0, data.len() as int) =~= data@);
        assert(freqs.subrange(0, data.len() as int) =~= freqs);
    }
    let ghost leaves = queue@;
    while queue.len() > 1
        invariant
            queue@.len() >= 1,
            merged_queue(queue@) == merged_queue(leaves),
            queue_total(queue@) <= u64::MAX,
        decreases queue.len(),
    {
        proof {
            lemma_queue_total_skip(queue@);
            lemma_queue_total_skip(queue@.skip(1));
            assert(queue@.skip(1).skip(1) =~= queue@.skip(2));
            assert(queue@.skip(1)[0] == queue@[1]);
        }
        let ghost before = queue@;
        let first = queue.remove(0);
        let second = queue.remove(0);
        proof {
            assert(queue@ =~= before.skip(2));
        }
        let node = MinHeapNode::merge(first, second);
        proof {
            lemma_queue_slot(queue@, node);
            lemma_queue_total_insert(queue@, queue_slot(queue@, node), node);
        }
        queue_push(&mut queue, node);
    }
    proof {
        lemma_leaf_queue(data@, freqs);
        lemma_merged_queue(leaves);
        assert forall|i: int| 0 <= i < data.len() implies queue@[0].has_symbol(
            #[trigger] data@[i],
        ) by {
            assert(queue_has_symbol(leaves, data@[i]));
        }
        if data.len() == 1 {
            assert(data@.drop_last() =~= Seq::<u8>::empty());
            assert(leaf_queue(data@.drop_last(), freqs.drop_last()) =~= Seq::<
                MinHeapNode,
            >::empty());
            assert(leaves =~= seq![leaf_node(Some(data@[0]), freq@[0])]);
        }
    }
    queue
}

/// Counts how often each byte value occurs in `data`. The first result holds
/// the values that occur, the more frequent first and of equally frequent
/// ones the lower value first; the second holds, at the same index, the
/// number of times each occurs.
pub fn get_frequencies(data: &[u8]) -> (table: (Vec<u8>, Vec<u64>))
    ensures
        (table.0@, table.1@) == frequency_table(data@),
        is_frequency_table(data@, table.0@, table.1@),
        total(table.1@) == data@.len(),
        total(table.1@) <= usize::MAX,
{
    let mut counts: Vec<u64> = Vec::new();
    let mut filled: usize = 0;
    while filled < 256
        invariant
            filled <= 256,
            counts@.len() == filled,
            forall|s: int| 0 <= s < filled ==> counts@[s] == 0,
        decreases 256 - filled,
    {
        counts.push(0);
        filled += 1;
    }
    let mut i: usize = 0;
    proof {
        assert(data@.subrange(0, 0) =~= Seq::<u8>::empty());
    }
    while i < data.len()
        invariant
            i <= data.len(),
            counts@.len() == 256,
            forall|s: u8| #[trigger] counts@[s as int] == occurrences(data@.subrange(0, i as int), s),
        decreases data.len() - i,
    {
        let value: u8 = data[i];
        let index: usize = value as usize;
        let ghost seen = data@.subrange(0, i as int);
        let ghost grown = data@.subrange(0, i + 1);
        proof {
            lemma_occurrences_bound(seen, value);
            assert(grown.drop_last() =~= seen);
            assert(grown.last() == value);
        }
        let count: u64 = counts[index];
        counts.set(index, count + 1);
        i += 1;
    }
    proof {
        assert(data@.subrange(0, data.len() as int) =~= data@);
    }
    let mut symbols: Vec<u8> = Vec::new();
    let mut freqs: Vec<u64> = Vec::new();
    let mut next: usize = 0;
    while next < 256
        invariant
            next <= 256,
            counts@.len() == 256,
            forall|s: u8| #[trigger] counts@[s as int] == occurrences(data@, s),
            (symbols@, freqs@) == frequency_table_below(data@, next as int),
            symbols@.len() == freqs@.len(),
        decreases 256 - next,
    {
        let f: u64 = counts[next];
        proof {
            assert(counts@[(next as u8) as int] == occurrences(data@, next as u8));
        }
        if f != 0 {
            let mut at: usize = freqs.len();
            proof {
                assert(freqs@.subrange(0, at as int) =~= freqs@);
            }
            while at > 0 && freqs[at - 1] < f
                invariant
                    at <= freqs.len(),
                    slot_for(freqs@, f) == slot_for(freqs@.subrange(0, at as int), f),
                decreases at,
            {
                proof {
                    let head = freqs@.subrange(0, at as int);
                    assert(head.last() == freqs@[at - 1]);
                    assert(head.drop_last() =~= freqs@.subrange(0, at - 1));
                }
                at -= 1;
            }
            proof {
                let head = freqs@.subrange(0, at as int);
                if at > 0 {
                    assert(head.last() == freqs@[at - 1]);
                }
            }
            symbols.insert(at, next as u8);
            freqs.insert(at, f);
        }
        next += 1;
    }
    proof {
        lemma_frequency_table(data@);
    }
    (symbols, freqs)
}

/// The codes of a table, each as the sequence of its bits.
pub open spec fn codes_of(table: Map<u8, Vec<u8>>) -> Map<u8, Seq<u8>> {
    Map::new(|symbol: u8| table.contains_key(symbol), |symbol: u8| table[symbol]@)
}

/// The table after a walk from `root`; without a root, the table as it was.
pub open spec fn codes_from(
    root: Option<Box<MinHeapNode>>,
    prefix: Seq<u8>,
    table: Map<u8, Seq<u8>>,
) -> Map<u8, Seq<u8>> {
    match root {
        Some(node) => node.codes_under(prefix, table),
        None => table,
    }
}

/// The codes of the tree of a buffer: the ways from the root to the leaves
/// that a walk over its code tree finds. An empty buffer has none, and the
/// one byte value of a buffer that holds no other has the empty code.
pub open spec fn tree_codes(data: Seq<u8>) -> Map<u8, Seq<u8>> {
    let table = frequency_table(data);
    let queue = huffman_queue(table.0, table.1);
    if queue.len() == 0 {
        Map::empty()
    } else {
        queue[0].codes_under(Seq::empty(), Map::empty())
    }
}

/// Some code of the table consists of zero bits only, as the empty code
/// does.
pub open spec fn has_zero_code(table: Map<u8, Seq<u8>>) -> bool {
    exists|s: u8| table.contains_key(s) && all_zero(#[trigger] table[s])
}

/// The byte value whose code consists of zero bits only.
pub open spec fn zero_symbol(table: Map<u8, Seq<u8>>) -> u8 {
    choose|s: u8| table.contains_key(s) && all_zero(#[trigger] table[s])
}

/// The zero bits that pad the last byte of the packed codes of `data` could
/// be read as a code: the code of zero bits is no longer than the padding.
/// This is so of the empty code whatever the padding.
pub open spec fn padding_reads_as_code(table: Map<u8, Seq<u8>>, data: Seq<u8>) -> bool {
    has_zero_code(table) && table[zero_symbol(table)].len() <= padding_len(
        code_stream(table, data).len(),
    )
}

/// The table with its code of zero bits lengthened by a one bit.
pub open spec fn mended(table: Map<u8, Seq<u8>>) -> Map<u8, Seq<u8>> {
    table.insert(zero_symbol(table), table[zero_symbol(table)].push(1u8))
}

/// The code table of a buffer: the codes of its tree, and where the padding
/// of the packed stream could be read as the code of zero bits, those codes
/// with that one lengthened by a one bit.
pub open spec fn code_table(data: Seq<u8>) -> Map<u8, Seq<u8>> {
    let plain = tree_codes(data);
    if padding_reads_as_code(plain, data) {
        mended(plain)
    } else {
        plain
    }
}

/// Walks the tree from `root`, depth first and left before right, and enters
/// the code of each byte value into `table`: the bits of the way from the
/// root to its leaf, 0 for a step to the left and 1 for a step to the right,
/// behind the bits of `code`.
pub fn lookup_table(
    root: Option<Box<MinHeapNode>>,
    code: Vec<u8>,
    table: &mut HashMap<u8, Vec<u8>>,
)
    ensures
        codes_of(final(table)@) == codes_from(root, code@, codes_of(old(table)@)),
    decreases root,
{
    broadcast use vstd::std_specs::hash::group_hash_axioms;

    let node = match root {
        Some(node) => node,
        None => {
            return ;
        },
    };
    let MinHeapNode { data, freq: _, rank: _, left, right } = *node;
    let ghost start = codes_of(table@);
    if let Some(symbol) = data {
        let own = code.clone();
        table.insert(symbol, own);
        proof {
            assert(own@ =~= code@);
            assert(codes_of(table@) =~= start.insert(symbol, code@));
        }
    }
    if left.is_some() {
        let mut left_code = code.clone();
        left_code.push(0);
        proof {
            assert(left_code@ =~= code@.push(0));
        }
        lookup_table(left, left_code, table);
    }
    if right.is_some() {
        let mut right_code = code;
        right_code.push(1);
        lookup_table(right, right_code, table);
    }
}

/// The four bytes of a table entry: the byte value, the number of bits of
/// its code, and the code packed into a word, low byte first.
pub open spec fn table_entry(symbol: u8, code: Seq<u8>) -> Seq<u8> {
    seq![symbol, code.len() as u8] + le_u16(pack_code(code))
}

/// The entries of the byte values below `upto` that have a code, in rising
/// order of the byte values.
pub open spec fn table_entries(table: Map<u8, Seq<u8>>, upto: int) -> Seq<u8>
    decreases upto,
{
    if upto <= 0 {
        Seq::empty()
    } else {
        let symbol = (upto - 1) as u8;
        table_entries(table, upto - 1) + if table.contains_key(symbol) {
            table_entry(symbol, table[symbol])
        } else {
            Seq::empty()
        }
    }
}

/// The codes of the bytes of `data`, one behind the other.
pub open spec fn code_stream(table: Map<u8, Seq<u8>>, data: Seq<u8>) -> Seq<u8>
    decreases data.len(),
{
    if data.len() == 0 {
        Seq::empty()
    } else {
        code_stream(table, data.drop_last()) + table[data.last()]
    }
}

/// No code of the table has more bits than a table entry can hold.
pub open spec fn codes_fit(table: Map<u8, Seq<u8>>) -> bool {
    forall|s: u8| table.contains_key(s) ==> (#[trigger] table[s]).len() <= 16
}

/// What `huffman_encode` gives for a buffer: the length of the table region
/// in two bytes, the table entries, and the packed codes of the buffer's
/// bytes; or `CodeLengthOverflow` where a code has more than sixteen bits.
pub open spec fn huffman_encode_spec(data: Seq<u8>) -> Result<Seq<u8>, CacheError> {
    let table = code_table(data);
    if !codes_fit(table) {
        Err(CacheError::CodeLengthOverflow)
    } else {
        let entries = table_entries(table, 256);
        Ok(le_u16(entries.len() as u16) + entries + pack_bits(code_stream(table, data)))
    }
}

/// The table has at most four bytes for each byte value.
pub proof fn lemma_table_entries_len(table: Map<u8, Seq<u8>>, upto: int)
    requires
        0 <= upto,
    ensures
        table_entries(table, upto).len() <= 4 * upto,
        table_entries(table, upto).len() % 4 == 0,
    decreases upto,
{
    if upto > 0 {
        lemma_table_entries_len(table, upto - 1);
        lemma_le_u16(pack_code(table[(upto - 1) as u8]), Seq::empty());
    }
}

/// The codes of a bit-coded table, strung together, are bits.
pub proof fn lemma_code_stream_is_bits(table: Map<u8, Seq<u8>>, data: Seq<u8>)
    requires
        forall|i: int| 0 <= i < data.len() ==> table.contains_key(#[trigger] data[i]),
        forall|s: u8| table.contains_key(s) ==> is_bits(#[trigger] table[s]),
    ensures
        is_bits(code_stream(table, data)),
    decreases data.len(),
{
    if data.len() > 0 {
        let shorter = data.drop_last();
        assert forall|i: int| 0 <= i < shorter.len() implies table.contains_key(
            #[trigger] shorter[i],
        ) by {
            assert(shorter[i] == data[i]);
        }
        lemma_code_stream_is_bits(table, shorter);
        assert(table.contains_key(data[data.len() - 1]));
        let head = code_stream(table, shorter);
        let code = table[data.last()];
        assert forall|i: int| 0 <= i < (head + code).len() implies #[trigger] (head + code)[i]
            <= 1 by {
            if i < head.len() {
                assert(head[i] <= 1);
            } else {
                assert(code[i - head.len()] <= 1);
            }
        }
    }
}

/// Whether a code consists of zero bits only.
pub fn is_all_zero(code: &Vec<u8>) -> (zero: bool)
    ensures
        zero == all_zero(code@),
{
    let mut i: usize = 0;
    while i < code.len()
        invariant
            i <= code.len(),
            forall|k: int| 0 <= k < i ==> #[trigger] code@[k] == 0,
        decreases code.len() - i,
    {
        if code[i] != 0 {
            return false;
        }
        i += 1;
    }
    true
}

/// The byte value whose code consists of zero bits only, if there is one.
pub fn find_zero_code(table: &HashMap<u8, Vec<u8>>) -> (found: Option<u8>)
    ensures
        match found {
            Some(symbol) => table@.contains_key(symbol) && all_zero(table@[symbol]@),
            None => !has_zero_code(codes_of(table@)),
        },
{
    broadcast use vstd::std_specs::hash::group_hash_axioms;

    let mut symbol: usize = 0;
    while symbol < 256
        invariant
            symbol <= 256,
            forall|s: u8|
                s < symbol && table@.contains_key(s) ==> !all_zero(
                    #[trigger] codes_of(table@)[s],
                ),
        decreases 256 - symbol,
    {
        let key: u8 = symbol as u8;
        match table.get(&key) {
            Some(code) => {
                if is_all_zero(code) {
                    return Some(key);
                }
            },
            None => {},
        }
        symbol += 1;
    }
    None
}

/// The codes of the bytes of `buffer`, one behind the other.
pub fn code_bits(buffer: &[u8], table: &HashMap<u8, Vec<u8>>) -> (bits: Vec<u8>)
    requires
        forall|k: int| 0 <= k < buffer@.len() ==> table@.contains_key(#[trigger] buffer@[k]),
    ensures
        bits@ == code_stream(codes_of(table@), buffer@),
{
    broadcast use vstd::std_specs::hash::group_hash_axioms;

    let ghost codes = codes_of(table@);
    let mut bits: Vec<u8> = Vec::new();
    let mut i: usize = 0;
    proof {
        assert(buffer@.subrange(0, 0) =~= Seq::<u8>::empty());
    }
    while i < buffer.len()
        invariant
            i <= buffer.len(),
            codes == codes_of(table@),
            forall|k: int| 0 <= k < buffer@.len() ==> table@.contains_key(#[trigger] buffer@[k]),
            bits@ == code_stream(codes, buffer@.subrange(0, i as int)),
        decreases buffer.len() - i,
    {
        let key: u8 = buffer[i];
        proof {
            assert(table@.contains_key(buffer@[i as int]));
        }
        let found = table.get(&key);
        let code = found.unwrap();
        push_bytes(&mut bits, code.as_slice());
        i += 1;
        proof {
            let grown = buffer@.subrange(0, i as int);
            assert(grown.drop_last() =~= buffer@.subrange(0, i - 1));
            assert(grown.last() == key);
            assert(codes[key] == code@);
        }
    }
    proof {
        assert(buffer@.subrange(0, buffer.len() as int) =~= buffer@);
    }
    bits
}

/// Compresses `buffer`. The result starts with the length of the code table
/// in bytes, as a `u16`, low byte first. Then comes the table: for each byte
/// value of the buffer, in rising order, the value, the number of bits of its
/// code, and the code left-justified in a `u16`, low byte first. Then come
/// the codes of the buffer's bytes in the buffer's order, packed eight to a
/// byte from the most significant bit down, the last byte filled up with
/// zero bits.
///
/// The codes are those of the buffer's code tree. Only where the zero bits
/// of the padding could be read as the code of zero bits is that code
/// lengthened by a one bit; so the one byte value of a buffer that holds no
/// other gets the code 1. An empty buffer gives two zero bytes. A buffer
/// whose codes come to more than sixteen bits is refused with
/// `CodeLengthOverflow`.
pub fn huffman_encode(buffer: &[u8]) -> (encoded: Result<Vec<u8>, CacheError>)
    ensures
        bytes_of(encoded) == huffman_encode_spec(buffer@),
        buffer@.len() == 0 ==> bytes_of(encoded) == Ok::<Seq<u8>, CacheError>(seq![0u8, 0u8]),
{
    broadcast use vstd::std_specs::hash::group_hash_axioms;

    let length: usize = buffer.len();
    let (arr, freq) = get_frequencies(buffer);
    proof {
        assert(buffer@.len() == length);
        lemma_tree_code_table(buffer@);
        lemma_code_table(buffer@);
    }
    let mut heap = huffman_table(arr, freq.as_slice());
    let mut table: HashMap<u8, Vec<u8>> = HashMap::new();
    let root = match heap.pop() {
        Some(node) => Some(Box::new(node)),
        None => None,
    };
    lookup_table(root, Vec::new(), &mut table);
    let ghost plain = tree_codes(buffer@);
    let ghost codes = code_table(buffer@);
    proof {
        assert(codes_of(Map::<u8, Vec<u8>>::empty()) =~= Map::<u8, Seq<u8>>::empty());
        assert(codes_of(table@) == plain);
        assert forall|k: int| 0 <= k < buffer@.len() implies table@.contains_key(
            #[trigger] buffer@[k],
        ) by {
            assert(plain.contains_key(buffer@[k]));
        }
    }
    let mut bit_stream = code_bits(buffer, &table);
    let padding: usize = (8 - bit_stream.len() % 8) % 8;
    match find_zero_code(&table) {
        Some(zero) => {
            proof {
                assert(plain.contains_key(zero) && all_zero(plain[zero]));
                assert(has_zero_code(plain));
                lemma_zero_code_unique(plain, zero, zero_symbol(plain));
            }
            let found = table.get(&zero);
            let code = found.unwrap();
            if code.len() <= padding {
                let mut longer = code.clone();
                longer.push(1);
                proof {
                    assert(longer@ =~= plain[zero].push(1u8));
                }
                table.insert(zero, longer);
                proof {
                    assert(codes_of(table@) =~= mended(plain));
                    assert forall|k: int| 0 <= k < buffer@.len() implies table@.contains_key(
                        #[trigger] buffer@[k],
                    ) by {
                        assert(plain.contains_key(buffer@[k]));
                    }
                }
                bit_stream = code_bits(buffer, &table);
            }
        },
        None => {},
    }
    proof {
        assert(codes_of(table@) == codes);
    }

    let mut table_bytes: Vec<u8> = Vec::new();
    let mut symbol: usize = 0;
    while symbol < 256
        invariant
            symbol <= 256,
            codes == code_table(buffer@),
            codes_of(table@) == codes,
            table_bytes@ == table_entries(codes, symbol as int),
            forall|s: u8| s < symbol && codes.contains_key(s) ==> (#[trigger] codes[s]).len() <= 16,
        decreases 256 - symbol,
    {
        let key: u8 = symbol as u8;
        match table.get(&key) {
            Some(code) => {
                proof {
                    assert(codes.contains_key(key));
                    assert(codes[key] == code@);
                }
                if code.len() > 16 {
                    proof {
                        assert(codes[key].len() > 16);
                        assert(!codes_fit(codes));
                        if buffer@.len() == 0 {
                            lemma_empty_buffer(buffer@);
                        }
                    }
                    return Err(CacheError::CodeLengthOverflow);
                }
                table_bytes.push(key);
                table_bytes.push(code.len() as u8);
                let word = pack_code_word(code);
                push_u16(&mut table_bytes, word);
                proof {
                    assert(table_bytes@ =~= table_entries(codes, symbol as int) + table_entry(
                        key,
                        code@,
                    ));
                }
            },
            None => {
                proof {
                    assert(!codes.contains_key(key));
                    assert(table_bytes@ =~= table_entries(codes, symbol as int)
                        + Seq::<u8>::empty());
                }
            },
        }
        symbol += 1;
    }
    proof {
        lemma_table_entries_len(codes, 256);
        assert(codes_fit(codes)) by {
            assert forall|s: u8| codes.contains_key(s) implies (#[trigger] codes[s]).len()
                <= 16 by {}
        }
    }
    let packed = pack_bit_stream(&bit_stream);
    let mut encoded: Vec<u8> = Vec::new();
    push_u16(&mut encoded, table_bytes.len() as u16);
    push_bytes(&mut encoded, table_bytes.as_slice());
    push_bytes(&mut encoded, packed.as_slice());
    proof {
        let entries = table_entries(codes, 256);
        assert(encoded@ =~= le_u16(entries.len() as u16) + entries + pack_bits(
            code_stream(codes, buffer@),
        ));
        if buffer@.len() == 0 {
            lemma_empty_buffer(buffer@);
            assert(encoded@ =~= seq![0u8, 0u8]);
        }
    }
    Ok(encoded)
}

/// An empty buffer has an empty code table and an empty stream.
pub proof fn lemma_empty_buffer(data: Seq<u8>)
    requires
        data.len() == 0,
    ensures
        tree_codes(data) == Map::<u8, Seq<u8>>::empty(),
        code_table(data) == Map::<u8, Seq<u8>>::empty(),
        table_entries(code_table(data), 256) == Seq::<u8>::empty(),
        pack_bits(code_stream(code_table(data), data)) == Seq::<u8>::empty(),
        huffman_encode_spec(data) == Ok::<Seq<u8>, CacheError>(seq![0u8, 0u8]),
{
    lemma_frequency_table(data);
    let table = frequency_table(data);
    if table.0.len() > 0 {
        assert(table.0.contains(table.0[0]));
    }
    assert(leaf_queue(table.0, table.1) =~= Seq::<MinHeapNode>::empty());
    assert(merged_queue(Seq::<MinHeapNode>::empty()) =~= Seq::<MinHeapNode>::empty());
    lemma_no_entries(256);
    lemma_le_u16_zero();
    assert(pack_bits(Seq::<u8>::empty()) =~= Seq::<u8>::empty());
    assert(le_u16(0) + Seq::<u8>::empty() + Seq::<u8>::empty() =~= seq![0u8, 0u8]);
}

proof fn lemma_no_entries(upto: int)
    ensures
        table_entries(Map::<u8, Seq<u8>>::empty(), upto) == Seq::<u8>::empty(),
    decreases upto,
{
    if upto > 0 {
        lemma_no_entries(upto - 1);
    }
}

/// The decoding table after the entries from index `at` up to `end` are
/// read, each four bytes long, and the index behind the last of them. An
/// entry maps the bits of its code to its byte value; a later entry with the
/// same code replaces an earlier one. Reading fails with `TruncatedInput`
/// where an entry is cut short, and with `CodeLengthOverflow` where one
/// declares more than sixteen bits.
pub open spec fn read_table(
    input: Seq<u8>,
    at: int,
    end: int,
    table: Map<Seq<u8>, u8>,
) -> Result<(Map<Seq<u8>, u8>, int), CacheError>
    decreases end + 4 - at,
{
    if at >= end {
        Ok((table, at))
    } else if at < 0 || at + 4 > input.len() {
        Err(CacheError::TruncatedInput)
    } else if input[at + 1] > 16 {
        Err(CacheError::CodeLengthOverflow)
    } else {
        let code = unpack_code(from_le_u16(input.subrange(at + 2, at + 4)), input[at + 1] as nat);
        read_table(input, at + 4, end, table.insert(code, input[at]))
    }
}

/// What a reader makes of a bit stream: it takes bit after bit, and as soon
/// as the bits taken since the last match (`pending` holds those taken so
/// far) are a code of the table, it gives out the code's byte value and
/// starts afresh.
pub open spec fn decode_stream(table: Map<Seq<u8>, u8>, bits: Seq<u8>, pending: Seq<u8>) -> Seq<u8>
    decreases bits.len(),
{
    if bits.len() == 0 {
        Seq::empty()
    } else {
        let grown = pending.push(bits[0]);
        if table.contains_key(grown) {
            seq![table[grown]] + decode_stream(table, bits.skip(1), Seq::empty())
        } else {
            decode_stream(table, bits.skip(1), grown)
        }
    }
}

/// What `huffman_decode` gives for an input: the length of the table region
/// is read from the first two bytes, then the table, and the rest is read as
/// a bit stream to its last bit.
pub open spec fn huffman_decode_spec(input: Seq<u8>) -> Result<Seq<u8>, CacheError> {
    if input.len() < 2 {
        Err(CacheError::TruncatedInput)
    } else {
        let table_len = from_le_u16(input.subrange(0, 2));
        match read_table(input, 2, 2 + table_len, Map::empty()) {
            Err(e) => Err(e),
            Ok((table, at)) => Ok(
                decode_stream(table, unpack_bits(input.skip(at)), Seq::empty()),
            ),
        }
    }
}

/// The number under which the decoder files a code: its length and its
/// packed word.
pub open spec fn code_key(code: Seq<u8>) -> u32 {
    (code.len() * 65536 + pack_code(code)) as u32
}

/// The decoder's map holds, under the key of each code, what the decoding
/// table holds for the code.
pub open spec fn keyed_table(keyed: Map<u32, u8>, table: Map<Seq<u8>, u8>) -> bool {
    &&& forall|code: Seq<u8>| #[trigger]
        table.contains_key(code) ==> is_bits(code) && code.len() <= 16
    &&& forall|code: Seq<u8>|
        is_bits(code) && code.len() <= 16 ==> (table.contains_key(code) <==> keyed.contains_key(
            #[trigger] code_key(code),
        ))
    &&& forall|code: Seq<u8>|
        is_bits(code) && code.len() <= 16 && table.contains_key(code) ==> table[code]
            == keyed[#[trigger] code_key(code)]
}

/// Two codes with the same key are the same code.
pub proof fn lemma_code_key_injective(a: Seq<u8>, b: Seq<u8>)
    requires
        is_bits(a),
        is_bits(b),
        a.len() <= 16,
        b.len() <= 16,
        code_key(a) == code_key(b),
    ensures
        a == b,
{
    lemma_unpack_pack_code(a);
    lemma_unpack_pack_code(b);
}

/// A new entry keeps the decoder's map in step with the decoding table.
pub proof fn lemma_keyed_insert(
    keyed: Map<u32, u8>,
    table: Map<Seq<u8>, u8>,
    code: Seq<u8>,
    symbol: u8,
)
    requires
        keyed_table(keyed, table),
        is_bits(code),
        code.len() <= 16,
    ensures
        keyed_table(keyed.insert(code_key(code), symbol), table.insert(code, symbol)),
{
    let keyed_next = keyed.insert(code_key(code), symbol);
    let table_next = table.insert(code, symbol);
    assert forall|other: Seq<u8>| is_bits(other) && other.len() <= 16 implies (
    table_next.contains_key(other) <==> keyed_next.contains_key(#[trigger] code_key(other))) by {
        if code_key(other) == code_key(code) {
            lemma_code_key_injective(other, code);
        }
    }
    assert forall|other: Seq<u8>|
        is_bits(other) && other.len() <= 16 && table_next.contains_key(
            other,
        ) implies table_next[other] == keyed_next[#[trigger] code_key(other)] by {
        if code_key(other) == code_key(code) {
            lemma_code_key_injective(other, code);
        }
    }
}

/// Once sixteen bits are pending, nothing more matches: the next bit makes
/// them more than a code can have.
pub proof fn lemma_decode_stream_stuck(table: Map<Seq<u8>, u8>, bits: Seq<u8>, pending: Seq<u8>)
    requires
        forall|code: Seq<u8>| #[trigger] table.contains_key(code) ==> code.len() <= 16,
        pending.len() >= 16,
    ensures
        decode_stream(table, bits, pending) == Seq::<u8>::empty(),
    decreases bits.len(),
{
    if bits.len() > 0 {
        lemma_decode_stream_stuck(table, bits.skip(1), pending.push(bits[0]));
    }
}

/// Restores what `huffman_encode` compressed. The first two bytes give the
/// length of the table region; its entries of four bytes are read as long as
/// the reading position is inside that region; the bytes behind the last
/// entry are the bit stream, which is read to its last bit. Fails with
/// `TruncatedInput` where the input ends inside the length or inside an
/// entry, and with `CodeLengthOverflow` where an entry declares a code of
/// more than sixteen bits.
pub fn huffman_decode(buffer: &[u8]) -> (decoded: Result<Vec<u8>, CacheError>)
    ensures
        bytes_of(decoded) == huffman_decode_spec(buffer@),
{
    broadcast use vstd::std_specs::hash::group_hash_axioms;

    if buffer.len() < 2 {
        return Err(CacheError::TruncatedInput);
    }
    let table_len: usize = u16_at(buffer, 0) as usize;
    let end: usize = 2 + table_len;
    let mut keyed: HashMap<u32, u8> = HashMap::new();
    let ghost mut table: Map<Seq<u8>, u8> = Map::empty();
    let mut at: usize = 2;
    while at < end
        invariant
            2 <= at <= buffer.len(),
            end == 2 + from_le_u16(buffer@.subrange(0, 2)),
            read_table(buffer@, at as int, end as int, table) == read_table(
                buffer@,
                2,
                end as int,
                Map::empty(),
            ),
            keyed_table(keyed@, table),
        decreases end + 4 - at,
    {
        if buffer.len() - at < 4 {
            return Err(CacheError::TruncatedInput);
        }
        let symbol: u8 = buffer[at];
        let len: u8 = buffer[at + 1];
        if len > 16 {
            return Err(CacheError::CodeLengthOverflow);
        }
        let word: u16 = u16_at(buffer, at + 2);
        let code = unpack_code_word(word, len);
        proof {
            lemma_unpack_code_is_bits(word, len as nat);
        }
        let packed: u16 = pack_code_word(&code);
        let key: u32 = (len as u32) * 65536 + (packed as u32);
        proof {
            assert(key == code_key(code@));
            lemma_keyed_insert(keyed@, table, code@, symbol);
            table = table.insert(code@, symbol);
        }
        keyed.insert(key, symbol);
        at += 4;
    }
    let rest = slice_subrange(buffer, at, buffer.len());
    proof {
        assert(rest@ =~= buffer@.skip(at as int));
    }
    let bits = unpack_bit_stream(rest);
    proof {
        lemma_unpack_bits_is_bits(rest@);
    }
    let mut decoded: Vec<u8> = Vec::new();
    let mut word: u16 = 0;
    let mut len: u8 = 0;
    let ghost mut pending: Seq<u8> = Seq::empty();
    let mut i: usize = 0;
    proof {
        assert(bits@.skip(0) =~= bits@);
    }
    while i < bits.len() && len < 16
        invariant
            i <= bits.len(),
            is_bits(bits@),
            len <= 16,
            pending.len() == len,
            is_bits(pending),
            word == pack_code(pending),
            keyed_table(keyed@, table),
            decoded@ + decode_stream(table, bits@.skip(i as int), pending) == decode_stream(
                table,
                bits@,
                Seq::empty(),
            ),
        decreases bits.len() - i,
    {
        let bit: u8 = bits[i];
        let shift: u16 = 15 - (len as u16);
        let ghost grown = pending.push(bit);
        proof {
            assert(bits@[i as int] <= 1);
            assert(grown.drop_last() =~= pending);
            assert(is_bits(grown)) by {
                assert forall|k: int| 0 <= k < grown.len() implies #[trigger] grown[k] <= 1 by {
                    if k < pending.len() {
                        assert(grown[k] == pending[k]);
                    }
                }
            }
            assert(bits@.skip(i as int)[0] == bit);
            assert(bits@.skip(i as int).skip(1) =~= bits@.skip(i + 1));
        }
        word = word | ((bit as u16) << shift);
        len += 1;
        let key: u32 = (len as u32) * 65536 + (word as u32);
        proof {
            assert(word == pack_code(grown));
            assert(key == code_key(grown));
        }
        match keyed.get(&key) {
            Some(symbol) => {
                proof {
                    assert(table.contains_key(grown));
                    assert(table[grown] == *symbol);
                    assert(decoded@.push(*symbol) + decode_stream(
                        table,
                        bits@.skip(i + 1),
                        Seq::empty(),
                    ) =~= decoded@ + (seq![*symbol] + decode_stream(
                        table,
                        bits@.skip(i + 1),
                        Seq::empty(),
                    )));
                    pending = Seq::empty();
                }
                decoded.push(*symbol);
                word = 0;
                len = 0;
            },
            None => {
                proof {
                    assert(!table.contains_key(grown));
                    pending = grown;
                }
            },
        }
        i += 1;
    }
    proof {
        if i < bits.len() {
            lemma_decode_stream_stuck(table, bits@.skip(i as int), pending);
        } else {
            assert(bits@.skip(i as int) =~= Seq::<u8>::empty());
        }
        assert(decoded@ + Seq::<u8>::empty() =~= decoded@);
    }
    Ok(decoded)
}

} // verus!
