//! The index as a whole: a B-tree of nodes, one to a block.
//!
//! A value of a leaf is an offset into the file. A value of a node above the
//! leaves is a link: the number of the block of a child, whose first key the
//! entry holds.
use vstd::prelude::*;

use crate::btree_node::{ascending, lemma_rank, node_of, rank, NodeView};

verus! {

/// What marks a value as a link to a child.
pub const LINK_MARK: u64 = 0x80_0000_0000;

/// The largest offset that a leaf can hold.
pub const MAX_VALUE: u64 = 0x7f_ffff_ffff;

/// Whether a value is a link to a child.
pub open spec fn is_link(value: nat) -> bool {
    LINK_MARK <= value < LINK_MARK + 0x1_0000_0000
}

/// The block that a link leads to, counted from the first block of the index.
pub open spec fn link_target(value: nat) -> int {
    value - LINK_MARK
}

/// The node in block `block` of the index.
pub open spec fn node_at(blocks: Seq<Seq<u8>>, block: int) -> Option<NodeView> {
    if 0 <= block < blocks.len() {
        node_of(blocks[block])
    } else {
        None
    }
}

/// Two runs of entries as one, where both are there.
pub open spec fn joined(
    front: Option<Seq<(nat, nat)>>,
    back: Option<Seq<(nat, nat)>>,
) -> Option<Seq<(nat, nat)>> {
    match (front, back) {
        (Some(front), Some(back)) => Some(front + back),
        _ => None,
    }
}

/// The entries of a leaf.
pub open spec fn leaf_entries(node: NodeView) -> Seq<(nat, nat)> {
    Seq::new(node.keys.len(), |i: int| (node.keys[i], node.values[i]))
}

/// The entries below child `i` of a node at `level`: those that its link leads
/// to, if there are any and the first has the key that the node gives.
pub open spec fn child_entries(
    blocks: Seq<Seq<u8>>,
    node: NodeView,
    level: nat,
    i: int,
) -> Option<Seq<(nat, nat)>>
    decreases level, 0nat, 0nat,
{
    if level == 0 || !is_link(node.values[i]) {
        None
    } else {
        match subtree_entries(blocks, link_target(node.values[i]), (level - 1) as nat) {
            Some(entries) => if entries.len() > 0 && entries[0].0 == node.keys[i] {
                Some(entries)
            } else {
                None
            },
            None => None,
        }
    }
}

/// The entries below the first `count` children of a node at `level`.
pub open spec fn children_entries(
    blocks: Seq<Seq<u8>>,
    node: NodeView,
    level: nat,
    count: nat,
) -> Option<Seq<(nat, nat)>>
    decreases level, 1nat, count,
{
    if count == 0 {
        Some(Seq::<(nat, nat)>::empty())
    } else {
        joined(
            children_entries(blocks, node, level, (count - 1) as nat),
            child_entries(blocks, node, level, count - 1),
        )
    }
}

/// The entries that a node leads to, in order.
pub open spec fn node_entries(blocks: Seq<Seq<u8>>, node: NodeView, level: nat) -> Option<
    Seq<(nat, nat)>,
>
    decreases level, 2nat, 0nat,
{
    if level == 0 {
        Some(leaf_entries(node))
    } else {
        children_entries(blocks, node, level, node.keys.len())
    }
}

/// The entries, in order, of the tree whose root is in block `block` and is at
/// `level`. There are none to give where the tree is malformed.
pub open spec fn subtree_entries(blocks: Seq<Seq<u8>>, block: int, level: nat) -> Option<
    Seq<(nat, nat)>,
>
    decreases level, 3nat, 0nat,
{
    match node_at(blocks, block) {
        Some(node) => if node.level == level {
            node_entries(blocks, node, level)
        } else {
            None
        },
        None => None,
    }
}

/// Whether the keys of the entries ascend.
pub open spec fn sorted(entries: Seq<(nat, nat)>) -> bool {
    forall|i: int, j: int| 0 <= i < j < entries.len() ==> (#[trigger] entries[i]).0 < (
    #[trigger] entries[j]).0
}

/// What a search in the index comes to.
pub enum Search {
    /// The key is there, with this offset.
    Found(nat),
    /// The key is not there.
    Absent,
    /// A node on the way is malformed.
    Broken,
}

/// What entries say of a key.
pub open spec fn lookup(entries: Seq<(nat, nat)>, key: nat) -> Search
    decreases entries.len(),
{
    if entries.len() == 0 {
        Search::Absent
    } else if entries.last().0 == key {
        Search::Found(entries.last().1)
    } else {
        lookup(entries.drop_last(), key)
    }
}

/// The child of a node to look for a key in: the last one whose first key is at
/// most the key, or the first one.
pub open spec fn child_for(keys: Seq<nat>, key: nat) -> int {
    if rank(keys, key) > 0 {
        rank(keys, key) - 1
    } else {
        0
    }
}

/// Searches the tree whose root is in block `block` and is at `level`.
pub open spec fn search(blocks: Seq<Seq<u8>>, block: int, level: nat, key: nat) -> Search
    decreases level,
{
    match node_at(blocks, block) {
        None => Search::Broken,
        Some(node) => {
            let at = child_for(node.keys, key);
            if node.level != level {
                Search::Broken
            } else if level == 0 {
                if node.keys.len() > 0 && node.keys[at] == key {
                    Search::Found(node.values[at])
                } else {
                    Search::Absent
                }
            } else if node.keys.len() == 0 || !is_link(node.values[at]) {
                Search::Broken
            } else {
                search(blocks, link_target(node.values[at]), (level - 1) as nat, key)
            }
        },
    }
}

/// Searches the tree whose root is in block `root`, whatever its level.
pub open spec fn search_tree(blocks: Seq<Seq<u8>>, root: int, key: nat) -> Search {
    match node_at(blocks, root) {
        Some(node) => search(blocks, root, node.level, key),
        None => Search::Broken,
    }
}

/// The entries of the tree whose root is in block `root`, whatever its level.
pub open spec fn tree_entries(blocks: Seq<Seq<u8>>, root: int) -> Option<Seq<(nat, nat)>> {
    match node_at(blocks, root) {
        Some(node) => subtree_entries(blocks, root, node.level),
        None => None,
    }
}

/// An entry of sorted entries is the one that its key finds.
pub proof fn lemma_lookup_found(entries: Seq<(nat, nat)>, at: int)
    requires
        sorted(entries),
        0 <= at < entries.len(),
    ensures
        lookup(entries, entries[at].0) == Search::Found(entries[at].1),
    decreases entries.len(),
{
    if at < entries.len() - 1 {
        let front = entries.drop_last();
        assert(sorted(front)) by {
            assert forall|i: int, j: int| 0 <= i < j < front.len() implies (#[trigger] front[i]).0
                < (#[trigger] front[j]).0 by {
                assert(front[i] == entries[i] && front[j] == entries[j]);
            }
        }
        assert(front[at] == entries[at]);
        lemma_lookup_found(front, at);
        assert(entries[at].0 < entries[entries.len() - 1].0);
    }
}

/// A key that no entry has is not found.
pub proof fn lemma_lookup_absent(entries: Seq<(nat, nat)>, key: nat)
    requires
        forall|i: int| 0 <= i < entries.len() ==> (#[trigger] entries[i]).0 != key,
    ensures
        lookup(entries, key) == Search::Absent,
    decreases entries.len(),
{
    if entries.len() > 0 {
        let front = entries.drop_last();
        assert forall|i: int| 0 <= i < front.len() implies (#[trigger] front[i]).0 != key by {
            assert(front[i] == entries[i]);
        }
        assert(entries[entries.len() - 1].0 != key);
        lemma_lookup_absent(front, key);
    }
}

/// The entries below child `at` stand in one piece among those of all the
/// children, and what follows them starts with the next child's key.
pub proof fn lemma_child_piece(
    blocks: Seq<Seq<u8>>,
    node: NodeView,
    level: nat,
    count: nat,
    at: int,
) -> (tail: Seq<(nat, nat)>)
    requires
        children_entries(blocks, node, level, count) is Some,
        0 <= at < count,
    ensures
        children_entries(blocks, node, level, at as nat) is Some,
        child_entries(blocks, node, level, at) is Some,
        children_entries(blocks, node, level, count)->0 == children_entries(
            blocks,
            node,
            level,
            at as nat,
        )->0 + child_entries(blocks, node, level, at)->0 + tail,
        at + 1 == count ==> tail.len() == 0,
        at + 1 < count ==> tail.len() > 0 && tail[0].0 == node.keys[at + 1],
    decreases count,
{
    let whole = children_entries(blocks, node, level, count)->0;
    let last = child_entries(blocks, node, level, count - 1)->0;
    if at + 1 == count {
        let tail = Seq::<(nat, nat)>::empty();
        assert(whole =~= children_entries(blocks, node, level, at as nat)->0 + child_entries(
            blocks,
            node,
            level,
            at,
        )->0 + tail);
        tail
    } else {
        let inner = lemma_child_piece(blocks, node, level, (count - 1) as nat, at);
        let tail = inner + last;
        assert(whole =~= children_entries(blocks, node, level, at as nat)->0 + child_entries(
            blocks,
            node,
            level,
            at,
        )->0 + tail);
        tail
    }
}

/// Searching a tree finds what its entries say.
pub proof fn lemma_search_entries(blocks: Seq<Seq<u8>>, block: int, level: nat, key: nat)
    requires
        subtree_entries(blocks, block, level) is Some,
        sorted(subtree_entries(blocks, block, level)->0),
        level > 0 ==> subtree_entries(blocks, block, level)->0.len() > 0,
    ensures
        search(blocks, block, level, key) == lookup(
            subtree_entries(blocks, block, level)->0,
            key,
        ),
    decreases level,
{
    let node = node_at(blocks, block)->0;
    let entries = subtree_entries(blocks, block, level)->0;
    lemma_node_ascends(blocks, block);
    lemma_rank(node.keys, key);
    let found = rank(node.keys, key);
    let at = child_for(node.keys, key);
    if level == 0 {
        if node.keys.len() > 0 && node.keys[at] == key {
            assert(entries[at] == (node.keys[at], node.values[at]));
            lemma_lookup_found(entries, at);
        } else {
            assert forall|i: int| 0 <= i < entries.len() implies (#[trigger] entries[i]).0
                != key by {
                assert(entries[i].0 == node.keys[i]);
                if i < at {
                    assert(node.keys[i] < node.keys[at]);
                }
            }
            lemma_lookup_absent(entries, key);
        }
    } else {
        let count = node.keys.len();
        assert(count > 0);
        let tail = lemma_child_piece(blocks, node, level, count, at);
        let head = children_entries(blocks, node, level, at as nat)->0;
        let piece = child_entries(blocks, node, level, at)->0;
        assert(entries == head + piece + tail);
        assert forall|i: int| 0 <= i < piece.len() implies (#[trigger] piece[i]) == entries[
            head.len() + i] by {}
        assert(sorted(piece)) by {
            assert forall|i: int, j: int| 0 <= i < j < piece.len() implies (#[trigger] piece[i]).0
                < (#[trigger] piece[j]).0 by {
                assert(entries[head.len() + i].0 < entries[head.len() + j].0);
            }
        }
        lemma_search_entries(blocks, link_target(node.values[at]), (level - 1) as nat, key);
        if exists|i: int| 0 <= i < piece.len() && (#[trigger] piece[i]).0 == key {
            let i = choose|i: int| 0 <= i < piece.len() && (#[trigger] piece[i]).0 == key;
            lemma_lookup_found(piece, i);
            lemma_lookup_found(entries, head.len() + i);
        } else {
            lemma_lookup_absent(piece, key);
            assert forall|i: int| 0 <= i < entries.len() implies (#[trigger] entries[i]).0
                != key by {
                let first = head.len() as int;
                let past = head.len() + piece.len();
                assert(entries[first] == piece[0]);
                if i < first {
                    assert(entries[i].0 < entries[first].0);
                    if found == 0 {
                        assert(at == 0);
                        assert(false);
                    }
                } else if i < past {
                    assert(piece[i - first] == entries[i]);
                } else {
                    assert(tail[0] == entries[past as int]);
                    assert(at + 1 < count);
                    if i > past {
                        assert(entries[past as int].0 < entries[i].0);
                    }
                    if found == 0 {
                        assert(node.keys[0] > key);
                    }
                    assert(node.keys[at + 1] > key);
                }
            }
            lemma_lookup_absent(entries, key);
        }
    }
}

/// The keys of a node that a block holds ascend.
pub proof fn lemma_node_ascends(blocks: Seq<Seq<u8>>, block: int)
    requires
        node_at(blocks, block) is Some,
    ensures
        ascending(node_at(blocks, block)->0.keys),
        node_at(blocks, block)->0.keys.len() == node_at(blocks, block)->0.values.len(),
{
}

/// Further blocks leave the entries below a child as they are.
pub proof fn lemma_child_stable(
    blocks: Seq<Seq<u8>>,
    more: Seq<Seq<u8>>,
    node: NodeView,
    level: nat,
    i: int,
)
    requires
        blocks.is_prefix_of(more),
        child_entries(blocks, node, level, i) is Some,
    ensures
        child_entries(more, node, level, i) == child_entries(blocks, node, level, i),
    decreases level, 0nat, 0nat,
{
    lemma_subtree_stable(blocks, more, link_target(node.values[i]), (level - 1) as nat);
}

/// Further blocks leave the entries below children as they are.
pub proof fn lemma_children_stable(
    blocks: Seq<Seq<u8>>,
    more: Seq<Seq<u8>>,
    node: NodeView,
    level: nat,
    count: nat,
)
    requires
        blocks.is_prefix_of(more),
        children_entries(blocks, node, level, count) is Some,
    ensures
        children_entries(more, node, level, count) == children_entries(blocks, node, level, count),
    decreases level, 1nat, count,
{
    if count > 0 {
        lemma_children_stable(blocks, more, node, level, (count - 1) as nat);
        lemma_child_stable(blocks, more, node, level, count - 1);
    }
}

/// Further blocks leave the entries that a node leads to as they are.
pub proof fn lemma_node_stable(
    blocks: Seq<Seq<u8>>,
    more: Seq<Seq<u8>>,
    node: NodeView,
    level: nat,
)
    requires
        blocks.is_prefix_of(more),
        node_entries(blocks, node, level) is Some,
    ensures
        node_entries(more, node, level) == node_entries(blocks, node, level),
    decreases level, 2nat, 0nat,
{
    if level > 0 {
        lemma_children_stable(blocks, more, node, level, node.keys.len());
    }
}

/// Further blocks leave the entries of a tree as they are.
pub proof fn lemma_subtree_stable(
    blocks: Seq<Seq<u8>>,
    more: Seq<Seq<u8>>,
    block: int,
    level: nat,
)
    requires
        blocks.is_prefix_of(more),
        subtree_entries(blocks, block, level) is Some,
    ensures
        subtree_entries(more, block, level) == subtree_entries(blocks, block, level),
    decreases level, 3nat, 0nat,
{
    assert(more[block] == blocks[block]);
    lemma_node_stable(blocks, more, node_at(blocks, block)->0, level);
}

/// Whether the tree in `blocks` whose root is in block `root` is the index of
/// `entries`: a sound tree with these entries, in ascending order. Without
/// entries it is a single leaf.
pub open spec fn is_index_of(
    blocks: Seq<Seq<u8>>,
    root: int,
    entries: Seq<(nat, nat)>,
) -> bool {
    &&& tree_entries(blocks, root) == Some(entries)
    &&& sorted(entries)
    &&& entries.len() == 0 ==> node_at(blocks, root)->0.level == 0
}

/// An index finds each key that has an entry, and no other, whatever blocks
/// follow it.
pub proof fn law_index_search(
    blocks: Seq<Seq<u8>>,
    more: Seq<Seq<u8>>,
    root: int,
    entries: Seq<(nat, nat)>,
    key: nat,
)
    requires
        is_index_of(blocks, root, entries),
        blocks.is_prefix_of(more),
    ensures
        search_tree(more, root, key) == lookup(entries, key),
        tree_entries(more, root) == Some(entries),
{
    let level = node_at(blocks, root)->0.level;
    assert(more[root] == blocks[root]);
    lemma_subtree_stable(blocks, more, root, level);
    lemma_search_entries(more, root, level, key);
}

/// The entries below the first children depend on the first keys and values
/// alone.
pub proof fn lemma_children_prefix(
    blocks: Seq<Seq<u8>>,
    node: NodeView,
    longer: NodeView,
    level: nat,
    count: nat,
)
    requires
        count <= node.keys.len() == node.values.len(),
        node.keys.is_prefix_of(longer.keys),
        node.values.is_prefix_of(longer.values),
    ensures
        children_entries(blocks, longer, level, count) == children_entries(
            blocks,
            node,
            level,
            count,
        ),
    decreases count,
{
    if count > 0 {
        lemma_children_prefix(blocks, node, longer, level, (count - 1) as nat);
        assert(longer.keys[count - 1] == node.keys[count - 1]);
        assert(longer.values[count - 1] == node.values[count - 1]);
        assert(child_entries(blocks, longer, level, count - 1) == child_entries(
            blocks,
            node,
            level,
            count - 1,
        ));
    }
}

} // verus!
