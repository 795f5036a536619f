//! Walking through the whole index, one block at a time.
use vstd::prelude::*;

use crate::big_endian::{lemma_be_value_bound, lemma_spans};
use crate::btree::{
    child_entries, children_entries, is_link, joined, leaf_entries, lemma_child_piece, link_target,
    node_at, node_entries, subtree_entries, tree_entries, LINK_MARK,
};
use crate::btree_node::{node_of, NodeView, OnDiskNode};
use crate::format::{block_of, PAGE_SZ};
use crate::index_read::{index_blocks, lemma_index_block, read_error, ReadError};
use crate::key::KEY_SIZE;
use crate::text::{decimal, hex_encode, hex_lower, put_decimal};

verus! {

/// The entries of the tree in block `place.0`, whose root is at level `place.1`
/// where that is known.
pub open spec fn place_entries(blocks: Seq<Seq<u8>>, place: (u32, Option<u8>)) -> Option<
    Seq<(nat, nat)>,
> {
    match place.1 {
        Some(level) => subtree_entries(blocks, place.0 as int, level as nat),
        None => tree_entries(blocks, place.0 as int),
    }
}

/// The entries of the trees on a stack, from the top down.
pub open spec fn pending_entries(blocks: Seq<Seq<u8>>, stack: Seq<(u32, Option<u8>)>) -> Option<
    Seq<(nat, nat)>,
>
    decreases stack.len(),
{
    if stack.len() == 0 {
        Some(Seq::<(nat, nat)>::empty())
    } else {
        joined(
            place_entries(blocks, stack.last()),
            pending_entries(blocks, stack.drop_last()),
        )
    }
}

/// The children of a node from the last one down to child `from`.
pub open spec fn children_down(node: NodeView, from: int) -> Seq<(u32, Option<u8>)> {
    let count = node.keys.len();
    Seq::new(
        (count - from) as nat,
        |i: int|
            (link_target(node.values[count - 1 - i]) as u32, Some((node.level - 1) as u8)),
    )
}

/// The places that a node leads to, the first on top: those of its children, or
/// none if it is a leaf.
pub open spec fn places_below(node: NodeView) -> Seq<(u32, Option<u8>)> {
    if node.level == 0 {
        Seq::<(u32, Option<u8>)>::empty()
    } else {
        children_down(node, 0)
    }
}

/// Whether a node belongs in a place: it is at the level of the place, where that
/// is known, and above the leaves all its values are links.
pub open spec fn belongs(node: NodeView, place: (u32, Option<u8>)) -> bool {
    &&& place.1 is Some ==> node.level == place.1->0
    &&& node.level > 0 ==> forall|i: int|
        0 <= i < node.values.len() ==> is_link(#[trigger] node.values[i])
}

/// What is pending once the children of a node from `from` on are on the stack:
/// their entries, in order, and what was pending before.
proof fn lemma_children_down(
    blocks: Seq<Seq<u8>>,
    node: NodeView,
    stack: Seq<(u32, Option<u8>)>,
    from: nat,
)
    requires
        0 < node.level <= u8::MAX,
        node.keys.len() == node.values.len(),
        children_entries(blocks, node, node.level, node.keys.len()) is Some,
        pending_entries(blocks, stack) is Some,
        from <= node.keys.len(),
    ensures
        children_entries(blocks, node, node.level, from) is Some,
        children_entries(blocks, node, node.level, from)->0.len() <= children_entries(
            blocks,
            node,
            node.level,
            node.keys.len(),
        )->0.len(),
        pending_entries(blocks, stack + children_down(node, from as int)) == Some(
            children_entries(blocks, node, node.level, node.keys.len())->0.skip(
                children_entries(blocks, node, node.level, from)->0.len() as int,
            ) + pending_entries(blocks, stack)->0,
        ),
    decreases node.keys.len() - from,
{
    let count = node.keys.len();
    let all = children_entries(blocks, node, node.level, count)->0;
    let rest = pending_entries(blocks, stack)->0;
    if from == count {
        assert(stack + children_down(node, from as int) =~= stack);
        assert(all.skip(all.len() as int) + rest =~= rest);
    } else {
        lemma_children_down(blocks, node, stack, from + 1);
        let tail = lemma_child_piece(blocks, node, node.level, count, from as int);
        let head = children_entries(blocks, node, node.level, from)->0;
        let piece = child_entries(blocks, node, node.level, from as int)->0;
        let lower = stack + children_down(node, (from + 1) as int);
        let upper = stack + children_down(node, from as int);
        let place = (link_target(node.values[from as int]) as u32, Some((node.level - 1) as u8));
        assert(upper =~= lower.push(place));
        assert(upper.drop_last() =~= lower);
        assert(place_entries(blocks, place) == Some(piece));
        assert(children_entries(blocks, node, node.level, from + 1) == Some(head + piece));
        assert(piece + (all.skip((head + piece).len() as int) + rest) =~= all.skip(
            head.len() as int,
        ) + rest);
    }
}

/// How many blocks there can be in a tree whose root is at `level`: a node has
/// fewer than 0x1_0000 children.
spec fn tree_bound(level: nat) -> nat
    decreases level,
{
    if level == 0 {
        0x1_0000
    } else {
        0x1_0000 * tree_bound((level - 1) as nat)
    }
}

/// How many blocks there can be in the tree at a place of a stack. A root whose
/// level is not known is taken to be above all levels.
spec fn place_bound(place: (u32, Option<u8>)) -> nat {
    match place.1 {
        Some(level) => tree_bound(level as nat),
        None => tree_bound(256),
    }
}

/// How many blocks there can be in the trees on a stack.
spec fn stack_bound(stack: Seq<(u32, Option<u8>)>) -> nat
    decreases stack.len(),
{
    if stack.len() == 0 {
        0
    } else {
        place_bound(stack.last()) + stack_bound(stack.drop_last())
    }
}

/// A tree of more levels can have more blocks.
proof fn lemma_tree_bound(low: nat, high: nat)
    requires
        low <= high,
    ensures
        0 < tree_bound(low) <= tree_bound(high),
    decreases high,
{
    if low < high {
        lemma_tree_bound(low, (high - 1) as nat);
    } else if low > 0 {
        lemma_tree_bound((low - 1) as nat, (low - 1) as nat);
    }
}

/// How many blocks there can be once the children of a node from `from` on are on
/// the stack.
proof fn lemma_children_bound(node: NodeView, stack: Seq<(u32, Option<u8>)>, from: nat)
    requires
        0 < node.level <= u8::MAX,
        from <= node.keys.len(),
    ensures
        stack_bound(stack + children_down(node, from as int)) == stack_bound(stack) + (
        node.keys.len() - from) * tree_bound((node.level - 1) as nat),
    decreases node.keys.len() - from,
{
    let count = node.keys.len();
    let each = tree_bound((node.level - 1) as nat);
    if from == count {
        assert(stack + children_down(node, from as int) =~= stack);
        assert((count - from) * each == 0) by (nonlinear_arith)
            requires
                count == from,
        ;
    } else {
        lemma_children_bound(node, stack, from + 1);
        let lower = stack + children_down(node, (from + 1) as int);
        let upper = stack + children_down(node, from as int);
        let place = (link_target(node.values[from as int]) as u32, Some((node.level - 1) as u8));
        assert(upper =~= lower.push(place));
        assert(upper.drop_last() =~= lower);
        assert((count - from) * each == (count - (from + 1)) * each + each) by (nonlinear_arith);
    }
}

/// There are fewer blocks left once a node has made place for its children.
proof fn lemma_supplied(
    block: Seq<u8>,
    node: NodeView,
    before: Seq<(u32, Option<u8>)>,
    added: Seq<(u32, Option<u8>)>,
)
    requires
        node_of(block) == Some(node),
        before.len() > 0,
        before.last().1 is Some ==> node.level == before.last().1->0,
        node.level == 0 ==> added.len() == 0,
        node.level > 0 ==> added == children_down(node, 0),
    ensures
        stack_bound(before.drop_last() + added) < stack_bound(before),
{
    let rest = before.drop_last();
    lemma_spans();
    lemma_be_value_bound(block.subrange(0, 2));
    lemma_tree_bound(node.level, node.level);
    lemma_tree_bound(node.level, 256);
    if node.level == 0 {
        assert(rest + added =~= rest);
    } else {
        let count = node.keys.len();
        let each = tree_bound((node.level - 1) as nat);
        lemma_tree_bound((node.level - 1) as nat, (node.level - 1) as nat);
        lemma_children_bound(node, rest, 0);
        assert((count - 0) * each < 0x1_0000 * each) by (nonlinear_arith)
            requires
                0 <= count < 0x1_0000,
                0 < each,
        ;
    }
}

/// A walk through the index of a file, each node before its children.
pub struct IndexWalk {
    start: u32,
    stack: Vec<(u32, Option<u8>)>,
}

impl IndexWalk {
    /// The block of the file where the index starts.
    pub closed spec fn index_start(self) -> int {
        self.start as int
    }

    /// The places that the walk has yet to come to, the next one last: each is a
    /// block of the index, and the level of the node there, where it is known.
    pub closed spec fn places(self) -> Seq<(u32, Option<u8>)> {
        self.stack@
    }

    /// Whether the walk is over.
    pub open spec fn is_over(self) -> bool {
        self.places().len() == 0
    }

    /// The block of the file that is needed next.
    pub open spec fn block(self) -> int {
        self.index_start() + self.places().last().0
    }

    /// Whether a node is what the walk needs next.
    pub open spec fn awaits(self, node: NodeView) -> bool {
        belongs(node, self.places().last())
    }

    /// The entries of `file` that the walk has yet to come to, unless a node on
    /// the way is malformed.
    pub open spec fn pending(self, file: Seq<u8>) -> Option<Seq<(nat, nat)>> {
        pending_entries(index_blocks(file, self.index_start()), self.places())
    }

    /// A bound on the blocks that are still needed. It goes down with each block.
    pub closed spec fn blocks_left(self) -> nat {
        stack_bound(self.stack@)
    }

    /// A file that lacks the block that is needed has no sound index.
    pub proof fn law_missing_block(self, file: Seq<u8>)
        requires
            !self.is_over(),
            block_of(file, self.block()) is None,
        ensures
            self.pending(file) is None,
    {
        lemma_index_block(file, self.start as int, self.stack@.last().0 as int);
    }

    /// When the walk is over, no entries are left.
    pub proof fn law_over(self, file: Seq<u8>)
        requires
            self.is_over(),
        ensures
            self.pending(file) == Some(Seq::<(nat, nat)>::empty()),
    {
    }

    /// Walks through the index that starts in block `start` of a file and has its
    /// root in the `root`-th block from there.
    pub fn new(start: u32, root: u32) -> (walk: IndexWalk)
        ensures
            walk.index_start() == start,
            walk.places() == seq![(root, None::<u8>)],
            !walk.is_over(),
            walk.block() == start + root,
            forall|file: Seq<u8>| #[trigger]
                walk.pending(file) == tree_entries(index_blocks(file, start as int), root as int),
    {
        let mut stack: Vec<(u32, Option<u8>)> = Vec::new();
        stack.push((root, None));
        let walk = IndexWalk { start, stack };
        assert forall|file: Seq<u8>| #[trigger] walk.pending(file) == tree_entries(
            index_blocks(file, start as int),
            root as int,
        ) by {
            let blocks = index_blocks(file, start as int);
            let none = Seq::<(u32, Option<u8>)>::empty();
            assert(walk.stack@.drop_last() =~= none);
            assert(pending_entries(blocks, none) == Some(Seq::<(nat, nat)>::empty()));
            if let Some(entries) = tree_entries(blocks, root as int) {
                assert(entries + Seq::<(nat, nat)>::empty() =~= entries);
            }
        }
        walk
    }

    /// The block of the file that is needed next, unless the walk is over.
    pub fn next_block(&self) -> (number: Option<u64>)
        ensures
            match number {
                Some(number) => !self.is_over() && number == self.block(),
                None => self.is_over(),
            },
    {
        let len: usize = self.stack.len();
        if len == 0 {
            None
        } else {
            Some(self.start as u64 + self.stack[len - 1].0 as u64)
        }
    }

    /// Goes on with the block that was needed. Gives the node that it holds: its
    /// entries come next, if it is a leaf. If that fails, nothing changes.
    pub fn supply(&mut self, block: &[u8]) -> (result: Result<OnDiskNode, ReadError>)
        requires
            !old(self).is_over(),
        ensures
            block@.len() != PAGE_SZ ==> result == Err::<OnDiskNode, ReadError>(
                ReadError::BlockSize,
            ),
            result is Ok <==> block@.len() == PAGE_SZ && (node_of(block@) matches Some(node)
                && old(self).awaits(node)),
            result is Ok ==> final(self).blocks_left() < old(self).blocks_left(),
            result is Err ==> *final(self) == *old(self),
            match result {
                Ok(node) => {
                    &&& node_of(block@) == Some(node@)
                    &&& final(self).index_start() == old(self).index_start()
                    &&& final(self).places() == old(self).places().drop_last() + places_below(node@)
                    &&& forall|file: Seq<u8>|
                        block_of(file, old(self).block()) == Some(block@) && (#[trigger] old(
                            self,
                        ).pending(file)) is Some ==> final(self).pending(file) is Some && old(
                            self,
                        ).pending(file)->0 == (if node@.level == 0 {
                            leaf_entries(node@)
                        } else {
                            Seq::<(nat, nat)>::empty()
                        }) + final(self).pending(file)->0
                },
                Err(error) => {
                    &&& error == read_error(block@, old(self).block())
                    &&& forall|file: Seq<u8>|
                        block_of(file, old(self).block()) == Some(block@) ==> (#[trigger] old(
                            self,
                        ).pending(file)) is None
                },
            },
    {
        if block.len() != PAGE_SZ {
            return Err(ReadError::BlockSize);
        }
        let ghost start = self.start as int;
        let ghost before = self.stack@;
        let ghost rest = before.drop_last();
        let len: usize = self.stack.len();
        let (at, level): (u32, Option<u8>) = self.stack[len - 1];
        let number: u64 = self.start as u64 + at as u64;
        proof {
            assert forall|file: Seq<u8>| block_of(file, number as int) == Some(
                block@,
            ) implies node_at(#[trigger] index_blocks(file, start), at as int) == node_of(
                block@,
            ) by {
                lemma_index_block(file, start, at as int);
            }
        }
        let node = match OnDiskNode::deparse(block) {
            Some(node) => node,
            None => {
                return Err(ReadError::MalformedNode(number));
            },
        };
        if let Some(level) = level {
            if node.level != level {
                return Err(ReadError::MalformedNode(number));
            }
        }
        let mut children: Vec<(u32, Option<u8>)> = Vec::new();
        if node.level > 0 {
            let count: usize = node.keys.len();
            let mut from: usize = count;
            assert(children@ =~= children_down(node@, count as int));
            while from > 0
                invariant
                    *self == *old(self),
                    start == self.start,
                    from <= count == node@.keys.len() == node@.values.len() == node.values@.len(),
                    0 < node.level == node@.level,
                    children@ == children_down(node@, from as int),
                    forall|i: int|
                        from <= i < count ==> is_link(#[trigger] node@.values[i]),
                    node_of(block@) == Some(node@),
                    block@.len() == PAGE_SZ,
                    before == old(self).stack@,
                    before.len() > 0,
                    before.last() == (at, level),
                    number == start + at,
                    level is Some ==> level->0 == node.level,
                    forall|file: Seq<u8>|
                        block_of(file, number as int) == Some(block@) ==> node_at(
                            #[trigger] index_blocks(file, start),
                            at as int,
                        ) == node_of(block@),
                decreases from,
            {
                assert(node@.values[from - 1] == node.values@[from - 1]);
                let value: u64 = node.values[from - 1];
                if value < LINK_MARK || value - LINK_MARK > u32::MAX as u64 {
                    proof {
                        assert forall|file: Seq<u8>| block_of(file, number as int) == Some(
                            block@,
                        ) implies (#[trigger] old(self).pending(file)) is None by {
                            let blocks = index_blocks(file, start);
                            if children_entries(blocks, node@, node@.level, count as nat) is Some {
                                let tail = lemma_child_piece(
                                    blocks,
                                    node@,
                                    node@.level,
                                    count as nat,
                                    from - 1,
                                );
                            }
                        }
                    }
                    assert(!is_link(node@.values[from - 1]));
                    return Err(ReadError::MalformedNode(number));
                }
                let target: u32 = (value - LINK_MARK) as u32;
                children.push((target, Some(node.level - 1)));
                from = from - 1;
                assert(children@ =~= children_down(node@, from as int));
            }
        }
        let ghost added = children@;
        let _place: Option<(u32, Option<u8>)> = self.stack.pop();
        self.stack.append(&mut children);
        proof {
            assert(self.stack@ =~= rest + added);
            assert(added =~= places_below(node@));
            lemma_supplied(block@, node@, before, added);
            assert forall|file: Seq<u8>|
                block_of(file, old(self).block()) == Some(block@) && (#[trigger] old(self).pending(
                    file,
                )) is Some implies self.pending(file) is Some && old(self).pending(file)->0 == (
            if node@.level == 0 {
                leaf_entries(node@)
            } else {
                Seq::<(nat, nat)>::empty()
            }) + self.pending(file)->0 by {
                let blocks = index_blocks(file, start);
                assert(node_at(blocks, at as int) == Some(node@));
                assert(place_entries(blocks, before.last()) == node_entries(
                    blocks,
                    node@,
                    node@.level,
                ));
                if node@.level > 0 {
                    lemma_children_down(blocks, node@, rest, 0);
                    let all = children_entries(blocks, node@, node@.level, node@.keys.len())->0;
                    assert(children_entries(blocks, node@, node@.level, 0)->0.len() == 0);
                    assert(all.skip(0) =~= all);
                    assert(Seq::<(nat, nat)>::empty() + self.pending(file)->0
                        =~= self.pending(file)->0);
                } else {
                    assert(self.stack@ =~= rest);
                }
            }
        }
        Ok(node)
    }
}

/// The line that shows an entry of the index.
pub open spec fn entry_line(key: Seq<u8>, offset: nat) -> Seq<char> {
    "key: "@ + hex_lower(key) + " offset "@ + decimal(offset)
}

/// The line that shows an entry of the index: its key in hexadecimal, and the
/// offset of its value.
pub fn show_entry(key: &[u8; KEY_SIZE], offset: u64) -> (line: String)
    ensures
        line@ == entry_line(key@, offset as nat),
{
    let mut line: String = String::new();
    line.append("key: ");
    line.append(hex_encode(key.as_slice()).as_str());
    line.append(" offset ");
    put_decimal(&mut line, offset);
    assert(line@ =~= entry_line(key@, offset as nat));
    line
}

/// The lines that show the entries of a leaf, in order. A node above the leaves
/// has none.
pub fn show_leaf(node: &OnDiskNode) -> (lines: Vec<String>)
    requires
        node.keys@.len() == node.values@.len(),
    ensures
        lines@.len() == if node.level == 0 {
            node.keys@.len()
        } else {
            0
        },
        forall|i: int|
            0 <= i < lines@.len() ==> (#[trigger] lines@[i])@ == entry_line(
                node.keys@[i]@,
                node.values@[i] as nat,
            ),
{
    let mut lines: Vec<String> = Vec::new();
    if node.level > 0 {
        return lines;
    }
    let mut at: usize = 0;
    while at < node.keys.len()
        invariant
            at <= node.keys@.len() == node.values@.len(),
            lines@.len() == at,
            forall|i: int|
                0 <= i < lines@.len() ==> (#[trigger] lines@[i])@ == entry_line(
                    node.keys@[i]@,
                    node.values@[i] as nat,
                ),
        decreases node.keys@.len() - at,
    {
        lines.push(show_entry(&node.keys[at], node.values[at]));
        at = at + 1;
    }
    lines
}

/// The line that shows a node of the index.
pub open spec fn node_line(block: nat, level: nat, entries: nat) -> Seq<char> {
    "blk #"@ + decimal(block) + ": level "@ + decimal(level) + " entries "@ + decimal(entries)
}

/// The line that shows a node of the index: its block, its level, and how many
/// entries it has.
pub fn show_node(block: u64, node: &OnDiskNode) -> (line: String)
    ensures
        line@ == node_line(block as nat, node@.level, node@.keys.len()),
{
    let mut line: String = String::new();
    line.append("blk #");
    put_decimal(&mut line, block);
    line.append(": level ");
    put_decimal(&mut line, node.level as u64);
    line.append(" entries ");
    put_decimal(&mut line, node.keys.len() as u64);
    assert(line@ =~= node_line(block as nat, node@.level, node@.keys.len()));
    line
}

} // verus!
