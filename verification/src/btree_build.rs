//! Builds the index in one pass, from keys that come in ascending order.
use vstd::prelude::*;

use crate::big_endian::{be_less, be_value, lemma_spans, span};
use crate::btree::{
    child_entries, children_entries, is_index_of, is_link, joined, leaf_entries, link_target,
    node_at, node_entries, sorted, subtree_entries, LINK_MARK, MAX_VALUE,
};
use crate::btree::{
    lemma_child_piece, lemma_child_stable, lemma_children_prefix, lemma_node_stable,
    lemma_subtree_stable,
};
use crate::btree_node::{BuildNode, NodeView, MIN_FULL};
use crate::format::PAGE_SZ;
use crate::key::KEY_SIZE;

verus! {

/// Two to the power of `n`.
pub open spec fn doublings(n: nat) -> nat
    decreases n,
{
    if n == 0 {
        1
    } else {
        2 * doublings((n - 1) as nat)
    }
}

/// What the nodes of the stack say.
pub open spec fn views(stack: Seq<BuildNode>) -> Seq<NodeView> {
    Seq::new(stack.len(), |i: int| stack[i]@)
}

/// The bytes of the blocks.
pub open spec fn block_views(blocks: Seq<Vec<u8>>) -> Seq<Seq<u8>> {
    Seq::new(blocks.len(), |i: int| blocks[i]@)
}

/// The entries that the nodes of a stack lead to, from the root down.
pub open spec fn stack_entries(blocks: Seq<Seq<u8>>, nodes: Seq<NodeView>) -> Option<
    Seq<(nat, nat)>,
>
    decreases nodes.len(),
{
    if nodes.len() == 0 {
        Some(Seq::<(nat, nat)>::empty())
    } else {
        joined(
            stack_entries(blocks, nodes.drop_last()),
            node_entries(blocks, nodes.last(), nodes.last().level),
        )
    }
}

/// How many entries the nodes of a stack have among them.
pub open spec fn stack_len(nodes: Seq<NodeView>) -> nat
    decreases nodes.len(),
{
    if nodes.len() == 0 {
        0
    } else {
        stack_len(nodes.drop_last()) + nodes.last().keys.len()
    }
}

/// Whether the levels of a stack go down by one from each node to the next.
pub open spec fn levels_step(nodes: Seq<NodeView>) -> bool {
    forall|i: int|
        0 <= i < nodes.len() ==> (#[trigger] nodes[i]).level == nodes.last().level + (nodes.len()
            - 1 - i)
}

/// Whether below each child of a node at level `n` there are at least `2^n`
/// entries.
pub open spec fn node_filled(blocks: Seq<Seq<u8>>, node: NodeView) -> bool {
    node.level > 0 ==> forall|i: int|
        0 <= i < node.keys.len() ==> (#[trigger] child_entries(blocks, node, node.level, i)) is Some
            && child_entries(blocks, node, node.level, i)->0.len() >= doublings(node.level)
}

/// Whether all nodes of a stack are filled below.
pub open spec fn stack_filled(blocks: Seq<Seq<u8>>, nodes: Seq<NodeView>) -> bool {
    forall|i: int| 0 <= i < nodes.len() ==> node_filled(blocks, #[trigger] nodes[i])
}

/// Further blocks leave the entries of a stack as they are.
proof fn lemma_stack_stable(blocks: Seq<Seq<u8>>, more: Seq<Seq<u8>>, nodes: Seq<NodeView>)
    requires
        blocks.is_prefix_of(more),
        stack_entries(blocks, nodes) is Some,
    ensures
        stack_entries(more, nodes) == stack_entries(blocks, nodes),
    decreases nodes.len(),
{
    if nodes.len() > 0 {
        lemma_stack_stable(blocks, more, nodes.drop_last());
        lemma_node_stable(blocks, more, nodes.last(), nodes.last().level);
    }
}

/// Further blocks leave a filled stack filled.
proof fn lemma_filled_stable(blocks: Seq<Seq<u8>>, more: Seq<Seq<u8>>, nodes: Seq<NodeView>)
    requires
        blocks.is_prefix_of(more),
        stack_filled(blocks, nodes),
    ensures
        stack_filled(more, nodes),
{
    assert forall|i: int| 0 <= i < nodes.len() implies node_filled(more, #[trigger] nodes[i]) by {
        let node = nodes[i];
        assert(node_filled(blocks, node));
        if node.level > 0 {
            assert forall|j: int| 0 <= j < node.keys.len() implies (#[trigger] child_entries(
                more,
                node,
                node.level,
                j,
            )) is Some && child_entries(more, node, node.level, j)->0.len() >= doublings(
                node.level,
            ) by {
                assert(child_entries(blocks, node, node.level, j) is Some);
                lemma_child_stable(blocks, more, node, node.level, j);
            }
        }
    }
}

/// Below `count` children of a filled node there are that many times the
/// entries below one.
proof fn lemma_filled_len(blocks: Seq<Seq<u8>>, node: NodeView, count: nat)
    requires
        node.level > 0,
        node_filled(blocks, node),
        count <= node.keys.len(),
    ensures
        children_entries(blocks, node, node.level, count) is Some,
        children_entries(blocks, node, node.level, count)->0.len() >= count * doublings(node.level),
    decreases count,
{
    let each = doublings(node.level);
    if count > 0 {
        let fewer = (count - 1) as nat;
        lemma_filled_len(blocks, node, fewer);
        assert(child_entries(blocks, node, node.level, fewer as int) is Some);
        assert(fewer * each + each == count * each) by (nonlinear_arith)
            requires
                fewer + 1 == count,
        ;
    } else {
        assert(0 * each == 0) by (nonlinear_arith);
    }
}

/// Powers of two are positive and grow.
proof fn lemma_doublings(n: nat)
    ensures
        doublings(n) >= 1,
        n > 0 ==> doublings(n) >= 2,
        n >= 40 ==> doublings(n) >= 0x100_0000_0000,
    decreases n,
{
    if n > 0 {
        lemma_doublings((n - 1) as nat);
        if n == 40 {
            reveal_with_fuel(doublings, 41);
        }
    }
}

/// A node with entries leads to an entry with its last key.
proof fn lemma_last_key(blocks: Seq<Seq<u8>>, node: NodeView) -> (at: int)
    requires
        node.keys.len() > 0,
        node_entries(blocks, node, node.level) is Some,
    ensures
        0 <= at < node_entries(blocks, node, node.level)->0.len(),
        node_entries(blocks, node, node.level)->0[at].0 == node.keys.last(),
        node_entries(blocks, node, node.level)->0[0].0 == node.keys[0],
{
    let count = node.keys.len();
    if node.level == 0 {
        count - 1
    } else {
        let front = children_entries(blocks, node, node.level, (count - 1) as nat)->0;
        let tail = lemma_child_piece(blocks, node, node.level, count, 0);
        let first = children_entries(blocks, node, node.level, 0)->0;
        assert(first.len() == 0);
        front.len() as int
    }
}

/// An entry pushed onto the last node of a stack follows the entries of the
/// stack.
proof fn lemma_push_entry(
    blocks: Seq<Seq<u8>>,
    nodes: Seq<NodeView>,
    node: NodeView,
    key: nat,
    value: nat,
    added: Seq<(nat, nat)>,
)
    requires
        nodes.len() > 0,
        stack_entries(blocks, nodes) is Some,
        nodes.last().keys.len() == nodes.last().values.len(),
        node.level == nodes.last().level,
        node.keys == nodes.last().keys.push(key),
        node.values == nodes.last().values.push(value),
        entry_adds(blocks, node.level, key, value, added),
    ensures
        stack_entries(blocks, nodes.drop_last().push(node)) is Some,
        stack_entries(blocks, nodes.drop_last().push(node))->0 == stack_entries(blocks, nodes)->0
            + added,
{
    let last = nodes.last();
    let after = nodes.drop_last().push(node);
    assert(after.drop_last() =~= nodes.drop_last());
    let rest = stack_entries(blocks, nodes.drop_last())->0;
    let own = node_entries(blocks, last, last.level)->0;
    if node.level == 0 {
        assert(leaf_entries(node) =~= leaf_entries(last) + added);
    } else {
        let count = last.keys.len();
        lemma_children_prefix(blocks, last, node, node.level, count);
        assert(child_entries(blocks, node, node.level, count as int) == Some(added));
        assert(children_entries(blocks, node, node.level, count + 1) == Some(own + added));
    }
    assert(rest + (own + added) =~= rest + own + added);
}

/// A filled stack stays filled when an entry with enough below it is pushed onto
/// its last node.
proof fn lemma_push_filled(
    blocks: Seq<Seq<u8>>,
    nodes: Seq<NodeView>,
    node: NodeView,
    key: nat,
    value: nat,
    added: Seq<(nat, nat)>,
)
    requires
        nodes.len() > 0,
        stack_filled(blocks, nodes),
        nodes.last().keys.len() == nodes.last().values.len(),
        node.level == nodes.last().level,
        node.keys == nodes.last().keys.push(key),
        node.values == nodes.last().values.push(value),
        entry_adds(blocks, node.level, key, value, added),
        node.level > 0 ==> added.len() >= doublings(node.level),
    ensures
        stack_filled(blocks, nodes.drop_last().push(node)),
{
    let last = nodes.last();
    let after = nodes.drop_last().push(node);
    assert(node_filled(blocks, node)) by {
        assert(node_filled(blocks, nodes[nodes.len() - 1]));
        if node.level > 0 {
            assert forall|j: int| 0 <= j < node.keys.len() implies (#[trigger] child_entries(
                blocks,
                node,
                node.level,
                j,
            )) is Some && child_entries(blocks, node, node.level, j)->0.len() >= doublings(
                node.level,
            ) by {
                if j < last.keys.len() {
                    assert(child_entries(blocks, last, node.level, j) is Some);
                    assert(node.keys[j] == last.keys[j]);
                    assert(node.values[j] == last.values[j]);
                }
            }
        }
    }
    assert forall|i: int| 0 <= i < after.len() implies node_filled(blocks, #[trigger] after[i]) by {
        if i < after.len() - 1 {
            assert(after[i] == nodes[i]);
        }
    }
}

/// The entries of a stack are at least those of its root.
proof fn lemma_root_part(blocks: Seq<Seq<u8>>, nodes: Seq<NodeView>)
    requires
        nodes.len() > 0,
        stack_entries(blocks, nodes) is Some,
    ensures
        node_entries(blocks, nodes[0], nodes[0].level) is Some,
        node_entries(blocks, nodes[0], nodes[0].level)->0.len() <= stack_entries(
            blocks,
            nodes,
        )->0.len(),
    decreases nodes.len(),
{
    if nodes.len() > 1 {
        assert(nodes.drop_last()[0] == nodes[0]);
        lemma_root_part(blocks, nodes.drop_last());
    }
}

/// What the entry (`key`, `value`) of a node at `level` adds: itself to a leaf,
/// the entries that the link leads to above the leaves.
pub open spec fn entry_adds(
    blocks: Seq<Seq<u8>>,
    level: nat,
    key: nat,
    value: nat,
    added: Seq<(nat, nat)>,
) -> bool {
    if level == 0 {
        added == seq![(key, value)]
    } else {
        &&& is_link(value)
        &&& subtree_entries(blocks, link_target(value), (level - 1) as nat) == Some(added)
        &&& added.len() > 0
        &&& added[0].0 == key
    }
}

/// Why an entry was not appended.
#[derive(Clone, Copy, Debug)]
pub enum DiskBtreeError {
    /// The offset is larger than a leaf can hold.
    AppendOverflow(u64),
    /// The key does not come after the one before it.
    UnsortedInput { key: [u8; KEY_SIZE], last_key: [u8; KEY_SIZE] },
}

/// Whether an entry can follow the entry with the key `last_key`, or come first.
pub fn check_entry(
    last_key: Option<[u8; KEY_SIZE]>,
    key: &[u8; KEY_SIZE],
    value: u64,
) -> (result: Result<(), DiskBtreeError>)
    ensures
        match result {
            Ok(()) => {
                &&& value <= MAX_VALUE
                &&& last_key is Some ==> be_value(last_key->0@) < be_value(key@)
            },
            Err(DiskBtreeError::AppendOverflow(large)) => value > MAX_VALUE && large == value,
            Err(DiskBtreeError::UnsortedInput { key: refused, last_key: last }) => {
                &&& value <= MAX_VALUE
                &&& last_key == Some(last)
                &&& be_value(key@) <= be_value(last@)
                &&& refused == *key
            },
        },
{
    if value > MAX_VALUE {
        return Err(DiskBtreeError::AppendOverflow(value));
    }
    if let Some(last_key) = last_key {
        if !be_less(last_key.as_slice(), key.as_slice()) {
            return Err(DiskBtreeError::UnsortedInput { key: *key, last_key });
        }
    }
    Ok(())
}

/// Builds the index: holds the blocks that are full, and a stack of the nodes
/// that are being filled, the root first and the leaf last.
pub struct DiskBtreeBuilder {
    blocks: Vec<Vec<u8>>,
    stack: Vec<BuildNode>,
    last_key: Option<[u8; KEY_SIZE]>,
    entries: Ghost<Seq<(nat, nat)>>,
}

impl View for DiskBtreeBuilder {
    type V = Seq<(nat, nat)>;

    /// The entries that were appended, in order: the number of the key, and the
    /// offset.
    closed spec fn view(&self) -> Seq<(nat, nat)> {
        self.entries@
    }
}

impl DiskBtreeBuilder {
    spec fn nodes(self) -> Seq<NodeView> {
        views(self.stack@)
    }

    spec fn written(self) -> Seq<Seq<u8>> {
        block_views(self.blocks@)
    }

    /// What holds of blocks and stack at every step.
    spec fn stack_wf(self) -> bool {
        let nodes = self.nodes();
        &&& nodes.len() > 0
        &&& forall|i: int| 0 <= i < self.stack@.len() ==> (#[trigger] self.stack@[i]).wf()
        &&& levels_step(nodes)
        &&& forall|i: int| 0 <= i < nodes.len() - 1 ==> (#[trigger] nodes[i]).keys.len() > 0
        &&& stack_entries(self.written(), nodes) is Some
        &&& forall|i: int| 0 <= i < self.blocks@.len() ==> (#[trigger] self.blocks@[i])@.len()
            == PAGE_SZ
    }

    /// The builder holds the appended entries, and no more blocks than they
    /// need.
    pub closed spec fn wf(self) -> bool {
        let nodes = self.nodes();
        &&& self.stack_wf()
        &&& nodes.last().level == 0
        &&& stack_entries(self.written(), nodes) == Some(self.entries@)
        &&& sorted(self.entries@)
        &&& match self.last_key {
            Some(key) => self.entries@.len() > 0 && self.entries@.last().0 == be_value(key@),
            None => self.entries@.len() == 0,
        }
        &&& self.entries@.len() > 0 ==> nodes.last().keys.len() > 0
        &&& self.entries@.len() == 0 ==> nodes.len() == 1
        &&& stack_filled(self.written(), nodes)
        &&& 354 * self.blocks@.len() + stack_len(nodes) <= self.entries@.len()
        &&& self.entries@.len() <= MAX_VALUE + 1
    }

    /// A stack has room for its levels and its blocks.
    spec fn bounded(self) -> bool {
        &&& self.nodes()[0].level <= 60
        &&& self.blocks@.len() + self.stack@.len() <= 0x8000_0000
    }

    /// How the root of the stack may have changed when one entry was appended:
    /// it took at most one entry, or it was full and a new root, with one entry,
    /// stands above it.
    spec fn root_step(self, before: DiskBtreeBuilder) -> bool {
        let root = self.nodes()[0];
        let old_root = before.nodes()[0];
        ||| root.level == old_root.level && root.keys.len() <= old_root.keys.len() + 1
        ||| root.level == old_root.level + 1 && root.keys.len() == 1 && old_root.keys.len()
            >= MIN_FULL
    }

    /// Appends an entry to the last node of the stack. A node without room goes
    /// to its block, and another takes its place.
    #[verifier::rlimit(40)]
    #[verifier::spinoff_prover]
    fn append_internal(&mut self, key: &[u8; KEY_SIZE], value: u64, Ghost(added): Ghost<
        Seq<(nat, nat)>,
    >)
        requires
            old(self).stack_wf(),
            old(self).bounded(),
            value < span(5),
            entry_adds(
                old(self).written(),
                old(self).nodes().last().level,
                be_value(key@),
                value as nat,
                added,
            ),
            sorted(stack_entries(old(self).written(), old(self).nodes())->0 + added),
        ensures
            final(self).stack_wf(),
            final(self).nodes().last().level == old(self).nodes().last().level,
            final(self).nodes().last().keys.len() > 0,
            old(self).written().is_prefix_of(final(self).written()),
            stack_entries(final(self).written(), final(self).nodes())->0 == stack_entries(
                old(self).written(),
                old(self).nodes(),
            )->0 + added,
            final(self).entries == old(self).entries,
            final(self).last_key == old(self).last_key,
            354 * final(self).blocks@.len() + stack_len(final(self).nodes()) <= 354 * old(
                self,
            ).blocks@.len() + stack_len(old(self).nodes()) + 1,
            final(self).blocks@.len() <= old(self).blocks@.len() + old(self).stack@.len(),
            final(self).root_step(*old(self)),
            stack_filled(old(self).written(), old(self).nodes()) && (old(self).nodes().last().level
                > 0 ==> added.len() >= doublings(old(self).nodes().last().level)) ==> stack_filled(
                final(self).written(),
                final(self).nodes(),
            ),
        decreases old(self).stack@.len(), 1nat,
    {
        let ghost blocks = self.written();
        let ghost nodes = self.nodes();
        let ghost number = be_value(key@);
        let ghost entries = stack_entries(blocks, nodes)->0;
        let mut last: BuildNode = self.stack.pop().unwrap();
        let level: u8 = last.level();
        let ghost bottom = last@;
        proof {
            assert(bottom == nodes.last());
            last.lemma_wf();
            if bottom.keys.len() > 0 {
                let own = node_entries(blocks, bottom, bottom.level)->0;
                let rest = stack_entries(blocks, nodes.drop_last())->0;
                let at = lemma_last_key(blocks, bottom);
                let all = entries + added;
                assert(entries == rest + own);
                assert(all[rest.len() + at] == own[at]);
                assert(all[entries.len() as int] == added[0]);
                assert(all[rest.len() + at].0 < all[entries.len() as int].0);
            }
        }
        let mut pushed: bool = last.push(key, value);
        if !pushed {
            if last.compress() {
                pushed = last.push(key, value);
            }
        }
        let ghost node = last@;
        self.stack.push(last);
        if pushed {
            proof {
                let after = nodes.drop_last().push(node);
                assert(self.nodes() =~= after);
                assert(self.written() == blocks);
                lemma_push_entry(blocks, nodes, node, number, value as nat, added);
                assert(after.drop_last() =~= nodes.drop_last());
                if stack_filled(blocks, nodes) && (bottom.level > 0 ==> added.len() >= doublings(
                    bottom.level,
                )) {
                    lemma_push_filled(blocks, nodes, node, number, value as nat, added);
                }
            }
            return;
        }
        proof {
            assert(node == bottom);
            assert(self.nodes() =~= nodes);
            assert(sorted(entries)) by {
                assert forall|i: int, j: int| 0 <= i < j < entries.len() implies (
                #[trigger] entries[i]).0 < (#[trigger] entries[j]).0 by {
                    let all = entries + added;
                    assert(all[i] == entries[i] && all[j] == entries[j]);
                }
            }
        }
        self.flush_node();
        let ghost flushed = self.nodes();
        let ghost more = self.written();
        let mut fresh: BuildNode = BuildNode::new(level);
        let ghost empty = fresh@;
        let _fits: bool = fresh.push(key, value);
        let ghost node = fresh@;
        self.stack.push(fresh);
        proof {
            let after = flushed.push(node);
            assert(self.nodes() =~= after);
            assert(self.written() == more);
            let base = flushed.push(empty);
            assert(base.drop_last() =~= flushed);
            assert(after.drop_last() =~= flushed);
            assert(base.drop_last().push(node) =~= after);
            if level == 0 {
                assert(leaf_entries(empty) =~= Seq::<(nat, nat)>::empty());
            } else {
                assert(children_entries(more, empty, empty.level, 0) == Some(
                    Seq::<(nat, nat)>::empty(),
                ));
                lemma_subtree_stable(
                    blocks,
                    more,
                    link_target(value as nat),
                    (level - 1) as nat,
                );
            }
            assert(entries + Seq::<(nat, nat)>::empty() =~= entries);
            assert(stack_entries(more, base) == Some(entries));
            lemma_push_entry(more, base, node, number, value as nat, added);
            if stack_filled(blocks, nodes) && (bottom.level > 0 ==> added.len() >= doublings(
                bottom.level,
            )) {
                assert(stack_filled(more, base)) by {
                    assert forall|i: int| 0 <= i < base.len() implies node_filled(
                        more,
                        #[trigger] base[i],
                    ) by {
                        if i < base.len() - 1 {
                            assert(base[i] == flushed[i]);
                        }
                    }
                }
                lemma_push_filled(more, base, node, number, value as nat, added);
            }
            assert(levels_step(after)) by {
                assert forall|i: int| 0 <= i < after.len() implies (#[trigger] after[i]).level
                    == after.last().level + (after.len() - 1 - i) by {
                    if i < after.len() - 1 {
                        assert(after[i] == flushed[i]);
                    }
                }
            }
            assert forall|i: int| 0 <= i < after.len() - 1 implies (#[trigger] after[i]).keys.len()
                > 0 by {
                assert(after[i] == flushed[i]);
            }
        }
    }

    /// Puts the last node of the stack in its block, and appends a link to it to
    /// the node above, or to a new root where there is none.
    fn flush_node(&mut self)
        requires
            old(self).stack_wf(),
            old(self).bounded(),
            old(self).nodes().last().keys.len() > 0,
            sorted(stack_entries(old(self).written(), old(self).nodes())->0),
        ensures
            final(self).stack_wf(),
            final(self).nodes().last().level == old(self).nodes().last().level + 1,
            final(self).nodes().last().keys.len() > 0,
            old(self).written().is_prefix_of(final(self).written()),
            stack_entries(final(self).written(), final(self).nodes()) == stack_entries(
                old(self).written(),
                old(self).nodes(),
            ),
            final(self).entries == old(self).entries,
            final(self).last_key == old(self).last_key,
            354 * final(self).blocks@.len() + stack_len(final(self).nodes()) + old(
                self,
            ).nodes().last().keys.len() <= 354 * old(self).blocks@.len() + stack_len(
                old(self).nodes(),
            ) + 355,
            final(self).blocks@.len() <= old(self).blocks@.len() + old(self).stack@.len(),
            old(self).stack@.len() > 1 ==> final(self).root_step(*old(self)),
            old(self).stack@.len() == 1 ==> final(self).nodes()[0].level
                == old(self).nodes()[0].level + 1 && final(self).nodes()[0].keys.len() == 1,
            stack_filled(old(self).written(), old(self).nodes()) && old(
                self,
            ).nodes().last().keys.len() >= MIN_FULL ==> stack_filled(
                final(self).written(),
                final(self).nodes(),
            ),
        decreases old(self).stack@.len(), 0nat,
    {
        let ghost blocks = self.written();
        let ghost nodes = self.nodes();
        let last: BuildNode = self.stack.pop().unwrap();
        let level: u8 = last.level();
        let ghost bottom = last@;
        let key: [u8; KEY_SIZE] = last.first_key();
        let number: usize = self.blocks.len();
        let block: Vec<u8> = last.pack();
        self.blocks.push(block);
        let link: u64 = LINK_MARK + number as u64;
        let ghost more = self.written();
        let ghost upper = nodes.drop_last();
        let ghost added = node_entries(blocks, bottom, bottom.level)->0;
        proof {
            lemma_spans();
            assert(bottom == nodes.last());
            assert(self.nodes() =~= upper);
            assert(more =~= blocks.push(block@));
            assert(blocks.is_prefix_of(more));
            lemma_node_stable(blocks, more, bottom, bottom.level);
            lemma_stack_stable(blocks, more, upper);
            assert(node_at(more, number as int) == Some(bottom));
            assert(subtree_entries(more, number as int, bottom.level) == Some(added));
            let at = lemma_last_key(blocks, bottom);
            assert(entry_adds(more, bottom.level + 1, be_value(key@), link as nat, added));
            if stack_filled(blocks, nodes) && bottom.keys.len() >= MIN_FULL {
                lemma_filled_stable(blocks, more, nodes);
                assert(stack_filled(more, upper)) by {
                    assert forall|i: int| 0 <= i < upper.len() implies node_filled(
                        more,
                        #[trigger] upper[i],
                    ) by {
                        assert(upper[i] == nodes[i]);
                    }
                }
                assert(added.len() >= doublings(bottom.level + 1)) by {
                    if bottom.level > 0 {
                        assert(node_filled(blocks, nodes[nodes.len() - 1]));
                        lemma_filled_len(blocks, bottom, bottom.keys.len());
                        let each = doublings(bottom.level);
                        let count = bottom.keys.len();
                        assert(count * each >= 2 * each) by (nonlinear_arith)
                            requires
                                count >= 2,
                        ;
                    } else {
                        assert(doublings(1) == 2) by {
                            reveal_with_fuel(doublings, 2);
                        }
                    }
                }
            }
        }
        if self.stack.len() == 0 {
            let mut root: BuildNode = BuildNode::new(level + 1);
            let ghost empty = root@;
            let _fits: bool = root.push(&key, link);
            let ghost node = root@;
            self.stack.push(root);
            proof {
                let base = upper.push(empty);
                let after = upper.push(node);
                assert(self.nodes() =~= after);
                assert(self.written() == more);
                assert(base.drop_last() =~= upper);
                assert(after.drop_last() =~= upper);
                assert(children_entries(more, empty, empty.level, 0) == Some(
                    Seq::<(nat, nat)>::empty(),
                ));
                assert(Seq::<(nat, nat)>::empty() + Seq::<(nat, nat)>::empty() =~= Seq::<
                    (nat, nat),
                >::empty());
                assert(stack_entries(more, base) == Some(Seq::<(nat, nat)>::empty()));
                lemma_push_entry(more, base, node, be_value(key@), link as nat, added);
                assert(stack_entries(blocks, nodes)->0 =~= Seq::<(nat, nat)>::empty() + added);
                if stack_filled(blocks, nodes) && bottom.keys.len() >= MIN_FULL {
                    assert(node_filled(more, node)) by {
                        assert forall|j: int|
                            0 <= j < node.keys.len() implies (#[trigger] child_entries(
                            more,
                            node,
                            node.level,
                            j,
                        )) is Some && child_entries(more, node, node.level, j)->0.len()
                            >= doublings(node.level) by {
                            assert(j == 0);
                            assert(node.keys[0] == be_value(key@));
                            assert(node.values[0] == link as nat);
                        }
                    }
                }
            }
        } else {
            proof {
                assert(levels_step(upper)) by {
                    assert forall|i: int| 0 <= i < upper.len() implies (#[trigger] upper[i]).level
                        == upper.last().level + (upper.len() - 1 - i) by {
                        assert(upper[i] == nodes[i]);
                        assert(upper.last() == nodes[nodes.len() - 2]);
                    }
                }
                assert(upper.last() == nodes[nodes.len() - 2]);
                assert forall|i: int| 0 <= i < upper.len() - 1 implies (
                #[trigger] upper[i]).keys.len() > 0 by {
                    assert(upper[i] == nodes[i]);
                }
                assert(nodes[0] == upper[0]);
            }
            self.append_internal(&key, link, Ghost(added));
        }
    }

    /// The levels and blocks of a builder stay in their bounds.
    proof fn lemma_bounded(self)
        requires
            self.wf(),
        ensures
            self.bounded(),
            self.nodes()[0].level <= 39,
            self.nodes()[0].level == self.stack@.len() - 1,
    {
        let nodes = self.nodes();
        let blocks = self.written();
        let root = nodes[0];
        assert(root.level == nodes.last().level + (nodes.len() - 1));
        lemma_root_part(blocks, nodes);
        if root.level >= 40 {
            assert(node_filled(blocks, nodes[0]));
            lemma_filled_len(blocks, root, root.keys.len());
            lemma_doublings(root.level);
            let count = root.keys.len();
            let each = doublings(root.level);
            assert(count * each >= each) by (nonlinear_arith)
                requires
                    count >= 1,
            ;
        }
    }

    /// An index without entries.
    pub fn new() -> (builder: DiskBtreeBuilder)
        ensures
            builder.wf(),
            builder@ == Seq::<(nat, nat)>::empty(),
    {
        let mut stack: Vec<BuildNode> = Vec::new();
        stack.push(BuildNode::new(0));
        let builder = DiskBtreeBuilder {
            blocks: Vec::new(),
            stack,
            last_key: None,
            entries: Ghost(Seq::<(nat, nat)>::empty()),
        };
        proof {
            let nodes = builder.nodes();
            let blocks = builder.written();
            assert(nodes.drop_last() =~= Seq::<NodeView>::empty());
            assert(leaf_entries(nodes.last()) =~= Seq::<(nat, nat)>::empty());
            assert(stack_entries(blocks, nodes.drop_last()) == Some(Seq::<(nat, nat)>::empty()));
            assert(stack_entries(blocks, nodes)->0 =~= Seq::<(nat, nat)>::empty());
            assert(stack_len(nodes.drop_last()) == 0);
        }
        builder
    }

    /// The key of the last entry, if there is one.
    pub fn last_key(&self) -> (key: Option<[u8; KEY_SIZE]>)
        requires
            self.wf(),
        ensures
            match key {
                Some(key) => self@.len() > 0 && be_value(key@) == self@.last().0,
                None => self@.len() == 0,
            },
    {
        self.last_key
    }

    /// Appends an entry. Keys must come in ascending order.
    pub fn append(&mut self, key: &[u8; KEY_SIZE], value: u64) -> (result: Result<
        (),
        DiskBtreeError,
    >)
        requires
            old(self).wf(),
            old(self)@.len() <= MAX_VALUE,
        ensures
            final(self).wf(),
            match result {
                Ok(()) => {
                    &&& value <= MAX_VALUE
                    &&& old(self)@.len() > 0 ==> old(self)@.last().0 < be_value(key@)
                    &&& final(self)@ == old(self)@.push((be_value(key@), value as nat))
                },
                Err(DiskBtreeError::AppendOverflow(large)) => {
                    &&& value > MAX_VALUE
                    &&& large == value
                    &&& *final(self) == *old(self)
                },
                Err(DiskBtreeError::UnsortedInput { key: refused, last_key }) => {
                    &&& value <= MAX_VALUE
                    &&& old(self)@.len() > 0
                    &&& be_value(last_key@) == old(self)@.last().0
                    &&& be_value(key@) <= old(self)@.last().0
                    &&& refused == *key
                    &&& *final(self) == *old(self)
                },
            },
    {
        if let Err(error) = check_entry(self.last_key, key, value) {
            return Err(error);
        }
        let ghost entry = (be_value(key@), value as nat);
        let ghost before = self.entries@;
        proof {
            self.lemma_bounded();
            lemma_spans();
            let all = before + seq![entry];
            assert forall|i: int, j: int| 0 <= i < j < all.len() implies (#[trigger] all[i]).0 < (
            #[trigger] all[j]).0 by {
                if j < before.len() {
                    assert(before[i].0 < before[j].0);
                } else if i < before.len() - 1 {
                    assert(before[i].0 < before[before.len() - 1].0);
                }
            }
            assert(all =~= before.push(entry));
        }
        let ghost added = seq![entry];
        self.append_internal(key, value, Ghost(added));
        self.last_key = Some(*key);
        self.entries = Ghost(before.push(entry));
        assert(before + added =~= before.push(entry));
        Ok(())
    }

    /// Puts every node in its block. Gives the blocks of the index, and which of
    /// them holds the root.
    pub fn finish(self) -> (index: (u32, Vec<Vec<u8>>))
        requires
            self.wf(),
        ensures
            index.0 < index.1@.len() <= 0x8000_0000,
            is_index_of(block_views(index.1@), index.0 as int, self@),
            forall|i: int| 0 <= i < index.1@.len() ==> (#[trigger] index.1@[i])@.len() == PAGE_SZ,
    {
        let mut builder = self;
        let ghost entries = self@;
        let ghost mut rounds: nat = 0;
        proof {
            self.lemma_bounded();
        }
        while builder.stack.len() > 1
            invariant
                sorted(entries),
                entries.len() == 0 ==> builder.stack@.len() == 1 && rounds == 0,
                builder.stack_wf(),
                builder.stack@.len() > 1 ==> builder.nodes().last().keys.len() > 0,
                entries.len() <= MAX_VALUE + 1,
                stack_entries(builder.written(), builder.nodes()) == Some(entries),
                rounds == builder.nodes().last().level,
                builder.nodes()[0].level <= 40,
                builder.nodes()[0].level <= 39 || builder.nodes()[0].keys.len()
                    + builder.stack@.len() <= 60,
                354 * builder.blocks@.len() + stack_len(builder.nodes()) <= entries.len() + 355
                    * rounds,
            decreases 64 - rounds,
        {
            let ghost before = builder;
            proof {
                let nodes = builder.nodes();
                assert(nodes[0].level == nodes.last().level + (nodes.len() - 1));
            }
            builder.flush_node();
            proof {
                let nodes = builder.nodes();
                assert(nodes[0].level == nodes.last().level + (nodes.len() - 1));
                rounds = rounds + 1;
            }
        }
        let ghost nodes = builder.nodes();
        let ghost blocks = builder.written();
        let ghost root = nodes.last();
        proof {
            assert(nodes[0].level == nodes.last().level + (nodes.len() - 1));
        }
        let number: usize = builder.blocks.len();
        let block: Vec<u8> = builder.stack[0].pack();
        let mut all_blocks = builder.blocks;
        all_blocks.push(block);
        proof {
            let more = block_views(all_blocks@);
            assert(more =~= blocks.push(block@));
            assert(nodes.drop_last() =~= Seq::<NodeView>::empty());
            assert(stack_entries(blocks, nodes.drop_last()) == Some(Seq::<(nat, nat)>::empty()));
            let own = node_entries(blocks, root, root.level)->0;
            assert(Seq::<(nat, nat)>::empty() + own =~= own);
            lemma_node_stable(blocks, more, root, root.level);
            assert(node_at(more, number as int) == Some(root));
        }
        (number as u32, all_blocks)
    }
}

} // verus!
