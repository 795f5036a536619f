//! Reading the index and the values of a file, one block at a time.
//!
//! Nothing here touches a file. A reader says which block it needs, is handed the
//! block, and says what follows.
use vstd::prelude::*;

use crate::big_endian::{
    be_value, lemma_be_value_bound, lemma_be_value_injective, lemma_spans, same_bytes,
};
use crate::blob::{blob_at, BlobCursor, BlobStep, MAX_BLOB};
use crate::btree::{child_for, is_link, node_at, search, search_tree, Search, LINK_MARK};
use crate::btree_node::{
    ascending, lemma_rank, lemma_slot, node_of, slot, stored_value, NodeView, OnDiskNode,
    NODE_HDR_SIZE, VALUE_SZ,
};
use crate::format::{block_of, readable, PAGE_SZ};
use crate::key::KEY_SIZE;

verus! {

/// The blocks of a file from block `start` on.
pub open spec fn index_blocks(file: Seq<u8>, start: int) -> Seq<Seq<u8>> {
    let count = file.len() / PAGE_SZ as nat - start;
    Seq::new(
        if count > 0 {
            count as nat
        } else {
            0
        },
        |i: int| file.subrange((start + i) * PAGE_SZ, (start + i + 1) * PAGE_SZ),
    )
}

/// What a file holds for a key.
pub enum Stored {
    /// This image.
    Image(Seq<u8>),
    /// Nothing.
    Missing,
    /// That cannot be told: a part of the file is missing or malformed.
    Unreadable,
}

/// What a file holds for a key, given what the index says of it.
pub open spec fn stored_for(file: Seq<u8>, found: Search) -> Stored {
    match found {
        Search::Found(offset) => match blob_at(readable(file), offset as int) {
            Some(image) => Stored::Image(image),
            None => Stored::Unreadable,
        },
        Search::Absent => Stored::Missing,
        Search::Broken => Stored::Unreadable,
    }
}

/// What a file, whose index starts in block `start` and has its root in the
/// `root`-th block from there, holds for the key with the given number.
pub open spec fn stored_value_of(file: Seq<u8>, start: int, root: int, key: nat) -> Stored {
    stored_for(file, search_tree(index_blocks(file, start), root, key))
}

/// Why reading could not go on.
#[derive(Clone, Copy, Debug, PartialEq, Eq, Structural)]
pub enum ReadError {
    /// A block was handed over that has another size than blocks have.
    BlockSize,
    /// This block of the index does not hold the node that belongs there.
    MalformedNode(u64),
}

/// Why reading could not go on with `block`, that is block `number` of the file.
pub open spec fn read_error(block: Seq<u8>, number: int) -> ReadError {
    if block.len() != PAGE_SZ {
        ReadError::BlockSize
    } else {
        ReadError::MalformedNode(number as u64)
    }
}

/// Block `block` of the index is the file's block that many further on.
pub proof fn lemma_index_block(file: Seq<u8>, start: int, block: int)
    requires
        0 <= start,
        0 <= block,
    ensures
        node_at(index_blocks(file, start), block) == match block_of(file, start + block) {
            Some(bytes) => node_of(bytes),
            None => None,
        },
{
    let number = start + block;
    let whole = file.len() / PAGE_SZ as nat;
    if (number + 1) * PAGE_SZ <= file.len() {
        assert(number + 1 <= whole);
        assert(index_blocks(file, start)[block] =~= block_of(file, number)->0);
    }
}

/// The values of a node are below the span of their width.
pub proof fn lemma_node_values(block: Seq<u8>)
    requires
        node_of(block) is Some,
    ensures
        node_of(block)->0.keys.len() == node_of(block)->0.values.len(),
        forall|i: int|
            0 <= i < node_of(block)->0.values.len() ==> #[trigger] node_of(block)->0.values[i]
                < 0x100_0000_0000,
{
    let node = node_of(block)->0;
    lemma_spans();
    assert forall|i: int| 0 <= i < node.values.len() implies #[trigger] node.values[i]
        < 0x100_0000_0000 by {
        let count = be_value(block.subrange(0, 2));
        let prefix_len = block[3] as int;
        let values_at = NODE_HDR_SIZE + prefix_len + slot(count as int, KEY_SIZE - prefix_len);
        let bytes = stored_value(block, values_at, i);
        assert(node.values[i] == be_value(bytes));
        lemma_slot(i, count as int, VALUE_SZ as int);
        assert(0 <= slot(count as int, KEY_SIZE - prefix_len)) by (nonlinear_arith)
            requires
                0 <= count,
                0 <= KEY_SIZE - prefix_len,
        ;
        lemma_be_value_bound(bytes);
    }
}

/// The child to look for a key in is the one with that key, if there is one.
proof fn lemma_child_for(keys: Seq<nat>, key: nat)
    requires
        ascending(keys),
    ensures
        keys.contains(key) <==> keys.len() > 0 && keys[child_for(keys, key)] == key,
{
    lemma_rank(keys, key);
    let at = child_for(keys, key);
    if keys.contains(key) {
        let i = choose|i: int| 0 <= i < keys.len() && keys[i] == key;
        if i < at {
            assert(keys[i] < keys[at]);
        } else if i > at {
            assert(keys[at] < keys[i]);
        }
    }
}

/// Where looking up a key stands: on the way down the index, or at its value.
enum Phase {
    Index { block: u32, level: Option<u8> },
    Value { cursor: BlobCursor },
}

/// The lookup of one key in a file.
pub struct ValueLookup {
    start: u32,
    key: [u8; KEY_SIZE],
    phase: Phase,
}

/// What follows a block.
pub enum LookupStep {
    /// Another block is needed.
    Read(ValueLookup),
    /// This is the image.
    Complete(Vec<u8>),
    /// There is no image for the key.
    Missing,
    /// The file is malformed.
    Failed(ReadError),
}

impl ValueLookup {
    /// What holds of a lookup at every step.
    pub closed spec fn wf(self) -> bool {
        match self.phase {
            Phase::Index { .. } => true,
            Phase::Value { cursor } => cursor.wf(),
        }
    }

    /// The block of the file that is needed next.
    pub closed spec fn block(self) -> int {
        match self.phase {
            Phase::Index { block, .. } => self.start + block,
            Phase::Value { cursor } => cursor.block(),
        }
    }

    /// Whether what was read so far is what `file` holds.
    pub closed spec fn agrees(self, file: Seq<u8>) -> bool {
        match self.phase {
            Phase::Index { .. } => true,
            Phase::Value { cursor } => cursor.agrees(file),
        }
    }

    /// What the index of `file` says of the key.
    pub closed spec fn index_says(self, file: Seq<u8>) -> Search {
        let blocks = index_blocks(file, self.start as int);
        match self.phase {
            Phase::Index { block, level: None } => search_tree(
                blocks,
                block as int,
                be_value(self.key@),
            ),
            Phase::Index { block, level: Some(level) } => search(
                blocks,
                block as int,
                level as nat,
                be_value(self.key@),
            ),
            Phase::Value { cursor } => Search::Found(cursor.offset() as nat),
        }
    }

    /// What the lookup comes to on `file`.
    pub open spec fn outcome(self, file: Seq<u8>) -> Stored {
        stored_for(file, self.index_says(file))
    }

    /// Where the image starts, once the index has told.
    pub closed spec fn spec_value_offset(self) -> Option<u64> {
        match self.phase {
            Phase::Index { .. } => None,
            Phase::Value { cursor } => Some(cursor.offset() as u64),
        }
    }

    /// The number of the key that is looked for.
    pub closed spec fn key_number(self) -> nat {
        be_value(self.key@)
    }

    /// The level of the node that is needed next, where it is known.
    pub closed spec fn level_due(self) -> Option<u8> {
        match self.phase {
            Phase::Index { level, .. } => level,
            Phase::Value { .. } => None,
        }
    }

    /// Whether the search can go on with a node: it is at the level that is due,
    /// and above the leaves the child to look in is linked.
    pub open spec fn awaits(self, node: NodeView) -> bool {
        &&& self.level_due() is Some ==> node.level == self.level_due()->0
        &&& node.level > 0 ==> node.keys.len() > 0 && is_link(
            node.values[child_for(node.keys, self.key_number())],
        )
    }

    /// A bound on the blocks that are still needed. It goes down with each block.
    pub closed spec fn blocks_left(self) -> nat {
        match self.phase {
            Phase::Index { level: None, .. } => (MAX_BLOB + 1000) as nat,
            Phase::Index { level: Some(level), .. } => (MAX_BLOB + 10 + level) as nat,
            Phase::Value { cursor } => (MAX_BLOB + 5 - cursor.progress()) as nat,
        }
    }

    /// A file that lacks the block that is needed cannot be read further: what it
    /// holds for the key cannot be told.
    pub proof fn law_missing_block(self, file: Seq<u8>)
        requires
            self.wf(),
            self.agrees(file),
            block_of(file, self.block()) is None,
        ensures
            self.outcome(file) == Stored::Unreadable,
    {
        match self.phase {
            Phase::Index { block, .. } => {
                lemma_index_block(file, self.start as int, block as int);
            },
            Phase::Value { cursor } => {
                cursor.lemma_offset();
                cursor.lemma_missing_block(file);
            },
        }
    }

    /// Looks for a key in a file, whose index starts in block `start` and has its
    /// root in the `root`-th block from there.
    pub fn new(start: u32, root: u32, key: [u8; KEY_SIZE]) -> (lookup: ValueLookup)
        ensures
            lookup.wf(),
            lookup.block() == start + root,
            lookup.spec_value_offset() is None,
            lookup.key_number() == be_value(key@),
            lookup.level_due() is None,
            forall|file: Seq<u8>|
                #![trigger lookup.agrees(file)]
                #![trigger lookup.index_says(file)]
                lookup.agrees(file) && lookup.index_says(file) == search_tree(
                    index_blocks(file, start as int),
                    root as int,
                    be_value(key@),
                ) && lookup.outcome(file) == stored_value_of(
                    file,
                    start as int,
                    root as int,
                    be_value(key@),
                ),
    {
        ValueLookup { start, key, phase: Phase::Index { block: root, level: None } }
    }

    /// The block of the file that is needed next.
    pub fn next_block(&self) -> (number: u64)
        requires
            self.wf(),
        ensures
            number == self.block(),
    {
        match &self.phase {
            Phase::Index { block, .. } => self.start as u64 + *block as u64,
            Phase::Value { cursor } => cursor.next_block(),
        }
    }

    /// Where the image starts, once the index has told.
    pub fn value_offset(&self) -> (offset: Option<u64>)
        ensures
            offset == self.spec_value_offset(),
    {
        match &self.phase {
            Phase::Index { .. } => None,
            Phase::Value { cursor } => Some(cursor.start()),
        }
    }

    /// Goes on with the block that was needed. Whatever file the block comes
    /// from, the lookup keeps coming to what that file holds for the key.
    pub fn supply(self, block: &[u8]) -> (step: LookupStep)
        requires
            self.wf(),
        ensures
            block@.len() != PAGE_SZ ==> step == LookupStep::Failed(ReadError::BlockSize),
            block@.len() == PAGE_SZ && self.spec_value_offset() is Some ==> step is Read || step
                is Complete,
            block@.len() == PAGE_SZ && self.spec_value_offset() is None ==> {
                &&& step is Failed <==> !(node_of(block@) matches Some(node) && self.awaits(node))
                &&& step is Missing <==> (node_of(block@) matches Some(node) && self.awaits(node)
                    && node.level == 0 && !node.keys.contains(self.key_number()))
                &&& step matches LookupStep::Read(next) ==> {
                    let node = node_of(block@)->0;
                    &&& next.key_number() == self.key_number()
                    &&& node.level > 0 ==> next.level_due() == Some((node.level - 1) as u8)
                    &&& node.level == 0 ==> exists|i: int|
                        0 <= i < node.keys.len() && #[trigger] node.keys[i] == self.key_number()
                            && next.spec_value_offset() == Some(node.values[i] as u64)
                }
            },
            match step {
                LookupStep::Read(next) => {
                    &&& next.wf()
                    &&& next.blocks_left() < self.blocks_left()
                    &&& next.spec_value_offset() is Some <==> self.spec_value_offset() is Some
                        || node_of(block@)->0.level == 0
                    &&& self.spec_value_offset() is Some ==> next.spec_value_offset()
                        == self.spec_value_offset()
                    &&& forall|file: Seq<u8>| #[trigger]
                        self.agrees(file) && block_of(file, self.block()) == Some(block@) ==> {
                            &&& next.agrees(file)
                            &&& next.index_says(file) == self.index_says(file)
                            &&& next.outcome(file) == self.outcome(file)
                            &&& next.spec_value_offset() matches Some(offset) ==> self.index_says(
                                file,
                            ) == Search::Found(offset as nat)
                        }
                },
                LookupStep::Complete(image) => {
                    &&& self.spec_value_offset() is Some
                    &&& forall|file: Seq<u8>| #[trigger]
                        self.agrees(file) && block_of(file, self.block()) == Some(block@)
                            ==> self.outcome(file) == Stored::Image(image@)
                },
                LookupStep::Missing => {
                    &&& self.spec_value_offset() is None
                    &&& forall|file: Seq<u8>| #[trigger]
                        self.agrees(file) && block_of(file, self.block()) == Some(block@)
                            ==> self.index_says(file) == Search::Absent && self.outcome(file)
                            == Stored::Missing
                },
                LookupStep::Failed(error) => {
                    &&& error == read_error(block@, self.block())
                    &&& forall|file: Seq<u8>| #[trigger]
                        self.agrees(file) && block_of(file, self.block()) == Some(block@)
                            ==> self.outcome(file) == Stored::Unreadable
                },
            },
    {
        if block.len() != PAGE_SZ {
            return LookupStep::Failed(ReadError::BlockSize);
        }
        let start: u32 = self.start;
        let key: [u8; KEY_SIZE] = self.key;
        match self.phase {
            Phase::Value { cursor } => match cursor.supply(block) {
                BlobStep::More(cursor) => {
                    proof {
                        cursor.lemma_offset();
                    }
                    LookupStep::Read(ValueLookup { start, key, phase: Phase::Value { cursor } })
                },
                BlobStep::Done(image) => LookupStep::Complete(image),
            },
            Phase::Index { block: at, level } => {
                let number: u64 = start as u64 + at as u64;
                let malformed = LookupStep::Failed(ReadError::MalformedNode(number));
                proof {
                    assert forall|file: Seq<u8>| block_of(file, number as int) == Some(
                        block@,
                    ) implies node_at(#[trigger] index_blocks(file, start as int), at as int)
                        == node_of(block@) by {
                        lemma_index_block(file, start as int, at as int);
                    }
                }
                let node = match OnDiskNode::deparse(block) {
                    Some(node) => node,
                    None => {
                        return malformed;
                    },
                };
                proof {
                    lemma_node_values(block@);
                }
                if let Some(level) = level {
                    if node.level != level {
                        return malformed;
                    }
                }
                let found: usize = node.rank(&key);
                let child: usize = if found > 0 {
                    found - 1
                } else {
                    0
                };
                let ghost number_of_key = be_value(key@);
                assert(child == child_for(node@.keys, number_of_key));
                proof {
                    lemma_child_for(node@.keys, number_of_key);
                }
                if node.level == 0 {
                    if node.keys.len() == 0 {
                        return LookupStep::Missing;
                    }
                    assert(node@.keys[child as int] == be_value(node.keys@[child as int]@));
                    if !same_bytes(node.keys[child].as_slice(), key.as_slice()) {
                        proof {
                            if node@.keys[child as int] == number_of_key {
                                lemma_be_value_injective(node.keys@[child as int]@, key@);
                            }
                        }
                        return LookupStep::Missing;
                    }
                    assert(node@.values[child as int] == node.values@[child as int]);
                    let offset: u64 = node.values[child];
                    LookupStep::Read(
                        ValueLookup {
                            start,
                            key,
                            phase: Phase::Value { cursor: BlobCursor::new(offset) },
                        },
                    )
                } else {
                    if node.keys.len() == 0 {
                        return malformed;
                    }
                    assert(node@.values[child as int] == node.values@[child as int]);
                    let value: u64 = node.values[child];
                    if value < LINK_MARK || value - LINK_MARK > u32::MAX as u64 {
                        return malformed;
                    }
                    let target: u32 = (value - LINK_MARK) as u32;
                    LookupStep::Read(
                        ValueLookup {
                            start,
                            key,
                            phase: Phase::Index { block: target, level: Some(node.level - 1) },
                        },
                    )
                }
            },
        }
    }
}

} // verus!
