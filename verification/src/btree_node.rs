//! One node of the index, which fills one block of the file.
//!
//! A node starts with the number of its entries (two bytes), its level (leaves
//! are level 0), the length of the prefix that all its keys share, and the
//! length of what is left of a key behind that prefix. The prefix follows, then
//! the rests of the keys, then the values, five bytes each.
use vstd::prelude::*;
use vstd::slice::slice_subrange;

use crate::big_endian::{
    be_bytes, be_less, be_value, common_prefix, get_be, put_be, put_bytes, span,
};
use crate::big_endian::{
    lemma_be_bytes_len, lemma_be_value_bound, lemma_prefix_between, lemma_spans,
    lemma_value_of_bytes,
};
use crate::format::PAGE_SZ;
use crate::key::{key_array, KEY_SIZE};

verus! {

/// Size of a value of an entry.
pub const VALUE_SZ: usize = 5;

/// Size of the fixed part at the front of a node.
pub const NODE_HDR_SIZE: usize = 5;

/// A node that turned an entry away holds at least this many entries.
pub const MIN_FULL: usize = 355;

/// What a node says: its level, and its keys and values in order.
pub struct NodeView {
    pub level: nat,
    pub keys: Seq<nat>,
    pub values: Seq<nat>,
}

/// Whether each key is above the one before it.
pub open spec fn ascending(keys: Seq<nat>) -> bool {
    forall|i: int, j: int| 0 <= i < j < keys.len() ==> keys[i] < keys[j]
}

/// Where item `i` starts among items of `width` bytes each.
pub open spec fn slot(i: int, width: int) -> int {
    i * width
}

/// The bytes of key `i` of a node: the shared prefix, then its own rest.
pub open spec fn stored_key(block: Seq<u8>, prefix_len: int, i: int) -> Seq<u8> {
    let rest = KEY_SIZE - prefix_len;
    let at = NODE_HDR_SIZE + prefix_len + slot(i, rest);
    block.subrange(NODE_HDR_SIZE as int, NODE_HDR_SIZE + prefix_len) + block.subrange(at, at + rest)
}

/// The bytes of value `i` of a node whose values start at `values_at`.
pub open spec fn stored_value(block: Seq<u8>, values_at: int, i: int) -> Seq<u8> {
    let at = values_at + slot(i, VALUE_SZ as int);
    block.subrange(at, at + VALUE_SZ)
}

/// The node that a block holds, unless the block is malformed: too short, with
/// keys of another size, with parts that do not fit, or with keys out of order.
pub open spec fn node_of(block: Seq<u8>) -> Option<NodeView> {
    let count = be_value(block.subrange(0, 2));
    let prefix_len = block[3] as int;
    let values_at = NODE_HDR_SIZE + prefix_len + slot(count as int, KEY_SIZE - prefix_len);
    let node = NodeView {
        level: block[2] as nat,
        keys: Seq::new(count, |i: int| be_value(stored_key(block, prefix_len, i))),
        values: Seq::new(count, |i: int| be_value(stored_value(block, values_at, i))),
    };
    if block.len() == PAGE_SZ && prefix_len + block[4] == KEY_SIZE && values_at + slot(
        count as int,
        VALUE_SZ as int,
    ) <= PAGE_SZ && ascending(node.keys) {
        Some(node)
    } else {
        None
    }
}

/// How many of the ascending `keys` are at most `key`.
pub open spec fn rank(keys: Seq<nat>, key: nat) -> nat
    decreases keys.len(),
{
    if keys.len() == 0 {
        0
    } else if keys.last() <= key {
        keys.len()
    } else {
        rank(keys.drop_last(), key)
    }
}

/// The keys below `rank` are at most the key looked for, the others above it.
pub proof fn lemma_rank(keys: Seq<nat>, key: nat)
    requires
        ascending(keys),
    ensures
        rank(keys, key) <= keys.len(),
        forall|i: int| 0 <= i < rank(keys, key) ==> keys[i] <= key,
        forall|i: int| rank(keys, key) <= i < keys.len() ==> keys[i] > key,
    decreases keys.len(),
{
    if keys.len() > 0 {
        let front = keys.drop_last();
        assert(ascending(front)) by {
            assert forall|i: int, j: int| 0 <= i < j < front.len() implies front[i] < front[j] by {
                assert(front[i] == keys[i] && front[j] == keys[j]);
            }
        }
        if keys.last() <= key {
            assert forall|i: int| 0 <= i < keys.len() implies keys[i] <= key by {
                assert(keys[i] <= keys[keys.len() - 1]);
            }
        } else {
            lemma_rank(front, key);
            assert forall|i: int| 0 <= i < rank(keys, key) implies keys[i] <= key by {
                assert(front[i] == keys[i]);
            }
            assert forall|i: int| rank(keys, key) <= i < keys.len() implies keys[i] > key by {
                if i < front.len() {
                    assert(front[i] == keys[i]);
                }
            }
        }
    }
}

/// A place that splits ascending keys as `rank` does is the rank.
pub proof fn lemma_rank_unique(keys: Seq<nat>, key: nat, at: nat)
    requires
        ascending(keys),
        at <= keys.len(),
        forall|i: int| 0 <= i < at ==> keys[i] <= key,
        forall|i: int| at <= i < keys.len() ==> keys[i] > key,
    ensures
        at == rank(keys, key),
{
    lemma_rank(keys, key);
    let found = rank(keys, key);
    if at < found {
        assert(keys[at as int] <= key);
    } else if found < at {
        assert(keys[found as int] <= key);
    }
}

/// Item `i` of `count` items lies before their end, and before item `i + 1`.
pub proof fn lemma_slot(i: int, count: int, width: int)
    requires
        0 <= i < count,
        0 <= width,
    ensures
        0 <= slot(i, width),
        slot(i, width) + width == slot(i + 1, width),
        slot(i + 1, width) <= slot(count, width),
{
    assert(0 <= i * width) by (nonlinear_arith)
        requires
            0 <= i,
            0 <= width,
    ;
    assert(i * width + width == (i + 1) * width) by (nonlinear_arith);
    assert((i + 1) * width <= count * width) by (nonlinear_arith)
        requires
            i + 1 <= count,
            0 <= width,
    ;
}

/// A node that is read from its block.
pub struct OnDiskNode {
    pub level: u8,
    pub keys: Vec<[u8; KEY_SIZE]>,
    pub values: Vec<u64>,
}

/// The numbers that the stored keys stand for.
pub open spec fn key_numbers(keys: Seq<[u8; KEY_SIZE]>) -> Seq<nat> {
    Seq::new(keys.len(), |i: int| be_value(keys[i]@))
}

/// The values as numbers.
pub open spec fn value_numbers(values: Seq<u64>) -> Seq<nat> {
    Seq::new(values.len(), |i: int| values[i] as nat)
}

impl View for OnDiskNode {
    type V = NodeView;

    open spec fn view(&self) -> NodeView {
        NodeView {
            level: self.level as nat,
            keys: key_numbers(self.keys@),
            values: value_numbers(self.values@),
        }
    }
}

impl OnDiskNode {
    /// Reads the node that `block` holds.
    pub fn deparse(block: &[u8]) -> (node: Option<OnDiskNode>)
        ensures
            match node {
                Some(node) => node_of(block@) == Some(node@),
                None => node_of(block@) is None,
            },
    {
        if block.len() != PAGE_SZ {
            return None;
        }
        let count: usize = get_be(block, 0, 2) as usize;
        let prefix_len: usize = block[3] as usize;
        proof {
            lemma_be_value_bound(block@.subrange(0, 2));
            lemma_spans();
        }
        if prefix_len + block[4] as usize != KEY_SIZE {
            return None;
        }
        let rest: usize = KEY_SIZE - prefix_len;
        assert(count * rest <= 0x10000 * 18) by (nonlinear_arith)
            requires
                count <= 0x10000,
                rest <= 18,
        ;
        let keys_at: usize = NODE_HDR_SIZE + prefix_len;
        let values_at: usize = keys_at + count * rest;
        assert(values_at == NODE_HDR_SIZE + prefix_len + slot(count as int, rest as int));
        if values_at + count * VALUE_SZ > PAGE_SZ {
            return None;
        }
        let mut keys: Vec<[u8; KEY_SIZE]> = Vec::new();
        let mut values: Vec<u64> = Vec::new();
        let mut at: usize = 0;
        while at < count
            invariant
                block@.len() == PAGE_SZ,
                at <= count,
                count <= 0x10000,
                count == be_value(block@.subrange(0, 2)),
                prefix_len == block@[3],
                prefix_len + rest == KEY_SIZE,
                keys_at == NODE_HDR_SIZE + prefix_len,
                values_at == keys_at + slot(count as int, rest as int),
                values_at + slot(count as int, VALUE_SZ as int) <= PAGE_SZ,
                keys@.len() == at,
                values@.len() == at,
                forall|i: int|
                    0 <= i < at ==> (#[trigger] keys@[i])@ == stored_key(
                        block@,
                        prefix_len as int,
                        i,
                    ),
                forall|i: int|
                    0 <= i < at ==> #[trigger] values@[i] == be_value(
                        stored_value(block@, values_at as int, i),
                    ),
                ascending(key_numbers(keys@)),
            decreases count - at,
        {
            proof {
                lemma_slot(at as int, count as int, rest as int);
                lemma_slot(at as int, count as int, VALUE_SZ as int);
            }
            assert(at * rest == slot(at as int, rest as int));
            assert(at * rest <= 8192);
            let key_at: usize = keys_at + at * rest;
            let mut bytes: Vec<u8> = Vec::new();
            put_bytes(&mut bytes, slice_subrange(block, NODE_HDR_SIZE, keys_at));
            put_bytes(&mut bytes, slice_subrange(block, key_at, key_at + rest));
            assert(bytes@ =~= stored_key(block@, prefix_len as int, at as int));
            let key: [u8; KEY_SIZE] = key_array(bytes.as_slice(), 0);
            assert(key@ =~= bytes@);
            let ghost before = keys@;
            if at > 0 && !be_less(keys[at - 1].as_slice(), key.as_slice()) {
                proof {
                    let node_keys = Seq::new(
                        count as nat,
                        |i: int| be_value(stored_key(block@, prefix_len as int, i)),
                    );
                    assert(node_keys[at - 1] == be_value(keys@[at - 1]@));
                    assert(node_keys[at as int] == be_value(key@));
                    assert(!ascending(node_keys));
                }
                return None;
            }
            let value_at: usize = values_at + at * VALUE_SZ;
            let value: u64 = get_be(block, value_at, VALUE_SZ);
            keys.push(key);
            values.push(value);
            proof {
                let numbers = key_numbers(keys@);
                assert forall|i: int, j: int| 0 <= i < j < numbers.len() implies numbers[i]
                    < numbers[j] by {
                    if j < at {
                        assert(key_numbers(before)[i] < key_numbers(before)[j]);
                    } else {
                        assert(key_numbers(before)[at - 1] == be_value(before[at - 1]@));
                        if i < at - 1 {
                            assert(key_numbers(before)[i] < key_numbers(before)[at - 1]);
                        }
                    }
                }
            }
            at = at + 1;
        }
        let node = OnDiskNode { level: block[2], keys, values };
        proof {
            let found = node_of(block@);
            let node_keys = Seq::new(
                count as nat,
                |i: int| be_value(stored_key(block@, prefix_len as int, i)),
            );
            assert(node_keys =~= node@.keys);
            let node_values = Seq::new(
                count as nat,
                |i: int| be_value(stored_value(block@, values_at as int, i)),
            );
            assert(node_values =~= node@.values);
        }
        Some(node)
    }

    /// How many keys of the node are at most `key`, found by halving.
    pub fn rank(&self, key: &[u8; KEY_SIZE]) -> (found: usize)
        requires
            ascending(self@.keys),
        ensures
            found == rank(self@.keys, be_value(key@)),
            found <= self.keys@.len(),
    {
        let ghost numbers = self@.keys;
        let mut low: usize = 0;
        let mut high: usize = self.keys.len();
        while low < high
            invariant
                low <= high <= self.keys@.len(),
                numbers == key_numbers(self.keys@),
                ascending(numbers),
                forall|i: int| 0 <= i < low ==> numbers[i] <= be_value(key@),
                forall|i: int| high <= i < numbers.len() ==> numbers[i] > be_value(key@),
            decreases high - low,
        {
            let mid: usize = low + (high - low) / 2;
            assert(numbers[mid as int] == be_value(self.keys@[mid as int]@));
            if be_less(key.as_slice(), self.keys[mid].as_slice()) {
                assert forall|i: int| mid <= i < numbers.len() implies numbers[i] > be_value(
                    key@,
                ) by {
                    if i > mid {
                        assert(numbers[mid as int] < numbers[i]);
                    }
                }
                high = mid;
            } else {
                assert forall|i: int| 0 <= i <= mid implies numbers[i] <= be_value(key@) by {
                    if i < mid {
                        assert(numbers[i] < numbers[mid as int]);
                    }
                }
                low = mid + 1;
            }
        }
        proof {
            lemma_rank_unique(numbers, be_value(key@), low as nat);
        }
        low
    }
}

/// A node that is being filled, before it is packed into a block.
pub struct BuildNode {
    level: u8,
    prefix_len: usize,
    keys: Vec<[u8; KEY_SIZE]>,
    values: Vec<u64>,
}

impl View for BuildNode {
    type V = NodeView;

    closed spec fn view(&self) -> NodeView {
        NodeView {
            level: self.level as nat,
            keys: key_numbers(self.keys@),
            values: value_numbers(self.values@),
        }
    }
}

impl BuildNode {
    /// What the node takes in its block.
    spec fn size(self) -> int {
        NODE_HDR_SIZE + self.prefix_len + slot(
            self.keys@.len() as int,
            KEY_SIZE + VALUE_SZ - self.prefix_len,
        )
    }

    /// The node has as many values as keys, its keys ascend and share the
    /// prefix, it fits in a block, and it was filled before it was compressed.
    pub closed spec fn wf(self) -> bool {
        &&& self.keys@.len() == self.values@.len()
        &&& self.prefix_len < KEY_SIZE
        &&& self.prefix_len > 0 ==> self.keys@.len() >= MIN_FULL
        &&& self.size() < PAGE_SZ
        &&& ascending(key_numbers(self.keys@))
        &&& forall|i: int|
            0 <= i < self.keys@.len() ==> (#[trigger] self.keys@[i])@.take(self.prefix_len as int)
                == self.keys@[0]@.take(self.prefix_len as int)
        &&& forall|i: int| 0 <= i < self.values@.len() ==> #[trigger] self.values@[i] < span(5)
    }

    /// Whether the node takes a key next: the key has the prefix that was taken
    /// out of the others, and there is room for it.
    pub closed spec fn accepts(self, key: Seq<u8>) -> bool {
        let prefix_len = self.prefix_len as int;
        &&& self.keys@.len() > 0 ==> key.take(prefix_len) == self.keys@[0]@.take(prefix_len)
        &&& self.size() + (KEY_SIZE + VALUE_SZ - prefix_len) < PAGE_SZ
    }

    /// Whether the keys share more than the prefix that was taken out of them.
    pub closed spec fn compressible(self) -> bool {
        let more = self.prefix_len + 1;
        self.keys@[0]@.take(more) == self.keys@.last()@.take(more)
    }

    /// What holds of the view of a well-formed node.
    pub proof fn lemma_wf(self)
        requires
            self.wf(),
        ensures
            self@.keys.len() == self@.values.len(),
            self@.keys.len() < PAGE_SZ,
            self@.level <= u8::MAX,
            ascending(self@.keys),
            forall|i: int| 0 <= i < self@.values.len() ==> #[trigger] self@.values[i] < span(5),
    {
        let count = self.keys@.len() as int;
        let width = KEY_SIZE + VALUE_SZ - self.prefix_len;
        assert(count * 1 <= count * width) by (nonlinear_arith)
            requires
                0 <= count,
                1 <= width,
        ;
    }

    /// The level of the node.
    pub fn level(&self) -> (level: u8)
        ensures
            level == self@.level,
    {
        self.level
    }

    /// How many entries the node has.
    pub fn len(&self) -> (len: usize)
        ensures
            len == self@.keys.len(),
    {
        self.keys.len()
    }

    /// The first key of the node.
    pub fn first_key(&self) -> (key: [u8; KEY_SIZE])
        requires
            self@.keys.len() > 0,
        ensures
            be_value(key@) == self@.keys[0],
    {
        self.keys[0]
    }

    /// An empty node.
    pub fn new(level: u8) -> (node: BuildNode)
        ensures
            node.wf(),
            node@.level == level,
            node@.keys.len() == 0,
            node@.values.len() == 0,
    {
        let node = BuildNode { level, prefix_len: 0, keys: Vec::new(), values: Vec::new() };
        assert(slot(0, 23) == 0);
        node
    }

    /// Appends an entry, if there is room and the key has the prefix that the
    /// other keys share.
    pub fn push(&mut self, key: &[u8; KEY_SIZE], value: u64) -> (pushed: bool)
        requires
            old(self).wf(),
            value < span(5),
            old(self)@.keys.len() > 0 ==> old(self)@.keys.last() < be_value(key@),
        ensures
            final(self).wf(),
            pushed == old(self).accepts(key@),
            final(self)@.level == old(self)@.level,
            pushed ==> final(self)@.keys == old(self)@.keys.push(be_value(key@)),
            pushed ==> final(self)@.values == old(self)@.values.push(value as nat),
            !pushed ==> *final(self) == *old(self),
            !pushed ==> old(self)@.keys.len() >= MIN_FULL,
    {
        let count: usize = self.keys.len();
        if count > 0 {
            let shared: usize = common_prefix(key.as_slice(), self.keys[0].as_slice());
            if shared < self.prefix_len {
                proof {
                    let prefix_len = self.prefix_len as int;
                    assert(key@.take(prefix_len)[shared as int] == key@[shared as int]);
                    assert(self.keys@[0]@.take(prefix_len)[shared as int] == self.keys@[0]@[
                        shared as int]);
                }
                return false;
            }
            proof {
                let prefix_len = self.prefix_len as int;
                assert(key@.take(prefix_len) =~= key@.take(shared as int).take(prefix_len));
                assert(self.keys@[0]@.take(prefix_len) =~= self.keys@[0]@.take(shared as int).take(
                    prefix_len,
                ));
            }
        }
        let width: usize = KEY_SIZE + VALUE_SZ - self.prefix_len;
        proof {
            assert(count * 1 <= count * width) by (nonlinear_arith)
                requires
                    0 <= count,
                    1 <= width,
            ;
            assert(slot(count as int, width as int) == count * width);
            lemma_slot(count as int, count + 1, width as int);
        }
        if NODE_HDR_SIZE + self.prefix_len + count * width + width >= PAGE_SZ {
            proof {
                if self.prefix_len == 0 {
                    assert(count * width == count * 23) by (nonlinear_arith)
                        requires
                            width == 23,
                    ;
                }
            }
            return false;
        }
        let ghost before = self.keys@;
        self.keys.push(*key);
        self.values.push(value);
        proof {
            let numbers = key_numbers(self.keys@);
            assert(numbers =~= key_numbers(before).push(be_value(key@)));
            assert forall|i: int, j: int| 0 <= i < j < numbers.len() implies numbers[i]
                < numbers[j] by {
                if j < count {
                    assert(key_numbers(before)[i] < key_numbers(before)[j]);
                } else if i < count - 1 {
                    assert(key_numbers(before)[i] < key_numbers(before)[count - 1]);
                }
            }
            assert(self@.values =~= old(self)@.values.push(value as nat));
        }
        true
    }

    /// Takes the bytes that all keys share out of the keys. Says whether there
    /// were any that had not been taken out before.
    pub fn compress(&mut self) -> (compressed: bool)
        requires
            old(self).wf(),
            old(self)@.keys.len() >= MIN_FULL,
        ensures
            final(self).wf(),
            final(self)@ == old(self)@,
            compressed == old(self).compressible(),
            !final(self).compressible(),
            !compressed ==> *final(self) == *old(self),
    {
        let count: usize = self.keys.len();
        let shared: usize = common_prefix(
            self.keys[0].as_slice(),
            self.keys[count - 1].as_slice(),
        );
        proof {
            let numbers = key_numbers(self.keys@);
            assert(numbers[0] < numbers[count - 1]);
            if shared == KEY_SIZE {
                assert(self.keys@[0]@.take(18) =~= self.keys@[0]@);
                assert(self.keys@[count - 1]@.take(18) =~= self.keys@[count - 1]@);
            }
        }
        let ghost first = self.keys@[0]@;
        let ghost last = self.keys@.last()@;
        proof {
            assert forall|more: int| shared < more <= KEY_SIZE implies #[trigger] first.take(more)
                != last.take(more) by {
                assert(first.take(more)[shared as int] == first[shared as int]);
                assert(last.take(more)[shared as int] == last[shared as int]);
            }
        }
        if shared <= self.prefix_len {
            return false;
        }
        proof {
            let more = self.prefix_len + 1;
            assert(first.take(more) =~= first.take(shared as int).take(more));
            assert(last.take(more) =~= last.take(shared as int).take(more));
            let numbers = key_numbers(self.keys@);
            assert forall|i: int| 0 <= i < count implies (#[trigger] self.keys@[i])@.take(
                shared as int,
            ) == self.keys@[0]@.take(shared as int) by {
                assert(i == 0 || numbers[0] < numbers[i]);
                assert(i == count - 1 || numbers[i] < numbers[count - 1]);
                lemma_prefix_between(
                    self.keys@[0]@,
                    self.keys@[i]@,
                    self.keys@[count - 1]@,
                    shared as int,
                );
            }
            let gained = shared - self.prefix_len;
            let width = KEY_SIZE + VALUE_SZ - self.prefix_len;
            assert(gained <= count * gained) by (nonlinear_arith)
                requires
                    1 <= count,
                    0 <= gained,
            ;
            assert(count * (width - gained) == count * width - count * gained) by (nonlinear_arith);
        }
        self.prefix_len = shared;
        true
    }

    /// A block with the parts of the node in their places holds the node.
    proof fn lemma_packed(self, block: Seq<u8>)
        requires
            self.wf(),
            block.len() == PAGE_SZ,
            block.subrange(0, 2) == be_bytes(self.keys@.len(), 2),
            block[2] == self.level,
            block[3] == self.prefix_len,
            block[4] == KEY_SIZE - self.prefix_len,
            self.keys@.len() > 0 ==> block.subrange(5, 5 + self.prefix_len) == self.keys@[0]@.take(
                self.prefix_len as int,
            ),
            forall|i: int|
                0 <= i < self.keys@.len() ==> block.subrange(
                    5 + self.prefix_len + slot(i, KEY_SIZE - self.prefix_len),
                    5 + self.prefix_len + slot(i, KEY_SIZE - self.prefix_len) + (KEY_SIZE
                        - self.prefix_len),
                ) == (#[trigger] self.keys@[i])@.skip(self.prefix_len as int),
            forall|i: int|
                0 <= i < self.values@.len() ==> block.subrange(
                    5 + self.prefix_len + slot(
                        self.keys@.len() as int,
                        KEY_SIZE - self.prefix_len,
                    ) + slot(i, 5),
                    5 + self.prefix_len + slot(
                        self.keys@.len() as int,
                        KEY_SIZE - self.prefix_len,
                    ) + slot(i, 5) + 5,
                ) == be_bytes(#[trigger] self.values@[i] as nat, 5),
        ensures
            node_of(block) == Some(self@),
    {
        let count = self.keys@.len();
        let prefix_len = self.prefix_len as int;
        let width = KEY_SIZE - prefix_len;
        let values_at = 5 + prefix_len + slot(count as int, width);
        self.lemma_wf();
        lemma_spans();
        lemma_value_of_bytes(count, 2);
        assert(slot(count as int, width) + slot(count as int, 5) == slot(count as int, width + 5))
            by (nonlinear_arith);
        let node_keys = Seq::new(count, |i: int| be_value(stored_key(block, prefix_len, i)));
        assert forall|i: int| 0 <= i < count implies #[trigger] node_keys[i] == self@.keys[i] by {
            let key = self.keys@[i]@;
            assert(key.take(prefix_len) == self.keys@[0]@.take(prefix_len));
            assert(key =~= key.take(prefix_len) + key.skip(prefix_len));
        }
        assert(node_keys =~= self@.keys);
        let node_values = Seq::new(count, |i: int| be_value(stored_value(block, values_at, i)));
        assert forall|i: int| 0 <= i < count implies #[trigger] node_values[i]
            == self@.values[i] by {
            lemma_value_of_bytes(self.values@[i] as nat, 5);
        }
        assert(node_values =~= self@.values);
    }

    /// The block that holds the node.
    pub fn pack(&self) -> (block: Vec<u8>)
        requires
            self.wf(),
        ensures
            node_of(block@) == Some(self@),
    {
        let count: usize = self.keys.len();
        let prefix_len: usize = self.prefix_len;
        let rest: usize = KEY_SIZE - prefix_len;
        let mut buf: Vec<u8> = Vec::new();
        put_be(&mut buf, count as u64, 2);
        proof {
            lemma_be_bytes_len(count as nat, 2);
        }
        buf.push(self.level);
        buf.push(prefix_len as u8);
        buf.push(rest as u8);
        let ghost head = buf@;
        assert(head.len() == NODE_HDR_SIZE);
        assert(head.subrange(0, 2) =~= be_bytes(count as nat, 2));
        let ghost prefix = if count > 0 { self.keys@[0]@.take(prefix_len as int) } else {
            Seq::<u8>::empty()
        };
        if count > 0 {
            put_bytes(&mut buf, slice_subrange(self.keys[0].as_slice(), 0, prefix_len));
            assert(buf@ =~= head + prefix);
        }
        let ghost keys_at = NODE_HDR_SIZE + prefix_len;
        let ghost width = rest as int;
        proof {
            assert(count * width + count * 5 == count * (width + 5)) by (nonlinear_arith);
            assert(slot(0, width) == 0);
            assert(0 <= count * width) by (nonlinear_arith)
                requires
                    0 <= count,
                    0 <= width,
            ;
        }
        let mut at: usize = 0;
        while at < count
            invariant
                self.wf(),
                at <= count == self.keys@.len(),
                prefix_len == self.prefix_len,
                prefix_len + rest == KEY_SIZE,
                width == rest,
                head.len() == NODE_HDR_SIZE,
                keys_at == NODE_HDR_SIZE + prefix_len,
                prefix.len() == prefix_len,
                buf@.len() == keys_at + slot(at as int, width),
                buf@.subrange(0, keys_at) == head + prefix,
                forall|i: int|
                    0 <= i < at ==> buf@.subrange(
                        keys_at + slot(i, width),
                        keys_at + slot(i, width) + width,
                    ) == (#[trigger] self.keys@[i])@.skip(prefix_len as int),
            decreases count - at,
        {
            let ghost before = buf@;
            put_bytes(&mut buf, slice_subrange(self.keys[at].as_slice(), prefix_len, KEY_SIZE));
            proof {
                lemma_slot(at as int, count as int, width);
                assert(buf@.subrange(0, keys_at) =~= before.subrange(0, keys_at));
                assert forall|i: int| 0 <= i < at + 1 implies buf@.subrange(
                    keys_at + slot(i, width),
                    keys_at + slot(i, width) + width,
                ) == (#[trigger] self.keys@[i])@.skip(prefix_len as int) by {
                    let from = keys_at + slot(i, width);
                    if i < at {
                        lemma_slot(i, at as int, width);
                        assert(buf@.subrange(from, from + width) =~= before.subrange(
                            from,
                            from + width,
                        ));
                    } else {
                        assert(buf@.subrange(from, from + width) =~= self.keys@[i]@.skip(
                            prefix_len as int,
                        ));
                    }
                }
            }
            at = at + 1;
        }
        let ghost values_at = keys_at + slot(count as int, width);
        let ghost front = buf@;
        at = 0;
        while at < count
            invariant
                self.wf(),
                at <= count == self.values@.len(),
                values_at == front.len(),
                buf@.len() == values_at + slot(at as int, 5),
                buf@.subrange(0, values_at) == front,
                forall|i: int|
                    0 <= i < at ==> buf@.subrange(
                        values_at + slot(i, 5),
                        values_at + slot(i, 5) + 5,
                    ) == be_bytes(#[trigger] self.values@[i] as nat, 5),
            decreases count - at,
        {
            let ghost before = buf@;
            put_be(&mut buf, self.values[at], VALUE_SZ);
            proof {
                lemma_be_bytes_len(self.values@[at as int] as nat, 5);
                lemma_slot(at as int, count as int, 5);
                assert(buf@.subrange(0, values_at) =~= before.subrange(0, values_at));
                assert forall|i: int| 0 <= i < at + 1 implies buf@.subrange(
                    values_at + slot(i, 5),
                    values_at + slot(i, 5) + 5,
                ) == be_bytes(#[trigger] self.values@[i] as nat, 5) by {
                    let from = values_at + slot(i, 5);
                    if i < at {
                        lemma_slot(i, at as int, 5);
                        assert(buf@.subrange(from, from + 5) =~= before.subrange(from, from + 5));
                    } else {
                        assert(buf@.subrange(from, from + 5) =~= be_bytes(
                            self.values@[i] as nat,
                            5,
                        ));
                    }
                }
            }
            at = at + 1;
        }
        let ghost full = buf@;
        buf.resize(PAGE_SZ, 0);
        proof {
            let block = buf@;
            let written = full.len() as int;
            assert(block.subrange(0, written) == full);
            assert(block.subrange(0, values_at) =~= full.subrange(0, values_at)) by {
                assert(block.subrange(0, values_at) =~= block.subrange(0, written).subrange(
                    0,
                    values_at,
                ));
            }
            assert(block.subrange(0, values_at) == front);
            assert(block.subrange(0, keys_at) =~= block.subrange(0, values_at).subrange(
                0,
                keys_at,
            ));
            assert(block.subrange(0, keys_at) == head + prefix);
            assert(block.subrange(0, 2) =~= (head + prefix).subrange(0, 2)) by {
                assert(block.subrange(0, 2) =~= block.subrange(0, keys_at).subrange(0, 2));
            }
            assert((head + prefix).subrange(0, 2) =~= head.subrange(0, 2));
            assert(block[2] == block.subrange(0, keys_at)[2]);
            assert(block[3] == block.subrange(0, keys_at)[3]);
            assert(block[4] == block.subrange(0, keys_at)[4]);
            assert(block.subrange(5, keys_at) =~= block.subrange(0, keys_at).subrange(5, keys_at));
            assert((head + prefix).subrange(5, keys_at) =~= prefix);
            assert forall|i: int| 0 <= i < count implies block.subrange(
                keys_at + slot(i, width),
                keys_at + slot(i, width) + width,
            ) == (#[trigger] self.keys@[i])@.skip(prefix_len as int) by {
                lemma_slot(i, count as int, width);
                let from = keys_at + slot(i, width);
                assert(block.subrange(from, from + width) =~= block.subrange(
                    0,
                    values_at,
                ).subrange(from, from + width));
            }
            assert forall|i: int| 0 <= i < count implies block.subrange(
                values_at + slot(i, 5),
                values_at + slot(i, 5) + 5,
            ) == be_bytes(#[trigger] self.values@[i] as nat, 5) by {
                lemma_slot(i, count as int, 5);
                let from = values_at + slot(i, 5);
                assert(block.subrange(from, from + 5) =~= block.subrange(0, written).subrange(
                    from,
                    from + 5,
                ));
            }
            self.lemma_packed(block);
        }
        buf
    }
}

} // verus!
