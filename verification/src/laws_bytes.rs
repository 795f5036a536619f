//! What the bytes are that calls give and take: keys, summaries and blobs.
use vstd::prelude::*;

use crate::big_endian::{
    be_bytes, be_value, lemma_be_bytes_len, lemma_spans, lemma_value_of_bytes,
};
use crate::blob::{blob_frame, put_blob, stored_len, LONG_MARK};
use crate::btree::{
    law_index_search, lemma_lookup_absent, lemma_lookup_found, search_tree, Search,
};
use crate::btree_build::{block_views, DiskBtreeBuilder, DiskBtreeError};
use crate::ids::{Lsn, TenantId, TimelineId};
use crate::image_layer::{ImageLayerInner, LoadError};
use crate::key::{
    law_key_number, law_key_order, lemma_key_fields, Key, KeyRange, KEY_SIZE,
};
use crate::summary::{
    is_at_front, lemma_summary_of, lemma_summary_parts, summary_of, DeserializeError, Summary,
};

verus! {

/// The number in two bytes from `at` on, the first counting 256 times the second.
pub open spec fn u16_at(bytes: Seq<u8>, at: int) -> int {
    bytes[at] * 0x100 + bytes[at + 1]
}

/// The number in four bytes from `at` on, the first counting most.
pub open spec fn u32_at(bytes: Seq<u8>, at: int) -> int {
    u16_at(bytes, at) * 0x1_0000 + u16_at(bytes, at + 2)
}

/// The number in eight bytes from `at` on, the first counting most.
pub open spec fn u64_at(bytes: Seq<u8>, at: int) -> int {
    u32_at(bytes, at) * 0x1_0000_0000 + u32_at(bytes, at + 4)
}

/// Whether the bytes from `at` on are those of a key: its fields one after
/// another.
pub open spec fn key_at(bytes: Seq<u8>, at: int, key: Key) -> bool {
    &&& bytes[at] == key.field1
    &&& u32_at(bytes, at + 1) == key.field2
    &&& u32_at(bytes, at + 5) == key.field3
    &&& u32_at(bytes, at + 9) == key.field4
    &&& bytes[at + 13] == key.field5
    &&& u32_at(bytes, at + 14) == key.field6
}

/// Whether the bytes start with the fields of a summary, one after another.
pub open spec fn summary_at(bytes: Seq<u8>, summary: Summary) -> bool {
    &&& bytes.len() >= 88
    &&& u16_at(bytes, 0) == summary.magic
    &&& u16_at(bytes, 2) == summary.format_version
    &&& forall|i: int| 0 <= i < 16 ==> bytes[4 + i] == #[trigger] summary.tenant_id.0@[i]
    &&& forall|i: int| 0 <= i < 16 ==> bytes[20 + i] == #[trigger] summary.timeline_id.0@[i]
    &&& key_at(bytes, 36, summary.key_range.start)
    &&& key_at(bytes, 54, summary.key_range.end)
    &&& u64_at(bytes, 72) == summary.lsn.0
    &&& u32_at(bytes, 80) == summary.index_start_blk
    &&& u32_at(bytes, 84) == summary.index_root_blk
}

/// One byte more makes what stands before it count 256 times.
proof fn lemma_one_more(bytes: Seq<u8>, at: int, width: int)
    requires
        0 <= at,
        0 <= width,
        at + width < bytes.len(),
    ensures
        be_value(bytes.subrange(at, at + width + 1)) == be_value(bytes.subrange(at, at + width))
            * 256 + bytes[at + width],
{
    let part = bytes.subrange(at, at + width + 1);
    assert(part.drop_last() =~= bytes.subrange(at, at + width));
}

/// The number in one byte.
proof fn lemma_one(bytes: Seq<u8>, at: int)
    requires
        0 <= at < bytes.len(),
    ensures
        bytes[at] == be_value(bytes.subrange(at, at + 1)),
{
    let part = bytes.subrange(at, at + 1);
    assert(part.drop_last() =~= Seq::<u8>::empty());
    assert(be_value(part.drop_last()) == 0);
}

/// The number in two bytes.
proof fn lemma_two(bytes: Seq<u8>, at: int)
    requires
        0 <= at,
        at + 2 <= bytes.len(),
    ensures
        u16_at(bytes, at) == be_value(bytes.subrange(at, at + 2)),
{
    let part = bytes.subrange(at, at + 2);
    assert(part.drop_last() =~= bytes.subrange(at, at + 1));
    lemma_one(bytes, at);
}

/// The number in four bytes.
proof fn lemma_four(bytes: Seq<u8>, at: int)
    requires
        0 <= at,
        at + 4 <= bytes.len(),
    ensures
        u32_at(bytes, at) == be_value(bytes.subrange(at, at + 4)),
{
    lemma_two(bytes, at);
    lemma_one_more(bytes, at, 2);
    lemma_one_more(bytes, at, 3);
}

/// The number in eight bytes.
proof fn lemma_eight(bytes: Seq<u8>, at: int)
    requires
        0 <= at,
        at + 8 <= bytes.len(),
    ensures
        u64_at(bytes, at) == be_value(bytes.subrange(at, at + 8)),
{
    lemma_four(bytes, at);
    lemma_one_more(bytes, at, 4);
    lemma_one_more(bytes, at, 5);
    lemma_one_more(bytes, at, 6);
    lemma_one_more(bytes, at, 7);
}

/// Where the bytes of a key stand, its fields can be read.
pub proof fn lemma_key_at(bytes: Seq<u8>, at: int, key: Key)
    requires
        0 <= at,
        at + KEY_SIZE <= bytes.len(),
        bytes.subrange(at, at + KEY_SIZE) == key.bytes(),
    ensures
        key_at(bytes, at, key),
{
    let part = bytes.subrange(at, at + KEY_SIZE);
    lemma_key_fields(key);
    lemma_spans();
    lemma_value_of_bytes(key.field1 as nat, 1);
    lemma_value_of_bytes(key.field2 as nat, 4);
    lemma_value_of_bytes(key.field3 as nat, 4);
    lemma_value_of_bytes(key.field4 as nat, 4);
    lemma_value_of_bytes(key.field5 as nat, 1);
    lemma_value_of_bytes(key.field6 as nat, 4);
    lemma_one(part, 0);
    lemma_four(part, 1);
    lemma_four(part, 5);
    lemma_four(part, 9);
    lemma_one(part, 13);
    lemma_four(part, 14);
}

/// Where the bytes of a summary stand, its fields can be read.
proof fn lemma_summary_at(bytes: Seq<u8>, summary: Summary)
    requires
        is_at_front(bytes, summary),
    ensures
        summary_at(bytes, summary),
{
    let part = bytes.take(88);
    lemma_summary_parts(summary);
    lemma_spans();
    lemma_value_of_bytes(summary.magic as nat, 2);
    lemma_value_of_bytes(summary.format_version as nat, 2);
    lemma_value_of_bytes(summary.lsn.0 as nat, 8);
    lemma_value_of_bytes(summary.index_start_blk as nat, 4);
    lemma_value_of_bytes(summary.index_root_blk as nat, 4);
    lemma_two(part, 0);
    lemma_two(part, 2);
    lemma_key_at(part, 36, summary.key_range.start);
    lemma_key_at(part, 54, summary.key_range.end);
    lemma_eight(part, 72);
    lemma_four(part, 80);
    lemma_four(part, 84);
    assert forall|i: int| 0 <= i < 16 implies bytes[4 + i] == #[trigger] summary.tenant_id.0@[
        i] by {
        assert(part.subrange(4, 20)[i] == bytes[4 + i]);
    }
    assert forall|i: int| 0 <= i < 16 implies bytes[20 + i] == #[trigger] summary.timeline_id.0@[
        i] by {
        assert(part.subrange(20, 36)[i] == bytes[20 + i]);
    }
}

/// Two summaries that can be read from the same bytes are one.
pub proof fn law_summary_at_unique(bytes: Seq<u8>, left: Summary, right: Summary)
    requires
        summary_at(bytes, left),
        summary_at(bytes, right),
    ensures
        left == right,
{
    assert(left.tenant_id.0 =~= right.tenant_id.0) by {
        assert forall|i: int| 0 <= i < 16 implies left.tenant_id.0@[i]
            == right.tenant_id.0@[i] by {
            assert(bytes[4 + i] == left.tenant_id.0@[i]);
            assert(bytes[4 + i] == right.tenant_id.0@[i]);
        }
    }
    assert(left.timeline_id.0 =~= right.timeline_id.0) by {
        assert forall|i: int| 0 <= i < 16 implies left.timeline_id.0@[i]
            == right.timeline_id.0@[i] by {
            assert(bytes[20 + i] == left.timeline_id.0@[i]);
            assert(bytes[20 + i] == right.timeline_id.0@[i]);
        }
    }
}

/// `Key::to_bytes` gives the fields of the key one after another.
pub proof fn law_key_to_bytes(key: Key, bytes: [u8; KEY_SIZE])
    requires
        call_ensures(Key::to_bytes, (&key,), bytes),
    ensures
        key_at(bytes@, 0, key),
{
    assert(bytes@.subrange(0, 18) =~= bytes@);
    lemma_key_at(bytes@, 0, key);
}

/// `Key::is_before` orders keys by their numbers.
pub proof fn law_key_is_before(left: Key, right: Key, before: bool)
    requires
        call_ensures(Key::is_before, (&left, &right), before),
    ensures
        before <==> left.number() < right.number(),
{
    law_key_order(left, right);
}

/// `KeyRange::contains` says whether the number of a key lies in the range: its
/// start is in it, its end is not.
pub proof fn law_range_contains(range: KeyRange, key: Key, held: bool)
    requires
        call_ensures(KeyRange::contains, (&range, &key), held),
    ensures
        held <==> range.start.number() <= key.number() < range.end.number(),
{
    law_key_order(key, range.start);
    law_key_order(key, range.end);
}

/// Different keys have different numbers, so that a range holds a key by what the
/// key is.
pub proof fn law_key_number_tells(left: Key, right: Key)
    ensures
        left.number() == right.number() <==> left == right,
{
    law_key_number(left);
    law_key_number(right);
    law_key_order(left, right);
    law_key_order(right, left);
}

/// `Summary::ser` gives the fields of the summary one after another, in 88 bytes.
pub proof fn law_summary_ser(summary: Summary, buf: Vec<u8>)
    requires
        call_ensures(Summary::ser, (&summary,), buf),
    ensures
        buf@.len() == 88,
        summary_at(buf@, summary),
{
    assert(buf@.take(88) =~= buf@);
    lemma_summary_at(buf@, summary);
}

/// `Summary::des_prefix` reads the summary that the bytes start with. It fails only
/// where there are too few bytes.
pub proof fn law_summary_des_prefix(buf: &[u8], result: Result<Summary, DeserializeError>)
    requires
        call_ensures(Summary::des_prefix, (buf,), result),
    ensures
        result is Ok <==> buf@.len() >= 88,
        result is Ok ==> summary_at(buf@, result->Ok_0),
{
    if result is Ok {
        lemma_summary_at(buf@, result->Ok_0);
    }
}

/// What `Summary::ser` gives, `Summary::des_prefix` reads back, whatever follows.
pub proof fn law_summary_round_trip(
    summary: Summary,
    buf: Vec<u8>,
    more: &[u8],
    result: Result<Summary, DeserializeError>,
)
    requires
        call_ensures(Summary::ser, (&summary,), buf),
        buf@.is_prefix_of(more@),
        call_ensures(Summary::des_prefix, (more,), result),
    ensures
        result == Ok::<Summary, DeserializeError>(summary),
{
    assert(more@.take(88) =~= buf@);
    lemma_summary_of(more@, summary);
}

/// `Summary::expected` gives the summary of an image layer file of the present
/// format, with what it is told, and no place of the index.
pub proof fn law_summary_expected(
    tenant_id: TenantId,
    timeline_id: TimelineId,
    key_range: KeyRange,
    lsn: Lsn,
    summary: Summary,
)
    requires
        call_ensures(Summary::expected, (tenant_id, timeline_id, key_range, lsn), summary),
    ensures
        summary.magic == 0x5A60,
        summary.format_version == 3,
        summary.tenant_id == tenant_id,
        summary.timeline_id == timeline_id,
        summary.key_range == key_range,
        summary.lsn == lsn,
        summary.index_start_blk == 0,
        summary.index_root_blk == 0,
{
}

/// Whether what two summaries say of the layer is the same.
pub open spec fn same_layer(left: Summary, right: Summary) -> bool {
    &&& left.magic == right.magic
    &&& left.format_version == right.format_version
    &&& left.tenant_id == right.tenant_id
    &&& left.timeline_id == right.timeline_id
    &&& left.key_range == right.key_range
    &&& left.lsn == right.lsn
}

/// `ImageLayerInner::load` takes a block whose summary says of the layer what is
/// expected, if anything is, and tells where the index is by what the block says.
pub proof fn law_load(
    lsn: Lsn,
    expected: Option<Summary>,
    block: &[u8],
    actual: Summary,
    result: Result<ImageLayerInner, LoadError>,
)
    requires
        call_ensures(ImageLayerInner::load, (lsn, expected, block), result),
        summary_at(block@, actual),
    ensures
        result is Ok <==> block@.len() == 8192 && (expected is Some ==> same_layer(
            actual,
            expected->0,
        )),
        result is Ok ==> {
            &&& result->Ok_0.index_start_blk == actual.index_start_blk
            &&& result->Ok_0.index_root_blk == actual.index_root_blk
            &&& result->Ok_0.lsn == lsn
        },
        result is Err && block@.len() == 8192 ==> result == Err::<ImageLayerInner, LoadError>(
            LoadError::SummaryMismatch {
                actual,
                expected: Summary {
                    index_start_blk: actual.index_start_blk,
                    index_root_blk: actual.index_root_blk,
                    ..expected->0
                },
            },
        ),
        block@.len() != 8192 ==> result == Err::<ImageLayerInner, LoadError>(
            LoadError::BlockSize,
        ),
{
    if let Some(found) = summary_of(block@) {
        lemma_found(block@, found);
        law_summary_at_unique(block@, actual, found);
    }
}

/// The summary that is found at the front of a buffer can be read there.
pub proof fn lemma_found(bytes: Seq<u8>, summary: Summary)
    requires
        summary_of(bytes) == Some(summary),
    ensures
        summary_at(bytes, summary),
{
    lemma_summary_at(bytes, summary);
}

/// A stored blob: its length, in one byte or in four, and then its bytes.
pub proof fn law_blob_frame(blob: Seq<u8>)
    requires
        blob.len() <= 0x7fff_ffff,
    ensures
        blob.len() < 128 ==> {
            &&& blob_frame(blob).len() == 1 + blob.len()
            &&& blob_frame(blob)[0] == blob.len()
            &&& blob_frame(blob).skip(1) == blob
        },
        blob.len() >= 128 ==> {
            &&& blob_frame(blob).len() == 4 + blob.len()
            &&& u32_at(blob_frame(blob), 0) == 0x8000_0000 + blob.len()
            &&& blob_frame(blob).skip(4) == blob
        },
{
    let frame = blob_frame(blob);
    if blob.len() < 128 {
        assert(frame.skip(1) =~= blob);
    } else {
        let number = LONG_MARK as nat + blob.len();
        lemma_be_bytes_len(number, 4);
        lemma_spans();
        lemma_value_of_bytes(number, 4);
        assert(frame.subrange(0, 4) =~= be_bytes(number, 4));
        lemma_four(frame, 0);
        assert(frame.skip(4) =~= blob);
    }
}

/// `put_blob` appends the length of a blob, in one byte or in four, and its bytes.
pub proof fn law_put_blob(before: Vec<u8>, blob: &[u8], after: Vec<u8>)
    requires
        exists|buf: &mut Vec<u8>|
            *buf == before && *final(buf) == after && #[trigger] call_ensures(
                put_blob,
                (buf, blob),
                (),
            ),
        blob@.len() <= 0x7fff_ffff,
    ensures
        before@.is_prefix_of(after@),
        blob@.len() < 128 ==> {
            &&& after@.len() == before@.len() + 1 + blob@.len()
            &&& after@[before@.len() as int] == blob@.len()
        },
        blob@.len() >= 128 ==> {
            &&& after@.len() == before@.len() + 4 + blob@.len()
            &&& u32_at(after@, before@.len() as int) == 0x8000_0000 + blob@.len()
        },
        after@.skip(after@.len() - blob@.len()) == blob@,
{
    let frame = blob_frame(blob@);
    let start = before@.len() as int;
    law_blob_frame(blob@);
    assert(after@ == before@ + frame);
    assert(after@.skip(after@.len() - blob@.len()) =~= frame.skip(frame.len() - blob@.len()));
    assert(after@[start] == frame[0]);
    if blob@.len() >= 128 {
        assert(after@[start + 1] == frame[1] && after@[start + 2] == frame[2] && after@[start + 3]
            == frame[3]);
    }
}

/// `stored_len` tells how many bytes a blob takes.
pub proof fn law_stored_len(len: usize, stored: u64)
    requires
        call_ensures(stored_len, (len,), stored),
        len <= 0x7fff_ffff,
    ensures
        len < 128 ==> stored == len + 1,
        len >= 128 ==> stored == len + 4,
{
    let blob = Seq::new(len as nat, |i: int| 0u8);
    law_blob_frame(blob);
    assert(blob_frame(blob).len() == stored);
}

/// `Summary::same` compares all that summaries say.
pub proof fn law_summary_same(left: Summary, right: Summary, same: bool)
    requires
        call_ensures(Summary::same, (&left, &right), same),
    ensures
        same <==> same_layer(left, right) && left.index_start_blk == right.index_start_blk
            && left.index_root_blk == right.index_root_blk,
{
}

/// The index that a builder gives finds each entry that was appended, and no other
/// key, whatever blocks follow it.
pub proof fn law_index_built(
    builder: DiskBtreeBuilder,
    root: u32,
    blocks: Vec<Vec<u8>>,
    more: Seq<Seq<u8>>,
    at: int,
    other: nat,
)
    requires
        call_ensures(DiskBtreeBuilder::finish, (builder,), (root, blocks)),
        block_views(blocks@).is_prefix_of(more),
        0 <= at < builder@.len(),
        forall|i: int| 0 <= i < builder@.len() ==> (#[trigger] builder@[i]).0 != other,
    ensures
        search_tree(more, root as int, builder@[at].0) == Search::Found(builder@[at].1),
        search_tree(more, root as int, other) == Search::Absent,
{
    let made = block_views(blocks@);
    law_index_search(made, more, root as int, builder@, builder@[at].0);
    law_index_search(made, more, root as int, builder@, other);
    lemma_lookup_found(builder@, at);
    lemma_lookup_absent(builder@, other);
}

/// A builder takes an entry where its offset is not too large and its key is above
/// the last one, and nowhere else; then the entry comes last.
pub proof fn law_index_append(
    before: DiskBtreeBuilder,
    key: [u8; KEY_SIZE],
    value: u64,
    result: Result<(), DiskBtreeError>,
    after: DiskBtreeBuilder,
)
    requires
        exists|b: &mut DiskBtreeBuilder|
            *b == before && *final(b) == after && #[trigger] call_ensures(
                DiskBtreeBuilder::append,
                (b, &key, value),
                result,
            ),
    ensures
        result is Ok <==> value <= 0x7f_ffff_ffff && (before@.len() == 0 || before@.last().0
            < be_value(key@)),
        result is Ok ==> after@ == before@.push((be_value(key@), value as nat)),
        result is Err ==> after@ == before@,
{
}

} // verus!
