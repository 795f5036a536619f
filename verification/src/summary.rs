//! The summary: the fixed-size header in the first block of a file.
use vstd::prelude::*;

use crate::big_endian::{be_bytes, get_be, put_be, put_bytes};
use crate::big_endian::{
    lemma_be_bytes_len, lemma_be_value_bound, lemma_bytes_of_value, lemma_spans,
    lemma_value_of_bytes,
};
use crate::format::{IMAGE_FILE_MAGIC, STORAGE_FORMAT_VERSION};
use crate::ids::{id_array, Lsn, TenantId, TimelineId};
use crate::key::{
    law_bytes_of_their_key, law_key_of_its_bytes, lemma_key_bytes_len, Key, KeyRange,
};

verus! {

/// How many bytes a summary takes.
pub const SUMMARY_SIZE: usize = 88;

/// Header stored in the beginning of the file.
///
/// After this comes the "values" part, starting on block 1. After that, the
/// "index" starts at the block indicated by `index_start_blk`.
#[derive(Clone, Copy, Debug, PartialEq, Eq)]
pub struct Summary {
    /// Identifies the file as an image layer. Always `IMAGE_FILE_MAGIC`.
    pub magic: u16,
    pub format_version: u16,
    pub tenant_id: TenantId,
    pub timeline_id: TimelineId,
    pub key_range: KeyRange,
    pub lsn: Lsn,
    /// Block number where the "index" part of the file begins.
    pub index_start_blk: u32,
    /// Block within the "index", where the B-tree root page is stored.
    pub index_root_blk: u32,
}

/// Why no summary could be read.
#[derive(Clone, Copy, Debug, PartialEq, Eq, Structural)]
pub enum DeserializeError {
    /// There are fewer bytes than a summary takes.
    UnexpectedEnd,
}

impl Summary {
    /// The summary as it is stored: each field in turn, numbers big-endian.
    pub open spec fn bytes(self) -> Seq<u8> {
        be_bytes(self.magic as nat, 2) + be_bytes(self.format_version as nat, 2)
            + self.tenant_id.0@ + self.timeline_id.0@ + self.key_range.start.bytes()
            + self.key_range.end.bytes() + be_bytes(self.lsn.0 as nat, 8) + be_bytes(
            self.index_start_blk as nat,
            4,
        ) + be_bytes(self.index_root_blk as nat, 4)
    }

    /// The summary that a layer's file has to have, but for where the index is.
    pub open spec fn spec_expected(
        tenant_id: TenantId,
        timeline_id: TimelineId,
        key_range: KeyRange,
        lsn: Lsn,
    ) -> Summary {
        Summary {
            magic: IMAGE_FILE_MAGIC,
            format_version: STORAGE_FORMAT_VERSION,
            tenant_id,
            timeline_id,
            key_range,
            lsn,
            index_start_blk: 0,
            index_root_blk: 0,
        }
    }

    /// The summary that a layer's file has to have. Where the index is stays 0.
    pub fn expected(
        tenant_id: TenantId,
        timeline_id: TimelineId,
        key_range: KeyRange,
        lsn: Lsn,
    ) -> (summary: Summary)
        ensures
            summary == Summary::spec_expected(tenant_id, timeline_id, key_range, lsn),
    {
        Summary {
            magic: IMAGE_FILE_MAGIC,
            format_version: STORAGE_FORMAT_VERSION,
            tenant_id,
            timeline_id,
            key_range,
            lsn,
            index_start_blk: 0,
            index_root_blk: 0,
        }
    }

    /// The summary with its index where that of `other` is.
    pub open spec fn with_index_of(self, other: Summary) -> Summary {
        Summary {
            index_start_blk: other.index_start_blk,
            index_root_blk: other.index_root_blk,
            ..self
        }
    }

    /// Whether the two are the same in every field.
    pub fn same(&self, other: &Summary) -> (same: bool)
        ensures
            same == (*self == *other),
    {
        self.magic == other.magic && self.format_version == other.format_version
            && self.tenant_id.same(&other.tenant_id) && self.timeline_id.same(&other.timeline_id)
            && self.key_range == other.key_range && self.lsn == other.lsn && self.index_start_blk
            == other.index_start_blk && self.index_root_blk == other.index_root_blk
    }

    /// The bytes of the summary.
    pub fn ser(&self) -> (buf: Vec<u8>)
        ensures
            buf@ == self.bytes(),
            buf@.len() == SUMMARY_SIZE,
    {
        let mut buf: Vec<u8> = Vec::new();
        put_be(&mut buf, self.magic as u64, 2);
        put_be(&mut buf, self.format_version as u64, 2);
        put_bytes(&mut buf, self.tenant_id.0.as_slice());
        put_bytes(&mut buf, self.timeline_id.0.as_slice());
        self.key_range.start.put(&mut buf);
        self.key_range.end.put(&mut buf);
        put_be(&mut buf, self.lsn.0, 8);
        put_be(&mut buf, self.index_start_blk as u64, 4);
        put_be(&mut buf, self.index_root_blk as u64, 4);
        assert(buf@ =~= self.bytes());
        proof {
            lemma_summary_parts(*self);
        }
        buf
    }

    /// Reads the summary at the front of `buf`. What follows it is not looked
    /// at.
    pub fn des_prefix(buf: &[u8]) -> (result: Result<Summary, DeserializeError>)
        ensures
            match result {
                Ok(summary) => {
                    &&& buf@.len() >= SUMMARY_SIZE
                    &&& is_at_front(buf@, summary)
                    &&& summary_of(buf@) == Some(summary)
                },
                Err(_) => buf@.len() < SUMMARY_SIZE && summary_of(buf@) is None,
            },
    {
        if buf.len() < SUMMARY_SIZE {
            return Err(DeserializeError::UnexpectedEnd);
        }
        proof {
            lemma_spans();
            lemma_be_value_bound(buf@.subrange(0, 2));
            lemma_be_value_bound(buf@.subrange(2, 4));
            lemma_be_value_bound(buf@.subrange(72, 80));
            lemma_be_value_bound(buf@.subrange(80, 84));
            lemma_be_value_bound(buf@.subrange(84, 88));
            lemma_bytes_of_value(buf@.subrange(0, 2));
            lemma_bytes_of_value(buf@.subrange(2, 4));
            lemma_bytes_of_value(buf@.subrange(72, 80));
            lemma_bytes_of_value(buf@.subrange(80, 84));
            lemma_bytes_of_value(buf@.subrange(84, 88));
            law_bytes_of_their_key(buf@.subrange(36, 54));
            law_bytes_of_their_key(buf@.subrange(54, 72));
        }
        let summary = Summary {
            magic: get_be(buf, 0, 2) as u16,
            format_version: get_be(buf, 2, 2) as u16,
            tenant_id: TenantId(id_array(buf, 4)),
            timeline_id: TimelineId(id_array(buf, 20)),
            key_range: KeyRange { start: Key::get(buf, 36), end: Key::get(buf, 54) },
            lsn: Lsn(get_be(buf, 72, 8)),
            index_start_blk: get_be(buf, 80, 4) as u32,
            index_root_blk: get_be(buf, 84, 4) as u32,
        };
        proof {
            assert(summary.bytes() =~= buf@.take(SUMMARY_SIZE as int));
            lemma_summary_of(buf@, summary);
        }
        Ok(summary)
    }
}

/// The summary at the front of `buf`, where there is room for one.
pub open spec fn summary_of(buf: Seq<u8>) -> Option<Summary> {
    if exists|summary: Summary| is_at_front(buf, summary) {
        Some(choose|summary: Summary| is_at_front(buf, summary))
    } else {
        None
    }
}

/// Whether `buf` starts with `summary` as it is stored.
pub open spec fn is_at_front(buf: Seq<u8>, summary: Summary) -> bool {
    buf.len() >= SUMMARY_SIZE && buf.take(SUMMARY_SIZE as int) == summary.bytes()
}

/// There is at most one summary at the front.
pub proof fn lemma_summary_of(buf: Seq<u8>, summary: Summary)
    requires
        is_at_front(buf, summary),
    ensures
        summary_of(buf) == Some(summary),
{
    law_summary_read_back(summary, summary_of(buf)->0);
}

/// Every summary takes `SUMMARY_SIZE` bytes.
pub proof fn lemma_summary_len(summary: Summary)
    ensures
        summary.bytes().len() == SUMMARY_SIZE,
{
    lemma_summary_parts(summary);
}

/// Where each field lies in the bytes of a summary.
pub proof fn lemma_summary_parts(summary: Summary)
    ensures
        summary.bytes().len() == SUMMARY_SIZE,
        summary.bytes().subrange(0, 2) == be_bytes(summary.magic as nat, 2),
        summary.bytes().subrange(2, 4) == be_bytes(summary.format_version as nat, 2),
        summary.bytes().subrange(4, 20) == summary.tenant_id.0@,
        summary.bytes().subrange(20, 36) == summary.timeline_id.0@,
        summary.bytes().subrange(36, 54) == summary.key_range.start.bytes(),
        summary.bytes().subrange(54, 72) == summary.key_range.end.bytes(),
        summary.bytes().subrange(72, 80) == be_bytes(summary.lsn.0 as nat, 8),
        summary.bytes().subrange(80, 84) == be_bytes(summary.index_start_blk as nat, 4),
        summary.bytes().subrange(84, 88) == be_bytes(summary.index_root_blk as nat, 4),
{
    lemma_be_bytes_len(summary.magic as nat, 2);
    lemma_be_bytes_len(summary.format_version as nat, 2);
    lemma_key_bytes_len(summary.key_range.start);
    lemma_key_bytes_len(summary.key_range.end);
    lemma_be_bytes_len(summary.lsn.0 as nat, 8);
    lemma_be_bytes_len(summary.index_start_blk as nat, 4);
    lemma_be_bytes_len(summary.index_root_blk as nat, 4);
    let bytes = summary.bytes();
    assert(bytes.subrange(0, 2) =~= be_bytes(summary.magic as nat, 2));
    assert(bytes.subrange(2, 4) =~= be_bytes(summary.format_version as nat, 2));
    assert(bytes.subrange(4, 20) =~= summary.tenant_id.0@);
    assert(bytes.subrange(20, 36) =~= summary.timeline_id.0@);
    assert(bytes.subrange(36, 54) =~= summary.key_range.start.bytes());
    assert(bytes.subrange(54, 72) =~= summary.key_range.end.bytes());
    assert(bytes.subrange(72, 80) =~= be_bytes(summary.lsn.0 as nat, 8));
    assert(bytes.subrange(80, 84) =~= be_bytes(summary.index_start_blk as nat, 4));
    assert(bytes.subrange(84, 88) =~= be_bytes(summary.index_root_blk as nat, 4));
}

/// Two summaries that are stored alike are one: what `ser` wrote, `des_prefix`
/// reads back.
pub proof fn law_summary_read_back(written: Summary, read: Summary)
    requires
        written.bytes() == read.bytes(),
    ensures
        written == read,
{
    lemma_summary_parts(written);
    lemma_summary_parts(read);
    lemma_spans();
    lemma_value_of_bytes(written.magic as nat, 2);
    lemma_value_of_bytes(read.magic as nat, 2);
    lemma_value_of_bytes(written.format_version as nat, 2);
    lemma_value_of_bytes(read.format_version as nat, 2);
    lemma_value_of_bytes(written.lsn.0 as nat, 8);
    lemma_value_of_bytes(read.lsn.0 as nat, 8);
    lemma_value_of_bytes(written.index_start_blk as nat, 4);
    lemma_value_of_bytes(read.index_start_blk as nat, 4);
    lemma_value_of_bytes(written.index_root_blk as nat, 4);
    lemma_value_of_bytes(read.index_root_blk as nat, 4);
    law_key_of_its_bytes(written.key_range.start);
    law_key_of_its_bytes(read.key_range.start);
    law_key_of_its_bytes(written.key_range.end);
    law_key_of_its_bytes(read.key_range.end);
    assert(written.tenant_id.0 =~= read.tenant_id.0);
    assert(written.timeline_id.0 =~= read.timeline_id.0);
}

} // verus!
