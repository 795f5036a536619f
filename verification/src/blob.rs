//! Blobs: the page images of the "values" part of a file, one after another,
//! each behind its length.
//!
//! The length of a blob of fewer than 128 bytes takes one byte. That of a longer
//! one takes four, big-endian, with the highest bit set.
use vstd::prelude::*;
use vstd::slice::slice_subrange;

use crate::big_endian::{be_bytes, be_value, copy_bytes, get_be, put_be, put_bytes, span};
use crate::big_endian::{
    lemma_be_bytes_len, lemma_be_value_bound, lemma_be_value_split, lemma_spans,
    lemma_value_of_bytes,
};
use crate::format::{block_of, holds_at, readable, PAGE_SZ};

verus! {

/// The length from which on a blob has a long header.
pub const LONG_BLOB: usize = 128;

/// The length of the longest blob.
pub const MAX_BLOB: usize = 0x7fff_ffff;

/// What is added to the length of a long blob in its header.
pub const LONG_MARK: u64 = 0x8000_0000;

/// A blob as it is stored.
pub open spec fn blob_frame(blob: Seq<u8>) -> Seq<u8> {
    if blob.len() < LONG_BLOB {
        seq![blob.len() as u8] + blob
    } else {
        be_bytes(LONG_MARK as nat + blob.len(), 4) + blob
    }
}

/// The length of a header that starts with the byte `first`.
pub open spec fn header_len(first: u8) -> nat {
    if first < 0x80 {
        1
    } else {
        4
    }
}

/// The length of the blob behind a complete header at the front of `bytes`.
pub open spec fn blob_len(bytes: Seq<u8>) -> int {
    if bytes[0] < 0x80 {
        bytes[0] as int
    } else {
        be_value(bytes.take(4)) - LONG_MARK
    }
}

/// The blob that is stored in `bytes` from offset `at` on, where all of it is
/// there.
pub open spec fn blob_at(bytes: Seq<u8>, at: int) -> Option<Seq<u8>> {
    let from = bytes.skip(at);
    if !(0 <= at < bytes.len()) || from.len() < header_len(from[0]) {
        None
    } else {
        let start = header_len(from[0]) as int;
        if start + blob_len(from) <= from.len() {
            Some(from.subrange(start, start + blob_len(from)))
        } else {
            None
        }
    }
}

/// The bytes to be read, header and blob, as far as the first `bytes` of them
/// tell: up to the header while it is incomplete.
pub open spec fn wanted(bytes: Seq<u8>) -> int {
    if bytes.len() == 0 {
        1
    } else if bytes.len() < header_len(bytes[0]) {
        4
    } else {
        header_len(bytes[0]) + blob_len(bytes)
    }
}

/// The first of four bytes counts 2^24 times.
proof fn lemma_first_of_four(header: Seq<u8>)
    requires
        header.len() == 4,
    ensures
        be_value(header) == header[0] * 0x100_0000 + be_value(header.skip(1)),
        be_value(header.skip(1)) < 0x100_0000,
{
    lemma_be_value_split(header, 1);
    let first = header.take(1);
    assert(first.drop_last() =~= Seq::<u8>::empty());
    assert(be_value(first.drop_last()) == 0);
    assert(be_value(first) == header[0] as nat);
    let rest = span((header.len() - 1) as nat);
    assert(rest == 0x100_0000) by {
        reveal_with_fuel(span, 4);
    }
    assert(be_value(first) * rest == be_value(first) * 0x100_0000) by (nonlinear_arith)
        requires
            rest == 0x100_0000,
    ;
}

/// The number in a long header is the mark and a length.
proof fn lemma_long_header(bytes: Seq<u8>)
    requires
        bytes.len() >= 4,
        bytes[0] >= 0x80,
    ensures
        LONG_MARK <= be_value(bytes.take(4)) <= LONG_MARK + MAX_BLOB,
{
    let header = bytes.take(4);
    lemma_be_value_bound(header);
    lemma_spans();
    lemma_first_of_four(header);
}

/// What is wanted grows as more of it is there.
proof fn lemma_wanted(bytes: Seq<u8>, more: Seq<u8>)
    requires
        bytes.is_prefix_of(more),
        more.len() <= wanted(bytes),
    ensures
        more.len() <= wanted(more),
        0 < wanted(more) <= 4 + MAX_BLOB,
{
    if more.len() > 0 {
        if more[0] >= 0x80 && more.len() >= 4 {
            lemma_long_header(more);
            if bytes.len() >= 4 {
                assert(bytes.take(4) =~= more.take(4));
            }
        }
        if bytes.len() > 0 {
            assert(bytes[0] == more[0]);
        }
    }
}

/// A stored blob is read back.
pub proof fn law_blob_read_back(bytes: Seq<u8>, at: int, blob: Seq<u8>)
    requires
        blob.len() <= MAX_BLOB,
        holds_at(bytes, at, blob_frame(blob)),
    ensures
        blob_at(bytes, at) == Some(blob),
{
    let frame = blob_frame(blob);
    let from = bytes.skip(at);
    let stored = bytes.subrange(at, at + frame.len());
    lemma_spans();
    if blob.len() < LONG_BLOB {
        assert(from[0] == stored[0]);
        assert(from.subrange(1, frame.len() as int) =~= stored.subrange(1, frame.len() as int));
        assert(frame.subrange(1, frame.len() as int) =~= blob);
    } else {
        let header = be_bytes(LONG_MARK as nat + blob.len(), 4);
        lemma_be_bytes_len(LONG_MARK as nat + blob.len(), 4);
        lemma_value_of_bytes(LONG_MARK as nat + blob.len(), 4);
        assert(from.take(4) =~= stored.take(4));
        assert(frame.take(4) =~= header);
        assert(from[0] >= 0x80) by {
            lemma_first_of_four(header);
            assert(from[0] == from.take(4)[0]);
        }
        assert(from.subrange(4, frame.len() as int) =~= stored.subrange(4, frame.len() as int));
        assert(frame.subrange(4, frame.len() as int) =~= blob);
    }
}

/// Appends `blob` to `buf` as it is stored.
pub fn put_blob(buf: &mut Vec<u8>, blob: &[u8])
    requires
        blob@.len() <= MAX_BLOB,
    ensures
        final(buf)@ == old(buf)@ + blob_frame(blob@),
{
    if blob.len() < LONG_BLOB {
        buf.push(blob.len() as u8);
    } else {
        put_be(buf, LONG_MARK + blob.len() as u64, 4);
    }
    put_bytes(buf, blob);
    assert(buf@ =~= old(buf)@ + blob_frame(blob@));
}

/// The length of a blob of `len` bytes as it is stored.
pub fn stored_len(len: usize) -> (stored: u64)
    requires
        len <= MAX_BLOB,
    ensures
        forall|blob: Seq<u8>| blob.len() == len ==> #[trigger] blob_frame(blob).len() == stored,
{
    proof {
        lemma_be_bytes_len(LONG_MARK as nat + len as nat, 4);
    }
    if len < LONG_BLOB {
        1 + len as u64
    } else {
        4 + len as u64
    }
}

/// A blob that is being read, block by block.
pub struct BlobCursor {
    start: u64,
    bytes: Vec<u8>,
}

/// Where reading a blob stands after a block.
pub enum BlobStep {
    /// Another block is needed.
    More(BlobCursor),
    /// This is the blob.
    Done(Vec<u8>),
}

impl BlobCursor {
    /// Some of the blob is still missing.
    pub closed spec fn wf(self) -> bool {
        &&& self.start < 0x100_0000_0000
        &&& self.bytes@.len() < wanted(self.bytes@) <= 4 + MAX_BLOB
    }

    /// Where the blob starts.
    pub closed spec fn offset(self) -> int {
        self.start as int
    }

    /// The block that is needed next.
    pub closed spec fn block(self) -> int {
        (self.start + self.bytes@.len()) / PAGE_SZ as int
    }

    /// Whether what was read so far is what `file` holds there.
    pub closed spec fn agrees(self, file: Seq<u8>) -> bool {
        self.bytes@.len() > 0 ==> holds_at(file, self.start as int, self.bytes@)
    }

    /// How many bytes were read so far.
    pub closed spec fn progress(self) -> nat {
        self.bytes@.len()
    }

    /// An offset is a number of 64 bits.
    pub proof fn lemma_offset(self)
        ensures
            0 <= self.offset() <= u64::MAX,
    {
    }

    /// A file that lacks the block that is needed does not hold the blob.
    pub proof fn lemma_missing_block(self, file: Seq<u8>)
        requires
            self.wf(),
            self.agrees(file),
            block_of(file, self.block()) is None,
        ensures
            blob_at(readable(file), self.offset()) is None,
    {
        let bytes = self.bytes@;
        let whole = readable(file);
        let start = self.start as int;
        assert(whole.len() <= start + bytes.len()) by {
            let number = self.block();
            let complete = file.len() / PAGE_SZ as nat;
            assert(complete <= number);
        }
        if start < whole.len() {
            let from = whole.skip(start);
            assert(file.subrange(start, start + bytes.len()) == bytes);
            assert(from =~= bytes.take(from.len() as int));
            if from.len() >= 4 {
                assert(from.take(4) =~= bytes.take(4));
            }
        }
    }

    /// A blob that starts at `offset`, nothing of which was read yet.
    pub fn new(offset: u64) -> (cursor: BlobCursor)
        requires
            offset < 0x100_0000_0000,
        ensures
            cursor.wf(),
            cursor.offset() == offset,
            cursor.block() == offset as int / PAGE_SZ as int,
            cursor.progress() == 0,
            forall|file: Seq<u8>| #[trigger] cursor.agrees(file),
    {
        BlobCursor { start: offset, bytes: Vec::new() }
    }

    /// Where the blob starts.
    pub fn start(&self) -> (offset: u64)
        ensures
            offset == self.offset(),
    {
        self.start
    }

    /// The block that is needed next.
    pub fn next_block(&self) -> (number: u64)
        requires
            self.wf(),
        ensures
            number == self.block(),
    {
        (self.start + self.bytes.len() as u64) / PAGE_SZ as u64
    }

    /// Goes on with the block that was needed.
    pub fn supply(self, block: &[u8]) -> (step: BlobStep)
        requires
            self.wf(),
            block@.len() == PAGE_SZ,
        ensures
            match step {
                BlobStep::More(next) => {
                    &&& next.wf()
                    &&& next.offset() == self.offset()
                    &&& self.progress() < next.progress() <= 4 + MAX_BLOB
                    &&& next.block() == self.block() + 1
                    &&& forall|file: Seq<u8>|
                        block_of(file, self.block()) == Some(block@) && #[trigger] self.agrees(file)
                            ==> next.agrees(file)
                },
                BlobStep::Done(blob) => forall|file: Seq<u8>|
                    block_of(file, self.block()) == Some(block@) && #[trigger] self.agrees(file)
                        ==> blob_at(readable(file), self.offset()) == Some(blob@),
            },
    {
        let start: u64 = self.start;
        let mut bytes: Vec<u8> = self.bytes;
        let ghost before = bytes@;
        let ghost number = self.block();
        let ghost first = (start + before.len()) % PAGE_SZ as int;
        let mut at: usize = ((start + bytes.len() as u64) % PAGE_SZ as u64) as usize;
        let mut want: usize = Self::wanted_of(&bytes);
        while at < PAGE_SZ && bytes.len() < want
            invariant
                block@.len() == PAGE_SZ,
                at <= PAGE_SZ,
                0 <= first <= at,
                bytes@.len() == before.len() + (at - first),
                before.is_prefix_of(bytes@),
                bytes@.skip(before.len() as int) == block@.subrange(first, at as int),
                bytes@.len() <= want == wanted(bytes@) <= 4 + MAX_BLOB,
                at == first ==> bytes@.len() < want,
            decreases PAGE_SZ - at,
        {
            let ghost held = bytes@;
            let missing: usize = want - bytes.len();
            let room: usize = PAGE_SZ - at;
            let take: usize = if missing < room {
                missing
            } else {
                room
            };
            put_bytes(&mut bytes, slice_subrange(block, at, at + take));
            proof {
                assert(bytes@.skip(before.len() as int) =~= block@.subrange(first, at + take));
                lemma_wanted(held, bytes@);
            }
            at = at + take;
            want = Self::wanted_of(&bytes);
        }
        proof {
            assert forall|file: Seq<u8>|
                block_of(file, number) == Some(block@) && #[trigger] self.agrees(
                    file,
                ) implies holds_at(file, start as int, bytes@) && start + bytes@.len() <= (number
                + 1) * PAGE_SZ by {
                let end = start + bytes@.len();
                assert(number * PAGE_SZ + first == start + before.len());
                assert(file.subrange(start as int, end) =~= bytes@) by {
                    assert forall|i: int| 0 <= i < bytes@.len() implies file[start + i]
                        == bytes@[i] by {
                        if i < before.len() {
                            assert(file.subrange(start as int, start + before.len())[i]
                                == before[i]);
                        } else {
                            let j = i - before.len();
                            assert(bytes@.skip(before.len() as int)[j] == block@[first + j]);
                            assert(block@[first + j] == file.subrange(
                                number * PAGE_SZ,
                                (number + 1) * PAGE_SZ,
                            )[first + j]);
                        }
                    }
                }
            }
        }
        if bytes.len() < want {
            BlobStep::More(BlobCursor { start, bytes })
        } else {
            let header: usize = if bytes[0] < 0x80 {
                1
            } else {
                4
            };
            proof {
                assert forall|file: Seq<u8>|
                    block_of(file, number) == Some(block@) && #[trigger] self.agrees(
                        file,
                    ) implies blob_at(readable(file), start as int) == Some(
                    bytes@.subrange(header as int, bytes@.len() as int),
                ) by {
                    let whole = readable(file);
                    let end = start + bytes@.len();
                    assert(holds_at(file, start as int, bytes@));
                    assert((number + 1) * PAGE_SZ <= file.len() / PAGE_SZ as nat * PAGE_SZ)
                        by (nonlinear_arith)
                        requires
                            (number + 1) * PAGE_SZ <= file.len(),
                    ;
                    let from = whole.skip(start as int);
                    assert(from.take(bytes@.len() as int) =~= file.subrange(start as int, end));
                    assert(from[0] == bytes@[0]);
                    if bytes@[0] >= 0x80 {
                        assert(from.take(4) =~= from.take(bytes@.len() as int).take(4));
                    }
                    assert(from.subrange(header as int, bytes@.len() as int) =~= from.take(
                        bytes@.len() as int,
                    ).subrange(header as int, bytes@.len() as int));
                }
            }
            let end: usize = bytes.len();
            BlobStep::Done(copy_bytes(bytes.as_slice(), header, end))
        }
    }

    /// How much is wanted, given what is there.
    fn wanted_of(bytes: &Vec<u8>) -> (want: usize)
        requires
            0 < wanted(bytes@) <= 4 + MAX_BLOB,
        ensures
            want == wanted(bytes@),
    {
        if bytes.len() == 0 {
            1
        } else if bytes[0] < 0x80 {
            1 + bytes[0] as usize
        } else if bytes.len() < 4 {
            4
        } else {
            assert(bytes@.take(4) =~= bytes@.subrange(0, 4));
            proof {
                lemma_long_header(bytes@);
            }
            4 + (get_be(bytes.as_slice(), 0, 4) - LONG_MARK) as usize
        }
    }
}

} // verus!
