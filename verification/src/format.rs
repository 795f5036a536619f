//! Numbers that the file format fixes.
use vstd::prelude::*;

verus! {

/// Size of a block: files are read and laid out in blocks of this many bytes.
pub const PAGE_SZ: usize = 8192;

/// Identifies an image layer file; the first two bytes of its summary.
pub const IMAGE_FILE_MAGIC: u16 = 0x5A60;

/// Version of the storage format; the next two bytes of the summary.
pub const STORAGE_FORMAT_VERSION: u16 = 3;

/// Block `number` of a file, where the file holds all of it.
pub open spec fn block_of(file: Seq<u8>, number: int) -> Option<Seq<u8>> {
    if 0 <= number && (number + 1) * PAGE_SZ <= file.len() {
        Some(file.subrange(number * PAGE_SZ, (number + 1) * PAGE_SZ))
    } else {
        None
    }
}

/// The part of a file that can be read block by block: all but an incomplete
/// last block.
pub open spec fn readable(file: Seq<u8>) -> Seq<u8> {
    file.take(file.len() / PAGE_SZ as nat * PAGE_SZ)
}

/// Whether `file` holds `bytes` from offset `at` on.
pub open spec fn holds_at(file: Seq<u8>, at: int, bytes: Seq<u8>) -> bool {
    0 <= at && at + bytes.len() <= file.len() && file.subrange(at, at + bytes.len()) == bytes
}

/// A file after `bytes` were written at offset `at`. What lies between the old end
/// and `at` reads as zeros. Writing nothing changes nothing.
pub open spec fn write_at(file: Seq<u8>, at: int, bytes: Seq<u8>) -> Seq<u8> {
    let end = at + bytes.len();
    if bytes.len() == 0 {
        file
    } else {
        Seq::new(
            if end > file.len() {
                end as nat
            } else {
                file.len()
            },
            |i: int|
                if at <= i < end {
                    bytes[i - at]
                } else if i < file.len() {
                    file[i]
                } else {
                    0
                },
        )
    }
}

/// What was written is there.
pub proof fn lemma_write_at(file: Seq<u8>, at: int, bytes: Seq<u8>)
    requires
        0 <= at,
        bytes.len() > 0,
    ensures
        holds_at(write_at(file, at, bytes), at, bytes),
{
    assert(write_at(file, at, bytes).subrange(at, at + bytes.len()) =~= bytes);
}

/// What lies apart from where is written stays.
pub proof fn lemma_write_apart(
    file: Seq<u8>,
    at: int,
    bytes: Seq<u8>,
    from: int,
    held: Seq<u8>,
)
    requires
        0 <= at,
        holds_at(file, from, held),
        from + held.len() <= at || at + bytes.len() <= from,
    ensures
        holds_at(write_at(file, at, bytes), from, held),
{
    assert(write_at(file, at, bytes).subrange(from, from + held.len()) =~= file.subrange(
        from,
        from + held.len(),
    ));
}

/// What is written behind what a file holds goes on with it.
pub proof fn lemma_write_behind(file: Seq<u8>, from: int, held: Seq<u8>, more: Seq<u8>)
    requires
        0 <= from,
        held.len() > 0 ==> holds_at(file, from, held),
    ensures
        (held + more).len() > 0 ==> holds_at(
            write_at(file, from + held.len(), more),
            from,
            held + more,
        ),
{
    let after = write_at(file, from + held.len(), more);
    if more.len() == 0 {
        assert(held + more =~= held);
    } else {
        let all = held + more;
        assert forall|i: int| 0 <= i < all.len() implies after.subrange(from, from + all.len())[i]
            == all[i] by {
            if i < held.len() {
                assert(file.subrange(from, from + held.len())[i] == held[i]);
            }
        }
        assert(after.subrange(from, from + all.len()) =~= all);
    }
}

} // verus!
