//! Identifiers of tenants and timelines, and log sequence numbers.
use vstd::prelude::*;

use crate::big_endian::same_bytes;
use crate::text::{digits, hex_encode, hex_lower, put_number};

verus! {

/// How many bytes an identifier takes.
pub const ID_SIZE: usize = 16;

/// Identifies a tenant.
#[derive(Clone, Copy, Debug, PartialEq, Eq, Hash)]
pub struct TenantId(pub [u8; ID_SIZE]);

/// Identifies a timeline of a tenant.
#[derive(Clone, Copy, Debug, PartialEq, Eq, Hash)]
pub struct TimelineId(pub [u8; ID_SIZE]);

impl TenantId {
    /// The identifier as text: its bytes in hexadecimal.
    pub open spec fn text(self) -> Seq<char> {
        hex_lower(self.0@)
    }

    /// The identifier as text.
    pub fn to_text(&self) -> (text: String)
        ensures
            text@ == self.text(),
    {
        hex_encode(self.0.as_slice())
    }

    /// Whether the two name one tenant.
    pub fn same(&self, other: &TenantId) -> (same: bool)
        ensures
            same == (*self == *other),
    {
        let same = same_bytes(self.0.as_slice(), other.0.as_slice());
        proof {
            if same {
                assert(self.0 =~= other.0);
            }
        }
        same
    }
}

impl TimelineId {
    /// The identifier as text: its bytes in hexadecimal.
    pub open spec fn text(self) -> Seq<char> {
        hex_lower(self.0@)
    }

    /// The identifier as text.
    pub fn to_text(&self) -> (text: String)
        ensures
            text@ == self.text(),
    {
        hex_encode(self.0.as_slice())
    }

    /// Whether the two name one timeline.
    pub fn same(&self, other: &TimelineId) -> (same: bool)
        ensures
            same == (*self == *other),
    {
        let same = same_bytes(self.0.as_slice(), other.0.as_slice());
        proof {
            if same {
                assert(self.0 =~= other.0);
            }
        }
        same
    }
}

/// Log sequence number: a position in the write-ahead log.
#[derive(Clone, Copy, Debug, PartialEq, Eq, PartialOrd, Ord, Hash, Structural)]
pub struct Lsn(pub u64);

impl Lsn {
    /// The number as text: its high and its low half in hexadecimal.
    pub open spec fn text(self) -> Seq<char> {
        digits((self.0 / 0x1_0000_0000) as nat, 16) + "/"@ + digits(
            (self.0 % 0x1_0000_0000) as nat,
            16,
        )
    }

    /// Appends the number as text.
    pub fn put_text(&self, text: &mut String)
        ensures
            final(text)@ == old(text)@ + self.text(),
    {
        put_number(text, self.0 / 0x1_0000_0000, 16);
        text.append("/");
        put_number(text, self.0 % 0x1_0000_0000, 16);
        assert(text@ =~= old(text)@ + self.text());
    }
}

/// The positions from `start` up to, and without, `end`.
#[derive(Clone, Copy, Debug, PartialEq, Eq, Hash, Structural)]
pub struct LsnRange {
    pub start: Lsn,
    pub end: Lsn,
}

/// The `ID_SIZE` bytes of `bytes` from `from` on, as an array.
pub fn id_array(bytes: &[u8], from: usize) -> (array: [u8; ID_SIZE])
    requires
        from + ID_SIZE <= bytes@.len(),
    ensures
        array@ == bytes@.subrange(from as int, from + ID_SIZE),
{
    let len: usize = bytes.len();
    let array: [u8; ID_SIZE] = [
        bytes[from],
        bytes[from + 1],
        bytes[from + 2],
        bytes[from + 3],
        bytes[from + 4],
        bytes[from + 5],
        bytes[from + 6],
        bytes[from + 7],
        bytes[from + 8],
        bytes[from + 9],
        bytes[from + 10],
        bytes[from + 11],
        bytes[from + 12],
        bytes[from + 13],
        bytes[from + 14],
        bytes[from + 15],
    ];
    assert(array@ =~= bytes@.subrange(from as int, from + ID_SIZE));
    array
}

} // verus!
