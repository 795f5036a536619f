//! Keys of the key-value pairs that a layer holds, and ranges of them.
use vstd::prelude::*;

use crate::big_endian::{be_bytes, be_value, get_be, put_be, span};
use crate::big_endian::{
    lemma_be_bytes_len, lemma_be_value_bound, lemma_be_value_split, lemma_bytes_of_value,
    lemma_spans, lemma_value_of_bytes,
};
use crate::text::{hex_upper, put_hex_upper};

verus! {

/// How many bytes a key takes.
pub const KEY_SIZE: usize = 18;

/// Key of one page image: six numbers, compared in order.
#[derive(Clone, Copy, Debug, PartialEq, Eq, PartialOrd, Ord, Hash, Structural)]
pub struct Key {
    pub field1: u8,
    pub field2: u32,
    pub field3: u32,
    pub field4: u32,
    pub field5: u8,
    pub field6: u32,
}

impl Key {
    /// The order of keys: field by field, the first field first.
    pub open spec fn precedes(self, other: Key) -> bool {
        if self.field1 != other.field1 {
            self.field1 < other.field1
        } else if self.field2 != other.field2 {
            self.field2 < other.field2
        } else if self.field3 != other.field3 {
            self.field3 < other.field3
        } else if self.field4 != other.field4 {
            self.field4 < other.field4
        } else if self.field5 != other.field5 {
            self.field5 < other.field5
        } else {
            self.field6 < other.field6
        }
    }

    /// The bytes of the key: each field in turn, big-endian.
    pub open spec fn bytes(self) -> Seq<u8> {
        be_bytes(self.field1 as nat, 1) + be_bytes(self.field2 as nat, 4) + be_bytes(
            self.field3 as nat,
            4,
        ) + be_bytes(self.field4 as nat, 4) + be_bytes(self.field5 as nat, 1) + be_bytes(
            self.field6 as nat,
            4,
        )
    }

    /// The key whose bytes are `bytes`.
    pub open spec fn of_bytes(bytes: Seq<u8>) -> Key {
        Key {
            field1: be_value(bytes.subrange(0, 1)) as u8,
            field2: be_value(bytes.subrange(1, 5)) as u32,
            field3: be_value(bytes.subrange(5, 9)) as u32,
            field4: be_value(bytes.subrange(9, 13)) as u32,
            field5: be_value(bytes.subrange(13, 14)) as u8,
            field6: be_value(bytes.subrange(14, 18)) as u32,
        }
    }

    /// The key as one number, which its bytes stand for.
    pub open spec fn number(self) -> nat {
        be_value(self.bytes())
    }

    /// The key as text: its bytes in hexadecimal.
    pub open spec fn text(self) -> Seq<char> {
        hex_upper(self.bytes())
    }

    /// Appends the key as text.
    pub fn put_text(&self, text: &mut String)
        ensures
            final(text)@ == old(text)@ + self.text(),
    {
        put_hex_upper(text, self.to_bytes().as_slice());
    }

    /// Whether the key comes before `other`.
    pub fn is_before(&self, other: &Key) -> (before: bool)
        ensures
            before == self.precedes(*other),
    {
        if self.field1 != other.field1 {
            self.field1 < other.field1
        } else if self.field2 != other.field2 {
            self.field2 < other.field2
        } else if self.field3 != other.field3 {
            self.field3 < other.field3
        } else if self.field4 != other.field4 {
            self.field4 < other.field4
        } else if self.field5 != other.field5 {
            self.field5 < other.field5
        } else {
            self.field6 < other.field6
        }
    }

    /// The bytes of the key.
    pub fn to_bytes(&self) -> (bytes: [u8; KEY_SIZE])
        ensures
            bytes@ == self.bytes(),
    {
        let mut buf: Vec<u8> = Vec::new();
        self.put(&mut buf);
        proof {
            lemma_key_bytes_len(*self);
            assert(buf@ =~= self.bytes());
        }
        let bytes = key_array(buf.as_slice(), 0);
        assert(bytes@ =~= self.bytes());
        bytes
    }

    /// Appends the bytes of the key to `buf`.
    pub fn put(&self, buf: &mut Vec<u8>)
        ensures
            final(buf)@ == old(buf)@ + self.bytes(),
    {
        put_be(buf, self.field1 as u64, 1);
        put_be(buf, self.field2 as u64, 4);
        put_be(buf, self.field3 as u64, 4);
        put_be(buf, self.field4 as u64, 4);
        put_be(buf, self.field5 as u64, 1);
        put_be(buf, self.field6 as u64, 4);
        assert(buf@ =~= old(buf)@ + self.bytes());
    }

    /// The key whose bytes start at `from`.
    pub fn get(buf: &[u8], from: usize) -> (key: Key)
        requires
            from + KEY_SIZE <= buf@.len(),
        ensures
            key == Key::of_bytes(buf@.subrange(from as int, from + KEY_SIZE)),
    {
        let len: usize = buf.len();
        let ghost bytes = buf@.subrange(from as int, from + KEY_SIZE);
        proof {
            lemma_spans();
            lemma_be_value_bound(bytes.subrange(0, 1));
            lemma_be_value_bound(bytes.subrange(1, 5));
            lemma_be_value_bound(bytes.subrange(5, 9));
            lemma_be_value_bound(bytes.subrange(9, 13));
            lemma_be_value_bound(bytes.subrange(13, 14));
            lemma_be_value_bound(bytes.subrange(14, 18));
            assert(bytes.subrange(0, 1) =~= buf@.subrange(from as int, from + 1));
            assert(bytes.subrange(1, 5) =~= buf@.subrange(from + 1, from + 5));
            assert(bytes.subrange(5, 9) =~= buf@.subrange(from + 5, from + 9));
            assert(bytes.subrange(9, 13) =~= buf@.subrange(from + 9, from + 13));
            assert(bytes.subrange(13, 14) =~= buf@.subrange(from + 13, from + 14));
            assert(bytes.subrange(14, 18) =~= buf@.subrange(from + 14, from + 18));
        }
        Key {
            field1: get_be(buf, from, 1) as u8,
            field2: get_be(buf, from + 1, 4) as u32,
            field3: get_be(buf, from + 5, 4) as u32,
            field4: get_be(buf, from + 9, 4) as u32,
            field5: get_be(buf, from + 13, 1) as u8,
            field6: get_be(buf, from + 14, 4) as u32,
        }
    }
}

/// The keys from `start` up to, and without, `end`.
#[derive(Clone, Copy, Debug, PartialEq, Eq, Hash, Structural)]
pub struct KeyRange {
    pub start: Key,
    pub end: Key,
}

impl KeyRange {
    /// Which keys the range holds.
    pub open spec fn holds(self, key: Key) -> bool {
        !key.precedes(self.start) && key.precedes(self.end)
    }

    /// Whether `key` lies in the range.
    pub fn contains(&self, key: &Key) -> (held: bool)
        ensures
            held == self.holds(*key),
    {
        !key.is_before(&self.start) && key.is_before(&self.end)
    }
}

/// The `KEY_SIZE` bytes of `bytes` from `from` on, as an array.
pub fn key_array(bytes: &[u8], from: usize) -> (array: [u8; KEY_SIZE])
    requires
        from + KEY_SIZE <= bytes@.len(),
    ensures
        array@ == bytes@.subrange(from as int, from + KEY_SIZE),
{
    let len: usize = bytes.len();
    let array: [u8; KEY_SIZE] = [
        bytes[from],
        bytes[from + 1],
        bytes[from + 2],
        bytes[from + 3],
        bytes[from + 4],
        bytes[from + 5],
        bytes[from + 6],
        bytes[from + 7],
        bytes[from + 8],
        bytes[from + 9],
        bytes[from + 10],
        bytes[from + 11],
        bytes[from + 12],
        bytes[from + 13],
        bytes[from + 14],
        bytes[from + 15],
        bytes[from + 16],
        bytes[from + 17],
    ];
    assert(array@ =~= bytes@.subrange(from as int, from + KEY_SIZE));
    array
}

/// Every key takes `KEY_SIZE` bytes.
pub proof fn lemma_key_bytes_len(key: Key)
    ensures
        key.bytes().len() == KEY_SIZE,
{
    lemma_be_bytes_len(key.field1 as nat, 1);
    lemma_be_bytes_len(key.field2 as nat, 4);
    lemma_be_bytes_len(key.field3 as nat, 4);
    lemma_be_bytes_len(key.field4 as nat, 4);
    lemma_be_bytes_len(key.field5 as nat, 1);
    lemma_be_bytes_len(key.field6 as nat, 4);
}

/// Where each field lies in the bytes of a key.
pub proof fn lemma_key_fields(key: Key)
    ensures
        key.bytes().len() == KEY_SIZE,
        key.bytes().subrange(0, 1) == be_bytes(key.field1 as nat, 1),
        key.bytes().subrange(1, 5) == be_bytes(key.field2 as nat, 4),
        key.bytes().subrange(5, 9) == be_bytes(key.field3 as nat, 4),
        key.bytes().subrange(9, 13) == be_bytes(key.field4 as nat, 4),
        key.bytes().subrange(13, 14) == be_bytes(key.field5 as nat, 1),
        key.bytes().subrange(14, 18) == be_bytes(key.field6 as nat, 4),
{
    lemma_key_bytes_len(key);
    lemma_be_bytes_len(key.field1 as nat, 1);
    lemma_be_bytes_len(key.field2 as nat, 4);
    lemma_be_bytes_len(key.field3 as nat, 4);
    lemma_be_bytes_len(key.field4 as nat, 4);
    lemma_be_bytes_len(key.field5 as nat, 1);
    lemma_be_bytes_len(key.field6 as nat, 4);
    let bytes = key.bytes();
    assert(bytes.subrange(0, 1) =~= be_bytes(key.field1 as nat, 1));
    assert(bytes.subrange(1, 5) =~= be_bytes(key.field2 as nat, 4));
    assert(bytes.subrange(5, 9) =~= be_bytes(key.field3 as nat, 4));
    assert(bytes.subrange(9, 13) =~= be_bytes(key.field4 as nat, 4));
    assert(bytes.subrange(13, 14) =~= be_bytes(key.field5 as nat, 1));
    assert(bytes.subrange(14, 18) =~= be_bytes(key.field6 as nat, 4));
}

/// A key is read back from its bytes.
pub proof fn law_key_of_its_bytes(key: Key)
    ensures
        Key::of_bytes(key.bytes()) == key,
{
    lemma_key_fields(key);
    lemma_spans();
    lemma_value_of_bytes(key.field1 as nat, 1);
    lemma_value_of_bytes(key.field2 as nat, 4);
    lemma_value_of_bytes(key.field3 as nat, 4);
    lemma_value_of_bytes(key.field4 as nat, 4);
    lemma_value_of_bytes(key.field5 as nat, 1);
    lemma_value_of_bytes(key.field6 as nat, 4);
}

/// Bytes are those of the key that is read from them.
pub proof fn law_bytes_of_their_key(bytes: Seq<u8>)
    requires
        bytes.len() == KEY_SIZE,
    ensures
        Key::of_bytes(bytes).bytes() == bytes,
{
    lemma_spans();
    let key = Key::of_bytes(bytes);
    lemma_be_value_bound(bytes.subrange(0, 1));
    lemma_be_value_bound(bytes.subrange(1, 5));
    lemma_be_value_bound(bytes.subrange(5, 9));
    lemma_be_value_bound(bytes.subrange(9, 13));
    lemma_be_value_bound(bytes.subrange(13, 14));
    lemma_be_value_bound(bytes.subrange(14, 18));
    lemma_bytes_of_value(bytes.subrange(0, 1));
    lemma_bytes_of_value(bytes.subrange(1, 5));
    lemma_bytes_of_value(bytes.subrange(5, 9));
    lemma_bytes_of_value(bytes.subrange(9, 13));
    lemma_bytes_of_value(bytes.subrange(13, 14));
    lemma_bytes_of_value(bytes.subrange(14, 18));
    assert(key.bytes() =~= bytes);
}

/// The number of a key, field by field.
proof fn lemma_key_number(key: Key)
    ensures
        key.number() == key.field1 * 0x100_0000_0000_0000_0000_0000_0000_0000_0000int
            + key.field2 * 0x100_0000_0000_0000_0000_0000_0000int
            + key.field3 * 0x100_0000_0000_0000_0000int + key.field4 * 0x100_0000_0000int
            + key.field5 * 0x1_0000_0000int + key.field6,
{
    lemma_key_fields(key);
    lemma_spans();
    reveal_with_fuel(span, 18);
    let bytes = key.bytes();
    lemma_value_of_bytes(key.field1 as nat, 1);
    lemma_value_of_bytes(key.field2 as nat, 4);
    lemma_value_of_bytes(key.field3 as nat, 4);
    lemma_value_of_bytes(key.field4 as nat, 4);
    lemma_value_of_bytes(key.field5 as nat, 1);
    lemma_value_of_bytes(key.field6 as nat, 4);
    let rest1 = bytes.skip(1);
    let rest2 = bytes.skip(5);
    let rest3 = bytes.skip(9);
    let rest4 = bytes.skip(13);
    let rest5 = bytes.skip(14);
    lemma_be_value_split(bytes, 1);
    assert(bytes.take(1) =~= bytes.subrange(0, 1));
    lemma_be_value_split(rest1, 4);
    assert(rest1.take(4) =~= bytes.subrange(1, 5));
    assert(rest1.skip(4) =~= rest2);
    lemma_be_value_split(rest2, 4);
    assert(rest2.take(4) =~= bytes.subrange(5, 9));
    assert(rest2.skip(4) =~= rest3);
    lemma_be_value_split(rest3, 4);
    assert(rest3.take(4) =~= bytes.subrange(9, 13));
    assert(rest3.skip(4) =~= rest4);
    lemma_be_value_split(rest4, 1);
    assert(rest4.take(1) =~= bytes.subrange(13, 14));
    assert(rest4.skip(1) =~= rest5);
    assert(rest5 =~= bytes.subrange(14, 18));
}

/// The number of a key: each field counts as often as there are values of the fields
/// behind it.
pub proof fn law_key_number(key: Key)
    ensures
        key.number() == key.field1 * 0x100_0000_0000_0000_0000_0000_0000_0000_0000int
            + key.field2 * 0x100_0000_0000_0000_0000_0000_0000int
            + key.field3 * 0x100_0000_0000_0000_0000int + key.field4 * 0x100_0000_0000int
            + key.field5 * 0x1_0000_0000int + key.field6,
{
    lemma_key_number(key);
}

/// Keys are ordered as the numbers that their bytes stand for.
pub proof fn law_key_order(left: Key, right: Key)
    ensures
        left.precedes(right) <==> left.number() < right.number(),
{
    lemma_key_number(left);
    lemma_key_number(right);
}

/// Two keys with one number are one key.
pub proof fn lemma_key_number_injective(left: Key, right: Key)
    requires
        left.number() == right.number(),
    ensures
        left == right,
{
    law_key_order(left, right);
    law_key_order(right, left);
}

} // verus!
