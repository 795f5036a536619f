//! Big-endian numbers: the bytes of a number, the number that bytes stand for,
//! and the order that the two share.
use vstd::prelude::*;
use vstd::slice::slice_subrange;

verus! {

/// The number that `bytes` stand for, most significant byte first.
pub open spec fn be_value(bytes: Seq<u8>) -> nat
    decreases bytes.len(),
{
    if bytes.len() == 0 {
        0
    } else {
        be_value(bytes.drop_last()) * 256 + bytes.last() as nat
    }
}

/// The low `width` bytes of `value`, most significant byte first.
pub open spec fn be_bytes(value: nat, width: nat) -> Seq<u8>
    decreases width,
{
    if width == 0 {
        Seq::<u8>::empty()
    } else {
        be_bytes(value / 256, (width - 1) as nat).push((value % 256) as u8)
    }
}

/// How many numbers fit in `width` bytes.
pub open spec fn span(width: nat) -> nat
    decreases width,
{
    if width == 0 {
        1
    } else {
        256 * span((width - 1) as nat)
    }
}

/// The spans of the widths that this crate stores.
pub proof fn lemma_spans()
    ensures
        span(0) == 1,
        span(1) == 0x100,
        span(2) == 0x1_0000,
        span(4) == 0x1_0000_0000,
        span(5) == 0x100_0000_0000,
        span(8) == 0x1_0000_0000_0000_0000,
{
    reveal_with_fuel(span, 9);
}

/// A number takes as many bytes as asked for.
pub proof fn lemma_be_bytes_len(value: nat, width: nat)
    ensures
        be_bytes(value, width).len() == width,
    decreases width,
{
    if width > 0 {
        lemma_be_bytes_len(value / 256, (width - 1) as nat);
    }
}

/// What `width` bytes stand for is below the span of `width`.
pub proof fn lemma_be_value_bound(bytes: Seq<u8>)
    ensures
        be_value(bytes) < span(bytes.len()),
    decreases bytes.len(),
{
    if bytes.len() > 0 {
        lemma_be_value_bound(bytes.drop_last());
    }
}

/// Wider spans are larger.
pub proof fn lemma_span_monotonic(narrow: nat, wide: nat)
    requires
        narrow <= wide,
    ensures
        1 <= span(narrow) <= span(wide),
    decreases wide,
{
    if wide > narrow {
        lemma_span_monotonic(narrow, (wide - 1) as nat);
    } else if wide > 0 {
        lemma_span_monotonic((narrow - 1) as nat, (wide - 1) as nat);
    }
}

/// Reading back the bytes of a number that fits gives the number.
pub proof fn lemma_value_of_bytes(value: nat, width: nat)
    requires
        value < span(width),
    ensures
        be_value(be_bytes(value, width)) == value,
    decreases width,
{
    if width > 0 {
        lemma_value_of_bytes(value / 256, (width - 1) as nat);
        let bytes = be_bytes(value, width);
        assert(bytes.drop_last() =~= be_bytes(value / 256, (width - 1) as nat));
    }
}

/// The bytes of the number that `bytes` stand for are `bytes`.
pub proof fn lemma_bytes_of_value(bytes: Seq<u8>)
    ensures
        be_bytes(be_value(bytes), bytes.len()) == bytes,
    decreases bytes.len(),
{
    if bytes.len() > 0 {
        lemma_bytes_of_value(bytes.drop_last());
        let value = be_value(bytes);
        assert(value / 256 == be_value(bytes.drop_last()));
        assert(value % 256 == bytes.last() as nat);
        assert(bytes =~= bytes.drop_last().push(bytes.last()));
    } else {
        assert(bytes =~= Seq::<u8>::empty());
    }
}

/// Equally many bytes that stand for one number are the same bytes.
pub proof fn lemma_be_value_injective(left: Seq<u8>, right: Seq<u8>)
    requires
        left.len() == right.len(),
        be_value(left) == be_value(right),
    ensures
        left == right,
{
    lemma_bytes_of_value(left);
    lemma_bytes_of_value(right);
}

/// A number is its head, shifted by the width of its tail, plus its tail.
pub proof fn lemma_be_value_split(bytes: Seq<u8>, at: int)
    requires
        0 <= at <= bytes.len(),
    ensures
        be_value(bytes) == be_value(bytes.take(at)) * span((bytes.len() - at) as nat) + be_value(
            bytes.skip(at),
        ),
        be_value(bytes.skip(at)) < span((bytes.len() - at) as nat),
    decreases bytes.len() - at,
{
    lemma_be_value_bound(bytes.skip(at));
    if at == bytes.len() {
        assert(bytes.take(at) =~= bytes);
        assert(bytes.skip(at).len() == 0);
        assert(span(0) == 1);
        assert(be_value(bytes) * 1 == be_value(bytes)) by (nonlinear_arith);
    } else {
        let front = bytes.drop_last();
        lemma_be_value_split(front, at);
        assert(front.take(at) =~= bytes.take(at));
        assert(front.skip(at) =~= bytes.skip(at).drop_last());
        assert(bytes.skip(at).last() == bytes.last());
        let head = be_value(bytes.take(at));
        let rest = span((front.len() - at) as nat);
        assert(span((bytes.len() - at) as nat) == 256 * rest);
        assert(head * (256 * rest) == (head * rest) * 256) by (nonlinear_arith);
    }
}

/// Of two equally long numbers, the one with the smaller byte at the first
/// place where they differ is the smaller.
pub proof fn lemma_first_difference(left: Seq<u8>, right: Seq<u8>, at: int)
    requires
        left.len() == right.len(),
        0 <= at < left.len(),
        left.take(at) == right.take(at),
        left[at] < right[at],
    ensures
        be_value(left) < be_value(right),
{
    let past = at + 1;
    lemma_be_value_split(left, past);
    lemma_be_value_split(right, past);
    assert(left.take(past).drop_last() =~= left.take(at));
    assert(right.take(past).drop_last() =~= right.take(at));
    let low = be_value(left.take(past));
    let high = be_value(right.take(past));
    let rest = span((left.len() - past) as nat);
    assert(low + 1 <= high);
    assert((low + 1) * rest <= high * rest) by (nonlinear_arith)
        requires
            low + 1 <= high,
    ;
    assert((low + 1) * rest == low * rest + rest) by (nonlinear_arith);
}

/// Whatever lies between two equally long numbers that start alike starts as
/// they do.
pub proof fn lemma_prefix_between(low: Seq<u8>, mid: Seq<u8>, high: Seq<u8>, at: int)
    requires
        low.len() == mid.len() == high.len(),
        0 <= at <= low.len(),
        low.take(at) == high.take(at),
        be_value(low) <= be_value(mid) <= be_value(high),
    ensures
        mid.take(at) == low.take(at),
{
    lemma_be_value_split(low, at);
    lemma_be_value_split(mid, at);
    lemma_be_value_split(high, at);
    let rest = span((low.len() - at) as nat);
    let outer = be_value(low.take(at));
    let inner = be_value(mid.take(at));
    assert(inner == outer) by {
        if inner < outer {
            assert((inner + 1) * rest <= outer * rest) by (nonlinear_arith)
                requires
                    inner + 1 <= outer,
            ;
            assert((inner + 1) * rest == inner * rest + rest) by (nonlinear_arith);
        } else if inner > outer {
            assert((outer + 1) * rest <= inner * rest) by (nonlinear_arith)
                requires
                    outer + 1 <= inner,
            ;
            assert((outer + 1) * rest == outer * rest + rest) by (nonlinear_arith);
        }
    }
    lemma_be_value_injective(mid.take(at), low.take(at));
}

/// Appends the low `width` bytes of `value` to `buf`.
pub fn put_be(buf: &mut Vec<u8>, value: u64, width: usize)
    ensures
        final(buf)@ == old(buf)@ + be_bytes(value as nat, width as nat),
    decreases width,
{
    if width > 0 {
        put_be(buf, value / 256, width - 1);
        buf.push((value % 256) as u8);
    }
    assert(buf@ =~= old(buf)@ + be_bytes(value as nat, width as nat));
}

/// The number in the `width` bytes of `buf` that start at `from`.
pub fn get_be(buf: &[u8], from: usize, width: usize) -> (value: u64)
    requires
        width <= 8,
        from + width <= buf@.len(),
    ensures
        value == be_value(buf@.subrange(from as int, from + width)),
{
    let len: usize = buf.len();
    let mut value: u64 = 0;
    let mut done: usize = 0;
    while done < width
        invariant
            done <= width <= 8,
            from + width <= buf@.len(),
            len == buf@.len(),
            value == be_value(buf@.subrange(from as int, from + done)),
        decreases width - done,
    {
        proof {
            let read = buf@.subrange(from as int, from + done);
            let more = buf@.subrange(from as int, from + done + 1);
            assert(more.drop_last() =~= read);
            lemma_be_value_bound(more);
            lemma_span_monotonic(more.len(), 8);
            lemma_spans();
        }
        value = value * 256 + buf[from + done] as u64;
        done = done + 1;
    }
    value
}

/// Whether two slices hold the same bytes.
pub fn same_bytes(left: &[u8], right: &[u8]) -> (same: bool)
    ensures
        same == (left@ == right@),
{
    if left.len() != right.len() {
        return false;
    }
    let mut at: usize = 0;
    while at < left.len()
        invariant
            at <= left@.len(),
            left@.len() == right@.len(),
            forall|i: int| 0 <= i < at ==> left@[i] == right@[i],
        decreases left@.len() - at,
    {
        if left[at] != right[at] {
            return false;
        }
        at = at + 1;
    }
    assert(left@ =~= right@);
    true
}

/// How many bytes, from the front, the two slices have in common.
pub fn common_prefix(left: &[u8], right: &[u8]) -> (len: usize)
    requires
        left@.len() == right@.len(),
    ensures
        len <= left@.len(),
        left@.take(len as int) == right@.take(len as int),
        len < left@.len() ==> left@[len as int] != right@[len as int],
{
    let mut len: usize = 0;
    while len < left.len() && left[len] == right[len]
        invariant
            len <= left@.len(),
            left@.len() == right@.len(),
            forall|i: int| 0 <= i < len ==> left@[i] == right@[i],
        decreases left@.len() - len,
    {
        len = len + 1;
    }
    assert(left@.take(len as int) =~= right@.take(len as int));
    len
}

/// Whether the number in `left` is below the number in `right`.
pub fn be_less(left: &[u8], right: &[u8]) -> (less: bool)
    requires
        left@.len() == right@.len(),
    ensures
        less == (be_value(left@) < be_value(right@)),
{
    let at = common_prefix(left, right);
    if at == left.len() {
        assert(left@ =~= left@.take(at as int));
        assert(right@ =~= right@.take(at as int));
        return false;
    }
    if left[at] < right[at] {
        proof {
            lemma_first_difference(left@, right@, at as int);
        }
        true
    } else {
        proof {
            lemma_first_difference(right@, left@, at as int);
        }
        false
    }
}

/// Appends the bytes of `more` to `buf`.
pub fn put_bytes(buf: &mut Vec<u8>, more: &[u8])
    ensures
        final(buf)@ == old(buf)@ + more@,
{
    buf.extend_from_slice(more);
    assert(buf@ =~= old(buf)@ + more@);
}

/// A copy of the bytes of `buf` from `from` up to `to`.
pub fn copy_bytes(buf: &[u8], from: usize, to: usize) -> (bytes: Vec<u8>)
    requires
        from <= to <= buf@.len(),
    ensures
        bytes@ == buf@.subrange(from as int, to as int),
{
    let mut bytes: Vec<u8> = Vec::new();
    put_bytes(&mut bytes, slice_subrange(buf, from, to));
    assert(bytes@ =~= buf@.subrange(from as int, to as int));
    bytes
}

} // verus!
