//! Numbers and bytes as text.
use vstd::prelude::*;

use rand::distributions::Alphanumeric;
use rand::Rng;

use crate::big_endian::be_value;

verus! {

/// The digit that stands for `value`, with capital letters above nine.
pub open spec fn digit(value: nat) -> char {
    if value < 10 {
        ('0' as u8 + value) as u8 as char
    } else {
        ('A' as u8 + (value - 10)) as u8 as char
    }
}

/// The digit that stands for `value`, with small letters above nine.
pub open spec fn small_digit(value: nat) -> char {
    if value < 10 {
        ('0' as u8 + value) as u8 as char
    } else {
        ('a' as u8 + (value - 10)) as u8 as char
    }
}

/// A number in the given base, without leading zeros.
pub open spec fn digits(value: nat, base: nat) -> Seq<char>
    decreases value,
{
    if value < base || base < 2 {
        seq![digit(value)]
    } else {
        proof {
            assert(value / base < value) by (nonlinear_arith)
                requires
                    2 <= base <= value,
            ;
        }
        digits(value / base, base).push(digit(value % base))
    }
}

/// A number in decimal.
pub open spec fn decimal(value: nat) -> Seq<char> {
    digits(value, 10)
}

/// Bytes in hexadecimal, two capital digits to a byte.
pub open spec fn hex_upper(bytes: Seq<u8>) -> Seq<char> {
    Seq::new(
        2 * bytes.len(),
        |i: int|
            if i % 2 == 0 {
                digit((bytes[i / 2] / 16) as nat)
            } else {
                digit((bytes[i / 2] % 16) as nat)
            },
    )
}

/// Bytes in hexadecimal, two small digits to a byte.
pub open spec fn hex_lower(bytes: Seq<u8>) -> Seq<char> {
    Seq::new(
        2 * bytes.len(),
        |i: int|
            if i % 2 == 0 {
                small_digit((bytes[i / 2] / 16) as nat)
            } else {
                small_digit((bytes[i / 2] % 16) as nat)
            },
    )
}

/// Whether a character is a letter or a digit of ASCII.
pub open spec fn is_alphanumeric(c: char) -> bool {
    'A' <= c <= 'Z' || 'a' <= c <= 'z' || '0' <= c <= '9'
}

/// The text of one digit.
fn digit_text(value: u64) -> (text: &'static str)
    requires
        value < 16,
    ensures
        text@ == seq![digit(value as nat)],
{
    proof {
        reveal_strlit("0");
        reveal_strlit("1");
        reveal_strlit("2");
        reveal_strlit("3");
        reveal_strlit("4");
        reveal_strlit("5");
        reveal_strlit("6");
        reveal_strlit("7");
        reveal_strlit("8");
        reveal_strlit("9");
        reveal_strlit("A");
        reveal_strlit("B");
        reveal_strlit("C");
        reveal_strlit("D");
        reveal_strlit("E");
        reveal_strlit("F");
    }
    let text = match value {
        0 => "0",
        1 => "1",
        2 => "2",
        3 => "3",
        4 => "4",
        5 => "5",
        6 => "6",
        7 => "7",
        8 => "8",
        9 => "9",
        10 => "A",
        11 => "B",
        12 => "C",
        13 => "D",
        14 => "E",
        _ => "F",
    };
    assert(text@ =~= seq![digit(value as nat)]);
    text
}

/// Appends `value` in base `base` to `text`.
pub fn put_number(text: &mut String, value: u64, base: u64)
    requires
        2 <= base <= 16,
    ensures
        final(text)@ == old(text)@ + digits(value as nat, base as nat),
    decreases value,
{
    if value < base {
        text.append(digit_text(value));
    } else {
        proof {
            assert(value / base < value) by (nonlinear_arith)
                requires
                    2 <= base <= value,
            ;
            assert(value % base < base) by (nonlinear_arith)
                requires
                    2 <= base,
            ;
        }
        put_number(text, value / base, base);
        text.append(digit_text(value % base));
        assert(text@ =~= old(text)@ + digits(value as nat, base as nat));
    }
}

/// Appends `value` in decimal to `text`.
pub fn put_decimal(text: &mut String, value: u64)
    ensures
        final(text)@ == old(text)@ + decimal(value as nat),
{
    put_number(text, value, 10);
}

/// Appends `bytes` in hexadecimal, with capital letters, to `text`.
pub fn put_hex_upper(text: &mut String, bytes: &[u8])
    ensures
        final(text)@ == old(text)@ + hex_upper(bytes@),
{
    let mut at: usize = 0;
    assert(text@ =~= old(text)@ + hex_upper(bytes@.take(0)));
    while at < bytes.len()
        invariant
            at <= bytes@.len(),
            text@ == old(text)@ + hex_upper(bytes@.take(at as int)),
        decreases bytes@.len() - at,
    {
        let byte: u8 = bytes[at];
        text.append(digit_text((byte / 16) as u64));
        text.append(digit_text((byte % 16) as u64));
        proof {
            let read = bytes@.take(at as int);
            let more = bytes@.take(at + 1);
            assert(hex_upper(more) =~= hex_upper(read).push(digit((byte / 16) as nat)).push(
                digit((byte % 16) as nat),
            ));
            assert(text@ =~= old(text)@ + hex_upper(more));
        }
        at = at + 1;
    }
    assert(bytes@.take(at as int) =~= bytes@);
}

/// Calls `hex::encode`, which gives two small hexadecimal digits for each byte,
/// the high half first. What it gives is twice as long as `data`, and has to fit
/// in memory.
#[verifier::external_body]
pub(crate) fn hex_encode(data: &[u8]) -> (text: String)
    requires
        data@.len() <= 0x3fff_ffff,
    ensures
        text@ == hex_lower(data@),
{
    hex::encode(data)
}

/// Calls `Rng::sample_iter` of the `rand` crate on its thread-local generator,
/// with the distribution `Alphanumeric`, for `len` characters. Which letters and
/// digits come is left to chance. Where the system has no randomness to give, the
/// generator panics.
#[verifier::external_body]
pub(crate) fn random_alphanumeric(len: usize) -> (text: String)
    requires
        len <= 0x7fff_ffff,
    ensures
        text@.len() == len,
        forall|i: int| 0 <= i < text@.len() ==> is_alphanumeric(#[trigger] text@[i]),
{
    rand::thread_rng().sample_iter(&Alphanumeric).take(len).map(char::from).collect()
}

/// Different digits look different.
proof fn lemma_digit_injective(left: nat, right: nat)
    requires
        left < 16,
        right < 16,
        digit(left) == digit(right),
    ensures
        left == right,
{
}

/// Different bytes look different.
pub proof fn lemma_hex_upper_injective(left: Seq<u8>, right: Seq<u8>)
    requires
        hex_upper(left) == hex_upper(right),
    ensures
        left == right,
{
    assert(hex_upper(left).len() == 2 * left.len());
    assert(hex_upper(right).len() == 2 * right.len());
    assert forall|i: int| 0 <= i < left.len() implies left[i] == right[i] by {
        let high = 2 * i;
        let low = 2 * i + 1;
        assert(high / 2 == i && high % 2 == 0 && low / 2 == i && low % 2 == 1);
        assert(hex_upper(left)[high] == digit((left[i] / 16) as nat));
        assert(hex_upper(right)[high] == digit((right[i] / 16) as nat));
        assert(hex_upper(left)[low] == digit((left[i] % 16) as nat));
        assert(hex_upper(right)[low] == digit((right[i] % 16) as nat));
        lemma_digit_injective((left[i] / 16) as nat, (right[i] / 16) as nat);
        lemma_digit_injective((left[i] % 16) as nat, (right[i] % 16) as nat);
    }
    assert(left =~= right);
}

/// What a digit stands for, be it a capital or a small one.
pub open spec fn digit_value(c: char) -> nat {
    if '0' <= c <= '9' {
        (c as int - '0' as int) as nat
    } else if 'A' <= c <= 'F' {
        (c as int - 'A' as int + 10) as nat
    } else if 'a' <= c <= 'f' {
        (c as int - 'a' as int + 10) as nat
    } else {
        16
    }
}

/// The number that a text stands for, each digit counting `base` times the next.
pub open spec fn number_read(text: Seq<char>, base: nat) -> nat
    decreases text.len(),
{
    if text.len() == 0 {
        0
    } else {
        number_read(text.drop_last(), base) * base + digit_value(text.last())
    }
}

/// Whether a character is a digit or a capital letter that stands for one.
pub open spec fn is_capital_digit(c: char) -> bool {
    '0' <= c <= '9' || 'A' <= c <= 'F'
}

/// Whether a character is a digit or a small letter that stands for one.
pub open spec fn is_small_digit(c: char) -> bool {
    '0' <= c <= '9' || 'a' <= c <= 'f'
}

/// Whether a text is a number as it is written: digits of the base, capital ones
/// above nine, without leading zeros, that stand for it.
pub open spec fn is_numeral(text: Seq<char>, base: nat, value: nat) -> bool {
    &&& text.len() > 0
    &&& text.len() > 1 ==> text[0] != '0'
    &&& forall|i: int|
        0 <= i < text.len() ==> is_capital_digit(#[trigger] text[i]) && digit_value(text[i]) < base
    &&& number_read(text, base) == value
}

/// Whether a text is made of bytes in hexadecimal: two digits to each byte, small
/// ones above nine, the first of which counts sixteen times the second.
pub open spec fn is_hex_of(text: Seq<char>, bytes: Seq<u8>) -> bool {
    &&& text.len() == 2 * bytes.len()
    &&& forall|i: int| 0 <= i < text.len() ==> is_small_digit(#[trigger] text[i])
    &&& forall|i: int|
        0 <= i < bytes.len() ==> #[trigger] bytes[i] == digit_value(text[2 * i]) * 16
            + digit_value(text[2 * i + 1])
}

/// A number is written so that it can be read again.
pub proof fn law_digits_read_back(value: nat, base: nat)
    requires
        2 <= base <= 16,
    ensures
        is_numeral(digits(value, base), base, value),
    decreases value,
{
    let text = digits(value, base);
    if value < base {
        assert(text.drop_last() =~= Seq::<char>::empty());
        assert(number_read(text.drop_last(), base) == 0);
        assert(0 * base == 0) by (nonlinear_arith);
    } else {
        assert(value / base < value && value / base > 0) by (nonlinear_arith)
            requires
                2 <= base <= value,
        ;
        assert(value % base < base && value == value / base * base + value % base)
            by (nonlinear_arith)
            requires
                2 <= base,
        ;
        law_digits_read_back(value / base, base);
        let front = digits(value / base, base);
        assert(text.drop_last() =~= front);
        assert(text[0] == front[0]);
        if front.len() == 1 && front[0] == '0' {
            assert(front.drop_last() =~= Seq::<char>::empty());
            assert(number_read(front.drop_last(), base) == 0);
            assert(0 * base == 0) by (nonlinear_arith);
        }
        assert forall|i: int| 0 <= i < text.len() implies is_capital_digit(#[trigger] text[i])
            && digit_value(text[i]) < base by {
            if i < front.len() {
                assert(text[i] == front[i]);
            }
        }
    }
}

/// Bytes are written in small hexadecimal digits so that each can be read again.
pub proof fn law_hex_read_back(bytes: Seq<u8>)
    ensures
        is_hex_of(hex_lower(bytes), bytes),
{
    let text = hex_lower(bytes);
    assert forall|i: int| 0 <= i < bytes.len() implies #[trigger] bytes[i] == digit_value(
        text[2 * i],
    ) * 16 + digit_value(text[2 * i + 1]) by {
        assert((2 * i) / 2 == i && (2 * i) % 2 == 0);
        assert((2 * i + 1) / 2 == i && (2 * i + 1) % 2 == 1);
    }
}

/// A text is made of at most one run of bytes.
pub proof fn law_hex_unique(text: Seq<char>, left: Seq<u8>, right: Seq<u8>)
    requires
        is_hex_of(text, left),
        is_hex_of(text, right),
    ensures
        left == right,
{
    assert(left =~= right);
}

/// Bytes in capital hexadecimal digits, read as one number, are the number that
/// the bytes stand for.
pub proof fn law_hex_number(bytes: Seq<u8>)
    ensures
        hex_upper(bytes).len() == 2 * bytes.len(),
        forall|i: int|
            0 <= i < hex_upper(bytes).len() ==> is_capital_digit(#[trigger] hex_upper(bytes)[i]),
        number_read(hex_upper(bytes), 16) == be_value(bytes),
    decreases bytes.len(),
{
    let text = hex_upper(bytes);
    if bytes.len() == 0 {
        assert(text =~= Seq::<char>::empty());
    } else {
        let front = bytes.drop_last();
        law_hex_number(front);
        let byte = bytes.last();
        let high = digit((byte / 16) as nat);
        let low = digit((byte % 16) as nat);
        assert(text =~= hex_upper(front).push(high).push(low));
        assert(text.drop_last() =~= hex_upper(front).push(high));
        assert(text.drop_last().drop_last() =~= hex_upper(front));
        let outer = number_read(hex_upper(front), 16);
        assert(number_read(text.drop_last(), 16) == outer * 16 + byte / 16);
        assert(number_read(text, 16) == (outer * 16 + byte / 16) * 16 + byte % 16);
    }
}

/// Bytes in small hexadecimal digits, read as one number, are the number that the
/// bytes stand for.
pub proof fn law_small_hex_number(text: Seq<char>, bytes: Seq<u8>)
    requires
        is_hex_of(text, bytes),
    ensures
        number_read(text, 16) == be_value(bytes),
    decreases bytes.len(),
{
    if bytes.len() > 0 {
        let last = bytes.len() - 1;
        let front = text.drop_last().drop_last();
        let rest = bytes.drop_last();
        assert forall|i: int| 0 <= i < rest.len() implies #[trigger] rest[i] == digit_value(
            front[2 * i],
        ) * 16 + digit_value(front[2 * i + 1]) by {
            assert(rest[i] == bytes[i]);
        }
        assert(is_hex_of(front, rest)) by {
            assert forall|i: int| 0 <= i < front.len() implies is_small_digit(
                #[trigger] front[i],
            ) by {
                assert(front[i] == text[i]);
            }
        }
        law_small_hex_number(front, rest);
        assert(bytes[last] == digit_value(text[2 * last]) * 16 + digit_value(text[2 * last + 1]));
        let outer = number_read(front, 16);
        assert(number_read(text.drop_last(), 16) == outer * 16 + digit_value(text[2 * last]));
        assert(number_read(text, 16) == (outer * 16 + digit_value(text[2 * last])) * 16
            + digit_value(text[2 * last + 1]));
    }
}

} // verus!
