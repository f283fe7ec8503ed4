//! Hexadecimal text: what it is, and the two calls that produce and read it.

use vstd::prelude::*;

verus! {

/// The lower-case ASCII digit that stands for a value below sixteen.
pub open spec fn hex_digit(n: u8) -> u8 {
    if n < 10 {
        (0x30 + n) as u8
    } else {
        (0x57 + n) as u8
    }
}

/// What an ASCII byte is worth as a hexadecimal digit, in either case.
pub open spec fn digit_value(c: u8) -> Option<u8> {
    if 0x30 <= c <= 0x39 {
        Some((c - 0x30) as u8)
    } else if 0x61 <= c <= 0x66 {
        Some((c - 0x57) as u8)
    } else if 0x41 <= c <= 0x46 {
        Some((c - 0x37) as u8)
    } else {
        None
    }
}

/// The hexadecimal text of `data` as ASCII bytes: two lower-case digits for
/// each byte, the high half first.
pub open spec fn hex_text(data: Seq<u8>) -> Seq<u8> {
    Seq::new(
        2 * data.len(),
        |i: int|
            if i % 2 == 0 {
                hex_digit(data[i / 2] / 16)
            } else {
                hex_digit(data[i / 2] % 16)
            },
    )
}

/// The hexadecimal text of `data` as characters.
pub open spec fn hex_chars(data: Seq<u8>) -> Seq<char> {
    Seq::new(2 * data.len(), |i: int| hex_text(data)[i] as char)
}

/// Whether `text` is hexadecimal text: an even number of bytes, each of them
/// a digit.
pub open spec fn is_hex(text: Seq<u8>) -> bool {
    &&& text.len() % 2 == 0
    &&& forall|i: int| 0 <= i < text.len() ==> (#[trigger] digit_value(text[i])).is_some()
}

/// The bytes that hexadecimal text stands for, if it is such text.
pub open spec fn hex_bytes(text: Seq<u8>) -> Option<Seq<u8>> {
    if is_hex(text) {
        Some(
            Seq::new(
                text.len() / 2,
                |i: int|
                    (digit_value(text[2 * i]).unwrap() * 16 + digit_value(
                        text[2 * i + 1],
                    ).unwrap()) as u8,
            ),
        )
    } else {
        None
    }
}

/// Calls `hex::encode`. Believed of it: the string holds, for each byte of
/// `data` in turn, the lower-case digit of its high half and then that of its
/// low half.
#[verifier::external_body]
pub(crate) fn hex_encode(data: &[u8]) -> (out: String)
    ensures
        out@ == hex_chars(data@),
{
    hex::encode(data)
}

/// Calls `hex::decode`. Believed of it: it fails on an odd number of bytes
/// and on any byte that is no digit of either case, and otherwise joins each
/// pair of digits into one byte, the first digit being the high half.
#[verifier::external_body]
pub(crate) fn hex_decode(text: &[u8]) -> (out: Option<Vec<u8>>)
    ensures
        match out {
            Some(v) => hex_bytes(text@) == Some(v@),
            None => hex_bytes(text@).is_none(),
        },
{
    hex::decode(text).ok()
}

/// Every byte of hexadecimal text is a digit, and so none is a separator.
pub proof fn lemma_hex_text_digits(data: Seq<u8>)
    ensures
        hex_text(data).len() == 2 * data.len(),
        forall|i: int|
            0 <= i < hex_text(data).len() ==> {
                let c = #[trigger] hex_text(data)[i];
                (0x30 <= c <= 0x39 || 0x61 <= c <= 0x66) && digit_value(c).is_some()
            },
{
}

/// Reading the hexadecimal text of `data` gives `data` back.
pub proof fn lemma_hex_round_trip(data: Seq<u8>)
    ensures
        hex_bytes(hex_text(data)) == Some(data),
{
    let text = hex_text(data);
    lemma_hex_text_digits(data);
    assert(is_hex(text));
    let back = hex_bytes(text).unwrap();
    assert(back.len() == data.len());
    assert forall|i: int| 0 <= i < data.len() implies back[i] == data[i] by {
        let b = data[i];
        assert((2 * i) % 2 == 0 && (2 * i) / 2 == i && (2 * i + 1) % 2 == 1 && (2 * i + 1) / 2
            == i) by (nonlinear_arith)
            requires
                0 <= i,
        ;
        assert(text[2 * i] == hex_digit(b / 16));
        assert(text[2 * i + 1] == hex_digit(b % 16));
        assert(digit_value(hex_digit(b / 16)) == Some((b / 16) as u8));
        assert(digit_value(hex_digit(b % 16)) == Some((b % 16) as u8));
        assert((b / 16) * 16 + b % 16 == b);
    }
    assert(back =~= data);
}

/// Hexadecimal text with one digit replaced by a digit of another value
/// stands for other bytes, as many as before.
pub proof fn lemma_flipped_digit(data: Seq<u8>, at: int, digit: u8)
    requires
        0 <= at < hex_text(data).len(),
        digit_value(digit).is_some(),
        digit_value(digit) != digit_value(hex_text(data)[at]),
    ensures
        hex_bytes(hex_text(data).update(at, digit)).is_some(),
        hex_bytes(hex_text(data).update(at, digit)).unwrap().len() == data.len(),
        hex_bytes(hex_text(data).update(at, digit)).unwrap() != data,
{
    let text = hex_text(data);
    let flipped = text.update(at, digit);
    lemma_hex_text_digits(data);
    lemma_hex_round_trip(data);
    assert forall|i: int| 0 <= i < flipped.len() implies (#[trigger] digit_value(
        flipped[i],
    )).is_some() by {
        if i != at {
            assert(flipped[i] == text[i]);
        }
    }
    assert(is_hex(flipped));
    let back = hex_bytes(flipped).unwrap();
    let k = at / 2;
    assert(0 <= k < data.len() && (at == 2 * k || at == 2 * k + 1));
    let hi = digit_value(text[2 * k]).unwrap();
    let lo = digit_value(text[2 * k + 1]).unwrap();
    assert(hex_bytes(text).unwrap()[k] == (hi * 16 + lo) as u8);
    assert(data[k] == (hi * 16 + lo) as u8);
    let d = digit_value(digit).unwrap();
    assert(hi < 16 && lo < 16 && d < 16);
    if at == 2 * k {
        assert(flipped[2 * k] == digit);
        assert(flipped[2 * k + 1] == text[2 * k + 1]);
        assert(back[k] == (d * 16 + lo) as u8);
    } else {
        assert(flipped[2 * k] == text[2 * k]);
        assert(flipped[2 * k + 1] == digit);
        assert(back[k] == (hi * 16 + d) as u8);
    }
    assert(back[k] != data[k]);
}

} // verus!
