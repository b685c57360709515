//! The text of a picture in the plain portable pixmap format.
//!
//! A picture is written as a header (the mark of the format, the width and the
//! height, and the largest colour value, 255) and then one line of text for
//! each row of pixels. A pixel is three numbers from 0 to 255, for red, green and blue;
//! every number is followed by one space.

use string_builder::Builder;
use vstd::prelude::*;
use vstd::utf8::{
    decode_utf8, encode_utf8, encode_utf8_decode_utf8, encode_utf8_valid_utf8, is_ascii_chars,
    is_ascii_chars_encode_utf8, valid_utf8,
};

verus! {

/// `string_builder::Builder`, a growing buffer of bytes.
#[verifier::external_type_specification]
#[verifier::external_body]
pub struct ExBuilder(Builder);

/// `std::string::FromUtf8Error`, the error of `String::from_utf8`.
#[verifier::external_type_specification]
#[verifier::external_body]
pub struct ExFromUtf8Error(std::string::FromUtf8Error);

/// The bytes that a builder has collected so far, in their order.
pub uninterp spec fn builder_bytes(b: Builder) -> Seq<u8>;

/// `Builder::default`: a fresh builder holds no bytes.
#[verifier::external_body]
fn builder_default() -> (b: Builder)
    ensures
        builder_bytes(b) == Seq::<u8>::empty(),
{
    Builder::default()
}

/// `Builder::append` with one byte: the byte is put behind those collected
/// before.
#[verifier::external_body]
fn builder_append(b: &mut Builder, byte: u8)
    ensures
        builder_bytes(*final(b)) == builder_bytes(*old(b)).push(byte),
{
    b.append(byte)
}

/// `Builder::string`: the collected bytes as a `String`, which exists exactly
/// if they are valid UTF-8 and then holds the characters that they encode.
#[verifier::external_body]
fn builder_string(b: Builder) -> (r: Result<String, std::string::FromUtf8Error>)
    ensures
        r is Ok <==> valid_utf8(builder_bytes(b)),
        r matches Ok(s) ==> s@ == decode_utf8(builder_bytes(b)),
{
    b.string()
}

/// One pixel as it is written: red, green and blue from 0 to 255.
#[derive(Clone, Copy, Debug, PartialEq, Eq, Structural)]
pub struct Rgb {
    pub r: u8,
    pub g: u8,
    pub b: u8,
}

/// The decimal digits of `n`, as ASCII codes, without leading zeros.
pub open spec fn decimal(n: nat) -> Seq<u8>
    decreases n,
{
    if n < 10 {
        seq![(48 + n) as u8]
    } else {
        decimal(n / 10).push((48 + n % 10) as u8)
    }
}

/// A pixel as text: its three numbers, each followed by a space.
pub open spec fn pixel_bytes(p: Rgb) -> Seq<u8> {
    decimal(p.r as nat).push(32u8) + decimal(p.g as nat).push(32u8) + decimal(p.b as nat).push(32u8)
}

/// A row of pixels as text: the pixels one after the other, without a line end.
pub open spec fn row_bytes(pixels: Seq<Rgb>) -> Seq<u8>
    decreases pixels.len(),
{
    if pixels.len() == 0 {
        Seq::empty()
    } else {
        row_bytes(pixels.drop_last()) + pixel_bytes(pixels.last())
    }
}

/// The header of a picture of `width` by `height` pixels: three lines, each
/// ended by a line feed.
pub open spec fn header_bytes(width: nat, height: nat) -> Seq<u8> {
    seq![80u8, 51u8, 10u8] + decimal(width).push(32u8) + decimal(height).push(10u8) + seq![
        50u8,
        53u8,
        53u8,
        10u8,
    ]
}

/// ASCII codes as the characters they stand for.
pub open spec fn as_text(bytes: Seq<u8>) -> Seq<char> {
    Seq::new(bytes.len(), |i: int| bytes[i] as char)
}

/// All of `bytes` are ASCII codes.
pub open spec fn is_ascii_bytes(bytes: Seq<u8>) -> bool {
    forall|i: int| 0 <= i < bytes.len() ==> #[trigger] bytes[i] < 128
}

/// Decimal digits are ASCII digits, at least one of them.
pub proof fn lemma_decimal_digits(n: nat)
    ensures
        decimal(n).len() >= 1,
        forall|i: int| 0 <= i < decimal(n).len() ==> 48 <= #[trigger] decimal(n)[i] <= 57,
        n >= 10 ==> decimal(n)[0] != 48,
    decreases n,
{
    if n >= 10 {
        lemma_decimal_digits(n / 10);
        assert(decimal(n)[0] == decimal(n / 10)[0]);
    }
}

/// ASCII codes are valid UTF-8, and decode to the characters they stand for.
pub proof fn lemma_ascii_is_text(bytes: Seq<u8>)
    requires
        is_ascii_bytes(bytes),
    ensures
        valid_utf8(bytes),
        decode_utf8(bytes) == as_text(bytes),
{
    let chars = as_text(bytes);
    assert(is_ascii_chars(chars)) by {
        assert forall|i: int| 0 <= i < chars.len() implies '\0' <= #[trigger] chars[i] <= '\u{7f}' by {
            assert(bytes[i] < 128);
        }
    }
    is_ascii_chars_encode_utf8(chars);
    assert(encode_utf8(chars) =~= bytes) by {
        assert forall|i: int| 0 <= i < bytes.len() implies encode_utf8(chars)[i] == bytes[i] by {
            assert(chars[i] as u8 == encode_utf8(chars)[i]);
            assert(bytes[i] < 128);
        }
    }
    encode_utf8_valid_utf8(chars);
    encode_utf8_decode_utf8(chars);
}

/// The text of a row is ASCII.
pub proof fn lemma_row_is_ascii(pixels: Seq<Rgb>)
    ensures
        is_ascii_bytes(row_bytes(pixels)),
    decreases pixels.len(),
{
    if pixels.len() > 0 {
        lemma_row_is_ascii(pixels.drop_last());
        let p = pixels.last();
        lemma_decimal_digits(p.r as nat);
        lemma_decimal_digits(p.g as nat);
        lemma_decimal_digits(p.b as nat);
    }
}

/// Puts the decimal digits of `n` behind what `b` holds.
fn append_decimal(b: &mut Builder, n: usize)
    ensures
        builder_bytes(*final(b)) == builder_bytes(*old(b)) + decimal(n as nat),
{
    let mut digits: Vec<u8> = Vec::new();
    let mut rest = n;
    while rest >= 10
        invariant
            decimal(n as nat) == decimal(rest as nat) + digits@.reverse(),
        decreases rest,
    {
        let d = (rest % 10) as u8;
        proof {
            assert(decimal(rest as nat) == decimal((rest / 10) as nat).push((48 + rest % 10) as u8));
            assert(digits@.push((48 + d) as u8).reverse() =~= seq![(48 + d) as u8] + digits@.reverse());
            assert(decimal((rest / 10) as nat).push((48 + d) as u8) + digits@.reverse() =~= decimal(
                (rest / 10) as nat,
            ) + (seq![(48 + d) as u8] + digits@.reverse()));
        }
        digits.push(48 + d);
        rest = rest / 10;
    }
    let ghost tail = digits@.reverse();
    builder_append(b, 48 + (rest as u8));
    let mut k = digits.len();
    while k > 0
        invariant
            0 <= k <= digits.len(),
            tail == digits@.reverse(),
            builder_bytes(*b) == builder_bytes(*old(b)) + decimal(rest as nat) + tail.take(
                digits.len() - k,
            ),
        decreases k,
    {
        k -= 1;
        proof {
            let done = digits.len() - k - 1;
            assert(tail.take(done + 1) =~= tail.take(done).push(tail[done]));
            assert(tail[done] == digits@[k as int]);
            assert((builder_bytes(*old(b)) + decimal(rest as nat) + tail.take(done)).push(tail[done])
                =~= builder_bytes(*old(b)) + decimal(rest as nat) + tail.take(done + 1));
        }
        builder_append(b, digits[k]);
    }
    proof {
        assert(tail.take(digits.len() as int) =~= tail);
        assert(builder_bytes(*old(b)) + decimal(rest as nat) + tail =~= builder_bytes(*old(b)) + (
        decimal(rest as nat) + tail));
    }
}

/// The text that `b` holds, which is ASCII.
fn finish(b: Builder) -> (s: String)
    requires
        is_ascii_bytes(builder_bytes(b)),
    ensures
        s@ == as_text(builder_bytes(b)),
{
    proof {
        lemma_ascii_is_text(builder_bytes(b));
    }
    match builder_string(b) {
        Ok(s) => s,
        Err(_) => {
            // ASCII is valid UTF-8
            assert(false);
            String::new()
        },
    }
}

/// The text of one row of pixels, without a line end.
pub fn ppm_row(pixels: &[Rgb]) -> (s: String)
    ensures
        s@ == as_text(row_bytes(pixels@)),
{
    let mut b = builder_default();
    let mut i: usize = 0;
    while i < pixels.len()
        invariant
            0 <= i <= pixels.len(),
            builder_bytes(b) == row_bytes(pixels@.take(i as int)),
        decreases pixels.len() - i,
    {
        let p = pixels[i];
        let ghost start = builder_bytes(b);
        append_decimal(&mut b, p.r as usize);
        builder_append(&mut b, 32);
        append_decimal(&mut b, p.g as usize);
        builder_append(&mut b, 32);
        append_decimal(&mut b, p.b as usize);
        builder_append(&mut b, 32);
        proof {
            assert(pixels@.take(i + 1).drop_last() == pixels@.take(i as int));
            assert(pixels@.take(i + 1).last() == p);
            assert(builder_bytes(b) =~= start + pixel_bytes(p));
        }
        i += 1;
    }
    proof {
        assert(pixels@.take(i as int) == pixels@);
        lemma_row_is_ascii(pixels@);
    }
    finish(b)
}

/// The header of a picture of `width` by `height` pixels.
pub fn ppm_header(width: usize, height: usize) -> (s: String)
    ensures
        s@ == as_text(header_bytes(width as nat, height as nat)),
{
    let mut b = builder_default();
    builder_append(&mut b, 80);
    builder_append(&mut b, 51);
    builder_append(&mut b, 10);
    append_decimal(&mut b, width);
    builder_append(&mut b, 32);
    append_decimal(&mut b, height);
    builder_append(&mut b, 10);
    builder_append(&mut b, 50);
    builder_append(&mut b, 53);
    builder_append(&mut b, 53);
    builder_append(&mut b, 10);
    proof {
        assert(builder_bytes(b) =~= header_bytes(width as nat, height as nat));
        lemma_decimal_digits(width as nat);
        lemma_decimal_digits(height as nat);
    }
    finish(b)
}

} // verus!
