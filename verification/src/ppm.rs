//! The finished image as a plain-text portable pixmap.
//!
//! The text is a header of three lines, `P3`, the width and the height, and
//! `255`; then one line for each pixel, with its red, green and blue levels in
//! decimal, each one followed by a space. The rows of the buffer run from the
//! bottom of the image to its top, and the text runs from top to bottom, so the
//! last row is written first.
//!
//! A channel comes here after gamma correction, as a number that is meant to
//! lie between 0 and 1. Its level is the floor of 256 times its value, kept
//! within 0 and 255.

use vstd::prelude::*;
use vstd::arithmetic::power2::pow2;
use vstd::arithmetic::power2::lemma_pow2_adds;
use vstd::arithmetic::power2::lemma_pow2_pos;
use vstd::arithmetic::power2::lemma_pow2_strictly_increases;
use vstd::arithmetic::power2::lemma2_to64;
use vstd::arithmetic::power2::lemma2_to64_rest;
use vstd::arithmetic::div_mod::lemma_basic_div;
use vstd::arithmetic::div_mod::lemma_div_by_multiple;
use vstd::arithmetic::div_mod::lemma_div_is_ordered;
use vstd::arithmetic::div_mod::lemma_div_is_ordered_by_denominator;
use vstd::arithmetic::div_mod::lemma_div_multiples_vanish_quotient;
use vstd::arithmetic::div_mod::lemma_fundamental_div_mod;
use vstd::arithmetic::div_mod::lemma_mod_bound;
use vstd::bits::lemma_u64_shr_is_div;
use crate::scalar::lemma_key_orders_values;
use crate::scalar::Scalar;
use crate::scalar::HIDDEN_BIT;
use crate::scalar::ONE_BITS;

verus! {

/// The highest level of a channel.
pub const MAX_LEVEL: u8 = 255;

/// The floor of 256 times the value of a number that is not a NaN. The value
/// is a whole number of units of `2^-1074`, and division rounds down.
pub open spec fn scaled_floor(s: Scalar) -> int {
    s.value() * 256 / (pow2(1074) as int)
}

/// The level of a channel: the floor of 256 times its value, kept within 0 and
/// 255. The level of a NaN is 0.
pub open spec fn level(s: Scalar) -> nat {
    if s.is_nan() {
        0
    } else if scaled_floor(s) > 255 {
        255
    } else if scaled_floor(s) < 0 {
        0
    } else {
        scaled_floor(s) as nat
    }
}

/// The levels of a value of one or more, of zero or less, and of everything
/// else: 255, 0, and nothing outside 0 to 255.
pub proof fn lemma_level_bounds(s: Scalar)
    ensures
        level(s) <= 255,
        !s.is_nan() && s.key() >= ONE_BITS ==> level(s) == 255,
        s.key() <= 0 ==> level(s) == 0,
{
    if !s.is_nan() {
        if s.key() >= ONE_BITS {
            lemma_level_of_large(s);
        }
        if s.key() <= 0 {
            lemma_level_of_negative(s);
        }
    }
}

/// A brighter channel never gets the lower level.
pub proof fn lemma_level_is_monotone(a: Scalar, b: Scalar)
    requires
        !a.is_nan(),
        !b.is_nan(),
        a.key() <= b.key(),
    ensures
        level(a) <= level(b),
{
    lemma_key_orders_values(a, b);
    lemma_pow2_pos(1074);
    lemma_div_is_ordered(a.value() * 256, b.value() * 256, pow2(1074) as int);
}

/// A level between the two ends says where the value lies: at or above the
/// level's share of 256, and below the next level's.
pub proof fn lemma_level_brackets_value(s: Scalar)
    requires
        !s.is_nan(),
        0 < level(s) < 255,
    ensures
        level(s) * pow2(1074) <= s.value() * 256 < (level(s) + 1) * pow2(1074),
{
    let unit = pow2(1074) as int;
    lemma_pow2_pos(1074);
    lemma_fundamental_div_mod(s.value() * 256, unit);
    lemma_mod_bound(s.value() * 256, unit);
    assert(level(s) * unit == unit * scaled_floor(s)) by (nonlinear_arith)
        requires
            level(s) == scaled_floor(s),
    ;
    assert((level(s) + 1) * unit == unit * scaled_floor(s) + unit) by (nonlinear_arith)
        requires
            level(s) == scaled_floor(s),
    ;
}

/// A value of zero or less has the floor of 256 times its value at zero or
/// less.
proof fn lemma_level_of_negative(s: Scalar)
    requires
        !s.is_nan(),
        s.key() <= 0,
    ensures
        scaled_floor(s) <= 0,
        level(s) == 0,
{
    let zero = Scalar { bits: 0 };
    lemma_key_orders_values(s, zero);
    assert(zero.value() == 0) by (nonlinear_arith)
        requires
            zero.value() == 0 * pow2(zero.binade()),
    ;
    lemma_pow2_pos(1074);
    lemma_div_is_ordered(s.value() * 256, 0, pow2(1074) as int);
    lemma_basic_div(0, pow2(1074) as int);
}

/// A value of one or more has 256 times its value at 256 or more.
proof fn lemma_level_of_large(s: Scalar)
    requires
        !s.is_nan(),
        !s.negative(),
        s.exponent() >= 1023,
    ensures
        scaled_floor(s) >= 256,
        level(s) == 255,
{
    let e = s.binade();
    let unit = pow2(1074) as int;
    lemma2_to64();
    lemma2_to64_rest();
    lemma_pow2_pos(1074);
    // 2^52 * 2^1022 * 2^8 == 2^1074 * 2^8
    lemma_pow2_adds(52, 1022);
    lemma_pow2_adds(1074, 8);
    if e > 1022 {
        lemma_pow2_strictly_increases(1022, e);
    }
    assert(s.significand() * pow2(e) >= pow2(52) * pow2(1022)) by (nonlinear_arith)
        requires
            s.significand() >= pow2(52),
            pow2(e) >= pow2(1022),
            pow2(1022) > 0,
    ;
    assert(s.numerator() * 256 >= 256 * unit) by (nonlinear_arith)
        requires
            s.numerator() >= pow2(52) * pow2(1022),
            pow2(52) * pow2(1022) == unit,
    ;
    lemma_div_is_ordered(256 * unit, (s.numerator() * 256) as int, unit);
    lemma_div_by_multiple(256, unit);
}

/// A value below `2^-8` has 256 times its value below one.
proof fn lemma_level_of_small(s: Scalar)
    requires
        !s.is_nan(),
        !s.negative(),
        s.exponent() < 1015,
    ensures
        scaled_floor(s) == 0,
        level(s) == 0,
{
    let e = s.binade();
    lemma2_to64();
    lemma2_to64_rest();
    lemma_pow2_pos(1074);
    lemma_pow2_pos(e);
    // 2^53 * 2^1013 * 2^8 == 2^1074
    lemma_pow2_adds(53, 1013);
    lemma_pow2_adds(1066, 8);
    if e < 1013 {
        lemma_pow2_strictly_increases(e, 1013);
    }
    assert(s.significand() * pow2(e) < pow2(53) * pow2(1013)) by (nonlinear_arith)
        requires
            s.significand() < pow2(53),
            0 < pow2(e) <= pow2(1013),
    ;
    assert(s.numerator() * 256 < pow2(1074)) by (nonlinear_arith)
        requires
            s.numerator() < pow2(1066),
            pow2(1074) == pow2(1066) * 256,
    ;
    lemma_basic_div((s.numerator() * 256) as int, pow2(1074) as int);
}

/// Between `2^-8` and one, 256 times the value is the significand without its
/// lowest `1067 - exponent` bits.
proof fn lemma_level_of_middle(s: Scalar)
    requires
        !s.is_nan(),
        !s.negative(),
        1015 <= s.exponent() <= 1022,
    ensures
        scaled_floor(s) == s.significand() / pow2((1067 - s.exponent()) as nat),
        s.significand() / pow2((1067 - s.exponent()) as nat) < 256,
        level(s) == s.significand() / pow2((1067 - s.exponent()) as nat),
{
    let e = s.binade();
    let up = (e + 8) as nat;
    let down = (1067 - s.exponent()) as nat;
    let sig = s.significand() as int;
    lemma2_to64();
    lemma2_to64_rest();
    lemma_pow2_adds(e, 8);
    lemma_pow2_adds(up, down);
    lemma_pow2_pos(up);
    lemma_pow2_pos(down);
    assert(up + down == 1074);
    assert(s.numerator() * 256 == pow2(up) * sig) by (nonlinear_arith)
        requires
            s.numerator() == sig * pow2(e),
            pow2(up) == pow2(e) * 256,
    ;
    lemma_div_multiples_vanish_quotient(pow2(up) as int, sig, pow2(down) as int);
    if down > 45 {
        lemma_pow2_strictly_increases(45, down);
    }
    lemma_div_is_ordered_by_denominator(sig, pow2(45) as int, pow2(down) as int);
    assert(sig / (pow2(45) as int) < 256) by {
        assert(pow2(45) == 0x2000_0000_0000);
        assert(sig < 0x0020_0000_0000_0000);
    }
}

/// The level of a channel, from its value after gamma correction.
pub fn quantize(value: Scalar) -> (q: u8)
    ensures
        q == level(value),
{
    if value.is_not_a_number() {
        return 0;
    }
    if value.is_negative() {
        proof {
            lemma_level_of_negative(value);
        }
        return 0;
    }
    let magnitude: u64 = value.abs_bits();
    let exponent: u64 = magnitude / HIDDEN_BIT;
    if exponent >= 1023 {
        proof {
            lemma_level_of_large(value);
        }
        MAX_LEVEL
    } else if exponent < 1015 {
        proof {
            lemma_level_of_small(value);
        }
        0
    } else {
        let significand: u64 = HIDDEN_BIT + magnitude % HIDDEN_BIT;
        let shift: u64 = 1067 - exponent;
        proof {
            lemma_level_of_middle(value);
            lemma_u64_shr_is_div(significand, shift);
        }
        (significand >> shift) as u8
    }
}

/// The colour of one pixel after gamma correction.
#[derive(Clone, Copy, Debug, PartialEq, Eq, Structural)]
pub struct Color {
    pub red: Scalar,
    pub green: Scalar,
    pub blue: Scalar,
}

/// The decimal numeral of a number, in ASCII, without leading zeros.
pub open spec fn digits(n: nat) -> Seq<u8>
    decreases n,
{
    if n < 10 {
        seq![(48 + n) as u8]
    } else {
        digits(n / 10).push((48 + n % 10) as u8)
    }
}

/// The number that a string of decimal digits stands for.
pub open spec fn numeral_value(text: Seq<u8>) -> nat
    decreases text.len(),
{
    if text.len() == 0 {
        0
    } else {
        numeral_value(text.drop_last()) * 10 + (text.last() - 48) as nat
    }
}

/// `digits` writes decimal numerals: at least one character, each of them a
/// digit, the first one not `0` unless the number is zero, and read back as a
/// decimal numeral they give the number.
pub proof fn lemma_digits_is_decimal(n: nat)
    ensures
        digits(n).len() >= 1,
        forall|i: int| 0 <= i < digits(n).len() ==> 48 <= #[trigger] digits(n)[i] <= 57,
        n > 0 ==> digits(n)[0] != 48,
        n == 0 ==> digits(n) == seq![48u8],
        numeral_value(digits(n)) == n,
    decreases n,
{
    if n < 10 {
        assert(digits(n).drop_last() =~= Seq::<u8>::empty());
        assert(numeral_value(Seq::<u8>::empty()) == 0);
    } else {
        lemma_digits_is_decimal(n / 10);
        assert(digits(n).drop_last() =~= digits(n / 10));
    }
}

/// The line of one pixel: its three levels, a space behind each, and a
/// newline.
pub open spec fn pixel_line(c: Color) -> Seq<u8> {
    digits(level(c.red)) + seq![32u8] + digits(level(c.green)) + seq![32u8] + digits(
        level(c.blue),
    ) + seq![32u8, 10u8]
}

/// The lines of one row, from its first pixel to its last.
pub open spec fn row_text(row: Seq<Color>) -> Seq<u8>
    decreases row.len(),
{
    if row.len() == 0 {
        Seq::empty()
    } else {
        row_text(row.drop_last()) + pixel_line(row.last())
    }
}

/// The lines of all rows, the last row first.
pub open spec fn body_text(rows: Seq<Seq<Color>>) -> Seq<u8>
    decreases rows.len(),
{
    if rows.len() == 0 {
        Seq::empty()
    } else {
        row_text(rows.last()) + body_text(rows.drop_last())
    }
}

/// The three lines of the header: `P3`, width and height, `255`.
pub open spec fn header_text(width: nat, height: nat) -> Seq<u8> {
    seq![80u8, 51u8, 10u8] + digits(width) + seq![32u8] + digits(height) + seq![10u8] + seq![
        50u8,
        53u8,
        53u8,
        10u8,
    ]
}

/// The width that the header gives: the length of the first row, and 0 for an
/// image without rows.
pub open spec fn width_of(rows: Seq<Seq<Color>>) -> nat {
    if rows.len() == 0 {
        0
    } else {
        rows[0].len()
    }
}

/// The whole text of an image.
pub open spec fn image_text(rows: Seq<Seq<Color>>) -> Seq<u8> {
    header_text(width_of(rows), rows.len()) + body_text(rows)
}

/// The number of newline characters in a text.
pub open spec fn newlines(text: Seq<u8>) -> nat
    decreases text.len(),
{
    if text.len() == 0 {
        0
    } else if text.last() == 10 {
        newlines(text.drop_last()) + 1
    } else {
        newlines(text.drop_last())
    }
}

/// The number of pixels in all rows.
pub open spec fn pixel_count(rows: Seq<Seq<Color>>) -> nat
    decreases rows.len(),
{
    if rows.len() == 0 {
        0
    } else {
        pixel_count(rows.drop_last()) + rows.last().len()
    }
}

proof fn lemma_newlines_of_concat(a: Seq<u8>, b: Seq<u8>)
    ensures
        newlines(a + b) == newlines(a) + newlines(b),
    decreases b.len(),
{
    if b.len() == 0 {
        assert(a + b =~= a);
    } else {
        lemma_newlines_of_concat(a, b.drop_last());
        assert((a + b).drop_last() =~= a + b.drop_last());
    }
}

proof fn lemma_newlines_of_digits(n: nat)
    ensures
        newlines(digits(n)) == 0,
    decreases n,
{
    if n < 10 {
        assert(digits(n).drop_last() =~= Seq::<u8>::empty());
        assert(newlines(Seq::<u8>::empty()) == 0);
    } else {
        lemma_newlines_of_digits(n / 10);
        assert(digits(n).drop_last() =~= digits(n / 10));
    }
}

proof fn lemma_newlines_of_short(a: u8, b: u8, c: u8, d: u8)
    ensures
        newlines(seq![a]) == if a == 10 { 1nat } else { 0 },
        newlines(seq![a, b]) == newlines(seq![a]) + if b == 10 { 1nat } else { 0 },
        newlines(seq![a, b, c]) == newlines(seq![a, b]) + if c == 10 { 1nat } else { 0 },
        newlines(seq![a, b, c, d]) == newlines(seq![a, b, c]) + if d == 10 { 1nat } else { 0 },
{
    assert(seq![a].drop_last() =~= Seq::<u8>::empty());
    assert(newlines(Seq::<u8>::empty()) == 0);
    assert(seq![a, b].drop_last() =~= seq![a]);
    assert(seq![a, b, c].drop_last() =~= seq![a, b]);
    assert(seq![a, b, c, d].drop_last() =~= seq![a, b, c]);
}

proof fn lemma_newlines_of_pixel(c: Color)
    ensures
        newlines(pixel_line(c)) == 1,
{
    let red = digits(level(c.red));
    let green = digits(level(c.green));
    let blue = digits(level(c.blue));
    lemma_newlines_of_digits(level(c.red));
    lemma_newlines_of_digits(level(c.green));
    lemma_newlines_of_digits(level(c.blue));
    lemma_newlines_of_short(32, 10, 0, 0);
    lemma_newlines_of_concat(red, seq![32u8]);
    lemma_newlines_of_concat(red + seq![32u8], green);
    lemma_newlines_of_concat(red + seq![32u8] + green, seq![32u8]);
    lemma_newlines_of_concat(red + seq![32u8] + green + seq![32u8], blue);
    lemma_newlines_of_concat(red + seq![32u8] + green + seq![32u8] + blue, seq![32u8, 10u8]);
}

proof fn lemma_newlines_of_row(row: Seq<Color>)
    ensures
        newlines(row_text(row)) == row.len(),
    decreases row.len(),
{
    if row.len() > 0 {
        lemma_newlines_of_row(row.drop_last());
        lemma_newlines_of_pixel(row.last());
        lemma_newlines_of_concat(row_text(row.drop_last()), pixel_line(row.last()));
    }
}

proof fn lemma_newlines_of_body(rows: Seq<Seq<Color>>)
    ensures
        newlines(body_text(rows)) == pixel_count(rows),
    decreases rows.len(),
{
    if rows.len() > 0 {
        lemma_newlines_of_body(rows.drop_last());
        lemma_newlines_of_row(rows.last());
        lemma_newlines_of_concat(row_text(rows.last()), body_text(rows.drop_last()));
    }
}

/// The text of an image has three lines of header and one line for each
/// pixel.
pub proof fn lemma_one_line_per_pixel(rows: Seq<Seq<Color>>)
    ensures
        newlines(image_text(rows)) == 3 + pixel_count(rows),
{
    let width = digits(width_of(rows));
    let height = digits(rows.len());
    let magic = seq![80u8, 51u8, 10u8];
    let depth = seq![50u8, 53u8, 53u8, 10u8];
    lemma_newlines_of_digits(width_of(rows));
    lemma_newlines_of_digits(rows.len());
    lemma_newlines_of_short(80, 51, 10, 0);
    lemma_newlines_of_short(50, 53, 53, 10);
    lemma_newlines_of_short(32, 0, 0, 0);
    lemma_newlines_of_short(10, 0, 0, 0);
    lemma_newlines_of_concat(magic, width);
    lemma_newlines_of_concat(magic + width, seq![32u8]);
    lemma_newlines_of_concat(magic + width + seq![32u8], height);
    lemma_newlines_of_concat(magic + width + seq![32u8] + height, seq![10u8]);
    lemma_newlines_of_concat(magic + width + seq![32u8] + height + seq![10u8], depth);
    lemma_newlines_of_body(rows);
    lemma_newlines_of_concat(header_text(width_of(rows), rows.len()), body_text(rows));
}

/// The rows of a pixel buffer.
pub open spec fn rows_of(pixels: Seq<Vec<Color>>) -> Seq<Seq<Color>> {
    pixels.map_values(|row: Vec<Color>| row@)
}

/// Appends the decimal numeral of `n`.
pub fn push_decimal(out: &mut Vec<u8>, n: u64)
    ensures
        final(out)@ == old(out)@ + digits(n as nat),
    decreases n,
{
    if n >= 10 {
        push_decimal(out, n / 10);
    }
    out.push(48 + (n % 10) as u8);
    proof {
        if n >= 10 {
            assert(out@ =~= old(out)@ + digits((n / 10) as nat).push((48 + n % 10) as u8));
        } else {
            assert(out@ =~= old(out)@ + seq![(48 + n) as u8]);
        }
    }
}

/// Appends the line of one pixel.
pub fn push_pixel(out: &mut Vec<u8>, color: &Color)
    ensures
        final(out)@ == old(out)@ + pixel_line(*color),
{
    push_decimal(out, quantize(color.red) as u64);
    out.push(32);
    push_decimal(out, quantize(color.green) as u64);
    out.push(32);
    push_decimal(out, quantize(color.blue) as u64);
    out.push(32);
    out.push(10);
    proof {
        assert(out@ =~= old(out)@ + pixel_line(*color));
    }
}

/// Appends the lines of one row.
pub fn push_row(out: &mut Vec<u8>, row: &Vec<Color>)
    ensures
        final(out)@ == old(out)@ + row_text(row@),
{
    let mut i: usize = 0;
    proof {
        assert(row@.take(0) =~= Seq::<Color>::empty());
        assert(out@ =~= old(out)@ + row_text(row@.take(0)));
    }
    while i < row.len()
        invariant
            i <= row.len(),
            out@ == old(out)@ + row_text(row@.take(i as int)),
        decreases row.len() - i,
    {
        let ghost before = out@;
        push_pixel(out, &row[i]);
        proof {
            let longer = row@.take(i + 1);
            assert(longer.drop_last() =~= row@.take(i as int));
            assert(longer.last() == row@[i as int]);
            assert(out@ =~= old(out)@ + row_text(longer));
        }
        i += 1;
    }
    proof {
        assert(row@.take(i as int) =~= row@);
    }
}

/// The text of an image: the header, then the rows from the last to the
/// first, each pixel on a line of its own.
pub fn encode(pixels: &Vec<Vec<Color>>) -> (out: Vec<u8>)
    ensures
        out@ == image_text(rows_of(pixels@)),
{
    let ghost rows = rows_of(pixels@);
    let height: usize = pixels.len();
    let width: usize = if height == 0 {
        0
    } else {
        pixels[0].len()
    };
    let mut out: Vec<u8> = Vec::new();
    out.push(80);
    out.push(51);
    out.push(10);
    push_decimal(&mut out, width as u64);
    out.push(32);
    push_decimal(&mut out, height as u64);
    out.push(10);
    out.push(50);
    out.push(53);
    out.push(53);
    out.push(10);
    proof {
        assert(out@ =~= header_text(width_of(rows), rows.len()));
        assert(rows.take(height as int) =~= rows);
    }
    let mut i: usize = height;
    while i > 0
        invariant
            i <= height,
            height == pixels.len(),
            rows == rows_of(pixels@),
            out@ + body_text(rows.take(i as int)) == image_text(rows),
        decreases i,
    {
        i -= 1;
        proof {
            let shown = rows.take(i + 1);
            assert(shown.drop_last() =~= rows.take(i as int));
            assert(shown.last() == pixels@[i as int]@);
            assert(body_text(shown) == row_text(pixels@[i as int]@) + body_text(
                rows.take(i as int),
            ));
        }
        let ghost before = out@;
        push_row(&mut out, &pixels[i]);
        proof {
            assert(out@ + body_text(rows.take(i as int)) =~= before + body_text(
                rows.take(i + 1),
            ));
        }
    }
    proof {
        assert(rows.take(0) =~= Seq::<Seq<Color>>::empty());
        assert(out@ + body_text(rows.take(0)) =~= out@);
    }
    out
}

} // verus!
