use vstd::prelude::*;

verus! {

/// ASCII codes used by the image text.
pub const ZERO: u8 = 48;

pub const SPACE: u8 = 32;

pub const NEWLINE: u8 = 10;

pub const LETTER_P: u8 = 80;

/// A resolved pixel: three 8-bit channels after averaging, gamma correction
/// and quantization.
#[derive(Clone, Copy, Debug, PartialEq, Eq, Structural)]
pub struct Rgb {
    pub r: u8,
    pub g: u8,
    pub b: u8,
}

impl Rgb {
    pub fn new(r: u8, g: u8, b: u8) -> (c: Rgb)
        ensures
            c.r == r,
            c.g == g,
            c.b == b,
    {
        Rgb { r, g, b }
    }

    pub fn black() -> (c: Rgb)
        ensures
            c == Rgb::spec_black(),
    {
        Rgb { r: 0, g: 0, b: 0 }
    }

    pub open spec fn spec_black() -> Rgb {
        Rgb { r: 0, g: 0, b: 0 }
    }
}

/// The ASCII decimal digits of `n`, most significant first, without leading
/// zeros ("0" for zero).
pub open spec fn decimal(n: nat) -> Seq<u8>
    decreases n,
{
    if n < 10 {
        seq![(ZERO + n) as u8]
    } else {
        decimal(n / 10).push((ZERO + n % 10) as u8)
    }
}

/// The line that stands for one pixel in the image text: `"R G B\n"`.
pub open spec fn pixel_text(c: Rgb) -> Seq<u8> {
    decimal(c.r as nat) + seq![SPACE] + decimal(c.g as nat) + seq![SPACE] + decimal(c.b as nat)
        + seq![NEWLINE]
}

/// Appends the decimal digits of `n` to `out`.
pub fn write_decimal(out: &mut Vec<u8>, n: u32)
    ensures
        final(out)@ == old(out)@ + decimal(n as nat),
    decreases n,
{
    if n >= 10 {
        write_decimal(out, n / 10);
    }
    out.push(ZERO + (n % 10) as u8);
    proof {
        assert(n % 10 < 10);
    }
}

/// Appends the text line of one pixel to `out`.
pub fn write_color(out: &mut Vec<u8>, c: &Rgb)
    ensures
        final(out)@ == old(out)@ + pixel_text(*c),
{
    write_decimal(out, c.r as u32);
    out.push(SPACE);
    write_decimal(out, c.g as u32);
    out.push(SPACE);
    write_decimal(out, c.b as u32);
    out.push(NEWLINE);
    proof {
        assert(out@ =~= old(out)@ + pixel_text(*c));
    }
}

/// The text of a row of pixels: one line per pixel, left to right.
pub open spec fn row_text(row: Seq<Rgb>) -> Seq<u8>
    decreases row.len(),
{
    if row.len() == 0 {
        Seq::empty()
    } else {
        row_text(row.drop_last()) + pixel_text(row.last())
    }
}

/// The text of several rows, in the order given.
pub open spec fn rows_text(rows: Seq<Seq<Rgb>>) -> Seq<u8>
    decreases rows.len(),
{
    if rows.len() == 0 {
        Seq::empty()
    } else {
        rows_text(rows.drop_last()) + row_text(rows.last())
    }
}

/// The header of an ASCII (P3) image: `"P3\n{width} {height}\n255\n"`.
pub open spec fn ppm_header(width: nat, height: nat) -> Seq<u8> {
    seq![LETTER_P, (ZERO + 3) as u8, NEWLINE] + decimal(width) + seq![SPACE] + decimal(height) + seq![
        NEWLINE,
        (ZERO + 2) as u8,
        (ZERO + 5) as u8,
        (ZERO + 5) as u8,
        NEWLINE,
    ]
}

/// The whole ASCII image for rows stored bottom-up: the header, then the
/// rows from the top one down.
pub open spec fn ppm_text(width: nat, height: nat, rows: Seq<Seq<Rgb>>) -> Seq<u8> {
    ppm_header(width, height) + rows_text(rows.reverse())
}

/// Appends the header of an ASCII image of `width` by `height` pixels.
pub fn write_header(out: &mut Vec<u8>, width: u32, height: u32)
    ensures
        final(out)@ == old(out)@ + ppm_header(width as nat, height as nat),
{
    out.push(LETTER_P);
    out.push((ZERO + 3));
    out.push(NEWLINE);
    write_decimal(out, width);
    out.push(SPACE);
    write_decimal(out, height);
    out.push(NEWLINE);
    out.push((ZERO + 2));
    out.push((ZERO + 5));
    out.push((ZERO + 5));
    out.push(NEWLINE);
    proof {
        assert(out@ =~= old(out)@ + ppm_header(width as nat, height as nat));
    }
}

/// Appends the text of a row of pixels.
pub fn write_row(out: &mut Vec<u8>, row: &Vec<Rgb>)
    ensures
        final(out)@ == old(out)@ + row_text(row@),
{
    let mut j: usize = 0;
    while j < row.len()
        invariant
            j <= row@.len(),
            out@ == old(out)@ + row_text(row@.take(j as int)),
        decreases row@.len() - j,
    {
        write_color(out, &row[j]);
        proof {
            let next = row@.take(j + 1);
            assert(next.drop_last() =~= row@.take(j as int));
            assert(next.last() == row@[j as int]);
        }
        j += 1;
    }
    proof {
        assert(row@.take(j as int) =~= row@);
    }
}

} // verus!
