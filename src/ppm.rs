//! Plain-text PPM encoding of an 8-bit RGB image.
use vstd::prelude::*;

verus! {

/// ASCII code of the digit `0`.
pub const DIGIT_ZERO: u8 = 48;

/// Decimal digits of `n`, most significant first, without leading zeros.
pub open spec fn decimal(n: nat) -> Seq<u8>
    decreases n,
{
    if n < 10 {
        seq![(48 + n) as u8]
    } else {
        decimal(n / 10) + seq![(48 + n % 10) as u8]
    }
}

/// Appends the decimal digits of `n` to `out`.
pub fn push_decimal(out: &mut Vec<u8>, n: usize)
    ensures
        final(out)@ == old(out)@ + decimal(n as nat),
    decreases n,
{
    if n >= 10 {
        push_decimal(out, n / 10);
    }
    let d: u8 = (n % 10) as u8;
    out.push(DIGIT_ZERO + d);
    proof {
        assert(final(out)@ =~= old(out)@ + decimal(n as nat));
    }
}


/// ASCII space.
pub const SPACE: u8 = 32;

/// ASCII line feed.
pub const NEWLINE: u8 = 10;

/// One 8-bit RGB pixel, as written to the image file.
#[derive(Clone, Copy, Debug, PartialEq, Eq, Structural)]
pub struct Rgb8 {
    pub r: u8,
    pub g: u8,
    pub b: u8,
}

/// The header: the plain-text magic number, then width and height, then the
/// maximum component value 255, each on its own line.
pub open spec fn ppm_header(width: nat, height: nat) -> Seq<u8> {
    seq![80u8, 51u8, NEWLINE] + decimal(width) + seq![SPACE] + decimal(height) + seq![
        NEWLINE,
        50u8,
        53u8,
        53u8,
        NEWLINE,
    ]
}

/// `R G B\n` for one pixel.
pub open spec fn pixel_line(c: Rgb8) -> Seq<u8> {
    decimal(c.r as nat) + seq![SPACE] + decimal(c.g as nat) + seq![SPACE] + decimal(c.b as nat)
        + seq![NEWLINE]
}

/// The lines of all pixels, in order.
pub open spec fn pixel_lines(pixels: Seq<Rgb8>) -> Seq<u8>
    decreases pixels.len(),
{
    if pixels.len() == 0 {
        Seq::empty()
    } else {
        pixel_lines(pixels.drop_last()) + pixel_line(pixels.last())
    }
}

/// A whole image file: the header, then one line per pixel in row-major order.
pub open spec fn ppm_image(width: nat, height: nat, pixels: Seq<Rgb8>) -> Seq<u8> {
    ppm_header(width, height) + pixel_lines(pixels)
}

/// Writes one pixel's line to an output buffer.
pub trait ColorExt {
    spec fn line(&self) -> Seq<u8>;

    fn write_color(&self, writer: &mut Vec<u8>)
        ensures
            final(writer)@ == old(writer)@ + self.line(),
    ;
}

impl ColorExt for Rgb8 {
    open spec fn line(&self) -> Seq<u8> {
        pixel_line(*self)
    }

    fn write_color(&self, writer: &mut Vec<u8>) {
        push_decimal(writer, self.r as usize);
        writer.push(SPACE);
        push_decimal(writer, self.g as usize);
        writer.push(SPACE);
        push_decimal(writer, self.b as usize);
        writer.push(NEWLINE);
        proof {
            assert(final(writer)@ =~= old(writer)@ + pixel_line(*self));
        }
    }
}

/// Appends the header of a `width` by `height` image.
pub fn write_header(writer: &mut Vec<u8>, width: usize, height: usize)
    ensures
        final(writer)@ == old(writer)@ + ppm_header(width as nat, height as nat),
{
    writer.push(80u8);
    writer.push(51u8);
    writer.push(NEWLINE);
    push_decimal(writer, width);
    writer.push(SPACE);
    push_decimal(writer, height);
    writer.push(NEWLINE);
    writer.push(50u8);
    writer.push(53u8);
    writer.push(53u8);
    writer.push(NEWLINE);
    proof {
        assert(final(writer)@ =~= old(writer)@ + ppm_header(width as nat, height as nat));
    }
}

/// Encodes a finished image: the header, then every pixel in the order given
/// (rows top to bottom, each left to right).
pub fn encode_ppm(width: usize, height: usize, pixels: &Vec<Rgb8>) -> (r: Vec<u8>)
    requires
        pixels.len() == width * height,
    ensures
        r@ == ppm_image(width as nat, height as nat, pixels@),
{
    let mut out: Vec<u8> = Vec::new();
    write_header(&mut out, width, height);
    let mut i: usize = 0;
    while i < pixels.len()
        invariant
            i <= pixels.len(),
            out@ == ppm_header(width as nat, height as nat) + pixel_lines(pixels@.take(i as int)),
        decreases pixels.len() - i,
    {
        let ghost before = out@;
        pixels[i].write_color(&mut out);
        proof {
            let t = pixels@.take(i as int + 1);
            assert(t.drop_last() =~= pixels@.take(i as int));
            assert(t.last() == pixels@[i as int]);
            assert(out@ =~= ppm_header(width as nat, height as nat) + pixel_lines(t));
        }
        i = i + 1;
    }
    proof {
        assert(pixels@.take(pixels.len() as int) =~= pixels@);
    }
    out
}


/// The pixels of `rows`, row after row.
pub open spec fn row_major(rows: Seq<Seq<Rgb8>>) -> Seq<Rgb8>
    decreases rows.len(),
{
    if rows.len() == 0 {
        Seq::empty()
    } else {
        row_major(rows.drop_last()) + rows.last()
    }
}

/// Every row holds `width` pixels.
pub open spec fn rows_have_width(rows: Seq<Vec<Rgb8>>, width: nat) -> bool {
    forall|j: int| 0 <= j < rows.len() ==> (#[trigger] rows[j]).len() == width
}

/// The rows as pixel sequences.
pub open spec fn row_views(rows: Seq<Vec<Rgb8>>) -> Seq<Seq<Rgb8>> {
    rows.map_values(|r: Vec<Rgb8>| r@)
}

/// Encodes finished scanlines, top to bottom, each `width` pixels long, as
/// an image `width` wide and `rows.len()` high. Nothing comes back when a row
/// has another length.
pub fn encode_rows(width: usize, rows: &Vec<Vec<Rgb8>>) -> (r: Option<Vec<u8>>)
    ensures
        r is Some <==> rows_have_width(rows@, width as nat),
        r matches Some(b) ==> b@ == ppm_image(
            width as nat,
            rows.len() as nat,
            row_major(row_views(rows@)),
        ),
{
    let mut j: usize = 0;
    while j < rows.len()
        invariant
            j <= rows.len(),
            forall|k: int| 0 <= k < j ==> (#[trigger] rows@[k]).len() == width,
        decreases rows.len() - j,
    {
        if rows[j].len() != width {
            return None;
        }
        j = j + 1;
    }
    let mut out: Vec<u8> = Vec::new();
    write_header(&mut out, width, rows.len());
    let ghost views = row_views(rows@);
    let mut j: usize = 0;
    while j < rows.len()
        invariant
            j <= rows.len(),
            views == row_views(rows@),
            out@ == ppm_header(width as nat, rows.len() as nat) + pixel_lines(
                row_major(views.take(j as int)),
            ),
        decreases rows.len() - j,
    {
        let row = &rows[j];
        let ghost done = row_major(views.take(j as int));
        let mut i: usize = 0;
        while i < row.len()
            invariant
                i <= row.len(),
                row@ == views[j as int],
                out@ == ppm_header(width as nat, rows.len() as nat) + pixel_lines(
                    done + row@.take(i as int),
                ),
            decreases row.len() - i,
        {
            row[i].write_color(&mut out);
            proof {
                let t = done + row@.take(i as int + 1);
                assert(t.drop_last() =~= done + row@.take(i as int));
                assert(t.last() == row@[i as int]);
            }
            i = i + 1;
        }
        proof {
            let t = views.take(j as int + 1);
            assert(t.drop_last() =~= views.take(j as int));
            assert(t.last() == views[j as int]);
            assert(row@.take(row.len() as int) =~= row@);
        }
        j = j + 1;
    }
    proof {
        assert(views.take(rows.len() as int) =~= views);
    }
    Some(out)
}

/// Number of line feeds in `s`.
pub open spec fn newline_count(s: Seq<u8>) -> nat
    decreases s.len(),
{
    if s.len() == 0 {
        0
    } else {
        newline_count(s.drop_last()) + if s.last() == NEWLINE {
            1nat
        } else {
            0nat
        }
    }
}

proof fn lemma_newline_count_concat(a: Seq<u8>, b: Seq<u8>)
    ensures
        newline_count(a + b) == newline_count(a) + newline_count(b),
    decreases b.len(),
{
    if b.len() > 0 {
        assert((a + b).drop_last() =~= a + b.drop_last());
        lemma_newline_count_concat(a, b.drop_last());
    } else {
        assert(a + b =~= a);
    }
}

proof fn lemma_decimal_has_no_newline(n: nat)
    ensures
        newline_count(decimal(n)) == 0,
        decimal(n).len() > 0,
    decreases n,
{
    if n < 10 {
        lemma_single((48 + n) as u8);
    } else {
        lemma_decimal_has_no_newline(n / 10);
        lemma_newline_count_concat(decimal(n / 10), seq![(48 + n % 10) as u8]);
        lemma_single((48 + n % 10) as u8);
    }
}

proof fn lemma_single(b: u8)
    ensures
        newline_count(seq![b]) == if b == NEWLINE {
            1nat
        } else {
            0nat
        },
{
    assert(seq![b].drop_last() =~= Seq::<u8>::empty());
    assert(newline_count(Seq::<u8>::empty()) == 0);
    assert(seq![b].last() == b);
}

proof fn lemma_pixel_line_count(c: Rgb8)
    ensures
        newline_count(pixel_line(c)) == 1,
{
    let dr = decimal(c.r as nat);
    let dg = decimal(c.g as nat);
    let db = decimal(c.b as nat);
    lemma_decimal_has_no_newline(c.r as nat);
    lemma_decimal_has_no_newline(c.g as nat);
    lemma_decimal_has_no_newline(c.b as nat);
    lemma_single(SPACE);
    lemma_single(NEWLINE);
    lemma_newline_count_concat(dr, seq![SPACE]);
    lemma_newline_count_concat(dr + seq![SPACE], dg);
    lemma_newline_count_concat(dr + seq![SPACE] + dg, seq![SPACE]);
    lemma_newline_count_concat(dr + seq![SPACE] + dg + seq![SPACE], db);
    lemma_newline_count_concat(dr + seq![SPACE] + dg + seq![SPACE] + db, seq![NEWLINE]);
}

proof fn lemma_pixel_lines_count(pixels: Seq<Rgb8>)
    ensures
        newline_count(pixel_lines(pixels)) == pixels.len(),
    decreases pixels.len(),
{
    if pixels.len() > 0 {
        lemma_pixel_lines_count(pixels.drop_last());
        lemma_pixel_line_count(pixels.last());
        lemma_newline_count_concat(pixel_lines(pixels.drop_last()), pixel_line(pixels.last()));
    }
}

proof fn lemma_header_count(width: nat, height: nat)
    ensures
        newline_count(ppm_header(width, height)) == 3,
{
    let a = seq![80u8, 51u8, NEWLINE];
    let e = seq![NEWLINE, 50u8, 53u8, 53u8, NEWLINE];
    assert(a =~= seq![80u8] + seq![51u8] + seq![NEWLINE]);
    assert(e =~= seq![NEWLINE] + seq![50u8] + seq![53u8] + seq![53u8] + seq![NEWLINE]);
    lemma_single(80u8);
    lemma_single(51u8);
    lemma_single(50u8);
    lemma_single(53u8);
    lemma_single(NEWLINE);
    lemma_single(SPACE);
    lemma_newline_count_concat(seq![80u8], seq![51u8]);
    lemma_newline_count_concat(seq![80u8] + seq![51u8], seq![NEWLINE]);
    lemma_newline_count_concat(seq![NEWLINE], seq![50u8]);
    lemma_newline_count_concat(seq![NEWLINE] + seq![50u8], seq![53u8]);
    lemma_newline_count_concat(seq![NEWLINE] + seq![50u8] + seq![53u8], seq![53u8]);
    lemma_newline_count_concat(seq![NEWLINE] + seq![50u8] + seq![53u8] + seq![53u8], seq![NEWLINE]);
    lemma_decimal_has_no_newline(width);
    lemma_decimal_has_no_newline(height);
    lemma_newline_count_concat(a, decimal(width));
    lemma_newline_count_concat(a + decimal(width), seq![SPACE]);
    lemma_newline_count_concat(a + decimal(width) + seq![SPACE], decimal(height));
    lemma_newline_count_concat(a + decimal(width) + seq![SPACE] + decimal(height), e);
}

/// An encoded `width` by `height` image starts with its header, and after
/// the header's three lines holds exactly one line per pixel: `width * height`
/// lines in all.
pub proof fn lemma_one_line_per_pixel(width: nat, height: nat, pixels: Seq<Rgb8>)
    requires
        pixels.len() == width * height,
    ensures
        ppm_image(width, height, pixels).take(ppm_header(width, height).len() as int)
            == ppm_header(width, height),
        newline_count(ppm_image(width, height, pixels)) == 3 + width * height,
        newline_count(pixel_lines(pixels)) == width * height,
{
    let h = ppm_header(width, height);
    assert(ppm_image(width, height, pixels).take(h.len() as int) =~= h);
    lemma_header_count(width, height);
    lemma_pixel_lines_count(pixels);
    lemma_newline_count_concat(h, pixel_lines(pixels));
}

proof fn lemma_row_major_len(width: nat, rows: Seq<Seq<Rgb8>>)
    requires
        forall|j: int| 0 <= j < rows.len() ==> (#[trigger] rows[j]).len() == width,
    ensures
        row_major(rows).len() == width * rows.len(),
    decreases rows.len(),
{
    if rows.len() > 0 {
        let d = rows.drop_last();
        assert forall|j: int| 0 <= j < d.len() implies (#[trigger] d[j]).len() == width by {
            assert(d[j] == rows[j]);
        }
        lemma_row_major_len(width, d);
        assert(rows.last().len() == width);
        assert(width * d.len() + width == width * rows.len()) by (nonlinear_arith)
            requires
                d.len() + 1 == rows.len(),
        ;
    }
}

/// An image assembled from `rows`, each `width` pixels long, holds
/// `width * rows.len()` pixels: after the header's three lines, exactly one
/// line for each.
pub proof fn lemma_rows_image_lines(width: nat, rows: Seq<Seq<Rgb8>>)
    requires
        forall|j: int| 0 <= j < rows.len() ==> (#[trigger] rows[j]).len() == width,
    ensures
        row_major(rows).len() == width * rows.len(),
        newline_count(ppm_image(width, rows.len(), row_major(rows))) == 3 + width * rows.len(),
{
    lemma_row_major_len(width, rows);
    lemma_one_line_per_pixel(width, rows.len(), row_major(rows));
}

} // verus!
