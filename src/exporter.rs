use vstd::prelude::*;

use crate::canvas::{lemma_offset_in_grid, Canvas};
use crate::text::{
    decimal, decimal_digits, last_line_len, lemma_decimal_digits, lemma_decimal_digits_bounds,
    lemma_empty_text, lemma_end_line, lemma_ends_with_line_feed, lemma_extend_line, lines_within,
    LINE_FEED, SPACE,
};

verus! {

/// The longest line, in bytes, that a PPM file may hold.
pub const MAX_PPM_LINE_LENGTH: usize = 70;

/// An 8-bit red, green and blue sample triple.
pub type Rgb8 = (u8, u8, u8);

/// Sample `c` (0 red, 1 green, 2 blue) of a pixel.
pub open spec fn channel(p: Rgb8, c: int) -> u8 {
    if c == 0 {
        p.0
    } else if c == 1 {
        p.1
    } else {
        p.2
    }
}

/// The samples of `pixels`, three for each pixel, in order.
pub open spec fn samples(pixels: Seq<Rgb8>) -> Seq<u8> {
    Seq::new(3 * pixels.len(), |i: int| channel(pixels[i / 3], i % 3))
}

/// How a sample is written: its value in decimal.
pub open spec fn token(sample: u8) -> Seq<u8> {
    decimal_digits(sample as nat)
}

/// What goes before a token of `token_len` bytes on a line that holds `line_len` bytes:
/// nothing at the start of a line, a space where the token still fits, else a line feed.
pub open spec fn separator(line_len: nat, token_len: nat) -> Seq<u8> {
    if line_len == 0 {
        Seq::empty()
    } else if line_len + 1 + token_len > MAX_PPM_LINE_LENGTH {
        seq![LINE_FEED]
    } else {
        seq![SPACE]
    }
}

/// The length of the line after a token of `token_len` bytes is placed on a line of
/// `line_len` bytes.
pub open spec fn next_line_len(line_len: nat, token_len: nat) -> nat {
    if line_len == 0 || line_len + 1 + token_len > MAX_PPM_LINE_LENGTH {
        token_len
    } else {
        line_len + 1 + token_len
    }
}

/// The tokens of `s` laid out greedily on lines of at most `MAX_PPM_LINE_LENGTH` bytes,
/// with the length of the last line; no line feed follows the last token.
#[verifier::opaque]
pub open spec fn layout(s: Seq<u8>) -> (Seq<u8>, nat)
    decreases s.len(),
{
    if s.len() == 0 {
        (Seq::empty(), 0)
    } else {
        let prev = layout(s.drop_last());
        let t = token(s.last());
        (prev.0 + separator(prev.1, t.len()) + t, next_line_len(prev.1, t.len()))
    }
}

/// The text of one row of samples: its layout, closed by a line feed. An empty row
/// writes nothing.
pub open spec fn row_text(s: Seq<u8>) -> Seq<u8> {
    if s.len() == 0 {
        Seq::empty()
    } else {
        layout(s).0.push(LINE_FEED)
    }
}

/// The text of the first `rows` rows of a grid of `width` pixels a row; each row starts
/// on a line of its own.
pub open spec fn rows_text(pixels: Seq<Rgb8>, width: nat, rows: nat) -> Seq<u8>
    decreases rows,
{
    if rows == 0 {
        Seq::empty()
    } else {
        let y = (rows - 1) as nat;
        rows_text(pixels, width, y) + row_text(samples(pixels.subrange((y * width) as int, (y * width + width) as int)))
    }
}

/// The magic number of plain PPM, the width and the height, and the largest sample value,
/// each on a line.
pub open spec fn header(width: nat, height: nat) -> Seq<u8> {
    seq![80u8, 51u8, LINE_FEED] + decimal_digits(width) + seq![SPACE] + decimal_digits(height)
        + seq![LINE_FEED, 50u8, 53u8, 53u8, LINE_FEED]
}

/// The plain PPM text of a `width` by `height` grid of pixels.
pub open spec fn ppm_text(width: nat, height: nat, pixels: Seq<Rgb8>) -> Seq<u8> {
    header(width, height) + rows_text(pixels, width, height)
}

/// Writes a canvas of 8-bit pixels out as bytes.
pub trait Exporter {
    fn export(&self, canvas: &Canvas<Rgb8>) -> (r: Vec<u8>)
        requires
            canvas.wf(),
    ;
}

/// Writes the plain (ASCII) form of the PPM image format.
pub struct PPMExporter {}

impl PPMExporter {
    pub fn new() -> Self {
        PPMExporter {}
    }
}

impl Exporter for PPMExporter {
    /// The PPM text of `canvas`. No line of it is longer than `MAX_PPM_LINE_LENGTH`
    /// bytes, and it ends with a line feed.
    fn export(&self, canvas: &Canvas<Rgb8>) -> (r: Vec<u8>)
        ensures
            r@ == ppm_text(canvas.spec_width(), canvas.spec_height(), canvas@),
            lines_within(r@, MAX_PPM_LINE_LENGTH as nat),
            r@.len() > 0,
            r@.last() == LINE_FEED,
    {
        let width = canvas.width();
        let height = canvas.height();
        let mut out = header_bytes(width, height);
        let ghost head = out@;
        let mut y: usize = 0;
        while y < height
            invariant
                canvas.wf(),
                width == canvas.spec_width(),
                height == canvas.spec_height(),
                y <= height,
                out@ == head + rows_text(canvas@, width as nat, y as nat),
                head == header(width as nat, height as nat),
                lines_within(out@, MAX_PPM_LINE_LENGTH as nat),
                last_line_len(out@, 0),
                out@.len() > 0,
            decreases height - y,
        {
            proof {
                assert((y + 1) * width == y * width + width) by (nonlinear_arith);
            }
            put_row(&mut out, canvas, y);
            assert(out@ == head + rows_text(canvas@, width as nat, (y + 1) as nat));
            y = y + 1;
        }
        proof {
            lemma_ends_with_line_feed(out@);
        }
        out
    }
}

/// Appends the text of row `y` of `canvas`.
fn put_row(out: &mut Vec<u8>, canvas: &Canvas<Rgb8>, y: usize)
    requires
        canvas.wf(),
        y < canvas.spec_height(),
        lines_within(old(out)@, MAX_PPM_LINE_LENGTH as nat),
        last_line_len(old(out)@, 0),
        old(out)@.len() > 0,
    ensures
        final(out)@ == old(out)@ + row_text(
            samples(
                canvas@.subrange(
                    (y * canvas.spec_width()) as int,
                    (y * canvas.spec_width() + canvas.spec_width()) as int,
                ),
            ),
        ),
        lines_within(final(out)@, MAX_PPM_LINE_LENGTH as nat),
        last_line_len(final(out)@, 0),
        final(out)@.len() > 0,
{
    let width = canvas.width();
    proof {
        if width > 0 {
            lemma_offset_in_grid((width - 1) as int, y as int, width as int, canvas.spec_height() as int);
        } else {
            assert(y * width == 0) by (nonlinear_arith)
                requires
                    width == 0,
            ;
        }
    }
    let ghost sub = canvas@.subrange(y * width, y * width + width);
    let ghost row = samples(sub);
    let ghost before = out@;
    let mut line_len: usize = 0;
    let mut x: usize = 0;
    proof {
        lemma_layout_empty(row.take(0));
        assert(out@ =~= before + layout(row.take(0)).0);
    }
    while x < width
        invariant
            canvas.wf(),
            width == canvas.spec_width(),
            y < canvas.spec_height(),
            x <= width,
            y * width + width <= canvas@.len(),
            sub == canvas@.subrange(y * width, y * width + width),
            row == samples(sub),
            out@ == before + layout(row.take(3 * x)).0,
            line_len == layout(row.take(3 * x)).1,
            line_len <= MAX_PPM_LINE_LENGTH,
            lines_within(out@, MAX_PPM_LINE_LENGTH as nat),
            last_line_len(out@, line_len as nat),
            before.len() > 0,
        decreases width - x,
    {
        let p = canvas.pixel_at(x, y);
        proof {
            assert(sub[x as int] == p);
            lemma_samples_of_pixel(sub, x as int);
            lemma_layout_pixel(row.take(3 * x), p);
            assert(row.take(3 * x).push(p.0).push(p.1).push(p.2) =~= row.take(3 * x + 3));
        }
        line_len = put_sample(out, line_len, p.0);
        line_len = put_sample(out, line_len, p.1);
        line_len = put_sample(out, line_len, p.2);
        x = x + 1;
    }
    proof {
        assert(row.take(3 * width) =~= row);
    }
    if width > 0 {
        proof {
            lemma_end_line(out@, MAX_PPM_LINE_LENGTH as nat);
        }
        out.push(LINE_FEED);
    }
}

/// The three samples of pixel `x` stand at `3 * x` onwards.
proof fn lemma_samples_of_pixel(pixels: Seq<Rgb8>, x: int)
    requires
        0 <= x < pixels.len(),
    ensures
        samples(pixels)[3 * x] == pixels[x].0,
        samples(pixels)[3 * x + 1] == pixels[x].1,
        samples(pixels)[3 * x + 2] == pixels[x].2,
{
    assert((3 * x) / 3 == x && (3 * x) % 3 == 0);
    assert((3 * x + 1) / 3 == x && (3 * x + 1) % 3 == 1);
    assert((3 * x + 2) / 3 == x && (3 * x + 2) % 3 == 2);
}

/// Laying out the three samples of a pixel, one after another.
proof fn lemma_layout_pixel(s: Seq<u8>, p: Rgb8)
    ensures
        layout(s.push(p.0)).0 == layout(s).0 + separator(layout(s).1, token(p.0).len()) + token(p.0),
        layout(s.push(p.0)).1 == next_line_len(layout(s).1, token(p.0).len()),
        layout(s.push(p.0).push(p.1)).0 == layout(s.push(p.0)).0 + separator(
            layout(s.push(p.0)).1,
            token(p.1).len(),
        ) + token(p.1),
        layout(s.push(p.0).push(p.1)).1 == next_line_len(layout(s.push(p.0)).1, token(p.1).len()),
        layout(s.push(p.0).push(p.1).push(p.2)).0 == layout(s.push(p.0).push(p.1)).0 + separator(
            layout(s.push(p.0).push(p.1)).1,
            token(p.2).len(),
        ) + token(p.2),
        layout(s.push(p.0).push(p.1).push(p.2)).1 == next_line_len(
            layout(s.push(p.0).push(p.1)).1,
            token(p.2).len(),
        ),
{
    lemma_layout_push(s, p.0);
    lemma_layout_push(s.push(p.0), p.1);
    lemma_layout_push(s.push(p.0).push(p.1), p.2);
}

/// Nothing to lay out gives no text.
proof fn lemma_layout_empty(s: Seq<u8>)
    requires
        s.len() == 0,
    ensures
        layout(s).0 == Seq::<u8>::empty(),
        layout(s).1 == 0,
{
    reveal_with_fuel(layout, 1);
}

/// Laying out one more sample adds its separator and its token.
proof fn lemma_layout_push(s: Seq<u8>, b: u8)
    ensures
        layout(s.push(b)).0 == layout(s).0 + separator(layout(s).1, token(b).len()) + token(b),
        layout(s.push(b)).1 == next_line_len(layout(s).1, token(b).len()),
{
    reveal_with_fuel(layout, 1);
    assert(s.push(b).drop_last() =~= s);
}

/// Places the token of `sample` after the text in `out`, on a line now `line_len` bytes long.
fn put_sample(out: &mut Vec<u8>, line_len: usize, sample: u8) -> (r: usize)
    requires
        line_len <= MAX_PPM_LINE_LENGTH,
        lines_within(old(out)@, MAX_PPM_LINE_LENGTH as nat),
        last_line_len(old(out)@, line_len as nat),
    ensures
        final(out)@ == old(out)@ + separator(line_len as nat, token(sample).len()) + token(sample),
        r == next_line_len(line_len as nat, token(sample).len()),
        0 < r <= MAX_PPM_LINE_LENGTH,
        lines_within(final(out)@, MAX_PPM_LINE_LENGTH as nat),
        last_line_len(final(out)@, r as nat),
{
    let mut digits = decimal(sample as u64);
    let n = digits.len();
    let ghost t = digits@;
    proof {
        lemma_decimal_digits(sample as nat);
        lemma_decimal_digits_bounds(sample as nat);
    }
    let ghost start = out@;
    let r: usize;
    if line_len == 0 {
        proof {
            lemma_extend_line(out@, 0, t, MAX_PPM_LINE_LENGTH as nat);
        }
        r = n;
    } else if line_len + 1 + n > MAX_PPM_LINE_LENGTH {
        proof {
            lemma_end_line(out@, MAX_PPM_LINE_LENGTH as nat);
            lemma_extend_line(out@.push(LINE_FEED), 0, t, MAX_PPM_LINE_LENGTH as nat);
        }
        out.push(LINE_FEED);
        r = n;
    } else {
        proof {
            let u = seq![SPACE] + t;
            if u.contains(LINE_FEED) {
                let k = choose|k: int| 0 <= k < u.len() && u[k] == LINE_FEED;
                if k > 0 {
                    assert(t[k - 1] == LINE_FEED);
                }
            }
            lemma_extend_line(out@, line_len as nat, u, MAX_PPM_LINE_LENGTH as nat);
            assert(out@.push(SPACE) + t =~= out@ + u);
        }
        out.push(SPACE);
        r = line_len + 1 + n;
    }
    out.append(&mut digits);
    assert(out@ =~= start + separator(line_len as nat, t.len()) + t);
    r
}

/// The header of a `width` by `height` image.
fn header_bytes(width: usize, height: usize) -> (r: Vec<u8>)
    ensures
        r@ == header(width as nat, height as nat),
        lines_within(r@, MAX_PPM_LINE_LENGTH as nat),
        last_line_len(r@, 0),
        r@.len() > 0,
{
    let mut out: Vec<u8> = Vec::new();
    let mut w = decimal(width as u64);
    let mut h = decimal(height as u64);
    let ghost max = MAX_PPM_LINE_LENGTH as nat;
    let ghost wd = w@;
    let ghost hd = h@;
    proof {
        lemma_decimal_digits(width as nat);
        lemma_decimal_digits(height as nat);
        lemma_decimal_digits_bounds(width as nat);
        lemma_decimal_digits_bounds(height as nat);
        let e = Seq::<u8>::empty();
        lemma_empty_text(max);
        let magic = seq![80u8, 51u8];
        assert(!magic.contains(LINE_FEED)) by {
            if magic.contains(LINE_FEED) {
                let k = choose|k: int| 0 <= k < magic.len() && magic[k] == LINE_FEED;
            }
        }
        lemma_extend_line(e, 0, magic, max);
        assert(e + magic =~= magic);
        lemma_end_line(magic, max);
        let s1 = magic.push(LINE_FEED);
        lemma_extend_line(s1, 0, wd, max);
        let sp = seq![SPACE];
        assert(!sp.contains(LINE_FEED)) by {
            if sp.contains(LINE_FEED) {
                let k = choose|k: int| 0 <= k < sp.len() && sp[k] == LINE_FEED;
            }
        }
        lemma_extend_line(s1 + wd, wd.len(), sp, max);
        lemma_extend_line(s1 + wd + sp, wd.len() + 1, hd, max);
        let s2 = s1 + wd + sp + hd;
        lemma_end_line(s2, max);
        let s3 = s2.push(LINE_FEED);
        let top = seq![50u8, 53u8, 53u8];
        assert(!top.contains(LINE_FEED)) by {
            if top.contains(LINE_FEED) {
                let k = choose|k: int| 0 <= k < top.len() && top[k] == LINE_FEED;
            }
        }
        lemma_extend_line(s3, 0, top, max);
        lemma_end_line(s3 + top, max);
        assert((s3 + top).push(LINE_FEED) =~= header(width as nat, height as nat));
    }
    out.push(80u8);
    out.push(51u8);
    out.push(LINE_FEED);
    out.append(&mut w);
    out.push(SPACE);
    out.append(&mut h);
    out.push(LINE_FEED);
    out.push(50u8);
    out.push(53u8);
    out.push(53u8);
    out.push(LINE_FEED);
    assert(out@ =~= header(width as nat, height as nat));
    out
}

} // verus!

