//! The in-memory image: header plus pixel grid, with decoding from and
//! encoding to raw BMP bytes, and in-place editing operations.

use vstd::prelude::*;
use crate::header::{
    decode_header,
    encode_header,
    lemma_header_bytes_of,
    spec_header_bytes,
    spec_header_of,
    wf_header,
    Header,
    HeaderV,
};
use crate::le::{read_u16, read_u32};
use crate::pixel::{
    cell_bytes,
    cell_off,
    grid_bytes,
    grid_wf,
    gv,
    lemma_row_bytes_to_len,
    lemma_row_cell_at,
    lemma_rows_bytes_len,
    lemma_rows_of_bytes,
    lemma_rows_slice,
    lemma_spec_grid_of_wf,
    pad_cols,
    padding_zero,
    row_bytes,
    spec_grid_of,
    stride,
    Color,
    Pixel,
};

verus! {

/// Why decoding or an editing operation failed.
#[derive(Clone, Copy, Debug, PartialEq, Eq, Structural)]
pub enum BmpError {
    /// Fewer bytes were supplied than a field or region requires.
    TruncatedInput,
    /// A coordinate or range lies outside the grid dimensions.
    OutOfBounds,
    /// A bit depth other than 24, a compression method other than none, or
    /// a negative or otherwise malformed geometry field.
    UnsupportedFormat,
}

/// A decoded BMP image.
#[derive(Debug, PartialEq, Eq)]
pub struct BmpFile {
    pub header: Header,
    pub pixels: Vec<Vec<Pixel>>,
}

/// The mathematical model of an image.
#[verifier::ext_equal]
pub ghost struct ImageV {
    pub header: HeaderV,
    pub grid: Seq<Seq<Pixel>>,
}

impl View for BmpFile {
    type V = ImageV;

    open spec fn view(&self) -> ImageV {
        ImageV { header: self.header@, grid: gv(self.pixels@) }
    }
}

/// A well-formed image: consistent header, supported format, and a grid
/// whose shape matches the header geometry.
pub open spec fn wf_image(v: ImageV) -> bool {
    &&& wf_header(v.header)
    &&& v.header.width < 0x8000_0000
    &&& v.header.height < 0x8000_0000
    &&& v.header.bits_per_pixel == 24
    &&& v.header.compression == 0
    &&& grid_wf(v.grid, v.header.width as int, v.header.height as int)
}

/// The fixed-format checks applied after the fixed header region is present.
pub open spec fn spec_format_ok(b: Seq<u8>) -> bool {
    let h = spec_header_of(b);
    &&& h.width < 0x8000_0000
    &&& h.height < 0x8000_0000
    &&& h.bits_per_pixel == 24
    &&& h.compression == 0
    &&& h.offset >= 46
}

/// The inputs on which decoding succeeds: a full fixed region, a supported
/// format, and enough bytes for the gap and the pixel array.
pub open spec fn spec_bytes_ok(b: Seq<u8>) -> bool {
    let h = spec_header_of(b);
    &&& b.len() >= 46
    &&& spec_format_ok(b)
    &&& h.offset <= b.len()
    &&& h.offset + h.height * stride(h.width as int) <= b.len()
}

/// The error decoding reports when `spec_bytes_ok` fails.
pub open spec fn spec_decode_err(b: Seq<u8>) -> BmpError {
    if b.len() < 46 {
        BmpError::TruncatedInput
    } else if !spec_format_ok(b) {
        BmpError::UnsupportedFormat
    } else {
        BmpError::TruncatedInput
    }
}

/// The image decoded from `b`.
pub open spec fn spec_image_of(b: Seq<u8>) -> ImageV {
    let h = spec_header_of(b);
    ImageV {
        header: h,
        grid: spec_grid_of(b, h.offset as int, h.width as int, h.height as int),
    }
}

/// The bytes an image encodes to.
pub open spec fn spec_image_bytes(v: ImageV) -> Seq<u8> {
    spec_header_bytes(v.header) + grid_bytes(v.grid, v.header.height as int)
}

/// A well-formed BMP byte sequence: decodable, of exactly the declared
/// size, and with zeroed scanline padding bytes.
pub open spec fn spec_good_bytes(b: Seq<u8>) -> bool {
    let h = spec_header_of(b);
    &&& spec_bytes_ok(b)
    &&& b.len() == h.offset + h.height * stride(h.width as int)
    &&& padding_zero(b, h.offset as int, h.width as int, h.height as int)
}

/// Decodes a raw BMP byte buffer into an image.
///
/// Succeeds exactly on the inputs described by `spec_bytes_ok`; trailing
/// bytes beyond the pixel array are ignored, as are the stored values of
/// padding byte slots.
#[verifier::loop_isolation(false)]
pub fn decode_image(bytes: &Vec<u8>) -> (r: Result<BmpFile, BmpError>)
    ensures
        match r {
            Ok(img) => spec_bytes_ok(bytes@) && img@ == spec_image_of(bytes@) && wf_image(img@),
            Err(e) => !spec_bytes_ok(bytes@) && e == spec_decode_err(bytes@),
        },
{
    if bytes.len() < 46 {
        return Err(BmpError::TruncatedInput);
    }
    let w = read_u32(bytes[18], bytes[19], bytes[20], bytes[21]);
    let h = read_u32(bytes[22], bytes[23], bytes[24], bytes[25]);
    let bpp = read_u16(bytes[28], bytes[29]);
    let comp = read_u32(bytes[30], bytes[31], bytes[32], bytes[33]);
    let off = read_u32(bytes[10], bytes[11], bytes[12], bytes[13]);
    if w >= 0x8000_0000 || h >= 0x8000_0000 || bpp != 24 || comp != 0 || off < 46 {
        return Err(BmpError::UnsupportedFormat);
    }
    let pad64: u64 = (4 - (3 * (w as u64)) % 4) % 4;
    let stride64: u64 = 3 * (w as u64) + pad64;
    proof {
        assert(pad64 == pad_cols(w as int));
        assert((h as int) * (stride64 as int) < 0x1_0000_0000_0000_0000) by (nonlinear_arith)
            requires
                0 <= (h as int) && (h as int) < 0x8000_0000,
                0 <= (stride64 as int) && (stride64 as int) <= 0x1_8000_0000,
        ;
    }
    let need: u64 = (h as u64) * stride64;
    if (bytes.len() as u64) < (off as u64) || (bytes.len() as u64) - (off as u64) < need {
        return Err(BmpError::TruncatedInput);
    }
    assert(spec_bytes_ok(bytes@));
    let header = decode_header(bytes);
    let wu = w as usize;
    let pad = pad64 as usize;
    let cols = wu + pad;
    let offu = off as usize;
    let hu = h as usize;
    let ghost target = spec_grid_of(bytes@, offu as int, wu as int, hu as int);
    proof {
        assert(target.len() == cols);
    }
    let mut pixels: Vec<Vec<Pixel>> = Vec::new();
    for c in 0..cols
        invariant
            pixels@.len() == c,
            forall|cc: int| 0 <= cc < c ==> (#[trigger] pixels@[cc])@ == target[cc],
    {
        let mut col: Vec<Pixel> = Vec::new();
        if c < wu {
            for y in 0..hu
                invariant
                    c < wu,
                    col@.len() == y,
                    forall|yy: int| 0 <= yy < y ==> col@[yy] == target[c as int][yy],
            {
                proof {
                    assert((y as int) * (stride64 as int) + 3 * (c as int) + 3 <= (hu as int) * (
                    stride64 as int)) by (nonlinear_arith)
                        requires
                            (y as int) + 1 <= hu as int,
                            0 <= y as int,
                            3 * (c as int) + 3 <= stride64 as int,
                            0 <= c as int,
                            stride64 as int >= 0,
                    ;
                    assert((stride64 as int) <= (hu as int) * (stride64 as int)) by (nonlinear_arith)
                        requires
                            1 <= hu as int,
                            0 <= stride64 as int,
                    ;
                    assert(offu + (hu as int) * (stride64 as int) <= bytes@.len());
                }
                let strideu = stride64 as usize;
                let idx = offu + y * strideu + 3 * c;
                col.push(Pixel::ColorData(bytes[idx], bytes[idx + 1], bytes[idx + 2]));
                proof {
                    assert(col@[y as int] == target[c as int][y as int]);
                }
            }
        } else {
            for y in 0..hu
                invariant
                    wu <= c < cols,
                    col@.len() == y,
                    forall|yy: int| 0 <= yy < y ==> col@[yy] == target[c as int][yy],
            {
                col.push(Pixel::Padding);
            }
        }
        proof {
            assert(col@ =~= target[c as int]);
        }
        pixels.push(col);
    }
    proof {
        assert(gv(pixels@) =~~= target);
        lemma_spec_grid_of_wf(bytes@, offu as int, wu as int, hu as int);
    }
    Ok(BmpFile { header, pixels })
}

/// Encodes an image back to raw BMP bytes: the header region followed by
/// the padded pixel array.
pub fn encode_image(img: &BmpFile) -> (r: Vec<u8>)
    requires
        wf_image(img@),
    ensures
        r@ == spec_image_bytes(img@),
{
    let mut out: Vec<u8> = Vec::new();
    encode_header(&img.header, &mut out);
    if img.pixels.len() > 0 {
        proof {
            assert forall|c: int| 0 <= c < img.pixels@.len() implies (#[trigger] img.pixels@[c])@
                .len() == img.pixels@[0]@.len() by {
                assert(gv(img.pixels@)[c] == img.pixels@[c]@);
                assert(gv(img.pixels@)[0] == img.pixels@[0]@);
                assert(gv(img.pixels@)[c].len() == img.header@.height as int);
                assert(gv(img.pixels@)[0].len() == img.header@.height as int);
            }
            assert(gv(img.pixels@)[0] == img.pixels@[0]@);
            assert(gv(img.pixels@)[0].len() == img.header@.height as int);
            assert(img.pixels@[0]@.len() == img.header@.height);
        }
        let mut pix = Pixel::pixel2d_to_bytes(&img.pixels);
        out.append(&mut pix);
        proof {
            assert(out@ =~= spec_image_bytes(img@));
        }
    } else {
        proof {
            crate::pixel::lemma_grid_bytes_no_columns(gv(img.pixels@), img.header@.height as int);
            assert(out@ =~= spec_image_bytes(img@));
        }
    }
    out
}

/// The grid with the cell at column `x`, row `y` overwritten by `px`.
pub open spec fn set_grid(g: Seq<Seq<Pixel>>, x: int, y: int, px: Pixel) -> Seq<Seq<Pixel>> {
    g.update(x, g[x].update(y, px))
}

/// The grid with the rectangle of columns `c_lo <= c < c_hi` and rows
/// `y_lo <= y < y_hi` painted with `px`.
pub open spec fn paint_grid(
    g: Seq<Seq<Pixel>>,
    c_lo: int,
    c_hi: int,
    y_lo: int,
    y_hi: int,
    px: Pixel,
) -> Seq<Seq<Pixel>> {
    Seq::new(g.len(), |c: int| if c_lo <= c < c_hi {
        Seq::new(g[c].len(), |y: int| if y_lo <= y < y_hi {
            px
        } else {
            g[c][y]
        })
    } else {
        g[c]
    })
}

/// First index (column or row) painted by a line of the given thickness
/// centered at `pos`.
pub open spec fn line_lo(pos: int, thickness: int) -> int {
    pos - thickness / 2
}

/// First index past the painted range of a line of the given thickness
/// centered at `pos`; thickness zero and one both paint `pos` alone.
pub open spec fn line_hi(pos: int, thickness: int) -> int {
    if thickness / 2 == 0 {
        pos + 1
    } else {
        pos + thickness / 2
    }
}

/// Painting a rectangle of color cells preserves well-formedness.
pub proof fn lemma_paint_grid_wf(
    g: Seq<Seq<Pixel>>,
    w: int,
    h: int,
    c_lo: int,
    c_hi: int,
    y_lo: int,
    y_hi: int,
    px: Pixel,
)
    requires
        grid_wf(g, w, h),
        0 <= w,
        c_hi <= w,
        px is ColorData,
    ensures
        grid_wf(paint_grid(g, c_lo, c_hi, y_lo, y_hi, px), w, h),
{
    let g2 = paint_grid(g, c_lo, c_hi, y_lo, y_hi, px);
    assert forall|c: int| 0 <= c < g2.len() implies (#[trigger] g2[c]).len() == h by {
        assert(g[c].len() == h);
    }
    assert forall|c: int, y: int| 0 <= c < w && 0 <= y < h implies (#[trigger] g2[c][y])
        is ColorData by {
        assert(g[c].len() == h);
        assert(g[c][y] is ColorData);
    }
    assert forall|c: int, y: int| w <= c < g2.len() && 0 <= y < h implies (#[trigger] g2[c][y])
        == Pixel::Padding by {
        assert(g[c][y] == Pixel::Padding);
    }
}

/// The grid with its `w` image columns reversed; padding columns keep
/// their place.
pub open spec fn mirror_grid(g: Seq<Seq<Pixel>>, w: int) -> Seq<Seq<Pixel>> {
    Seq::new(g.len(), |c: int| if 0 <= c < w {
        g[w - 1 - c]
    } else {
        g[c]
    })
}

/// One channel scaled by `x / (w - 1)` in exact rational arithmetic,
/// rounding down; a single-column image keeps its value.
pub open spec fn fade_ch(ch: u8, x: int, w: int) -> u8 {
    if w <= 1 {
        ch
    } else {
        ((ch * x) / (w - 1)) as u8
    }
}

/// A pixel with every channel scaled by `x / (w - 1)`.
pub open spec fn fade_pixel(p: Pixel, x: int, w: int) -> Pixel {
    match p {
        Pixel::ColorData(b, g, r) => Pixel::ColorData(
            fade_ch(b, x, w),
            fade_ch(g, x, w),
            fade_ch(r, x, w),
        ),
        Pixel::Padding => Pixel::Padding,
    }
}

/// The grid with every image column `x` faded by the factor `x / (w - 1)`.
pub open spec fn fade_grid(g: Seq<Seq<Pixel>>, w: int) -> Seq<Seq<Pixel>> {
    Seq::new(g.len(), |c: int| if 0 <= c < w {
        Seq::new(g[c].len(), |y: int| fade_pixel(g[c][y], c, w))
    } else {
        g[c]
    })
}

/// Paints a rectangle of cells of a column-major grid.
#[verifier::loop_isolation(false)]
fn paint_rect(
    pixels: &mut Vec<Vec<Pixel>>,
    c_lo: usize,
    c_hi: usize,
    y_lo: usize,
    y_hi: usize,
    px: Pixel,
)
    requires
        c_lo <= c_hi <= old(pixels)@.len(),
        y_lo <= y_hi,
        forall|c: int|
            c_lo <= c < c_hi ==> y_hi <= (#[trigger] old(pixels)@[c])@.len(),
    ensures
        gv(final(pixels)@) == paint_grid(
            gv(old(pixels)@),
            c_lo as int,
            c_hi as int,
            y_lo as int,
            y_hi as int,
            px,
        ),
{
    let ghost g0 = gv(old(pixels)@);
    let ghost target = paint_grid(g0, c_lo as int, c_hi as int, y_lo as int, y_hi as int, px);
    let mut c = c_lo;
    while c < c_hi
        invariant
            c_lo <= c <= c_hi,
            pixels@.len() == old(pixels)@.len(),
            forall|cc: int|
                0 <= cc < pixels@.len() && !(c_lo <= cc < c) ==> #[trigger] gv(pixels@)[cc]
                    == g0[cc],
            forall|cc: int| c_lo <= cc < c ==> #[trigger] gv(pixels@)[cc] == target[cc],
        decreases c_hi - c,
    {
        let mut y = y_lo;
        while y < y_hi
            invariant
                c_lo <= c < c_hi,
                y_lo <= y <= y_hi,
                pixels@.len() == old(pixels)@.len(),
                forall|cc: int|
                    0 <= cc < pixels@.len() && !(c_lo <= cc <= c) ==> #[trigger] gv(pixels@)[cc]
                        == g0[cc],
                forall|cc: int| c_lo <= cc < c ==> #[trigger] gv(pixels@)[cc] == target[cc],
                gv(pixels@)[c as int].len() == g0[c as int].len(),
                forall|yy: int|
                    y_lo <= yy < y ==> #[trigger] gv(pixels@)[c as int][yy] == px,
                forall|yy: int|
                    0 <= yy < g0[c as int].len() && !(y_lo <= yy < y) ==> #[trigger] gv(
                        pixels@,
                    )[c as int][yy] == g0[c as int][yy],
            decreases y_hi - y,
        {
            set_cell(pixels, c, y, px);
            y = y + 1;
        }
        proof {
            assert(gv(pixels@)[c as int] =~= target[c as int]);
        }
        c = c + 1;
    }
    proof {
        assert(gv(pixels@) =~~= target);
    }
}

/// Overwrites one cell of a column-major grid.
fn set_cell(pixels: &mut Vec<Vec<Pixel>>, c: usize, y: usize, px: Pixel)
    requires
        c < old(pixels)@.len(),
        y < old(pixels)@[c as int]@.len(),
    ensures
        gv(final(pixels)@) == set_grid(gv(old(pixels)@), c as int, y as int, px),
        final(pixels)@.len() == old(pixels)@.len(),
{
    pixels[c][y] = px;
    proof {
        assert(gv(pixels@) =~~= set_grid(gv(old(pixels)@), c as int, y as int, px));
    }
}

impl BmpFile {
    /// A well-formed image.
    pub open spec fn wf(&self) -> bool {
        wf_image(self@)
    }

    /// Image width in pixels.
    pub fn width(&self) -> (r: u32)
        ensures
            r == self.header.width,
    {
        self.header.width
    }

    /// Image height in scanlines.
    pub fn height(&self) -> (r: u32)
        ensures
            r == self.header.height,
    {
        self.header.height
    }

    /// Columns of the grid, image columns first, then padding columns.
    proof fn lemma_grid_shape(&self)
        requires
            self.wf(),
        ensures
            self.pixels@.len() == self.header.width + pad_cols(self.header.width as int),
            forall|c: int|
                0 <= c < self.pixels@.len() ==> (#[trigger] self.pixels@[c])@.len()
                    == self.header.height,
            forall|c: int|
                0 <= c < self.pixels@.len() ==> #[trigger] gv(self.pixels@)[c]
                    == self.pixels@[c]@,
    {
        assert forall|c: int| 0 <= c < self.pixels@.len() implies (#[trigger] self.pixels@[c])@
            .len() == self.header.height by {
            assert(gv(self.pixels@)[c] == self.pixels@[c]@);
            assert(gv(self.pixels@)[c].len() == self.header.height as int);
        }
    }

    /// Reads the color at `(x, y)`; rejects out-of-range coordinates.
    pub fn get_pixel(&self, x: usize, y: usize) -> (r: Result<Color, BmpError>)
        requires
            self.wf(),
        ensures
            match r {
                Ok(col) => x < self.header.width && y < self.header.height
                    && self@.grid[x as int][y as int] == Pixel::ColorData(col.0, col.1, col.2),
                Err(e) => e == BmpError::OutOfBounds && (x >= self.header.width || y
                    >= self.header.height),
            },
    {
        if x >= self.header.width as usize || y >= self.header.height as usize {
            return Err(BmpError::OutOfBounds);
        }
        proof {
            self.lemma_grid_shape();
        }
        match self.pixels[x][y] {
            Pixel::ColorData(b, g, r) => Ok(Color(b, g, r)),
            Pixel::Padding => {
                proof {
                    assert(gv(self.pixels@)[x as int][y as int] is ColorData);
                    assert(false);
                }
                Err(BmpError::OutOfBounds)
            },
        }
    }

    /// Overwrites the pixel at `(x, y)` with `color`; rejects out-of-range
    /// coordinates and leaves the image unchanged on failure.
    pub fn change_pixel(&mut self, x: usize, y: usize, color: Color) -> (r: Result<(), BmpError>)
        requires
            old(self).wf(),
        ensures
            final(self).wf(),
            final(self).header == old(self).header,
            match r {
                Ok(_) => x < old(self).header.width && y < old(self).header.height && final(self)@.grid == paint_grid(
                    old(self)@.grid,
                    x as int,
                    x + 1,
                    y as int,
                    y + 1,
                    Pixel::ColorData(color.0, color.1, color.2),
                ),
                Err(e) => e == BmpError::OutOfBounds && (x >= old(self).header.width || y >= old(self).header.height) && *final(self) == *old(self),
            },
    {
        if x >= self.header.width as usize || y >= self.header.height as usize {
            return Err(BmpError::OutOfBounds);
        }
        proof {
            self.lemma_grid_shape();
        }
        paint_rect(&mut self.pixels, x, x + 1, y, y + 1, color.to_pixel());
        proof {
            lemma_paint_grid_wf(
                old(self)@.grid,
                old(self).header.width as int,
                old(self).header.height as int,
                x as int,
                x + 1,
                y as int,
                y + 1,
                Pixel::ColorData(color.0, color.1, color.2),
            );
        }
        Ok(())
    }

    /// Paints every image pixel with `color`.
    pub fn fill(&mut self, color: Color)
        requires
            old(self).wf(),
        ensures
            final(self).wf(),
            final(self).header == old(self).header,
            final(self)@.grid == paint_grid(
                old(self)@.grid,
                0,
                old(self).header.width as int,
                0,
                old(self).header.height as int,
                Pixel::ColorData(color.0, color.1, color.2),
            ),
    {
        proof {
            self.lemma_grid_shape();
        }
        let wu = self.header.width as usize;
        let hh = self.header.height as usize;
        paint_rect(&mut self.pixels, 0, wu, 0, hh, color.to_pixel());
        proof {
            lemma_paint_grid_wf(
                old(self)@.grid,
                old(self).header.width as int,
                old(self).header.height as int,
                0,
                wu as int,
                0,
                hh as int,
                Pixel::ColorData(color.0, color.1, color.2),
            );
        }
    }

    /// Paints every image pixel red (BGR bytes 0, 0, 255).
    pub fn make_red(&mut self)
        requires
            old(self).wf(),
        ensures
            final(self).wf(),
            final(self).header == old(self).header,
            final(self)@.grid == paint_grid(
                old(self)@.grid,
                0,
                old(self).header.width as int,
                0,
                old(self).header.height as int,
                Pixel::ColorData(0, 0, 255),
            ),
    {
        self.fill(Color(0, 0, 255))
    }

    /// Paints every image pixel blue (BGR bytes 255, 0, 0).
    pub fn make_blue(&mut self)
        requires
            old(self).wf(),
        ensures
            final(self).wf(),
            final(self).header == old(self).header,
            final(self)@.grid == paint_grid(
                old(self)@.grid,
                0,
                old(self).header.width as int,
                0,
                old(self).header.height as int,
                Pixel::ColorData(255, 0, 0),
            ),
    {
        self.fill(Color(255, 0, 0))
    }

    /// Paints a vertical line of the given thickness centered at column
    /// `pos` across all rows; rejects a line that leaves the image.
    pub fn draw_vline(&mut self, pos: usize, thickness: usize, color: Color) -> (r: Result<
        (),
        BmpError,
    >)
        requires
            old(self).wf(),
        ensures
            final(self).wf(),
            final(self).header == old(self).header,
            match r {
                Ok(_) => 0 <= line_lo(pos as int, thickness as int) && line_hi(
                    pos as int,
                    thickness as int,
                ) <= old(self).header.width && final(self)@.grid == paint_grid(
                    old(self)@.grid,
                    line_lo(pos as int, thickness as int),
                    line_hi(pos as int, thickness as int),
                    0,
                    old(self).header.height as int,
                    Pixel::ColorData(color.0, color.1, color.2),
                ),
                Err(e) => e == BmpError::OutOfBounds && !(0 <= line_lo(pos as int, thickness as int)
                    && line_hi(pos as int, thickness as int) <= old(self).header.width) && *final(self) == *old(self),
            },
    {
        let wu = self.header.width as usize;
        let half = thickness / 2;
        if half > pos {
            return Err(BmpError::OutOfBounds);
        }
        let exceeds = if half == 0 {
            pos >= wu
        } else {
            pos > wu || wu - pos < half
        };
        if exceeds {
            return Err(BmpError::OutOfBounds);
        }
        let lo = pos - half;
        let hi = if half == 0 {
            pos + 1
        } else {
            pos + half
        };
        proof {
            self.lemma_grid_shape();
            assert(lo == line_lo(pos as int, thickness as int));
            assert(hi == line_hi(pos as int, thickness as int));
        }
        let hh = self.header.height as usize;
        paint_rect(&mut self.pixels, lo, hi, 0, hh, color.to_pixel());
        proof {
            lemma_paint_grid_wf(
                old(self)@.grid,
                old(self).header.width as int,
                old(self).header.height as int,
                lo as int,
                hi as int,
                0,
                hh as int,
                Pixel::ColorData(color.0, color.1, color.2),
            );
        }
        Ok(())
    }

    /// Paints a horizontal line of the given thickness centered at row
    /// `pos` across all image columns; rejects a line that leaves the image.
    pub fn draw_hline(&mut self, pos: usize, thickness: usize, color: Color) -> (r: Result<
        (),
        BmpError,
    >)
        requires
            old(self).wf(),
        ensures
            final(self).wf(),
            final(self).header == old(self).header,
            match r {
                Ok(_) => 0 <= line_lo(pos as int, thickness as int) && line_hi(
                    pos as int,
                    thickness as int,
                ) <= old(self).header.height && final(self)@.grid == paint_grid(
                    old(self)@.grid,
                    0,
                    old(self).header.width as int,
                    line_lo(pos as int, thickness as int),
                    line_hi(pos as int, thickness as int),
                    Pixel::ColorData(color.0, color.1, color.2),
                ),
                Err(e) => e == BmpError::OutOfBounds && !(0 <= line_lo(pos as int, thickness as int)
                    && line_hi(pos as int, thickness as int) <= old(self).header.height) && *final(self) == *old(self),
            },
    {
        let hu = self.header.height as usize;
        let half = thickness / 2;
        if half > pos {
            return Err(BmpError::OutOfBounds);
        }
        let exceeds = if half == 0 {
            pos >= hu
        } else {
            pos > hu || hu - pos < half
        };
        if exceeds {
            return Err(BmpError::OutOfBounds);
        }
        let lo = pos - half;
        let hi = if half == 0 {
            pos + 1
        } else {
            pos + half
        };
        proof {
            self.lemma_grid_shape();
            assert(lo == line_lo(pos as int, thickness as int));
            assert(hi == line_hi(pos as int, thickness as int));
        }
        let wu = self.header.width as usize;
        paint_rect(&mut self.pixels, 0, wu, lo, hi, color.to_pixel());
        proof {
            lemma_paint_grid_wf(
                old(self)@.grid,
                old(self).header.width as int,
                old(self).header.height as int,
                0,
                wu as int,
                lo as int,
                hi as int,
                Pixel::ColorData(color.0, color.1, color.2),
            );
        }
        Ok(())
    }

    /// Mirrors the image left-to-right: column `i` and column `w - 1 - i`
    /// exchange their pixels for every row.
    #[verifier::loop_isolation(false)]
    pub fn mirror_horizontal_left(&mut self)
        requires
            old(self).wf(),
        ensures
            final(self).wf(),
            final(self).header == old(self).header,
            final(self)@.grid == mirror_grid(old(self)@.grid, old(self).header.width as int),
    {
        proof {
            self.lemma_grid_shape();
        }
        let ghost g0 = gv(old(self).pixels@);
        let ghost w = old(self).header.width as int;
        let ghost target = mirror_grid(g0, w);
        let wu = self.header.width as usize;
        let hh = self.header.height as usize;
        let mut i: usize = 0;
        while i < wu / 2
            invariant
                i <= wu / 2,
                self.header == old(self).header,
                self.pixels@.len() == old(self).pixels@.len(),
                forall|c: int| 0 <= c < i ==> #[trigger] gv(self.pixels@)[c] == g0[w - 1 - c],
                forall|c: int|
                    w - i <= c < w ==> #[trigger] gv(self.pixels@)[c] == g0[w - 1 - c],
                forall|c: int|
                    i <= c < w - i ==> #[trigger] gv(self.pixels@)[c] == g0[c],
                forall|c: int|
                    w <= c < self.pixels@.len() ==> #[trigger] gv(self.pixels@)[c] == g0[c],
            decreases wu / 2 - i,
        {
            let j = wu - 1 - i;
            let mut y: usize = 0;
            while y < hh
                invariant
                    i < wu / 2,
                    j == wu - 1 - i,
                    y <= hh,
                    self.header == old(self).header,
                    self.pixels@.len() == old(self).pixels@.len(),
                    forall|c: int| 0 <= c < i ==> #[trigger] gv(self.pixels@)[c] == g0[w - 1 - c],
                    forall|c: int|
                        w - i <= c < w ==> #[trigger] gv(self.pixels@)[c] == g0[w - 1 - c],
                    forall|c: int|
                        i < c < w - i - 1 ==> #[trigger] gv(self.pixels@)[c] == g0[c],
                    forall|c: int|
                        w <= c < self.pixels@.len() ==> #[trigger] gv(self.pixels@)[c] == g0[c],
                    gv(self.pixels@)[i as int].len() == hh,
                    gv(self.pixels@)[j as int].len() == hh,
                    forall|yy: int|
                        0 <= yy < y ==> #[trigger] gv(self.pixels@)[i as int][yy] == g0[j as int][yy],
                    forall|yy: int|
                        0 <= yy < y ==> #[trigger] gv(self.pixels@)[j as int][yy] == g0[i as int][yy],
                    forall|yy: int|
                        y <= yy < hh ==> #[trigger] gv(self.pixels@)[i as int][yy] == g0[i as int][yy],
                    forall|yy: int|
                        y <= yy < hh ==> #[trigger] gv(self.pixels@)[j as int][yy] == g0[j as int][yy],
                decreases hh - y,
            {
                let a = self.pixels[i][y];
                let b2 = self.pixels[j][y];
                proof {
                    assert(gv(self.pixels@)[i as int] == self.pixels@[i as int]@);
                    assert(gv(self.pixels@)[j as int] == self.pixels@[j as int]@);
                }
                set_cell(&mut self.pixels, i, y, b2);
                proof {
                    assert(gv(self.pixels@)[j as int] == self.pixels@[j as int]@);
                    assert(gv(self.pixels@)[j as int].len() == hh);
                }
                set_cell(&mut self.pixels, j, y, a);
                y = y + 1;
            }
            proof {
                assert(gv(self.pixels@)[i as int] =~= g0[w - 1 - i]);
                assert(gv(self.pixels@)[j as int] =~= g0[w - 1 - j]);
            }
            i = i + 1;
        }
        proof {
            assert forall|c: int| 0 <= c < self.pixels@.len() implies #[trigger] gv(
                self.pixels@,
            )[c] == target[c] by {
                if wu / 2 <= c < w - (wu / 2) {
                    assert(w - 1 - c == c);
                }
            }
            assert(gv(self.pixels@) =~= target);
            assert forall|c: int, y: int|
                0 <= c < w && 0 <= y < old(self).header.height implies (#[trigger] target[c][y])
                is ColorData by {
                assert(g0[w - 1 - c][y] is ColorData);
            }
        }
    }

    /// Fades each image column `x` by the factor `x / (w - 1)`: channels
    /// are scaled in exact rational arithmetic, rounding down, so column 0
    /// goes black and the last column keeps its colors.  A single-column
    /// image is left unchanged.
    #[verifier::loop_isolation(false)]
    pub fn vertical_fade_left(&mut self)
        requires
            old(self).wf(),
        ensures
            final(self).wf(),
            final(self).header == old(self).header,
            final(self)@.grid == fade_grid(old(self)@.grid, old(self).header.width as int),
    {
        proof {
            self.lemma_grid_shape();
        }
        let ghost g0 = gv(old(self).pixels@);
        let ghost w = old(self).header.width as int;
        let ghost target = fade_grid(g0, w);
        let wu = self.header.width as usize;
        let hh = self.header.height as usize;
        let mut x: usize = 0;
        while x < wu
            invariant
                x <= wu,
                self.header == old(self).header,
                self.pixels@.len() == old(self).pixels@.len(),
                forall|c: int| 0 <= c < x ==> #[trigger] gv(self.pixels@)[c] == target[c],
                forall|c: int|
                    x <= c < self.pixels@.len() ==> #[trigger] gv(self.pixels@)[c] == g0[c],
            decreases wu - x,
        {
            let mut y: usize = 0;
            while y < hh
                invariant
                    x < wu,
                    y <= hh,
                    self.header == old(self).header,
                    self.pixels@.len() == old(self).pixels@.len(),
                    forall|c: int| 0 <= c < x ==> #[trigger] gv(self.pixels@)[c] == target[c],
                    forall|c: int|
                        x < c < self.pixels@.len() ==> #[trigger] gv(self.pixels@)[c] == g0[c],
                    gv(self.pixels@)[x as int].len() == hh,
                    forall|yy: int|
                        0 <= yy < y ==> #[trigger] gv(self.pixels@)[x as int][yy] == fade_pixel(
                            g0[x as int][yy],
                            x as int,
                            w,
                        ),
                    forall|yy: int|
                        y <= yy < hh ==> #[trigger] gv(self.pixels@)[x as int][yy] == g0[x as int][yy],
                decreases hh - y,
            {
                let p = self.pixels[x][y];
                proof {
                    assert(p == g0[x as int][y as int]);
                    assert(g0[x as int][y as int] is ColorData);
                }
                match p {
                    Pixel::ColorData(bb, gg, rr) => {
                        let fb = fade_channel(bb, x, wu);
                        let fg = fade_channel(gg, x, wu);
                        let fr = fade_channel(rr, x, wu);
                        set_cell(&mut self.pixels, x, y, Pixel::ColorData(fb, fg, fr));
                    },
                    Pixel::Padding => {
                        proof {
                            assert(false);
                        }
                    },
                }
                y = y + 1;
            }
            proof {
                assert(gv(self.pixels@)[x as int] =~= target[x as int]);
            }
            x = x + 1;
        }
        proof {
            assert(gv(self.pixels@) =~= target);
            assert forall|c: int, y: int|
                0 <= c < w && 0 <= y < old(self).header.height implies (#[trigger] target[c][y])
                is ColorData by {
                assert(g0[c][y] is ColorData);
            }
        }
    }
}

/// One channel of the fade: `ch * x / (w - 1)`, computed exactly.
fn fade_channel(ch: u8, x: usize, w: usize) -> (r: u8)
    requires
        x < w,
        w < 0x8000_0000,
    ensures
        r == fade_ch(ch, x as int, w as int),
{
    if w <= 1 {
        ch
    } else {
        proof {
            assert((ch as int) * (x as int) <= 255 * 0x8000_0000) by (nonlinear_arith)
                requires
                    0 <= (ch as int) && (ch as int) <= 255,
                    0 <= (x as int) && (x as int) < 0x8000_0000,
            ;
        }
        let num: u64 = (ch as u64) * (x as u64);
        let den: u64 = (w - 1) as u64;
        let q: u64 = num / den;
        proof {
            let chi = ch as int;
            let xi = x as int;
            let wi = w as int;
            vstd::arithmetic::mul::lemma_mul_inequality(xi, wi - 1, chi);
            assert(xi * chi == chi * xi) by (nonlinear_arith);
            assert((wi - 1) * chi == chi * (wi - 1)) by (nonlinear_arith);
            vstd::arithmetic::div_mod::lemma_div_is_ordered(chi * xi, chi * (wi - 1), wi - 1);
            vstd::arithmetic::div_mod::lemma_div_multiples_vanish(chi, wi - 1);
            assert((wi - 1) * chi == chi * (wi - 1)) by (nonlinear_arith);
            assert(q <= ch);
        }
        q as u8
    }
}

/// Byte `k` of the pixel at column `x`, row `y` of an encoded image.
pub open spec fn pixel_byte_at(b: Seq<u8>, off: int, w: int, x: int, y: int, k: int) -> u8 {
    b[off + y * stride(w) + 3 * x + k]
}

/// The layout of an encoded image: its length is the pixel data offset
/// plus `height` scanlines of `stride` bytes; the pixel at `(x, y)` owns
/// the three bytes at `off + y * stride + 3 * x`; and every padding byte
/// slot holds zero.
pub proof fn lemma_image_bytes_layout(v: ImageV)
    requires
        wf_image(v),
    ensures
        spec_image_bytes(v).len() == v.header.offset + v.header.height * stride(
            v.header.width as int,
        ),
        forall|x: int, y: int, k: int|
            0 <= x < v.header.width && 0 <= y < v.header.height && 0 <= k < 3
                ==> #[trigger] pixel_byte_at(
                spec_image_bytes(v),
                v.header.offset as int,
                v.header.width as int,
                x,
                y,
                k,
            ) == cell_bytes(v.grid[x][y])[k],
        padding_zero(
            spec_image_bytes(v),
            v.header.offset as int,
            v.header.width as int,
            v.header.height as int,
        ),
{
    let b = spec_image_bytes(v);
    let g = v.grid;
    let off = v.header.offset as int;
    let w = v.header.width as int;
    let hh = v.header.height as int;
    let s = stride(w);
    lemma_rows_bytes_len(g, w, hh, hh);
    assert forall|x: int, y: int, k: int|
        0 <= x < w && 0 <= y < hh && 0 <= k < 3 implies #[trigger] pixel_byte_at(
        b,
        off,
        w,
        x,
        y,
        k,
    ) == cell_bytes(g[x][y])[k] by {
        assert(g[x][y] is ColorData);
        assert(cell_bytes(g[x][y]).len() == 3);
        lemma_rows_slice(g, w, hh, y, hh);
        lemma_row_cell_at(g, w, hh, y, x, k, g.len() as int);
        lemma_row_bytes_to_len(g, w, hh, y, g.len() as int);
        assert(cell_off(w, x) == 3 * x);
        assert(3 * x + k < s);
        assert(y * s + 3 * x + k < hh * s) by (nonlinear_arith)
            requires
                y + 1 <= hh,
                3 * x + k < s,
                0 <= y,
                0 <= s,
        ;
        assert(y * s >= 0) by (nonlinear_arith)
            requires
                0 <= y,
                0 <= s,
        ;
        assert(y * s + s == (y + 1) * s) by (nonlinear_arith);
        assert((y + 1) * s <= hh * s) by (nonlinear_arith)
            requires
                y + 1 <= hh,
                0 <= s,
        ;
        let gb = grid_bytes(g, hh);
        assert(b[off + y * s + 3 * x + k] == gb[y * s + 3 * x + k]);
        assert(gb.subrange(y * s, (y + 1) * s)[3 * x + k] == gb[y * s + (3 * x + k)]);
        assert(row_bytes(g, y)[cell_off(w, x) + k] == cell_bytes(g[x][y])[k]);
    }
    assert forall|kk: int| off <= kk < off + hh * s && (kk - off) % s >= 3 * w implies (
    #[trigger] b[kk]) == 0 by {
        let p = kk - off;
        assert(s > 0) by (nonlinear_arith)
            requires
                0 <= p && p < hh * s,
                0 <= s,
                0 <= hh,
        ;
        let yq = p / s;
        let j = p % s;
        vstd::arithmetic::div_mod::lemma_fundamental_div_mod(p, s);
        vstd::arithmetic::div_mod::lemma_mod_bound(p, s);
        assert(0 <= yq && yq < hh) by (nonlinear_arith)
            requires
                p == yq * s + j,
                0 <= j < s,
                0 <= p,
                p < hh * s,
                s > 0,
        ;
        let c = w + (j - 3 * w);
        assert(3 * w <= j < s);
        assert(c < g.len());
        assert(g[c][yq] == Pixel::Padding);
        assert(cell_off(w, c) == j);
        lemma_rows_slice(g, w, hh, yq, hh);
        lemma_row_cell_at(g, w, hh, yq, c, 0, g.len() as int);
        lemma_row_bytes_to_len(g, w, hh, yq, g.len() as int);
        assert(yq * s >= 0) by (nonlinear_arith)
            requires
                0 <= yq,
                0 <= s,
        ;
        assert(yq * s + s == (yq + 1) * s) by (nonlinear_arith);
        assert((yq + 1) * s <= hh * s) by (nonlinear_arith)
            requires
                yq + 1 <= hh,
                0 <= s,
        ;
        let gb = grid_bytes(g, hh);
        assert(b[kk] == gb[p]);
        assert(gb.subrange(yq * s, (yq + 1) * s)[j] == gb[yq * s + j]);
        assert(row_bytes(g, yq)[cell_off(w, c) + 0] == cell_bytes(g[c][yq])[0]);
        assert(cell_bytes(g[c][yq])[0] == 0);
    }
}

/// Encoding a well-formed image yields a well-formed BMP byte sequence,
/// and decoding it recovers the image exactly.
pub proof fn lemma_decode_of_encode(v: ImageV)
    requires
        wf_image(v),
    ensures
        spec_good_bytes(spec_image_bytes(v)),
        spec_image_of(spec_image_bytes(v)) == v,
{
    let b = spec_image_bytes(v);
    let hd = v.header;
    let g = v.grid;
    let off = hd.offset as int;
    let w = hd.width as int;
    let hh = hd.height as int;
    let s = stride(w);
    lemma_image_bytes_layout(v);
    lemma_rows_bytes_len(g, w, hh, hh);
    assert(b.subrange(0, off) =~= spec_header_bytes(hd));
    crate::header::lemma_header_of_bytes(hd, b);
    assert(spec_header_of(b) == hd);
    assert(spec_bytes_ok(b));
    assert(spec_good_bytes(b));
    let g2 = spec_grid_of(b, off, w, hh);
    assert forall|c: int, y: int| 0 <= c < g2.len() && 0 <= y < hh implies #[trigger] g2[c][y]
        == g[c][y] by {
        if c < w {
            assert(pixel_byte_at(b, off, w, c, y, 0) == cell_bytes(g[c][y])[0]);
            assert(pixel_byte_at(b, off, w, c, y, 1) == cell_bytes(g[c][y])[1]);
            assert(pixel_byte_at(b, off, w, c, y, 2) == cell_bytes(g[c][y])[2]);
            assert(g[c][y] is ColorData);
        } else {
            assert(g[c][y] == Pixel::Padding);
        }
    }
    assert(g2 =~~= g);
    assert(spec_image_of(b) =~~= v);
}

/// Re-encoding a freshly decoded image reproduces the input bytes exactly,
/// gap and padding bytes included.
pub proof fn lemma_encode_of_decode(b: Seq<u8>)
    requires
        spec_good_bytes(b),
    ensures
        spec_image_bytes(spec_image_of(b)) == b,
{
    let h = spec_header_of(b);
    let off = h.offset as int;
    let w = h.width as int;
    let hh = h.height as int;
    lemma_header_bytes_of(b);
    lemma_rows_of_bytes(b, off, w, hh, hh);
    assert(spec_image_bytes(spec_image_of(b)) =~= b);
}

/// Decoding is stable: on any decodable input, decoding, re-encoding, and
/// decoding again yields the same image as the first decoding.
pub proof fn lemma_decode_encode_decode(b: Seq<u8>)
    requires
        spec_bytes_ok(b),
    ensures
        spec_image_of(spec_image_bytes(spec_image_of(b))) == spec_image_of(b),
{
    let h = spec_header_of(b);
    lemma_header_bytes_of(b);
    lemma_spec_grid_of_wf(b, h.offset as int, h.width as int, h.height as int);
    lemma_decode_of_encode(spec_image_of(b));
}

/// Mirroring an image horizontally twice restores every pixel.
pub proof fn lemma_mirror_twice(g: Seq<Seq<Pixel>>, w: int)
    requires
        0 <= w <= g.len(),
    ensures
        mirror_grid(mirror_grid(g, w), w) == g,
{
    assert(mirror_grid(mirror_grid(g, w), w) =~= g);
}

/// Filling an image with a color and encoding it: every pixel's three
/// bytes are the color's blue, green and red channels, in that order, and
/// every padding byte slot still holds zero.
pub proof fn lemma_fill_encode(v: ImageV, c: Color)
    requires
        wf_image(v),
    ensures
        ({
            let filled = ImageV {
                header: v.header,
                grid: paint_grid(
                    v.grid,
                    0,
                    v.header.width as int,
                    0,
                    v.header.height as int,
                    Pixel::ColorData(c.0, c.1, c.2),
                ),
            };
            let b = spec_image_bytes(filled);
            let off = v.header.offset as int;
            let w = v.header.width as int;
            &&& forall|x: int, y: int|
                0 <= x < w && 0 <= y < v.header.height ==> #[trigger] pixel_byte_at(b, off, w, x, y, 0)
                    == c.0 && pixel_byte_at(b, off, w, x, y, 1) == c.1 && pixel_byte_at(
                    b,
                    off,
                    w,
                    x,
                    y,
                    2,
                ) == c.2
            &&& padding_zero(b, off, w, v.header.height as int)
        }),
{
    let w = v.header.width as int;
    let hh = v.header.height as int;
    let px = Pixel::ColorData(c.0, c.1, c.2);
    let g2 = paint_grid(v.grid, 0, w, 0, hh, px);
    let filled = ImageV { header: v.header, grid: g2 };
    lemma_paint_grid_wf(v.grid, w, hh, 0, w, 0, hh, px);
    lemma_image_bytes_layout(filled);
    assert forall|x: int, y: int| 0 <= x < w && 0 <= y < hh implies #[trigger] g2[x][y] == px by {
        assert(v.grid[x].len() == hh);
    }
}

} // verus!

