//! Pixels, colors, and the column-major pixel grid of a BMP image.
//!
//! The grid holds one column per image column plus one synthetic column per
//! row-padding byte; padding columns contain only `Pixel::Padding` entries
//! and encode as single zero bytes, mirroring the on-disk scanline layout.

use vstd::prelude::*;

verus! {

/// An RGB color in blue-green-red channel order, as BMP stores it.
#[derive(Clone, Copy, Debug, PartialEq, Eq, Structural)]
pub struct Color(pub u8, pub u8, pub u8);

/// One cell of the pixel grid: a color sample or a scanline padding byte.
#[derive(Clone, Copy, Debug, PartialEq, Eq, Structural)]
pub enum Pixel {
    ColorData(u8, u8, u8),
    Padding,
}

impl Color {
    /// The grid cell holding this color.
    pub fn to_pixel(&self) -> (p: Pixel)
        ensures
            p == Pixel::ColorData(self.0, self.1, self.2),
    {
        Pixel::ColorData(self.0, self.1, self.2)
    }
}

/// Number of padding bytes appended to each scanline so that its stored
/// length `3 * w + pad_cols(w)` is a multiple of four.
pub open spec fn pad_cols(w: int) -> int {
    if (3 * w) % 4 == 0 {
        0
    } else {
        4 - (3 * w) % 4
    }
}

/// Stored length of one scanline in bytes.
pub open spec fn stride(w: int) -> int {
    3 * w + pad_cols(w)
}

/// The sequence-of-sequences abstraction of an owned pixel grid.
pub open spec fn gv(p: Seq<Vec<Pixel>>) -> Seq<Seq<Pixel>> {
    Seq::new(p.len(), |c: int| p[c]@)
}

/// The bytes one grid cell contributes to a scanline.
pub open spec fn cell_bytes(p: Pixel) -> Seq<u8> {
    match p {
        Pixel::ColorData(b, g, r) => seq![b, g, r],
        Pixel::Padding => seq![0u8],
    }
}

/// Byte offset of column `c` within a scanline of a well-formed grid of
/// image width `w`.
pub open spec fn cell_off(w: int, c: int) -> int {
    if c <= w {
        3 * c
    } else {
        3 * w + (c - w)
    }
}

/// Bytes of the first `c` columns of scanline `y`.
pub open spec fn row_bytes_to(g: Seq<Seq<Pixel>>, y: int, c: int) -> Seq<u8>
    decreases c,
{
    if c <= 0 {
        Seq::empty()
    } else {
        row_bytes_to(g, y, c - 1) + cell_bytes(g[c - 1][y])
    }
}

/// Bytes of the complete scanline `y`.
pub open spec fn row_bytes(g: Seq<Seq<Pixel>>, y: int) -> Seq<u8> {
    row_bytes_to(g, y, g.len() as int)
}

/// Bytes of the first `y` scanlines.
pub open spec fn rows_bytes(g: Seq<Seq<Pixel>>, y: int) -> Seq<u8>
    decreases y,
{
    if y <= 0 {
        Seq::empty()
    } else {
        rows_bytes(g, y - 1) + row_bytes(g, y - 1)
    }
}

/// The whole pixel-array byte stream of a grid with `h` scanlines.
pub open spec fn grid_bytes(g: Seq<Seq<Pixel>>, h: int) -> Seq<u8> {
    rows_bytes(g, h)
}

/// A well-formed grid for an image of width `w` and height `h`: image
/// columns of `h` color entries, then one all-padding column per padding
/// byte of a scanline.
pub open spec fn grid_wf(g: Seq<Seq<Pixel>>, w: int, h: int) -> bool {
    &&& g.len() == w + pad_cols(w)
    &&& forall|c: int| 0 <= c < g.len() ==> (#[trigger] g[c]).len() == h
    &&& forall|c: int, y: int|
        0 <= c < w && 0 <= y < h ==> (#[trigger] g[c][y]) is ColorData
    &&& forall|c: int, y: int|
        w <= c < g.len() && 0 <= y < h ==> (#[trigger] g[c][y]) == Pixel::Padding
}

/// The grid decoded from the pixel-array bytes of `b` starting at `off`,
/// for an image of width `w` and height `h`.
pub open spec fn spec_grid_of(b: Seq<u8>, off: int, w: int, h: int) -> Seq<Seq<Pixel>> {
    Seq::new(
        (w + pad_cols(w)) as nat,
        |c: int|
            Seq::new(
                h as nat,
                |y: int|
                    if c < w {
                        Pixel::ColorData(
                            b[off + y * stride(w) + 3 * c],
                            b[off + y * stride(w) + 3 * c + 1],
                            b[off + y * stride(w) + 3 * c + 2],
                        )
                    } else {
                        Pixel::Padding
                    },
            ),
    )
}

/// The padding byte slots of every scanline hold zero: positions whose
/// offset within their scanline falls on or after the `3 * w` color bytes.
pub open spec fn padding_zero(b: Seq<u8>, off: int, w: int, h: int) -> bool {
    forall|k: int|
        off <= k < off + h * stride(w) && (k - off) % stride(w) >= 3 * w ==> (#[trigger] b[k]) == 0
}

/// A decoded grid is well-formed.
pub proof fn lemma_spec_grid_of_wf(b: Seq<u8>, off: int, w: int, h: int)
    requires
        0 <= w,
        0 <= h,
    ensures
        grid_wf(spec_grid_of(b, off, w, h), w, h),
{
}

/// Length of a scanline prefix of a well-formed grid.
pub proof fn lemma_row_bytes_to_len(g: Seq<Seq<Pixel>>, w: int, h: int, y: int, c: int)
    requires
        grid_wf(g, w, h),
        0 <= w,
        0 <= y < h,
        0 <= c <= g.len(),
    ensures
        row_bytes_to(g, y, c).len() == cell_off(w, c),
    decreases c,
{
    if c > 0 {
        lemma_row_bytes_to_len(g, w, h, y, c - 1);
        assert(row_bytes_to(g, y, c) == row_bytes_to(g, y, c - 1) + cell_bytes(g[c - 1][y]));
        if c - 1 < w {
            assert(g[c - 1][y] is ColorData);
            assert(cell_bytes(g[c - 1][y]).len() == 3);
        } else {
            assert(g[c - 1][y] == Pixel::Padding);
            assert(cell_bytes(g[c - 1][y]).len() == 1);
        }
        assert(row_bytes_to(g, y, c).len() == row_bytes_to(g, y, c - 1).len() + cell_bytes(
            g[c - 1][y],
        ).len());
    }
}

/// Length of the byte stream of the first `y` scanlines.
pub proof fn lemma_rows_bytes_len(g: Seq<Seq<Pixel>>, w: int, h: int, y: int)
    requires
        grid_wf(g, w, h),
        0 <= w,
        0 <= y <= h,
    ensures
        rows_bytes(g, y).len() == y * stride(w),
    decreases y,
{
    if y > 0 {
        lemma_rows_bytes_len(g, w, h, y - 1);
        lemma_row_bytes_to_len(g, w, h, y - 1, g.len() as int);
        assert((y - 1) * stride(w) + stride(w) == y * stride(w)) by (nonlinear_arith);
    } else {
        assert(y * stride(w) == 0) by (nonlinear_arith)
            requires
                y == 0,
        ;
    }
}

/// Re-encoding the first `c` cells of scanline `y` of a decoded grid
/// reproduces the corresponding byte range of the input.
pub proof fn lemma_row_of_bytes(b: Seq<u8>, off: int, w: int, h: int, y: int, c: int)
    requires
        0 <= off,
        0 <= w,
        0 <= h,
        off + h * stride(w) <= b.len(),
        padding_zero(b, off, w, h),
        0 <= y < h,
        0 <= c <= w + pad_cols(w),
    ensures
        row_bytes_to(spec_grid_of(b, off, w, h), y, c) == b.subrange(
            off + y * stride(w),
            off + y * stride(w) + cell_off(w, c),
        ),
    decreases c,
{
    let g = spec_grid_of(b, off, w, h);
    let ro = off + y * stride(w);
    assert((y + 1) * stride(w) <= h * stride(w)) by (nonlinear_arith)
        requires
            y + 1 <= h,
            stride(w) >= 0,
    ;
    assert(y * stride(w) + stride(w) == (y + 1) * stride(w)) by (nonlinear_arith);
    assert(y * stride(w) >= 0) by (nonlinear_arith)
        requires
            y >= 0,
            stride(w) >= 0,
    ;
    if c > 0 {
        lemma_row_of_bytes(b, off, w, h, y, c - 1);
        if c - 1 < w {
            assert(row_bytes_to(g, y, c) =~= b.subrange(ro, ro + cell_off(w, c)));
        } else {
            let j = 3 * w + (c - 1 - w);
            let k = ro + j;
            assert(b[k] == 0) by {
                assert(3 * w <= j < stride(w));
                vstd::arithmetic::div_mod::lemma_fundamental_div_mod_converse(
                    y * stride(w) + j,
                    stride(w),
                    y,
                    j,
                );
                assert((k - off) % stride(w) == j);
            }
            assert(row_bytes_to(g, y, c) =~= b.subrange(ro, ro + cell_off(w, c)));
        }
    } else {
        assert(row_bytes_to(g, y, c) =~= b.subrange(ro, ro + cell_off(w, c)));
    }
}

/// Re-encoding the first `y` scanlines of a decoded grid reproduces the
/// corresponding byte range of the input.
pub proof fn lemma_rows_of_bytes(b: Seq<u8>, off: int, w: int, h: int, y: int)
    requires
        0 <= off,
        0 <= w,
        0 <= h,
        off + h * stride(w) <= b.len(),
        padding_zero(b, off, w, h),
        0 <= y <= h,
    ensures
        rows_bytes(spec_grid_of(b, off, w, h), y) == b.subrange(off, off + y * stride(w)),
    decreases y,
{
    let g = spec_grid_of(b, off, w, h);
    if y > 0 {
        lemma_rows_of_bytes(b, off, w, h, y - 1);
        lemma_row_of_bytes(b, off, w, h, y - 1, w + pad_cols(w));
        assert((y - 1) * stride(w) + stride(w) == y * stride(w)) by (nonlinear_arith);
        assert(y * stride(w) <= h * stride(w)) by (nonlinear_arith)
            requires
                y <= h,
                stride(w) >= 0,
        ;
        assert((y - 1) * stride(w) >= 0) by (nonlinear_arith)
            requires
                y - 1 >= 0,
                stride(w) >= 0,
        ;
        assert(cell_off(w, w + pad_cols(w)) == stride(w));
        assert(rows_bytes(g, y) =~= b.subrange(off, off + y * stride(w)));
    } else {
        assert(y * stride(w) == 0) by (nonlinear_arith)
            requires
                y == 0,
        ;
        assert(rows_bytes(g, y) =~= b.subrange(off, off + y * stride(w)));
    }
}

/// Byte `k` of cell `c` lands at scanline offset `cell_off(w, c) + k`.
pub proof fn lemma_row_cell_at(g: Seq<Seq<Pixel>>, w: int, h: int, y: int, c: int, k: int, n: int)
    requires
        grid_wf(g, w, h),
        0 <= w,
        0 <= y < h,
        0 <= c < n <= g.len(),
        0 <= k < cell_bytes(g[c][y]).len(),
    ensures
        row_bytes_to(g, y, n)[cell_off(w, c) + k] == cell_bytes(g[c][y])[k],
    decreases n,
{
    lemma_row_bytes_to_len(g, w, h, y, n - 1);
    if c == n - 1 {
    } else {
        lemma_row_cell_at(g, w, h, y, c, k, n - 1);
        lemma_row_bytes_to_len(g, w, h, y, c + 1);
        assert(cell_off(w, c) + k < cell_off(w, c + 1));
    }
}

/// Scanline `y` occupies bytes `y * stride(w)` up to `(y + 1) * stride(w)`
/// of the encoded pixel array.
pub proof fn lemma_rows_slice(g: Seq<Seq<Pixel>>, w: int, h: int, y: int, n: int)
    requires
        grid_wf(g, w, h),
        0 <= w,
        0 <= y < n <= h,
    ensures
        rows_bytes(g, n).subrange(y * stride(w), (y + 1) * stride(w)) == row_bytes(g, y),
    decreases n,
{
    lemma_rows_bytes_len(g, w, h, n - 1);
    lemma_row_bytes_to_len(g, w, h, n - 1, g.len() as int);
    assert((n - 1) * stride(w) + stride(w) == n * stride(w)) by (nonlinear_arith);
    if y == n - 1 {
        assert(rows_bytes(g, n).subrange(y * stride(w), (y + 1) * stride(w)) =~= row_bytes(g, y));
    } else {
        lemma_rows_slice(g, w, h, y, n - 1);
        assert((y + 1) * stride(w) <= (n - 1) * stride(w)) by (nonlinear_arith)
            requires
                y + 1 <= n - 1,
                stride(w) >= 0,
        ;
        assert(y * stride(w) >= 0) by (nonlinear_arith)
            requires
                y >= 0,
                stride(w) >= 0,
        ;
        assert(y * stride(w) + stride(w) == (y + 1) * stride(w)) by (nonlinear_arith);
        assert(rows_bytes(g, n).subrange(y * stride(w), (y + 1) * stride(w)) =~= rows_bytes(
            g,
            n - 1,
        ).subrange(y * stride(w), (y + 1) * stride(w)));
    }
}

/// A grid with no columns encodes to no bytes, whatever the row count.
pub proof fn lemma_grid_bytes_no_columns(g: Seq<Seq<Pixel>>, h: int)
    requires
        g.len() == 0,
    ensures
        grid_bytes(g, h) == Seq::<u8>::empty(),
    decreases h,
{
    if h > 0 {
        lemma_grid_bytes_no_columns(g, h - 1);
        assert(rows_bytes(g, h) =~= Seq::<u8>::empty());
    }
}

impl Pixel {
    /// Serializes a column-major grid to the BMP pixel-array byte stream:
    /// scanline by scanline, three bytes per color cell and one zero byte
    /// per padding cell.
    pub fn pixel2d_to_bytes(pixels: &Vec<Vec<Pixel>>) -> (r: Vec<u8>)
        requires
            pixels@.len() > 0,
            forall|c: int|
                0 <= c < pixels@.len() ==> (#[trigger] pixels@[c])@.len() == pixels@[0]@.len(),
        ensures
            r@ == grid_bytes(gv(pixels@), pixels@[0]@.len() as int),
    {
        let h = pixels[0].len();
        let n = pixels.len();
        let mut out: Vec<u8> = Vec::new();
        for y in 0..h
            invariant
                out@ == rows_bytes(gv(pixels@), y as int),
                n == pixels@.len(),
                h == pixels@[0]@.len(),
                forall|c: int|
                    0 <= c < pixels@.len() ==> (#[trigger] pixels@[c])@.len() == pixels@[0]@.len(),
        {
            for c in 0..n
                invariant
                    out@ == rows_bytes(gv(pixels@), y as int) + row_bytes_to(
                        gv(pixels@),
                        y as int,
                        c as int,
                    ),
                    n == pixels@.len(),
                    h == pixels@[0]@.len(),
                    y < h,
                    forall|cc: int|
                        0 <= cc < pixels@.len() ==> (#[trigger] pixels@[cc])@.len()
                            == pixels@[0]@.len(),
            {
                let ghost pre = out@;
                let ghost g = gv(pixels@);
                match pixels[c][y] {
                    Pixel::ColorData(bb, gg, rr) => {
                        out.push(bb);
                        out.push(gg);
                        out.push(rr);
                        proof {
                            assert(g[c as int][y as int] == Pixel::ColorData(bb, gg, rr));
                            assert(out@ =~= pre + cell_bytes(g[c as int][y as int]));
                        }
                    },
                    Pixel::Padding => {
                        out.push(0);
                        proof {
                            assert(g[c as int][y as int] == Pixel::Padding);
                            assert(out@ =~= pre + cell_bytes(g[c as int][y as int]));
                        }
                    },
                }
                proof {
                    assert(row_bytes_to(g, y as int, c + 1) == row_bytes_to(g, y as int, c as int)
                        + cell_bytes(g[c as int][y as int]));
                    assert(out@ =~= rows_bytes(g, y as int) + row_bytes_to(g, y as int, c + 1));
                }
            }
            proof {
                let g = gv(pixels@);
                assert(row_bytes_to(g, y as int, n as int) == row_bytes(g, y as int));
                assert(rows_bytes(g, y + 1) == rows_bytes(g, y as int) + row_bytes(g, y as int));
            }
        }
        out
    }
}

} // verus!
