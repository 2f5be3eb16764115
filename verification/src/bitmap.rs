//! One-bit obstacle maps rasterised from RGBA images.
use vstd::prelude::*;

use crate::grid::Grid;
use crate::image::ImageBuffer;

verus! {

/// Whether the pixel whose bytes start at `4 * k` in `bytes` is dark: its mean
/// channel brightness, alpha aside, is below half of full scale, which for
/// 8-bit channels is `r + g + b < 382.5`.
pub open spec fn dark_pixel(bytes: Seq<u8>, k: int) -> bool {
    2 * (bytes[4 * k] + bytes[4 * k + 1] + bytes[4 * k + 2]) < 765
}

/// Darkness treats the three colour channels alike and ignores alpha: two
/// pixels whose red, green and blue bytes are the same three values, in any
/// order, are both dark or both light, whatever their alpha.
pub proof fn lemma_dark_pixel_channels_alike(a: Seq<u8>, j: int, b: Seq<u8>, k: int)
    requires
        0 <= j,
        4 * j + 3 < a.len(),
        0 <= k,
        4 * k + 3 < b.len(),
        ({
            let (r, g, bl) = (a[4 * j], a[4 * j + 1], a[4 * j + 2]);
            let (r2, g2, b2) = (b[4 * k], b[4 * k + 1], b[4 * k + 2]);
            ||| r2 == r && g2 == g && b2 == bl
            ||| r2 == r && g2 == bl && b2 == g
            ||| r2 == g && g2 == r && b2 == bl
            ||| r2 == g && g2 == bl && b2 == r
            ||| r2 == bl && g2 == r && b2 == g
            ||| r2 == bl && g2 == g && b2 == r
        }),
    ensures
        dark_pixel(a, j) == dark_pixel(b, k),
{
}

/// Dimming a pixel never makes it lighter: a pixel whose red, green and blue
/// bytes are each at most those of a dark pixel is dark too. And a pixel is
/// dark exactly when the sum of those three bytes is below 382.5, so black is
/// dark and white is light.
pub proof fn lemma_dark_pixel_threshold(a: Seq<u8>, j: int, b: Seq<u8>, k: int)
    requires
        0 <= j,
        4 * j + 3 < a.len(),
        0 <= k,
        4 * k + 3 < b.len(),
    ensures
        dark_pixel(a, j) && b[4 * k] <= a[4 * j] && b[4 * k + 1] <= a[4 * j + 1] && b[4 * k + 2] <= a[4
            * j + 2] ==> dark_pixel(b, k),
        dark_pixel(a, j) <==> a[4 * j] + a[4 * j + 1] + a[4 * j + 2] <= 382,
{
}

/// Whether `(x, y)` is set in the example bitmap: a rectangle spanning
/// columns 20 to 79 and rows 20 to 59, and a disc of radius 25 around
/// `(120, 80)`.
pub open spec fn in_example_shape(x: int, y: int) -> bool {
    (20 <= x < 80 && 20 <= y < 60) || (x - 120) * (x - 120) + (y - 80) * (y - 80) < 625
}

/// The pixel that shows a set cell: opaque white.
pub open spec fn set_pixel() -> [u8; 4] {
    [255u8, 255u8, 255u8, 255u8]
}

/// The pixel that shows a clear cell: opaque black.
pub open spec fn clear_pixel() -> [u8; 4] {
    [0u8, 0u8, 0u8, 255u8]
}

/// A bitmap's cells as stored: one byte per cell, row-major, 1 where the
/// cell is set and 0 where it is clear.
pub open spec fn encoded(cells: Seq<bool>) -> Seq<u8> {
    cells.map_values(|set: bool| if set { 1u8 } else { 0u8 })
}

/// Stored bytes read back as cells: any nonzero byte is a set cell.
pub open spec fn decoded(bytes: Seq<u8>) -> Seq<bool> {
    bytes.map_values(|byte: u8| byte >= 1)
}

/// Reading back what was stored gives the same cells.
pub proof fn lemma_encoding_roundtrip(cells: Seq<bool>)
    ensures
        decoded(encoded(cells)) == cells,
{
    assert(decoded(encoded(cells)) =~= cells);
}

/// A grid of booleans: `true` where there is an obstacle.
#[derive(Clone, Debug)]
pub struct BinaryBitmap {
    pub grid: Grid<bool>,
}

impl BinaryBitmap {
    /// Wraps a grid of occupancy.
    pub fn new(grid: Grid<bool>) -> (b: Self)
        ensures
            b.grid == grid,
    {
        Self { grid }
    }

    /// Thresholds an image: a pixel is an obstacle when it is dark.
    pub fn from_image(image: &ImageBuffer) -> (b: Self)
        requires
            image.wf(),
        ensures
            b.grid.wf(),
            b.grid.ncols() == image.columns(),
            b.grid.nrows() == image.lines(),
            forall|x: int, y: int|
                0 <= x < image.columns() && 0 <= y < image.lines() ==> #[trigger] b.grid.cell(x, y)
                    == dark_pixel(image.byte_seq(), x + y * image.columns()),
            forall|x: int, y: int|
                0 <= x < image.columns() && 0 <= y < image.lines() ==> #[trigger] b.grid.cell(x, y)
                    == (2 * (image.byte_seq()[4 * (x + y * image.columns())] + image.byte_seq()[4 * (x
                    + y * image.columns()) + 1] + image.byte_seq()[4 * (x + y * image.columns()) + 2])
                    < 765),
    {
        let width = image.width() as usize;
        let height = image.height() as usize;
        let bytes = image.bytes();
        let n = bytes.len();
        let ghost w = width as int;
        let ghost h = height as int;
        proof {
            assert(bytes@.len() == 4 * (w * h));
        }
        let dark = |x: usize, y: usize| -> (d: bool)
            requires
                x < width,
                y < height,
                bytes@.len() == 4 * (width * height),
                4 * (width * height) <= usize::MAX,
            ensures
                d == dark_pixel(bytes@, x + y * width),
            {
                proof {
                    crate::grid::lemma_flat_index_in_range(width as int, height as int, x as int, y as int);
                }
                let i = (y * width + x) * 4;
                let r = bytes[i] as u32;
                let g = bytes[i + 1] as u32;
                let b = bytes[i + 2] as u32;
                2 * (r + g + b) < 765
            };
        let grid = Grid::from_generator(width, height, dark);
        Self { grid }
    }

    /// A `width` by `height` bitmap holding a rectangle and a disc, for trying
    /// obstacles out. The rectangle must fit: `width` at least 80 and
    /// `height` at least 60.
    pub fn example_bitmap(width: usize, height: usize) -> (b: Self)
        requires
            80 <= width <= isize::MAX,
            60 <= height <= isize::MAX,
            width * height <= usize::MAX,
        ensures
            b.grid.wf(),
            b.grid.ncols() == width,
            b.grid.nrows() == height,
            forall|x: int, y: int|
                0 <= x < width && 0 <= y < height ==> #[trigger] b.grid.cell(x, y) == in_example_shape(x, y),
    {
        let shape = |x: usize, y: usize| -> (set: bool)
            ensures
                set == in_example_shape(x as int, y as int),
            {
                let in_rectangle = 20 <= x && x < 80 && 20 <= y && y < 60;
                let in_disc = if x < 145 && y < 105 {
                    let dx = x as i64 - 120;
                    let dy = y as i64 - 80;
                    proof {
                        assert(dx * dx <= 14400) by (nonlinear_arith)
                            requires
                                -120 <= dx <= 25,
                        ;
                        assert(dy * dy <= 6400) by (nonlinear_arith)
                            requires
                                -80 <= dy <= 25,
                        ;
                        assert(dx * dx >= 0) by (nonlinear_arith);
                        assert(dy * dy >= 0) by (nonlinear_arith);
                    }
                    dx * dx + dy * dy < 625
                } else {
                    proof {
                        assert(x >= 145 ==> (x - 120) * (x - 120) >= 625) by (nonlinear_arith);
                        assert(y >= 105 ==> (y - 80) * (y - 80) >= 625) by (nonlinear_arith);
                        assert((x - 120) * (x - 120) >= 0) by (nonlinear_arith);
                        assert((y - 80) * (y - 80) >= 0) by (nonlinear_arith);
                    }
                    false
                };
                in_rectangle || in_disc
            };
        let grid = Grid::from_generator(width, height, shape);
        Self { grid }
    }

    /// A transparent image with this bitmap's dimensions.
    pub fn blank_image(&self) -> (image: ImageBuffer)
        requires
            self.grid.ncols() <= u16::MAX,
            self.grid.nrows() <= u16::MAX,
        ensures
            image.wf(),
            image.columns() == self.grid.ncols(),
            image.lines() == self.grid.nrows(),
            forall|i: int| 0 <= i < image.pixel_seq().len() ==> #[trigger] image.pixel_seq()[i] == [0u8, 0u8, 0u8, 0u8],
    {
        let width = self.grid.columns() as u16;
        let height = self.grid.rows() as u16;
        proof {
            assert(width * height <= 0xffff * 0xffff) by (nonlinear_arith)
                requires
                    width <= 0xffff,
                    height <= 0xffff,
            ;
        }
        ImageBuffer::filled_with(width, height, [0, 0, 0, 0])
    }

    /// Rasterises the bitmap into `image`, which must have its dimensions:
    /// opaque white where a cell is set, opaque black elsewhere.
    pub fn write_to_image(&self, image: &mut ImageBuffer)
        requires
            self.grid.wf(),
            old(image).wf(),
            old(image).columns() == self.grid.ncols(),
            old(image).lines() == self.grid.nrows(),
        ensures
            final(image).wf(),
            final(image).columns() == old(image).columns(),
            final(image).lines() == old(image).lines(),
            forall|i: int| 0 <= i < final(image).pixel_seq().len() ==> #[trigger] final(image).pixel_seq()[i] == if self.grid.cells()[i] {
                set_pixel()
            } else {
                clear_pixel()
            },
    {
        let cells = self.grid.iter();
        let pixels = image.pixels_mut();
        let n = pixels.len();
        proof {
            assert(cells@.len() == n);
        }
        for k in 0..n
            invariant
                n == pixels@.len(),
                n == cells@.len(),
                forall|i: int| 0 <= i < k ==> #[trigger] pixels@[i] == if cells@[i] {
                    set_pixel()
                } else {
                    clear_pixel()
                },
        {
            pixels[k] = if cells[k] {
                [255, 255, 255, 255]
            } else {
                [0, 0, 0, 255]
            };
        }
    }

    /// The cells as stored, one byte each, row-major: 1 where set, 0 where
    /// clear.
    pub fn to_bytes(&self) -> (bytes: Vec<u8>)
        ensures
            bytes@ == encoded(self.grid.cells()),
    {
        let cells = self.grid.iter();
        let mut bytes: Vec<u8> = Vec::with_capacity(cells.len());
        for k in 0..cells.len()
            invariant
                bytes@ == encoded(cells@.take(k as int)),
        {
            bytes.push(if cells[k] {
                1
            } else {
                0
            });
            proof {
                assert(cells@.take(k + 1) == cells@.take(k as int).push(cells@[k as int]));
                assert(encoded(cells@.take(k + 1)) =~= encoded(cells@.take(k as int)).push(
                    if cells@[k as int] {
                        1u8
                    } else {
                        0u8
                    },
                ));
            }
        }
        proof {
            assert(cells@.take(cells@.len() as int) == cells@);
        }
        bytes
    }

    /// Reads a `columns` by `rows` bitmap from `bytes[start..start + columns * rows]`.
    fn decode_from(bytes: &[u8], start: usize, columns: usize, rows: usize) -> (b: Self)
        requires
            start + columns * rows <= bytes@.len(),
        ensures
            b.grid.wf(),
            b.grid.ncols() == columns,
            b.grid.nrows() == rows,
            b.grid.cells() == decoded(bytes@.subrange(start as int, start + columns * rows)),
    {
        let n = bytes.len();
        let count = columns * rows;
        let mut cells: Vec<bool> = Vec::with_capacity(count);
        for k in 0..count
            invariant
                count == columns * rows,
                n == bytes@.len(),
                start + count <= n,
                cells@ == decoded(bytes@.subrange(start as int, start + k)),
        {
            cells.push(bytes[start + k] >= 1);
            proof {
                assert(decoded(bytes@.subrange(start as int, start + k + 1)) =~= decoded(
                    bytes@.subrange(start as int, start + k),
                ).push(bytes@[start + k] >= 1));
            }
        }
        Self { grid: Grid::new(cells, columns, rows) }
    }

    /// Reads a `columns` by `rows` bitmap from its stored bytes, which must
    /// be exactly `columns * rows` long.
    pub fn from_bytes(bytes: &[u8], columns: usize, rows: usize) -> (b: Self)
        requires
            bytes@.len() == columns * rows,
        ensures
            b.grid.wf(),
            b.grid.ncols() == columns,
            b.grid.nrows() == rows,
            b.grid.cells() == decoded(bytes@),
    {
        let b = Self::decode_from(bytes, 0, columns, rows);
        proof {
            assert(bytes@.subrange(0, columns * rows) == bytes@);
        }
        b
    }

    /// Reads the `columns` by `rows` bitmaps stored back to back in `bytes`,
    /// as many whole ones as there are; bytes after the last whole bitmap are
    /// ignored.
    pub fn decode_frames(bytes: &[u8], columns: usize, rows: usize) -> (frames: Vec<Self>)
        requires
            columns * rows > 0,
            columns * rows <= usize::MAX,
        ensures
            frames@.len() == bytes@.len() as int / (columns * rows) as int,
            forall|k: int|
                0 <= k < frames@.len() ==> {
                    let frame = #[trigger] frames@[k];
                    &&& frame.grid.wf()
                    &&& frame.grid.ncols() == columns
                    &&& frame.grid.nrows() == rows
                    &&& frame.grid.cells() == decoded(
                        bytes@.subrange(k * (columns * rows), (k + 1) * (columns * rows)),
                    )
                },
    {
        let size = columns * rows;
        let n = bytes.len();
        let mut frames: Vec<Self> = Vec::new();
        let mut start: usize = 0;
        proof {
            assert(0 * size == 0);
        }
        while size <= n - start
            invariant
                size == columns * rows,
                size > 0,
                n == bytes@.len(),
                start <= n,
                start == frames@.len() * size,
                forall|k: int|
                    0 <= k < frames@.len() ==> {
                        let frame = #[trigger] frames@[k];
                        &&& frame.grid.wf()
                        &&& frame.grid.ncols() == columns
                        &&& frame.grid.nrows() == rows
                        &&& frame.grid.cells() == decoded(bytes@.subrange(k * size, (k + 1) * size))
                    },
            decreases n - start,
        {
            let frame = Self::decode_from(bytes, start, columns, rows);
            let ghost k = frames@.len() as int;
            frames.push(frame);
            proof {
                assert((k + 1) * size == k * size + size) by (nonlinear_arith);
            }
            start = start + size;
        }
        proof {
            let count = frames@.len() as int;
            assert(n < (count + 1) * size) by (nonlinear_arith)
                requires
                    n - start < size,
                    start == count * size,
            ;
            vstd::arithmetic::div_mod::lemma_fundamental_div_mod_converse_div(
                n as int,
                size as int,
                count,
                n - start,
            );
        }
        frames
    }
}

} // verus!
