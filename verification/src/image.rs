//! A CPU-side RGBA8 pixel buffer.
use vstd::prelude::*;

verus! {

/// The bytes of a run of RGBA pixels, pixel after pixel.
pub open spec fn rgba_bytes(pixels: Seq<[u8; 4]>) -> Seq<u8> {
    Seq::new(4 * pixels.len(), |i: int| pixels[i / 4]@[i % 4])
}

/// The byte layout loses nothing: runs of pixels with the same bytes are the
/// same pixels.
pub proof fn lemma_rgba_bytes_injective(p: Seq<[u8; 4]>, q: Seq<[u8; 4]>)
    requires
        rgba_bytes(p) == rgba_bytes(q),
    ensures
        p == q,
{
    broadcast use vstd::array::group_array_axioms;

    assert(rgba_bytes(p).len() == 4 * p.len());
    assert(rgba_bytes(q).len() == 4 * q.len());
    assert(p.len() == q.len());
    assert forall|i: int| 0 <= i < p.len() implies p[i] == q[i] by {
        assert forall|j: int| 0 <= j < 4 implies p[i][j] == q[i][j] by {
            let k = 4 * i + j;
            assert(k / 4 == i && k % 4 == j) by (nonlinear_arith)
                requires
                    k == 4 * i + j,
                    0 <= j < 4,
            ;
            assert(0 <= k < 4 * p.len()) by (nonlinear_arith)
                requires
                    k == 4 * i + j,
                    0 <= j < 4,
                    0 <= i < p.len(),
            ;
            assert(rgba_bytes(p)[k] == rgba_bytes(q)[k]);
            assert(rgba_bytes(p)[k] == p[i]@[j]);
            assert(rgba_bytes(q)[k] == q[i]@[j]);
        }
        assert(p[i] =~= q[i]);
    }
    assert(p =~= q);
}

/// `<[[u8; 4]]>::as_flattened`: the same memory seen as bytes, pixel after
/// pixel, as std documents it.
#[verifier::external_body]
fn as_bytes(pixels: &[[u8; 4]]) -> (b: &[u8])
    ensures
        b@ == rgba_bytes(pixels@),
{
    pixels.as_flattened()
}

/// A CPU-side RGBA8 pixel buffer, row-major from the top left.
///
/// Simulations rasterise into one of these and hand it to a renderer to be
/// uploaded; they never hold a GPU texture themselves.
#[derive(Clone, Debug, PartialEq, Eq)]
pub struct ImageBuffer {
    pixels: Vec<[u8; 4]>,
    width: u16,
    height: u16,
}

impl ImageBuffer {
    /// The pixels, row-major from the top left.
    pub closed spec fn pixel_seq(&self) -> Seq<[u8; 4]> {
        self.pixels@
    }

    /// The width in pixels.
    pub closed spec fn columns(&self) -> nat {
        self.width as nat
    }

    /// The height in pixels.
    pub closed spec fn lines(&self) -> nat {
        self.height as nat
    }

    /// The raw bytes, four per pixel.
    pub open spec fn byte_seq(&self) -> Seq<u8> {
        rgba_bytes(self.pixel_seq())
    }

    /// One pixel per position of the image.
    pub open spec fn wf(&self) -> bool {
        self.pixel_seq().len() == self.columns() * self.lines()
    }

    /// A buffer of the given size with every pixel set to `pixel`.
    pub fn filled_with(width: u16, height: u16, pixel: [u8; 4]) -> (image: Self)
        requires
            width * height <= usize::MAX,
        ensures
            image.wf(),
            image.columns() == width,
            image.lines() == height,
            forall|i: int| 0 <= i < image.pixel_seq().len() ==> #[trigger] image.pixel_seq()[i] == pixel,
    {
        let count = width as usize * height as usize;
        let mut pixels: Vec<[u8; 4]> = Vec::with_capacity(count);
        while pixels.len() < count
            invariant
                pixels@.len() <= count,
                forall|i: int| 0 <= i < pixels@.len() ==> #[trigger] pixels@[i] == pixel,
            decreases count - pixels@.len(),
        {
            pixels.push(pixel);
        }
        Self { pixels, width, height }
    }

    /// Wraps existing RGBA8 bytes, row-major from the top left.
    ///
    /// `bytes` must be exactly `width * height * 4` long.
    pub fn from_rgba8(bytes: Vec<u8>, width: u16, height: u16) -> (image: Self)
        requires
            bytes@.len() == width * height * 4,
        ensures
            image.wf(),
            image.columns() == width,
            image.lines() == height,
            image.byte_seq() == bytes@,
    {
        let n = bytes.len();
        let count = width as usize * height as usize;
        let mut pixels: Vec<[u8; 4]> = Vec::with_capacity(count);
        let mut i: usize = 0;
        while i < count
            invariant
                count == width * height,
                bytes@.len() == count * 4,
                bytes@.len() <= usize::MAX,
                i <= count,
                pixels@.len() == i,
                forall|k: int, j: int|
                    0 <= k < i && 0 <= j < 4 ==> #[trigger] pixels@[k]@[j] == bytes@[4 * k + j],
            decreases count - i,
        {
            let b = 4 * i;
            pixels.push([bytes[b], bytes[b + 1], bytes[b + 2], bytes[b + 3]]);
            i += 1;
        }
        let image = Self { pixels, width, height };
        proof {
            assert forall|n: int| 0 <= n < bytes@.len() implies #[trigger] image.byte_seq()[n] == bytes@[n] by {
                assert(n == 4 * (n / 4) + n % 4) by (nonlinear_arith);
                assert(0 <= n / 4 < count) by (nonlinear_arith)
                    requires
                        0 <= n < count * 4,
                ;
                assert(0 <= n % 4 < 4) by (nonlinear_arith);
            }
            assert(image.byte_seq() =~= bytes@);
        }
        image
    }

    /// The width in pixels.
    pub fn width(&self) -> (w: u16)
        ensures
            w == self.columns(),
    {
        self.width
    }

    /// The height in pixels.
    pub fn height(&self) -> (h: u16)
        ensures
            h == self.lines(),
    {
        self.height
    }

    /// The raw RGBA8 bytes, row-major from the top left.
    pub fn bytes(&self) -> (b: &[u8])
        ensures
            b@ == self.byte_seq(),
    {
        as_bytes(self.pixels.as_slice())
    }

    /// The pixels as mutable 4-byte chunks, row-major from the top left.
    pub fn pixels_mut(&mut self) -> (p: &mut [[u8; 4]])
        ensures
            p@ == old(self).pixel_seq(),
            final(self).pixel_seq() == final(p)@,
            final(self).columns() == old(self).columns(),
            final(self).lines() == old(self).lines(),
    {
        self.pixels.as_mut_slice()
    }
}

/// An image's bytes, read back with its dimensions, give the same image:
/// they are as many as [`ImageBuffer::from_rgba8`] asks for, and an image
/// of those dimensions with those bytes has the same pixels.
pub proof fn lemma_bytes_roundtrip(image: ImageBuffer, read: ImageBuffer)
    requires
        image.wf(),
        read.columns() == image.columns(),
        read.lines() == image.lines(),
        read.byte_seq() == image.byte_seq(),
    ensures
        image.byte_seq().len() == image.columns() * image.lines() * 4,
        read.pixel_seq() == image.pixel_seq(),
{
    lemma_rgba_bytes_injective(read.pixel_seq(), image.pixel_seq());
}


} // verus!
