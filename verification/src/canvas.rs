//! The pixel buffer that a rendering fills.

use vstd::prelude::*;

verus! {

/// A rectangle of pixels, four bytes each: red, green, blue, alpha. It is an
/// `image::RgbaImage`, which the verifier does not look into; what the
/// functions below say of it is taken from that crate, not proved.
#[verifier::external_body]
pub struct Canvas {
    buffer: image::RgbaImage,
}

/// How many pixels a row of the canvas has: what `ImageBuffer::width` returns.
pub uninterp spec fn canvas_width(c: Canvas) -> nat;

/// How many rows the canvas has: what `ImageBuffer::height` returns.
pub uninterp spec fn canvas_height(c: Canvas) -> nat;

/// The bytes of the canvas, row after row from the top, each row from the
/// left, four bytes to a pixel: what `ImageBuffer::into_raw` returns.
pub uninterp spec fn canvas_data(c: Canvas) -> Seq<u8>;

/// Where the first byte of pixel `(x, y)` stands in the data of a canvas
/// that is `width` pixels wide.
pub open spec fn pixel_offset(width: int, x: int, y: int) -> int {
    4 * (y * width + x)
}

/// `RgbaImage::new`: an image of the given size whose bytes are all zero.
/// The call panics when the number of bytes, or of the bytes of one row,
/// does not fit in `usize`.
#[verifier::external_body]
pub(crate) fn new_buffer(width: u32, height: u32) -> (c: Canvas)
    requires
        4 * width <= usize::MAX,
        4 * width * height <= usize::MAX,
    ensures
        canvas_width(c) == width,
        canvas_height(c) == height,
        canvas_data(c).len() == 4 * width * height,
        forall|i: int| 0 <= i < 4 * width * height ==> canvas_data(c)[i] == 0,
{
    Canvas { buffer: image::RgbaImage::new(width, height) }
}

/// `ImageBuffer::get_pixel_mut`, and an assignment to the pixel it hands
/// out: the four bytes of pixel `(x, y)` become `px`, and nothing else
/// changes. The call panics when `(x, y)` lies outside the image.
#[verifier::external_body]
pub(crate) fn set_pixel(c: &mut Canvas, x: u32, y: u32, px: [u8; 4])
    requires
        x < canvas_width(*old(c)),
        y < canvas_height(*old(c)),
    ensures
        canvas_width(*final(c)) == canvas_width(*old(c)),
        canvas_height(*final(c)) == canvas_height(*old(c)),
        canvas_data(*final(c)).len() == canvas_data(*old(c)).len(),
        forall|i: int|
            0 <= i < canvas_data(*old(c)).len() ==> canvas_data(*final(c))[i] == {
                let first = pixel_offset(canvas_width(*old(c)) as int, x as int, y as int);
                if first <= i < first + 4 {
                    px@[i - first]
                } else {
                    canvas_data(*old(c))[i]
                }
            },
{
    c.buffer.get_pixel_mut(x, y).0 = px;
}

/// `ImageBuffer::dimensions`: width and height.
#[verifier::external_body]
fn buffer_dimensions(c: &Canvas) -> (d: (u32, u32))
    ensures
        d.0 == canvas_width(*c),
        d.1 == canvas_height(*c),
{
    c.buffer.dimensions()
}

/// `ImageBuffer::into_raw`: the bytes.
#[verifier::external_body]
fn buffer_into_raw(c: Canvas) -> (data: Vec<u8>)
    ensures
        data@ == canvas_data(c),
{
    c.buffer.into_raw()
}

impl Canvas {
    /// Width and height, in pixels.
    pub fn dimensions(&self) -> (d: (u32, u32))
        ensures
            d.0 == canvas_width(*self),
            d.1 == canvas_height(*self),
    {
        buffer_dimensions(self)
    }

    /// The bytes of the canvas, row after row, four to a pixel.
    pub fn into_bytes(self) -> (data: Vec<u8>)
        ensures
            data@ == canvas_data(self),
    {
        buffer_into_raw(self)
    }
}

} // verus!
