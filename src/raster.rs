use vstd::prelude::*;

use image::RgbaImage;

verus! {

/// An 8-bit RGBA image, kept in image's `RgbaImage`.
#[verifier::external_body]
pub struct Raster {
    img: RgbaImage,
}

/// The bytes of a raster, four per pixel (red, green, blue, alpha), row after
/// row.
pub uninterp spec fn raster_bytes(r: Raster) -> Seq<u8>;

/// The width of a raster, in pixels.
pub uninterp spec fn raster_width(r: Raster) -> nat;

/// The height of a raster, in pixels.
pub uninterp spec fn raster_height(r: Raster) -> nat;

/// Relies on image's `ImageBuffer::new`: a `width` by `height` image whose
/// buffer holds four zero bytes per pixel; it panics when that length
/// overflows `usize`.
#[verifier::external_body]
fn blank_raster(width: u32, height: u32) -> (r: Raster)
    requires
        4 * width * height <= usize::MAX,
    ensures
        raster_width(r) == width,
        raster_height(r) == height,
        raster_bytes(r) == Seq::new((4 * width * height) as nat, |i: int| 0u8),
{
    Raster { img: RgbaImage::new(width, height) }
}

/// Relies on image's `ImageBuffer::put_pixel`: the four channels are written
/// at byte `4 * (y * width + x)` and nothing else changes; it panics outside
/// the image.
#[verifier::external_body]
fn put_raster_pixel(r: &mut Raster, x: u32, y: u32, px: [u8; 4])
    requires
        x < raster_width(*old(r)),
        y < raster_height(*old(r)),
    ensures
        raster_width(*final(r)) == raster_width(*old(r)),
        raster_height(*final(r)) == raster_height(*old(r)),
        raster_bytes(*final(r)) == raster_bytes(*old(r)).update(
            4 * (y * raster_width(*old(r)) + x),
            px[0],
        ).update(4 * (y * raster_width(*old(r)) + x) + 1, px[1]).update(
            4 * (y * raster_width(*old(r)) + x) + 2,
            px[2],
        ).update(4 * (y * raster_width(*old(r)) + x) + 3, px[3]),
{
    r.img.put_pixel(x, y, image::Rgba(px));
}

/// Relies on image's `ImageBuffer::width`: the width given at creation.
#[verifier::external_body]
fn raster_width_of(r: &Raster) -> (w: u32)
    ensures
        w == raster_width(*r),
{
    r.img.width()
}

/// Relies on image's `ImageBuffer::height`: the height given at creation.
#[verifier::external_body]
fn raster_height_of(r: &Raster) -> (h: u32)
    ensures
        h == raster_height(*r),
{
    r.img.height()
}

/// Relies on image's `ImageBuffer::into_raw`: the buffer itself.
#[verifier::external_body]
fn raster_into_raw(r: Raster) -> (b: Vec<u8>)
    ensures
        b@ == raster_bytes(r),
{
    r.img.into_raw()
}

impl Raster {
    /// A `width` by `height` raster with every byte zero.
    pub fn blank(width: u32, height: u32) -> (r: Raster)
        requires
            4 * width * height <= usize::MAX,
        ensures
            raster_width(r) == width,
            raster_height(r) == height,
            raster_bytes(r) == Seq::new((4 * width * height) as nat, |i: int| 0u8),
    {
        blank_raster(width, height)
    }

    /// Sets pixel `(x, y)` to `px`.
    pub fn put(&mut self, x: u32, y: u32, px: [u8; 4])
        requires
            x < raster_width(*old(self)),
            y < raster_height(*old(self)),
        ensures
            raster_width(*final(self)) == raster_width(*old(self)),
            raster_height(*final(self)) == raster_height(*old(self)),
            raster_bytes(*final(self)) == raster_bytes(*old(self)).update(
                4 * (y * raster_width(*old(self)) + x),
                px[0],
            ).update(4 * (y * raster_width(*old(self)) + x) + 1, px[1]).update(
                4 * (y * raster_width(*old(self)) + x) + 2,
                px[2],
            ).update(4 * (y * raster_width(*old(self)) + x) + 3, px[3]),
    {
        put_raster_pixel(self, x, y, px)
    }

    pub fn width(&self) -> (w: u32)
        ensures
            w == raster_width(*self),
    {
        raster_width_of(self)
    }

    pub fn height(&self) -> (h: u32)
        ensures
            h == raster_height(*self),
    {
        raster_height_of(self)
    }

    /// The bytes, four per pixel, row after row.
    pub fn into_bytes(self) -> (b: Vec<u8>)
        ensures
            b@ == raster_bytes(self),
    {
        raster_into_raw(self)
    }
}

} // verus!
