use vstd::prelude::*;
use image::{Rgb, RgbImage};

verus! {

/// The pixel buffer a camera renders into: an 8-bit RGB image of the image
/// crate, held opaque.
#[verifier::external_body]
pub struct Film {
    image: RgbImage,
}

/// Width and height of a film.
pub uninterp spec fn film_size(f: Film) -> (u32, u32);

/// The colour of every pixel of a film, keyed by column and row.
pub uninterp spec fn film_pixels(f: Film) -> Map<(u32, u32), (u8, u8, u8)>;

/// The positions of a `w` by `h` grid of pixels.
pub open spec fn cells(w: u32, h: u32) -> Set<(u32, u32)> {
    Set::new(|p: (u32, u32)| p.0 < w && p.1 < h)
}

/// The pixel at `(x, y)` is stored at byte `3 * (y * w + x)` of a film that is
/// `w` pixels wide, its red, green and blue channels one after the other.
pub open spec fn pixel_offset(x: int, y: int, w: int) -> int {
    3 * (y * w + x)
}

/// Relies on `ImageBuffer::new`: a buffer of the given size whose channels
/// are all zero. It panics when the byte count overflows `usize`.
#[verifier::external_body]
fn film_blank(width: u32, height: u32) -> (r: Film)
    requires
        3 * width * height <= usize::MAX,
    ensures
        film_size(r) == (width, height),
        film_pixels(r).dom() == cells(width, height),
        forall|p: (u32, u32)| #[trigger] cells(width, height).contains(p) ==> film_pixels(r)[p] == (0u8, 0u8, 0u8),
{
    Film { image: RgbImage::new(width, height) }
}

/// Relies on `ImageBuffer::dimensions`: the width and height given at
/// construction.
#[verifier::external_body]
fn film_dimensions(f: &Film) -> (r: (u32, u32))
    ensures
        r == film_size(*f),
{
    f.image.dimensions()
}

/// Relies on `ImageBuffer::put_pixel`: overwrites the one pixel at `(x, y)`,
/// and panics outside the image.
#[verifier::external_body]
fn film_put(f: &mut Film, x: u32, y: u32, rgb: [u8; 3])
    requires
        x < film_size(*old(f)).0,
        y < film_size(*old(f)).1,
    ensures
        film_size(*final(f)) == film_size(*old(f)),
        film_pixels(*final(f)) == film_pixels(*old(f)).insert((x, y), (rgb[0], rgb[1], rgb[2])),
{
    f.image.put_pixel(x, y, Rgb(rgb))
}

/// Relies on `ImageBuffer::as_raw`: the channels of all pixels, row after
/// row, three bytes per pixel.
#[verifier::external_body]
fn film_raw(f: &Film) -> (r: Vec<u8>)
    ensures
        r@.len() == 3 * film_size(*f).0 * film_size(*f).1,
        forall|x: u32, y: u32|
            x < film_size(*f).0 && y < film_size(*f).1 ==> {
                let c = #[trigger] film_pixels(*f)[(x, y)];
                let o = pixel_offset(x as int, y as int, film_size(*f).0 as int);
                r@[o] == c.0 && r@[o + 1] == c.1 && r@[o + 2] == c.2
            },
{
    f.image.as_raw().clone()
}

impl Film {
    pub open spec fn width(self) -> u32 {
        film_size(self).0
    }

    pub open spec fn height(self) -> u32 {
        film_size(self).1
    }

    /// A black film of `width` by `height` pixels.
    pub fn new(width: u32, height: u32) -> (r: Film)
        requires
            3 * width * height <= usize::MAX,
        ensures
            r.width() == width,
            r.height() == height,
            film_pixels(r).dom() == cells(width, height),
            forall|p: (u32, u32)| #[trigger] cells(width, height).contains(p) ==> film_pixels(r)[p] == (0u8, 0u8, 0u8),
    {
        film_blank(width, height)
    }

    /// Width and height in pixels.
    pub fn dimensions(&self) -> (r: (u32, u32))
        ensures
            r == (self.width(), self.height()),
    {
        film_dimensions(self)
    }

    /// Writes the colour of pixel `(i, j)`, leaving every other pixel as it
    /// was.
    pub fn set_pixel(&mut self, i: u32, j: u32, rgb: [u8; 3])
        requires
            i < old(self).width(),
            j < old(self).height(),
        ensures
            final(self).width() == old(self).width(),
            final(self).height() == old(self).height(),
            film_pixels(*final(self)) == film_pixels(*old(self)).insert((i, j), (rgb[0], rgb[1], rgb[2])),
    {
        film_put(self, i, j, rgb)
    }

    /// The image as raw bytes: rows from top to bottom, pixels from left to
    /// right, three channels per pixel.
    pub fn to_bytes(&self) -> (r: Vec<u8>)
        ensures
            r@.len() == 3 * self.width() * self.height(),
            forall|x: u32, y: u32|
                x < self.width() && y < self.height() ==> {
                    let c = #[trigger] film_pixels(*self)[(x, y)];
                    let o = pixel_offset(x as int, y as int, self.width() as int);
                    r@[o] == c.0 && r@[o + 1] == c.1 && r@[o + 2] == c.2
                },
    {
        film_raw(self)
    }
}

/// Orthographic debugging camera: it only owns the film it renders into.
pub struct Camera2D {
    image: Film,
}

impl Camera2D {
    pub closed spec fn film(&self) -> Film {
        self.image
    }

    /// A camera with a black film of `res_x` by `res_y` pixels.
    pub fn new(res_x: u32, res_y: u32) -> (r: Camera2D)
        requires
            3 * res_x * res_y <= usize::MAX,
        ensures
            r.film().width() == res_x,
            r.film().height() == res_y,
            film_pixels(r.film()).dom() == cells(res_x, res_y),
            forall|p: (u32, u32)| #[trigger] cells(res_x, res_y).contains(p) ==> film_pixels(r.film())[p] == (0u8, 0u8, 0u8),
    {
        Camera2D { image: Film::new(res_x, res_y) }
    }

    /// The film the camera renders into.
    pub fn image(&self) -> (r: &Film)
        ensures
            *r == self.film(),
    {
        &self.image
    }

    /// Writes pixel `(i, j)` of the camera's film.
    pub fn set_pixel(&mut self, i: u32, j: u32, rgb: [u8; 3])
        requires
            i < old(self).film().width(),
            j < old(self).film().height(),
        ensures
            final(self).film().width() == old(self).film().width(),
            final(self).film().height() == old(self).film().height(),
            film_pixels(final(self).film()) == film_pixels(old(self).film()).insert((i, j), (rgb[0], rgb[1], rgb[2])),
    {
        self.image.set_pixel(i, j, rgb)
    }
}

} // verus!
