//! Pixels and the framebuffer, both kept in the types of the `image` crate.

use vstd::prelude::*;

verus! {

#[verifier::external_type_specification]
#[verifier::external_body]
#[verifier::reject_recursive_types(T)]
pub struct ExRgb<T>(image::Rgb<T>);

/// The red, green and blue channel that a pixel holds.
pub uninterp spec fn rgb_channels(px: image::Rgb<u8>) -> (u8, u8, u8);

/// The pixels that a framebuffer holds, by column `x` and row `y`.
pub uninterp spec fn frame_pixels(fb: Framebuffer) -> Map<(int, int), (u8, u8, u8)>;

/// The width and the height with which a framebuffer was made.
pub uninterp spec fn frame_size(fb: Framebuffer) -> (int, int);

/// The positions of an image of the given size.
pub open spec fn positions(width: int, height: int) -> Set<(int, int)> {
    Set::new(|p: (int, int)| 0 <= p.0 < width && 0 <= p.1 < height)
}

/// `image::Rgb` built from its three channels, which it holds in that order.
#[verifier::external_body]
pub(crate) fn rgb8(r: u8, g: u8, b: u8) -> (px: image::Rgb<u8>)
    ensures
        rgb_channels(px) == (r, g, b),
{
    image::Rgb([r, g, b])
}

/// The three channels of an `image::Rgb`, read from its array.
#[verifier::external_body]
fn rgb_parts(px: &image::Rgb<u8>) -> (c: (u8, u8, u8))
    ensures
        c == rgb_channels(*px),
{
    (px.0[0], px.0[1], px.0[2])
}

/// An image of the given size can be held: the count of the channels of one
/// row, `3 * width`, fits `usize`, and the count of all channels,
/// `3 * width * height`, is no more than the `isize::MAX` bytes that a vector
/// may hold.
pub open spec fn fits(width: u32, height: u32) -> bool {
    3 * width <= usize::MAX && 3 * width * height <= isize::MAX
}

/// `image::ImageBuffer::new`: an image of the given size whose every channel
/// is zero. It multiplies the three channels by the width and the product by
/// the height and panics where either product exceeds `usize`; the vector
/// that it then makes panics beyond `isize::MAX` bytes.
#[verifier::external_body]
fn image_blank(width: u32, height: u32) -> (fb: Framebuffer)
    requires
        fits(width, height),
    ensures
        frame_size(fb) == (width as int, height as int),
        frame_pixels(fb) == Map::new(
            |p: (int, int)| positions(width as int, height as int).contains(p),
            |p: (int, int)| (0u8, 0u8, 0u8),
        ),
{
    Framebuffer { image: image::ImageBuffer::new(width, height) }
}

/// `image::ImageBuffer::put_pixel`: replaces the pixel at column `x` and
/// row `y` and nothing else. It panics outside the image.
#[verifier::external_body]
fn image_put(fb: &mut Framebuffer, x: u32, y: u32, px: image::Rgb<u8>)
    requires
        x < frame_size(*old(fb)).0,
        y < frame_size(*old(fb)).1,
    ensures
        frame_size(*final(fb)) == frame_size(*old(fb)),
        frame_pixels(*final(fb)) == frame_pixels(*old(fb)).insert(
            (x as int, y as int),
            rgb_channels(px),
        ),
{
    fb.image.put_pixel(x, y, px)
}

/// `image::ImageBuffer::get_pixel`: the pixel at column `x` and row `y`. It
/// panics outside the image.
#[verifier::external_body]
fn image_get(fb: &Framebuffer, x: u32, y: u32) -> (px: image::Rgb<u8>)
    requires
        x < frame_size(*fb).0,
        y < frame_size(*fb).1,
    ensures
        rgb_channels(px) == frame_pixels(*fb)[(x as int, y as int)],
{
    *fb.image.get_pixel(x, y)
}

/// `image::ImageBuffer::width`.
#[verifier::external_body]
fn image_width(fb: &Framebuffer) -> (w: u32)
    ensures
        w == frame_size(*fb).0,
{
    fb.image.width()
}

/// `image::ImageBuffer::height`.
#[verifier::external_body]
fn image_height(fb: &Framebuffer) -> (h: u32)
    ensures
        h == frame_size(*fb).1,
{
    fb.image.height()
}

/// `image::ImageBuffer::into_raw`: the channels of all pixels in one vector,
/// row after row from the top, within a row from the left, within a pixel
/// red, green, blue.
#[verifier::external_body]
fn image_into_raw(fb: Framebuffer) -> (raw: Vec<u8>)
    ensures
        raw@.len() == 3 * frame_size(fb).0 * frame_size(fb).1,
        forall|x: int, y: int|
            0 <= x < frame_size(fb).0 && 0 <= y < frame_size(fb).1 ==> {
                let at = 3 * (y * frame_size(fb).0 + x);
                (raw@[at], raw@[at + 1], raw@[at + 2]) == #[trigger] frame_pixels(fb)[(x, y)]
            },
{
    fb.image.into_raw()
}

/// The image under construction: a grid of pixels of three bytes each.
#[verifier::external_body]
pub struct Framebuffer {
    image: image::RgbImage,
}

impl Framebuffer {
    /// The width in pixels.
    pub open spec fn width_spec(self) -> int {
        frame_size(self).0
    }

    /// The height in pixels.
    pub open spec fn height_spec(self) -> int {
        frame_size(self).1
    }

    /// The pixel at column `x` and row `y`.
    pub open spec fn pixel(self, x: int, y: int) -> (u8, u8, u8) {
        frame_pixels(self)[(x, y)]
    }

    /// The framebuffer holds a pixel at every position of its size and
    /// nowhere else, and the size is that of `u32` coordinates.
    pub open spec fn wf(self) -> bool {
        &&& 0 <= self.width_spec() <= u32::MAX
        &&& 0 <= self.height_spec() <= u32::MAX
        &&& frame_pixels(self).dom() =~= positions(self.width_spec(), self.height_spec())
    }

    /// A black framebuffer of the given size; `None` where an image of that
    /// size cannot be held.
    pub fn new(width: u32, height: u32) -> (res: Option<Framebuffer>)
        ensures
            res.is_some() == fits(width, height),
            res matches Some(fb) ==> {
                &&& fb.wf()
                &&& fb.width_spec() == width
                &&& fb.height_spec() == height
                &&& forall|x: int, y: int|
                    0 <= x < width && 0 <= y < height ==> #[trigger] fb.pixel(x, y) == (
                        0u8,
                        0u8,
                        0u8,
                    )
            },
    {
        assert(width * height <= 0xffff_ffff * 0xffff_ffff) by (nonlinear_arith)
            requires
                width <= 0xffff_ffff,
                height <= 0xffff_ffff,
        ;
        assert(3 * width * height == 3 * (width * height)) by (nonlinear_arith);
        let row: u128 = 3 * width as u128;
        let bytes: u128 = 3 * (width as u128 * height as u128);
        if row <= usize::MAX as u128 && bytes <= isize::MAX as u128 {
            let fb = image_blank(width, height);
            assert forall|x: int, y: int| 0 <= x < width && 0 <= y < height implies #[trigger] fb.pixel(
                x,
                y,
            ) == (0u8, 0u8, 0u8) by {
                assert(positions(width as int, height as int).contains((x, y)));
            }
            Some(fb)
        } else {
            None
        }
    }

    /// The width in pixels.
    pub fn width(&self) -> (w: u32)
        ensures
            w == self.width_spec(),
    {
        image_width(self)
    }

    /// The height in pixels.
    pub fn height(&self) -> (h: u32)
        ensures
            h == self.height_spec(),
    {
        image_height(self)
    }

    /// Writes the pixel at column `x` and row `y`, which must lie inside the
    /// image. No other pixel changes.
    pub fn put_pixel(&mut self, x: u32, y: u32, pixel: image::Rgb<u8>)
        requires
            old(self).wf(),
            x < old(self).width_spec(),
            y < old(self).height_spec(),
        ensures
            final(self).wf(),
            final(self).width_spec() == old(self).width_spec(),
            final(self).height_spec() == old(self).height_spec(),
            final(self).pixel(x as int, y as int) == rgb_channels(pixel),
            forall|i: int, j: int|
                (i, j) != (x as int, y as int) ==> #[trigger] final(self).pixel(i, j) == old(
                    self,
                ).pixel(i, j),
    {
        proof {
            assert(positions(self.width_spec(), self.height_spec()).contains((x as int, y as int)));
        }
        image_put(self, x, y, pixel);
    }

    /// The channels of the pixel at column `x` and row `y`, which must lie
    /// inside the image.
    pub fn get_pixel(&self, x: u32, y: u32) -> (c: (u8, u8, u8))
        requires
            x < self.width_spec(),
            y < self.height_spec(),
        ensures
            c == self.pixel(x as int, y as int),
    {
        let px = image_get(self, x, y);
        rgb_parts(&px)
    }

    /// The bytes of the image: row after row from the top, within a row from
    /// the left, within a pixel red, green, blue.
    pub fn into_raw(self) -> (raw: Vec<u8>)
        ensures
            raw@.len() == 3 * self.width_spec() * self.height_spec(),
            forall|x: int, y: int|
                0 <= x < self.width_spec() && 0 <= y < self.height_spec() ==> {
                    let at = 3 * (y * self.width_spec() + x);
                    (raw@[at], raw@[at + 1], raw@[at + 2]) == #[trigger] self.pixel(x, y)
                },
    {
        image_into_raw(self)
    }
}

} // verus!
