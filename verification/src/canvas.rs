//! The pixel canvas the tray icon is drawn on: an `image::RgbaImage`,
//! reached through a few trusted calls, and the painting model that the
//! drawing code is verified against.
use image::{DynamicImage, ImageBuffer, ImageError, ImageFormat, Rgba};
use vstd::prelude::*;

verus! {

#[verifier::external_type_specification]
#[verifier::external_body]
pub struct ExImageError(ImageError);

/// A colour: red, green, blue and alpha channels.
#[derive(Clone, Copy, Debug, PartialEq, Eq, Structural)]
pub struct Color {
    pub red: u8,
    pub green: u8,
    pub blue: u8,
    pub alpha: u8,
}

impl Color {
    pub fn new(red: u8, green: u8, blue: u8, alpha: u8) -> (color: Color)
        ensures
            color == (Color { red, green, blue, alpha }),
    {
        Color { red, green, blue, alpha }
    }
}

/// An RGBA image held by the `image` crate, in a private field that only
/// the trusted calls below touch.
#[verifier::external_body]
pub struct Canvas {
    image: ImageBuffer<Rgba<u8>, Vec<u8>>,
}

/// The pixels of a canvas, row by row: the pixel at `(x, y)` is element
/// `y * width + x`.
pub uninterp spec fn canvas_pixels(canvas: Canvas) -> Seq<Color>;

/// The `(width, height)` a canvas was made with.
pub uninterp spec fn canvas_size(canvas: Canvas) -> (u32, u32);

/// The PNG file that the `image` crate writes for an RGBA image with these
/// pixels and dimensions.
pub uninterp spec fn png_bytes(pixels: Seq<Color>, width: u32, height: u32) -> Seq<u8>;

/// The RGBA image (pixels, width, height) that the `image` crate's PNG
/// decoder gives for these bytes, or `None` where it reports an error.
pub uninterp spec fn decoded_image(bytes: Seq<u8>) -> Option<(Seq<Color>, u32, u32)>;

/// A canvas holds one pixel per position.
pub open spec fn canvas_wf(canvas: Canvas) -> bool {
    canvas_pixels(canvas).len() == canvas_size(canvas).0 * canvas_size(canvas).1
}

/// `ImageBuffer::from_pixel`: a `width` by `height` canvas with every pixel
/// set to `color`. It panics where the buffer's byte length
/// overflows `usize`; that input is left out.
#[verifier::external_body]
pub(crate) fn new_canvas(width: u32, height: u32, color: Color) -> (canvas: Canvas)
    requires
        4 * width * height <= usize::MAX,
    ensures
        canvas_size(canvas) == (width, height),
        canvas_pixels(canvas) == Seq::new((width * height) as nat, |i: int| color),
{
    Canvas {
        image: ImageBuffer::from_pixel(
            width,
            height,
            Rgba([color.red, color.green, color.blue, color.alpha]),
        ),
    }
}

/// `ImageBuffer::width`: the width the canvas was made with.
#[verifier::external_body]
pub(crate) fn canvas_width(canvas: &Canvas) -> (width: u32)
    ensures
        width == canvas_size(*canvas).0,
{
    canvas.image.width()
}

/// `ImageBuffer::height`: the height the canvas was made with.
#[verifier::external_body]
pub(crate) fn canvas_height(canvas: &Canvas) -> (height: u32)
    ensures
        height == canvas_size(*canvas).1,
{
    canvas.image.height()
}

/// `ImageBuffer::put_pixel`: sets the pixel at `(x, y)` and nothing else.
/// It panics outside the canvas; that input is left out.
#[verifier::external_body]
pub(crate) fn put_pixel(
    canvas: &mut Canvas,
    x: u32,
    y: u32,
    color: Color,
)
    requires
        x < canvas_size(*old(canvas)).0,
        y < canvas_size(*old(canvas)).1,
    ensures
        canvas_size(*final(canvas)) == canvas_size(*old(canvas)),
        canvas_pixels(*final(canvas)) == canvas_pixels(*old(canvas)).update(
            y * canvas_size(*old(canvas)).0 + x,
            color,
        ),
{
    canvas.image.put_pixel(x, y, Rgba([color.red, color.green, color.blue, color.alpha]))
}

/// `ImageBuffer::get_pixel`: the pixel at `(x, y)`. It panics
/// outside the canvas; that input is left out.
#[verifier::external_body]
fn get_pixel(canvas: &Canvas, x: u32, y: u32) -> (color: Color)
    requires
        x < canvas_size(*canvas).0,
        y < canvas_size(*canvas).1,
    ensures
        color == canvas_pixels(*canvas)[y * canvas_size(*canvas).0 + x],
{
    let pixel = canvas.image.get_pixel(x, y);
    Color { red: pixel.0[0], green: pixel.0[1], blue: pixel.0[2], alpha: pixel.0[3] }
}

impl Canvas {
    /// The width of the canvas.
    pub fn width(&self) -> (width: u32)
        ensures
            width == canvas_size(*self).0,
    {
        canvas_width(self)
    }

    /// The height of the canvas.
    pub fn height(&self) -> (height: u32)
        ensures
            height == canvas_size(*self).1,
    {
        canvas_height(self)
    }

    /// The colour of the pixel at `(x, y)`.
    pub fn pixel(&self, x: u32, y: u32) -> (color: Color)
        requires
            x < canvas_size(*self).0,
            y < canvas_size(*self).1,
        ensures
            color == canvas_pixels(*self)[y * canvas_size(*self).0 + x],
    {
        get_pixel(self, x, y)
    }
}

/// `DynamicImage::write_to` with `ImageFormat::Png` into memory: on success
/// the bytes are the PNG file of the canvas. The PNG writer refuses only an
/// image of zero width or height (writing into a `Vec` does not fail), so a
/// canvas with both dimensions positive always encodes.
#[verifier::external_body]
pub(crate) fn encode_png(canvas: Canvas) -> (encoded: Result<Vec<u8>, ImageError>)
    ensures
        encoded matches Ok(bytes) ==> bytes@ == png_bytes(
            canvas_pixels(canvas),
            canvas_size(canvas).0,
            canvas_size(canvas).1,
        ),
        0 < canvas_size(canvas).0 && 0 < canvas_size(canvas).1 ==> encoded is Ok,
{
    let mut png = Vec::new();
    DynamicImage::ImageRgba8(canvas.image).write_to(&mut std::io::Cursor::new(&mut png), ImageFormat::Png)?;
    Ok(png)
}

/// `image::load_from_memory_with_format` with `ImageFormat::Png`, followed
/// by `DynamicImage::to_rgba8`: the decoded image as an RGBA canvas, or the
/// decoder's error. With the format given, the built-in PNG decoder is used
/// under default limits (no registered detection or decoding hook is
/// consulted), so the outcome depends on the bytes alone. The PNG decoder
/// refuses an image of zero width or height.
#[verifier::external_body]
pub(crate) fn decode_image(bytes: &[u8]) -> (decoded: Result<Canvas, ImageError>)
    ensures
        match decoded {
            Ok(canvas) => {
                &&& canvas_wf(canvas)
                &&& 0 < canvas_size(canvas).0
                &&& 0 < canvas_size(canvas).1
                &&& decoded_image(bytes@) == Some(
                    (canvas_pixels(canvas), canvas_size(canvas).0, canvas_size(canvas).1),
                )
            },
            Err(_) => decoded_image(bytes@) is None,
        },
{
    Ok(Canvas { image: image::load_from_memory_with_format(bytes, ImageFormat::Png)?.to_rgba8() })
}

/// A filled rectangle: the pixels `(px, py)` with `x <= px < x + width` and
/// `y <= py < y + height`, in `color`.
#[derive(Clone, Copy, Debug, PartialEq, Eq, Structural)]
pub struct FilledRect {
    pub x: i32,
    pub y: i32,
    pub width: i32,
    pub height: i32,
    pub color: Color,
}

/// Whether the rectangle covers the pixel at `(px, py)`.
pub open spec fn covers(rect: FilledRect, px: int, py: int) -> bool {
    rect.x <= px < rect.x + rect.width && rect.y <= py < rect.y + rect.height
}

/// The pixels (row by row, `width` to a row) after filling `rect`.
pub open spec fn paint(pixels: Seq<Color>, width: int, rect: FilledRect) -> Seq<Color> {
    Seq::new(
        pixels.len(),
        |i: int|
            if covers(rect, i % width, i / width) {
                rect.color
            } else {
                pixels[i]
            },
    )
}

/// The pixels after filling each rectangle of `rects` in order, later ones
/// over earlier ones.
pub open spec fn paint_all(pixels: Seq<Color>, width: int, rects: Seq<FilledRect>) -> Seq<
    Color,
>
    decreases rects.len(),
{
    if rects.len() == 0 {
        pixels
    } else {
        paint(paint_all(pixels, width, rects.drop_last()), width, rects.last())
    }
}

/// Painting `a` and then `b` is painting `a + b`.
pub proof fn lemma_paint_all_concat(
    pixels: Seq<Color>,
    width: int,
    a: Seq<FilledRect>,
    b: Seq<FilledRect>,
)
    ensures
        paint_all(paint_all(pixels, width, a), width, b) == paint_all(pixels, width, a + b),
    decreases b.len(),
{
    if b.len() > 0 {
        lemma_paint_all_concat(pixels, width, a, b.drop_last());
        assert((a + b).drop_last() =~= a + b.drop_last());
        assert((a + b).last() == b.last());
    }
}

/// Painting one more rectangle.
pub proof fn lemma_paint_all_push(
    pixels: Seq<Color>,
    width: int,
    a: Seq<FilledRect>,
    rect: FilledRect,
)
    ensures
        paint(paint_all(pixels, width, a), width, rect) == paint_all(pixels, width, a.push(rect)),
{
    assert(a.push(rect).drop_last() =~= a);
}

/// Painting keeps the number of pixels.
pub proof fn lemma_paint_all_len(pixels: Seq<Color>, width: int, rects: Seq<FilledRect>)
    ensures
        paint_all(pixels, width, rects).len() == pixels.len(),
    decreases rects.len(),
{
    if rects.len() > 0 {
        lemma_paint_all_len(pixels, width, rects.drop_last());
    }
}

/// A pixel that none of `a` covers looks after painting `a + b` as after
/// painting `b` alone.
pub proof fn lemma_paint_all_skips_uncovered(
    pixels: Seq<Color>,
    width: int,
    a: Seq<FilledRect>,
    b: Seq<FilledRect>,
    i: int,
)
    requires
        0 <= i < pixels.len(),
        forall|k: int| 0 <= k < a.len() ==> !covers(#[trigger] a[k], i % width, i / width),
    ensures
        paint_all(pixels, width, a + b)[i] == paint_all(pixels, width, b)[i],
    decreases a.len() + b.len(),
{
    lemma_paint_all_len(pixels, width, a + b);
    lemma_paint_all_len(pixels, width, b);
    if b.len() == 0 {
        assert(a + b =~= a);
        if a.len() > 0 {
            lemma_paint_all_skips_uncovered(pixels, width, a.drop_last(), b, i);
            assert(a.drop_last() + b =~= a.drop_last());
            lemma_paint_all_len(pixels, width, a.drop_last());
            assert(!covers(a[a.len() - 1], i % width, i / width));
        }
    } else {
        lemma_paint_all_skips_uncovered(pixels, width, a, b.drop_last(), i);
        assert((a + b).drop_last() =~= a + b.drop_last());
        assert((a + b).last() == b.last());
        lemma_paint_all_len(pixels, width, a + b.drop_last());
        lemma_paint_all_len(pixels, width, b.drop_last());
    }
}

/// A painted pixel shows the colour of some rectangle that covers it, or
/// its original colour when none does.
pub proof fn lemma_paint_all_pixel(pixels: Seq<Color>, width: int, rects: Seq<FilledRect>, i: int)
    requires
        0 <= i < pixels.len(),
    ensures
        (exists|k: int| 0 <= k < rects.len() && covers(#[trigger] rects[k], i % width, i / width))
            ==> exists|k: int|
            0 <= k < rects.len() && covers(#[trigger] rects[k], i % width, i / width)
                && paint_all(pixels, width, rects)[i] == rects[k].color,
        (forall|k: int| 0 <= k < rects.len() ==> !covers(#[trigger] rects[k], i % width, i / width))
            ==> paint_all(pixels, width, rects)[i] == pixels[i],
    decreases rects.len(),
{
    if rects.len() > 0 {
        let prefix = rects.drop_last();
        let last = rects.last();
        lemma_paint_all_pixel(pixels, width, prefix, i);
        lemma_paint_all_len(pixels, width, prefix);
        assert forall|k: int| 0 <= k < prefix.len() implies #[trigger] prefix[k] == rects[k] by {}
        if covers(last, i % width, i / width) {
            assert(covers(rects[rects.len() - 1], i % width, i / width));
        } else if exists|k: int|
            0 <= k < rects.len() && covers(#[trigger] rects[k], i % width, i / width) {
            let k = choose|k: int|
                0 <= k < rects.len() && covers(#[trigger] rects[k], i % width, i / width);
            assert(k < prefix.len());
            assert(covers(prefix[k], i % width, i / width));
            let k2 = choose|k2: int|
                0 <= k2 < prefix.len() && covers(#[trigger] prefix[k2], i % width, i / width)
                    && paint_all(pixels, width, prefix)[i] == prefix[k2].color;
            assert(covers(rects[k2], i % width, i / width));
        } else {
            assert forall|k: int| 0 <= k < prefix.len() implies !covers(
                #[trigger] prefix[k],
                i % width,
                i / width,
            ) by {
                assert(prefix[k] == rects[k]);
            }
        }
    }
}

} // verus!
