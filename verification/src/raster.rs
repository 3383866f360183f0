//! A raster of RGB pixels, kept in an `image::RgbImage`, and the two
//! generators that fill one: the coordinate gradient and the Julia set.

use vstd::prelude::*;
use vstd::arithmetic::div_mod::{lemma_fundamental_div_mod_converse, lemma_multiply_divide_lt};
use crate::gradient::{Color, gradient_channel, gradient_color, gradient_level, gradient_pixel};
use crate::julia::{
    escape_count,
    escape_time,
    lemma_escape_time_counts,
    plane_coordinate,
    FRACTAL_SIDE,
};

verus! {

/// A grid of pixels with a fixed width and height. The samples live in an
/// `image::RgbImage`, which the verifier does not look into: it knows a
/// raster by [`raster_size`] and [`raster_pixels`] alone.
#[verifier::external_body]
pub struct Raster {
    buf: image::RgbImage,
}

/// Width and height of a raster, in pixels.
pub uninterp spec fn raster_size(raster: Raster) -> (nat, nat);

/// The colours a raster holds, by pixel coordinate `(x, y)`.
pub uninterp spec fn raster_pixels(raster: Raster) -> Map<(int, int), Color>;

/// `image::ImageBuffer::new`: a buffer of the given size whose every sample
/// is zero. The outside function panics when the sample count overflows
/// `usize`, which the precondition rules out.
#[verifier::external_body]
fn new_buffer(width: u32, height: u32) -> (raster: Raster)
    requires
        3 * width * height <= usize::MAX,
    ensures
        raster_size(raster) == (width as nat, height as nat),
        forall|x: int, y: int|
            0 <= x < width && 0 <= y < height ==> #[trigger] raster_pixels(raster)[(x, y)] == (
            Color { red: 0, green: 0, blue: 0 }),
{
    Raster { buf: image::ImageBuffer::new(width, height) }
}

/// `image::ImageBuffer::put_pixel`: stores one colour at `(x, y)` and leaves
/// the size and every other pixel as they were. The outside function panics
/// on coordinates outside the buffer, which the precondition rules out.
#[verifier::external_body]
fn put_pixel(raster: &mut Raster, x: u32, y: u32, color: Color)
    requires
        x < raster_size(*old(raster)).0,
        y < raster_size(*old(raster)).1,
    ensures
        raster_size(*final(raster)) == raster_size(*old(raster)),
        raster_pixels(*final(raster)) == raster_pixels(*old(raster)).insert(
            (x as int, y as int),
            color,
        ),
{
    raster.buf.put_pixel(x, y, image::Rgb([color.red, color.green, color.blue]))
}

/// `image::ImageBuffer::get_pixel`: the colour stored at `(x, y)`. The
/// outside function panics on coordinates outside the buffer, which the
/// precondition rules out.
#[verifier::external_body]
fn get_pixel(raster: &Raster, x: u32, y: u32) -> (color: Color)
    requires
        x < raster_size(*raster).0,
        y < raster_size(*raster).1,
    ensures
        color == raster_pixels(*raster)[(x as int, y as int)],
{
    let pixel = raster.buf.get_pixel(x, y);
    Color { red: pixel.0[0], green: pixel.0[1], blue: pixel.0[2] }
}

/// `image::ImageBuffer::dimensions`: the width and height the buffer was
/// made with.
#[verifier::external_body]
fn dimensions(raster: &Raster) -> (size: (u32, u32))
    ensures
        size.0 == raster_size(*raster).0,
        size.1 == raster_size(*raster).1,
{
    raster.buf.dimensions()
}

/// The sample at index `i` of a raster written out row by row, three
/// samples to a pixel: red, green, blue.
pub open spec fn sample_at(raster: Raster, i: int) -> u8 {
    let width = raster_size(raster).0 as int;
    let color = raster_pixels(raster)[((i / 3) % width, (i / 3) / width)];
    if i % 3 == 0 {
        color.red
    } else if i % 3 == 1 {
        color.green
    } else {
        color.blue
    }
}

/// A raster written out row by row, as an encoder takes it.
pub open spec fn sample_sequence(raster: Raster) -> Seq<u8> {
    Seq::new(3 * raster_size(raster).0 * raster_size(raster).1, |i: int| sample_at(raster, i))
}

impl Raster {
    /// The raster's width in pixels.
    pub fn width(&self) -> (width: u32)
        ensures
            width == raster_size(*self).0,
    {
        dimensions(self).0
    }

    /// The raster's height in pixels.
    pub fn height(&self) -> (height: u32)
        ensures
            height == raster_size(*self).1,
    {
        dimensions(self).1
    }

    /// The colour at `(x, y)`, or `None` for a coordinate outside the
    /// raster.
    pub fn pixel(&self, x: u32, y: u32) -> (color: Option<Color>)
        ensures
            color == (if x < raster_size(*self).0 && y < raster_size(*self).1 {
                Some(raster_pixels(*self)[(x as int, y as int)])
            } else {
                None
            }),
    {
        let (width, height) = dimensions(self);
        if x < width && y < height {
            Some(get_pixel(self, x, y))
        } else {
            None
        }
    }

    /// Writes the raster out row by row, three samples to a pixel.
    pub fn to_samples(&self) -> (samples: Vec<u8>)
        ensures
            samples@ == sample_sequence(*self),
    {
        let (width, height) = dimensions(self);
        let mut samples: Vec<u8> = Vec::new();
        let mut y: u32 = 0;
        while y < height
            invariant
                y <= height,
                raster_size(*self) == (width as nat, height as nat),
                samples@ =~= Seq::new((3 * (y * width)) as nat, |i: int| sample_at(*self, i)),
            decreases height - y,
        {
            let mut x: u32 = 0;
            while x < width
                invariant
                    x <= width,
                    y < height,
                    raster_size(*self) == (width as nat, height as nat),
                    samples@ =~= Seq::new(
                        (3 * (y * width + x)) as nat,
                        |i: int| sample_at(*self, i),
                    ),
                decreases width - x,
            {
                let color = get_pixel(self, x, y);
                proof {
                    let at = y * width + x;
                    assert(y * width >= 0) by (nonlinear_arith);
                    lemma_fundamental_div_mod_converse(at, width as int, y as int, x as int);
                    assert(sample_at(*self, 3 * at) == color.red);
                    assert(sample_at(*self, 3 * at + 1) == color.green);
                    assert(sample_at(*self, 3 * at + 2) == color.blue);
                }
                samples.push(color.red);
                samples.push(color.green);
                samples.push(color.blue);
                x = x + 1;
            }
            proof {
                assert(y * width + width == (y + 1) * width) by (nonlinear_arith);
            }
            y = y + 1;
        }
        proof {
            assert(3 * (height * width) == 3 * width * height) by (nonlinear_arith);
        }
        samples
    }
}

/// Side of the square gradient raster, in pixels.
pub const GRADIENT_SIDE: u32 = 1000;

/// Whether a raster is the 1000 x 1000 coordinate gradient.
pub open spec fn holds_gradient(raster: Raster) -> bool {
    &&& raster_size(raster) == (1000nat, 1000nat)
    &&& forall|x: int, y: int|
        0 <= x < 1000 && 0 <= y < 1000 ==> #[trigger] raster_pixels(raster)[(x, y)]
            == gradient_color(x as u32, y as u32)
}

/// The fractal's colour at `(x, y)`: the gradient's red and blue, and for
/// green the escape time of the pixel.
pub open spec fn fractal_color(x: u32, y: u32) -> Color {
    Color {
        red: gradient_level(x as nat) as u8,
        green: escape_time(x, y) as u8,
        blue: gradient_level(y as nat) as u8,
    }
}

/// Whether a raster is the 800 x 800 rendering of the Julia set.
pub open spec fn holds_fractal(raster: Raster) -> bool {
    &&& raster_size(raster) == (800nat, 800nat)
    &&& forall|x: int, y: int|
        0 <= x < 800 && 0 <= y < 800 ==> #[trigger] raster_pixels(raster)[(x, y)] == fractal_color(
            x as u32,
            y as u32,
        )
}

/// Fills a fresh 1000 x 1000 raster with the coordinate gradient.
pub fn generate() -> (raster: Raster)
    ensures
        holds_gradient(raster),
{
    let mut raster = new_buffer(GRADIENT_SIDE, GRADIENT_SIDE);
    let mut y: u32 = 0;
    while y < GRADIENT_SIDE
        invariant
            y <= GRADIENT_SIDE,
            raster_size(raster) == (1000nat, 1000nat),
            forall|i: int, j: int|
                0 <= i < 1000 && 0 <= j < y ==> #[trigger] raster_pixels(raster)[(i, j)]
                    == gradient_color(i as u32, j as u32),
        decreases GRADIENT_SIDE - y,
    {
        let mut x: u32 = 0;
        while x < GRADIENT_SIDE
            invariant
                x <= GRADIENT_SIDE,
                y < GRADIENT_SIDE,
                raster_size(raster) == (1000nat, 1000nat),
                forall|i: int, j: int|
                    0 <= i < 1000 && 0 <= j < y ==> #[trigger] raster_pixels(raster)[(i, j)]
                        == gradient_color(i as u32, j as u32),
                forall|i: int|
                    0 <= i < x ==> #[trigger] raster_pixels(raster)[(i, y as int)]
                        == gradient_color(i as u32, y),
            decreases GRADIENT_SIDE - x,
        {
            put_pixel(&mut raster, x, y, gradient_pixel(x, y));
            x = x + 1;
        }
        y = y + 1;
    }
    raster
}

/// Computes the fractal's colour at `(x, y)`.
pub fn fractal_pixel(x: u32, y: u32) -> (color: Color)
    requires
        x < FRACTAL_SIDE,
        y < FRACTAL_SIDE,
    ensures
        color == fractal_color(x, y),
{
    Color { red: gradient_channel(x), green: escape_count(x, y), blue: gradient_channel(y) }
}

/// Fills a fresh 800 x 800 raster with the escape-time rendering of the
/// Julia set over the gradient.
pub fn fractal() -> (raster: Raster)
    ensures
        holds_fractal(raster),
{
    let mut raster = new_buffer(FRACTAL_SIDE, FRACTAL_SIDE);
    let mut y: u32 = 0;
    while y < FRACTAL_SIDE
        invariant
            y <= FRACTAL_SIDE,
            raster_size(raster) == (800nat, 800nat),
            forall|i: int, j: int|
                0 <= i < 800 && 0 <= j < y ==> #[trigger] raster_pixels(raster)[(i, j)]
                    == fractal_color(i as u32, j as u32),
        decreases FRACTAL_SIDE - y,
    {
        let mut x: u32 = 0;
        while x < FRACTAL_SIDE
            invariant
                x <= FRACTAL_SIDE,
                y < FRACTAL_SIDE,
                raster_size(raster) == (800nat, 800nat),
                forall|i: int, j: int|
                    0 <= i < 800 && 0 <= j < y ==> #[trigger] raster_pixels(raster)[(i, j)]
                        == fractal_color(i as u32, j as u32),
                forall|i: int|
                    0 <= i < x ==> #[trigger] raster_pixels(raster)[(i, y as int)]
                        == fractal_color(i as u32, y),
            decreases FRACTAL_SIDE - x,
        {
            put_pixel(&mut raster, x, y, fractal_pixel(x, y));
            x = x + 1;
        }
        y = y + 1;
    }
    raster
}

/// Two rasters of one size that agree pixel by pixel are written out as
/// the same samples.
pub proof fn lemma_equal_pixels_equal_samples(a: Raster, b: Raster)
    requires
        raster_size(a) == raster_size(b),
        forall|x: int, y: int|
            0 <= x < raster_size(a).0 && 0 <= y < raster_size(a).1 ==> #[trigger] raster_pixels(
                a,
            )[(x, y)] == raster_pixels(b)[(x, y)],
    ensures
        sample_sequence(a) == sample_sequence(b),
{
    let width = raster_size(a).0 as int;
    let height = raster_size(a).1 as int;
    assert forall|i: int| 0 <= i < 3 * width * height implies sample_at(a, i) == sample_at(
        b,
        i,
    ) by {
        let at = i / 3;
        assert(width > 0) by (nonlinear_arith)
            requires
                0 <= i < 3 * width * height,
                width >= 0,
                height >= 0,
        ;
        assert(at < width * height) by (nonlinear_arith)
            requires
                at * 3 <= i,
                i < 3 * width * height,
        ;
        lemma_multiply_divide_lt(at, width, height);
        assert(0 <= at / width) by (nonlinear_arith)
            requires
                at >= 0,
                width > 0,
        ;
        assert(raster_pixels(a)[(at % width, at / width)] == raster_pixels(b)[(
            at % width,
            at / width,
        )]);
    }
    assert(sample_sequence(a) =~= sample_sequence(b));
}

/// The gradient is determined: any two rasters that [`generate`] returns
/// have the same size and the same samples.
pub proof fn lemma_gradient_determined(a: Raster, b: Raster)
    requires
        holds_gradient(a),
        holds_gradient(b),
    ensures
        raster_size(a) == raster_size(b),
        sample_sequence(a) == sample_sequence(b),
{
    lemma_equal_pixels_equal_samples(a, b);
}

/// The fractal is determined: any two rasters that [`fractal`] returns
/// have the same size and the same samples.
pub proof fn lemma_fractal_determined(a: Raster, b: Raster)
    requires
        holds_fractal(a),
        holds_fractal(b),
    ensures
        raster_size(a) == raster_size(b),
        sample_sequence(a) == sample_sequence(b),
{
    lemma_equal_pixels_equal_samples(a, b);
}

/// Every channel of both rasters is its model value: each level and each
/// escape time fits in eight bits, so storing it loses nothing.
pub proof fn lemma_channels_fit(x: u32, y: u32)
    ensures
        gradient_color(x, y).red == gradient_level(x as nat) <= 255,
        gradient_color(x, y).green == gradient_level((x ^ y) as nat) <= 255,
        gradient_color(x, y).blue == gradient_level(y as nat) <= 255,
        fractal_color(x, y).red == gradient_level(x as nat),
        fractal_color(x, y).green == escape_time(x, y) <= 255,
        fractal_color(x, y).blue == gradient_level(y as nat),
{
    lemma_escape_time_counts(plane_coordinate(y as int), plane_coordinate(x as int));
}

} // verus!
