//! Images of 8-bit RGB samples, and how one is brought to the size and
//! layout that the network takes.

use crate::Error;
use vstd::arithmetic::div_mod::{
    lemma_div_pos_is_pos, lemma_fundamental_div_mod, lemma_fundamental_div_mod_converse,
    lemma_mod_bound,
};
use vstd::prelude::*;

verus! {

/// The number of samples of a pixel.
pub const NUM_CHANNELS: usize = 3;

/// The width of the network's input.
pub const WIDTH: u32 = 512;

/// The height of the network's input.
pub const HEIGHT: u32 = 512;

/// An image as a mathematical value: its size, and its samples row by row,
/// three to a pixel.
pub struct Raster {
    pub width: nat,
    pub height: nat,
    pub samples: Seq<u8>,
}

impl Raster {
    /// There are exactly three samples for each pixel.
    pub open spec fn wf(self) -> bool {
        self.samples.len() == 3 * self.width * self.height
    }

    /// Where channel `c` of the pixel in column `x` and row `y` stands.
    pub open spec fn index_of(self, x: int, y: int, c: int) -> int {
        (y * self.width + x) * 3 + c
    }

    /// Channel `c` of the pixel in column `x` and row `y`.
    pub open spec fn sample(self, x: int, y: int, c: int) -> u8 {
        self.samples[self.index_of(x, y, c)]
    }
}

/// An image of 8-bit RGB samples.
pub struct RgbImage {
    width: u32,
    height: u32,
    data: Vec<u8>,
}

impl View for RgbImage {
    type V = Raster;

    closed spec fn view(&self) -> Raster {
        Raster { width: self.width as nat, height: self.height as nat, samples: self.data@ }
    }
}

/// The samples of a `width` by `height` image stand inside the bounds of its
/// buffer, each pixel's three next to each other.
pub proof fn lemma_index_in_bounds(width: int, height: int, x: int, y: int, c: int)
    requires
        0 <= x < width,
        0 <= y < height,
        0 <= c < 3,
    ensures
        0 <= y * width + x < width * height,
        0 <= (y * width + x) * 3 + c < 3 * width * height,
        3 * width * height == 3 * (width * height),
{
    assert(y * width + x < width * height) by (nonlinear_arith)
        requires
            0 <= x < width,
            0 <= y < height,
    ;
    assert(0 <= y * width) by (nonlinear_arith)
        requires
            0 <= y,
            0 <= width,
    ;
    assert(3 * width * height == 3 * (width * height)) by (nonlinear_arith);
}

/// Every position below `3 * width * height` is that of one channel of one
/// pixel.
pub proof fn lemma_index_decode(width: int, height: int, i: int)
    requires
        0 <= i < 3 * width * height,
        0 <= width,
        0 <= height,
    ensures
        0 <= (i / 3) % width < width,
        0 <= (i / 3) / width < height,
        0 <= i % 3 < 3,
        i == (((i / 3) / width) * width + (i / 3) % width) * 3 + i % 3,
{
    let pixel = i / 3;
    assert(3 * width * height == 3 * (width * height)) by (nonlinear_arith);
    assert(width > 0) by (nonlinear_arith)
        requires
            0 <= i < 3 * width * height,
            0 <= width,
    ;
    lemma_fundamental_div_mod(pixel, width);
    lemma_mod_bound(pixel, width);
    lemma_div_pos_is_pos(pixel, width);
    let y = pixel / width;
    let x = pixel % width;
    assert(width * y == y * width) by (nonlinear_arith);
    assert(y < height) by (nonlinear_arith)
        requires
            width * y + x < width * height,
            0 <= x,
            0 < width,
    ;
}

/// The position of a pixel's channel gives back the pixel and the channel.
pub proof fn lemma_index_encode(width: int, x: int, y: int, c: int)
    requires
        0 <= x < width,
        0 <= y,
        0 <= c < 3,
    ensures
        ((y * width + x) * 3 + c) % 3 == c,
        (((y * width + x) * 3 + c) / 3) % width == x,
        (((y * width + x) * 3 + c) / 3) / width == y,
{
    let pixel = y * width + x;
    lemma_fundamental_div_mod_converse(pixel, width, y, x);
}

impl RgbImage {
    #[verifier::type_invariant]
    spec fn inv(self) -> bool {
        self.data@.len() == 3 * self.width * self.height
    }

    /// An image of the given size over the samples, where there are exactly
    /// three for each pixel.
    pub fn new(width: u32, height: u32, data: Vec<u8>) -> (r: Option<RgbImage>)
        ensures
            match r {
                Some(img) => img@ == (Raster {
                    width: width as nat,
                    height: height as nat,
                    samples: data@,
                }) && img@.wf(),
                None => data@.len() != 3 * width * height,
            },
    {
        assert(3 * (width as int) * (height as int) <= 3 * 0xFFFF_FFFF * 0xFFFF_FFFF)
            by (nonlinear_arith)
            requires
                0 <= width <= 0xFFFF_FFFF,
                0 <= height <= 0xFFFF_FFFF,
        ;
        let expected: u128 = 3u128 * (width as u128) * (height as u128);
        if data.len() as u128 == expected {
            Some(RgbImage { width, height, data })
        } else {
            None
        }
    }

    /// The number of columns.
    pub fn width(&self) -> (w: u32)
        ensures
            w == self@.width,
    {
        self.width
    }

    /// The number of rows.
    pub fn height(&self) -> (h: u32)
        ensures
            h == self@.height,
    {
        self.height
    }

    /// The samples, row by row.
    pub fn as_raw(&self) -> (data: &Vec<u8>)
        ensures
            data@ == self@.samples,
            self@.wf(),
    {
        proof {
            use_type_invariant(self);
        }
        &self.data
    }

    /// Channel `c` of the pixel in column `x` and row `y`.
    pub fn sample(&self, x: u32, y: u32, c: usize) -> (s: u8)
        requires
            x < self@.width,
            y < self@.height,
            c < 3,
        ensures
            s == self@.sample(x as int, y as int, c as int),
    {
        proof {
            use_type_invariant(self);
            lemma_index_in_bounds(
                self.width as int,
                self.height as int,
                x as int,
                y as int,
                c as int,
            );
        }
        let len = self.data.len();
        assert(y * self.width + x < self.width * self.height <= len);
        self.data[(y as usize * self.width as usize + x as usize) * NUM_CHANNELS + c]
    }
}

/// The position of the source that position `t` of the target shows, where
/// the `len` positions of the source are centred among the `target`
/// positions: the margin before them is half of what is left over, rounded
/// down, and a position outside the source shows the source's nearest one.
pub open spec fn source_index(t: int, len: int, target: int) -> int {
    let shifted = t - (target - len) / 2;
    if shifted < 0 {
        0
    } else if shifted >= len {
        len - 1
    } else {
        shifted
    }
}

/// The image padded to `tw` by `th`: each pixel of the result shows the
/// pixel of the source that `source_index` gives for its column and its row.
pub open spec fn padded(src: Raster, tw: nat, th: nat) -> Raster {
    Raster {
        width: tw,
        height: th,
        samples: Seq::new(
            3 * tw * th,
            |i: int|
                src.sample(
                    source_index((i / 3) % (tw as int), src.width as int, tw as int),
                    source_index((i / 3) / (tw as int), src.height as int, th as int),
                    i % 3,
                ),
        ),
    }
}

/// Whether the image can be padded to `tw` by `th`: it is not empty, one of
/// its sides equals the target's, and the other is no longer than the
/// target's.
pub open spec fn fits(src: Raster, tw: nat, th: nat) -> bool {
    ||| src.width == tw && 1 <= src.height <= th
    ||| src.height == th && 1 <= src.width <= tw
}

/// What a pixel of the padded image shows.
pub proof fn lemma_padded_sample(src: Raster, tw: nat, th: nat, x: int, y: int, c: int)
    requires
        0 <= x < tw,
        0 <= y < th,
        0 <= c < 3,
    ensures
        padded(src, tw, th).wf(),
        0 <= padded(src, tw, th).index_of(x, y, c) < padded(src, tw, th).samples.len(),
        padded(src, tw, th).sample(x, y, c) == src.sample(
            source_index(x, src.width as int, tw as int),
            source_index(y, src.height as int, th as int),
            c,
        ),
{
    lemma_index_in_bounds(tw as int, th as int, x, y, c);
    lemma_index_encode(tw as int, x, y, c);
}

/// An image that is narrower than the target stands in the middle of each
/// row. The margin before it is half of the columns that are left over,
/// rounded down. The columns of the margin show the first pixel of the row,
/// the columns from the margin on show the row itself, and the columns after
/// it, from the one that is one more than the margin away from the right
/// edge, show its last pixel.
pub proof fn lemma_padded_columns(src: Raster, tw: nat, th: nat, x: int, y: int, c: int)
    requires
        src.height == th,
        1 <= src.width < tw,
        0 <= x < tw,
        0 <= y < th,
        0 <= c < 3,
    ensures
        ({
            let margin = (tw - src.width) / 2;
            let shown = padded(src, tw, th).sample(x, y, c);
            &&& x < margin ==> shown == src.sample(0, y, c)
            &&& margin <= x < margin + src.width ==> shown == src.sample(x - margin, y, c)
            &&& tw - margin - 1 <= x ==> shown == src.sample(src.width - 1, y, c)
            &&& x < margin || margin <= x < margin + src.width || tw - margin - 1 <= x
        }),
{
    lemma_padded_sample(src, tw, th, x, y, c);
}

/// An image that is lower than the target stands in the middle of the rows.
/// The margin above it is half of the rows that are left over, rounded down.
/// The rows of the margin show the first row, the rows from the margin on
/// show the image itself, and the rows below it, from the one that is one
/// more than the margin away from the lower edge, show its last row.
pub proof fn lemma_padded_rows(src: Raster, tw: nat, th: nat, x: int, y: int, c: int)
    requires
        src.width == tw,
        1 <= src.height < th,
        0 <= x < tw,
        0 <= y < th,
        0 <= c < 3,
    ensures
        ({
            let margin = (th - src.height) / 2;
            let shown = padded(src, tw, th).sample(x, y, c);
            &&& y < margin ==> shown == src.sample(x, 0, c)
            &&& margin <= y < margin + src.height ==> shown == src.sample(x, y - margin, c)
            &&& th - margin - 1 <= y ==> shown == src.sample(x, src.height - 1, c)
            &&& y < margin || margin <= y < margin + src.height || th - margin - 1 <= y
        }),
{
    lemma_padded_sample(src, tw, th, x, y, c);
}

/// Whether the samples hold, for channel `c` of the pixel in column `x` and
/// row `y`, what the image holds there.
spec fn agrees(out: Seq<u8>, target: Raster, x: int, y: int, c: int) -> bool {
    out[target.index_of(x, y, c)] == target.sample(x, y, c)
}

/// Samples that agree with an image at every channel of every pixel are the
/// image's samples.
proof fn lemma_all_pixels(out: Seq<u8>, target: Raster)
    requires
        target.wf(),
        out.len() == target.samples.len(),
        forall|x: int, y: int, c: int|
            #![trigger target.index_of(x, y, c)]
            0 <= x < target.width && 0 <= y < target.height && 0 <= c < 3 ==> agrees(
                out,
                target,
                x,
                y,
                c,
            ),
    ensures
        out == target.samples,
{
    assert forall|i: int| 0 <= i < out.len() implies out[i] == target.samples[i] by {
        lemma_index_decode(target.width as int, target.height as int, i);
        let x = (i / 3) % (target.width as int);
        let y = (i / 3) / (target.width as int);
        assert(agrees(out, target, x, y, i % 3));
    }
}

/// Writes the pixels of columns `x0` to `x1` of row `y`. They come from row
/// `sy` of the image: from column `sx` on where `advance` is set, and all
/// from column `sx` where it is not.
fn write_span(
    out: &mut Vec<u8>,
    tw: usize,
    y: usize,
    x0: usize,
    x1: usize,
    img: &RgbImage,
    sx: usize,
    sy: usize,
    advance: bool,
    Ghost(target): Ghost<Raster>,
)
    requires
        target.wf(),
        target.width == tw,
        y < target.height,
        old(out)@.len() == target.samples.len(),
        x0 <= x1 <= tw,
        sy < img@.height,
        x0 < x1 ==> sx < img@.width,
        advance ==> sx + (x1 - x0) <= img@.width,
        forall|x: int, c: int|
            x0 <= x < x1 && 0 <= c < 3 ==> #[trigger] target.sample(x, y as int, c) == img@.sample(
                if advance {
                    sx + (x - x0)
                } else {
                    sx as int
                },
                sy as int,
                c,
            ),
    ensures
        final(out)@.len() == old(out)@.len(),
        forall|i: int|
            0 <= i < final(out)@.len() ==> #[trigger] final(out)@[i] == old(out)@[i]
                || final(out)@[i] == target.samples[i],
        forall|x: int, c: int|
            #![trigger target.index_of(x, y as int, c)]
            x0 <= x < x1 && 0 <= c < 3 ==> agrees(final(out)@, target, x, y as int, c),
{
    proof {
        use_type_invariant(img);
    }
    let w = img.width as usize;
    let mut x = x0;
    while x < x1
        invariant
            target.wf(),
            target.width == tw,
            y < target.height,
            out@.len() == target.samples.len(),
            x0 <= x <= x1 <= tw,
            sy < img.height,
            w == img.width,
            x0 < x1 ==> sx < w,
            advance ==> sx + (x1 - x0) <= w,
            img.data@.len() == 3 * img.width * img.height,
            forall|x: int, c: int|
                x0 <= x < x1 && 0 <= c < 3 ==> #[trigger] target.sample(x, y as int, c)
                    == img@.sample(
                    if advance {
                        sx + (x - x0)
                    } else {
                        sx as int
                    },
                    sy as int,
                    c,
                ),
            forall|i: int|
                0 <= i < out@.len() ==> #[trigger] out@[i] == old(out)@[i] || out@[i]
                    == target.samples[i],
            forall|done: int, c: int|
                #![trigger target.index_of(done, y as int, c)]
                x0 <= done < x && 0 <= c < 3 ==> agrees(out@, target, done, y as int, c),
        decreases x1 - x,
    {
        let from = if advance {
            sx + (x - x0)
        } else {
            sx
        };
        proof {
            lemma_index_in_bounds(tw as int, target.height as int, x as int, y as int, 0);
            lemma_index_in_bounds(w as int, img.height as int, from as int, sy as int, 0);
            assert(target.sample(x as int, y as int, 0) == img@.sample(from as int, sy as int, 0));
            assert(target.sample(x as int, y as int, 1) == img@.sample(from as int, sy as int, 1));
            assert(target.sample(x as int, y as int, 2) == img@.sample(from as int, sy as int, 2));
        }
        let len = img.data.len();
        let out_len = out.len();
        assert(y * tw + x < tw * target.height <= out_len);
        assert(sy * w + from < w * img.height <= len);
        let to = (y * tw + x) * NUM_CHANNELS;
        let at = (sy * w + from) * NUM_CHANNELS;
        out.set(to, img.data[at]);
        out.set(to + 1, img.data[at + 1]);
        out.set(to + 2, img.data[at + 2]);
        proof {
            assert forall|done: int, c: int| x0 <= done < x + 1 && 0 <= c < 3 implies agrees(
                out@,
                target,
                done,
                y as int,
                c,
            ) by {}
        }
        x += 1;
    }
}

/// Writes the rows `y0` to `y1`, each a whole row of the image, which is as
/// wide as the target: the rows from `sy` on where `advance` is set, and
/// row `sy` each time where it is not.
fn write_rows(
    out: &mut Vec<u8>,
    tw: usize,
    y0: usize,
    y1: usize,
    img: &RgbImage,
    sy: usize,
    advance: bool,
    Ghost(target): Ghost<Raster>,
)
    requires
        target.wf(),
        target.width == tw,
        img@.width == tw,
        old(out)@.len() == target.samples.len(),
        y0 <= y1 <= target.height,
        y0 < y1 ==> sy < img@.height,
        advance ==> sy + (y1 - y0) <= img@.height,
        forall|x: int, y: int, c: int|
            0 <= x < tw && y0 <= y < y1 && 0 <= c < 3 ==> #[trigger] target.sample(x, y, c)
                == img@.sample(
                x,
                if advance {
                    sy + (y - y0)
                } else {
                    sy as int
                },
                c,
            ),
    ensures
        final(out)@.len() == old(out)@.len(),
        forall|i: int|
            0 <= i < final(out)@.len() ==> #[trigger] final(out)@[i] == old(out)@[i]
                || final(out)@[i] == target.samples[i],
        forall|x: int, y: int, c: int|
            #![trigger target.index_of(x, y, c)]
            0 <= x < tw && y0 <= y < y1 && 0 <= c < 3 ==> agrees(final(out)@, target, x, y, c),
{
    let mut y = y0;
    while y < y1
        invariant
            target.wf(),
            target.width == tw,
            img@.width == tw,
            out@.len() == target.samples.len(),
            y0 <= y <= y1 <= target.height,
            y0 < y1 ==> sy < img@.height,
            advance ==> sy + (y1 - y0) <= img@.height,
            forall|x: int, y: int, c: int|
                0 <= x < tw && y0 <= y < y1 && 0 <= c < 3 ==> #[trigger] target.sample(x, y, c)
                    == img@.sample(
                    x,
                    if advance {
                        sy + (y - y0)
                    } else {
                        sy as int
                    },
                    c,
                ),
            forall|i: int|
                0 <= i < out@.len() ==> #[trigger] out@[i] == old(out)@[i] || out@[i]
                    == target.samples[i],
            forall|x: int, done: int, c: int|
                #![trigger target.index_of(x, done, c)]
                0 <= x < tw && y0 <= done < y && 0 <= c < 3 ==> agrees(out@, target, x, done, c),
        decreases y1 - y,
    {
        let from = if advance {
            sy + (y - y0)
        } else {
            sy
        };
        proof {
            assert forall|x: int, c: int|
                0 <= x < tw && 0 <= c < 3 implies #[trigger] target.sample(x, y as int, c)
                == img@.sample(0 + (x - 0), from as int, c) by {}
        }
        write_span(out, tw, y, 0, tw, img, 0, from, true, Ghost(target));
        proof {
            assert forall|x: int, done: int, c: int|
                0 <= x < tw && y0 <= done < y + 1 && 0 <= c < 3 implies agrees(
                out@,
                target,
                x,
                done,
                c,
            ) by {
                lemma_index_in_bounds(tw as int, target.height as int, x, done, c);
            }
        }
        y += 1;
    }
}

/// Pads an image that fits the target to `tw` by `th`.
///
/// An image that is narrower than the target is centred in each row: the
/// columns before it repeat the row's first pixel, the columns after it the
/// row's last. An image that is lower than the target is centred among the
/// rows, and the rows above and below repeat its first and its last row. An
/// image of the target's size comes back as it is.
pub fn pad(img: RgbImage, tw: u32, th: u32) -> (out: RgbImage)
    requires
        fits(img@, tw as nat, th as nat),
        3 * tw * th <= usize::MAX,
    ensures
        out@ == padded(img@, tw as nat, th as nat),
        out@.wf(),
{
    proof {
        use_type_invariant(&img);
    }
    let ghost target = padded(img@, tw as nat, th as nat);
    let w = img.width as usize;
    let h = img.height as usize;
    let columns = tw as usize;
    let rows = th as usize;
    assert(columns * rows * 3 == 3 * tw * th && columns * rows <= 3 * tw * th)
        by (nonlinear_arith)
        requires
            columns == tw,
            rows == th,
    ;
    proof {
        assert forall|x: int, y: int, c: int|
            0 <= x < tw && 0 <= y < th && 0 <= c < 3 implies #[trigger] target.sample(x, y, c)
            == img@.sample(
            source_index(x, w as int, tw as int),
            source_index(y, h as int, th as int),
            c,
        ) by {
            lemma_padded_sample(img@, tw as nat, th as nat, x, y, c);
        }
    }
    if w == columns && h == rows {
        proof {
            assert forall|x: int, y: int, c: int|
                0 <= x < tw && 0 <= y < th && 0 <= c < 3 implies agrees(
                img.data@,
                target,
                x,
                y,
                c,
            ) by {}
            lemma_all_pixels(img.data@, target);
        }
        return img;
    }
    let mut data: Vec<u8> = vec![0u8; columns * rows * 3];
    if w < columns {
        let margin = (columns - w) / 2;
        let mut y: usize = 0;
        while y < rows
            invariant
                target == padded(img@, tw as nat, th as nat),
                w == img@.width,
                columns == tw,
                rows == th == img@.height,
                1 <= w < columns,
                margin == (columns - w) / 2,
                y <= rows,
                data@.len() == 3 * tw * th,
                forall|x: int, y: int, c: int|
                    0 <= x < tw && 0 <= y < th && 0 <= c < 3 ==> #[trigger] target.sample(x, y, c)
                        == img@.sample(source_index(x, w as int, tw as int), y, c),
                forall|x: int, done: int, c: int|
                    #![trigger target.index_of(x, done, c)]
                    0 <= x < tw && 0 <= done < y && 0 <= c < 3 ==> agrees(
                        data@,
                        target,
                        x,
                        done,
                        c,
                    ),
            decreases rows - y,
        {
            write_span(&mut data, columns, y, 0, margin, &img, 0, y, false, Ghost(target));
            write_span(&mut data, columns, y, margin, margin + w, &img, 0, y, true, Ghost(target));
            write_span(
                &mut data,
                columns,
                y,
                columns - margin - 1,
                columns,
                &img,
                w - 1,
                y,
                false,
                Ghost(target),
            );
            proof {
                assert forall|x: int, done: int, c: int|
                    0 <= x < tw && 0 <= done < y + 1 && 0 <= c < 3 implies agrees(
                    data@,
                    target,
                    x,
                    done,
                    c,
                ) by {
                    lemma_index_in_bounds(tw as int, th as int, x, done, c);
                }
            }
            y += 1;
        }
    } else {
        let margin = (rows - h) / 2;
        write_rows(&mut data, columns, 0, margin, &img, 0, false, Ghost(target));
        write_rows(&mut data, columns, margin, margin + h, &img, 0, true, Ghost(target));
        write_rows(&mut data, columns, rows - margin - 1, rows, &img, h - 1, false, Ghost(target));
        proof {
            assert forall|x: int, y: int, c: int|
                0 <= x < tw && 0 <= y < th && 0 <= c < 3 implies agrees(data@, target, x, y, c) by {
                lemma_index_in_bounds(tw as int, th as int, x, y, c);
            }
        }
    }
    proof {
        lemma_all_pixels(data@, target);
    }
    RgbImage { width: tw, height: th, data }
}

/// What `DynamicImage::resize` with the Catmull-Rom filter makes of an RGB
/// image of the given width, height and samples, for the bounds `tw` and
/// `th`: the width, the height and the samples of the resampled image.
pub uninterp spec fn resized(width: u32, height: u32, samples: Seq<u8>, tw: u32, th: u32) -> (
    u32,
    u32,
    Seq<u8>,
);

/// The resampled image as a raster.
pub open spec fn resized_raster(src: Raster, tw: u32, th: u32) -> Raster {
    let made = resized(src.width as u32, src.height as u32, src.samples, tw, th);
    Raster { width: made.0 as nat, height: made.1 as nat, samples: made.2 }
}

/// Whether the buffers that resampling a `width` wide image to within `tw`
/// by `th` allocates can be addressed: four samples for each pixel of an
/// image as wide as the source or as the target, and as high as the target,
/// where a side of no length counts as one.
pub open spec fn resize_in_reach(width: nat, tw: u32, th: u32) -> bool {
    &&& 4 * width * th <= usize::MAX
    &&& 4 * tw * th <= usize::MAX
    &&& 4 * width <= usize::MAX
    &&& 4 * tw <= usize::MAX
    &&& 4 * th <= usize::MAX
}

/// Whether an image of this width can be resampled to the size of the
/// network's input.
pub open spec fn input_in_reach(width: nat) -> bool {
    2048 * width <= usize::MAX
}

/// `DynamicImage::resize` of the `image` crate, on an RGB image and with the
/// Catmull-Rom filter, followed by `into_rgb8`.
///
/// The crate scales the image, keeping its aspect ratio, to the largest size
/// within `tw` by `th` and resamples it. The samples that this gives are a
/// function of the image and the bounds, which the contract names; it states
/// besides that the result holds three samples for each of its pixels. The
/// crate panics where a buffer's length overflows, which `requires` rules
/// out: it allocates one of four samples per pixel, as wide as the source and
/// as high as the result, and the result itself, whose sides are within the
/// bounds or, where a bound is zero, of length one.
#[verifier::external_body]
fn resize(img: &RgbImage, tw: u32, th: u32) -> (out: RgbImage)
    requires
        img.data@.len() == 3 * img.width * img.height,
        resize_in_reach(img.width as nat, tw, th),
    ensures
        (out.width, out.height, out.data@) == resized(img.width, img.height, img.data@, tw, th),
        out.data@.len() == 3 * out.width * out.height,
{
    let buffer = image::RgbImage::from_raw(img.width, img.height, img.data.clone()).unwrap();
    let scaled = image::DynamicImage::ImageRgb8(buffer).resize(
        tw,
        th,
        image::imageops::FilterType::CatmullRom,
    ).into_rgb8();
    RgbImage { width: scaled.width(), height: scaled.height(), data: scaled.into_raw() }
}

/// The image brought to `tw` by `th`: itself where it has that size, else
/// resampled to fit and padded; nothing where the resampled image does not
/// fit the target.
pub open spec fn preprocessed(src: Raster, tw: u32, th: u32) -> Option<Raster> {
    if src.width == tw && src.height == th {
        Some(src)
    } else if fits(resized_raster(src, tw, th), tw as nat, th as nat) {
        Some(padded(resized_raster(src, tw, th), tw as nat, th as nat))
    } else {
        None
    }
}

/// Brings an image to `tw` by `th`.
///
/// An image of that size is returned as it is. Any other is resampled, with
/// its aspect ratio kept, to fit within the target, and then padded to the
/// target by repeating its outermost pixels. The resampled image is expected
/// to match the target on one side; where it does not, the result is
/// `Error::Resize`.
pub fn resize_and_pad_img(img: RgbImage, tw: u32, th: u32) -> (r: Result<RgbImage, Error>)
    requires
        resize_in_reach(img@.width, tw, th),
    ensures
        match r {
            Ok(out) => preprocessed(img@, tw, th) == Some(out@) && out@.wf(),
            Err(e) => e == Error::Resize && preprocessed(img@, tw, th).is_none(),
        },
{
    proof {
        use_type_invariant(&img);
    }
    if img.width == tw && img.height == th {
        return Ok(img);
    }
    let resized = resize(&img, tw, th);
    let w = resized.width;
    let h = resized.height;
    if (w == tw && 1 <= h && h <= th) || (h == th && 1 <= w && w <= tw) {
        assert(3 * tw * th <= usize::MAX) by (nonlinear_arith)
            requires
                resize_in_reach(img@.width, tw, th),
        ;
        Ok(pad(resized, tw, th))
    } else {
        Err(Error::Resize)
    }
}

/// The samples in the layout that the network takes: channel by channel,
/// each channel row by row.
pub open spec fn tensor_of(src: Raster) -> Seq<u8> {
    let plane = (src.width * src.height) as int;
    Seq::new(
        3 * src.width * src.height,
        |i: int|
            src.sample(
                (i % plane) % (src.width as int),
                (i % plane) / (src.width as int),
                i / plane,
            ),
    )
}

/// Where the layout of the network holds channel `c` of the pixel in column
/// `x` and row `y`.
pub proof fn lemma_tensor_sample(src: Raster, x: int, y: int, c: int)
    requires
        0 <= x < src.width,
        0 <= y < src.height,
        0 <= c < 3,
    ensures
        0 <= c * (src.width * src.height) + y * src.width + x < tensor_of(src).len(),
        tensor_of(src)[c * (src.width * src.height) + y * src.width + x] == src.sample(x, y, c),
{
    let w = src.width as int;
    let plane = (src.width * src.height) as int;
    let pixel = y * w + x;
    lemma_index_in_bounds(w, src.height as int, x, y, c);
    assert(0 <= c * plane + pixel < 3 * plane) by (nonlinear_arith)
        requires
            0 <= pixel < plane,
            0 <= c < 3,
    ;
    lemma_fundamental_div_mod_converse(c * plane + pixel, plane, c, pixel);
    lemma_fundamental_div_mod_converse(pixel, w, y, x);
}

/// Lays the samples out as the network takes them.
pub fn to_tensor(img: &RgbImage) -> (tensor: Vec<u8>)
    ensures
        tensor@ == tensor_of(img@),
{
    proof {
        use_type_invariant(img);
    }
    let w = img.width;
    let h = img.height;
    let ghost plane = img@.width * img@.height;
    let mut tensor: Vec<u8> = Vec::new();
    let mut c: usize = 0;
    while c < NUM_CHANNELS
        invariant
            w == img@.width,
            h == img@.height,
            plane == w * h,
            c <= 3,
            tensor@.len() == c * plane,
            forall|i: int| 0 <= i < tensor@.len() ==> #[trigger] tensor@[i] == tensor_of(img@)[i],
        decreases 3 - c,
    {
        let mut y: u32 = 0;
        while y < h
            invariant
                w == img@.width,
                h == img@.height,
                plane == w * h,
                c < 3,
                y <= h,
                tensor@.len() == c * plane + y * w,
                forall|i: int|
                    0 <= i < tensor@.len() ==> #[trigger] tensor@[i] == tensor_of(img@)[i],
            decreases h - y,
        {
            let mut x: u32 = 0;
            while x < w
                invariant
                    w == img@.width,
                    h == img@.height,
                    plane == w * h,
                    c < 3,
                    y < h,
                    x <= w,
                    tensor@.len() == c * plane + y * w + x,
                    forall|i: int|
                        0 <= i < tensor@.len() ==> #[trigger] tensor@[i] == tensor_of(img@)[i],
                decreases w - x,
            {
                proof {
                    lemma_tensor_sample(img@, x as int, y as int, c as int);
                }
                tensor.push(img.sample(x, y, c));
                x += 1;
            }
            assert((y + 1) * w == y * w + w) by (nonlinear_arith);
            y += 1;
        }
        assert((c + 1) * plane == c * plane + h * w) by (nonlinear_arith)
            requires
                plane == w * h,
        ;
        c += 1;
    }
    assert(3 * plane == 3 * img@.width * img@.height) by (nonlinear_arith)
        requires
            plane == img@.width * img@.height,
    ;
    tensor
}

/// The tensor that the network is given for an image: the image brought to
/// 512 by 512, in the network's layout.
pub open spec fn input_tensor_of(src: Raster) -> Option<Seq<u8>> {
    match preprocessed(src, WIDTH, HEIGHT) {
        Some(target) => Some(tensor_of(target)),
        None => None,
    }
}

/// Prepares the network's input for an image.
///
/// The tensor has the shape 1 by 3 by 512 by 512 and holds the samples as
/// they are; the caller divides each by 255.
pub fn input_tensor(img: RgbImage) -> (r: Result<Vec<u8>, Error>)
    requires
        input_in_reach(img@.width),
    ensures
        match r {
            Ok(tensor) => input_tensor_of(img@) == Some(tensor@) && tensor@.len() == 3 * 512 * 512,
            Err(e) => e == Error::Resize && input_tensor_of(img@).is_none(),
        },
{
    assert(4 * img@.width * 512 == 2048 * img@.width) by (nonlinear_arith);
    match resize_and_pad_img(img, WIDTH, HEIGHT) {
        Ok(target) => Ok(to_tensor(&target)),
        Err(e) => Err(e),
    }
}

/// An image that has the size of the network's input is neither resampled
/// nor padded: the tensor holds the image's own samples.
pub proof fn lemma_input_tensor_identity(src: Raster, x: int, y: int, c: int)
    requires
        src.width == WIDTH,
        src.height == HEIGHT,
        0 <= x < 512,
        0 <= y < 512,
        0 <= c < 3,
    ensures
        input_tensor_of(src) == Some(tensor_of(src)),
        tensor_of(src)[c * (512 * 512) + y * 512 + x] == src.sample(x, y, c),
{
    lemma_tensor_sample(src, x, y, c);
}

} // verus!
