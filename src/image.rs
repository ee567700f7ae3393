use vstd::prelude::*;

verus! {

/// A colour with four 8-bit channels.
#[derive(Clone, Copy, Debug, PartialEq, Eq, Structural)]
pub struct Rgba {
    pub red: u8,
    pub green: u8,
    pub blue: u8,
    pub alpha: u8,
}

/// Channel `k` of a colour: 0 red, 1 green, 2 blue, anything else alpha.
pub open spec fn channel(c: Rgba, k: int) -> int {
    if k == 0 {
        c.red as int
    } else if k == 1 {
        c.green as int
    } else if k == 2 {
        c.blue as int
    } else {
        c.alpha as int
    }
}

/// Sum of channel `k` over a sequence of colours.
pub open spec fn channel_sum(s: Seq<Rgba>, k: int) -> int
    decreases s.len(),
{
    if s.len() == 0 {
        0
    } else {
        channel_sum(s.drop_last(), k) + channel(s.last(), k)
    }
}

/// Per-channel mean, truncated towards zero.
pub open spec fn mean_of(s: Seq<Rgba>) -> Rgba {
    Rgba {
        red: (channel_sum(s, 0) / s.len() as int) as u8,
        green: (channel_sum(s, 1) / s.len() as int) as u8,
        blue: (channel_sum(s, 2) / s.len() as int) as u8,
        alpha: (channel_sum(s, 3) / s.len() as int) as u8,
    }
}

/// Sum over `s` of the squared deviation of channel `k` from that of `m`.
pub open spec fn sq_dev_sum(s: Seq<Rgba>, m: Rgba, k: int) -> int
    decreases s.len(),
{
    if s.len() == 0 {
        0
    } else {
        let d = channel(s.last(), k) - channel(m, k);
        sq_dev_sum(s.drop_last(), m, k) + d * d
    }
}

/// Perceptual weights of red, green and blue, in ten-thousandths.
pub const RED_WEIGHT: u128 = 2989;
pub const GREEN_WEIGHT: u128 = 5870;
pub const BLUE_WEIGHT: u128 = 1140;

/// Largest weighted squared deviation of one pixel, in ten-thousandths.
pub const MAX_PIXEL_ERROR: u64 = 650_184_975;

/// Weighted sum of squared deviations over red, green and blue.
pub open spec fn weighted_sq_sum(m: Rgba, s: Seq<Rgba>) -> int {
    RED_WEIGHT * sq_dev_sum(s, m, 0) + GREEN_WEIGHT * sq_dev_sum(s, m, 1) + BLUE_WEIGHT
        * sq_dev_sum(s, m, 2)
}

/// Weighted mean squared error of `s` against `m`, in ten-thousandths of a
/// squared channel step, truncated towards zero. Alpha takes no part.
pub open spec fn mse_of(m: Rgba, s: Seq<Rgba>) -> int {
    if s.len() == 0 {
        0
    } else {
        weighted_sq_sum(m, s) / s.len() as int
    }
}

proof fn lemma_channel_bounds(c: Rgba, k: int)
    ensures
        0 <= channel(c, k) <= 255,
{
}

proof fn lemma_channel_sum_bounds(s: Seq<Rgba>, k: int)
    ensures
        0 <= channel_sum(s, k) <= 255 * s.len(),
    decreases s.len(),
{
    if s.len() > 0 {
        lemma_channel_sum_bounds(s.drop_last(), k);
        lemma_channel_bounds(s.last(), k);
    }
}

proof fn lemma_sq_dev_bounds(s: Seq<Rgba>, m: Rgba, k: int)
    ensures
        0 <= sq_dev_sum(s, m, k) <= 65025 * s.len(),
    decreases s.len(),
{
    if s.len() > 0 {
        lemma_sq_dev_bounds(s.drop_last(), m, k);
        lemma_channel_bounds(s.last(), k);
        lemma_channel_bounds(m, k);
        let d = channel(s.last(), k) - channel(m, k);
        assert(0 <= d * d <= 65025) by (nonlinear_arith)
            requires
                -255 <= d <= 255,
        ;
    }
}

/// The weighted error of a non-empty sequence never exceeds that of one
/// pixel at the largest possible deviation.
pub proof fn lemma_mse_bound(m: Rgba, s: Seq<Rgba>)
    ensures
        0 <= weighted_sq_sum(m, s) <= MAX_PIXEL_ERROR * s.len(),
        0 <= mse_of(m, s) <= MAX_PIXEL_ERROR,
{
    lemma_sq_dev_bounds(s, m, 0);
    lemma_sq_dev_bounds(s, m, 1);
    lemma_sq_dev_bounds(s, m, 2);
    let w = weighted_sq_sum(m, s);
    let n = s.len() as int;
    assert(0 <= w <= MAX_PIXEL_ERROR * n) by (nonlinear_arith)
        requires
            w == 2989 * sq_dev_sum(s, m, 0) + 5870 * sq_dev_sum(s, m, 1) + 1140 * sq_dev_sum(
                s,
                m,
                2,
            ),
            0 <= sq_dev_sum(s, m, 0) <= 65025 * n,
            0 <= sq_dev_sum(s, m, 1) <= 65025 * n,
            0 <= sq_dev_sum(s, m, 2) <= 65025 * n,
            MAX_PIXEL_ERROR == 650_184_975,
    ;
    if n > 0 {
        assert(0 <= w / n <= MAX_PIXEL_ERROR) by (nonlinear_arith)
            requires
                0 <= w <= MAX_PIXEL_ERROR * n,
                n > 0,
        ;
    }
}

/// The mean of one colour is that colour.
pub proof fn lemma_mean_single(s: Seq<Rgba>)
    requires
        s.len() == 1,
    ensures
        mean_of(s) == s[0],
{
    assert(s.drop_last().len() == 0);
    assert(s.last() == s[0]);
    assert(channel_sum(s.drop_last(), 0) == 0);
    assert(channel_sum(s.drop_last(), 1) == 0);
    assert(channel_sum(s.drop_last(), 2) == 0);
    assert(channel_sum(s.drop_last(), 3) == 0);
    assert(channel_sum(s, 0) == s[0].red as int);
    assert(channel_sum(s, 1) == s[0].green as int);
    assert(channel_sum(s, 2) == s[0].blue as int);
    assert(channel_sum(s, 3) == s[0].alpha as int);
}

impl Rgba {
    /// Transparent black.
    pub fn new() -> (r: Rgba)
        ensures
            r == black(),
    {
        Rgba { red: 0, green: 0, blue: 0, alpha: 0 }
    }

    /// Per-channel mean of a non-empty sequence, truncated towards zero.
    pub fn mean(pixels: &[Rgba]) -> (r: Rgba)
        requires
            pixels@.len() > 0,
        ensures
            r == mean_of(pixels@),
    {
        let mut red: u128 = 0;
        let mut green: u128 = 0;
        let mut blue: u128 = 0;
        let mut alpha: u128 = 0;
        let n = pixels.len();
        let mut i: usize = 0;
        while i < n
            invariant
                n == pixels@.len(),
                i <= n,
                red == channel_sum(pixels@.take(i as int), 0),
                green == channel_sum(pixels@.take(i as int), 1),
                blue == channel_sum(pixels@.take(i as int), 2),
                alpha == channel_sum(pixels@.take(i as int), 3),
            decreases n - i,
        {
            proof {
                let t = pixels@.take(i as int + 1);
                assert(t.drop_last() =~= pixels@.take(i as int));
                lemma_channel_sum_bounds(pixels@.take(i as int), 0);
                lemma_channel_sum_bounds(pixels@.take(i as int), 1);
                lemma_channel_sum_bounds(pixels@.take(i as int), 2);
                lemma_channel_sum_bounds(pixels@.take(i as int), 3);
                assert(255 * i <= 255 * 0xffff_ffff_ffff_ffffu128) by (nonlinear_arith)
                    requires
                        i <= 0xffff_ffff_ffff_ffffu128,
                ;
            }
            let p = pixels[i];
            red = red + p.red as u128;
            green = green + p.green as u128;
            blue = blue + p.blue as u128;
            alpha = alpha + p.alpha as u128;
            i = i + 1;
        }
        proof {
            assert(pixels@.take(n as int) =~= pixels@);
            lemma_channel_sum_bounds(pixels@, 0);
            lemma_channel_sum_bounds(pixels@, 1);
            lemma_channel_sum_bounds(pixels@, 2);
            lemma_channel_sum_bounds(pixels@, 3);
            let ln = n as int;
            assert forall|k: int| 0 <= k <= 3 implies 0 <= #[trigger] channel_sum(pixels@, k) / ln
                <= 255 by {
                if 0 <= k <= 3 {
                    let c = channel_sum(pixels@, k);
                    assert(0 <= c / ln <= 255) by (nonlinear_arith)
                        requires
                            0 <= c <= 255 * ln,
                            ln > 0,
                    ;
                }
            }
        }
        let len = n as u128;
        Rgba {
            red: (red / len) as u8,
            green: (green / len) as u8,
            blue: (blue / len) as u8,
            alpha: (alpha / len) as u8,
        }
    }

    /// Weighted mean squared error of `pixels` against this colour, in
    /// ten-thousandths of a squared channel step; 0 for no pixels.
    pub fn mse(&self, pixels: &[Rgba]) -> (r: u64)
        ensures
            r == mse_of(*self, pixels@),
            r <= MAX_PIXEL_ERROR,
    {
        let mut red: u128 = 0;
        let mut green: u128 = 0;
        let mut blue: u128 = 0;
        let n = pixels.len();
        let mut i: usize = 0;
        while i < n
            invariant
                n == pixels@.len(),
                i <= n,
                red == sq_dev_sum(pixels@.take(i as int), *self, 0),
                green == sq_dev_sum(pixels@.take(i as int), *self, 1),
                blue == sq_dev_sum(pixels@.take(i as int), *self, 2),
            decreases n - i,
        {
            proof {
                let t = pixels@.take(i as int + 1);
                assert(t.drop_last() =~= pixels@.take(i as int));
                lemma_sq_dev_bounds(pixels@.take(i as int), *self, 0);
                lemma_sq_dev_bounds(pixels@.take(i as int), *self, 1);
                lemma_sq_dev_bounds(pixels@.take(i as int), *self, 2);
                assert(65025 * i <= 65025 * 0xffff_ffff_ffff_ffffu128) by (nonlinear_arith)
                    requires
                        i <= 0xffff_ffff_ffff_ffffu128,
                ;
            }
            let p = pixels[i];
            let dr: i32 = p.red as i32 - self.red as i32;
            let dg: i32 = p.green as i32 - self.green as i32;
            let db: i32 = p.blue as i32 - self.blue as i32;
            assert(0 <= dr * dr <= 65025) by (nonlinear_arith)
                requires
                    -255 <= dr <= 255,
            ;
            assert(0 <= dg * dg <= 65025) by (nonlinear_arith)
                requires
                    -255 <= dg <= 255,
            ;
            assert(0 <= db * db <= 65025) by (nonlinear_arith)
                requires
                    -255 <= db <= 255,
            ;
            red = red + (dr * dr) as u128;
            green = green + (dg * dg) as u128;
            blue = blue + (db * db) as u128;
            i = i + 1;
        }
        if n == 0 {
            return 0;
        }
        proof {
            assert(pixels@.take(n as int) =~= pixels@);
            lemma_mse_bound(*self, pixels@);
            lemma_sq_dev_bounds(pixels@, *self, 0);
            lemma_sq_dev_bounds(pixels@, *self, 1);
            lemma_sq_dev_bounds(pixels@, *self, 2);
            assert(65025 * n <= 65025 * 0xffff_ffff_ffff_ffffu128) by (nonlinear_arith)
                requires
                    n <= 0xffff_ffff_ffff_ffffu128,
            ;
        }
        let total = RED_WEIGHT * red + GREEN_WEIGHT * green + BLUE_WEIGHT * blue;
        (total / n as u128) as u64
    }
}


/// Transparent black.
pub open spec fn black() -> Rgba {
    Rgba { red: 0, green: 0, blue: 0, alpha: 0 }
}

/// `n` transparent black pixels.
pub open spec fn blank(n: nat) -> Seq<Rgba> {
    Seq::new(n, |i: int| black())
}

/// Pixels decoded from RGBA bytes, four per pixel, row-major.
pub open spec fn pixels_of_bytes(b: Seq<u8>) -> Seq<Rgba> {
    Seq::new(
        b.len() / 4,
        |i: int| Rgba { red: b[4 * i], green: b[4 * i + 1], blue: b[4 * i + 2], alpha: b[4 * i + 3] },
    )
}

/// RGBA bytes of a pixel sequence, four per pixel.
pub open spec fn bytes_of_pixels(p: Seq<Rgba>) -> Seq<u8> {
    Seq::new(4 * p.len(), |j: int| channel(p[j / 4], j % 4) as u8)
}

/// Whether `(x, y)` lies in the rectangle from `(x0, y0)` to `(x1, y1)`, both
/// corners inclusive.
pub open spec fn in_rect(x: int, y: int, x0: int, y0: int, x1: int, y1: int) -> bool {
    x0 <= x <= x1 && y0 <= y <= y1
}

/// Row-major pixels of width `w` with the rectangle from `(x0, y0)` to
/// `(x1, y1)` painted in `c`.
pub open spec fn filled(
    pix: Seq<Rgba>,
    w: nat,
    x0: int,
    y0: int,
    x1: int,
    y1: int,
    c: Rgba,
) -> Seq<Rgba> {
    Seq::new(
        pix.len(),
        |p: int|
            if in_rect(p % (w as int), p / (w as int), x0, y0, x1, y1) {
                c
            } else {
                pix[p]
            },
    )
}

/// A raster image: `width * height` colours, row-major.
#[derive(Debug)]
pub struct Image {
    width: usize,
    height: usize,
    pixels: Vec<Rgba>,
}

impl Image {
    pub closed spec fn spec_width(&self) -> nat {
        self.width as nat
    }

    pub closed spec fn spec_height(&self) -> nat {
        self.height as nat
    }

    /// The pixels, row-major: `(x, y)` is at `y * width + x`.
    pub closed spec fn spec_pixels(&self) -> Seq<Rgba> {
        self.pixels@
    }

    pub open spec fn wf(&self) -> bool {
        &&& self.spec_width() >= 1
        &&& self.spec_height() >= 1
        &&& self.spec_width() * self.spec_height() <= usize::MAX
        &&& self.spec_pixels().len() == self.spec_width() * self.spec_height()
    }

    pub open spec fn pixel_at(&self, x: int, y: int) -> Rgba {
        self.spec_pixels()[y * self.spec_width() + x]
    }

    /// An image over the given row-major pixels.
    pub fn new(width: usize, height: usize, pixels: Vec<Rgba>) -> (r: Image)
        requires
            width >= 1,
            height >= 1,
            pixels@.len() == width * height,
        ensures
            r.wf(),
            r.spec_width() == width,
            r.spec_height() == height,
            r.spec_pixels() == pixels@,
    {
        let n = pixels.len();
        assert(width * height == n);
        Image { width, height, pixels }
    }

    /// An image of the given size, every pixel transparent black.
    pub fn empty(width: usize, height: usize) -> (r: Image)
        requires
            width >= 1,
            height >= 1,
            width * height <= usize::MAX,
        ensures
            r.wf(),
            r.spec_width() == width,
            r.spec_height() == height,
            r.spec_pixels() == blank((width * height) as nat),
    {
        let size = width * height;
        let pixels = vec![Rgba { red: 0, green: 0, blue: 0, alpha: 0 }; size];
        proof {
            assert(pixels@ =~= blank((width * height) as nat));
        }
        Image { width, height, pixels }
    }

    /// Position of `(x, y)` in the row-major pixel sequence.
    pub fn get_index(&self, x: usize, y: usize) -> (r: usize)
        requires
            self.wf(),
            x < self.spec_width(),
            y < self.spec_height(),
        ensures
            r == y * self.spec_width() + x,
            r < self.spec_pixels().len(),
    {
        proof {
            lemma_index_in_bounds(x as int, y as int, self.width as int, self.height as int);
        }
        y * self.width + x
    }

    /// Overwrites the pixel at `(x, y)`.
    pub fn set_index(&mut self, x: usize, y: usize, pixel: Rgba)
        requires
            old(self).wf(),
            x < old(self).spec_width(),
            y < old(self).spec_height(),
        ensures
            final(self).wf(),
            final(self).spec_width() == old(self).spec_width(),
            final(self).spec_height() == old(self).spec_height(),
            final(self).spec_pixels() == old(self).spec_pixels().update(
                y * old(self).spec_width() + x,
                pixel,
            ),
    {
        let idx = self.get_index(x, y);
        self.pixels.set(idx, pixel);
    }

    /// Paints every pixel of the rectangle from `(x0, y0)` to `(x1, y1)`, both
    /// inclusive, in `color`; nothing where `x0 > x1` or `y0 > y1`.
    pub fn fill_rect(&mut self, x0: usize, y0: usize, x1: usize, y1: usize, color: Rgba)
        requires
            old(self).wf(),
            x1 < old(self).spec_width(),
            y1 < old(self).spec_height(),
        ensures
            final(self).wf(),
            final(self).spec_width() == old(self).spec_width(),
            final(self).spec_height() == old(self).spec_height(),
            final(self).spec_pixels() == filled(
                old(self).spec_pixels(),
                old(self).spec_width(),
                x0 as int,
                y0 as int,
                x1 as int,
                y1 as int,
                color,
            ),
    {
        let ghost pix = self.spec_pixels();
        let ghost w = self.spec_width() as int;
        if x0 > x1 || y0 > y1 {
            assert(self.spec_pixels() =~= filled(pix, w as nat, x0 as int, y0 as int, x1 as int, y1 as int, color));
            return;
        }
        let mut x = x0;
        while x <= x1
            invariant
                self.wf(),
                self.spec_width() == old(self).spec_width(),
                self.spec_height() == old(self).spec_height(),
                pix == old(self).spec_pixels(),
                w == self.spec_width(),
                x1 < w,
                y1 < self.spec_height(),
                y0 <= y1,
                x0 <= x <= x1 + 1,
                self.spec_pixels() =~= filled(pix, w as nat, x0 as int, y0 as int, x as int - 1, y1 as int, color),
            decreases x1 + 1 - x,
        {
            let mut y = y0;
            while y <= y1
                invariant
                    self.wf(),
                    self.spec_width() == old(self).spec_width(),
                    self.spec_height() == old(self).spec_height(),
                    pix == old(self).spec_pixels(),
                    w == self.spec_width(),
                    x1 < w,
                    y1 < self.spec_height(),
                    y0 <= y1,
                    x0 <= x <= x1,
                    y0 <= y <= y1 + 1,
                    forall|p: int| 0 <= p < pix.len() ==> #[trigger] self.spec_pixels()[p] == if in_rect(p % w, p / w, x0 as int, y0 as int, x as int - 1, y1 as int) || in_rect(p % w, p / w, x as int, y0 as int, x as int, y as int - 1) { color } else { pix[p] },
                    self.spec_pixels().len() == pix.len(),
                decreases y1 + 1 - y,
            {
                let ghost before = self.spec_pixels();
                self.set_index(x, y, color);
                proof {
                    let q = y * w + x;
                    lemma_index_in_bounds(x as int, y as int, w, self.spec_height() as int);
                    vstd::arithmetic::div_mod::lemma_fundamental_div_mod_converse(q, w, y as int, x as int);
                    assert forall|p: int| 0 <= p < pix.len() implies #[trigger] self.spec_pixels()[p] == if in_rect(p % w, p / w, x0 as int, y0 as int, x as int - 1, y1 as int) || in_rect(p % w, p / w, x as int, y0 as int, x as int, y as int) { color } else { pix[p] } by {
                        if p != q {
                            if p % w == x && p / w == y {
                                vstd::arithmetic::div_mod::lemma_fundamental_div_mod(p, w);
                            }
                        }
                    }
                }
                y = y + 1;
            }
            x = x + 1;
        }
    }

    /// The pixel at `(x, y)`.
    pub fn get_pixel(&self, x: usize, y: usize) -> (r: Rgba)
        requires
            self.wf(),
            x < self.spec_width(),
            y < self.spec_height(),
        ensures
            r == self.pixel_at(x as int, y as int),
    {
        let idx = self.get_index(x, y);
        self.pixels[idx]
    }

    /// Number of pixels.
    pub fn get_size(&self) -> (r: usize)
        requires
            self.wf(),
        ensures
            r == self.spec_width() * self.spec_height(),
    {
        self.width * self.height
    }

    pub fn width(&self) -> (r: usize)
        ensures
            r == self.spec_width(),
    {
        self.width
    }

    pub fn height(&self) -> (r: usize)
        ensures
            r == self.spec_height(),
    {
        self.height
    }

    /// The pixels, row-major.
    pub fn pixels(&self) -> (r: &[Rgba])
        ensures
            r@ == self.spec_pixels(),
    {
        self.pixels.as_slice()
    }

    /// Decodes `width * height` pixels from RGBA bytes, four per pixel,
    /// row-major.
    pub fn from_image_data(image_data_rgba: &[u8], width: usize, height: usize) -> (r: Image)
        requires
            width >= 1,
            height >= 1,
            image_data_rgba@.len() == 4 * width * height,
        ensures
            r.wf(),
            r.spec_width() == width,
            r.spec_height() == height,
            r.spec_pixels() == pixels_of_bytes(image_data_rgba@),
    {
        let ghost b = image_data_rgba@;
        let total = image_data_rgba.len();
        assert(width * height <= total && total == 4 * (width * height)) by (nonlinear_arith)
            requires
                width >= 1,
                height >= 1,
                total == 4 * width * height,
        ;
        let size = width * height;
        let mut pixels: Vec<Rgba> = Vec::new();
        let mut i: usize = 0;
        while i < size
            invariant
                b == image_data_rgba@,
                size == width * height,
                b.len() == 4 * size,
                total == b.len(),
                i <= size,
                pixels@ =~= pixels_of_bytes(b).take(i as int),
            decreases size - i,
        {
            let index = i * 4;
            pixels.push(
                Rgba {
                    red: image_data_rgba[index],
                    green: image_data_rgba[index + 1],
                    blue: image_data_rgba[index + 2],
                    alpha: image_data_rgba[index + 3],
                },
            );
            i = i + 1;
        }
        Image { width, height, pixels }
    }

    /// Encodes the pixels as RGBA bytes, four per pixel, into a buffer of
    /// exactly that length.
    pub fn to_image_data(&self, image_data_rgba: &mut [u8])
        requires
            self.wf(),
            old(image_data_rgba)@.len() == 4 * self.spec_pixels().len(),
        ensures
            final(image_data_rgba)@ == bytes_of_pixels(self.spec_pixels()),
    {
        let size = self.width * self.height;
        let total = image_data_rgba.len();
        let ghost p = self.spec_pixels();
        let mut i: usize = 0;
        while i < size
            invariant
                self.wf(),
                p == self.spec_pixels(),
                size == p.len(),
                image_data_rgba@.len() == 4 * size,
                total == 4 * size,
                i <= size,
                forall|j: int|
                    0 <= j < 4 * i ==> #[trigger] image_data_rgba@[j] == bytes_of_pixels(p)[j],
            decreases size - i,
        {
            let index = i * 4;
            let px = self.pixels[i];
            image_data_rgba[index] = px.red;
            image_data_rgba[index + 1] = px.green;
            image_data_rgba[index + 2] = px.blue;
            image_data_rgba[index + 3] = px.alpha;
            i = i + 1;
            proof {
                assert forall|j: int| 0 <= j < 4 * i implies #[trigger] image_data_rgba@[j]
                    == bytes_of_pixels(p)[j] by {
                    if j >= 4 * (i - 1) {
                        assert(j / 4 == i - 1);
                    }
                }
            }
        }
        proof {
            assert(image_data_rgba@ =~= bytes_of_pixels(p));
        }
    }
}

proof fn lemma_index_in_bounds(x: int, y: int, w: int, h: int)
    requires
        0 <= x < w,
        0 <= y < h,
    ensures
        0 <= y * w + x < w * h,
{
    assert(0 <= y * w + x < w * h) by (nonlinear_arith)
        requires
            0 <= x < w,
            0 <= y < h,
    ;
}

/// Row and column of a row-major position.
pub proof fn lemma_row_major(p: int, w: int, h: int)
    requires
        w >= 1,
        0 <= p < w * h,
    ensures
        p == (p / w) * w + p % w,
        0 <= p % w < w,
        0 <= p / w < h,
{
    vstd::arithmetic::div_mod::lemma_fundamental_div_mod(p, w);
    assert(p == (p / w) * w + p % w) by (nonlinear_arith)
        requires
            p == w * (p / w) + p % w,
    ;
    assert(0 <= p / w < h) by (nonlinear_arith)
        requires
            p == (p / w) * w + p % w,
            0 <= p < w * h,
            0 <= p % w < w,
            w >= 1,
    ;
}

/// Decoding RGBA bytes and encoding the result again gives the same bytes.
pub proof fn lemma_bytes_round_trip(b: Seq<u8>)
    requires
        b.len() % 4 == 0,
    ensures
        bytes_of_pixels(pixels_of_bytes(b)) == b,
{
    let p = pixels_of_bytes(b);
    assert forall|j: int| 0 <= j < b.len() implies #[trigger] bytes_of_pixels(p)[j] == b[j] by {
        let i = j / 4;
        assert(4 * i + j % 4 == j);
        assert(0 <= i < p.len());
    }
    assert(bytes_of_pixels(p) =~= b);
}

} // verus!
