use vstd::arithmetic::div_mod::lemma_div_multiples_vanish;
use vstd::prelude::*;

use crate::error::EngineError;
use crate::metric::{lemma_quotient_le, target_value, MetricMode, MAX_FULL, MAX_VALUE, UNIT};

verus! {

/// Channel layout of a decoded buffer.
#[derive(Clone, Copy, Debug, PartialEq, Eq, Structural)]
pub enum Layout {
    Luma,
    LumaAlpha,
    Rgb,
    Rgba,
}

/// Raw samples of a decoded buffer, by sample depth.
#[derive(Debug)]
pub enum Samples {
    Eight(Vec<u8>),
    Sixteen(Vec<u16>),
}

/// A rectangle of pixels: top-left corner and size.
#[derive(Clone, Copy, Debug, PartialEq, Eq, Structural)]
pub struct Rect {
    pub x: u32,
    pub y: u32,
    pub width: u32,
    pub height: u32,
}

/// One decoded image: its size, layout and samples in row-major order.
pub struct PixelBuffer {
    width: u32,
    height: u32,
    layout: Layout,
    samples: Samples,
}

/// What a pixel buffer holds, as mathematical values.
pub ghost struct PixelsView {
    pub width: int,
    pub height: int,
    pub layout: Layout,
    /// The sample value that stands for full intensity.
    pub full: int,
    pub samples: Seq<int>,
}

pub open spec fn channels(layout: Layout) -> int {
    match layout {
        Layout::Luma => 1,
        Layout::LumaAlpha => 2,
        Layout::Rgb => 3,
        Layout::Rgba => 4,
    }
}

pub open spec fn samples_view(samples: Samples) -> Seq<int> {
    match samples {
        Samples::Eight(v) => v@.map_values(|s: u8| s as int),
        Samples::Sixteen(v) => v@.map_values(|s: u16| s as int),
    }
}

pub open spec fn full_of(samples: Samples) -> int {
    match samples {
        Samples::Eight(_) => 255,
        Samples::Sixteen(_) => 65535,
    }
}

impl PixelsView {
    pub open spec fn wf(self) -> bool {
        &&& self.full == 255 || self.full == 65535
        &&& self.width >= 0
        &&& self.height >= 0
        &&& self.samples.len() == self.width * self.height * channels(self.layout)
        &&& forall|i: int| 0 <= i < self.samples.len() ==> 0 <= #[trigger] self.samples[i] <= self.full
    }

    /// The rectangle lies within the image and holds at least one pixel.
    pub open spec fn holds(self, rect: Rect) -> bool {
        &&& rect.width > 0
        &&& rect.height > 0
        &&& rect.x + rect.width <= self.width
        &&& rect.y + rect.height <= self.height
    }
}

/// The scalar measured of pixel `p` (row-major index). Alpha premultiplies
/// every channel before the metric; a gray buffer yields its (alpha-weighted)
/// gray level whatever the mode.
pub open spec fn pixel_value(mode: MetricMode, img: PixelsView, p: int) -> int {
    let s = img.samples;
    let f = img.full;
    let base = p * channels(img.layout);
    match img.layout {
        Layout::Luma => UNIT * s[base] / f,
        Layout::LumaAlpha => UNIT * (s[base] * s[base + 1]) / (f * f),
        Layout::Rgb => target_value(mode, s[base], s[base + 1], s[base + 2], f),
        Layout::Rgba => target_value(
            mode,
            s[base] * s[base + 3],
            s[base + 1] * s[base + 3],
            s[base + 2] * s[base + 3],
            f * f,
        ),
    }
}

/// Sum of the first `k` pixels of row `row` of `rect`.
pub open spec fn row_sum(mode: MetricMode, img: PixelsView, rect: Rect, row: int, k: int) -> int
    decreases k,
{
    if k <= 0 {
        0
    } else {
        row_sum(mode, img, rect, row, k - 1) + pixel_value(
            mode,
            img,
            (rect.y + row) * img.width + rect.x + k - 1,
        )
    }
}

/// Sum over the first `rows` rows of `rect`.
pub open spec fn rect_sum(mode: MetricMode, img: PixelsView, rect: Rect, rows: int) -> int
    decreases rows,
{
    if rows <= 0 {
        0
    } else {
        rect_sum(mode, img, rect, rows - 1) + row_sum(mode, img, rect, rows - 1, rect.width as int)
    }
}

/// Mean of the pixel values over `rect`, rounded down.
pub open spec fn rect_mean(mode: MetricMode, img: PixelsView, rect: Rect) -> int {
    rect_sum(mode, img, rect, rect.height as int) / (rect.width * rect.height)
}

/// Every row prefix of a rectangle whose pixels all measure `v` sums to `k * v`.
proof fn lemma_row_sum_uniform(mode: MetricMode, img: PixelsView, rect: Rect, row: int, k: int, v: int)
    requires
        img.wf(),
        img.holds(rect),
        0 <= row < rect.height,
        0 <= k <= rect.width,
        forall|p: int| 0 <= p < img.width * img.height ==> #[trigger] pixel_value(mode, img, p) == v,
    ensures
        row_sum(mode, img, rect, row, k) == k * v,
    decreases k,
{
    if k > 0 {
        lemma_row_sum_uniform(mode, img, rect, row, k - 1, v);
        let y = rect.y + row;
        let x = rect.x + k - 1;
        assert(0 <= y * img.width + x < img.width * img.height) by (nonlinear_arith)
            requires 0 <= y < img.height, 0 <= x < img.width;
        assert(pixel_value(mode, img, y * img.width + x) == v);
        assert(row_sum(mode, img, rect, row, k) == row_sum(mode, img, rect, row, k - 1) + pixel_value(
            mode,
            img,
            y * img.width + x,
        ));
        assert((k - 1) * v + v == k * v) by (nonlinear_arith);
    } else {
        assert(k * v == 0) by (nonlinear_arith)
            requires k == 0;
    }
}

proof fn lemma_rect_sum_uniform(mode: MetricMode, img: PixelsView, rect: Rect, rows: int, v: int)
    requires
        img.wf(),
        img.holds(rect),
        0 <= rows <= rect.height,
        forall|p: int| 0 <= p < img.width * img.height ==> #[trigger] pixel_value(mode, img, p) == v,
    ensures
        rect_sum(mode, img, rect, rows) == rows * rect.width * v,
    decreases rows,
{
    if rows > 0 {
        lemma_rect_sum_uniform(mode, img, rect, rows - 1, v);
        lemma_row_sum_uniform(mode, img, rect, rows - 1, rect.width as int, v);
        assert(rect_sum(mode, img, rect, rows) == rect_sum(mode, img, rect, rows - 1) + row_sum(
            mode,
            img,
            rect,
            rows - 1,
            rect.width as int,
        ));
        assert((rows - 1) * rect.width * v + rect.width * v == rows * rect.width * v)
            by (nonlinear_arith);
    } else {
        assert(rows * rect.width * v == 0) by (nonlinear_arith)
            requires rows == 0;
    }
}

/// An image of one RGB color throughout measures, over any region, exactly
/// the metric of that color.
pub proof fn lemma_uniform_image(mode: MetricMode, img: PixelsView, rect: Rect, r: int, g: int, b: int)
    requires
        img.wf(),
        img.holds(rect),
        img.layout == Layout::Rgb,
        forall|p: int|
            0 <= p < img.width * img.height ==> {
                &&& #[trigger] img.samples[3 * p] == r
                &&& img.samples[3 * p + 1] == g
                &&& img.samples[3 * p + 2] == b
            },
    ensures
        rect_mean(mode, img, rect) == target_value(mode, r, g, b, img.full),
{
    let v = target_value(mode, r, g, b, img.full);
    assert forall|p: int| 0 <= p < img.width * img.height implies #[trigger] pixel_value(mode, img, p)
        == v by {
        assert(img.samples[3 * p] == r);
        assert(p * 3 == 3 * p);
    }
    lemma_rect_sum_uniform(mode, img, rect, rect.height as int, v);
    let n = rect.width * rect.height;
    assert(rect.height * rect.width * v == n * v) by (nonlinear_arith)
        requires n == rect.width * rect.height;
    assert(n > 0) by (nonlinear_arith)
        requires rect.width > 0, rect.height > 0, n == rect.width * rect.height;
    lemma_div_multiples_vanish(v, n);
    assert(n * v == v * n) by (nonlinear_arith);
}

/// A fully transparent pixel measures zero, whatever its color and the mode.
pub proof fn lemma_transparent_pixel(mode: MetricMode, img: PixelsView, p: int)
    requires
        img.wf(),
        0 <= p < img.width * img.height,
        img.layout == Layout::LumaAlpha || img.layout == Layout::Rgba,
        img.samples[p * channels(img.layout) + channels(img.layout) - 1] == 0,
    ensures
        pixel_value(mode, img, p) == 0,
{
    let f = img.full;
    assert(f * f > 0) by (nonlinear_arith)
        requires f > 0;
    let c = channels(img.layout);
    let base = p * c;
    assert(0 <= base && base + c <= img.width * img.height * c) by (nonlinear_arith)
        requires 0 <= p < img.width * img.height, c >= 1, base == p * c;
    let a = img.samples[base + c - 1];
    if img.layout == Layout::LumaAlpha {
        let l = img.samples[base];
        assert(l * a == 0) by (nonlinear_arith)
            requires a == 0;
    } else {
        let (r, g, b) = (img.samples[base], img.samples[base + 1], img.samples[base + 2]);
        assert(r * a == 0 && g * a == 0 && b * a == 0) by (nonlinear_arith)
            requires a == 0;
    }
}

impl View for PixelBuffer {
    type V = PixelsView;

    closed spec fn view(&self) -> PixelsView {
        PixelsView {
            width: self.width as int,
            height: self.height as int,
            layout: self.layout,
            full: full_of(self.samples),
            samples: samples_view(self.samples),
        }
    }
}

impl PixelBuffer {
    #[verifier::type_invariant]
    spec fn inv(self) -> bool {
        self@.wf()
    }

    /// Wraps decoded samples; fails when their number does not match the
    /// dimensions and layout.
    pub fn new(width: u32, height: u32, layout: Layout, samples: Samples) -> (r: Result<
        PixelBuffer,
        EngineError,
    >)
        ensures
            r is Ok <==> samples_view(samples).len() == width * height * channels(layout),
            r matches Ok(b) ==> b@ == (PixelsView {
                width: width as int,
                height: height as int,
                layout,
                full: full_of(samples),
                samples: samples_view(samples),
            }),
            r matches Err(e) ==> e == EngineError::UnsupportedFormat,
    {
        let c: u128 = match layout {
            Layout::Luma => 1,
            Layout::LumaAlpha => 2,
            Layout::Rgb => 3,
            Layout::Rgba => 4,
        };
        let len = match &samples {
            Samples::Eight(v) => v.len(),
            Samples::Sixteen(v) => v.len(),
        };
        assert(width * height <= 0xffff_ffff * 0xffff_ffff) by (nonlinear_arith)
            requires width <= 0xffff_ffff, height <= 0xffff_ffff;
        let wh = width as u128 * height as u128;
        assert(wh * c <= 0xffff_ffff_ffff_ffff * 4) by (nonlinear_arith)
            requires wh == width * height, c <= 4, width <= 0xffff_ffff, height <= 0xffff_ffff;
        let expected = wh * c;
        if len as u128 == expected {
            let b = PixelBuffer { width, height, layout, samples };
            assert(b@.samples.len() == len);
            assert forall|i: int| 0 <= i < b@.samples.len() implies 0 <= #[trigger] b@.samples[i]
                <= b@.full by {}
            Ok(b)
        } else {
            Err(EngineError::UnsupportedFormat)
        }
    }

    pub fn width(&self) -> (w: u32)
        ensures
            w == self@.width,
    {
        self.width
    }

    pub fn height(&self) -> (h: u32)
        ensures
            h == self@.height,
    {
        self.height
    }

    fn full(&self) -> (f: u64)
        ensures
            f == self@.full,
    {
        match &self.samples {
            Samples::Eight(_) => 255,
            Samples::Sixteen(_) => 65535,
        }
    }

    fn sample(&self, i: usize) -> (s: u64)
        requires
            i < self@.samples.len(),
        ensures
            s == self@.samples[i as int],
    {
        match &self.samples {
            Samples::Eight(v) => v[i] as u64,
            Samples::Sixteen(v) => v[i] as u64,
        }
    }
    fn sample_count(&self) -> (n: usize)
        ensures
            n == self@.samples.len(),
    {
        match &self.samples {
            Samples::Eight(v) => v.len(),
            Samples::Sixteen(v) => v.len(),
        }
    }

    /// The measured scalar of pixel `p` (row-major index).
    fn pixel_value_at(&self, mode: MetricMode, p: usize) -> (v: u64)
        requires
            p < self@.width * self@.height,
        ensures
            v == pixel_value(mode, self@, p as int),
            v <= MAX_VALUE,
    {
        proof {
            use_type_invariant(self);
        }
        let f = self.full();
        assert(0 < f * f <= MAX_FULL) by (nonlinear_arith)
            requires 0 < f <= 65535;
        let n = self.sample_count();
        let ghost c = channels(self@.layout);
        let ghost wh = self@.width * self@.height;
        assert(p * c + c <= n) by (nonlinear_arith)
            requires p < wh, n == wh * c, c >= 1;
        match self.layout {
            Layout::Luma => {
                let l = self.sample(p);
                MetricMode::Red.get_target_value(l, l, l, f)
            },
            Layout::LumaAlpha => {
                let base = p * 2;
                let l = self.sample(base);
                let a = self.sample(base + 1);
                assert(l * a <= f * f) by (nonlinear_arith)
                    requires l <= f, a <= f;
                let la = l * a;
                MetricMode::Red.get_target_value(la, la, la, f * f)
            },
            Layout::Rgb => {
                let base = p * 3;
                let r = self.sample(base);
                let g = self.sample(base + 1);
                let b = self.sample(base + 2);
                mode.get_target_value(r, g, b, f)
            },
            Layout::Rgba => {
                let base = p * 4;
                let r = self.sample(base);
                let g = self.sample(base + 1);
                let b = self.sample(base + 2);
                let a = self.sample(base + 3);
                assert(r * a <= f * f && g * a <= f * f && b * a <= f * f) by (nonlinear_arith)
                    requires r <= f, g <= f, b <= f, a <= f;
                mode.get_target_value(r * a, g * a, b * a, f * f)
            },
        }
    }

    /// Mean of the pixel values over `rect`, rounded down.
    pub fn mean_over(&self, mode: MetricMode, rect: Rect) -> (m: u64)
        requires
            self@.holds(rect),
        ensures
            m == rect_mean(mode, self@, rect),
    {
        proof {
            use_type_invariant(self);
        }
        let n = self.sample_count();
        let ghost wh = self@.width * self@.height;
        assert(wh <= n) by (nonlinear_arith)
            requires n == wh * channels(self@.layout), channels(self@.layout) >= 1, wh >= 0;
        let w = self.width as usize;
        let mut total: u128 = 0;
        let mut row: u32 = 0;
        while row < rect.height
            invariant
                self@.wf(),
                self@.holds(rect),
                wh == self@.width * self@.height,
                wh <= n,
                w == self@.width,
                row <= rect.height,
                total == rect_sum(mode, self@, rect, row as int),
                total <= row * rect.width * MAX_VALUE,
            decreases rect.height - row,
        {
            let y = rect.y + row;
            assert(y * w + rect.x + rect.width <= wh) by (nonlinear_arith)
                requires
                    y < self@.height,
                    rect.x + rect.width <= w,
                    wh == w * self@.height;
            let line = y as usize * w + rect.x as usize;
            let mut col: u32 = 0;
            while col < rect.width
                invariant
                    self@.wf(),
                    self@.holds(rect),
                    wh == self@.width * self@.height,
                    wh <= n,
                    line == (rect.y + row) * self@.width + rect.x,
                    line + rect.width <= wh,
                    row < rect.height,
                    col <= rect.width,
                    total == rect_sum(mode, self@, rect, row as int) + row_sum(
                        mode,
                        self@,
                        rect,
                        row as int,
                        col as int,
                    ),
                    total <= (row * rect.width + col) * MAX_VALUE,
                decreases rect.width - col,
            {
                let v = self.pixel_value_at(mode, line + col as usize);
                assert((row * rect.width + col) * MAX_VALUE + v <= (row * rect.width + col + 1)
                    * MAX_VALUE) by (nonlinear_arith)
                    requires v <= MAX_VALUE;
                assert((row * rect.width + col + 1) * MAX_VALUE <= 0x1_0000_0000
                    * 0x1_0000_0000 * MAX_VALUE) by (nonlinear_arith)
                    requires
                        row < rect.height,
                        col < rect.width,
                        rect.height <= 0xffff_ffff,
                        rect.width <= 0xffff_ffff;
                total = total + v as u128;
                col = col + 1;
            }
            assert((row * rect.width + rect.width) == (row + 1) * rect.width) by (nonlinear_arith);
            row = row + 1;
        }
        assert(0 < rect.width * rect.height <= 0xffff_ffff * 0xffff_ffff) by (nonlinear_arith)
            requires 0 < rect.width <= 0xffff_ffff, 0 < rect.height <= 0xffff_ffff;
        let count = rect.width as u128 * rect.height as u128;
        assert(total <= MAX_VALUE * count) by (nonlinear_arith)
            requires total <= rect.height * rect.width * MAX_VALUE, count == rect.width * rect.height;
        proof {
            lemma_quotient_le(total as int, count as int, MAX_VALUE as int);
        }
        (total / count) as u64
    }
}

} // verus!
