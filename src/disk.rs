use vstd::prelude::*;

use crate::raster::{Raster, Rgb, MAX_SIDE, lemma_area_bound};

verus! {

/// Sum of `f(x, top + j)` for `j` in `0..rows`.
pub open spec fn col_sum(f: spec_fn(int, int) -> int, x: int, top: int, rows: nat) -> int
    decreases rows,
{
    if rows == 0 {
        0
    } else {
        col_sum(f, x, top, (rows - 1) as nat) + f(x, top + rows - 1)
    }
}

/// Sum of `f(left + i, top + j)` for `i` in `0..cols` and `j` in `0..rows`.
pub open spec fn rect_sum(f: spec_fn(int, int) -> int, left: int, top: int, cols: nat, rows: nat) -> int
    decreases cols,
{
    if cols == 0 {
        0
    } else {
        rect_sum(f, left, top, (cols - 1) as nat, rows) + col_sum(f, left + cols - 1, top, rows)
    }
}

/// Channel `c` of every pixel of `img`.
pub open spec fn channel_of(img: Raster, c: int) -> spec_fn(int, int) -> int {
    |x: int, y: int| img.at(x, y).channel(c)
}

pub open spec fn sq_diff(a: int, b: int) -> int {
    (a - b) * (a - b)
}

/// Squared error of each pixel of `img` against `color`, summed over the channels.
pub open spec fn error_of(img: Raster, color: Rgb) -> spec_fn(int, int) -> int {
    |x: int, y: int|
        sq_diff(img.at(x, y).r as int, color.r as int) + sq_diff(img.at(x, y).g as int, color.g as int)
            + sq_diff(img.at(x, y).b as int, color.b as int)
}

/// A rational cost `num / den`; `den` is positive for every cost this library builds.
#[derive(Clone, Copy, Debug, PartialEq, Eq, Structural)]
pub struct Cost {
    pub num: u64,
    pub den: u64,
}

impl Cost {
    pub open spec fn wf(self) -> bool {
        self.den > 0
    }

    /// `self <= other` as rationals.
    pub open spec fn spec_le(self, other: Cost) -> bool {
        self.num * other.den <= other.num * self.den
    }

    pub open spec fn spec_zero() -> Cost {
        Cost { num: 0, den: 1 }
    }

    pub fn zero() -> (c: Cost)
        ensures
            c == Cost::spec_zero(),
    {
        Cost { num: 0, den: 1 }
    }

    pub fn le(&self, other: &Cost) -> (r: bool)
        ensures
            r == self.spec_le(*other),
    {
        let a: u128 = self.num as u128;
        let b: u128 = other.den as u128;
        let c: u128 = other.num as u128;
        let d: u128 = self.den as u128;
        assert(a * b <= u64::MAX * u64::MAX) by (nonlinear_arith)
            requires
                a <= u64::MAX,
                b <= u64::MAX,
        ;
        assert(c * d <= u64::MAX * u64::MAX) by (nonlinear_arith)
            requires
                c <= u64::MAX,
                d <= u64::MAX,
        ;
        a * b <= c * d
    }
}

/// A disk drawn in its bounding square `[left, left + width) x [top, top + width)`.
#[derive(Clone, Copy, Debug, PartialEq, Eq, Structural)]
pub struct Disk {
    pub top: u32,
    pub left: u32,
    pub width: u32,
    pub color: Rgb,
}

pub open spec fn spec_abs_diff(a: int, b: int) -> int {
    if a < b {
        b - a
    } else {
        a - b
    }
}

pub fn abs_diff(a: u32, b: u32) -> (r: u32)
    ensures
        r == spec_abs_diff(a as int, b as int),
{
    if a < b {
        b - a
    } else {
        a - b
    }
}

pub fn square_abs_diff(a: u32, b: u32) -> (r: u32)
    requires
        sq_diff(a as int, b as int) <= u32::MAX,
    ensures
        r == sq_diff(a as int, b as int),
{
    let diff = abs_diff(a, b);
    assert(diff * diff == sq_diff(a as int, b as int)) by (nonlinear_arith)
        requires
            diff == spec_abs_diff(a as int, b as int),
    ;
    diff * diff
}

proof fn lemma_sample_sq_bound(a: int, b: int)
    requires
        0 <= a <= 255,
        0 <= b <= 255,
    ensures
        0 <= sq_diff(a, b) <= 65025,
{
    assert(0 <= (a - b) * (a - b) <= 65025) by (nonlinear_arith)
        requires
            -255 <= a - b <= 255,
    ;
}

proof fn lemma_mean_bound(s: int, area: int)
    requires
        0 <= s <= 255 * area,
        area > 0,
    ensures
        0 <= s / area <= 255,
{
    vstd::arithmetic::div_mod::lemma_div_is_ordered(s, area * 255, area);
    vstd::arithmetic::div_mod::lemma_div_multiples_vanish(255, area);
    vstd::arithmetic::div_mod::lemma_div_pos_is_pos(s, area);
}

proof fn lemma_grid_step(i: int, j: int, w: int)
    requires
        0 <= i < w,
        0 <= j < w,
    ensures
        i * w + j + 1 <= w * w,
        (i + 1) * w == i * w + w,
{
    assert(i * w + j + 1 <= w * w) by (nonlinear_arith)
        requires
            0 <= i < w,
            0 <= j < w,
    ;
    assert((i + 1) * w == i * w + w) by (nonlinear_arith);
}

impl Disk {
    pub open spec fn in_square(self, x: int, y: int) -> bool {
        &&& self.left <= x < self.left + self.width
        &&& self.top <= y < self.top + self.width
    }

    /// Integer membership test of the inscribed circle: centre
    /// `(left + width / 2, top + width / 2)`, radius `width / 2`.
    pub open spec fn in_circle(self, x: int, y: int) -> bool {
        let r = self.width / 2;
        let dx = x - (self.left + r);
        let dy = y - (self.top + r);
        dx * dx + dy * dy <= r * r
    }

    /// The pixels that the disk paints: those of its square inside its circle.
    pub open spec fn covers(self, x: int, y: int) -> bool {
        self.in_square(x, y) && self.in_circle(x, y)
    }

    /// The bounding square lies inside the raster.
    pub open spec fn fits(self, img: Raster) -> bool {
        &&& self.left + self.width <= img.width
        &&& self.top + self.width <= img.height
    }

    pub open spec fn area(self) -> int {
        self.width * self.width
    }

    /// Sum of `f` over the bounding square.
    pub open spec fn square_sum(self, f: spec_fn(int, int) -> int) -> int {
        rect_sum(f, self.left as int, self.top as int, self.width as nat, self.width as nat)
    }

    /// Per-channel floor of the mean over the bounding square; black for an empty square.
    pub open spec fn mean_color(self, img: Raster) -> Rgb {
        if self.width == 0 {
            Rgb { r: 0, g: 0, b: 0 }
        } else {
            Rgb {
                r: (self.square_sum(channel_of(img, 0)) / self.area()) as u8,
                g: (self.square_sum(channel_of(img, 1)) / self.area()) as u8,
                b: (self.square_sum(channel_of(img, 2)) / self.area()) as u8,
            }
        }
    }

    /// Mean squared per-channel error of the square against the disk's colour,
    /// as the fraction `sse / (3 * width * width)`; zero for an empty square.
    pub open spec fn spec_cost(self, img: Raster) -> Cost {
        if self.width == 0 {
            Cost::spec_zero()
        } else {
            Cost {
                num: self.square_sum(error_of(img, self.color)) as u64,
                den: (3 * self.area()) as u64,
            }
        }
    }

    /// Indicator of the pixels outside the inscribed circle.
    pub open spec fn outside_count_fn(self) -> spec_fn(int, int) -> int {
        |x: int, y: int|
            if self.in_circle(x, y) {
                0
            } else {
                1
            }
    }

    /// Channel `c` of the pixels outside the inscribed circle, zero inside it.
    pub open spec fn outside_channel_fn(self, img: Raster, c: int) -> spec_fn(int, int) -> int {
        |x: int, y: int|
            if self.in_circle(x, y) {
                0
            } else {
                img.at(x, y).channel(c)
            }
    }

    pub open spec fn spec_children(self) -> Seq<Disk> {
        let h = (self.width / 2) as u32;
        seq![
            Disk { top: self.top, left: self.left, width: h, color: self.color },
            Disk { top: (self.top + h) as u32, left: self.left, width: h, color: self.color },
            Disk { top: self.top, left: (self.left + h) as u32, width: h, color: self.color },
            Disk {
                top: (self.top + h) as u32,
                left: (self.left + h) as u32,
                width: h,
                color: self.color,
            },
        ]
    }

    pub fn new(top: u32, left: u32, width: u32, color: Rgb) -> (d: Disk)
        ensures
            d == (Disk { top, left, width, color }),
    {
        Disk { top, left, width, color }
    }

    pub fn width(&self) -> (w: u32)
        ensures
            w == self.width,
    {
        self.width
    }

    pub fn set_color(&mut self, color: Rgb)
        ensures
            *final(self) == (Disk { color, ..*old(self) }),
    {
        self.color = color;
    }

    /// The same disk with its colour replaced.
    pub fn with_color(&self, color: Rgb) -> (d: Disk)
        ensures
            d == (Disk { color, ..*self }),
    {
        Disk { color, ..*self }
    }

    pub fn inside(&self, x: u32, y: u32) -> (r: bool)
        ensures
            r == self.in_circle(x as int, y as int),
    {
        let rad: u128 = (self.width / 2) as u128;
        let cx: u128 = self.left as u128 + rad;
        let cy: u128 = self.top as u128 + rad;
        let dx: u128 = if (x as u128) < cx { cx - x as u128 } else { x as u128 - cx };
        let dy: u128 = if (y as u128) < cy { cy - y as u128 } else { y as u128 - cy };
        assert(dx * dx <= 0x1_0000_0000_0000_0000_0000) by (nonlinear_arith)
            requires
                dx <= 0x2_0000_0000,
        ;
        assert(dy * dy <= 0x1_0000_0000_0000_0000_0000) by (nonlinear_arith)
            requires
                dy <= 0x2_0000_0000,
        ;
        assert(rad * rad <= 0x1_0000_0000_0000_0000) by (nonlinear_arith)
            requires
                rad <= 0x1_0000_0000,
        ;
        proof {
            let ghost ex = x as int - cx as int;
            let ghost ey = y as int - cy as int;
            assert(dx * dx == ex * ex) by (nonlinear_arith)
                requires
                    dx == ex || dx == -ex,
            ;
            assert(dy * dy == ey * ey) by (nonlinear_arith)
                requires
                    dy == ey || dy == -ey,
            ;
        }
        dx * dx + dy * dy <= rad * rad
    }

    /// Per-channel floor of the mean colour of the bounding square.
    pub fn choose_color(&self, img: &Raster) -> (c: Rgb)
        requires
            img.wf(),
            self.fits(*img),
        ensures
            c == self.mean_color(*img),
    {
        let w = self.width;
        if w == 0 {
            return Rgb::black();
        }
        proof {
            lemma_area_bound(w as int, w as int);
        }
        let ghost f0 = channel_of(*img, 0);
        let ghost f1 = channel_of(*img, 1);
        let ghost f2 = channel_of(*img, 2);
        let mut s0: u64 = 0;
        let mut s1: u64 = 0;
        let mut s2: u64 = 0;
        let ghost mut n: int = 0;
        let mut x: u32 = self.left;
        while x < self.left + w
            invariant
                img.wf(),
                self.fits(*img),
                w == self.width,
                w * w <= MAX_SIDE * MAX_SIDE,
                self.left <= x <= self.left + w,
                n == (x - self.left) * w,
                s0 == rect_sum(f0, self.left as int, self.top as int, (x - self.left) as nat, w as nat),
                s1 == rect_sum(f1, self.left as int, self.top as int, (x - self.left) as nat, w as nat),
                s2 == rect_sum(f2, self.left as int, self.top as int, (x - self.left) as nat, w as nat),
                s0 <= 255 * n,
                s1 <= 255 * n,
                s2 <= 255 * n,
                f0 == channel_of(*img, 0),
                f1 == channel_of(*img, 1),
                f2 == channel_of(*img, 2),
            decreases self.left + w - x,
        {
            let mut y: u32 = self.top;
            let ghost c0 = s0 as int;
            let ghost c1 = s1 as int;
            let ghost c2 = s2 as int;
            while y < self.top + w
                invariant
                    img.wf(),
                    self.fits(*img),
                    w == self.width,
                    w * w <= MAX_SIDE * MAX_SIDE,
                    self.left <= x < self.left + w,
                    self.top <= y <= self.top + w,
                    n == (x - self.left) * w + (y - self.top),
                    s0 == c0 + col_sum(f0, x as int, self.top as int, (y - self.top) as nat),
                    s1 == c1 + col_sum(f1, x as int, self.top as int, (y - self.top) as nat),
                    s2 == c2 + col_sum(f2, x as int, self.top as int, (y - self.top) as nat),
                    s0 <= 255 * n,
                    s1 <= 255 * n,
                    s2 <= 255 * n,
                    f0 == channel_of(*img, 0),
                    f1 == channel_of(*img, 1),
                    f2 == channel_of(*img, 2),
                decreases self.top + w - y,
            {
                proof {
                    lemma_grid_step((x - self.left) as int, (y - self.top) as int, w as int);
                }
                let p = img.get_pixel(x, y);
                s0 = s0 + p.r as u64;
                s1 = s1 + p.g as u64;
                s2 = s2 + p.b as u64;
                proof {
                    n = n + 1;
                }
                y = y + 1;
            }
            proof {
                lemma_grid_step((x - self.left) as int, 0, w as int);
            }
            x = x + 1;
        }
        let area: u64 = (w as u64) * (w as u64);
        proof {
            assert(area > 0) by (nonlinear_arith)
                requires
                    area == w * w,
                    w > 0,
            ;
            lemma_mean_bound(s0 as int, area as int);
            lemma_mean_bound(s1 as int, area as int);
            lemma_mean_bound(s2 as int, area as int);
        }
        Rgb { r: (s0 / area) as u8, g: (s1 / area) as u8, b: (s2 / area) as u8 }
    }

    /// Mean squared per-channel error of the bounding square against the
    /// disk's colour, as an exact fraction.
    pub fn cost(&self, img: &Raster) -> (c: Cost)
        requires
            img.wf(),
            self.fits(*img),
        ensures
            c == self.spec_cost(*img),
            c.wf(),
    {
        let w = self.width;
        if w == 0 {
            return Cost::zero();
        }
        proof {
            lemma_area_bound(w as int, w as int);
        }
        let ghost f = error_of(*img, self.color);
        let mut sum: u64 = 0;
        let ghost mut n: int = 0;
        let mut x: u32 = self.left;
        while x < self.left + w
            invariant
                img.wf(),
                self.fits(*img),
                w == self.width,
                w * w <= MAX_SIDE * MAX_SIDE,
                self.left <= x <= self.left + w,
                n == (x - self.left) * w,
                sum == rect_sum(f, self.left as int, self.top as int, (x - self.left) as nat, w as nat),
                sum <= 195075 * n,
                f == error_of(*img, self.color),
            decreases self.left + w - x,
        {
            let mut y: u32 = self.top;
            let ghost c = sum as int;
            while y < self.top + w
                invariant
                    img.wf(),
                    self.fits(*img),
                    w == self.width,
                    w * w <= MAX_SIDE * MAX_SIDE,
                    self.left <= x < self.left + w,
                    self.top <= y <= self.top + w,
                    n == (x - self.left) * w + (y - self.top),
                    sum == c + col_sum(f, x as int, self.top as int, (y - self.top) as nat),
                    sum <= 195075 * n,
                    f == error_of(*img, self.color),
                decreases self.top + w - y,
            {
                proof {
                    lemma_grid_step((x - self.left) as int, (y - self.top) as int, w as int);
                }
                let p = img.get_pixel(x, y);
                proof {
                    lemma_sample_sq_bound(p.r as int, self.color.r as int);
                    lemma_sample_sq_bound(p.g as int, self.color.g as int);
                    lemma_sample_sq_bound(p.b as int, self.color.b as int);
                }
                let e0 = square_abs_diff(p.r as u32, self.color.r as u32);
                let e1 = square_abs_diff(p.g as u32, self.color.g as u32);
                let e2 = square_abs_diff(p.b as u32, self.color.b as u32);
                sum = sum + e0 as u64 + e1 as u64 + e2 as u64;
                proof {
                    n = n + 1;
                }
                y = y + 1;
            }
            proof {
                lemma_grid_step((x - self.left) as int, 0, w as int);
            }
            x = x + 1;
        }
        let den: u64 = 3 * ((w as u64) * (w as u64));
        proof {
            assert(w * w > 0) by (nonlinear_arith)
                requires
                    w > 0,
            ;
        }
        Cost { num: sum, den }
    }

    /// Pixel count and per-channel sums over the part of the bounding square
    /// that lies outside the inscribed circle.
    pub fn backgrounds_sums(&self, img: &Raster) -> (r: (u64, [u64; 3]))
        requires
            img.wf(),
            self.fits(*img),
        ensures
            r.0 == self.square_sum(self.outside_count_fn()),
            r.1@[0] == self.square_sum(self.outside_channel_fn(*img, 0)),
            r.1@[1] == self.square_sum(self.outside_channel_fn(*img, 1)),
            r.1@[2] == self.square_sum(self.outside_channel_fn(*img, 2)),
            r.0 <= self.area(),
            r.1@[0] <= 255 * self.area(),
            r.1@[1] <= 255 * self.area(),
            r.1@[2] <= 255 * self.area(),
    {
        let w = self.width;
        proof {
            lemma_area_bound(w as int, w as int);
        }
        let ghost fc = self.outside_count_fn();
        let ghost f0 = self.outside_channel_fn(*img, 0);
        let ghost f1 = self.outside_channel_fn(*img, 1);
        let ghost f2 = self.outside_channel_fn(*img, 2);
        let mut count: u64 = 0;
        let mut s0: u64 = 0;
        let mut s1: u64 = 0;
        let mut s2: u64 = 0;
        let ghost mut n: int = 0;
        let mut x: u32 = self.left;
        while x < self.left + w
            invariant
                img.wf(),
                self.fits(*img),
                w == self.width,
                w * w <= MAX_SIDE * MAX_SIDE,
                self.left <= x <= self.left + w,
                n == (x - self.left) * w,
                count == rect_sum(fc, self.left as int, self.top as int, (x - self.left) as nat, w as nat),
                s0 == rect_sum(f0, self.left as int, self.top as int, (x - self.left) as nat, w as nat),
                s1 == rect_sum(f1, self.left as int, self.top as int, (x - self.left) as nat, w as nat),
                s2 == rect_sum(f2, self.left as int, self.top as int, (x - self.left) as nat, w as nat),
                count <= n,
                s0 <= 255 * n,
                s1 <= 255 * n,
                s2 <= 255 * n,
                fc == self.outside_count_fn(),
                f0 == self.outside_channel_fn(*img, 0),
                f1 == self.outside_channel_fn(*img, 1),
                f2 == self.outside_channel_fn(*img, 2),
            decreases self.left + w - x,
        {
            let mut y: u32 = self.top;
            let ghost cc = count as int;
            let ghost c0 = s0 as int;
            let ghost c1 = s1 as int;
            let ghost c2 = s2 as int;
            while y < self.top + w
                invariant
                    img.wf(),
                    self.fits(*img),
                    w == self.width,
                    w * w <= MAX_SIDE * MAX_SIDE,
                    self.left <= x < self.left + w,
                    self.top <= y <= self.top + w,
                    n == (x - self.left) * w + (y - self.top),
                    count == cc + col_sum(fc, x as int, self.top as int, (y - self.top) as nat),
                    s0 == c0 + col_sum(f0, x as int, self.top as int, (y - self.top) as nat),
                    s1 == c1 + col_sum(f1, x as int, self.top as int, (y - self.top) as nat),
                    s2 == c2 + col_sum(f2, x as int, self.top as int, (y - self.top) as nat),
                    count <= n,
                    s0 <= 255 * n,
                    s1 <= 255 * n,
                    s2 <= 255 * n,
                    fc == self.outside_count_fn(),
                    f0 == self.outside_channel_fn(*img, 0),
                    f1 == self.outside_channel_fn(*img, 1),
                    f2 == self.outside_channel_fn(*img, 2),
                decreases self.top + w - y,
            {
                proof {
                    lemma_grid_step((x - self.left) as int, (y - self.top) as int, w as int);
                }
                let p = img.get_pixel(x, y);
                if !self.inside(x, y) {
                    count = count + 1;
                    s0 = s0 + p.r as u64;
                    s1 = s1 + p.g as u64;
                    s2 = s2 + p.b as u64;
                }
                proof {
                    n = n + 1;
                }
                y = y + 1;
            }
            proof {
                lemma_grid_step((x - self.left) as int, 0, w as int);
            }
            x = x + 1;
        }
        (count, [s0, s1, s2])
    }

    /// Paints every pixel of the bounding square that lies inside the circle.
    pub fn draw(&self, img: &mut Raster)
        requires
            old(img).wf(),
            self.fits(*old(img)),
        ensures
            final(img).wf(),
            final(img).width == old(img).width,
            final(img).height == old(img).height,
            forall|i: int, j: int|
                final(img).contains(i, j) ==> #[trigger] final(img).at(i, j) == (if self.covers(i, j) {
                    self.color
                } else {
                    old(img).at(i, j)
                }),
    {
        let w = self.width;
        let ghost orig = *img;
        let mut x: u32 = self.left;
        while x < self.left + w
            invariant
                img.wf(),
                self.fits(*img),
                w == self.width,
                img.width == orig.width,
                img.height == orig.height,
                self.left <= x <= self.left + w,
                forall|i: int, j: int|
                    img.contains(i, j) ==> #[trigger] img.at(i, j) == (if self.covers(i, j) && i < x {
                        self.color
                    } else {
                        orig.at(i, j)
                    }),
            decreases self.left + w - x,
        {
            let mut y: u32 = self.top;
            while y < self.top + w
                invariant
                    img.wf(),
                    self.fits(*img),
                    w == self.width,
                    img.width == orig.width,
                    img.height == orig.height,
                    self.left <= x < self.left + w,
                    self.top <= y <= self.top + w,
                    forall|i: int, j: int|
                        img.contains(i, j) ==> #[trigger] img.at(i, j) == (if self.covers(i, j) && (i < x
                            || (i == x && j < y)) {
                            self.color
                        } else {
                            orig.at(i, j)
                        }),
                decreases self.top + w - y,
            {
                if self.inside(x, y) {
                    img.put_pixel(x, y, self.color);
                }
                y = y + 1;
            }
            x = x + 1;
        }
    }

    /// The four quadrant disks of width `width / 2`, coloured as `self`.
    pub fn split(&self) -> (r: [Disk; 4])
        requires
            self.top + self.width / 2 <= u32::MAX,
            self.left + self.width / 2 <= u32::MAX,
        ensures
            r@ == self.spec_children(),
    {
        let h = self.width / 2;
        let r = [
            Disk::new(self.top, self.left, h, self.color),
            Disk::new(self.top + h, self.left, h, self.color),
            Disk::new(self.top, self.left + h, h, self.color),
            Disk::new(self.top + h, self.left + h, h, self.color),
        ];
        assert(r@ =~= self.spec_children());
        r
    }
}

} // verus!
