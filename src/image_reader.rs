use vstd::prelude::*;

use crate::colour::{Rgb, BLACK};
use crate::grid2d::{lemma_row_major, row_major, Grid2D};
use crate::sample::Sample;
use crate::vector2::Vector2;

verus! {

/// A decoded exemplar: `width` × `height` colours in row-major order.
#[derive(Debug, Clone)]
pub struct Image {
    pub width: usize,
    pub height: usize,
    pub pixels: Vec<Rgb>,
}

/// Whether `s` is the `n` × `n` window of `img` whose top-left corner is
/// `(x0, y0)`, read with wrap-around at the image's edges.
pub open spec fn is_window(img: Image, s: Sample, x0: int, y0: int, n: int) -> bool {
    &&& s.wf()
    &&& s.width() == n
    &&& s.height() == n
    &&& forall|i: int, j: int|
        0 <= i < n && 0 <= j < n ==> #[trigger] s.px(i, j) == img.pixel(
            (x0 + i) % img.width as int,
            (y0 + j) % img.height as int,
        )@
}

impl Image {
    pub open spec fn wf(&self) -> bool {
        &&& self.pixels@.len() == self.width * self.height
        &&& self.width <= i32::MAX
        &&& self.height <= i32::MAX
    }

    pub open spec fn in_bounds(&self, at: Vector2) -> bool {
        0 <= at.x < self.width && 0 <= at.y < self.height
    }

    /// The colour at `(x, y)`.
    pub open spec fn pixel(&self, x: int, y: int) -> Rgb {
        row_major(self.pixels@, self.width as int, x, y)
    }

    /// An all-black image.
    pub fn new(width: usize, height: usize) -> (r: Image)
        requires
            width * height <= usize::MAX,
            width <= i32::MAX,
            height <= i32::MAX,
        ensures
            r.wf(),
            r.width == width,
            r.height == height,
            forall|i: int| 0 <= i < r.pixels@.len() ==> r.pixels@[i] == BLACK,
    {
        let grid = Grid2D::init(width, height, BLACK);
        Image { width, height, pixels: grid.data }
    }

    /// Index of a position in the pixel sequence.
    pub fn idx(&self, at: Vector2) -> (r: usize)
        requires
            self.wf(),
            self.in_bounds(at),
        ensures
            r == at.y * self.width + at.x,
            r < self.pixels@.len(),
    {
        let total = self.pixels.len();
        proof {
            lemma_row_major(self.width as int, self.height as int, at.x as int, at.y as int);
        }
        (at.y as usize * self.width) + at.x as usize
    }

    /// Colour at a position.
    pub fn at(&self, at: Vector2) -> (r: Rgb)
        requires
            self.wf(),
            self.in_bounds(at),
        ensures
            r == self.pixel(at.x as int, at.y as int),
    {
        let idx = self.idx(at);
        self.pixels[idx]
    }

    /// Sets the colour at a position.
    pub fn set_colour(&mut self, at: Vector2, colour: Rgb)
        requires
            old(self).wf(),
            old(self).in_bounds(at),
        ensures
            final(self).wf(),
            final(self).width == old(self).width,
            final(self).height == old(self).height,
            final(self).pixels@ == old(self).pixels@.update(at.y * old(self).width + at.x, colour),
    {
        let idx = self.idx(at);
        self.pixels.set(idx, colour);
    }

    /// The `width` × `height` block whose top-left corner is `(xs, ys)`,
    /// wrapping around the image's edges.
    pub fn get_region(&self, xs: &i32, ys: &i32, width: &i32, height: &i32) -> (r: Sample)
        requires
            self.wf(),
            self.width > 0,
            self.height > 0,
            *xs >= 0,
            *ys >= 0,
            *width >= 0,
            *height >= 0,
            *xs + *width <= i32::MAX,
            *ys + *height <= i32::MAX,
            *width * *height <= usize::MAX,
        ensures
            r.wf(),
            r.width() == *width,
            r.height() == *height,
            forall|i: int, j: int|
                0 <= i < *width && 0 <= j < *height ==> #[trigger] r.px(i, j) == self.pixel(
                    (*xs + i) % self.width as int,
                    (*ys + j) % self.height as int,
                )@,
    {
        let w = *width as usize;
        let h = *height as usize;
        let mut data: Vec<Rgb> = Vec::new();
        let mut j: usize = 0;
        while j < h
            invariant
                self.wf(),
                self.width > 0,
                self.height > 0,
                w == *width,
                h == *height,
                *xs >= 0,
                *ys >= 0,
                *xs + *width <= i32::MAX,
                *ys + *height <= i32::MAX,
                j <= h,
                data@.len() == j * w,
                forall|a: int, b: int|
                    0 <= a < w && 0 <= b < j ==> #[trigger] row_major(data@, w as int, a, b)
                        == self.pixel((*xs + a) % self.width as int, (*ys + b) % self.height as int),
            decreases h - j,
        {
            let mut i: usize = 0;
            while i < w
                invariant
                    self.wf(),
                    self.width > 0,
                    self.height > 0,
                    w == *width,
                    h == *height,
                    *xs >= 0,
                    *ys >= 0,
                    *xs + *width <= i32::MAX,
                    *ys + *height <= i32::MAX,
                    j < h,
                    i <= w,
                    data@.len() == j * w + i,
                    forall|a: int, b: int|
                        0 <= a < w && 0 <= b < j ==> #[trigger] row_major(data@, w as int, a, b)
                            == self.pixel(
                            (*xs + a) % self.width as int,
                            (*ys + b) % self.height as int,
                        ),
                    forall|a: int|
                        0 <= a < i ==> #[trigger] row_major(data@, w as int, a, j as int)
                            == self.pixel(
                            (*xs + a) % self.width as int,
                            (*ys + j) % self.height as int,
                        ),
                decreases w - i,
            {
                let px = (*xs + i as i32) % (self.width as i32);
                let py = (*ys + j as i32) % (self.height as i32);
                let v = self.at(Vector2 { x: px, y: py });
                let ghost old_data = data@;
                data.push(v);
                proof {
                    assert forall|a: int, b: int| 0 <= a < w && 0 <= b < j implies #[trigger] row_major(
                        data@,
                        w as int,
                        a,
                        b,
                    ) == self.pixel((*xs + a) % self.width as int, (*ys + b) % self.height as int) by {
                        lemma_row_major(w as int, j as int, a, b);
                        assert(w * j == j * w) by (nonlinear_arith);
                        assert(row_major(old_data, w as int, a, b) == self.pixel(
                            (*xs + a) % self.width as int,
                            (*ys + b) % self.height as int,
                        ));
                    }
                    assert forall|a: int| 0 <= a < i + 1 implies #[trigger] row_major(
                        data@,
                        w as int,
                        a,
                        j as int,
                    ) == self.pixel((*xs + a) % self.width as int, (*ys + j) % self.height as int) by {
                        assert(0 <= j * w) by (nonlinear_arith)
                            requires
                                0 <= j,
                                0 <= w,
                        ;
                        if a < i {
                            assert(row_major(old_data, w as int, a, j as int) == self.pixel(
                                (*xs + a) % self.width as int,
                                (*ys + j) % self.height as int,
                            ));
                        }
                    }
                }
                i = i + 1;
            }
            proof {
                assert((j + 1) * w == j * w + w) by (nonlinear_arith);
                assert forall|a: int, b: int| 0 <= a < w && 0 <= b < j + 1 implies #[trigger] row_major(
                    data@,
                    w as int,
                    a,
                    b,
                ) == self.pixel((*xs + a) % self.width as int, (*ys + b) % self.height as int) by {
                    if b == j {
                        assert(row_major(data@, w as int, a, j as int) == self.pixel(
                            (*xs + a) % self.width as int,
                            (*ys + j) % self.height as int,
                        ));
                    }
                }
            }
            j = j + 1;
        }
        assert(h * w == w * h) by (nonlinear_arith);
        let r = Sample { region: Grid2D { width: w, height: h, data } };
        proof {
            assert forall|i: int, j: int| 0 <= i < *width && 0 <= j < *height implies #[trigger] r.px(
                i,
                j,
            ) == self.pixel((*xs + i) % self.width as int, (*ys + j) % self.height as int)@ by {
                assert(row_major(r.region.data@, w as int, i, j) == self.pixel(
                    (*xs + i) % self.width as int,
                    (*ys + j) % self.height as int,
                ));
            }
        }
        r
    }

    /// Every `n` × `n` window of the image, wrapping around its edges, one per
    /// pixel: the window at index `k` has its corner at the `k`-th pixel.
    pub fn sample(&self, n: i32) -> (r: Vec<Sample>)
        requires
            self.wf(),
            self.width > 0,
            self.height > 0,
            n >= 0,
            self.width + n <= i32::MAX,
            self.height + n <= i32::MAX,
            n * n <= usize::MAX,
        ensures
            r@.len() == self.pixels@.len(),
            forall|k: int|
                0 <= k < r@.len() ==> is_window(
                    *self,
                    #[trigger] r@[k],
                    k % self.width as int,
                    k / self.width as int,
                    n as int,
                ),
    {
        let total = self.pixels.len();
        let mut samples: Vec<Sample> = Vec::new();
        let mut idx: usize = 0;
        while idx < total
            invariant
                self.wf(),
                self.width > 0,
                self.height > 0,
                n >= 0,
                self.width + n <= i32::MAX,
                self.height + n <= i32::MAX,
                n * n <= usize::MAX,
                total == self.pixels@.len(),
                idx <= total,
                samples@.len() == idx,
                forall|k: int|
                    0 <= k < idx ==> is_window(
                        *self,
                        #[trigger] samples@[k],
                        k % self.width as int,
                        k / self.width as int,
                        n as int,
                    ),
            decreases total - idx,
        {
            let x = idx % self.width;
            let y = idx / self.width;
            proof {
                crate::grid2d::lemma_coord_of(self.width as int, self.height as int, idx as int);
            }
            let xi = x as i32;
            let yi = y as i32;
            let s = self.get_region(&xi, &yi, &n, &n);
            samples.push(s);
            idx = idx + 1;
        }
        samples
    }
}

} // verus!
