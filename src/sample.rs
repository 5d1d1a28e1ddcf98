use vstd::prelude::*;

use crate::colour::{same_colour, Rgb};
use crate::direction::Direction;
use crate::grid2d::{lemma_row_major, row_major, Grid2D};
use crate::vector2::{step_x, step_y, Vector2};

verus! {

/// Index of a pattern in a model's pattern list.
pub type SampleID = usize;

/// A rectangular (in practice N × N) block of pixels taken from an exemplar.
#[derive(Debug, Clone)]
pub struct Sample {
    pub region: Grid2D<Rgb>,
}

/// Relies on `transpose::transpose`: the element at `(x, y)` of the row-major
/// `width` × `height` input lands at `(y, x)` of the `height` × `width` output.
#[verifier::external_body]
fn transpose_pixels(input: &Vec<Rgb>, width: usize, height: usize) -> (r: Vec<Rgb>)
    requires
        input@.len() == width * height,
    ensures
        r@.len() == input@.len(),
        forall|x: int, y: int|
            0 <= x < width && 0 <= y < height ==> #[trigger] row_major(r@, height as int, y, x)
                == row_major(input@, width as int, x, y),
{
    let mut output = vec![[0u8, 0u8, 0u8]; input.len()];
    transpose::transpose(input, &mut output, width, height);
    output
}

/// Whether pattern `b`, placed one step from `a` in direction `d`, agrees
/// with `a` at its pixel `(x, y)` (vacuous where the two do not overlap).
pub open spec fn agrees_at(a: Sample, b: Sample, d: Direction, x: int, y: int) -> bool {
    (0 <= x < b.width() && 0 <= y < b.height() && 0 <= x + step_x(d) < a.width() && 0 <= y
        + step_y(d) < a.height()) ==> a.px(x + step_x(d), y + step_y(d)) == b.px(x, y)
}

/// `b` may sit next to `a` in direction `d`: the two have the same size and
/// agree on the whole region where they overlap.
pub open spec fn compatible_spec(a: Sample, b: Sample, d: Direction) -> bool {
    &&& a.width() == b.width()
    &&& a.height() == b.height()
    &&& forall|x: int, y: int| #[trigger] agrees_at(a, b, d, x, y)
}

/// `r` is `s` turned a quarter clockwise.
pub open spec fn is_rotation_of(r: Sample, s: Sample) -> bool {
    &&& r.wf()
    &&& r.width() == s.height()
    &&& r.height() == s.width()
    &&& forall|x: int, y: int|
        0 <= x < s.height() && 0 <= y < s.width() ==> #[trigger] r.px(x, y) == s.px(
            y,
            s.height() - 1 - x,
        )
}

/// Compatibility is symmetric: `b` fits beside `a` in direction `d` exactly
/// when `a` fits beside `b` in the opposite direction.
pub proof fn lemma_compatible_symmetric(a: Sample, b: Sample, d: Direction)
    ensures
        compatible_spec(a, b, d) == compatible_spec(b, a, d.flip()),
{
    let dx = step_x(d);
    let dy = step_y(d);
    assert(step_x(d.flip()) == -dx && step_y(d.flip()) == -dy);
    if compatible_spec(a, b, d) {
        assert forall|x: int, y: int| #[trigger] agrees_at(b, a, d.flip(), x, y) by {
            assert(agrees_at(a, b, d, x - dx, y - dy));
        }
    }
    if compatible_spec(b, a, d.flip()) {
        assert forall|x: int, y: int| #[trigger] agrees_at(a, b, d, x, y) by {
            assert(agrees_at(b, a, d.flip(), x + dx, y + dy));
        }
    }
}

impl Sample {
    pub open spec fn wf(&self) -> bool {
        self.region.wf()
    }

    pub open spec fn width(&self) -> int {
        self.region.width as int
    }

    pub open spec fn height(&self) -> int {
        self.region.height as int
    }

    /// The colour at `(x, y)`, as its channel bytes.
    pub open spec fn px(&self, x: int, y: int) -> Seq<u8> {
        self.region.cell(x, y)@
    }

    /// Two patterns are equal when their sizes and all their pixels are.
    pub open spec fn same_as(&self, o: &Sample) -> bool {
        &&& self.region.width == o.region.width
        &&& self.region.height == o.region.height
        &&& self.region.data@.len() == o.region.data@.len()
        &&& forall|i: int|
            0 <= i < self.region.data@.len() ==> #[trigger] self.region.data@[i]@
                == o.region.data@[i]@
    }

    /// An empty pattern of the given size, to be filled row by row.
    pub fn new(width: i32, height: i32) -> (r: Sample)
        requires
            width >= 0,
            height >= 0,
        ensures
            r.region.width == width,
            r.region.height == height,
            r.region.data@.len() == 0,
    {
        Sample {
            region: Grid2D { width: width as usize, height: height as usize, data: Vec::new() },
        }
    }

    /// Whether `self` and `o` hold the same pixels.
    pub fn same_pixels(&self, o: &Sample) -> (r: bool)
        ensures
            r == self.same_as(o),
    {
        if self.region.width != o.region.width || self.region.height != o.region.height
            || self.region.data.len() != o.region.data.len() {
            return false;
        }
        let n = self.region.data.len();
        let mut i: usize = 0;
        while i < n
            invariant
                n == self.region.data@.len(),
                n == o.region.data@.len(),
                i <= n,
                forall|k: int| 0 <= k < i ==> #[trigger] self.region.data@[k]@ == o.region.data@[k]@,
            decreases n - i,
        {
            if !same_colour(&self.region.data[i], &o.region.data[i]) {
                return false;
            }
            i = i + 1;
        }
        true
    }

    /// A copy of the pattern.
    pub fn duplicate(&self) -> (r: Sample)
        ensures
            r.region.width == self.region.width,
            r.region.height == self.region.height,
            r.region.data@ == self.region.data@,
    {
        let n = self.region.data.len();
        let mut data: Vec<Rgb> = Vec::with_capacity(n);
        let mut i: usize = 0;
        while i < n
            invariant
                n == self.region.data@.len(),
                i <= n,
                data@ == self.region.data@.subrange(0, i as int),
            decreases n - i,
        {
            data.push(self.region.data[i]);
            i = i + 1;
            assert(data@ =~= self.region.data@.subrange(0, i as int));
        }
        assert(data@ =~= self.region.data@);
        Sample { region: Grid2D { width: self.region.width, height: self.region.height, data } }
    }

    /// The pattern with its pixel sequence reversed (a half turn).
    pub fn rev_sample(&self) -> (r: Sample)
        requires
            self.wf(),
        ensures
            r.wf(),
            r.region.width == self.region.width,
            r.region.height == self.region.height,
            forall|i: int|
                0 <= i < self.region.data@.len() ==> #[trigger] r.region.data@[i]
                    == self.region.data@[self.region.data@.len() - 1 - i],
    {
        let n = self.region.data.len();
        let mut data: Vec<Rgb> = Vec::with_capacity(n);
        let mut i: usize = 0;
        while i < n
            invariant
                n == self.region.data@.len(),
                i <= n,
                data@.len() == i,
                forall|k: int| 0 <= k < i ==> #[trigger] data@[k] == self.region.data@[n - 1 - k],
            decreases n - i,
        {
            data.push(self.region.data[n - 1 - i]);
            i = i + 1;
        }
        Sample { region: Grid2D { width: self.region.width, height: self.region.height, data } }
    }

    /// The pattern mirrored along its main diagonal.
    pub fn transpose_sample(&self) -> (r: Sample)
        requires
            self.wf(),
        ensures
            r.wf(),
            r.region.width == self.region.height,
            r.region.height == self.region.width,
            forall|x: int, y: int|
                0 <= x < self.width() && 0 <= y < self.height() ==> #[trigger] r.region.cell(y, x)
                    == self.region.cell(x, y),
    {
        let transposed = transpose_pixels(&self.region.data, self.region.width, self.region.height);
        assert(self.region.height * self.region.width == self.region.width * self.region.height)
            by (nonlinear_arith);
        Sample {
            region: Grid2D {
                width: self.region.height,
                height: self.region.width,
                data: transposed,
            },
        }
    }

    /// The transposed pattern with the red and blue channels exchanged.
    pub fn rev_sample_y(&self) -> (r: Sample)
        requires
            self.wf(),
        ensures
            r.wf(),
            r.region.width == self.region.height,
            r.region.height == self.region.width,
            forall|x: int, y: int|
                0 <= x < self.width() && 0 <= y < self.height() ==> #[trigger] r.px(y, x) == seq![
                    self.px(x, y)[2],
                    self.px(x, y)[1],
                    self.px(x, y)[0],
                ],
    {
        let transposed = self.transpose_sample();
        let n = transposed.region.data.len();
        let mut data: Vec<Rgb> = Vec::with_capacity(n);
        let mut i: usize = 0;
        while i < n
            invariant
                n == transposed.region.data@.len(),
                i <= n,
                data@.len() == i,
                forall|k: int|
                    0 <= k < i ==> #[trigger] data@[k]@ == seq![
                        transposed.region.data@[k]@[2],
                        transposed.region.data@[k]@[1],
                        transposed.region.data@[k]@[0],
                    ],
            decreases n - i,
        {
            let c = transposed.region.data[i];
            let swapped: Rgb = [c[2], c[1], c[0]];
            assert(swapped@ =~= seq![c@[2], c@[1], c@[0]]);
            data.push(swapped);
            i = i + 1;
        }
        let r = Sample {
            region: Grid2D {
                width: transposed.region.width,
                height: transposed.region.height,
                data,
            },
        };
        proof {
            assert forall|x: int, y: int|
                0 <= x < self.width() && 0 <= y < self.height() implies #[trigger] r.px(y, x)
                == seq![self.px(x, y)[2], self.px(x, y)[1], self.px(x, y)[0]] by {
                lemma_row_major(r.region.width as int, r.region.height as int, y, x);
                assert(transposed.region.cell(y, x) == self.region.cell(x, y));
            }
        }
        r
    }

    /// The pattern, its half turn, its transpose, and its transpose with red
    /// and blue exchanged.
    pub fn get_rotations(&self) -> (r: Vec<Sample>)
        requires
            self.wf(),
        ensures
            r@.len() == 4,
            r@[0].region.data@ == self.region.data@,
            r@[0].region.width == self.region.width,
            r@[0].region.height == self.region.height,
            r@[1].region.data@.len() == self.region.data@.len(),
            forall|i: int|
                0 <= i < self.region.data@.len() ==> #[trigger] r@[1].region.data@[i]
                    == self.region.data@[self.region.data@.len() - 1 - i],
            forall|x: int, y: int|
                0 <= x < self.width() && 0 <= y < self.height() ==> #[trigger] r@[2].region.cell(
                    y,
                    x,
                ) == self.region.cell(x, y),
            forall|x: int, y: int|
                0 <= x < self.width() && 0 <= y < self.height() ==> #[trigger] r@[3].px(y, x)
                    == seq![self.px(x, y)[2], self.px(x, y)[1], self.px(x, y)[0]],
    {
        let a = self.duplicate();
        let b = self.rev_sample();
        let c = self.transpose_sample();
        let d = self.rev_sample_y();
        vec![a, b, c, d]
    }

    /// The four quarter turns of the pattern, starting with the pattern itself.
    pub fn rotate(&self) -> (r: Vec<Sample>)
        requires
            self.wf(),
        ensures
            r@.len() == 4,
            r@[0].region.data@ == self.region.data@,
            r@[0].region.width == self.region.width,
            r@[0].region.height == self.region.height,
            forall|i: int| 1 <= i < 4 ==> is_rotation_of(#[trigger] r@[i], r@[i - 1]),
    {
        let mut rotations: Vec<Sample> = Vec::new();
        let first = self.duplicate();
        rotations.push(first);
        let mut current = self.duplicate();
        let mut n: usize = 0;
        while n < 3
            invariant
                n <= 3,
                rotations@.len() == n + 1,
                current.wf(),
                rotations@[n as int].region.width == current.region.width,
                rotations@[n as int].region.height == current.region.height,
                rotations@[n as int].region.data@ == current.region.data@,
                rotations@[0].region.data@ == self.region.data@,
                rotations@[0].region.width == self.region.width,
                rotations@[0].region.height == self.region.height,
                forall|i: int|
                    1 <= i <= n ==> is_rotation_of(#[trigger] rotations@[i], rotations@[i - 1]),
            decreases 3 - n,
        {
            let next = current.rotate_90();
            current = next.duplicate();
            rotations.push(next);
            n = n + 1;
        }
        rotations
    }

    /// The pattern turned a quarter clockwise: transposed, then each row reversed.
    pub fn rotate_90(&self) -> (r: Sample)
        requires
            self.wf(),
        ensures
            is_rotation_of(r, *self),
    {
        let t = self.transpose_sample();
        let w = t.region.width;
        let h = t.region.height;
        let total = t.region.data.len();
        let mut data: Vec<Rgb> = Vec::with_capacity(total);
        let mut row: usize = 0;
        while row < h
            invariant
                t.wf(),
                w == t.region.width,
                h == t.region.height,
                total == w * h,
                row <= h,
                data@.len() == row * w,
                forall|a: int, b: int|
                    0 <= a < w && 0 <= b < row ==> #[trigger] row_major(data@, w as int, a, b)
                        == t.region.cell(w - 1 - a, b),
            decreases h - row,
        {
            let mut k: usize = 0;
            while k < w
                invariant
                    t.wf(),
                    w == t.region.width,
                    h == t.region.height,
                    total == w * h,
                    row < h,
                    k <= w,
                    data@.len() == row * w + k,
                    forall|a: int, b: int|
                        0 <= a < w && 0 <= b < row ==> #[trigger] row_major(data@, w as int, a, b)
                            == t.region.cell(w - 1 - a, b),
                    forall|a: int|
                        0 <= a < k ==> #[trigger] row_major(data@, w as int, a, row as int)
                            == t.region.cell(w - 1 - a, row as int),
                decreases w - k,
            {
                proof {
                    lemma_row_major(w as int, h as int, (w - 1 - k) as int, row as int);
                }
                let v = t.region.data[row * w + (w - 1 - k)];
                let ghost old_data = data@;
                data.push(v);
                proof {
                    assert forall|a: int, b: int| 0 <= a < w && 0 <= b < row implies #[trigger] row_major(
                        data@,
                        w as int,
                        a,
                        b,
                    ) == t.region.cell(w - 1 - a, b) by {
                        lemma_row_major(w as int, row as int, a, b);
                        assert(w * row == row * w) by (nonlinear_arith);
                        assert(row_major(old_data, w as int, a, b) == t.region.cell(w - 1 - a, b));
                    }
                    assert forall|a: int| 0 <= a < k + 1 implies #[trigger] row_major(
                        data@,
                        w as int,
                        a,
                        row as int,
                    ) == t.region.cell(w - 1 - a, row as int) by {
                        assert(0 <= row * w) by (nonlinear_arith)
                            requires
                                0 <= row,
                                0 <= w,
                        ;
                        if a < k {
                            assert(row_major(old_data, w as int, a, row as int) == t.region.cell(
                                w - 1 - a,
                                row as int,
                            ));
                        }
                    }
                }
                k = k + 1;
            }
            proof {
                assert((row + 1) * w == row * w + w) by (nonlinear_arith);
                assert forall|a: int, b: int| 0 <= a < w && 0 <= b < row + 1 implies #[trigger] row_major(
                    data@,
                    w as int,
                    a,
                    b,
                ) == t.region.cell(w - 1 - a, b) by {
                    if b == row {
                        assert(row_major(data@, w as int, a, row as int) == t.region.cell(
                            w - 1 - a,
                            row as int,
                        ));
                    }
                }
            }
            row = row + 1;
        }
        assert(h * w == w * h) by (nonlinear_arith);
        let r = Sample { region: Grid2D { width: w, height: h, data } };
        proof {
            assert forall|x: int, y: int|
                0 <= x < self.height() && 0 <= y < self.width() implies #[trigger] r.px(x, y)
                == self.px(y, self.height() - 1 - x) by {
                assert(row_major(r.region.data@, w as int, x, y) == t.region.cell(w - 1 - x, y));
                assert(t.region.cell(w - 1 - x, y) == self.region.cell(y, w - 1 - x));
            }
        }
        r
    }

    /// The colour of the top-left pixel.
    pub fn get_top_left_pixel(&self) -> (r: Rgb)
        requires
            self.wf(),
            self.region.width > 0,
            self.region.height > 0,
        ensures
            r == self.region.cell(0, 0),
    {
        *self.region.get(Vector2 { x: 0, y: 0 }).unwrap()
    }

    /// Index of a position in the pixel sequence.
    pub fn idx(&self, at: Vector2) -> (r: usize)
        requires
            self.wf(),
            self.region.in_bounds(at),
        ensures
            r == self.region.index_of(at),
    {
        self.region.idx(at).unwrap()
    }

    /// Colour at a position.
    pub fn at(&self, at: Vector2) -> (r: Rgb)
        requires
            self.wf(),
            self.region.in_bounds(at),
        ensures
            r == self.region.cell(at.x as int, at.y as int),
    {
        *self.region.get(at).unwrap()
    }

    /// Whether `other` may sit one step from `self` in `direction`.
    pub fn compatible(&self, other: &Sample, direction: Direction) -> (r: bool)
        requires
            self.wf(),
            other.wf(),
        ensures
            r == compatible_spec(*self, *other, direction),
    {
        if other.region.width != self.region.width || other.region.height != self.region.height {
            return false;
        }
        let w = self.region.width;
        let h = self.region.height;
        let dx: i64 = match direction {
            Direction::Left => -1,
            Direction::Right => 1,
            _ => 0,
        };
        let dy: i64 = match direction {
            Direction::Up => -1,
            Direction::Down => 1,
            _ => 0,
        };
        let total = self.region.data.len();
        let mut y: usize = 0;
        while y < h
            invariant
                self.wf(),
                other.wf(),
                total == w * h,
                w == self.region.width,
                h == self.region.height,
                w == other.region.width,
                h == other.region.height,
                dx == step_x(direction),
                dy == step_y(direction),
                y <= h,
                forall|xx: int, yy: int|
                    yy < y ==> #[trigger] agrees_at(*self, *other, direction, xx, yy),
            decreases h - y,
        {
            let mut x: usize = 0;
            while x < w
                invariant
                    self.wf(),
                    other.wf(),
                    total == w * h,
                    w == self.region.width,
                    h == self.region.height,
                    w == other.region.width,
                    h == other.region.height,
                    dx == step_x(direction),
                    dy == step_y(direction),
                    y < h,
                    x <= w,
                    forall|xx: int, yy: int|
                        yy < y ==> #[trigger] agrees_at(*self, *other, direction, xx, yy),
                    forall|xx: int| xx < x ==> #[trigger] agrees_at(*self, *other, direction, xx, y as int),
                decreases w - x,
            {
                let sx: i64 = x as i64 + dx;
                let sy: i64 = y as i64 + dy;
                if 0 <= sx && sx < w as i64 && 0 <= sy && sy < h as i64 {
                    proof {
                        lemma_row_major(w as int, h as int, sx as int, sy as int);
                        lemma_row_major(w as int, h as int, x as int, y as int);
                    }
                    let a = &self.region.data[sy as usize * w + sx as usize];
                    let b = &other.region.data[y * w + x];
                    if !same_colour(a, b) {
                        assert(!agrees_at(*self, *other, direction, x as int, y as int));
                        return false;
                    }
                }
                x = x + 1;
            }
            y = y + 1;
        }
        true
    }
}

impl PartialEq for Sample {
    fn eq(&self, o: &Sample) -> (r: bool) {
        self.same_pixels(o)
    }
}

impl vstd::std_specs::cmp::PartialEqSpecImpl for Sample {
    open spec fn obeys_eq_spec() -> bool {
        true
    }

    open spec fn eq_spec(&self, o: &Sample) -> bool {
        self.same_as(o)
    }
}

} // verus!
