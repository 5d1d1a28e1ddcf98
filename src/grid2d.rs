use vstd::prelude::*;

use crate::vector2::Vector2;

verus! {

/// A `width` × `height` array stored row by row: the element at `(x, y)`
/// sits at index `y * width + x` of `data`.
#[derive(Debug, Clone)]
pub struct Grid2D<T> {
    pub width: usize,
    pub height: usize,
    pub data: Vec<T>,
}

impl<T> Grid2D<T> {
    /// The dimensions agree with the stored elements, and every position
    /// fits an `i32` coordinate.
    pub open spec fn wf(&self) -> bool {
        &&& self.data@.len() == self.width * self.height
        &&& self.width <= i32::MAX
        &&& self.height <= i32::MAX
    }

    pub open spec fn in_bounds(&self, pos: Vector2) -> bool {
        0 <= pos.x < self.width && 0 <= pos.y < self.height
    }

    /// Row-major index of a position.
    pub open spec fn index_of(&self, pos: Vector2) -> int {
        pos.y * self.width + pos.x
    }

    /// The element at `(x, y)`.
    pub open spec fn cell(&self, x: int, y: int) -> T {
        row_major(self.data@, self.width as int, x, y)
    }

    pub fn valid_pos(&self, pos: Vector2) -> (r: bool)
        ensures
            r == self.in_bounds(pos),
    {
        0 <= pos.x && (pos.x as usize) < self.width && 0 <= pos.y && (pos.y as usize) < self.height
    }

    /// Number of elements.
    pub fn size(&self) -> (r: usize)
        requires
            self.wf(),
        ensures
            r == self.width * self.height,
    {
        self.data.len()
    }

    /// The index that holds `pos`, if `pos` lies on the grid.
    pub fn idx(&self, pos: Vector2) -> (r: Option<usize>)
        requires
            self.wf(),
        ensures
            self.in_bounds(pos) ==> r.is_some() && r.unwrap() == self.index_of(pos),
            !self.in_bounds(pos) ==> r.is_none(),
            r matches Some(i) ==> i < self.data@.len(),
            self.in_bounds(pos) ==> 0 <= self.index_of(pos) < self.data@.len(),
    {
        let total = self.data.len();
        proof {
            if self.in_bounds(pos) {
                lemma_row_major(self.width as int, self.height as int, pos.x as int, pos.y as int);
            }
        }
        if self.valid_pos(pos) {
            proof {
                lemma_row_major(self.width as int, self.height as int, pos.x as int, pos.y as int);
            }
            Some(pos.y as usize * self.width + pos.x as usize)
        } else {
            None
        }
    }

    /// The position stored at index `pos`, if there is one.
    pub fn to_coord(&self, pos: usize) -> (r: Option<Vector2>)
        requires
            self.wf(),
        ensures
            pos < self.data@.len() ==> r == Some(
                Vector2 { x: (pos % self.width) as i32, y: (pos / self.width) as i32 },
            ),
            pos >= self.data@.len() ==> r.is_none(),
            r matches Some(v) ==> self.in_bounds(v) && self.index_of(v) == pos,
    {
        if pos >= self.data.len() {
            return None;
        }
        proof {
            lemma_coord_of(self.width as int, self.height as int, pos as int);
        }
        let y = pos / self.width;
        let x = pos % self.width;
        Some(Vector2 { x: x as i32, y: y as i32 })
    }

    /// A reference to the element at `pos`, if `pos` lies on the grid.
    pub fn get(&self, pos: Vector2) -> (r: Option<&T>)
        requires
            self.wf(),
        ensures
            self.in_bounds(pos) ==> r == Some(&self.data@[self.index_of(pos)]),
            !self.in_bounds(pos) ==> r.is_none(),
    {
        match self.idx(pos) {
            Some(index) => {
                assert(index as int == self.index_of(pos));
                Some(&self.data[index])
            },
            None => None,
        }
    }

    /// Replaces the element at `pos`.
    pub fn set(&mut self, pos: Vector2, item: T)
        requires
            old(self).wf(),
            old(self).in_bounds(pos),
        ensures
            final(self).width == old(self).width,
            final(self).height == old(self).height,
            final(self).data@ == old(self).data@.update(old(self).index_of(pos), item),
            final(self).wf(),
    {
        let idx = self.idx(pos).unwrap();
        assert(idx as int == self.index_of(pos));
        self.data.set(idx, item);
    }
}

impl<T: Copy> Grid2D<T> {
    /// A grid whose every element is `init_val`.
    pub fn init(width: usize, height: usize, init_val: T) -> (r: Grid2D<T>)
        requires
            width * height <= usize::MAX,
            width <= i32::MAX,
            height <= i32::MAX,
        ensures
            r.wf(),
            r.width == width,
            r.height == height,
            forall|i: int| 0 <= i < r.data@.len() ==> r.data@[i] == init_val,
    {
        let n = width * height;
        let mut data: Vec<T> = Vec::with_capacity(n);
        let mut i: usize = 0;
        while i < n
            invariant
                i <= n,
                data@.len() == i,
                forall|k: int| 0 <= k < i ==> data@[k] == init_val,
            decreases n - i,
        {
            data.push(init_val);
            i = i + 1;
        }
        Grid2D { width, height, data }
    }

    /// A new grid holding the `size.x` × `size.y` rectangle whose top-left
    /// corner is `origin`.
    pub fn clone_range(&self, origin: Vector2, size: Vector2) -> (r: Grid2D<T>)
        requires
            self.wf(),
            0 <= origin.x,
            0 <= origin.y,
            0 <= size.x,
            0 <= size.y,
            origin.x + size.x <= self.width,
            origin.y + size.y <= self.height,
        ensures
            r.wf(),
            r.width == size.x,
            r.height == size.y,
            forall|x: int, y: int|
                0 <= x < size.x && 0 <= y < size.y ==> r.cell(x, y) == self.cell(
                    origin.x + x,
                    origin.y + y,
                ),
    {
        let w = size.x as usize;
        let h = size.y as usize;
        let ox = origin.x as usize;
        let oy = origin.y as usize;
        proof {
            lemma_mul_le(w as int, h as int, self.width as int, self.height as int);
        }
        let total = self.data.len();
        let mut data: Vec<T> = Vec::new();
        let mut y: usize = 0;
        while y < h
            invariant
                self.wf(),
                w == size.x,
                h == size.y,
                ox == origin.x,
                oy == origin.y,
                ox + w <= self.width,
                oy + h <= self.height,
                w * h <= self.width * self.height,
                total == self.width * self.height,
                y <= h,
                data@.len() == y * w,
                forall|a: int, b: int|
                    0 <= a < w && 0 <= b < y ==> #[trigger] row_major(data@, w as int, a, b)
                        == self.cell(ox + a, oy + b),
            decreases h - y,
        {
            let mut x: usize = 0;
            while x < w
                invariant
                    self.wf(),
                    w == size.x,
                    h == size.y,
                    ox == origin.x,
                    oy == origin.y,
                    ox + w <= self.width,
                    oy + h <= self.height,
                    total == self.width * self.height,
                    y < h,
                    x <= w,
                    data@.len() == y * w + x,
                    forall|a: int, b: int|
                        0 <= a < w && 0 <= b < y ==> #[trigger] row_major(data@, w as int, a, b)
                            == self.cell(ox + a, oy + b),
                    forall|a: int|
                        0 <= a < x ==> #[trigger] row_major(data@, w as int, a, y as int)
                            == self.cell(ox + a, oy + y),
                decreases w - x,
            {
                proof {
                    lemma_row_major(
                        self.width as int,
                        self.height as int,
                        (ox + x) as int,
                        (oy + y) as int,
                    );
                }
                let v = self.data[(oy + y) * self.width + ox + x];
                let ghost old_data = data@;
                data.push(v);
                proof {
                    assert forall|a: int, b: int| 0 <= a < w && 0 <= b < y implies #[trigger] row_major(
                        data@,
                        w as int,
                        a,
                        b,
                    ) == self.cell(ox + a, oy + b) by {
                        lemma_row_major(w as int, y as int, a, b);
                        assert(w * y == y * w) by (nonlinear_arith);
                        assert(row_major(old_data, w as int, a, b) == self.cell(ox + a, oy + b));
                    }
                    assert forall|a: int| 0 <= a < x + 1 implies #[trigger] row_major(
                        data@,
                        w as int,
                        a,
                        y as int,
                    ) == self.cell(ox + a, oy + y) by {
                        assert(0 <= y * w) by (nonlinear_arith)
                            requires
                                0 <= y,
                                0 <= w,
                        ;
                        if a < x {
                            assert(row_major(old_data, w as int, a, y as int) == self.cell(
                                ox + a,
                                oy + y,
                            ));
                        }
                    }
                }
                x = x + 1;
            }
            proof {
                assert((y + 1) * w == y * w + w) by (nonlinear_arith);
                assert forall|a: int, b: int| 0 <= a < w && 0 <= b < y + 1 implies #[trigger] row_major(
                    data@,
                    w as int,
                    a,
                    b,
                ) == self.cell(ox + a, oy + b) by {
                    if b == y {
                        assert(row_major(data@, w as int, a, y as int) == self.cell(ox + a, oy + y));
                    }
                }
            }
            y = y + 1;
        }
        assert(h * w == w * h) by (nonlinear_arith);
        let r = Grid2D { width: w, height: h, data };
        proof {
            assert forall|xx: int, yy: int| 0 <= xx < size.x && 0 <= yy < size.y implies r.cell(
                xx,
                yy,
            ) == self.cell(origin.x + xx, origin.y + yy) by {
                assert(row_major(r.data@, w as int, xx, yy) == self.cell(ox + xx, oy + yy));
            }
        }
        r
    }
}

/// The element at `(x, y)` of a sequence laid out in rows of `w`.
pub open spec fn row_major<T>(s: Seq<T>, w: int, x: int, y: int) -> T {
    s[y * w + x]
}

/// A position inside a `w` × `h` grid has a row-major index below `w * h`.
pub proof fn lemma_row_major(w: int, h: int, x: int, y: int)
    requires
        0 <= x < w,
        0 <= y < h,
    ensures
        0 <= y * w + x < w * h,
{
    assert(y * w + x < (y + 1) * w) by (nonlinear_arith)
        requires
            x < w,
    ;
    assert((y + 1) * w <= h * w) by (nonlinear_arith)
        requires
            y + 1 <= h,
            0 <= w,
    ;
    assert(0 <= y * w) by (nonlinear_arith)
        requires
            0 <= y,
            0 <= w,
    ;
    assert(h * w == w * h) by (nonlinear_arith);
}

/// Every index below `w * h` is the row-major index of a position.
pub proof fn lemma_coord_of(w: int, h: int, i: int)
    requires
        0 <= i < w * h,
        0 <= w,
        0 <= h,
    ensures
        w > 0,
        0 <= i % w < w,
        0 <= i / w < h,
        (i / w) * w + i % w == i,
{
    if w == 0 {
        assert(w * h == 0) by (nonlinear_arith)
            requires
                w == 0,
        ;
    }
    vstd::arithmetic::div_mod::lemma_fundamental_div_mod(i, w);
    assert(w * (i / w) == (i / w) * w) by (nonlinear_arith);
    assert(0 <= i % w < w) by {
        vstd::arithmetic::div_mod::lemma_mod_bound(i, w);
    }
    assert(0 <= i / w) by {
        vstd::arithmetic::div_mod::lemma_div_pos_is_pos(i, w);
    }
    if i / w >= h {
        assert(w * (i / w) >= w * h) by (nonlinear_arith)
            requires
                i / w >= h,
                w > 0,
        ;
    }
}

pub proof fn lemma_mul_le(a: int, b: int, c: int, d: int)
    requires
        0 <= a <= c,
        0 <= b <= d,
    ensures
        a * b <= c * d,
{
    assert(a * b <= c * d) by (nonlinear_arith)
        requires
            0 <= a <= c,
            0 <= b <= d,
    ;
}

} // verus!
