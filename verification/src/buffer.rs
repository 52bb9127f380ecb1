use vstd::prelude::*;

verus! {

/// Threshold rule for walkability: an 8-bit intensity of at least 127 marks a
/// pixel as passable.
pub open spec fn spec_walk(p: u8) -> bool {
    p >= 127
}

/// A single-channel 8-bit pixel buffer in row-major order, addressed by
/// `x + y * width`.  This is the raw material a maze is carved into and read
/// from; validation into a `Maze` happens separately.
#[derive(Debug, Clone)]
pub struct GrayBuffer {
    pub width: u32,
    pub height: u32,
    pub pixels: Vec<u8>,
}

impl GrayBuffer {
    /// The buffer holds exactly one byte per pixel.
    pub open spec fn wf(self) -> bool {
        self.pixels@.len() == self.width * self.height
    }

    pub open spec fn in_bounds(self, x: int, y: int) -> bool {
        0 <= x < self.width && 0 <= y < self.height
    }

    /// The intensity stored at `(x, y)`.
    pub open spec fn pix(self, x: int, y: int) -> u8 {
        self.pixels@[y * self.width + x]
    }

    /// A coordinate is walkable iff it lies inside the buffer and its
    /// intensity passes the threshold; everything out of bounds is a wall.
    pub open spec fn walkable(self, x: int, y: int) -> bool {
        self.in_bounds(x, y) && spec_walk(self.pix(x, y))
    }

    /// Every pixel is either pure wall (0) or pure passage (255).
    pub open spec fn binary(self) -> bool {
        forall|x: int, y: int|
            self.in_bounds(x, y) ==> #[trigger] self.pix(x, y) == 0 || self.pix(x, y) == 255
    }

    /// An all-wall buffer of the given dimensions.
    pub fn new(width: u32, height: u32) -> (r: GrayBuffer)
        requires
            width * height <= u32::MAX,
        ensures
            r.wf(),
            r.width == width,
            r.height == height,
            forall|x: int, y: int| r.in_bounds(x, y) ==> #[trigger] r.pix(x, y) == 0,
            r.binary(),
    {
        let n: usize = (width as usize) * (height as usize);
        let mut pixels: Vec<u8> = Vec::new();
        let mut i: usize = 0;
        while i < n
            invariant
                i <= n,
                pixels@.len() == i,
                forall|j: int| 0 <= j < i ==> pixels@[j] == 0u8,
            decreases n - i,
        {
            pixels.push(0u8);
            i = i + 1;
        }
        let r = GrayBuffer { width, height, pixels };
        proof {
            assert forall|x: int, y: int| r.in_bounds(x, y) implies #[trigger] r.pix(x, y)
                == 0 by {
                lemma_idx_bounds(width as int, height as int, x, y);
            }
        }
        r
    }

    pub fn get_pixel(&self, x: u32, y: u32) -> (r: u8)
        requires
            self.wf(),
            self.in_bounds(x as int, y as int),
        ensures
            r == self.pix(x as int, y as int),
    {
        let n = self.pixels.len();
        proof {
            lemma_idx_bounds(self.width as int, self.height as int, x as int, y as int);
        }
        let i: usize = (y as usize) * (self.width as usize) + (x as usize);
        self.pixels[i]
    }

    pub fn put_pixel(&mut self, x: u32, y: u32, v: u8)
        requires
            old(self).wf(),
            old(self).in_bounds(x as int, y as int),
        ensures
            final(self).wf(),
            final(self).width == old(self).width,
            final(self).height == old(self).height,
            final(self).pix(x as int, y as int) == v,
            forall|a: int, b: int|
                old(self).in_bounds(a, b) && !(a == x && b == y) ==> #[trigger] final(self).pix(
                    a,
                    b,
                ) == old(self).pix(a, b),
            final(self).pixels@ == old(self).pixels@.update(
                y as int * old(self).width as int + x as int,
                v,
            ),
    {
        let n = self.pixels.len();
        proof {
            lemma_idx_bounds(self.width as int, self.height as int, x as int, y as int);
        }
        let i: usize = (y as usize) * (self.width as usize) + (x as usize);
        self.pixels[i] = v;
        proof {
            assert forall|a: int, b: int|
                old(self).in_bounds(a, b) && !(a == x && b == y) implies #[trigger] self.pix(a, b)
                == old(self).pix(a, b) by {
                lemma_idx_bounds(self.width as int, self.height as int, a, b);
                lemma_idx_injective(
                    self.width as int,
                    self.height as int,
                    a,
                    b,
                    x as int,
                    y as int,
                );
            }
        }
    }

}

/// Row-major addressing keeps every in-bounds coordinate inside the buffer.
pub proof fn lemma_idx_bounds(w: int, h: int, x: int, y: int)
    requires
        0 <= x < w,
        0 <= y < h,
    ensures
        0 <= y * w + x < w * h,
{
    assert(y * w + x < w * h) by (nonlinear_arith)
        requires
            0 <= x < w,
            0 <= y < h,
    ;
    assert(y * w + x >= 0) by (nonlinear_arith)
        requires
            0 <= x,
            0 <= y,
            0 < w,
    ;
}

/// Distinct in-bounds coordinates occupy distinct buffer slots.
pub proof fn lemma_idx_injective(w: int, h: int, x1: int, y1: int, x2: int, y2: int)
    requires
        0 <= x1 < w,
        0 <= y1 < h,
        0 <= x2 < w,
        0 <= y2 < h,
        !(x1 == x2 && y1 == y2),
    ensures
        y1 * w + x1 != y2 * w + x2,
{
    assert(y1 * w + x1 != y2 * w + x2) by (nonlinear_arith)
        requires
            0 <= x1 < w,
            0 <= y1 < h,
            0 <= x2 < w,
            0 <= y2 < h,
            !(x1 == x2 && y1 == y2),
    ;
}

/// How many of the first `n` pixels of row `y` are walkable.
pub open spec fn count_row_walkable(b: GrayBuffer, y: int, n: int) -> nat
    decreases n,
{
    if n <= 0 {
        0
    } else {
        count_row_walkable(b, y, n - 1) + if b.walkable(n - 1, y) {
            1nat
        } else {
            0nat
        }
    }
}

/// The row invariant of a maze image: a single passable pixel in row `y`.
pub open spec fn exactly_one_walkable_in_row(b: GrayBuffer, y: int) -> bool {
    count_row_walkable(b, y, b.width as int) == 1
}

pub proof fn lemma_count_row_zero(b: GrayBuffer, y: int, n: int)
    requires
        forall|x: int| 0 <= x < n ==> !b.walkable(x, y),
    ensures
        count_row_walkable(b, y, n) == 0,
    decreases n,
{
    if n > 0 {
        lemma_count_row_zero(b, y, n - 1);
    }
}

pub proof fn lemma_count_row_ge1(b: GrayBuffer, y: int, n: int, e: int)
    requires
        0 <= e < n,
        b.walkable(e, y),
    ensures
        count_row_walkable(b, y, n) >= 1,
    decreases n,
{
    if e < n - 1 {
        lemma_count_row_ge1(b, y, n - 1, e);
    }
}

/// A row that holds one walkable pixel and no other counts to exactly one.
pub proof fn lemma_count_row_single(b: GrayBuffer, y: int, n: int, e: int)
    requires
        b.walkable(e, y),
        forall|x: int| 0 <= x < n && x != e ==> !b.walkable(x, y),
    ensures
        count_row_walkable(b, y, n) == if 0 <= e < n {
            1nat
        } else {
            0nat
        },
    decreases n,
{
    if n > 0 {
        lemma_count_row_single(b, y, n - 1, e);
    }
}

pub proof fn lemma_count_row_two(b: GrayBuffer, y: int, n: int, e1: int, e2: int)
    requires
        0 <= e1 < n,
        0 <= e2 < n,
        e1 != e2,
        b.walkable(e1, y),
        b.walkable(e2, y),
    ensures
        count_row_walkable(b, y, n) >= 2,
    decreases n,
{
    if e1 < n - 1 && e2 < n - 1 {
        lemma_count_row_two(b, y, n - 1, e1, e2);
    } else if e1 == n - 1 {
        lemma_count_row_ge1(b, y, n - 1, e2);
    } else {
        lemma_count_row_ge1(b, y, n - 1, e1);
    }
}

/// In a row counting exactly one walkable pixel, any two walkable positions
/// coincide.
pub proof fn lemma_count_row_unique(b: GrayBuffer, y: int, n: int, e1: int, e2: int)
    requires
        count_row_walkable(b, y, n) == 1,
        0 <= e1 < n,
        0 <= e2 < n,
        b.walkable(e1, y),
        b.walkable(e2, y),
    ensures
        e1 == e2,
{
    if e1 != e2 {
        lemma_count_row_two(b, y, n, e1, e2);
    }
}

} // verus!
