#![verifier::loop_isolation(false)]

use vstd::prelude::*;

pub mod a_star;
pub mod buffer;
pub mod generate;

pub use crate::a_star::solve;

use crate::buffer::{
    count_row_walkable, exactly_one_walkable_in_row, lemma_count_row_single,
    lemma_count_row_unique, lemma_count_row_zero, spec_walk, GrayBuffer,
};

verus! {

/// The unsigned coordinate and cost unit used throughout.
pub type Unit = u32;

/// Every pixel of the first and last column, entrance and exit rows aside,
/// is a wall.
pub open spec fn bounded_sides(img: GrayBuffer) -> bool {
    forall|y: int|
        #![trigger img.walkable(0, y)]
        #![trigger img.walkable(img.width - 1, y)]
        1 <= y < img.height - 1 ==> !img.walkable(0, y) && !img.walkable(img.width - 1, y)
}

/// If a pixel is considered walkable.
pub fn walk(p: u8) -> (r: bool)
    ensures
        r == spec_walk(p),
{
    p >= 127
}

#[derive(Debug, Eq, PartialEq, Clone, Copy, Structural)]
pub enum MazeCreationError {
    TooManyEntrances,
    TooManyExits,
    NotBounded,
}

/// A grid coordinate, ordered lexicographically by `(x, y)`.
#[derive(Hash, Ord, Eq, PartialEq, PartialOrd, Debug, Clone, Copy, Structural)]
pub struct Point(pub Unit, pub Unit);

/// A validated maze image: a pixel buffer with a unique entrance in its top
/// row and a unique exit in its bottom row.
#[derive(Debug, Clone)]
pub struct Maze {
    pub img: GrayBuffer,
}

impl Maze {
    #[verifier::inline]
    pub open spec fn width(self) -> int {
        self.img.width as int
    }

    #[verifier::inline]
    pub open spec fn height(self) -> int {
        self.img.height as int
    }

    #[verifier::inline]
    pub open spec fn walkable(self, x: int, y: int) -> bool {
        self.img.walkable(x, y)
    }

    pub open spec fn in_grid(self, p: Point) -> bool {
        p.0 < self.img.width && p.1 < self.img.height
    }

    /// The validation invariant every `Maze` satisfies: a well-formed buffer
    /// small enough to index with `Unit`, with exactly one walkable pixel in
    /// row 0 and exactly one in the last row.
    pub open spec fn wf(self) -> bool {
        &&& self.img.wf()
        &&& self.img.width >= 1
        &&& self.img.height >= 1
        &&& self.img.width * self.img.height <= u32::MAX
        &&& exactly_one_walkable_in_row(self.img, 0)
        &&& exactly_one_walkable_in_row(self.img, self.height() - 1)
    }

    pub open spec fn is_entrance(self, p: Point) -> bool {
        p.1 == 0 && self.walkable(p.0 as int, 0)
    }

    pub open spec fn is_exit(self, p: Point) -> bool {
        p.1 == self.height() - 1 && self.walkable(p.0 as int, p.1 as int)
    }

    /// Lenient validation: accepts any rectangular buffer and checks only the
    /// two row invariants; the sides need not be walled since out-of-bounds
    /// coordinates already read as walls.
    pub fn new(img: GrayBuffer) -> (r: Result<Maze, MazeCreationError>)
        requires
            img.wf(),
            img.width * img.height <= u32::MAX,
        ensures
            match r {
                Ok(m) => m.img == img && m.wf(),
                Err(e) => {
                    &&& (e == MazeCreationError::TooManyEntrances <==> !(img.height >= 1
                        && exactly_one_walkable_in_row(img, 0)))
                    &&& (e == MazeCreationError::TooManyExits <==> (img.height >= 1
                        && exactly_one_walkable_in_row(img, 0) && !exactly_one_walkable_in_row(
                        img,
                        img.height - 1,
                    )))
                    &&& e != MazeCreationError::NotBounded
                },
            },
            r is Ok <==> (img.height >= 1 && exactly_one_walkable_in_row(img, 0)
                && exactly_one_walkable_in_row(img, img.height - 1)),
    {
        if img.height == 0 {
            proof {
                lemma_count_row_zero(img, 0, img.width as int);
            }
            return Err(MazeCreationError::TooManyEntrances);
        }
        let c0 = count_row(&img, 0);
        if c0 != 1 {
            return Err(MazeCreationError::TooManyEntrances);
        }
        let c1 = count_row(&img, img.height - 1);
        if c1 != 1 {
            return Err(MazeCreationError::TooManyExits);
        }
        proof {
            // A row with a walkable pixel forces both dimensions positive.
            assert(count_row_walkable(img, 0, img.width as int) == 1);
            if img.width == 0 {
                lemma_count_row_zero(img, 0, 0);
            }
        }
        Ok(Maze { img })
    }

    /// Strict validation: additionally requires every pixel of the first and
    /// last column to be a wall, so the maze is bounded on its sides.
    /// (The entrance and exit rows themselves are exempt.)
    pub fn new_strict(img: GrayBuffer) -> (r: Result<Maze, MazeCreationError>)
        requires
            img.wf(),
            img.width * img.height <= u32::MAX,
        ensures
            match r {
                Ok(m) => {
                    &&& m.img == img
                    &&& m.wf()
                    &&& bounded_sides(img)
                },
                Err(e) => {
                    &&& (e == MazeCreationError::TooManyEntrances <==> !(img.height >= 1
                        && exactly_one_walkable_in_row(img, 0)))
                    &&& (e == MazeCreationError::TooManyExits <==> (img.height >= 1
                        && exactly_one_walkable_in_row(img, 0) && !exactly_one_walkable_in_row(
                        img,
                        img.height - 1,
                    )))
                    &&& (e == MazeCreationError::NotBounded <==> (img.height >= 1
                        && exactly_one_walkable_in_row(img, 0) && exactly_one_walkable_in_row(
                        img,
                        img.height - 1,
                    ) && !bounded_sides(img)))
                },
            },
            r is Err <==> !(img.height >= 1 && exactly_one_walkable_in_row(img, 0)
                && exactly_one_walkable_in_row(img, img.height - 1) && bounded_sides(img)),
    {
        let m = match Maze::new(img) {
            Ok(m) => m,
            Err(e) => {
                return Err(e);
            },
        };
        let w = m.img.width;
        let h = m.img.height;
        let mut y: u32 = 1;
        while y < h - 1
            invariant
                1 <= y <= h,
                forall|b: int|
                    1 <= b < y ==> !(#[trigger] img.walkable(0, b)) && !img.walkable(w - 1, b),
            decreases h - y,
        {
            if walk(m.img.get_pixel(0, y)) {
                assert(img.walkable(0, y as int));
                return Err(MazeCreationError::NotBounded);
            }
            if walk(m.img.get_pixel(w - 1, y)) {
                assert(img.walkable(w - 1, y as int));
                return Err(MazeCreationError::NotBounded);
            }
            y = y + 1;
        }
        Ok(m)
    }

    pub fn is_walkable(&self, point: Point) -> (r: bool)
        requires
            self.img.wf(),
        ensures
            r == self.walkable(point.0 as int, point.1 as int),
    {
        let Point(x, y) = point;
        if x >= self.img.width || y >= self.img.height {
            false
        } else {
            walk(self.img.get_pixel(x, y))
        }
    }

    /// The unique walkable cell in row 0, found by scanning from `x = 0`.
    pub fn get_entrance(&self) -> (r: Point)
        requires
            self.wf(),
        ensures
            self.is_entrance(r),
            self.in_grid(r),
            forall|x: int| 0 <= x < self.width() && x != r.0 ==> !self.walkable(x, 0),
    {
        let w = self.img.width;
        let mut x: u32 = 0;
        while x < w
            invariant
                x <= w,
                forall|a: int| 0 <= a < x ==> !self.walkable(a, 0),
            decreases w - x,
        {
            if walk(self.img.get_pixel(x, 0)) {
                proof {
                    assert forall|a: int| 0 <= a < self.width() && a != x implies !self.walkable(
                        a,
                        0,
                    ) by {
                        if self.walkable(a, 0) {
                            lemma_count_row_unique(self.img, 0, self.width(), a, x as int);
                        }
                    }
                }
                return Point(x, 0);
            }
            x = x + 1;
        }
        proof {
            lemma_count_row_zero(self.img, 0, self.width());
        }
        // Unreachable: the row invariant guarantees a walkable pixel.
        Point(0, 0)
    }

    /// The unique walkable cell in the last row, found by scanning from the
    /// last column inward.
    pub fn get_exit(&self) -> (r: Point)
        requires
            self.wf(),
        ensures
            self.is_exit(r),
            self.in_grid(r),
            forall|x: int|
                0 <= x < self.width() && x != r.0 ==> !(#[trigger] self.walkable(
                    x,
                    self.height() - 1,
                )),
    {
        let w = self.img.width;
        let h = self.img.height;
        let mut x: u32 = w;
        while x > 0
            invariant
                x <= w,
                forall|a: int|
                    x <= a < w ==> !(#[trigger] self.walkable(a, self.height() - 1)),
            decreases x,
        {
            x = x - 1;
            if walk(self.img.get_pixel(x, h - 1)) {
                proof {
                    assert forall|a: int| 0 <= a < self.width() && a != x implies !(
                    #[trigger] self.walkable(a, self.height() - 1)) by {
                        if self.walkable(a, self.height() - 1) {
                            lemma_count_row_unique(
                                self.img,
                                self.height() - 1,
                                self.width(),
                                a,
                                x as int,
                            );
                        }
                    }
                }
                return Point(x, h - 1);
            }
        }
        proof {
            lemma_count_row_zero(self.img, self.height() - 1, self.width());
        }
        // Unreachable: the row invariant guarantees a walkable pixel.
        Point(0, h - 1)
    }

    pub fn dimensions(&self) -> (r: (Unit, Unit))
        ensures
            r.0 == self.img.width,
            r.1 == self.img.height,
    {
        (self.img.width, self.img.height)
    }
}

fn count_row(img: &GrayBuffer, y: u32) -> (c: u32)
    requires
        img.wf(),
        y < img.height,
    ensures
        c == count_row_walkable(*img, y as int, img.width as int),
{
    let w = img.width;
    let mut c: u32 = 0;
    let mut x: u32 = 0;
    while x < w
        invariant
            x <= w,
            c <= x,
            c == count_row_walkable(*img, y as int, x as int),
        decreases w - x,
    {
        if walk(img.get_pixel(x, y)) {
            c = c + 1;
        }
        x = x + 1;
    }
    c
}

/// The sequence of walkable 4-neighbours of `p`, enumerated in the fixed
/// order `{+x, +y, -x, -y}`; coordinates that would leave the grid (or
/// underflow) contribute nothing.
pub open spec fn spec_neighbours(m: Maze, p: Point) -> Seq<Point> {
    let s1 = if m.walkable(p.0 as int + 1, p.1 as int) {
        seq![Point((p.0 + 1) as u32, p.1)]
    } else {
        Seq::<Point>::empty()
    };
    let s2 = if m.walkable(p.0 as int, p.1 as int + 1) {
        seq![Point(p.0, (p.1 + 1) as u32)]
    } else {
        Seq::<Point>::empty()
    };
    let s3 = if p.0 > 0 && m.walkable(p.0 as int - 1, p.1 as int) {
        seq![Point((p.0 - 1) as u32, p.1)]
    } else {
        Seq::<Point>::empty()
    };
    let s4 = if p.1 > 0 && m.walkable(p.0 as int, p.1 as int - 1) {
        seq![Point(p.0, (p.1 - 1) as u32)]
    } else {
        Seq::<Point>::empty()
    };
    s1 + s2 + s3 + s4
}

impl Point {
    /// The walkable axis-aligned neighbours of `self` in the fixed order
    /// `{+x, +y, -x, -y}`.
    pub fn neighbours(&self, maze: &Maze) -> (r: Vec<Point>)
        requires
            maze.img.wf(),
        ensures
            r@ == spec_neighbours(*maze, *self),
    {
        let mut r: Vec<Point> = Vec::new();
        if self.0 < u32::MAX && maze.is_walkable(Point(self.0 + 1, self.1)) {
            r.push(Point(self.0 + 1, self.1));
        }
        if self.1 < u32::MAX && maze.is_walkable(Point(self.0, self.1 + 1)) {
            r.push(Point(self.0, self.1 + 1));
        }
        if self.0 > 0 && maze.is_walkable(Point(self.0 - 1, self.1)) {
            r.push(Point(self.0 - 1, self.1));
        }
        if self.1 > 0 && maze.is_walkable(Point(self.0, self.1 - 1)) {
            r.push(Point(self.0, self.1 - 1));
        }
        proof {
            assert(r@ =~= spec_neighbours(*maze, *self));
        }
        r
    }
}

/// The Manhattan distance between two points.
pub open spec fn spec_manhattan(p: Point, q: Point) -> int {
    vstd::math::abs(p.0 as int - q.0 as int) as int + vstd::math::abs(p.1 as int - q.1 as int) as int
}

/// Two points are 4-adjacent when they differ by one unit step.
pub open spec fn adjacent(p: Point, q: Point) -> bool {
    spec_manhattan(p, q) == 1
}

/// A walkable route through the maze: non-empty, every point walkable, and
/// every consecutive pair 4-adjacent.
pub open spec fn is_path(m: Maze, s: Seq<Point>) -> bool {
    &&& s.len() >= 1
    &&& forall|i: int| 0 <= i < s.len() ==> m.walkable((#[trigger] s[i]).0 as int, s[i].1 as int)
    &&& forall|i: int| 0 <= i < s.len() - 1 ==> adjacent(#[trigger] s[i], s[i + 1])
}

/// Every element of `spec_neighbours(m, p)` is a walkable point adjacent to
/// `p`.
pub proof fn lemma_neighbours_props(m: Maze, p: Point)
    ensures
        forall|i: int|
            0 <= i < spec_neighbours(m, p).len() ==> {
                let q = #[trigger] spec_neighbours(m, p)[i];
                m.walkable(q.0 as int, q.1 as int) && adjacent(p, q) && m.in_grid(q)
            },
{
    assert forall|i: int| 0 <= i < spec_neighbours(m, p).len() implies {
        let q = #[trigger] spec_neighbours(m, p)[i];
        m.walkable(q.0 as int, q.1 as int) && adjacent(p, q) && m.in_grid(q)
    } by {
        let s = spec_neighbours(m, p);
        let q = s[i];
        assert(m.walkable(q.0 as int, q.1 as int) && adjacent(p, q));
    }
}

} // verus!
