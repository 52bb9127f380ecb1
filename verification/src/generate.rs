use vstd::prelude::*;

use crate::buffer::{
    exactly_one_walkable_in_row, lemma_count_row_single, lemma_idx_bounds, lemma_idx_injective,
    GrayBuffer,
};
use crate::{is_path, walk, Maze, Point, Unit};

verus! {

#[verifier::external_type_specification]
#[verifier::external_body]
pub struct ExStdRng(rand::rngs::StdRng);

/// A seeded pseudo-random source driving the carving algorithms.  Injecting
/// the seed keeps generation reproducible: the same seed replays the same
/// draws.
pub struct MazeRng {
    rng: rand::rngs::StdRng,
}

impl MazeRng {
    /// Relies on rand's `SeedableRng::seed_from_u64` for `StdRng`: builds a
    /// generator from a 64-bit seed.
    #[verifier::external_body]
    pub fn from_seed(seed: u64) -> (r: MazeRng) {
        MazeRng { rng: rand::SeedableRng::seed_from_u64(seed) }
    }

    /// Relies on rand's `RngExt::random_range` over `0..n`: the sample drawn
    /// from a non-empty range lies within it.
    #[verifier::external_body]
    fn next_below_len(&mut self, n: usize) -> (r: usize)
        requires
            n >= 1,
        ensures
            r < n,
    {
        rand::RngExt::random_range(&mut self.rng, 0..n)
    }

    fn next_below(&mut self, n: u32) -> (r: u32)
        requires
            n >= 1,
        ensures
            r < n,
    {
        self.next_below_len(n as usize) as u32
    }
}

#[derive(Debug, Clone, Copy)]
pub enum Direction {
    Right,
    Down,
    Left,
    Up,
}

/// The logical cell one step in direction `d` from `p`, or `None` at the
/// border of a `w` by `h` cell grid.
pub open spec fn spec_dir_neighbour(d: Direction, p: Point, w: u32, h: u32) -> Option<Point> {
    match d {
        Direction::Right => if p.0 >= w - 1 {
            None
        } else {
            Some(Point((p.0 + 1) as u32, p.1))
        },
        Direction::Down => if p.1 >= h - 1 {
            None
        } else {
            Some(Point(p.0, (p.1 + 1) as u32))
        },
        Direction::Up => if p.1 == 0 {
            None
        } else {
            Some(Point(p.0, (p.1 - 1) as u32))
        },
        Direction::Left => if p.0 == 0 {
            None
        } else {
            Some(Point((p.0 - 1) as u32, p.1))
        },
    }
}

/// Pixel coordinates of the neighbouring cell one step in direction `d` from
/// logical cell `p`, on the doubled pixel grid where cell `(x, y)` sits at
/// pixel `(2x + 1, 2y + 1)`.
pub open spec fn spec_dir_cell(d: Direction, p: Point, w: u32, h: u32) -> Option<(u32, u32)> {
    let x = p.0 as int;
    let y = p.1 as int;
    match d {
        Direction::Right => if x >= w || 2 * x + 3 > u32::MAX {
            None
        } else {
            Some(((2 * x + 3) as u32, (2 * y + 1) as u32))
        },
        Direction::Down => if y >= h || 2 * y + 3 > u32::MAX {
            None
        } else {
            Some(((2 * x + 1) as u32, (2 * y + 3) as u32))
        },
        Direction::Up => if y == 0 {
            None
        } else {
            Some(((2 * x + 1) as u32, (2 * y - 1) as u32))
        },
        Direction::Left => if x == 0 {
            None
        } else {
            Some(((2 * x - 1) as u32, (2 * y + 1) as u32))
        },
    }
}

/// Pixel coordinates of the wall between logical cell `p` and its neighbour
/// in direction `d` on the doubled pixel grid.
pub open spec fn spec_dir_wall(d: Direction, p: Point, w: u32, h: u32) -> Option<(u32, u32)> {
    let x = p.0 as int;
    let y = p.1 as int;
    match d {
        Direction::Right => if x >= w || 2 * x + 2 > u32::MAX {
            None
        } else {
            Some(((2 * x + 2) as u32, (2 * y + 1) as u32))
        },
        Direction::Down => if y >= h || 2 * y + 2 > u32::MAX {
            None
        } else {
            Some(((2 * x + 1) as u32, (2 * y + 2) as u32))
        },
        Direction::Up => Some(((2 * x + 1) as u32, (2 * y) as u32)),
        Direction::Left => Some(((2 * x) as u32, (2 * y + 1) as u32)),
    }
}

/// A sequence holding each of the four directions (hence, at length four, a
/// permutation of them).
pub open spec fn has_all_dirs(s: Seq<Direction>) -> bool {
    &&& s.len() == 4
    &&& s.contains(Direction::Right)
    &&& s.contains(Direction::Down)
    &&& s.contains(Direction::Left)
    &&& s.contains(Direction::Up)
}

impl Direction {
    pub fn neighbour(self, p: Point, dims: (Unit, Unit)) -> (r: Option<Point>)
        requires
            dims.0 >= 1,
            dims.1 >= 1,
        ensures
            r == spec_dir_neighbour(self, p, dims.0, dims.1),
    {
        let Point(x, y) = p;
        let (w, h) = dims;
        match self {
            Direction::Right => if x >= w - 1 {
                None
            } else {
                Some(Point(x + 1, y))
            },
            Direction::Down => if y >= h - 1 {
                None
            } else {
                Some(Point(x, y + 1))
            },
            Direction::Up => if y == 0 {
                None
            } else {
                Some(Point(x, y - 1))
            },
            Direction::Left => if x == 0 {
                None
            } else {
                Some(Point(x - 1, y))
            },
        }
    }

    pub fn cell(self, p: Point, dims: (Unit, Unit)) -> (r: Option<(u32, u32)>)
        requires
            2 * p.0 + 1 <= u32::MAX,
            2 * p.1 + 1 <= u32::MAX,
        ensures
            r == spec_dir_cell(self, p, dims.0, dims.1),
    {
        let Point(x, y) = p;
        let (w, h) = dims;
        match self {
            Direction::Right => if x >= w || 2 * x > u32::MAX - 3 {
                None
            } else {
                Some((2 * x + 3, 2 * y + 1))
            },
            Direction::Down => if y >= h || 2 * y > u32::MAX - 3 {
                None
            } else {
                Some((2 * x + 1, 2 * y + 3))
            },
            Direction::Up => if y == 0 {
                None
            } else {
                Some((2 * x + 1, 2 * y - 1))
            },
            Direction::Left => if x == 0 {
                None
            } else {
                Some((2 * x - 1, 2 * y + 1))
            },
        }
    }

    pub fn wall(self, p: Point, dims: (Unit, Unit)) -> (r: Option<(u32, u32)>)
        requires
            2 * p.0 + 1 <= u32::MAX,
            2 * p.1 + 1 <= u32::MAX,
        ensures
            r == spec_dir_wall(self, p, dims.0, dims.1),
    {
        let Point(x, y) = p;
        let (w, h) = dims;
        match self {
            Direction::Right => if x >= w || 2 * x > u32::MAX - 2 {
                None
            } else {
                Some((2 * x + 2, 2 * y + 1))
            },
            Direction::Down => if y >= h || 2 * y > u32::MAX - 2 {
                None
            } else {
                Some((2 * x + 1, 2 * y + 2))
            },
            Direction::Up => Some((2 * x + 1, 2 * y)),
            Direction::Left => Some((2 * x, 2 * y + 1)),
        }
    }

    /// A fresh random permutation of the four directions, re-derived on every
    /// call so the carving order carries no fixed bias.  The draws decide the
    /// permutation; `shuffle_dirs` pins which one each outcome yields.
    pub fn random_dirs(rng: &mut MazeRng) -> (dirs: Vec<Direction>)
        ensures
            has_all_dirs(dirs@),
    {
        let swap_top = rng.next_below(2) == 0;
        let pick_first: u32 = if rng.next_below(10) < 3 {
            1 + rng.next_below(3)
        } else {
            0
        };
        let pick_second: u32 = if rng.next_below(10) < 3 {
            2 + rng.next_below(2)
        } else {
            0
        };
        let swap_tail = rng.next_below(2) == 0;
        Direction::shuffle_dirs(swap_top, pick_first, pick_second, swap_tail)
    }

    /// The permutation of the four directions selected by the given draws:
    /// exactly `spec_shuffled` of them.  A `pick` of 0 means no swap.
    #[verifier::rlimit(100)]
    pub fn shuffle_dirs(swap_top: bool, pick_first: u32, pick_second: u32, swap_tail: bool) -> (dirs:
        Vec<Direction>)
        requires
            pick_first == 0 || 1 <= pick_first < 4,
            pick_second == 0 || 2 <= pick_second < 4,
        ensures
            dirs@ == spec_shuffled(swap_top, pick_first as int, pick_second as int, swap_tail),
            has_all_dirs(dirs@),
    {
        let mut dirs: Vec<Direction> = Vec::new();
        dirs.push(Direction::Down);
        dirs.push(Direction::Up);
        dirs.push(Direction::Right);
        dirs.push(Direction::Left);
        assert(has_all_dirs(dirs@)) by {
            assert(dirs@[0] == Direction::Down);
            assert(dirs@[1] == Direction::Up);
            assert(dirs@[2] == Direction::Right);
            assert(dirs@[3] == Direction::Left);
        }
        if swap_top {
            swap_dirs(&mut dirs, 0, 1);
        }
        if pick_first >= 1 {
            swap_dirs(&mut dirs, 0, pick_first as usize);
        }
        if pick_second >= 2 {
            swap_dirs(&mut dirs, 1, pick_second as usize);
        }
        if swap_tail {
            swap_dirs(&mut dirs, 2, 3);
        }
        dirs
    }
}

/// Two positions of a sequence exchanged.
pub open spec fn swap_seq(s: Seq<Direction>, i: int, j: int) -> Seq<Direction> {
    s.update(i, s[j]).update(j, s[i])
}

/// The permutation of `[Down, Up, Right, Left]` reached by the four shuffle
/// steps: an optional top swap, an optional swap of position 0 with
/// `pick_first` (1 to 3), an optional swap of position 1 with `pick_second`
/// (2 or 3), and an optional tail swap.  A pick of 0 skips its step.
pub open spec fn spec_shuffled(swap_top: bool, pick_first: int, pick_second: int, swap_tail: bool) -> Seq<
    Direction,
> {
    let s0 = seq![Direction::Down, Direction::Up, Direction::Right, Direction::Left];
    let s1 = if swap_top {
        swap_seq(s0, 0, 1)
    } else {
        s0
    };
    let s2 = if 1 <= pick_first < 4 {
        swap_seq(s1, 0, pick_first)
    } else {
        s1
    };
    let s3 = if 2 <= pick_second < 4 {
        swap_seq(s2, 1, pick_second)
    } else {
        s2
    };
    if swap_tail {
        swap_seq(s3, 2, 3)
    } else {
        s3
    }
}

fn swap_dirs(v: &mut Vec<Direction>, i: usize, j: usize)
    requires
        i < old(v)@.len(),
        j < old(v)@.len(),
        has_all_dirs(old(v)@),
    ensures
        final(v)@ == swap_seq(old(v)@, i as int, j as int),
        final(v)@.len() == old(v)@.len(),
        has_all_dirs(final(v)@),
{
    let a = v[i];
    let b = v[j];
    v[i] = b;
    v[j] = a;
    proof {
        let s1 = old(v)@;
        let s2 = v@;
        assert(s2 == s1.update(i as int, s1[j as int]).update(j as int, s1[i as int]));
        lemma_swap_contains(s1, s2, i as int, j as int, Direction::Right);
        lemma_swap_contains(s1, s2, i as int, j as int, Direction::Down);
        lemma_swap_contains(s1, s2, i as int, j as int, Direction::Left);
        lemma_swap_contains(s1, s2, i as int, j as int, Direction::Up);
    }
}

/// How many cells the carving pass has visited.
spec fn count_true(s: Seq<bool>) -> nat
    decreases s.len(),
{
    if s.len() == 0 {
        0
    } else {
        count_true(s.drop_last()) + if s.last() {
            1nat
        } else {
            0nat
        }
    }
}

proof fn lemma_count_true_update(s: Seq<bool>, i: int)
    requires
        0 <= i < s.len(),
        !s[i],
    ensures
        count_true(s.update(i, true)) == count_true(s) + 1,
    decreases s.len(),
{
    let s2 = s.update(i, true);
    if i == s.len() - 1 {
        assert(s2.drop_last() =~= s.drop_last());
    } else {
        assert(s2.drop_last() =~= s.drop_last().update(i, true));
        lemma_count_true_update(s.drop_last(), i);
        assert(s2.last() == s.last());
    }
}

proof fn lemma_count_true_zero(s: Seq<bool>)
    requires
        forall|i: int| 0 <= i < s.len() ==> !s[i],
    ensures
        count_true(s) == 0,
    decreases s.len(),
{
    if s.len() > 0 {
        lemma_count_true_zero(s.drop_last());
    }
}

proof fn lemma_count_true_le_len(s: Seq<bool>)
    ensures
        count_true(s) <= s.len(),
    decreases s.len(),
{
    if s.len() > 0 {
        lemma_count_true_le_len(s.drop_last());
    }
}

/// The pixel of logical cell `(cx, cy)` on the doubled grid is passable.
pub open spec fn cell_walk(img: GrayBuffer, cx: int, cy: int) -> bool {
    img.walkable(2 * cx + 1, 2 * cy + 1)
}

/// The visited flag of logical cell `(cx, cy)` in a row-major flag vector.
spec fn vis_at(v: Seq<bool>, w: int, cx: int, cy: int) -> bool {
    v[cy * w + cx]
}

/// Every passable wall pixel strictly inside the image joins two passable
/// cell pixels, one on each side of its even axis.
pub open spec fn walls_joined_interior(img: GrayBuffer) -> bool {
    forall|a: int, b: int|
        #[trigger] img.walkable(a, b) && wall_par(a, b) && 1 <= a < img.width - 1 && 1 <= b
            < img.height - 1 ==> ((a % 2 == 0 ==> img.walkable(a - 1, b) && img.walkable(a + 1, b))
            && (b % 2 == 0 ==> img.walkable(a, b - 1) && img.walkable(a, b + 1)))
}

/// Parities of the pixel coordinates derived from a logical coordinate.
proof fn lemma_double_parities(u: int)
    ensures
        (2 * u) % 2 == 0,
        (2 * u + 1) % 2 == 1,
        (2 * u + 2) % 2 == 0,
        (2 * u + 3) % 2 == 1,
{
    vstd::arithmetic::div_mod::lemma_mod_multiples_vanish(u, 0, 2);
    vstd::arithmetic::div_mod::lemma_mod_multiples_vanish(u, 1, 2);
    vstd::arithmetic::div_mod::lemma_mod_multiples_vanish(u + 1, 0, 2);
    vstd::arithmetic::div_mod::lemma_mod_multiples_vanish(u + 1, 1, 2);
}

/// Two pixels of a buffer joined by a walkable 4-adjacent route.
pub open spec fn joined(img: GrayBuffer, a: Point, b: Point) -> bool {
    crate::a_star::connected(Maze { img }, a, b)
}

/// Connectivity survives carving: adding passable pixels keeps every route
/// valid.
proof fn lemma_joined_mono(i1: GrayBuffer, i2: GrayBuffer, a: Point, b: Point)
    requires
        joined(i1, a, b),
        forall|x: int, y: int| i1.walkable(x, y) ==> #[trigger] i2.walkable(x, y),
    ensures
        joined(i2, a, b),
{
    let m1 = Maze { img: i1 };
    let m2 = Maze { img: i2 };
    let s = choose|s: Seq<Point>| is_path(m1, s) && s[0] == a && s[s.len() - 1] == b;
    assert forall|i: int|
        0 <= i < s.len() implies m2.walkable((#[trigger] s[i]).0 as int, s[i].1 as int) by {
        assert(m1.walkable(s[i].0 as int, s[i].1 as int));
    }
    assert(is_path(m2, s) && s[0] == a && s[s.len() - 1] == b);
}

/// A route extends by one adjacent passable pixel.
proof fn lemma_joined_step(img: GrayBuffer, a: Point, b: Point, c: Point)
    requires
        joined(img, a, b),
        crate::adjacent(b, c),
        img.walkable(c.0 as int, c.1 as int),
    ensures
        joined(img, a, c),
{
    let m = Maze { img };
    let s = choose|s: Seq<Point>| is_path(m, s) && s[0] == a && s[s.len() - 1] == b;
    let s2 = s.push(c);
    assert forall|i: int|
        0 <= i < s2.len() implies m.walkable((#[trigger] s2[i]).0 as int, s2[i].1 as int) by {
        if i < s.len() {
            assert(s2[i] == s[i]);
        } else {
            assert(s2[i] == c);
        }
    }
    assert forall|i: int|
        0 <= i < s2.len() - 1 implies crate::adjacent(#[trigger] s2[i], s2[i + 1]) by {
        if i < s.len() - 1 {
            assert(s2[i] == s[i] && s2[i + 1] == s[i + 1]);
        } else {
            assert(s2[i] == s[s.len() - 1] && s2[i + 1] == c);
        }
    }
    assert(is_path(m, s2) && s2[0] == a && s2[s2.len() - 1] == c);
}

proof fn lemma_joined_refl(img: GrayBuffer, a: Point)
    requires
        img.walkable(a.0 as int, a.1 as int),
    ensures
        joined(img, a, a),
{
    let m = Maze { img };
    let s = seq![a];
    assert(is_path(m, s) && s[0] == a && s[s.len() - 1] == a);
}

/// The four logical neighbours of a visited cell are all visited.
spec fn cell_closed(v: Seq<bool>, w: int, h: int, cx: int, cy: int) -> bool {
    &&& (cx + 1 < w ==> vis_at(v, w, cx + 1, cy))
    &&& (cy + 1 < h ==> vis_at(v, w, cx, cy + 1))
    &&& (cx > 0 ==> vis_at(v, w, cx - 1, cy))
    &&& (cy > 0 ==> vis_at(v, w, cx, cy - 1))
}

spec fn on_stack(st: Seq<Point>, cx: int, cy: int) -> bool {
    exists|i: int| 0 <= i < st.len() && st[i].0 == cx && st[i].1 == cy
}

/// A closed cell stays closed when another flag is set.
proof fn lemma_cell_closed_mono(
    v1: Seq<bool>,
    v2: Seq<bool>,
    w: int,
    h: int,
    a: int,
    b: int,
    li: int,
)
    requires
        0 <= li < v1.len(),
        v1.len() == w * h,
        v2 == v1.update(li, true),
        0 <= a < w,
        0 <= b < h,
        cell_closed(v1, w, h, a, b),
    ensures
        cell_closed(v2, w, h, a, b),
{
    if a + 1 < w {
        lemma_idx_bounds(w, h, a + 1, b);
    }
    if b + 1 < h {
        lemma_idx_bounds(w, h, a, b + 1);
    }
    if a > 0 {
        lemma_idx_bounds(w, h, a - 1, b);
    }
    if b > 0 {
        lemma_idx_bounds(w, h, a, b - 1);
    }
}

/// If the visited set contains a cell and is closed under logical adjacency,
/// it covers the whole cell grid.
proof fn lemma_closed_visited_all(v: Seq<bool>, w: int, h: int, sx: int, sy: int, cx: int, cy: int)
    requires
        0 <= sx < w,
        0 <= sy < h,
        0 <= cx < w,
        0 <= cy < h,
        vis_at(v, w, sx, sy),
        forall|a: int, b: int|
            0 <= a < w && 0 <= b < h && #[trigger] vis_at(v, w, a, b) ==> cell_closed(
                v,
                w,
                h,
                a,
                b,
            ),
    ensures
        vis_at(v, w, cx, cy),
    decreases vstd::math::abs(cx - sx) + vstd::math::abs(cy - sy),
{
    if sx < cx {
        lemma_closed_visited_all(v, w, h, sx + 1, sy, cx, cy);
    } else if sx > cx {
        lemma_closed_visited_all(v, w, h, sx - 1, sy, cx, cy);
    } else if sy < cy {
        lemma_closed_visited_all(v, w, h, sx, sy + 1, cx, cy);
    } else if sy > cy {
        lemma_closed_visited_all(v, w, h, sx, sy - 1, cx, cy);
    }
}

proof fn lemma_count_true_all(s: Seq<bool>)
    requires
        forall|i: int| 0 <= i < s.len() ==> s[i],
    ensures
        count_true(s) == s.len(),
    decreases s.len(),
{
    if s.len() > 0 {
        lemma_count_true_all(s.drop_last());
    }
}

/// One carving step, structure side: every passable interior wall still
/// joins two passable cells, and every passable pixel still joins the
/// entrance pixel -- the new wall and cell join it through the cell of `p`.
#[verifier::rlimit(100)]
proof fn lemma_carve_join(
    old_img: GrayBuffer,
    mid_img: GrayBuffer,
    img: GrayBuffer,
    old_vis: Seq<bool>,
    width: u32,
    height: u32,
    epix: Point,
    p: Point,
    nb: Point,
    px: u32,
    py: u32,
    cx: u32,
    cy: u32,
)
    requires
        1 <= width,
        1 <= height,
        old_img.wf(),
        old_img.width == 2 * width + 1,
        old_img.height == 2 * height + 1,
        old_vis.len() == width * height,
        forall|cx2: int, cy2: int|
            0 <= cx2 < width && 0 <= cy2 < height ==> (#[trigger] vis_at(
                old_vis,
                width as int,
                cx2,
                cy2,
            ) <==> cell_walk(old_img, cx2, cy2)),
        walls_joined_interior(old_img),
        forall|q: Point|
            old_img.walkable(q.0 as int, q.1 as int) ==> #[trigger] joined(old_img, epix, q),
        p.0 < width,
        p.1 < height,
        vis_at(old_vis, width as int, p.0 as int, p.1 as int),
        1 <= px < old_img.width - 1,
        1 <= py < old_img.height - 1,
        cx == 2 * nb.0 + 1,
        cy == 2 * nb.1 + 1,
        wall_par(px as int, py as int),
        !wall_par(cx as int, cy as int),
        crate::adjacent(Point((2 * p.0 + 1) as u32, (2 * p.1 + 1) as u32), Point(px, py)),
        crate::adjacent(Point(px, py), Point(cx, cy)),
        (px as int % 2 == 0 ==> (px as int - 1 == 2 * p.0 + 1 && px as int + 1 == cx) || (px as int
            + 1 == 2 * p.0 + 1 && px as int - 1 == cx)),
        (py as int % 2 == 0 ==> (py as int - 1 == 2 * p.1 + 1 && py as int + 1 == cy) || (py as int
            + 1 == 2 * p.1 + 1 && py as int - 1 == cy)),
        (px as int % 2 == 0 ==> py == 2 * p.1 + 1 && py == cy),
        (py as int % 2 == 0 ==> px == 2 * p.0 + 1 && px == cx),
        img.wf(),
        img.width == old_img.width,
        img.height == old_img.height,
        img.pix(cx as int, cy as int) == 255,
        mid_img.wf(),
        mid_img.width == old_img.width,
        mid_img.height == old_img.height,
        mid_img.pix(px as int, py as int) == 255,
        forall|a: int, b: int|
            old_img.in_bounds(a, b) && !(a == px && b == py) ==> #[trigger] mid_img.pix(a, b)
                == old_img.pix(a, b),
        forall|a: int, b: int|
            mid_img.in_bounds(a, b) && !(a == cx && b == cy) ==> #[trigger] img.pix(a, b)
                == mid_img.pix(a, b),
        forall|u: int, v2: int| old_img.walkable(u, v2) ==> #[trigger] img.walkable(u, v2),
    ensures
        walls_joined_interior(img),
        forall|q: Point|
            img.walkable(q.0 as int, q.1 as int) ==> #[trigger] joined(img, epix, q),
{
    let wpix = old_img.width;
    let hpix = old_img.height;
    let pcell = Point((2 * p.0 + 1) as u32, (2 * p.1 + 1) as u32);
    let wpoint = Point(px, py);
    let ccell = Point(cx, cy);
    assert(cell_walk(old_img, p.0 as int, p.1 as int));
    assert(old_img.walkable(pcell.0 as int, pcell.1 as int));
    assert(img.walkable(pcell.0 as int, pcell.1 as int));
    assert(img.walkable(px as int, py as int));
    assert(img.walkable(cx as int, cy as int));
    assert(joined(old_img, epix, pcell));
    lemma_joined_mono(old_img, img, epix, pcell);
    lemma_joined_step(img, epix, pcell, wpoint);
    lemma_joined_step(img, epix, wpoint, ccell);
    assert forall|q: Point|
        img.walkable(q.0 as int, q.1 as int) implies #[trigger] joined(img, epix, q) by {
        if q != wpoint && q != ccell {
            assert(img.pix(q.0 as int, q.1 as int) == mid_img.pix(q.0 as int, q.1 as int));
            assert(mid_img.pix(q.0 as int, q.1 as int) == old_img.pix(q.0 as int, q.1 as int));
            assert(old_img.walkable(q.0 as int, q.1 as int));
            assert(joined(old_img, epix, q));
            lemma_joined_mono(old_img, img, epix, q);
        }
    }
    assert forall|a: int, b: int|
        #[trigger] img.walkable(a, b) && wall_par(a, b) && 1 <= a < wpix - 1 && 1 <= b < hpix
        - 1 implies ((a % 2 == 0 ==> img.walkable(a - 1, b) && img.walkable(a + 1, b)) && (b % 2
        == 0 ==> img.walkable(a, b - 1) && img.walkable(a, b + 1))) by {
        if a == px as int && b == py as int {
            assert((a % 2 == 0 ==> img.walkable(a - 1, b) && img.walkable(a + 1, b)) && (b % 2 == 0
                ==> img.walkable(a, b - 1) && img.walkable(a, b + 1)));
        } else if a == cx as int && b == cy as int {
            assert(!wall_par(a, b));
        } else {
            assert(img.pix(a, b) == mid_img.pix(a, b));
            assert(mid_img.pix(a, b) == old_img.pix(a, b));
            assert(old_img.walkable(a, b));
        }
    }
}

/// The newly visited cell waits on the stack; every other visited cell
/// (except the one being processed) keeps its closure witness.
proof fn lemma_carve_closure(
    old_vis: Seq<bool>,
    nv: Seq<bool>,
    old_stack: Seq<Point>,
    ns: Seq<Point>,
    width: u32,
    height: u32,
    p: Point,
    nb: Point,
    li: int,
)
    requires
        1 <= width,
        1 <= height,
        width * height <= u32::MAX,
        old_vis.len() == width * height,
        forall|a: int, b: int|
            0 <= a < width && 0 <= b < height && !(a == p.0 as int && b == p.1 as int)
                && #[trigger] vis_at(old_vis, width as int, a, b) ==> cell_closed(
                old_vis,
                width as int,
                height as int,
                a,
                b,
            ) || on_stack(old_stack, a, b),
        nb.0 < width,
        nb.1 < height,
        li == nb.1 * width + nb.0,
        nv == old_vis.update(li, true),
        ns == old_stack.push(p).push(nb),
    ensures
        forall|a: int, b: int|
            0 <= a < width && 0 <= b < height && !(a == p.0 as int && b == p.1 as int)
                && #[trigger] vis_at(nv, width as int, a, b) ==> cell_closed(
                nv,
                width as int,
                height as int,
                a,
                b,
            ) || on_stack(ns, a, b),
{
    lemma_idx_bounds(width as int, height as int, nb.0 as int, nb.1 as int);
    assert forall|a: int, b: int|
        0 <= a < width && 0 <= b < height && !(a == p.0 as int && b == p.1 as int)
            && #[trigger] vis_at(nv, width as int, a, b) implies cell_closed(
        nv,
        width as int,
        height as int,
        a,
        b,
    ) || on_stack(ns, a, b) by {
        lemma_idx_bounds(width as int, height as int, a, b);
        if a == nb.0 as int && b == nb.1 as int {
            assert(ns[ns.len() - 1].0 == a && ns[ns.len() - 1].1 == b);
        } else {
            lemma_idx_injective(width as int, height as int, a, b, nb.0 as int, nb.1 as int);
            assert(vis_at(old_vis, width as int, a, b));
            if on_stack(old_stack, a, b) {
                let j = choose|j: int|
                    0 <= j < old_stack.len() && old_stack[j].0 == a && old_stack[j].1 == b;
                assert(ns[j].0 == a && ns[j].1 == b);
            } else {
                assert(cell_closed(old_vis, width as int, height as int, a, b));
                lemma_cell_closed_mono(old_vis, nv, width as int, height as int, a, b, li);
            }
        }
    }
}
/// The reachability bookkeeping of the depth-first pass: the entrance cell
/// is visited, every passable pixel joins the entrance pixel, and every
/// visited cell (except a possibly exempt one, the cell being processed) is
/// closed or waits on the stack.  Kept opaque so the loops carry it as one
/// fact; the adapter lemmas below open it.
#[verifier::opaque]
spec fn reach_inv(
    img: GrayBuffer,
    v: Seq<bool>,
    st: Seq<Point>,
    width: u32,
    height: u32,
    entrance_x: u32,
    ex: int,
    ey: int,
) -> bool {
    &&& vis_at(v, width as int, entrance_x as int, 0)
    &&& forall|q: Point|
        img.walkable(q.0 as int, q.1 as int) ==> #[trigger] joined(
            img,
            (Point((2 * entrance_x + 1) as u32, 0u32)),
            q,
        )
    &&& forall|a: int, b: int|
        0 <= a < width && 0 <= b < height && !(a == ex && b == ey) && #[trigger] vis_at(
            v,
            width as int,
            a,
            b,
        ) ==> cell_closed(v, width as int, height as int, a, b) || on_stack(st, a, b)
}

/// At the start of the pass only the entrance pixel and its cell are carved,
/// the entrance cell is the only visited cell, and it waits on the stack.
proof fn lemma_reach_init(
    img: GrayBuffer,
    v: Seq<bool>,
    st: Seq<Point>,
    width: u32,
    height: u32,
    entrance_x: u32,
)
    requires
        1 <= width,
        1 <= height,
        entrance_x < width,
        img.wf(),
        img.width == 2 * width + 1,
        img.height == 2 * height + 1,
        forall|a: int, b: int|
            #[trigger] img.walkable(a, b) <==> (a == 2 * entrance_x + 1 && (b == 0 || b == 1)),
        v.len() == width * height,
        forall|cx: int, cy: int|
            0 <= cx < width && 0 <= cy < height ==> (#[trigger] vis_at(v, width as int, cx, cy)
                <==> (cx == entrance_x as int && cy == 0)),
        st.len() == 1,
        st[0] == Point(entrance_x, 0u32),
    ensures
        reach_inv(img, v, st, width, height, entrance_x, -1, -1),
{
    reveal(reach_inv);
    let epix = Point((2 * entrance_x + 1) as u32, 0u32);
    let ecell = Point((2 * entrance_x + 1) as u32, 1u32);
    assert(img.walkable(epix.0 as int, epix.1 as int));
    assert(img.walkable(ecell.0 as int, ecell.1 as int));
    lemma_joined_refl(img, epix);
    lemma_joined_step(img, epix, epix, ecell);
    assert forall|q: Point|
        img.walkable(q.0 as int, q.1 as int) implies #[trigger] joined(img, epix, q) by {
        assert(q == epix || q == ecell);
    }
    assert forall|a: int, b: int|
        0 <= a < width && 0 <= b < height && !(a == -1 && b == -1) && #[trigger] vis_at(
            v,
            width as int,
            a,
            b,
        ) implies cell_closed(v, width as int, height as int, a, b) || on_stack(st, a, b) by {
        assert(a == entrance_x as int && b == 0);
        assert(st[0].0 == a && st[0].1 == b);
    }
}

/// Popping the top of the stack exempts exactly the popped cell.
proof fn lemma_reach_pop(
    img: GrayBuffer,
    v: Seq<bool>,
    stack_pre: Seq<Point>,
    ns: Seq<Point>,
    width: u32,
    height: u32,
    entrance_x: u32,
    p: Point,
)
    requires
        reach_inv(img, v, stack_pre, width, height, entrance_x, -1, -1),
        stack_pre.len() >= 1,
        stack_pre[stack_pre.len() - 1] == p,
        ns == stack_pre.drop_last(),
    ensures
        reach_inv(img, v, ns, width, height, entrance_x, p.0 as int, p.1 as int),
{
    reveal(reach_inv);
    assert forall|a: int, b: int|
        0 <= a < width && 0 <= b < height && !(a == p.0 as int && b == p.1 as int)
            && #[trigger] vis_at(v, width as int, a, b) implies cell_closed(
        v,
        width as int,
        height as int,
        a,
        b,
    ) || on_stack(ns, a, b) by {
        if on_stack(stack_pre, a, b) {
            let j = choose|j: int|
                0 <= j < stack_pre.len() && stack_pre[j].0 == a && stack_pre[j].1 == b;
            assert(j < stack_pre.len() - 1);
            assert(ns[j].0 == a && ns[j].1 == b);
        }
    }
}

/// One carving step keeps the reachability bookkeeping: the new wall and
/// cell join the entrance through the cell of `p`, and the newly visited
/// cell waits on the stack.
#[verifier::rlimit(100)]
proof fn lemma_reach_carve(
    old_img: GrayBuffer,
    mid_img: GrayBuffer,
    img: GrayBuffer,
    old_vis: Seq<bool>,
    nv: Seq<bool>,
    old_stack: Seq<Point>,
    ns: Seq<Point>,
    width: u32,
    height: u32,
    entrance_x: u32,
    p: Point,
    nb: Point,
    d: Direction,
    px: u32,
    py: u32,
    cx: u32,
    cy: u32,
    li: int,
)
    requires
        1 <= width,
        1 <= height,
        (2 * width + 1) * (2 * height + 1) <= u32::MAX,
        entrance_x < width,
        reach_inv(old_img, old_vis, old_stack, width, height, entrance_x, p.0 as int, p.1 as int),
        old_img.wf(),
        old_img.width == 2 * width + 1,
        old_img.height == 2 * height + 1,
        old_vis.len() == width * height,
        forall|cx2: int, cy2: int|
            0 <= cx2 < width && 0 <= cy2 < height ==> (#[trigger] vis_at(
                old_vis,
                width as int,
                cx2,
                cy2,
            ) <==> cell_walk(old_img, cx2, cy2)),
        walls_joined_interior(old_img),
        p.0 < width,
        p.1 < height,
        vis_at(old_vis, width as int, p.0 as int, p.1 as int),
        spec_dir_neighbour(d, p, width, height) == Some(nb),
        spec_dir_wall(d, p, width, height) == Some((px, py)),
        spec_dir_cell(d, p, width, height) == Some((cx, cy)),
        !vis_at(old_vis, width as int, nb.0 as int, nb.1 as int),
        li == nb.1 * width + nb.0,
        nv == old_vis.update(li, true),
        ns == old_stack.push(p).push(nb),
        !old_img.walkable(px as int, py as int),
        !old_img.walkable(cx as int, cy as int),
        mid_img.wf(),
        mid_img.width == old_img.width,
        mid_img.height == old_img.height,
        mid_img.pix(px as int, py as int) == 255,
        forall|a: int, b: int|
            old_img.in_bounds(a, b) && !(a == px && b == py) ==> #[trigger] mid_img.pix(a, b)
                == old_img.pix(a, b),
        img.wf(),
        img.width == old_img.width,
        img.height == old_img.height,
        img.pix(cx as int, cy as int) == 255,
        forall|a: int, b: int|
            mid_img.in_bounds(a, b) && !(a == cx && b == cy) ==> #[trigger] img.pix(a, b)
                == mid_img.pix(a, b),
        forall|u: int, v2: int| old_img.walkable(u, v2) ==> #[trigger] img.walkable(u, v2),
    ensures
        reach_inv(img, nv, ns, width, height, entrance_x, p.0 as int, p.1 as int),
{
    reveal(reach_inv);
    assert(2 * width + 1 <= u32::MAX && 2 * height + 1 <= u32::MAX && width * height
        <= u32::MAX) by (nonlinear_arith)
        requires
            1 <= width,
            1 <= height,
            (2 * width + 1) * (2 * height + 1) <= u32::MAX,
    ;
    let epix = Point((2 * entrance_x + 1) as u32, 0u32);
    lemma_double_parities(p.0 as int);
    lemma_double_parities(p.1 as int);
    lemma_double_parities(nb.0 as int);
    lemma_double_parities(nb.1 as int);
    lemma_idx_bounds(width as int, height as int, nb.0 as int, nb.1 as int);
    lemma_idx_bounds(width as int, height as int, entrance_x as int, 0);
    assert(1 <= px < old_img.width - 1 && 1 <= py < old_img.height - 1);
    assert(cx == 2 * nb.0 + 1 && cy == 2 * nb.1 + 1);
    assert(wall_par(px as int, py as int));
    assert(!wall_par(cx as int, cy as int));
    assert(crate::adjacent(Point((2 * p.0 + 1) as u32, (2 * p.1 + 1) as u32), Point(px, py)));
    assert(crate::adjacent(Point(px, py), Point(cx, cy)));
    assert(px as int % 2 == 0 ==> ((px as int - 1 == 2 * p.0 + 1 && px as int + 1 == cx) || (
    px as int + 1 == 2 * p.0 + 1 && px as int - 1 == cx)) && py == 2 * p.1 + 1 && py == cy);
    assert(py as int % 2 == 0 ==> ((py as int - 1 == 2 * p.1 + 1 && py as int + 1 == cy) || (
    py as int + 1 == 2 * p.1 + 1 && py as int - 1 == cy)) && px == 2 * p.0 + 1 && px == cx);
    lemma_carve_join(
        old_img,
        mid_img,
        img,
        old_vis,
        width,
        height,
        epix,
        p,
        nb,
        px,
        py,
        cx,
        cy,
    );
    lemma_carve_closure(old_vis, nv, old_stack, ns, width, height, p, nb, li);
    assert(vis_at(nv, width as int, entrance_x as int, 0));
}

/// With every direction of `p` processed, `p` itself is closed and the
/// exemption can be dropped.
proof fn lemma_reach_processed(
    img: GrayBuffer,
    v: Seq<bool>,
    st: Seq<Point>,
    width: u32,
    height: u32,
    entrance_x: u32,
    p: Point,
    dirs: Seq<Direction>,
)
    requires
        1 <= width,
        1 <= height,
        p.0 < width,
        p.1 < height,
        has_all_dirs(dirs),
        reach_inv(img, v, st, width, height, entrance_x, p.0 as int, p.1 as int),
        forall|j: int|
            0 <= j < dirs.len() ==> match spec_dir_neighbour(#[trigger] dirs[j], p, width, height) {
                None => true,
                Some(nbj) => vis_at(v, width as int, nbj.0 as int, nbj.1 as int),
            },
    ensures
        reach_inv(img, v, st, width, height, entrance_x, -1, -1),
{
    reveal(reach_inv);
    assert forall|a: int, b: int|
        0 <= a < width && 0 <= b < height && !(a == -1 && b == -1) && #[trigger] vis_at(
            v,
            width as int,
            a,
            b,
        ) implies cell_closed(v, width as int, height as int, a, b) || on_stack(st, a, b) by {
        if a == p.0 as int && b == p.1 as int {
            assert(dirs.contains(Direction::Right));
            let jr = choose|j: int| 0 <= j < dirs.len() && dirs[j] == Direction::Right;
            assert(match spec_dir_neighbour(dirs[jr], p, width, height) {
                None => true,
                Some(nbj) => vis_at(v, width as int, nbj.0 as int, nbj.1 as int),
            });
            assert(dirs.contains(Direction::Down));
            let jd = choose|j: int| 0 <= j < dirs.len() && dirs[j] == Direction::Down;
            assert(match spec_dir_neighbour(dirs[jd], p, width, height) {
                None => true,
                Some(nbj) => vis_at(v, width as int, nbj.0 as int, nbj.1 as int),
            });
            assert(dirs.contains(Direction::Left));
            let jl = choose|j: int| 0 <= j < dirs.len() && dirs[j] == Direction::Left;
            assert(match spec_dir_neighbour(dirs[jl], p, width, height) {
                None => true,
                Some(nbj) => vis_at(v, width as int, nbj.0 as int, nbj.1 as int),
            });
            assert(dirs.contains(Direction::Up));
            let ju = choose|j: int| 0 <= j < dirs.len() && dirs[j] == Direction::Up;
            assert(match spec_dir_neighbour(dirs[ju], p, width, height) {
                None => true,
                Some(nbj) => vis_at(v, width as int, nbj.0 as int, nbj.1 as int),
            });
            assert(cell_closed(v, width as int, height as int, a, b));
        }
    }
}

/// With the frontier exhausted the visited set is closed, so every cell of
/// the grid is carved; the exit pixel (not a cell) leaves the counts alone.
#[verifier::rlimit(100)]
proof fn lemma_reach_finish_cells(
    pre: GrayBuffer,
    img: GrayBuffer,
    v: Seq<bool>,
    st: Seq<Point>,
    width: u32,
    height: u32,
    entrance_x: u32,
    exit_x: u32,
)
    requires
        1 <= width,
        1 <= height,
        (2 * width + 1) * (2 * height + 1) <= u32::MAX,
        entrance_x < width,
        exit_x < width,
        st.len() == 0,
        reach_inv(pre, v, st, width, height, entrance_x, -1, -1),
        pre.wf(),
        pre.width == 2 * width + 1,
        pre.height == 2 * height + 1,
        v.len() == width * height,
        forall|cx: int, cy: int|
            0 <= cx < width && 0 <= cy < height ==> (#[trigger] vis_at(v, width as int, cx, cy)
                <==> cell_walk(pre, cx, cy)),
        cell_pixel_count(pre) == count_true(v),
        img.wf(),
        img.width == pre.width,
        img.height == pre.height,
        forall|a: int, b: int|
            pre.in_bounds(a, b) && !(a == 2 * exit_x + 1 && b == pre.height - 1)
                ==> #[trigger] img.pix(a, b) == pre.pix(a, b),
        cell_pixel_count(img) == cell_pixel_count(pre),
    ensures
        cell_pixel_count(img) == width * height,
        forall|cx: int, cy: int|
            0 <= cx < width && 0 <= cy < height ==> #[trigger] cell_walk(img, cx, cy),
        vis_at(v, width as int, exit_x as int, height as int - 1),
{
    reveal(reach_inv);
    // no cell waits on the empty stack, so the visited set is closed and
    // covers the whole grid
    assert forall|a: int, b: int|
        0 <= a < width && 0 <= b < height && #[trigger] vis_at(v, width as int, a, b)
            implies cell_closed(v, width as int, height as int, a, b) by {}
    lemma_all_cells_flagged(v, width, height, entrance_x);
    assert(cell_pixel_count(img) == width * height);
    lemma_double_parities(height as int);
    assert forall|cx: int, cy: int|
        0 <= cx < width && 0 <= cy < height implies #[trigger] cell_walk(img, cx, cy) by {
        lemma_double_parities(cy);
        assert(vis_at(v, width as int, cx, cy));
        assert(cell_walk(pre, cx, cy));
        assert(img.pix(2 * cx + 1, 2 * cy + 1) == pre.pix(2 * cx + 1, 2 * cy + 1));
    }
    assert(vis_at(v, width as int, exit_x as int, height as int - 1));
}

/// Marking the exit pixel leaves every passable pixel joined to the unique
/// entrance pixel of the top row; the fresh exit pixel joins it through the
/// carved cell above it.
#[verifier::rlimit(100)]
proof fn lemma_reach_finish_join(
    pre: GrayBuffer,
    img: GrayBuffer,
    v: Seq<bool>,
    st: Seq<Point>,
    width: u32,
    height: u32,
    entrance_x: u32,
    exit_x: u32,
)
    requires
        1 <= width,
        1 <= height,
        entrance_x < width,
        exit_x < width,
        st.len() == 0,
        reach_inv(pre, v, st, width, height, entrance_x, -1, -1),
        pre.wf(),
        pre.width == 2 * width + 1,
        pre.height == 2 * height + 1,
        v.len() == width * height,
        forall|cx: int, cy: int|
            0 <= cx < width && 0 <= cy < height ==> (#[trigger] vis_at(v, width as int, cx, cy)
                <==> cell_walk(pre, cx, cy)),
        vis_at(v, width as int, exit_x as int, height as int - 1),
        img.wf(),
        img.width == pre.width,
        img.height == pre.height,
        img.pix(2 * exit_x as int + 1, pre.height - 1) == 255,
        forall|a: int, b: int|
            pre.in_bounds(a, b) && !(a == 2 * exit_x + 1 && b == pre.height - 1)
                ==> #[trigger] img.pix(a, b) == pre.pix(a, b),
        forall|x: int|
            0 <= x < img.width ==> (#[trigger] img.walkable(x, 0) <==> x == 2 * entrance_x + 1),
    ensures
        forall|e: Point, q: Point|
            e.1 == 0 && img.walkable(e.0 as int, 0) && img.walkable(q.0 as int, q.1 as int)
                ==> joined(img, e, q),
{
    reveal(reach_inv);
    let epix = Point((2 * entrance_x + 1) as u32, 0u32);
    let hpix = pre.height;
    assert(cell_walk(pre, exit_x as int, height as int - 1));
    let xcell = Point((2 * exit_x + 1) as u32, (hpix - 2) as u32);
    let xpix = Point((2 * exit_x + 1) as u32, (hpix - 1) as u32);
    assert(pre.walkable(xcell.0 as int, xcell.1 as int));
    assert forall|x2: int, y2: int|
        pre.walkable(x2, y2) implies #[trigger] img.walkable(x2, y2) by {
        if !(x2 == xpix.0 as int && y2 == xpix.1 as int) {
            assert(img.pix(x2, y2) == pre.pix(x2, y2));
        }
    }
    assert forall|q: Point|
        img.walkable(q.0 as int, q.1 as int) implies #[trigger] joined(img, epix, q) by {
        if q == xpix {
            assert(joined(pre, epix, xcell));
            lemma_joined_mono(pre, img, epix, xcell);
            assert(crate::adjacent(xcell, xpix));
            lemma_joined_step(img, epix, xcell, xpix);
        } else {
            assert(img.pix(q.0 as int, q.1 as int) == pre.pix(q.0 as int, q.1 as int));
            assert(pre.walkable(q.0 as int, q.1 as int));
            assert(joined(pre, epix, q));
            lemma_joined_mono(pre, img, epix, q);
        }
    }
    assert forall|e: Point, q: Point|
        e.1 == 0 && img.walkable(e.0 as int, 0) && img.walkable(
            q.0 as int,
            q.1 as int,
        ) implies joined(img, e, q) by {
        assert(e.0 == 2 * entrance_x + 1);
        assert(e == epix);
        assert(joined(img, epix, q));
    }
}

/// With the entrance visited and every visited cell closed, the whole flag
/// vector is set.
proof fn lemma_all_cells_flagged(v: Seq<bool>, width: u32, height: u32, entrance_x: u32)
    requires
        1 <= width,
        1 <= height,
        v.len() == width * height,
        entrance_x < width,
        vis_at(v, width as int, entrance_x as int, 0),
        forall|a: int, b: int|
            0 <= a < width && 0 <= b < height && #[trigger] vis_at(v, width as int, a, b)
                ==> cell_closed(v, width as int, height as int, a, b),
    ensures
        forall|a: int, b: int|
            0 <= a < width && 0 <= b < height ==> #[trigger] vis_at(v, width as int, a, b),
        count_true(v) == v.len(),
{
    assert forall|a: int, b: int|
        0 <= a < width && 0 <= b < height implies #[trigger] vis_at(v, width as int, a, b) by {
        lemma_closed_visited_all(v, width as int, height as int, entrance_x as int, 0, a, b);
    }
    assert forall|i: int| 0 <= i < v.len() implies v[i] by {
        let cy = i / (width as int);
        let cx = i % (width as int);
        vstd::arithmetic::div_mod::lemma_fundamental_div_mod(i, width as int);
        vstd::arithmetic::div_mod::lemma_mod_bound(i, width as int);
        assert(0 <= cy < height) by (nonlinear_arith)
            requires
                i == width * cy + cx,
                0 <= cx < width,
                0 <= i < width * height,
                width >= 1,
        ;
        assert(vis_at(v, width as int, cx, cy));
    }
    lemma_count_true_all(v);
}

/// Depth-first carving with an explicit stack (no native recursion, so maze
/// size is not limited by stack depth).  Produces a `(2w+1, 2h+1)` image of
/// pure walls and passages with a single entrance pixel in the top row, a
/// single exit pixel in the bottom row, and exactly one carved wall fewer
/// than passable cells: the passable region is a tree.
#[verifier::rlimit(100)]
pub fn backtrack(width: Unit, height: Unit, rng: &mut MazeRng) -> (img: GrayBuffer)
    requires
        1 <= width,
        1 <= height,
        (2 * width + 1) * (2 * height + 1) <= u32::MAX,
    ensures
        img.wf(),
        img.width == 2 * width + 1,
        img.height == 2 * height + 1,
        img.binary(),
        exactly_one_walkable_in_row(img, 0),
        exactly_one_walkable_in_row(img, img.height as int - 1),
        cell_pixel_count(img) == carved_wall_count(img) + 1,
        walls_joined_interior(img),
        forall|x: int| #[trigger] img.walkable(x, 0) ==> x % 2 == 1,
        forall|x: int| #[trigger] img.walkable(x, img.height as int - 1) ==> x % 2 == 1,
        forall|y: int|
            #![trigger img.walkable(0, y)]
            #![trigger img.walkable(img.width - 1, y)]
            !img.walkable(0, y) && !img.walkable(img.width - 1, y),
        cell_pixel_count(img) == width * height,
        forall|cx: int, cy: int|
            0 <= cx < width && 0 <= cy < height ==> #[trigger] cell_walk(img, cx, cy),
        forall|e: Point, p: Point|
            e.1 == 0 && img.walkable(e.0 as int, 0) && img.walkable(p.0 as int, p.1 as int)
                ==> joined(img, e, p),
{
    proof {
        assert(2 * width + 1 <= u32::MAX && 2 * height + 1 <= u32::MAX && width * height
            <= u32::MAX) by (nonlinear_arith)
            requires
                1 <= width,
                1 <= height,
                (2 * width + 1) * (2 * height + 1) <= u32::MAX,
        ;
    }
    let wpix = 2 * width + 1;
    let hpix = 2 * height + 1;
    proof {
        assert(wpix * hpix <= u32::MAX);
    }
    let mut img = GrayBuffer::new(wpix, hpix);
    let ghost fresh = img;
    let entrance_x = rng.next_below(width);
    img.put_pixel(entrance_x * 2 + 1, 0, 255u8);
    let ghost after_border = img;
    img.put_pixel(entrance_x * 2 + 1, 1, 255u8);
    let entrance_point = Point(entrance_x, 0);
    let mut stack: Vec<Point> = Vec::new();
    stack.push(entrance_point);
    let nvis: usize = (width as usize) * (height as usize);
    let mut visited: Vec<bool> = Vec::new();
    while visited.len() < nvis
        invariant
            visited@.len() <= nvis,
            forall|i: int| 0 <= i < visited@.len() ==> !visited@[i],
        decreases nvis - visited@.len(),
    {
        visited.push(false);
    }
    let le: usize = entrance_x as usize;
    proof {
        lemma_idx_bounds(width as int, height as int, entrance_x as int, 0);
        assert(0 * (width as int) + (entrance_x as int) == entrance_x as int);
        lemma_count_true_zero(visited@);
        lemma_count_true_update(visited@, le as int);
    }
    visited[le] = true;
    proof {
        lemma_count_true_le_len(visited@);
        assert(count_true(visited@) == 1);
        lemma_double_parities(entrance_x as int);
        assert forall|a: int, b: int| !(#[trigger] fresh.walkable(a, b)) by {
            if fresh.in_bounds(a, b) {
                assert(fresh.pix(a, b) == 0);
            }
        }
        lemma_class_upto_zero(fresh, true, hpix as int);
        lemma_class_upto_zero(fresh, false, hpix as int);
        lemma_counts_after_put(fresh, after_border, 2 * entrance_x as int + 1, 0);
        lemma_counts_after_put(after_border, img, 2 * entrance_x as int + 1, 1);
        assert(cell_pixel_count(img) == 1 && carved_wall_count(img) == 0);
        assert forall|cx: int, cy: int|
            0 <= cx < width && 0 <= cy < height implies (#[trigger] vis_at(
            visited@,
            width as int,
            cx,
            cy,
        ) <==> cell_walk(img, cx, cy)) by {
            lemma_idx_bounds(width as int, height as int, cx, cy);
            if !(cx == entrance_x as int && cy == 0) {
                lemma_idx_injective(width as int, height as int, cx, cy, entrance_x as int, 0);
                assert(img.pix(2 * cx + 1, 2 * cy + 1) == after_border.pix(2 * cx + 1, 2 * cy + 1));
                assert(after_border.pix(2 * cx + 1, 2 * cy + 1) == fresh.pix(2 * cx + 1, 2 * cy + 1));
            }
        }
        assert forall|a: int, b: int|
            #[trigger] img.walkable(a, b) && wall_par(a, b) && 1 <= a < img.width - 1 && 1 <= b
                < img.height - 1 implies ((a % 2 == 0 ==> img.walkable(a - 1, b) && img.walkable(
            a + 1,
            b,
        )) && (b % 2 == 0 ==> img.walkable(a, b - 1) && img.walkable(a, b + 1))) by {
            if !(a == 2 * entrance_x + 1 && b == 0) && !(a == 2 * entrance_x + 1 && b == 1) {
                assert(img.pix(a, b) == after_border.pix(a, b));
                assert(after_border.pix(a, b) == fresh.pix(a, b));
                assert(!img.walkable(a, b));
            }
        }
        assert forall|y: int|
            #![trigger img.walkable(0, y)]
            #![trigger img.walkable(img.width - 1, y)]
            !img.walkable(0, y) && !img.walkable(img.width - 1, y) by {
            if img.walkable(0, y) {
                assert(img.pix(0, y) == after_border.pix(0, y));
                assert(after_border.pix(0, y) == fresh.pix(0, y));
            }
            if img.walkable(wpix as int - 1, y) {
                assert(img.pix(wpix as int - 1, y) == after_border.pix(wpix as int - 1, y));
                assert(after_border.pix(wpix as int - 1, y) == fresh.pix(wpix as int - 1, y));
            }
        }
        // the only passages so far are the entrance pixel and its cell, and
        // the only visited cell is the entrance cell, which is on the stack
        assert forall|a: int, b: int|
            #[trigger] img.walkable(a, b) implies (a == 2 * entrance_x + 1 && (b == 0 || b
            == 1)) by {
            if !(a == 2 * entrance_x + 1 && b == 0) && !(a == 2 * entrance_x + 1 && b == 1) {
                assert(img.pix(a, b) == after_border.pix(a, b));
                assert(after_border.pix(a, b) == fresh.pix(a, b));
                assert(!img.walkable(a, b));
            }
        }
        assert forall|cx: int, cy: int|
            0 <= cx < width && 0 <= cy < height implies (#[trigger] vis_at(
            visited@,
            width as int,
            cx,
            cy,
        ) <==> (cx == entrance_x as int && cy == 0)) by {
            lemma_idx_bounds(width as int, height as int, cx, cy);
            if !(cx == entrance_x as int && cy == 0) {
                lemma_idx_injective(width as int, height as int, cx, cy, entrance_x as int, 0);
            }
        }
        lemma_reach_init(img, visited@, stack@, width, height, entrance_x);
    }

    while stack.len() > 0
        invariant
            img.wf(),
            img.width == wpix,
            img.height == hpix,
            img.binary(),
            visited@.len() == width * height,
            count_true(visited@) <= width * height,
            forall|x: int|
                0 <= x < wpix ==> (#[trigger] img.walkable(x, 0) <==> x == 2 * entrance_x + 1),
            forall|x: int| 0 <= x < wpix ==> !(#[trigger] img.walkable(x, hpix - 1)),
            forall|y: int|
                #![trigger img.walkable(0, y)]
                #![trigger img.walkable(img.width - 1, y)]
                !img.walkable(0, y) && !img.walkable(img.width - 1, y),
            forall|i: int|
                0 <= i < stack@.len() ==> (#[trigger] stack@[i]).0 < width && stack@[i].1 < height
                    && vis_at(visited@, width as int, stack@[i].0 as int, stack@[i].1 as int),
            forall|cx: int, cy: int|
                0 <= cx < width && 0 <= cy < height ==> (#[trigger] vis_at(
                    visited@,
                    width as int,
                    cx,
                    cy,
                ) <==> cell_walk(img, cx, cy)),
            walls_joined_interior(img),
            cell_pixel_count(img) == count_true(visited@),
            carved_wall_count(img) + 1 == count_true(visited@),
            reach_inv(img, visited@, stack@, width, height, entrance_x, -1, -1),
        decreases width * height - count_true(visited@), stack@.len(),
    {
        let ghost stack_pre = stack@;
        let p = stack.pop().unwrap();
        proof {
            lemma_reach_pop(img, visited@, stack_pre, stack@, width, height, entrance_x, p);
        }
        let ghost c0 = count_true(visited@);
        let ghost s0 = stack@.len();
        let dirs = Direction::random_dirs(rng);
        let mut k: usize = 0;
        while k < dirs.len()
            invariant
                k <= dirs@.len(),
                dirs@.len() == 4,
                img.wf(),
                img.width == wpix,
                img.height == hpix,
                img.binary(),
                visited@.len() == width * height,
                count_true(visited@) <= width * height,
                count_true(visited@) >= c0,
                count_true(visited@) > c0 || stack@.len() == s0,
                p.0 < width,
                p.1 < height,
                vis_at(visited@, width as int, p.0 as int, p.1 as int),
                forall|x: int|
                    0 <= x < wpix ==> (#[trigger] img.walkable(x, 0) <==> x == 2 * entrance_x
                        + 1),
                forall|x: int| 0 <= x < wpix ==> !(#[trigger] img.walkable(x, hpix - 1)),
                forall|y: int|
                    #![trigger img.walkable(0, y)]
                    #![trigger img.walkable(img.width - 1, y)]
                    !img.walkable(0, y) && !img.walkable(img.width - 1, y),
                forall|i: int|
                    0 <= i < stack@.len() ==> (#[trigger] stack@[i]).0 < width && stack@[i].1
                        < height && vis_at(
                        visited@,
                        width as int,
                        stack@[i].0 as int,
                        stack@[i].1 as int,
                    ),
                forall|cx: int, cy: int|
                    0 <= cx < width && 0 <= cy < height ==> (#[trigger] vis_at(
                        visited@,
                        width as int,
                        cx,
                        cy,
                    ) <==> cell_walk(img, cx, cy)),
                walls_joined_interior(img),
                cell_pixel_count(img) == count_true(visited@),
                carved_wall_count(img) + 1 == count_true(visited@),
                reach_inv(img, visited@, stack@, width, height, entrance_x, p.0 as int, p.1 as int),
                forall|j: int|
                    0 <= j < k ==> match spec_dir_neighbour(#[trigger] dirs@[j], p, width, height) {
                        None => true,
                        Some(nbj) => vis_at(visited@, width as int, nbj.0 as int, nbj.1 as int),
                    },
            decreases dirs@.len() - k,
        {
            let dir = dirs[k];
            match dir.neighbour(p, (width, height)) {
                None => {},
                Some(nb) => {
                    proof {
                        lemma_idx_bounds(width as int, height as int, nb.0 as int, nb.1 as int);
                    }
                    let li: usize = (nb.1 as usize) * (width as usize) + (nb.0 as usize);
                    if !visited[li] {
                        let ghost old_img = img;
                        let ghost old_vis = visited@;
                        let ghost old_stack = stack@;
                        let wl = dir.wall(p, (width, height));
                        let (px, py) = match wl {
                            Some(t) => t,
                            None => (0, 0),
                        };
                        let cl = dir.cell(p, (width, height));
                        let (cx, cy) = match cl {
                            Some(t) => t,
                            None => (0, 0),
                        };
                        proof {
                            assert(wl is Some && cl is Some);
                            lemma_double_parities(p.0 as int);
                            lemma_double_parities(p.1 as int);
                            lemma_double_parities(nb.0 as int);
                            lemma_double_parities(nb.1 as int);
                            assert(1 <= px < wpix - 1 && 1 <= py < hpix - 1);
                            assert(1 <= cx < wpix - 1 && 1 <= cy < hpix - 1);
                            assert(cx == 2 * nb.0 + 1 && cy == 2 * nb.1 + 1);
                            assert(wall_par(px as int, py as int));
                            assert(!cell_par(px as int, py as int));
                            assert(!wall_par(cx as int, cy as int) && cell_par(cx as int, cy as int));
                            // The neighbour cell is unvisited, hence its cell
                            // pixel is solid, hence the wall between is solid
                            // too (a carved wall joins two passable cells).
                            assert(!vis_at(visited@, width as int, nb.0 as int, nb.1 as int));
                            assert(!cell_walk(img, nb.0 as int, nb.1 as int));
                            assert(!img.walkable(cx as int, cy as int));
                            if img.walkable(px as int, py as int) {
                                assert(img.walkable(cx as int, cy as int));
                            }
                            assert(!img.walkable(px as int, py as int));
                        }
                        stack.push(p);
                        proof {
                            lemma_count_true_update(visited@, li as int);
                            lemma_count_true_le_len(visited@.update(li as int, true));
                        }
                        visited[li] = true;
                        stack.push(nb);
                        img.put_pixel(px, py, 255u8);
                        let ghost mid_img = img;
                        img.put_pixel(cx, cy, 255u8);
                        proof {
                            assert forall|x: int|
                                0 <= x < wpix implies (#[trigger] img.walkable(x, 0) <==> x == 2
                                * entrance_x + 1) by {
                                assert(img.pix(x, 0) == mid_img.pix(x, 0));
                                assert(mid_img.pix(x, 0) == old_img.pix(x, 0));
                                assert(old_img.walkable(x, 0) <==> x == 2 * entrance_x + 1);
                            }
                            assert forall|x: int|
                                0 <= x < wpix implies !(#[trigger] img.walkable(
                                x,
                                hpix - 1,
                            )) by {
                                assert(img.pix(x, hpix - 1) == mid_img.pix(x, hpix - 1));
                                assert(mid_img.pix(x, hpix - 1) == old_img.pix(x, hpix - 1));
                                assert(!old_img.walkable(x, hpix - 1));
                            }
                            assert forall|y: int|
                                #![trigger img.walkable(0, y)]
                                #![trigger img.walkable(img.width - 1, y)]
                                !img.walkable(0, y) && !img.walkable(img.width - 1, y) by {
                                if img.walkable(0, y) {
                                    assert(img.pix(0, y) == mid_img.pix(0, y));
                                    assert(mid_img.pix(0, y) == old_img.pix(0, y));
                                    assert(old_img.walkable(0, y));
                                }
                                if img.walkable(wpix as int - 1, y) {
                                    assert(img.pix(wpix as int - 1, y) == mid_img.pix(
                                        wpix as int - 1,
                                        y,
                                    ));
                                    assert(mid_img.pix(wpix as int - 1, y) == old_img.pix(
                                        wpix as int - 1,
                                        y,
                                    ));
                                    assert(old_img.walkable(wpix as int - 1, y));
                                }
                            }
                            // counts: one new wall pixel and one new cell pixel
                            lemma_counts_after_put(old_img, mid_img, px as int, py as int);
                            assert(!mid_img.walkable(cx as int, cy as int));
                            lemma_counts_after_put(mid_img, img, cx as int, cy as int);
                            assert(cell_pixel_count(img) == count_true(visited@));
                            assert(carved_wall_count(img) + 1 == count_true(visited@));
                            // passable pixels only grow
                            assert forall|u: int, v: int|
                                old_img.walkable(u, v) implies #[trigger] img.walkable(u, v) by {
                                if !(u == px && v == py) && !(u == cx && v == cy) {
                                    assert(img.pix(u, v) == mid_img.pix(u, v));
                                    assert(mid_img.pix(u, v) == old_img.pix(u, v));
                                }
                            }
                            // visited flags still mirror the cell pixels
                            assert forall|cx2: int, cy2: int|
                                0 <= cx2 < width && 0 <= cy2 < height implies (#[trigger] vis_at(
                                visited@,
                                width as int,
                                cx2,
                                cy2,
                            ) <==> cell_walk(img, cx2, cy2)) by {
                                lemma_idx_bounds(width as int, height as int, cx2, cy2);
                                lemma_double_parities(cx2);
                                lemma_double_parities(cy2);
                                if !(cx2 == nb.0 as int && cy2 == nb.1 as int) {
                                    lemma_idx_injective(
                                        width as int,
                                        height as int,
                                        cx2,
                                        cy2,
                                        nb.0 as int,
                                        nb.1 as int,
                                    );
                                    assert(img.pix(2 * cx2 + 1, 2 * cy2 + 1) == mid_img.pix(
                                        2 * cx2 + 1,
                                        2 * cy2 + 1,
                                    ));
                                    assert(mid_img.pix(2 * cx2 + 1, 2 * cy2 + 1) == old_img.pix(
                                        2 * cx2 + 1,
                                        2 * cy2 + 1,
                                    ));
                                    assert(vis_at(old_vis, width as int, cx2, cy2) <==> cell_walk(
                                        old_img,
                                        cx2,
                                        cy2,
                                    ));
                                }
                            }
                            // every passable interior wall still joins two
                            // passable cells; the new wall joins the cells of
                            // p and nb
                            assert(vis_at(old_vis, width as int, p.0 as int, p.1 as int));
                            assert(cell_walk(old_img, p.0 as int, p.1 as int));
                            assert(img.walkable(2 * p.0 as int + 1, 2 * p.1 as int + 1));
                            assert(img.walkable(cx as int, cy as int));
                            assert forall|a: int, b: int|
                                #[trigger] img.walkable(a, b) && wall_par(a, b) && 1 <= a < wpix
                                - 1 && 1 <= b < hpix - 1 implies ((a % 2 == 0 ==> img.walkable(
                                a - 1,
                                b,
                            ) && img.walkable(a + 1, b)) && (b % 2 == 0 ==> img.walkable(a, b - 1)
                                && img.walkable(a, b + 1))) by {
                                if a == px as int && b == py as int {
                                    assert((a % 2 == 0 ==> img.walkable(a - 1, b) && img.walkable(
                                        a + 1,
                                        b,
                                    )) && (b % 2 == 0 ==> img.walkable(a, b - 1) && img.walkable(
                                        a,
                                        b + 1,
                                    )));
                                } else if a == cx as int && b == cy as int {
                                    assert(!wall_par(a, b));
                                } else {
                                    assert(img.pix(a, b) == mid_img.pix(a, b));
                                    assert(mid_img.pix(a, b) == old_img.pix(a, b));
                                    assert(old_img.walkable(a, b));
                                }
                            }
                            lemma_reach_carve(
                                old_img,
                                mid_img,
                                img,
                                old_vis,
                                visited@,
                                old_stack,
                                stack@,
                                width,
                                height,
                                entrance_x,
                                p,
                                nb,
                                dir,
                                px,
                                py,
                                cx,
                                cy,
                                li as int,
                            );
                            assert(vis_at(visited@, width as int, nb.0 as int, nb.1 as int));
                        }
                    } else {
                        proof {
                            assert(vis_at(visited@, width as int, nb.0 as int, nb.1 as int));
                        }
                    }
                },
            }
            k = k + 1;
        }
        proof {
            lemma_reach_processed(img, visited@, stack@, width, height, entrance_x, p, dirs@);
        }
    }
    let exit_x = rng.next_below(width);
    let ghost pre_exit = img;
    img.put_pixel(exit_x * 2 + 1, hpix - 1, 255u8);
    proof {
        assert forall|x: int|
            0 <= x < wpix implies (#[trigger] img.walkable(x, 0) <==> x == 2 * entrance_x
            + 1) by {
            assert(img.pix(x, 0) == pre_exit.pix(x, 0));
            assert(pre_exit.walkable(x, 0) <==> x == 2 * entrance_x + 1);
        }
        assert(img.walkable(2 * entrance_x as int + 1, 0));
        assert(img.walkable(2 * exit_x as int + 1, hpix as int - 1));
        assert forall|x: int|
            0 <= x < wpix && x != 2 * exit_x + 1 implies !(#[trigger] img.walkable(
            x,
            hpix - 1,
        )) by {
            assert(img.pix(x, hpix - 1) == pre_exit.pix(x, hpix - 1));
            assert(!pre_exit.walkable(x, hpix - 1));
        }
        lemma_count_row_single(img, 0, wpix as int, 2 * entrance_x as int + 1);
        lemma_count_row_single(img, hpix as int - 1, wpix as int, 2 * exit_x as int + 1);
        // the exit pixel sits on the border: neither a cell nor a carved wall
        lemma_double_parities(height as int);
        lemma_counts_after_put(pre_exit, img, 2 * exit_x as int + 1, hpix as int - 1);
        assert(cell_pixel_count(img) == carved_wall_count(img) + 1);
        // the entrance and exit stand at odd columns
        lemma_double_parities(entrance_x as int);
        lemma_double_parities(exit_x as int);
        assert forall|x: int| #[trigger] img.walkable(x, 0) implies x % 2 == 1 by {
            assert(x == 2 * entrance_x + 1);
        }
        assert forall|x: int| #[trigger] img.walkable(x, hpix as int - 1) implies x % 2 == 1 by {
            assert(x == 2 * exit_x + 1);
        }
        assert forall|y: int|
            #![trigger img.walkable(0, y)]
            #![trigger img.walkable(img.width - 1, y)]
            !img.walkable(0, y) && !img.walkable(img.width - 1, y) by {
            if img.walkable(0, y) {
                assert(img.pix(0, y) == pre_exit.pix(0, y));
                assert(pre_exit.walkable(0, y));
            }
            if img.walkable(wpix as int - 1, y) {
                assert(img.pix(wpix as int - 1, y) == pre_exit.pix(wpix as int - 1, y));
                assert(pre_exit.walkable(wpix as int - 1, y));
            }
        }
        assert forall|a: int, b: int|
            #[trigger] img.walkable(a, b) && wall_par(a, b) && 1 <= a < img.width - 1 && 1 <= b
                < img.height - 1 implies ((a % 2 == 0 ==> img.walkable(a - 1, b) && img.walkable(
            a + 1,
            b,
        )) && (b % 2 == 0 ==> img.walkable(a, b - 1) && img.walkable(a, b + 1))) by {
            assert(img.pix(a, b) == pre_exit.pix(a, b));
            assert(pre_exit.walkable(a, b));
            if a % 2 == 0 {
                assert(img.pix(a - 1, b) == pre_exit.pix(a - 1, b));
                assert(img.pix(a + 1, b) == pre_exit.pix(a + 1, b));
            }
            if b % 2 == 0 {
                assert(img.pix(a, b - 1) == pre_exit.pix(a, b - 1));
                assert(img.pix(a, b + 1) == pre_exit.pix(a, b + 1));
            }
        }
        // the frontier is exhausted: every cell is carved and every passage
        // joins the entrance pixel
        assert(cell_pixel_count(img) == cell_pixel_count(pre_exit));
        lemma_reach_finish_cells(
            pre_exit,
            img,
            visited@,
            stack@,
            width,
            height,
            entrance_x,
            exit_x,
        );
        lemma_reach_finish_join(
            pre_exit,
            img,
            visited@,
            stack@,
            width,
            height,
            entrance_x,
            exit_x,
        );
    }
    img
}

/// A pixel with both coordinates odd holds a logical cell of the doubled
/// grid.
pub open spec fn cell_par(x: int, y: int) -> bool {
    x % 2 == 1 && y % 2 == 1
}

/// A pixel with exactly one even coordinate separates two cells.
pub open spec fn wall_par(x: int, y: int) -> bool {
    (x % 2 == 0 && y % 2 == 1) || (x % 2 == 1 && y % 2 == 0)
}

/// Basic parity bookkeeping for a coordinate and its neighbours.
proof fn lemma_parity(a: int)
    requires
        a >= 1,
    ensures
        a % 2 == 0 || a % 2 == 1,
        (a + 1) % 2 == 1 - a % 2,
        (a - 1) % 2 == 1 - a % 2,
{
    vstd::arithmetic::div_mod::lemma_mod_bound(a, 2);
    vstd::arithmetic::div_mod::lemma_add_mod_noop(1, a, 2);
    vstd::arithmetic::div_mod::lemma_mod_multiples_vanish(1, a - 1, 2);
}

/// Every passable pixel lies strictly inside the image and sits on a cell or
/// wall position of the doubled grid.
spec fn proper_pass(img: GrayBuffer) -> bool {
    forall|x: int, y: int|
        #[trigger] img.walkable(x, y) ==> 1 <= x < img.width - 1 && 1 <= y < img.height - 1 && (
        cell_par(x, y) || wall_par(x, y))
}

/// A carved wall joins two passable cells, one on each side.
spec fn walls_joined(img: GrayBuffer) -> bool {
    forall|x: int, y: int|
        #[trigger] img.walkable(x, y) && wall_par(x, y) ==> ((x % 2 == 0 ==> img.walkable(x - 1, y)
            && img.walkable(x + 1, y)) && (y % 2 == 0 ==> img.walkable(x, y - 1) && img.walkable(
            x,
            y + 1,
        )))
}

/// Frontier walls are wall-positioned pixels strictly inside the image.
spec fn wl_ok(s: Seq<Point>, w: int, h: int) -> bool {
    forall|i: int|
        0 <= i < s.len() ==> {
            let p = #[trigger] s[i];
            1 <= p.0 < w - 1 && 1 <= p.1 < h - 1 && wall_par(p.0 as int, p.1 as int)
        }
}

/// How many pixels of the buffer are passable.
spec fn count_walk_seq(s: Seq<u8>) -> nat
    decreases s.len(),
{
    if s.len() == 0 {
        0
    } else {
        count_walk_seq(s.drop_last()) + if crate::buffer::spec_walk(s.last()) {
            1nat
        } else {
            0nat
        }
    }
}

proof fn lemma_count_walk_update(s: Seq<u8>, i: int, v: u8)
    requires
        0 <= i < s.len(),
    ensures
        count_walk_seq(s.update(i, v)) as int == count_walk_seq(s) as int - (
        if crate::buffer::spec_walk(s[i]) {
            1int
        } else {
            0int
        }) + (if crate::buffer::spec_walk(v) {
            1int
        } else {
            0int
        }),
    decreases s.len(),
{
    let s2 = s.update(i, v);
    if i == s.len() - 1 {
        assert(s2.drop_last() =~= s.drop_last());
    } else {
        assert(s2.drop_last() =~= s.drop_last().update(i, v));
        lemma_count_walk_update(s.drop_last(), i, v);
        assert(s2.last() == s.last());
    }
}

proof fn lemma_count_walk_le_len(s: Seq<u8>)
    ensures
        count_walk_seq(s) <= s.len(),
    decreases s.len(),
{
    if s.len() > 0 {
        lemma_count_walk_le_len(s.drop_last());
    }
}


/// Whether `(x, y)` belongs to the counted class: logical cells (odd/odd
/// pixels) when `cells` holds, carved walls (wall-positioned pixels strictly
/// inside the image) otherwise.
pub open spec fn class_at(img: GrayBuffer, cells: bool, x: int, y: int) -> bool {
    if cells {
        cell_par(x, y)
    } else {
        wall_par(x, y) && 1 <= x < img.width - 1 && 1 <= y < img.height - 1
    }
}

/// Passable pixels of the class among the first `n` pixels of row `y`.
pub open spec fn count_class_row(img: GrayBuffer, cells: bool, y: int, n: int) -> nat
    decreases n,
{
    if n <= 0 {
        0
    } else {
        count_class_row(img, cells, y, n - 1) + if img.walkable(n - 1, y) && class_at(
            img,
            cells,
            n - 1,
            y,
        ) {
            1nat
        } else {
            0nat
        }
    }
}

/// Passable pixels of the class in the first `ny` rows.
pub open spec fn count_class_upto(img: GrayBuffer, cells: bool, ny: int) -> nat
    decreases ny,
{
    if ny <= 0 {
        0
    } else {
        count_class_upto(img, cells, ny - 1) + count_class_row(
            img,
            cells,
            ny - 1,
            img.width as int,
        )
    }
}

/// The number of passable cell pixels (odd/odd coordinates) of an image.
pub open spec fn cell_pixel_count(img: GrayBuffer) -> nat {
    count_class_upto(img, true, img.height as int)
}

/// The number of carved wall pixels: passable pixels strictly inside the
/// image with exactly one even coordinate.  The entrance and exit pixels sit
/// on the border and are not counted.
pub open spec fn carved_wall_count(img: GrayBuffer) -> nat {
    count_class_upto(img, false, img.height as int)
}

proof fn lemma_class_row_congruent(i1: GrayBuffer, i2: GrayBuffer, cells: bool, y: int, n: int)
    requires
        i1.width == i2.width,
        i1.height == i2.height,
        forall|x: int| 0 <= x < n ==> i1.walkable(x, y) == i2.walkable(x, y),
    ensures
        count_class_row(i1, cells, y, n) == count_class_row(i2, cells, y, n),
    decreases n,
{
    if n > 0 {
        lemma_class_row_congruent(i1, i2, cells, y, n - 1);
    }
}

proof fn lemma_class_row_put(i1: GrayBuffer, i2: GrayBuffer, cells: bool, y: int, n: int, px: int)
    requires
        i1.width == i2.width,
        i1.height == i2.height,
        0 <= px,
        forall|x: int| 0 <= x < n && x != px ==> i1.walkable(x, y) == i2.walkable(x, y),
    ensures
        px < n ==> count_class_row(i2, cells, y, n) as int == count_class_row(i1, cells, y, n)
            - (if i1.walkable(px, y) && class_at(i1, cells, px, y) {
            1int
        } else {
            0int
        }) + (if i2.walkable(px, y) && class_at(i2, cells, px, y) {
            1int
        } else {
            0int
        }),
        px >= n ==> count_class_row(i2, cells, y, n) == count_class_row(i1, cells, y, n),
    decreases n,
{
    if n > 0 {
        lemma_class_row_put(i1, i2, cells, y, n - 1, px);
    }
}

proof fn lemma_class_upto_put(
    i1: GrayBuffer,
    i2: GrayBuffer,
    cells: bool,
    ny: int,
    px: int,
    py: int,
)
    requires
        i1.width == i2.width,
        i1.height == i2.height,
        0 <= px,
        0 <= py,
        forall|a: int, b: int|
            !(a == px && b == py) ==> #[trigger] i1.walkable(a, b) == i2.walkable(a, b),
    ensures
        py < ny ==> count_class_upto(i2, cells, ny) as int == count_class_upto(i1, cells, ny)
            - (if i1.walkable(px, py) && class_at(i1, cells, px, py) {
            1int
        } else {
            0int
        }) + (if i2.walkable(px, py) && class_at(i2, cells, px, py) {
            1int
        } else {
            0int
        }),
        py >= ny ==> count_class_upto(i2, cells, ny) == count_class_upto(i1, cells, ny),
    decreases ny,
{
    if ny > 0 {
        lemma_class_upto_put(i1, i2, cells, ny - 1, px, py);
        if ny - 1 == py {
            lemma_class_row_put(i1, i2, cells, py, i1.width as int, px);
        } else {
            lemma_class_row_congruent(i1, i2, cells, ny - 1, i1.width as int);
        }
    }
}

proof fn lemma_class_row_zero(img: GrayBuffer, cells: bool, y: int, n: int)
    requires
        forall|x: int, b: int| !(#[trigger] img.walkable(x, b)),
    ensures
        count_class_row(img, cells, y, n) == 0,
    decreases n,
{
    if n > 0 {
        lemma_class_row_zero(img, cells, y, n - 1);
    }
}

proof fn lemma_class_upto_zero(img: GrayBuffer, cells: bool, ny: int)
    requires
        forall|x: int, b: int| !(#[trigger] img.walkable(x, b)),
    ensures
        count_class_upto(img, cells, ny) == 0,
    decreases ny,
{
    if ny > 0 {
        lemma_class_upto_zero(img, cells, ny - 1);
        lemma_class_row_zero(img, cells, ny - 1, img.width as int);
    }
}

/// The class counts change only at the written pixel.
proof fn lemma_counts_after_put(i1: GrayBuffer, i2: GrayBuffer, px: int, py: int)
    requires
        i1.wf(),
        i2.wf(),
        i1.width == i2.width,
        i1.height == i2.height,
        0 <= px < i1.width,
        0 <= py < i1.height,
        forall|a: int, b: int|
            i1.in_bounds(a, b) && !(a == px && b == py) ==> #[trigger] i2.pix(a, b) == i1.pix(
                a,
                b,
            ),
    ensures
        cell_pixel_count(i2) as int == cell_pixel_count(i1) - (if i1.walkable(px, py)
            && cell_par(px, py) {
            1int
        } else {
            0int
        }) + (if i2.walkable(px, py) && cell_par(px, py) {
            1int
        } else {
            0int
        }),
        carved_wall_count(i2) as int == carved_wall_count(i1) - (if i1.walkable(px, py)
            && class_at(i1, false, px, py) {
            1int
        } else {
            0int
        }) + (if i2.walkable(px, py) && class_at(i2, false, px, py) {
            1int
        } else {
            0int
        }),
{
    assert forall|a: int, b: int|
        !(a == px && b == py) implies #[trigger] i1.walkable(a, b) == i2.walkable(a, b) by {
        if i1.in_bounds(a, b) {
            assert(i2.pix(a, b) == i1.pix(a, b));
        }
    }
    lemma_class_upto_put(i1, i2, true, i1.height as int, px, py);
    lemma_class_upto_put(i1, i2, false, i1.height as int, px, py);
}

/// A route read backwards is still a route.
proof fn lemma_joined_sym(img: GrayBuffer, a: Point, b: Point)
    requires
        joined(img, a, b),
    ensures
        joined(img, b, a),
{
    let m = Maze { img };
    let s = choose|s: Seq<Point>| is_path(m, s) && s[0] == a && s[s.len() - 1] == b;
    let n = s.len() as int;
    let s2 = Seq::new(s.len(), |i: int| s[n - 1 - i]);
    assert forall|i: int|
        0 <= i < s2.len() implies m.walkable((#[trigger] s2[i]).0 as int, s2[i].1 as int) by {
        assert(s2[i] == s[n - 1 - i]);
    }
    assert forall|i: int|
        0 <= i < s2.len() - 1 implies crate::adjacent(#[trigger] s2[i], s2[i + 1]) by {
        assert(s2[i] == s[n - 1 - i] && s2[i + 1] == s[n - 2 - i]);
        assert(crate::adjacent(s[n - 2 - i], s[n - 1 - i]));
    }
    assert(is_path(m, s2) && s2[0] == b && s2[s2.len() - 1] == a);
}

/// Routes concatenate: a route from `a` to `b` and one from `b` to `c` give
/// one from `a` to `c`.
proof fn lemma_joined_trans(img: GrayBuffer, a: Point, b: Point, c: Point)
    requires
        joined(img, a, b),
        joined(img, b, c),
    ensures
        joined(img, a, c),
{
    let m = Maze { img };
    let s1 = choose|s: Seq<Point>| is_path(m, s) && s[0] == a && s[s.len() - 1] == b;
    let s2 = choose|s: Seq<Point>| is_path(m, s) && s[0] == b && s[s.len() - 1] == c;
    let t = s1 + s2.subrange(1, s2.len() as int);
    assert forall|i: int|
        0 <= i < t.len() implies m.walkable((#[trigger] t[i]).0 as int, t[i].1 as int) by {
        if i < s1.len() {
            assert(t[i] == s1[i]);
        } else {
            assert(t[i] == s2[i - s1.len() + 1]);
        }
    }
    assert forall|i: int| 0 <= i < t.len() - 1 implies crate::adjacent(#[trigger] t[i], t[i + 1]) by {
        if i + 1 < s1.len() {
            assert(t[i] == s1[i] && t[i + 1] == s1[i + 1]);
        } else if i + 1 == s1.len() {
            assert(t[i] == s1[s1.len() - 1] && t[i + 1] == s2[1]);
            assert(crate::adjacent(s2[0], s2[1]));
        } else {
            assert(t[i] == s2[i - s1.len() + 1] && t[i + 1] == s2[i - s1.len() + 2]);
        }
    }
    assert(t[0] == a && t[t.len() - 1] == c);
    assert(is_path(m, t));
}

/// Some element of the frontier list carries exactly these pixel
/// coordinates.
spec fn wl_has(wl: Seq<Point>, x: int, y: int) -> bool {
    exists|i: int| 0 <= i < wl.len() && wl[i].0 == x && wl[i].1 == y
}

/// Every neighbour of a carved cell is carved too, or the wall between them
/// still waits in the frontier list.
spec fn cell_frontier_ok(
    img: GrayBuffer,
    wl: Seq<Point>,
    width: u32,
    height: u32,
    cx: int,
    cy: int,
) -> bool {
    &&& (cx + 1 < width ==> cell_walk(img, cx + 1, cy) || wl_has(wl, 2 * cx + 2, 2 * cy + 1))
    &&& (cy + 1 < height ==> cell_walk(img, cx, cy + 1) || wl_has(wl, 2 * cx + 1, 2 * cy + 2))
    &&& (cx > 0 ==> cell_walk(img, cx - 1, cy) || wl_has(wl, 2 * cx, 2 * cy + 1))
    &&& (cy > 0 ==> cell_walk(img, cx, cy - 1) || wl_has(wl, 2 * cx + 1, 2 * cy))
}

/// The reachability bookkeeping of the frontier pass: the start cell is
/// carved, every passable pixel joins it, and every carved cell's uncarved
/// neighbours are guarded by a frontier wall.  Kept opaque so the loop
/// carries it as one fact; the adapter lemmas below open it.
#[verifier::opaque]
spec fn prim_reach(
    img: GrayBuffer,
    wl: Seq<Point>,
    width: u32,
    height: u32,
    kx: u32,
    ky: u32,
) -> bool {
    &&& cell_walk(img, kx as int, ky as int)
    &&& forall|q: Point|
        img.walkable(q.0 as int, q.1 as int) ==> #[trigger] joined(
            img,
            (Point((2 * kx + 1) as u32, (2 * ky + 1) as u32)),
            q,
        )
    &&& forall|cx: int, cy: int|
        0 <= cx < width && 0 <= cy < height && #[trigger] cell_walk(img, cx, cy)
            ==> cell_frontier_ok(img, wl, width, height, cx, cy)
}

/// At the start only the start cell is carved and its walls fill the list.
proof fn lemma_prim_init(
    img: GrayBuffer,
    wl: Seq<Point>,
    width: u32,
    height: u32,
    kx: u32,
    ky: u32,
)
    requires
        1 <= width,
        1 <= height,
        kx < width,
        ky < height,
        img.wf(),
        img.width == 2 * width + 1,
        img.height == 2 * height + 1,
        forall|a: int, b: int|
            #[trigger] img.walkable(a, b) <==> (a == 2 * kx + 1 && b == 2 * ky + 1),
        kx + 1 < width ==> wl_has(wl, 2 * kx as int + 2, 2 * ky as int + 1),
        ky + 1 < height ==> wl_has(wl, 2 * kx as int + 1, 2 * ky as int + 2),
        kx > 0 ==> wl_has(wl, 2 * kx as int, 2 * ky as int + 1),
        ky > 0 ==> wl_has(wl, 2 * kx as int + 1, 2 * ky as int),
    ensures
        prim_reach(img, wl, width, height, kx, ky),
{
    reveal(prim_reach);
    let spix = Point((2 * kx + 1) as u32, (2 * ky + 1) as u32);
    lemma_joined_refl(img, spix);
    assert forall|q: Point|
        img.walkable(q.0 as int, q.1 as int) implies #[trigger] joined(img, spix, q) by {
        assert(q == spix);
    }
    assert forall|cx: int, cy: int|
        0 <= cx < width && 0 <= cy < height && #[trigger] cell_walk(img, cx, cy)
            implies cell_frontier_ok(img, wl, width, height, cx, cy) by {
        assert(cx == kx as int && cy == ky as int);
    }
}

/// Discarding a popped wall whose two cell sides agree (both carved, or
/// neither) breaks no guarantee: no carved cell needed that wall.
#[verifier::rlimit(100)]
proof fn lemma_prim_discard(
    img: GrayBuffer,
    wl_pre: Seq<Point>,
    wl_post: Seq<Point>,
    wi: int,
    width: u32,
    height: u32,
    kx: u32,
    ky: u32,
    wall: Point,
)
    requires
        1 <= width,
        1 <= height,
        prim_reach(img, wl_pre, width, height, kx, ky),
        0 <= wi < wl_pre.len(),
        wall == wl_pre[wi],
        wl_post == wl_pre.update(wi, wl_pre[wl_pre.len() - 1]).drop_last(),
        wall.0 as int % 2 == 0 ==> img.walkable(wall.0 as int - 1, wall.1 as int)
            == img.walkable(wall.0 as int + 1, wall.1 as int),
        wall.1 as int % 2 == 0 ==> img.walkable(wall.0 as int, wall.1 as int - 1)
            == img.walkable(wall.0 as int, wall.1 as int + 1),
        wall_par(wall.0 as int, wall.1 as int),
    ensures
        prim_reach(img, wl_post, width, height, kx, ky),
{
    reveal(prim_reach);
    assert forall|cx: int, cy: int|
        0 <= cx < width && 0 <= cy < height && #[trigger] cell_walk(img, cx, cy)
            implies cell_frontier_ok(img, wl_post, width, height, cx, cy) by {
        lemma_double_parities(cx);
        lemma_double_parities(cy);
        assert(cell_frontier_ok(img, wl_pre, width, height, cx, cy));
        lemma_wl_survives(img, wl_pre, wl_post, wi, width, height, cx, cy, wall);
    }
}

/// A frontier guard survives the removal of one wall unless the removed wall
/// was the guard itself -- and then the removed wall's sides decide.
proof fn lemma_wl_survives(
    img: GrayBuffer,
    wl_pre: Seq<Point>,
    wl_post: Seq<Point>,
    wi: int,
    width: u32,
    height: u32,
    cx: int,
    cy: int,
    wall: Point,
)
    requires
        0 <= wi < wl_pre.len(),
        wall == wl_pre[wi],
        wl_post == wl_pre.update(wi, wl_pre[wl_pre.len() - 1]).drop_last(),
        0 <= cx < width,
        0 <= cy < height,
        cell_walk(img, cx, cy),
        cell_frontier_ok(img, wl_pre, width, height, cx, cy),
        wall.0 as int % 2 == 0 ==> img.walkable(wall.0 as int - 1, wall.1 as int)
            == img.walkable(wall.0 as int + 1, wall.1 as int),
        wall.1 as int % 2 == 0 ==> img.walkable(wall.0 as int, wall.1 as int - 1)
            == img.walkable(wall.0 as int, wall.1 as int + 1),
        wall_par(wall.0 as int, wall.1 as int),
    ensures
        cell_frontier_ok(img, wl_post, width, height, cx, cy),
{
    lemma_double_parities(cx);
    lemma_double_parities(cy);
    if cx + 1 < width && !cell_walk(img, cx + 1, cy) {
        assert(!(wall.0 == 2 * cx + 2 && wall.1 == 2 * cy + 1));
        lemma_wl_keep(wl_pre, wl_post, wi, 2 * cx + 2, 2 * cy + 1);
    }
    if cy + 1 < height && !cell_walk(img, cx, cy + 1) {
        assert(!(wall.0 == 2 * cx + 1 && wall.1 == 2 * cy + 2));
        lemma_wl_keep(wl_pre, wl_post, wi, 2 * cx + 1, 2 * cy + 2);
    }
    if cx > 0 && !cell_walk(img, cx - 1, cy) {
        assert(!(wall.0 == 2 * cx && wall.1 == 2 * cy + 1));
        lemma_wl_keep(wl_pre, wl_post, wi, 2 * cx, 2 * cy + 1);
    }
    if cy > 0 && !cell_walk(img, cx, cy - 1) {
        assert(!(wall.0 == 2 * cx + 1 && wall.1 == 2 * cy));
        lemma_wl_keep(wl_pre, wl_post, wi, 2 * cx + 1, 2 * cy);
    }
}

/// Removing one element keeps every guard with different coordinates.
proof fn lemma_wl_keep(wl_pre: Seq<Point>, wl_post: Seq<Point>, wi: int, x: int, y: int)
    requires
        0 <= wi < wl_pre.len(),
        wl_post == wl_pre.update(wi, wl_pre[wl_pre.len() - 1]).drop_last(),
        wl_has(wl_pre, x, y),
        !(wl_pre[wi].0 == x && wl_pre[wi].1 == y),
    ensures
        wl_has(wl_post, x, y),
{
    let j = choose|j: int| 0 <= j < wl_pre.len() && wl_pre[j].0 == x && wl_pre[j].1 == y;
    if j < wl_pre.len() - 1 {
        assert(wl_post[j].0 == x && wl_post[j].1 == y);
    } else {
        assert(wl_post[wi].0 == x && wl_post[wi].1 == y);
    }
}


/// The frontier guards survive one carve: old carved cells keep theirs, and
/// the fresh cell's solid neighbours are guarded by the walls just pushed.
#[verifier::rlimit(100)]
proof fn lemma_prim_carve_frontier(
    old_img: GrayBuffer,
    mid_img: GrayBuffer,
    img: GrayBuffer,
    wl_pre: Seq<Point>,
    wl_mid: Seq<Point>,
    wl_post: Seq<Point>,
    wi: int,
    width: u32,
    height: u32,
    wall: Point,
    vc: Point,
    ucx: int,
    ucy: int,
)
    requires
        1 <= width,
        1 <= height,
        (2 * width + 1) * (2 * height + 1) <= u32::MAX,
        old_img.wf(),
        old_img.width == 2 * width + 1,
        old_img.height == 2 * height + 1,
        0 <= wi < wl_pre.len(),
        wall == wl_pre[wi],
        wl_mid == wl_pre.update(wi, wl_pre[wl_pre.len() - 1]).drop_last(),
        wall_par(wall.0 as int, wall.1 as int),
        1 <= wall.0 < old_img.width - 1,
        1 <= wall.1 < old_img.height - 1,
        old_img.walkable(vc.0 as int, vc.1 as int),
        cell_par(vc.0 as int, vc.1 as int),
        crate::adjacent(vc, wall),
        0 <= ucx < width,
        0 <= ucy < height,
        // the fresh cell is the reflection of the carved side across the wall
        2 * ucx + 1 == 2 * wall.0 - vc.0,
        2 * ucy + 1 == 2 * wall.1 - vc.1,
        !old_img.walkable(2 * ucx + 1, 2 * ucy + 1),
        // the carved side and the fresh side are the wall's two cell sides
        wall.0 as int % 2 == 0 ==> (vc.0 as int == wall.0 - 1 || vc.0 as int == wall.0 + 1)
            && vc.1 == wall.1,
        wall.1 as int % 2 == 0 ==> (vc.1 as int == wall.1 - 1 || vc.1 as int == wall.1 + 1)
            && vc.0 == wall.0,
        mid_img.wf(),
        mid_img.width == old_img.width,
        mid_img.height == old_img.height,
        mid_img.pix(wall.0 as int, wall.1 as int) == 255,
        forall|a: int, b: int|
            old_img.in_bounds(a, b) && !(a == wall.0 && b == wall.1) ==> #[trigger] mid_img.pix(
                a,
                b,
            ) == old_img.pix(a, b),
        img.wf(),
        img.width == old_img.width,
        img.height == old_img.height,
        img.pix(2 * ucx + 1, 2 * ucy + 1) == 255,
        forall|a: int, b: int|
            mid_img.in_bounds(a, b) && !(a == 2 * ucx + 1 && b == 2 * ucy + 1)
                ==> #[trigger] img.pix(a, b) == mid_img.pix(a, b),
        // the walls just pushed guard the fresh cell's solid neighbours
        ucx + 1 < width && !img.walkable(2 * ucx + 3, 2 * ucy + 1) ==> wl_has(
            wl_post,
            2 * ucx + 2,
            2 * ucy + 1,
        ),
        ucy + 1 < height && !img.walkable(2 * ucx + 1, 2 * ucy + 3) ==> wl_has(
            wl_post,
            2 * ucx + 1,
            2 * ucy + 2,
        ),
        ucx > 0 && !img.walkable(2 * ucx - 1, 2 * ucy + 1) ==> wl_has(
            wl_post,
            2 * ucx,
            2 * ucy + 1,
        ),
        ucy > 0 && !img.walkable(2 * ucx + 1, 2 * ucy - 1) ==> wl_has(wl_post, 2 * ucx + 1, 2 * ucy),
        // the list only grew after the removal
        forall|x: int, y: int| wl_has(wl_mid, x, y) ==> #[trigger] wl_has(wl_post, x, y),
        forall|cx: int, cy: int|
            0 <= cx < width && 0 <= cy < height && #[trigger] cell_walk(old_img, cx, cy)
                ==> cell_frontier_ok(old_img, wl_pre, width, height, cx, cy),
        forall|u: int, v2: int| old_img.walkable(u, v2) ==> #[trigger] img.walkable(u, v2),
    ensures
        forall|cx: int, cy: int|
            0 <= cx < width && 0 <= cy < height && #[trigger] cell_walk(img, cx, cy)
                ==> cell_frontier_ok(img, wl_post, width, height, cx, cy),
{
    assert forall|cx: int, cy: int|
        0 <= cx < width && 0 <= cy < height && #[trigger] cell_walk(img, cx, cy)
            implies cell_frontier_ok(img, wl_post, width, height, cx, cy) by {
        lemma_double_parities(cx);
        lemma_double_parities(cy);
        if cx == ucx && cy == ucy {
            assert(cell_frontier_ok(img, wl_post, width, height, cx, cy));
        } else {
            assert(img.pix(2 * cx + 1, 2 * cy + 1) == mid_img.pix(2 * cx + 1, 2 * cy + 1));
            assert(mid_img.pix(2 * cx + 1, 2 * cy + 1) == old_img.pix(2 * cx + 1, 2 * cy + 1));
            assert(cell_walk(old_img, cx, cy));
            assert(cell_frontier_ok(img, wl_mid, width, height, cx, cy)) by {
                assert(cell_frontier_ok(old_img, wl_pre, width, height, cx, cy));
                lemma_wl_survives_new(
                    old_img,
                    img,
                    wl_pre,
                    wl_mid,
                    wi,
                    width,
                    height,
                    cx,
                    cy,
                    wall,
                );
            }
        }
    }
}

/// Carving a popped frontier wall and the solid cell behind it keeps the
/// bookkeeping: the two new passages join the start cell through the already
/// carved side, and the fresh cell's uncarved neighbours are guarded by the
/// walls just pushed.
#[verifier::rlimit(100)]
proof fn lemma_prim_carve(
    old_img: GrayBuffer,
    mid_img: GrayBuffer,
    img: GrayBuffer,
    wl_pre: Seq<Point>,
    wl_mid: Seq<Point>,
    wl_post: Seq<Point>,
    wi: int,
    width: u32,
    height: u32,
    kx: u32,
    ky: u32,
    wall: Point,
    vc: Point,
    ucx: int,
    ucy: int,
)
    requires
        1 <= width,
        1 <= height,
        (2 * width + 1) * (2 * height + 1) <= u32::MAX,
        kx < width,
        ky < height,
        prim_reach(old_img, wl_pre, width, height, kx, ky),
        old_img.wf(),
        old_img.width == 2 * width + 1,
        old_img.height == 2 * height + 1,
        0 <= wi < wl_pre.len(),
        wall == wl_pre[wi],
        wl_mid == wl_pre.update(wi, wl_pre[wl_pre.len() - 1]).drop_last(),
        wall_par(wall.0 as int, wall.1 as int),
        1 <= wall.0 < old_img.width - 1,
        1 <= wall.1 < old_img.height - 1,
        old_img.walkable(vc.0 as int, vc.1 as int),
        cell_par(vc.0 as int, vc.1 as int),
        crate::adjacent(vc, wall),
        0 <= ucx < width,
        0 <= ucy < height,
        // the fresh cell is the reflection of the carved side across the wall
        2 * ucx + 1 == 2 * wall.0 - vc.0,
        2 * ucy + 1 == 2 * wall.1 - vc.1,
        !old_img.walkable(2 * ucx + 1, 2 * ucy + 1),
        // the carved side and the fresh side are the wall's two cell sides
        wall.0 as int % 2 == 0 ==> (vc.0 as int == wall.0 - 1 || vc.0 as int == wall.0 + 1)
            && vc.1 == wall.1,
        wall.1 as int % 2 == 0 ==> (vc.1 as int == wall.1 - 1 || vc.1 as int == wall.1 + 1)
            && vc.0 == wall.0,
        mid_img.wf(),
        mid_img.width == old_img.width,
        mid_img.height == old_img.height,
        mid_img.pix(wall.0 as int, wall.1 as int) == 255,
        forall|a: int, b: int|
            old_img.in_bounds(a, b) && !(a == wall.0 && b == wall.1) ==> #[trigger] mid_img.pix(
                a,
                b,
            ) == old_img.pix(a, b),
        img.wf(),
        img.width == old_img.width,
        img.height == old_img.height,
        img.pix(2 * ucx + 1, 2 * ucy + 1) == 255,
        forall|a: int, b: int|
            mid_img.in_bounds(a, b) && !(a == 2 * ucx + 1 && b == 2 * ucy + 1)
                ==> #[trigger] img.pix(a, b) == mid_img.pix(a, b),
        // the walls just pushed guard the fresh cell's solid neighbours
        ucx + 1 < width && !img.walkable(2 * ucx + 3, 2 * ucy + 1) ==> wl_has(
            wl_post,
            2 * ucx + 2,
            2 * ucy + 1,
        ),
        ucy + 1 < height && !img.walkable(2 * ucx + 1, 2 * ucy + 3) ==> wl_has(
            wl_post,
            2 * ucx + 1,
            2 * ucy + 2,
        ),
        ucx > 0 && !img.walkable(2 * ucx - 1, 2 * ucy + 1) ==> wl_has(
            wl_post,
            2 * ucx,
            2 * ucy + 1,
        ),
        ucy > 0 && !img.walkable(2 * ucx + 1, 2 * ucy - 1) ==> wl_has(wl_post, 2 * ucx + 1, 2 * ucy),
        // the list only grew after the removal
        forall|x: int, y: int| wl_has(wl_mid, x, y) ==> #[trigger] wl_has(wl_post, x, y),
    ensures
        prim_reach(img, wl_post, width, height, kx, ky),
{
    reveal(prim_reach);
    let spix = Point((2 * kx + 1) as u32, (2 * ky + 1) as u32);
    let ucell = Point((2 * ucx + 1) as u32, (2 * ucy + 1) as u32);
    // passages only grow
    assert forall|u: int, v2: int| old_img.walkable(u, v2) implies #[trigger] img.walkable(
        u,
        v2,
    ) by {
        if !(u == wall.0 && v2 == wall.1) && !(u == ucell.0 && v2 == ucell.1) {
            assert(img.pix(u, v2) == mid_img.pix(u, v2));
            assert(mid_img.pix(u, v2) == old_img.pix(u, v2));
        }
    }
    // the wall and the fresh cell join the start through the carved side
    assert(joined(old_img, spix, vc));
    lemma_joined_mono(old_img, img, spix, vc);
    assert(img.walkable(wall.0 as int, wall.1 as int));
    assert(img.walkable(ucell.0 as int, ucell.1 as int));
    lemma_joined_step(img, spix, vc, wall);
    assert(crate::adjacent(wall, ucell));
    lemma_joined_step(img, spix, wall, ucell);
    assert forall|q: Point|
        img.walkable(q.0 as int, q.1 as int) implies #[trigger] joined(img, spix, q) by {
        if q != wall && q != ucell {
            assert(img.pix(q.0 as int, q.1 as int) == mid_img.pix(q.0 as int, q.1 as int));
            assert(mid_img.pix(q.0 as int, q.1 as int) == old_img.pix(q.0 as int, q.1 as int));
            assert(old_img.walkable(q.0 as int, q.1 as int));
            assert(joined(old_img, spix, q));
            lemma_joined_mono(old_img, img, spix, q);
        }
    }
    // frontier guards: old carved cells keep theirs, the fresh cell has the
    // walls just pushed
    assert(cell_walk(img, kx as int, ky as int));
    lemma_prim_carve_frontier(
        old_img,
        mid_img,
        img,
        wl_pre,
        wl_mid,
        wl_post,
        wi,
        width,
        height,
        wall,
        vc,
        ucx,
        ucy,
    );
}

/// A carved cell's guards survive the removal of the wall being carved: any
/// neighbour the popped wall guarded is the fresh cell, now carved.
proof fn lemma_wl_survives_new(
    old_img: GrayBuffer,
    img: GrayBuffer,
    wl_pre: Seq<Point>,
    wl_mid: Seq<Point>,
    wi: int,
    width: u32,
    height: u32,
    cx: int,
    cy: int,
    wall: Point,
)
    requires
        0 <= wi < wl_pre.len(),
        wall == wl_pre[wi],
        wl_mid == wl_pre.update(wi, wl_pre[wl_pre.len() - 1]).drop_last(),
        0 <= cx < width,
        0 <= cy < height,
        cell_frontier_ok(old_img, wl_pre, width, height, cx, cy),
        forall|u: int, v2: int| old_img.walkable(u, v2) ==> #[trigger] img.walkable(u, v2),
        wall.0 as int % 2 == 0 ==> img.walkable(wall.0 as int - 1, wall.1 as int) && img.walkable(
            wall.0 as int + 1,
            wall.1 as int,
        ),
        wall.1 as int % 2 == 0 ==> img.walkable(wall.0 as int, wall.1 as int - 1) && img.walkable(
            wall.0 as int,
            wall.1 as int + 1,
        ),
        wall_par(wall.0 as int, wall.1 as int),
    ensures
        cell_frontier_ok(img, wl_mid, width, height, cx, cy),
{
    lemma_double_parities(cx);
    lemma_double_parities(cy);
    if cx + 1 < width && !cell_walk(img, cx + 1, cy) {
        assert(!cell_walk(old_img, cx + 1, cy));
        assert(!(wall.0 == 2 * cx + 2 && wall.1 == 2 * cy + 1));
        lemma_wl_keep(wl_pre, wl_mid, wi, 2 * cx + 2, 2 * cy + 1);
    }
    if cy + 1 < height && !cell_walk(img, cx, cy + 1) {
        assert(!cell_walk(old_img, cx, cy + 1));
        assert(!(wall.0 == 2 * cx + 1 && wall.1 == 2 * cy + 2));
        lemma_wl_keep(wl_pre, wl_mid, wi, 2 * cx + 1, 2 * cy + 2);
    }
    if cx > 0 && !cell_walk(img, cx - 1, cy) {
        assert(!cell_walk(old_img, cx - 1, cy));
        assert(!(wall.0 == 2 * cx && wall.1 == 2 * cy + 1));
        lemma_wl_keep(wl_pre, wl_mid, wi, 2 * cx, 2 * cy + 1);
    }
    if cy > 0 && !cell_walk(img, cx, cy - 1) {
        assert(!cell_walk(old_img, cx, cy - 1));
        assert(!(wall.0 == 2 * cx + 1 && wall.1 == 2 * cy));
        lemma_wl_keep(wl_pre, wl_mid, wi, 2 * cx + 1, 2 * cy);
    }
}

/// With the frontier exhausted, carved cells have only carved neighbours, so
/// the whole cell grid is carved.
proof fn lemma_prim_all_cells(
    img: GrayBuffer,
    wl: Seq<Point>,
    width: u32,
    height: u32,
    kx: u32,
    ky: u32,
)
    requires
        1 <= width,
        1 <= height,
        kx < width,
        ky < height,
        wl.len() == 0,
        prim_reach(img, wl, width, height, kx, ky),
    ensures
        forall|cx: int, cy: int|
            0 <= cx < width && 0 <= cy < height ==> #[trigger] cell_walk(img, cx, cy),
{
    reveal(prim_reach);
    assert forall|cx: int, cy: int|
        0 <= cx < width && 0 <= cy < height implies #[trigger] cell_walk(img, cx, cy) by {
        lemma_prim_closed_walk(img, wl, width, height, kx as int, ky as int, cx, cy);
    }
}

/// Spreading step of the coverage argument: walk from the start cell toward
/// any cell, one carved neighbour at a time.
proof fn lemma_prim_closed_walk(
    img: GrayBuffer,
    wl: Seq<Point>,
    width: u32,
    height: u32,
    sx: int,
    sy: int,
    cx: int,
    cy: int,
)
    requires
        0 <= sx < width,
        0 <= sy < height,
        0 <= cx < width,
        0 <= cy < height,
        wl.len() == 0,
        cell_walk(img, sx, sy),
        forall|a: int, b: int|
            0 <= a < width && 0 <= b < height && #[trigger] cell_walk(img, a, b)
                ==> cell_frontier_ok(img, wl, width, height, a, b),
    ensures
        cell_walk(img, cx, cy),
    decreases vstd::math::abs(cx - sx) + vstd::math::abs(cy - sy),
{
    assert(cell_frontier_ok(img, wl, width, height, sx, sy));
    if sx < cx {
        lemma_prim_closed_walk(img, wl, width, height, sx + 1, sy, cx, cy);
    } else if sx > cx {
        lemma_prim_closed_walk(img, wl, width, height, sx - 1, sy, cx, cy);
    } else if sy < cy {
        lemma_prim_closed_walk(img, wl, width, height, sx, sy + 1, cx, cy);
    } else if sy > cy {
        lemma_prim_closed_walk(img, wl, width, height, sx, sy - 1, cx, cy);
    }
}

/// Marking the entrance and exit pixels joins them to the fully carved grid,
/// so every passable pixel joins the unique entrance pixel of the top row.
#[verifier::rlimit(100)]
proof fn lemma_prim_finish(
    pre: GrayBuffer,
    mid: GrayBuffer,
    img: GrayBuffer,
    wl: Seq<Point>,
    width: u32,
    height: u32,
    kx: u32,
    ky: u32,
    ex: u32,
    ex2: u32,
)
    requires
        1 <= width,
        1 <= height,
        (2 * width + 1) * (2 * height + 1) <= u32::MAX,
        kx < width,
        ky < height,
        ex < width,
        ex2 < width,
        pre.wf(),
        pre.width == 2 * width + 1,
        pre.height == 2 * height + 1,
        wl.len() == 0,
        prim_reach(pre, wl, width, height, kx, ky),
        mid.wf(),
        mid.width == pre.width,
        mid.height == pre.height,
        mid.pix(2 * ex as int + 1, 0) == 255,
        forall|a: int, b: int|
            pre.in_bounds(a, b) && !(a == 2 * ex + 1 && b == 0) ==> #[trigger] mid.pix(a, b)
                == pre.pix(a, b),
        img.wf(),
        img.width == pre.width,
        img.height == pre.height,
        img.pix(2 * ex2 as int + 1, pre.height - 1) == 255,
        forall|a: int, b: int|
            mid.in_bounds(a, b) && !(a == 2 * ex2 + 1 && b == pre.height - 1)
                ==> #[trigger] img.pix(a, b) == mid.pix(a, b),
        forall|x: int|
            0 <= x < img.width ==> (#[trigger] img.walkable(x, 0) <==> x == 2 * ex + 1),
    ensures
        forall|cx: int, cy: int|
            0 <= cx < width && 0 <= cy < height ==> #[trigger] cell_walk(img, cx, cy),
        forall|e: Point, q: Point|
            e.1 == 0 && img.walkable(e.0 as int, 0) && img.walkable(q.0 as int, q.1 as int)
                ==> joined(img, e, q),
{
    let spix = Point((2 * kx + 1) as u32, (2 * ky + 1) as u32);
    let epix = Point((2 * ex + 1) as u32, 0u32);
    let ecell = Point((2 * ex + 1) as u32, 1u32);
    let xpix = Point((2 * ex2 + 1) as u32, (pre.height - 1) as u32);
    let xcell = Point((2 * ex2 + 1) as u32, (pre.height - 2) as u32);
    reveal(prim_reach);
    lemma_prim_all_cells(pre, wl, width, height, kx, ky);
    lemma_double_parities(height as int);
    assert forall|u: int, v2: int| pre.walkable(u, v2) implies #[trigger] img.walkable(u, v2) by {
        if !(u == epix.0 && v2 == 0) && !(u == xpix.0 && v2 == pre.height - 1) {
            assert(img.pix(u, v2) == mid.pix(u, v2));
            assert(mid.pix(u, v2) == pre.pix(u, v2));
        }
    }
    assert forall|cx: int, cy: int|
        0 <= cx < width && 0 <= cy < height implies #[trigger] cell_walk(img, cx, cy) by {
        lemma_double_parities(cy);
        assert(cell_walk(pre, cx, cy));
    }
    // the entrance and exit pixels join through the cells beside them
    assert(cell_walk(pre, ex as int, 0));
    assert(pre.walkable(ecell.0 as int, ecell.1 as int));
    assert(joined(pre, spix, ecell));
    lemma_joined_mono(pre, img, spix, ecell);
    assert(img.walkable(epix.0 as int, epix.1 as int));
    assert(crate::adjacent(ecell, epix));
    lemma_joined_step(img, spix, ecell, epix);
    assert(cell_walk(pre, ex2 as int, height as int - 1));
    assert(pre.walkable(xcell.0 as int, xcell.1 as int));
    assert(joined(pre, spix, xcell));
    lemma_joined_mono(pre, img, spix, xcell);
    assert(img.walkable(xpix.0 as int, xpix.1 as int));
    assert(crate::adjacent(xcell, xpix));
    lemma_joined_step(img, spix, xcell, xpix);
    assert forall|q: Point|
        img.walkable(q.0 as int, q.1 as int) implies #[trigger] joined(img, spix, q) by {
        if q != epix && q != xpix {
            assert(img.pix(q.0 as int, q.1 as int) == mid.pix(q.0 as int, q.1 as int));
            assert(mid.pix(q.0 as int, q.1 as int) == pre.pix(q.0 as int, q.1 as int));
            assert(pre.walkable(q.0 as int, q.1 as int));
            assert(joined(pre, spix, q));
            lemma_joined_mono(pre, img, spix, q);
        }
    }
    // re-anchor at the unique entrance pixel of the top row
    lemma_joined_sym(img, spix, epix);
    assert forall|e: Point, q: Point|
        e.1 == 0 && img.walkable(e.0 as int, 0) && img.walkable(
            q.0 as int,
            q.1 as int,
        ) implies joined(img, e, q) by {
        assert(e.0 == 2 * ex + 1);
        assert(e == epix);
        assert(joined(img, spix, q));
        lemma_joined_trans(img, epix, spix, q);
    }
}

/// Randomised Prim's algorithm: grows the passable region from one random
/// cell by repeatedly carving a random frontier wall that touches exactly one
/// passable cell, together with the solid cell behind it.  Produces a
/// `(2w+1, 2h+1)` image of pure walls and passages with a single entrance
/// pixel in the top row and a single exit pixel in the bottom row.
#[verifier::rlimit(100)]
#[verifier::loop_isolation(true)]
pub fn primms(width: Unit, height: Unit, rng: &mut MazeRng) -> (img: GrayBuffer)
    requires
        1 <= width,
        1 <= height,
        (2 * width + 1) * (2 * height + 1) <= u32::MAX,
    ensures
        img.wf(),
        img.width == 2 * width + 1,
        img.height == 2 * height + 1,
        img.binary(),
        exactly_one_walkable_in_row(img, 0),
        exactly_one_walkable_in_row(img, img.height as int - 1),
        cell_pixel_count(img) == carved_wall_count(img) + 1,
        walls_joined_interior(img),
        forall|x: int| #[trigger] img.walkable(x, 0) ==> x % 2 == 1,
        forall|x: int| #[trigger] img.walkable(x, img.height as int - 1) ==> x % 2 == 1,
        forall|y: int|
            #![trigger img.walkable(0, y)]
            #![trigger img.walkable(img.width - 1, y)]
            !img.walkable(0, y) && !img.walkable(img.width - 1, y),
        forall|cx: int, cy: int|
            0 <= cx < width && 0 <= cy < height ==> #[trigger] cell_walk(img, cx, cy),
        forall|e: Point, p: Point|
            e.1 == 0 && img.walkable(e.0 as int, 0) && img.walkable(p.0 as int, p.1 as int)
                ==> joined(img, e, p),
{
    proof {
        assert(2 * width + 1 <= u32::MAX && 2 * height + 1 <= u32::MAX && width * height
            <= u32::MAX) by (nonlinear_arith)
            requires
                1 <= width,
                1 <= height,
                (2 * width + 1) * (2 * height + 1) <= u32::MAX,
        ;
    }
    let w = 2 * width + 1;
    let h = 2 * height + 1;
    let mut img = GrayBuffer::new(w, h);
    let ghost fresh = img;
    let kx = rng.next_below(width);
    let ky = rng.next_below(height);
    let sx = 1 + kx * 2;
    let sy = 1 + ky * 2;
    proof {
        vstd::arithmetic::div_mod::lemma_mod_multiples_vanish(kx as int, 1, 2);
        vstd::arithmetic::div_mod::lemma_mod_multiples_vanish(ky as int, 1, 2);
        assert(sx as int % 2 == 1 && sy as int % 2 == 1);
    }
    img.put_pixel(sx, sy, 255u8);
    proof {
        assert forall|a: int, b: int| !(#[trigger] fresh.walkable(a, b)) by {
            if fresh.in_bounds(a, b) {
                assert(fresh.pix(a, b) == 0);
            }
        }
        lemma_class_upto_zero(fresh, true, h as int);
        lemma_class_upto_zero(fresh, false, h as int);
        lemma_counts_after_put(fresh, img, sx as int, sy as int);
        assert(cell_pixel_count(img) == 1 && carved_wall_count(img) == 0);
    }
    let mut wall_list: Vec<Point> = Vec::new();
    if sy > 1 {
        wall_list.push(Point(sx, sy - 1));
    }
    if sx < w - 2 {
        wall_list.push(Point(sx + 1, sy));
    }
    if sy < h - 2 {
        wall_list.push(Point(sx, sy + 1));
    }
    if sx > 1 {
        wall_list.push(Point(sx - 1, sy));
    }
    proof {
        lemma_parity(sx as int);
        lemma_parity(sy as int);
        lemma_count_walk_le_len(img.pixels@);
        assert forall|a: int, b: int|
            #[trigger] img.walkable(a, b) implies (a == sx as int && b == sy as int) by {
            if !(a == sx as int && b == sy as int) {
                assert(img.pix(a, b) == fresh.pix(a, b));
                assert(!fresh.walkable(a, b));
            }
        }
        let wl = wall_list@;
        if ky > 0 {
            assert(wl[0].0 as int == 2 * kx + 1 && wl[0].1 as int == 2 * ky);
            assert(wl_has(wl, 2 * kx as int + 1, 2 * ky as int));
        }
        if kx + 1 < width {
            let i: int = if ky > 0 {
                1int
            } else {
                0int
            };
            assert(wl[i].0 as int == 2 * kx + 2 && wl[i].1 as int == 2 * ky + 1);
            assert(wl_has(wl, 2 * kx as int + 2, 2 * ky as int + 1));
        }
        if ky + 1 < height {
            let i: int = (if ky > 0 {
                1int
            } else {
                0int
            }) + (if kx + 1 < width {
                1int
            } else {
                0int
            });
            assert(wl[i].0 as int == 2 * kx + 1 && wl[i].1 as int == 2 * ky + 2);
            assert(wl_has(wl, 2 * kx as int + 1, 2 * ky as int + 2));
        }
        if kx > 0 {
            let i: int = (if ky > 0 {
                1int
            } else {
                0int
            }) + (if kx + 1 < width {
                1int
            } else {
                0int
            }) + (if ky + 1 < height {
                1int
            } else {
                0int
            });
            assert(wl[i].0 as int == 2 * kx && wl[i].1 as int == 2 * ky + 1);
            assert(wl_has(wl, 2 * kx as int, 2 * ky as int + 1));
        }
        lemma_prim_init(img, wall_list@, width, height, kx, ky);
    }

    while wall_list.len() > 0
        invariant
            1 <= width,
            1 <= height,
            w == 2 * width + 1,
            h == 2 * height + 1,
            (2 * width + 1) * (2 * height + 1) <= u32::MAX,
            width * height <= u32::MAX,
            img.wf(),
            img.width == w,
            img.height == h,
            img.binary(),
            proper_pass(img),
            walls_joined(img),
            wl_ok(wall_list@, w as int, h as int),
            count_walk_seq(img.pixels@) <= w * h,
            cell_pixel_count(img) == carved_wall_count(img) + 1,
            kx < width,
            ky < height,
            prim_reach(img, wall_list@, width, height, kx, ky),
        decreases w * h - count_walk_seq(img.pixels@), wall_list@.len(),
    {
        let ghost wl_pre = wall_list@;
        let wi = rng.next_below_len(wall_list.len());
        let wall = wall_list.swap_remove(wi);
        let ghost wl_mid = wall_list@;
        let x = wall.0;
        let y = wall.1;
        proof {
            lemma_parity(x as int);
            lemma_parity(y as int);
            assert forall|j: int| 0 <= j < wall_list@.len() implies {
                let p = #[trigger] wall_list@[j];
                1 <= p.0 < w - 1 && 1 <= p.1 < h - 1 && wall_par(p.0 as int, p.1 as int)
            } by {}
        }
        let b_up = walk(img.get_pixel(x, y - 1));
        let b_right = walk(img.get_pixel(x + 1, y));
        let b_down = walk(img.get_pixel(x, y + 1));
        let b_left = walk(img.get_pixel(x - 1, y));
        let cnt: u32 = (if b_up {
            1
        } else {
            0
        }) + (if b_right {
            1
        } else {
            0
        }) + (if b_down {
            1
        } else {
            0
        }) + (if b_left {
            1
        } else {
            0
        });
        if cnt == 1 {
            let vc: Point = if b_up {
                Point(x, y - 1)
            } else if b_right {
                Point(x + 1, y)
            } else if b_down {
                Point(x, y + 1)
            } else {
                Point(x - 1, y)
            };
            proof {
                // A carved wall would have both side cells passable and count
                // two, so this wall pixel is still solid.
                assert(!img.walkable(x as int, y as int));
            }
            let ghost img0 = img;
            proof {
                crate::buffer::lemma_idx_bounds(w as int, h as int, x as int, y as int);
                lemma_count_walk_update(img.pixels@, y as int * img.width as int + x as int, 255u8);
            }
            img.put_pixel(x, y, 255u8);
            let ghost img1 = img;
            proof {
                assert(2 * (w as int) <= u32::MAX && 2 * (h as int) <= u32::MAX) by (
                nonlinear_arith)
                    requires
                        3 <= w,
                        3 <= h,
                        w * h <= u32::MAX,
                ;
            }
            let ux = x + x - vc.0;
            let uy = y + y - vc.1;
            proof {
                // The probed neighbours of a wall pixel are its two side
                // cells and two junction pixels; junctions are never
                // passable, so the passable neighbour vc is a cell and the
                // opposite pixel uc is the matching solid cell.
                assert(img0.walkable(vc.0 as int, vc.1 as int));
                lemma_parity(vc.0 as int);
                lemma_parity(vc.1 as int);
                assert(cell_par(vc.0 as int, vc.1 as int));
                assert(1 <= ux < w - 1 && 1 <= uy < h - 1);
                assert(cell_par(ux as int, uy as int));
                assert(!img0.walkable(ux as int, uy as int));
                crate::buffer::lemma_idx_bounds(w as int, h as int, ux as int, uy as int);
                lemma_count_walk_update(
                    img.pixels@,
                    uy as int * img.width as int + ux as int,
                    255u8,
                );
            }
            img.put_pixel(ux, uy, 255u8);
            proof {
                lemma_counts_after_put(img0, img1, x as int, y as int);
                assert(!img1.walkable(ux as int, uy as int));
                lemma_counts_after_put(img1, img, ux as int, uy as int);
                assert(cell_pixel_count(img) == carved_wall_count(img) + 1);
                lemma_count_walk_le_len(img.pixels@);
                assert forall|a: int, b: int| #[trigger] img.walkable(a, b) implies 1 <= a < w - 1
                    && 1 <= b < h - 1 && (cell_par(a, b) || wall_par(a, b)) by {
                    if !img0.walkable(a, b) {
                        assert((a == x && b == y) || (a == ux && b == uy));
                    }
                }
                assert forall|a: int, b: int|
                    #[trigger] img.walkable(a, b) && wall_par(a, b) implies ((a % 2 == 0
                    ==> img.walkable(a - 1, b) && img.walkable(a + 1, b)) && (b % 2 == 0
                    ==> img.walkable(a, b - 1) && img.walkable(a, b + 1))) by {
                    if img0.walkable(a, b) {
                        assert(img0.walkable(a, b) && wall_par(a, b) ==> ((a % 2 == 0
                            ==> img0.walkable(a - 1, b) && img0.walkable(a + 1, b)) && (b % 2 == 0
                            ==> img0.walkable(a, b - 1) && img0.walkable(a, b + 1))));
                    } else {
                        assert((a == x && b == y) || (a == ux && b == uy));
                    }
                }
            }
            // extend the frontier with the solid walls around the new cell
            if uy > 1 {
                if !walk(img.get_pixel(ux, uy - 1)) {
                    wall_list.push(Point(ux, uy - 1));
                }
            }
            if ux < w - 2 {
                if !walk(img.get_pixel(ux + 1, uy)) {
                    wall_list.push(Point(ux + 1, uy));
                }
            }
            if uy < h - 2 {
                if !walk(img.get_pixel(ux, uy + 1)) {
                    wall_list.push(Point(ux, uy + 1));
                }
            }
            if ux > 1 {
                if !walk(img.get_pixel(ux - 1, uy)) {
                    wall_list.push(Point(ux - 1, uy));
                }
            }
            proof {
                lemma_parity(ux as int);
                lemma_parity(uy as int);
                // locate the fresh cell on the logical grid
                let ucx = (ux as int - 1) / 2;
                let ucy = (uy as int - 1) / 2;
                vstd::arithmetic::div_mod::lemma_fundamental_div_mod(ux as int - 1, 2);
                vstd::arithmetic::div_mod::lemma_fundamental_div_mod(uy as int - 1, 2);
                vstd::arithmetic::div_mod::lemma_mod_bound(ux as int - 1, 2);
                vstd::arithmetic::div_mod::lemma_mod_bound(uy as int - 1, 2);
                assert(2 * ucx + 1 == ux as int && 2 * ucy + 1 == uy as int);
                assert(0 <= ucx < width && 0 <= ucy < height);
                // the walls just pushed guard the fresh cell's solid
                // neighbours: the exec code pushed each solid wall, at a
                // position computable from which pushes ran
                let base: int = wl_mid.len() as int;
                let t1: bool = uy > 1 && !img.walkable(ux as int, uy as int - 1);
                let t2: bool = ux < w - 2 && !img.walkable(ux as int + 1, uy as int);
                let t3: bool = uy < h - 2 && !img.walkable(ux as int, uy as int + 1);
                let t4: bool = ux > 1 && !img.walkable(ux as int - 1, uy as int);
                let o1: int = if t1 {
                    1int
                } else {
                    0int
                };
                let o2: int = if t2 {
                    1int
                } else {
                    0int
                };
                let o3: int = if t3 {
                    1int
                } else {
                    0int
                };
                if t1 {
                    assert(wall_list@[base].0 as int == ux && wall_list@[base].1 as int == uy
                        - 1);
                    assert(wl_has(wall_list@, ux as int, uy as int - 1));
                }
                if t2 {
                    assert(wall_list@[base + o1].0 as int == ux + 1 && wall_list@[base + o1].1
                        as int == uy);
                    assert(wl_has(wall_list@, ux as int + 1, uy as int));
                }
                if t3 {
                    assert(wall_list@[base + o1 + o2].0 as int == ux && wall_list@[base + o1
                        + o2].1 as int == uy + 1);
                    assert(wl_has(wall_list@, ux as int, uy as int + 1));
                }
                if t4 {
                    assert(wall_list@[base + o1 + o2 + o3].0 as int == ux - 1 && wall_list@[base
                        + o1 + o2 + o3].1 as int == uy);
                    assert(wl_has(wall_list@, ux as int - 1, uy as int));
                }
                // a wall with a carved cell on both sides would not be
                // solid, so a solid neighbour cell means its wall was pushed
                assert(ucx + 1 < width && !img.walkable(2 * ucx + 3, 2 * ucy + 1) ==> wl_has(
                    wall_list@,
                    2 * ucx + 2,
                    2 * ucy + 1,
                )) by {
                    if img.walkable(2 * ucx + 2, 2 * ucy + 1) {
                        assert(img.walkable(2 * ucx + 3, 2 * ucy + 1));
                    }
                }
                assert(ucy + 1 < height && !img.walkable(2 * ucx + 1, 2 * ucy + 3) ==> wl_has(
                    wall_list@,
                    2 * ucx + 1,
                    2 * ucy + 2,
                )) by {
                    if img.walkable(2 * ucx + 1, 2 * ucy + 2) {
                        assert(img.walkable(2 * ucx + 1, 2 * ucy + 3));
                    }
                }
                assert(ucx > 0 && !img.walkable(2 * ucx - 1, 2 * ucy + 1) ==> wl_has(
                    wall_list@,
                    2 * ucx,
                    2 * ucy + 1,
                )) by {
                    if img.walkable(2 * ucx, 2 * ucy + 1) {
                        assert(img.walkable(2 * ucx - 1, 2 * ucy + 1));
                    }
                }
                assert(ucy > 0 && !img.walkable(2 * ucx + 1, 2 * ucy - 1) ==> wl_has(
                    wall_list@,
                    2 * ucx + 1,
                    2 * ucy,
                )) by {
                    if img.walkable(2 * ucx + 1, 2 * ucy) {
                        assert(img.walkable(2 * ucx + 1, 2 * ucy - 1));
                    }
                }
                assert forall|x2: int, y2: int| wl_has(wl_mid, x2, y2) implies #[trigger] wl_has(
                    wall_list@,
                    x2,
                    y2,
                ) by {
                    let j = choose|j: int|
                        0 <= j < wl_mid.len() && wl_mid[j].0 == x2 && wl_mid[j].1 == y2;
                    assert(wall_list@[j] == wl_mid[j]);
                }
                // the carved side and the fresh cell flank the popped wall
                assert(crate::adjacent(vc, wall));
                assert(wall.0 as int % 2 == 0 ==> (vc.0 as int == wall.0 - 1 || vc.0 as int
                    == wall.0 + 1) && vc.1 == wall.1);
                assert(wall.1 as int % 2 == 0 ==> (vc.1 as int == wall.1 - 1 || vc.1 as int
                    == wall.1 + 1) && vc.0 == wall.0);
                assert(2 * ucx + 1 == 2 * wall.0 - vc.0 && 2 * ucy + 1 == 2 * wall.1 - vc.1);
                lemma_prim_carve(
                    img0,
                    img1,
                    img,
                    wl_pre,
                    wl_mid,
                    wall_list@,
                    wi as int,
                    width,
                    height,
                    kx,
                    ky,
                    wall,
                    vc,
                    ucx,
                    ucy,
                );
            }
        } else {
            proof {
                // the popped wall's two cell sides agree (its other two
                // pixel neighbours are junctions, never passable), so no
                // carved cell needed this wall as a guard
                assert(b_up == img.walkable(x as int, y as int - 1));
                assert(b_right == img.walkable(x as int + 1, y as int));
                assert(b_down == img.walkable(x as int, y as int + 1));
                assert(b_left == img.walkable(x as int - 1, y as int));
                if x as int % 2 == 0 {
                    assert(!img.walkable(x as int, y as int - 1));
                    assert(!img.walkable(x as int, y as int + 1));
                } else {
                    assert(!img.walkable(x as int - 1, y as int));
                    assert(!img.walkable(x as int + 1, y as int));
                }
                assert(wall.0 as int % 2 == 0 ==> img.walkable(wall.0 as int - 1, wall.1 as int)
                    == img.walkable(wall.0 as int + 1, wall.1 as int));
                assert(wall.1 as int % 2 == 0 ==> img.walkable(wall.0 as int, wall.1 as int - 1)
                    == img.walkable(wall.0 as int, wall.1 as int + 1));
                lemma_prim_discard(
                    img,
                    wl_pre,
                    wl_mid,
                    wi as int,
                    width,
                    height,
                    kx,
                    ky,
                    wall,
                );
            }
        }
    }
    let ex = rng.next_below(width);
    let entrance_x = 1 + ex * 2;
    let ghost pre_entrance = img;
    img.put_pixel(entrance_x, 0, 255u8);
    let ghost pre_exit = img;
    let ex2 = rng.next_below(width);
    let exit_x = 1 + ex2 * 2;
    img.put_pixel(exit_x, h - 1, 255u8);
    proof {
        assert forall|x: int|
            0 <= x < w implies (#[trigger] img.walkable(x, 0) <==> x == entrance_x) by {
            assert(img.pix(x, 0) == pre_exit.pix(x, 0));
            if x != entrance_x {
                assert(pre_exit.pix(x, 0) == pre_entrance.pix(x, 0));
                assert(!pre_entrance.walkable(x, 0));
            }
        }
        assert forall|x: int|
            0 <= x < w implies (#[trigger] img.walkable(x, h - 1) <==> x == exit_x) by {
            if x != exit_x {
                assert(img.pix(x, h - 1) == pre_exit.pix(x, h - 1));
                assert(pre_exit.pix(x, h - 1) == pre_entrance.pix(x, h - 1));
                assert(!pre_entrance.walkable(x, h - 1));
            }
        }
        lemma_count_row_single(img, 0, w as int, entrance_x as int);
        lemma_count_row_single(img, h as int - 1, w as int, exit_x as int);
        lemma_counts_after_put(pre_entrance, pre_exit, entrance_x as int, 0);
        vstd::arithmetic::div_mod::lemma_mod_multiples_vanish(height as int, 0, 2);
        assert(!cell_par(exit_x as int, h as int - 1));
        lemma_counts_after_put(pre_exit, img, exit_x as int, h as int - 1);
        assert(cell_pixel_count(img) == carved_wall_count(img) + 1);
        // the entrance and exit stand at odd columns, and the side columns
        // were never carved
        vstd::arithmetic::div_mod::lemma_mod_multiples_vanish(ex as int, 1, 2);
        vstd::arithmetic::div_mod::lemma_mod_multiples_vanish(ex2 as int, 1, 2);
        assert forall|x: int| #[trigger] img.walkable(x, 0) implies x % 2 == 1 by {
            assert(x == entrance_x);
        }
        assert forall|x: int| #[trigger] img.walkable(x, h as int - 1) implies x % 2 == 1 by {
            assert(x == exit_x);
        }
        assert forall|y: int|
            #![trigger img.walkable(0, y)]
            #![trigger img.walkable(img.width - 1, y)]
            !img.walkable(0, y) && !img.walkable(img.width - 1, y) by {
            if img.walkable(0, y) {
                assert(img.pix(0, y) == pre_exit.pix(0, y));
                assert(pre_exit.pix(0, y) == pre_entrance.pix(0, y));
                assert(pre_entrance.walkable(0, y));
            }
            if img.walkable(w as int - 1, y) {
                assert(img.pix(w as int - 1, y) == pre_exit.pix(w as int - 1, y));
                assert(pre_exit.pix(w as int - 1, y) == pre_entrance.pix(w as int - 1, y));
                assert(pre_entrance.walkable(w as int - 1, y));
            }
        }
        assert forall|a: int, b: int|
            #[trigger] img.walkable(a, b) && wall_par(a, b) && 1 <= a < img.width - 1 && 1 <= b
                < img.height - 1 implies ((a % 2 == 0 ==> img.walkable(a - 1, b) && img.walkable(
            a + 1,
            b,
        )) && (b % 2 == 0 ==> img.walkable(a, b - 1) && img.walkable(a, b + 1))) by {
            assert(img.pix(a, b) == pre_exit.pix(a, b));
            assert(pre_exit.pix(a, b) == pre_entrance.pix(a, b));
            assert(pre_entrance.walkable(a, b));
            lemma_parity(a);
            lemma_parity(b);
            if a % 2 == 0 {
                assert(img.pix(a - 1, b) == pre_exit.pix(a - 1, b));
                assert(pre_exit.pix(a - 1, b) == pre_entrance.pix(a - 1, b));
                assert(img.pix(a + 1, b) == pre_exit.pix(a + 1, b));
                assert(pre_exit.pix(a + 1, b) == pre_entrance.pix(a + 1, b));
            }
            if b % 2 == 0 {
                assert(img.pix(a, b - 1) == pre_exit.pix(a, b - 1));
                assert(pre_exit.pix(a, b - 1) == pre_entrance.pix(a, b - 1));
                assert(img.pix(a, b + 1) == pre_exit.pix(a, b + 1));
                assert(pre_exit.pix(a, b + 1) == pre_entrance.pix(a, b + 1));
            }
        }
        // the frontier is exhausted: every cell is carved and every passage
        // joins the entrance pixel
        lemma_prim_finish(
            pre_entrance,
            pre_exit,
            img,
            wall_list@,
            width,
            height,
            kx,
            ky,
            ex,
            ex2,
        );
    }
    img
}

/// Swapping two positions of a sequence keeps every value it contains.
proof fn lemma_swap_contains(s1: Seq<Direction>, s2: Seq<Direction>, i: int, j: int, d: Direction)
    requires
        0 <= i < s1.len(),
        0 <= j < s1.len(),
        s2 == s1.update(i, s1[j]).update(j, s1[i]),
        s1.contains(d),
    ensures
        s2.contains(d),
{
    let k = choose|k: int| 0 <= k < s1.len() && s1[k] == d;
    if k == i {
        assert(s2[j] == d);
    } else if k == j {
        assert(s2[i] == d);
    } else {
        assert(s2[k] == d);
    }
}

} // verus!
