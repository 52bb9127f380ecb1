use vstd::prelude::*;

use crate::buffer::{lemma_idx_bounds, lemma_idx_injective};
use crate::{adjacent, is_path, spec_manhattan, spec_neighbours, Maze, Point, Unit};

verus! {

/// Manhattan-distance heuristic: admissible and consistent for 4-directional
/// unit-cost movement.
pub fn heuristic(p: Point, goal: Point) -> (r: Unit)
    requires
        spec_manhattan(p, goal) <= u32::MAX,
    ensures
        r == spec_manhattan(p, goal),
{
    let Point(x, y) = p;
    let Point(i, j) = goal;
    let dx = if i >= x {
        i - x
    } else {
        x - i
    };
    let dy = if j >= y {
        j - y
    } else {
        y - j
    };
    dx + dy
}

/// One slot of the best-cost table: the best-known `(parent, g-cost)` of a
/// cell, or `None` if the cell has not been reached yet.
type Entry = Option<(Point, u32)>;

/// Row-major slot of a point in the best-cost table.
spec fn pidx(m: Maze, p: Point) -> int {
    p.1 * m.img.width + p.0
}

spec fn entry(t: Seq<Entry>, m: Maze, p: Point) -> Entry {
    t[pidx(m, p)]
}

spec fn e_g(t: Seq<Entry>, m: Maze, p: Point) -> int {
    (entry(t, m, p)->0).1 as int
}

/// How many cells the table has reached so far.
spec fn count_some(t: Seq<Entry>) -> nat
    decreases t.len(),
{
    if t.len() == 0 {
        0
    } else {
        count_some(t.drop_last()) + if t.last() is Some {
            1nat
        } else {
            0nat
        }
    }
}

spec fn weight(e: Entry, cap: nat) -> nat {
    match e {
        None => cap,
        Some(pr) => pr.1 as nat,
    }
}

/// Termination potential of the search: unreached cells weigh the full grid
/// size, reached cells weigh their current g-cost.  Every table write makes
/// it strictly smaller.
spec fn potential(t: Seq<Entry>, cap: nat) -> nat
    decreases t.len(),
{
    if t.len() == 0 {
        0
    } else {
        potential(t.drop_last(), cap) + weight(t.last(), cap)
    }
}

proof fn lemma_count_some_update(t: Seq<Entry>, i: int, e: Entry)
    requires
        0 <= i < t.len(),
    ensures
        count_some(t.update(i, e)) as int == count_some(t) as int - (if t[i] is Some {
            1int
        } else {
            0int
        }) + (if e is Some {
            1int
        } else {
            0int
        }),
    decreases t.len(),
{
    let t2 = t.update(i, e);
    if i == t.len() - 1 {
        assert(t2.drop_last() =~= t.drop_last());
    } else {
        assert(t2.drop_last() =~= t.drop_last().update(i, e));
        lemma_count_some_update(t.drop_last(), i, e);
        assert(t2.last() == t.last());
    }
}

proof fn lemma_potential_update(t: Seq<Entry>, cap: nat, i: int, e: Entry)
    requires
        0 <= i < t.len(),
    ensures
        potential(t.update(i, e), cap) as int == potential(t, cap) as int - weight(t[i], cap)
            + weight(e, cap),
    decreases t.len(),
{
    let t2 = t.update(i, e);
    if i == t.len() - 1 {
        assert(t2.drop_last() =~= t.drop_last());
    } else {
        assert(t2.drop_last() =~= t.drop_last().update(i, e));
        lemma_potential_update(t.drop_last(), cap, i, e);
        assert(t2.last() == t.last());
    }
}

proof fn lemma_count_some_le_len(t: Seq<Entry>)
    ensures
        count_some(t) <= t.len(),
    decreases t.len(),
{
    if t.len() > 0 {
        lemma_count_some_le_len(t.drop_last());
    }
}

proof fn lemma_count_some_lt_len_if_none(t: Seq<Entry>, i: int)
    requires
        0 <= i < t.len(),
        t[i] is None,
    ensures
        count_some(t) < t.len(),
    decreases t.len(),
{
    if i == t.len() - 1 {
        lemma_count_some_le_len(t.drop_last());
    } else {
        lemma_count_some_lt_len_if_none(t.drop_last(), i);
    }
}

proof fn lemma_count_some_all_none(t: Seq<Entry>)
    requires
        forall|i: int| 0 <= i < t.len() ==> t[i] is None,
    ensures
        count_some(t) == 0,
    decreases t.len(),
{
    if t.len() > 0 {
        lemma_count_some_all_none(t.drop_last());
    }
}

/// Updating the slot of `q` changes the entry of `q` alone.
proof fn lemma_entry_update(t: Seq<Entry>, m: Maze, q: Point, e: Entry)
    requires
        t.len() == m.img.width * m.img.height,
        m.in_grid(q),
    ensures
        0 <= pidx(m, q) < t.len(),
        forall|p: Point|
            m.in_grid(p) ==> #[trigger] entry(t.update(pidx(m, q), e), m, p) == if p == q {
                e
            } else {
                entry(t, m, p)
            },
{
    lemma_idx_bounds(m.img.width as int, m.img.height as int, q.0 as int, q.1 as int);
    assert forall|p: Point|
        m.in_grid(p) implies #[trigger] entry(t.update(pidx(m, q), e), m, p) == if p == q {
        e
    } else {
        entry(t, m, p)
    } by {
        lemma_idx_bounds(m.img.width as int, m.img.height as int, p.0 as int, p.1 as int);
        if p != q {
            lemma_idx_injective(
                m.img.width as int,
                m.img.height as int,
                p.0 as int,
                p.1 as int,
                q.0 as int,
                q.1 as int,
            );
        }
    }
}

/// Well-formedness of one table slot: a reached cell is walkable, its g-cost
/// stays below the number of reached cells, the entrance (and only it) has
/// g-cost 0, and every other reached cell has a reached adjacent parent of
/// strictly smaller g-cost.
spec fn entry_ok(t: Seq<Entry>, m: Maze, start: Point, p: Point) -> bool {
    match entry(t, m, p) {
        None => true,
        Some(pr) => {
            &&& m.walkable(p.0 as int, p.1 as int)
            &&& m.in_grid(pr.0)
            &&& (pr.1 as nat) < count_some(t)
            &&& (pr.1 == 0 ==> p == start && pr.0 == p)
            &&& (pr.1 > 0 ==> adjacent(pr.0, p) && entry(t, m, pr.0) is Some && e_g(t, m, pr.0)
                < pr.1)
        },
    }
}

spec fn table_wf(t: Seq<Entry>, m: Maze, start: Point) -> bool {
    &&& t.len() == m.img.width * m.img.height
    &&& forall|p: Point| m.in_grid(p) ==> #[trigger] entry_ok(t, m, start, p)
}

/// An open-set node: a candidate cell queued with the g-cost it was
/// discovered at; `f_cost = g + h` orders the queue.
struct AStarNode {
    f_cost: u64,
    point: Point,
    g_cost: u32,
}

/// Every queued node refers to a reached cell whose current table g-cost is
/// no worse than the g-cost it was queued with, and carries the ordering key
/// `f = g + h` for the admissible Manhattan heuristic.
spec fn open_wf(open: Seq<AStarNode>, t: Seq<Entry>, m: Maze, end: Point) -> bool {
    forall|i: int|
        0 <= i < open.len() ==> {
            let n = #[trigger] open[i];
            &&& m.in_grid(n.point)
            &&& entry(t, m, n.point) is Some
            &&& e_g(t, m, n.point) <= n.g_cost
            &&& n.f_cost == n.g_cost + spec_manhattan(n.point, end)
        }
}

/// Remove and return a node of minimal f-cost (the earliest such node; the
/// tie-break is arbitrary but deterministic).
fn pop_min(open: &mut Vec<AStarNode>) -> (r: AStarNode)
    requires
        old(open)@.len() >= 1,
    ensures
        final(open)@.len() == old(open)@.len() - 1,
        old(open)@.contains(r),
        exists|i: int|
            0 <= i < old(open)@.len() && r == old(open)@[i] && final(open)@ == old(
                open,
            )@.remove(i),
        forall|j: int|
            0 <= j < final(open)@.len() ==> old(open)@.contains(#[trigger] final(open)@[j]),
        forall|j: int|
            0 <= j < final(open)@.len() ==> r.f_cost <= (#[trigger] final(open)@[j]).f_cost,
{
    let mut best: usize = 0;
    let mut k: usize = 1;
    while k < open.len()
        invariant
            best < k,
            1 <= k <= open@.len(),
            forall|j: int|
                0 <= j < k ==> open@[best as int].f_cost <= (#[trigger] open@[j]).f_cost,
        decreases open@.len() - k,
    {
        if open[k].f_cost < open[best].f_cost {
            best = k;
        }
        k = k + 1;
    }
    let ghost before = open@;
    let r = open.remove(best);
    proof {
        assert(before[best as int] == r);
        assert(before.contains(r));
        assert forall|j: int| 0 <= j < open@.len() implies before.contains(
            #[trigger] open@[j],
        ) by {
            if j < best {
                assert(open@[j] == before[j]);
            } else {
                assert(open@[j] == before[j + 1]);
            }
        }
    }
    r
}

/// Some queued node still carries the current table g-cost of `p`.
spec fn has_matching_node(open: Seq<AStarNode>, t: Seq<Entry>, m: Maze, p: Point) -> bool {
    exists|i: int|
        0 <= i < open.len() && open[i].point == p && open[i].g_cost as int == e_g(t, m, p)
}

/// Every walkable cell adjacent to `p` has been reached, at a g-cost at most
/// one beyond the g-cost of `p`.
spec fn expanded(t: Seq<Entry>, m: Maze, p: Point) -> bool {
    forall|q: Point|
        m.in_grid(q) && m.walkable(q.0 as int, q.1 as int) && adjacent(p, q) ==> (#[trigger] entry(
            t,
            m,
            q,
        )) is Some && e_g(t, m, q) <= e_g(t, m, p) + 1
}

/// Every reached cell is either still pending in the queue at its current
/// g-cost or has had all its walkable neighbours reached.
spec fn frontier_ok(open: Seq<AStarNode>, t: Seq<Entry>, m: Maze) -> bool {
    forall|p: Point|
        m.in_grid(p) && (#[trigger] entry(t, m, p)) is Some ==> has_matching_node(open, t, m, p)
            || expanded(t, m, p)
}

/// A reached exit always has a node waiting in the queue, since popping the
/// exit returns at once.
spec fn end_pending(open: Seq<AStarNode>, t: Seq<Entry>, m: Maze, end: Point) -> bool {
    entry(t, m, end) is Some ==> exists|i: int| 0 <= i < open.len() && open[i].point == end
}

/// Two points joined by some walkable 4-adjacent route.
pub open spec fn connected(m: Maze, a: Point, b: Point) -> bool {
    exists|s: Seq<Point>| is_path(m, s) && s[0] == a && s[s.len() - 1] == b
}

/// A walkable cell adjacent to `p` appears among its enumerated neighbours.
proof fn lemma_adjacent_walkable_in_neighbours(m: Maze, p: Point, q: Point)
    requires
        m.walkable(q.0 as int, q.1 as int),
        adjacent(p, q),
    ensures
        spec_neighbours(m, p).contains(q),
{
    let s = spec_neighbours(m, p);
    let n1: int = if m.walkable(p.0 as int + 1, p.1 as int) {
        1int
    } else {
        0int
    };
    let n2: int = if m.walkable(p.0 as int, p.1 as int + 1) {
        1int
    } else {
        0int
    };
    let n3: int = if p.0 > 0 && m.walkable(p.0 as int - 1, p.1 as int) {
        1int
    } else {
        0int
    };
    if q.0 as int == p.0 as int + 1 && q.1 == p.1 {
        assert(q == Point((p.0 + 1) as u32, p.1));
        assert(s[0] == q);
    } else if q.1 as int == p.1 as int + 1 && q.0 == p.0 {
        assert(q == Point(p.0, (p.1 + 1) as u32));
        assert(s[n1] == q);
    } else if p.0 > 0 && q.0 as int == p.0 as int - 1 && q.1 == p.1 {
        assert(q == Point((p.0 - 1) as u32, p.1));
        assert(s[n1 + n2] == q);
    } else {
        assert(p.1 > 0 && q.1 as int == p.1 as int - 1 && q.0 == p.0);
        assert(q == Point(p.0, (p.1 - 1) as u32));
        assert(s[n1 + n2 + n3] == q);
    }
}

/// If every reached cell is fully expanded, the reached region is closed
/// under walkable adjacency, so a walkable route cannot leave it.
proof fn lemma_closed_table_blocks(t: Seq<Entry>, m: Maze, s: Seq<Point>)
    requires
        forall|p: Point|
            m.in_grid(p) && (#[trigger] entry(t, m, p)) is Some ==> expanded(t, m, p),
        is_path(m, s),
        entry(t, m, s[0]) is Some,
    ensures
        entry(t, m, s[s.len() - 1]) is Some,
    decreases s.len(),
{
    if s.len() > 1 {
        assert(m.walkable(s[0].0 as int, s[0].1 as int));
        assert(m.in_grid(s[0]));
        assert(expanded(t, m, s[0]));
        assert(m.walkable(s[1].0 as int, s[1].1 as int));
        assert(m.in_grid(s[1]));
        assert(adjacent(s[0], s[1]));
        assert(entry(t, m, s[1]) is Some);
        let s2 = s.subrange(1, s.len() as int);
        assert forall|i: int|
            0 <= i < s2.len() implies m.walkable((#[trigger] s2[i]).0 as int, s2[i].1 as int) by {
            assert(s2[i] == s[i + 1]);
        }
        assert forall|i: int| 0 <= i < s2.len() - 1 implies adjacent(#[trigger] s2[i], s2[i + 1]) by {
            assert(s2[i] == s[i + 1] && s2[i + 1] == s[i + 2]);
        }
        lemma_closed_table_blocks(t, m, s2);
        assert(s2[s2.len() - 1] == s[s.len() - 1]);
    }
}

fn pt_index(maze: &Maze, p: Point) -> (i: usize)
    requires
        maze.img.wf(),
        maze.in_grid(p),
        maze.img.width * maze.img.height <= u32::MAX,
    ensures
        i == pidx(*maze, p),
        i < maze.img.width * maze.img.height,
{
    proof {
        lemma_idx_bounds(maze.img.width as int, maze.img.height as int, p.0 as int, p.1 as int);
    }
    (p.1 as usize) * (maze.img.width as usize) + (p.0 as usize)
}

/// Walking a candidate route forward through the search state: at each
/// reached point either a queued node bounds the minimal f-cost by the
/// route's length (the heuristic undershoots the remaining distance), or the
/// expansion bound pushes the reached prefix one step further, until the
/// route's end itself is reached within its length.
#[verifier::rlimit(100)]
proof fn lemma_route_bound(
    open: Seq<AStarNode>,
    t: Seq<Entry>,
    m: Maze,
    end: Point,
    s: Seq<Point>,
    i: int,
    fend: int,
)
    requires
        open_wf(open, t, m, end),
        frontier_ok(open, t, m),
        is_path(m, s),
        s[s.len() - 1] == end,
        0 <= i < s.len(),
        entry(t, m, s[i]) is Some,
        e_g(t, m, s[i]) <= i,
        forall|j: int| 0 <= j < open.len() ==> fend <= (#[trigger] open[j]).f_cost,
    ensures
        fend <= s.len() - 1 || (entry(t, m, end) is Some && e_g(t, m, end) <= s.len() - 1),
    decreases s.len() - i,
{
    let p = s[i];
    assert(m.walkable(p.0 as int, p.1 as int));
    assert(m.in_grid(p));
    if has_matching_node(open, t, m, p) {
        let j = choose|j: int|
            0 <= j < open.len() && open[j].point == p && open[j].g_cost as int == e_g(t, m, p);
        let tail = s.subrange(i, s.len() as int);
        assert forall|j2: int|
            0 <= j2 < tail.len() implies m.walkable(
            (#[trigger] tail[j2]).0 as int,
            tail[j2].1 as int,
        ) by {
            assert(tail[j2] == s[i + j2]);
        }
        assert forall|j2: int|
            0 <= j2 < tail.len() - 1 implies adjacent(#[trigger] tail[j2], tail[j2 + 1]) by {
            assert(tail[j2] == s[i + j2] && tail[j2 + 1] == s[i + j2 + 1]);
        }
        lemma_path_manhattan_bound(m, tail);
        assert(spec_manhattan(p, end) <= s.len() - 1 - i);
        assert(fend <= open[j].f_cost);
        assert(fend <= s.len() - 1);
    } else {
        assert(expanded(t, m, p));
        if i == s.len() - 1 {
            assert(p == end);
        } else {
            assert(adjacent(s[i], s[i + 1]));
            assert(m.walkable(s[i + 1].0 as int, s[i + 1].1 as int));
            assert(m.in_grid(s[i + 1]));
            assert(entry(t, m, s[i + 1]) is Some && e_g(t, m, s[i + 1]) <= e_g(t, m, p) + 1);
            lemma_route_bound(open, t, m, end, s, i + 1, fend);
        }
    }
}

/// Best-first search from the entrance to the exit.
///
/// On success the result carries the edge count of the returned route and the
/// route itself, from entrance to exit inclusive: every point walkable, every
/// consecutive pair 4-adjacent.  `None` is returned only when no walkable
/// route joins the entrance to the exit.
#[verifier::rlimit(100)]
pub fn solve(maze: &Maze) -> (r: Option<(Unit, Vec<Point>)>)
    requires
        maze.wf(),
    ensures
        match r {
            Some(sol) => {
                &&& is_path(*maze, sol.1@)
                &&& maze.is_entrance(sol.1@[0])
                &&& maze.is_exit(sol.1@[sol.1@.len() - 1])
                &&& sol.0 == sol.1@.len() - 1
                &&& spec_manhattan(sol.1@[0], sol.1@[sol.1@.len() - 1]) <= sol.0
                &&& forall|s: Seq<Point>|
                    is_path(*maze, s) && maze.is_entrance(s[0]) && maze.is_exit(s[s.len() - 1])
                        ==> sol.0 <= s.len() - 1
            },
            None => forall|a: Point, b: Point|
                maze.is_entrance(a) && maze.is_exit(b) ==> !connected(*maze, a, b),
        },
{
    let start = maze.get_entrance();
    let end = maze.get_exit();
    let w = maze.img.width;
    let h = maze.img.height;
    let ghost m = *maze;
    let ghost cap = (w * h) as nat;

    if start == end {
        // Entrance equals exit: a path of length 0, returned immediately.
        let mut path: Vec<Point> = Vec::new();
        path.push(start);
        proof {
            lemma_path_manhattan_bound(m, path@);
            assert forall|s2: Seq<Point>|
                is_path(m, s2) && maze.is_entrance(s2[0]) && maze.is_exit(
                    s2[s2.len() - 1],
                ) implies 0 <= s2.len() - 1 by {}
        }
        return Some((0, path));
    }
    // The best-cost table, one slot per pixel, seeded with the entrance.
    let n: usize = (w as usize) * (h as usize);
    let mut table: Vec<Entry> = Vec::new();
    while table.len() < n
        invariant
            table@.len() <= n,
            forall|i: int| 0 <= i < table@.len() ==> table@[i] is None,
        decreases n - table@.len(),
    {
        table.push(None);
    }
    proof {
        lemma_count_some_all_none(table@);
        lemma_entry_update(table@, m, start, Some((start, 0u32)));
        lemma_count_some_update(table@, pidx(m, start), Some((start, 0u32)));
    }
    let si = pt_index(maze, start);
    table[si] = Some((start, 0u32));
    proof {
        assert(count_some(table@) == 1);
        assert forall|p: Point| m.in_grid(p) implies #[trigger] entry_ok(table@, m, start, p) by {
            lemma_idx_bounds(w as int, h as int, p.0 as int, p.1 as int);
        }
    }
    let mut open: Vec<AStarNode> = Vec::new();
    proof {
        lemma_manhattan_in_grid(m, start, end);
    }
    let h0 = heuristic(start, end);
    open.push(AStarNode { f_cost: h0 as u64, point: start, g_cost: 0u32 });
    proof {
        assert(open@[0].point == start && open@[0].g_cost as int == e_g(table@, m, start));
        assert forall|p: Point|
            m.in_grid(p) && (#[trigger] entry(table@, m, p)) is Some implies has_matching_node(
            open@,
            table@,
            m,
            p,
        ) || expanded(table@, m, p) by {
            lemma_idx_bounds(w as int, h as int, p.0 as int, p.1 as int);
            assert(p == start);
            assert(has_matching_node(open@, table@, m, p));
        }
        lemma_idx_bounds(w as int, h as int, end.0 as int, end.1 as int);
        assert(entry(table@, m, end) is None);
    }

    while open.len() > 0
        invariant
            table@.len() == w * h,
            table_wf(table@, m, start),
            open_wf(open@, table@, m, end),
            entry(table@, m, start) is Some,
            e_g(table@, m, start) == 0,
            frontier_ok(open@, table@, m),
            end_pending(open@, table@, m, end),
        decreases potential(table@, cap), open@.len(),
    {
        let ghost pot0 = potential(table@, cap);
        let ghost len0 = open@.len();
        let ghost open0 = open@;
        let node = pop_min(&mut open);
        let point = node.point;
        let g_pop = node.g_cost;
        let ghost i0 = choose|i: int|
            0 <= i < open0.len() && node == open0[i] && open@ == open0.remove(i);
        proof {
            assert(0 <= i0 < open0.len() && node == open0[i0] && open@ == open0.remove(i0));
            open0.remove_ensures(i0);
            let i = choose|i: int| 0 <= i < open0.len() && open0[i] == node;
            assert(open0[i] == node);
        }

        if point == end {
            // Reconstruct the route by walking parent links back to the
            // entrance, then reverse it into entrance-to-exit order.
            let ei = pt_index(maze, end);
            let e0 = table[ei];
            let g0: u32 = match e0 {
                Some(pr) => pr.1,
                None => 0,
            };
            proof {
                // No admissible route beats the best g-cost recorded for the
                // exit: the popped node has minimal f-cost, the heuristic
                // undershoots every remaining stretch, and expansion bounds
                // push the argument along any candidate route.
                assert(g0 == e_g(table@, m, end));
                assert(g0 <= g_pop);
                assert forall|j: int|
                    0 <= j < open0.len() implies g_pop <= (#[trigger] open0[j]).f_cost by {
                    if j == i0 {
                        assert(open0[j] == node);
                    } else if j < i0 {
                        assert(open@[j] == open0[j]);
                    } else {
                        assert(open@[j - 1] == open0[j]);
                    }
                }
                assert forall|s2: Seq<Point>|
                    is_path(m, s2) && s2[0] == start && s2[s2.len() - 1]
                        == end implies g0 <= s2.len() - 1 by {
                    lemma_route_bound(open0, table@, m, end, s2, 0, g_pop as int);
                }
            }
            let mut path: Vec<Point> = Vec::new();
            path.push(end);
            let mut cur: Point = end;
            let mut g_cur: u32 = g0;
            proof {
                lemma_count_some_le_len(table@);
            }
            while g_cur > 0
                invariant
                    m.in_grid(cur),
                    entry(table@, m, cur) is Some,
                    e_g(table@, m, cur) == g_cur,
                    path@.len() >= 1,
                    path@[0] == end,
                    path@[path@.len() - 1] == cur,
                    forall|i: int|
                        0 <= i < path@.len() ==> m.walkable(
                            (#[trigger] path@[i]).0 as int,
                            path@[i].1 as int,
                        ),
                    forall|i: int|
                        0 <= i < path@.len() - 1 ==> adjacent(path@[i + 1], #[trigger] path@[i]),
                    path@.len() + g_cur <= g0 + 1,
                decreases g_cur,
            {
                let ci = pt_index(maze, cur);
                let e1 = table[ci];
                let pr = match e1 {
                    Some(pr) => pr,
                    None => (cur, 0),
                };
                proof {
                    assert(entry_ok(table@, m, start, cur));
                    assert(entry_ok(table@, m, start, pr.0));
                }
                let par = pr.0;
                path.push(par);
                let pi = pt_index(maze, par);
                let e2 = table[pi];
                let prp = match e2 {
                    Some(prp) => prp,
                    None => (par, 0),
                };
                cur = par;
                g_cur = prp.1;
            }
            proof {
                assert(entry_ok(table@, m, start, cur));
                assert(cur == start);
            }
            // Reverse into entrance-to-exit order.
            let mut rev: Vec<Point> = Vec::new();
            let mut k: usize = path.len();
            while k > 0
                invariant
                    k <= path@.len(),
                    rev@.len() == path@.len() - k,
                    forall|j: int|
                        0 <= j < rev@.len() ==> #[trigger] rev@[j] == path@[path@.len() - 1 - j],
                decreases k,
            {
                k = k - 1;
                rev.push(path[k]);
            }
            proof {
                assert(is_path(m, rev@));
                lemma_path_manhattan_bound(m, rev@);
                assert forall|s2: Seq<Point>|
                    is_path(m, s2) && maze.is_entrance(s2[0]) && maze.is_exit(
                        s2[s2.len() - 1],
                    ) implies rev@.len() - 1 <= s2.len() - 1 by {
                    assert(s2[0].0 == start.0 && s2[0].1 == start.1);
                    assert(s2[0] == start);
                    assert(s2[s2.len() - 1].0 == end.0 && s2[s2.len() - 1].1 == end.1);
                    assert(s2[s2.len() - 1] == end);
                    assert(g0 <= s2.len() - 1);
                }
            }
            let cost: u32 = (rev.len() - 1) as u32;
            return Some((cost, rev));
        }
        let ci = pt_index(maze, point);
        let e = table[ci];
        let g_cur: u32 = match e {
            Some(pr) => pr.1,
            None => 0,
        };
        if g_pop <= g_cur {
            // Not superseded since it was queued: expand.
            proof {
                assert(entry_ok(table@, m, start, point));
                lemma_count_some_le_len(table@);
                // every other pending cell keeps a queued node after the pop
                assert forall|p: Point|
                    m.in_grid(p) && p != point && (#[trigger] entry(table@, m, p)) is
                    Some implies has_matching_node(open@, table@, m, p) || expanded(
                    table@,
                    m,
                    p,
                ) by {
                    if has_matching_node(open0, table@, m, p) {
                        let j = choose|j: int|
                            0 <= j < open0.len() && open0[j].point == p && open0[j].g_cost as int
                                == e_g(table@, m, p);
                        if j < i0 {
                            assert(open@[j] == open0[j]);
                        } else {
                            assert(j > i0);
                            assert(open@[j - 1] == open0[j]);
                        }
                        assert(has_matching_node(open@, table@, m, p));
                    }
                }
                if entry(table@, m, end) is Some {
                    let j2 = choose|j: int| 0 <= j < open0.len() && open0[j].point == end;
                    assert(open0[j2].point == end);
                    if j2 < i0 {
                        assert(open@[j2] == open0[j2]);
                    } else {
                        assert(j2 > i0);
                        assert(open@[j2 - 1] == open0[j2]);
                    }
                }
            }
            let neighs = point.neighbours(maze);
            proof {
                crate::lemma_neighbours_props(m, point);
            }
            let g_new = g_cur + 1;
            let mut k: usize = 0;
            while k < neighs.len()
                invariant
                    table@.len() == w * h,
                    table_wf(table@, m, start),
                    open_wf(open@, table@, m, end),
                    entry(table@, m, start) is Some,
                    e_g(table@, m, start) == 0,
                    entry(table@, m, point) is Some,
                    e_g(table@, m, point) == g_cur,
                    g_new == g_cur + 1,
                    g_new <= w * h,
                    potential(table@, cap) < pot0 || (potential(table@, cap) == pot0 && open@.len()
                        == len0 - 1),
                    point != end,
                    forall|p: Point|
                        m.in_grid(p) && p != point && (#[trigger] entry(table@, m, p)) is Some
                            ==> has_matching_node(open@, table@, m, p) || expanded(table@, m, p),
                    forall|j: int|
                        0 <= j < k ==> (#[trigger] entry(table@, m, neighs@[j])) is Some && e_g(
                            table@,
                            m,
                            neighs@[j],
                        ) <= g_new,
                    end_pending(open@, table@, m, end),
                decreases neighs@.len() - k,
            {
                let nb = neighs[k];
                let ni = pt_index(maze, nb);
                let e2 = table[ni];
                let do_update: bool = match e2 {
                    None => true,
                    Some(pr) => pr.1 > g_new,
                };
                if do_update {
                    let ghost t0 = table@;
                    proof {
                        assert(entry_ok(table@, m, start, point));
                        lemma_entry_update(table@, m, nb, Some((point, g_new)));
                        lemma_count_some_update(table@, pidx(m, nb), Some((point, g_new)));
                        lemma_potential_update(table@, cap, pidx(m, nb), Some((point, g_new)));
                        lemma_count_some_le_len(table@);
                        if table@[pidx(m, nb)] is None {
                            lemma_count_some_lt_len_if_none(table@, pidx(m, nb));
                        }
                        assert(weight(Some((point, g_new)), cap) < weight(
                            table@[pidx(m, nb)],
                            cap,
                        ));
                    }
                    table[ni] = Some((point, g_new));
                    proof {
                        assert(point != nb);
                        assert(entry(table@, m, point) == entry(t0, m, point));
                        assert forall|p: Point| m.in_grid(p) implies #[trigger] entry_ok(
                            table@,
                            m,
                            start,
                            p,
                        ) by {
                            assert(entry_ok(t0, m, start, p));
                            if p == nb {
                                assert(entry_ok(t0, m, start, point));
                            } else {
                                match entry(t0, m, p) {
                                    None => {},
                                    Some(pr) => {
                                        if pr.1 > 0 && pr.0 == nb {
                                            assert(entry_ok(t0, m, start, nb));
                                        }
                                    },
                                }
                            }
                        }
                        assert(table_wf(table@, m, start));
                    }
                    proof {
                        lemma_manhattan_in_grid(m, nb, end);
                    }
                    let ghost open_b = open@;
                    let hv = heuristic(nb, end);
                    open.push(AStarNode { f_cost: g_new as u64 + hv as u64, point: nb, g_cost: g_new });
                    proof {
                        assert(open@[open@.len() - 1].point == nb);
                        assert(open@[open@.len() - 1].g_cost as int == e_g(table@, m, nb));
                        assert forall|p: Point|
                            m.in_grid(p) && p != point && (#[trigger] entry(table@, m, p)) is
                            Some implies has_matching_node(open@, table@, m, p) || expanded(
                            table@,
                            m,
                            p,
                        ) by {
                            if p == nb {
                                assert(has_matching_node(open@, table@, m, p));
                            } else {
                                assert(entry(table@, m, p) == entry(t0, m, p));
                                assert(e_g(table@, m, p) == e_g(t0, m, p));
                                if has_matching_node(open_b, t0, m, p) {
                                    let j = choose|j: int|
                                        0 <= j < open_b.len() && open_b[j].point == p && open_b[
                                            j
                                        ].g_cost as int == e_g(t0, m, p);
                                    assert(open@[j] == open_b[j]);
                                    assert(has_matching_node(open@, table@, m, p));
                                } else if expanded(t0, m, p) {
                                    assert forall|q: Point|
                                        m.in_grid(q) && m.walkable(q.0 as int, q.1 as int)
                                            && adjacent(p, q) implies (#[trigger] entry(
                                        table@,
                                        m,
                                        q,
                                    )) is Some && e_g(table@, m, q) <= e_g(table@, m, p)
                                        + 1 by {
                                        if q != nb {
                                            assert(entry(table@, m, q) == entry(t0, m, q));
                                        }
                                        assert(entry(table@, m, p) == entry(t0, m, p));
                                    }
                                    assert(expanded(table@, m, p));
                                }
                            }
                        }
                        assert forall|j: int|
                            0 <= j < k implies (#[trigger] entry(table@, m, neighs@[j])) is Some
                            && e_g(table@, m, neighs@[j]) <= g_new by {
                            if neighs@[j] != nb {
                                assert(entry(table@, m, neighs@[j]) == entry(t0, m, neighs@[j]));
                            }
                        }
                        if entry(table@, m, end) is Some {
                            if end == nb {
                                assert(open@[open@.len() - 1].point == end);
                            } else {
                                assert(entry(t0, m, end) is Some);
                                let j = choose|j: int|
                                    0 <= j < open_b.len() && open_b[j].point == end;
                                assert(open@[j] == open_b[j]);
                            }
                        }
                    }
                }
                proof {
                    assert(entry(table@, m, nb) is Some && e_g(table@, m, nb) <= g_new);
                }
                k = k + 1;
            }
            proof {
                // the popped cell is now fully expanded
                assert forall|q: Point|
                    m.in_grid(q) && m.walkable(q.0 as int, q.1 as int) && adjacent(
                    point,
                    q,
                ) implies (#[trigger] entry(table@, m, q)) is Some && e_g(table@, m, q) <= e_g(
                    table@,
                    m,
                    point,
                ) + 1 by {
                    lemma_adjacent_walkable_in_neighbours(m, point, q);
                    let j = choose|j: int| 0 <= j < neighs@.len() && neighs@[j] == q;
                    assert(entry(table@, m, neighs@[j]) is Some && e_g(table@, m, neighs@[j])
                        <= g_new);
                }
                assert(expanded(table@, m, point));
            }
        } else {
            // The popped node is stale: a better g-cost was recorded after it
            // was queued, so a matching node is still waiting in the queue.
            proof {
                assert forall|p: Point|
                    m.in_grid(p) && (#[trigger] entry(table@, m, p)) is Some implies
                    has_matching_node(open@, table@, m, p) || expanded(table@, m, p) by {
                    if has_matching_node(open0, table@, m, p) {
                        let j = choose|j: int|
                            0 <= j < open0.len() && open0[j].point == p && open0[j].g_cost as int
                                == e_g(table@, m, p);
                        if j == i0 {
                            assert(node.point == p && p == point);
                            assert(false);
                        } else if j < i0 {
                            assert(open@[j] == open0[j]);
                        } else {
                            assert(open@[j - 1] == open0[j]);
                        }
                        assert(has_matching_node(open@, table@, m, p));
                    }
                }
                if entry(table@, m, end) is Some {
                    let j2 = choose|j: int| 0 <= j < open0.len() && open0[j].point == end;
                    assert(open0[j2].point == end);
                    assert(j2 != i0);
                    if j2 < i0 {
                        assert(open@[j2] == open0[j2]);
                    } else {
                        assert(open@[j2 - 1] == open0[j2]);
                    }
                }
            }
        }
    }
    proof {
        // An empty queue leaves no pending cell, so the reached region is
        // closed under walkable adjacency and the exit was never reached.
        assert(entry(table@, m, end) is None);
        assert forall|a: Point, b: Point|
            maze.is_entrance(a) && maze.is_exit(b) implies !connected(m, a, b) by {
            assert(a.0 == start.0 && a.1 == start.1);
            assert(a == start);
            assert(b.0 == end.0 && b.1 == end.1);
            assert(b == end);
            if connected(m, a, b) {
                let s = choose|s: Seq<Point>| is_path(m, s) && s[0] == a && s[s.len() - 1] == b;
                assert forall|p: Point|
                    m.in_grid(p) && (#[trigger] entry(table@, m, p)) is Some implies expanded(
                    table@,
                    m,
                    p,
                ) by {}
                lemma_closed_table_blocks(table@, m, s);
                assert(false);
            }
        }
    }
    // The frontier is exhausted without popping the exit: no route exists.
    None
}

/// Manhattan distance between two in-grid points fits comfortably in `Unit`.
proof fn lemma_manhattan_in_grid(m: Maze, p: Point, q: Point)
    requires
        m.wf(),
        m.in_grid(p),
        m.in_grid(q),
    ensures
        0 <= spec_manhattan(p, q) <= u32::MAX,
{
    let w = m.img.width as int;
    let h = m.img.height as int;
    assert(w + h <= w * h + 1) by (nonlinear_arith)
        requires
            w >= 1,
            h >= 1,
    ;
}

/// A route's edge count is at least the Manhattan distance between its
/// endpoints: each unit step shrinks the remaining distance by at most one.
pub proof fn lemma_path_manhattan_bound(m: Maze, s: Seq<Point>)
    requires
        is_path(m, s),
    ensures
        spec_manhattan(s[0], s[s.len() - 1]) <= s.len() - 1,
    decreases s.len(),
{
    if s.len() > 1 {
        let t = s.subrange(1, s.len() as int);
        assert forall|i: int|
            0 <= i < t.len() implies m.walkable((#[trigger] t[i]).0 as int, t[i].1 as int) by {
            assert(t[i] == s[i + 1]);
        }
        assert forall|i: int| 0 <= i < t.len() - 1 implies adjacent(#[trigger] t[i], t[i + 1]) by {
            assert(t[i] == s[i + 1] && t[i + 1] == s[i + 2]);
        }
        lemma_path_manhattan_bound(m, t);
        assert(spec_manhattan(s[0], s[s.len() - 1]) <= 1 + spec_manhattan(s[1], s[s.len() - 1]));
    }
}

/// The parity of a route's edge count equals the parity of the Manhattan
/// distance between its endpoints: every unit step flips the parity of the
/// remaining distance.
pub proof fn lemma_path_parity(m: Maze, s: Seq<Point>)
    requires
        is_path(m, s),
    ensures
        (s.len() - 1) % 2 == spec_manhattan(s[0], s[s.len() - 1]) % 2,
    decreases s.len(),
{
    if s.len() > 1 {
        let t = s.subrange(1, s.len() as int);
        assert forall|i: int|
            0 <= i < t.len() implies m.walkable((#[trigger] t[i]).0 as int, t[i].1 as int) by {
            assert(t[i] == s[i + 1]);
        }
        assert forall|i: int| 0 <= i < t.len() - 1 implies adjacent(#[trigger] t[i], t[i + 1]) by {
            assert(t[i] == s[i + 1] && t[i + 1] == s[i + 2]);
        }
        lemma_path_parity(m, t);
        lemma_manhattan_parity_step(s[0], s[1], s[s.len() - 1]);
        lemma_parity_succ(spec_manhattan(s[1], s[s.len() - 1]), s.len() - 2);
    }
}

/// One unit step changes the Manhattan distance to a fixed target by exactly
/// one, so its parity flips.
proof fn lemma_manhattan_parity_step(a: Point, b: Point, c: Point)
    requires
        adjacent(a, b),
    ensures
        spec_manhattan(a, c) % 2 == (1 + spec_manhattan(b, c)) % 2,
{
    let ma = spec_manhattan(a, c);
    let mb = spec_manhattan(b, c);
    assert(ma == mb + 1 || ma == mb - 1);
    if ma == mb - 1 {
        vstd::arithmetic::div_mod::lemma_mod_multiples_vanish(1, mb - 1, 2);
    }
}

/// Congruent values stay congruent after adding one.
proof fn lemma_parity_succ(u: int, v: int)
    requires
        u % 2 == v % 2,
    ensures
        (1 + u) % 2 == (1 + v) % 2,
{
    vstd::arithmetic::div_mod::lemma_add_mod_noop(1, u, 2);
    vstd::arithmetic::div_mod::lemma_add_mod_noop(1, v, 2);
}

} // verus!
