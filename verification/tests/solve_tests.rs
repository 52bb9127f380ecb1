use std::collections::VecDeque;

use mazes::a_star::{heuristic, solve};
use mazes::buffer::GrayBuffer;
use mazes::{Maze, Point};

fn buffer_from_rows(rows: &[&[u8]]) -> GrayBuffer {
    let height = rows.len() as u32;
    let width = rows[0].len() as u32;
    let mut pixels = Vec::new();
    for row in rows {
        assert_eq!(row.len() as u32, width);
        pixels.extend_from_slice(row);
    }
    GrayBuffer { width, height, pixels }
}

/// Exhaustive breadth-first search: the true shortest path length from the
/// entrance to the exit, or `None` if unreachable.
fn bfs_distance(maze: &Maze) -> Option<u32> {
    let (w, h) = maze.dimensions();
    let start = maze.get_entrance();
    let goal = maze.get_exit();
    let mut dist = vec![None::<u32>; (w as usize) * (h as usize)];
    let idx = |p: Point| (p.1 as usize) * (w as usize) + (p.0 as usize);
    dist[idx(start)] = Some(0);
    let mut queue = VecDeque::new();
    queue.push_back(start);
    while let Some(p) = queue.pop_front() {
        let d = dist[idx(p)].unwrap();
        if p == goal {
            return Some(d);
        }
        for q in p.neighbours(maze) {
            if dist[idx(q)].is_none() {
                dist[idx(q)] = Some(d + 1);
                queue.push_back(q);
            }
        }
    }
    None
}

#[test]
fn heuristic_is_manhattan_distance() {
    assert_eq!(heuristic(Point(2, 3), Point(7, 1)), 7);
    assert_eq!(heuristic(Point(7, 1), Point(2, 3)), 7);
    assert_eq!(heuristic(Point(4, 4), Point(4, 4)), 0);
}

#[test]
fn solves_straight_corridor() {
    let img = buffer_from_rows(&[
        &[0, 255, 0],
        &[0, 255, 0],
        &[0, 255, 0],
    ]);
    let maze = Maze::new(img).unwrap();
    let (cost, path) = solve(&maze).unwrap();
    assert_eq!(cost, 2);
    assert_eq!(path, vec![Point(1, 0), Point(1, 1), Point(1, 2)]);
}

#[test]
fn optimal_on_grid_with_blocking_wall() {
    // A 5x5 room with one blocking wall: the returned cost must equal the
    // true shortest path length found by exhaustive breadth-first search.
    let img = buffer_from_rows(&[
        &[0, 255, 0, 0, 0],
        &[255, 255, 255, 255, 255],
        &[0, 0, 0, 0, 255],
        &[255, 255, 255, 255, 255],
        &[0, 0, 0, 255, 0],
    ]);
    let maze = Maze::new(img).unwrap();
    let (cost, path) = solve(&maze).unwrap();
    assert_eq!(Some(cost), bfs_distance(&maze));
    assert_eq!(cost, 8);
    assert_eq!(path.len() as u32, cost + 1);
    assert_eq!(path[0], maze.get_entrance());
    assert_eq!(*path.last().unwrap(), maze.get_exit());
}

#[test]
fn disconnected_regions_return_none() {
    // No-path case: entrance and exit lie in disconnected regions.
    let img = buffer_from_rows(&[
        &[0, 255, 0],
        &[255, 255, 0],
        &[0, 0, 0],
        &[0, 255, 255],
        &[0, 0, 255],
    ]);
    let maze = Maze::new(img).unwrap();
    assert_eq!(solve(&maze), None);
    assert_eq!(bfs_distance(&maze), None);
}

#[test]
fn entrance_equal_to_exit_is_trivial() {
    // A one-row grid: the sole walkable pixel is both entrance and exit.
    let img = buffer_from_rows(&[&[0, 255, 0]]);
    let maze = Maze::new(img).unwrap();
    let (cost, path) = solve(&maze).unwrap();
    assert_eq!(cost, 0);
    assert_eq!(path, vec![Point(1, 0)]);
}

#[test]
fn returned_path_is_walkable_and_adjacent() {
    let img = buffer_from_rows(&[
        &[0, 0, 0, 255, 0],
        &[0, 255, 255, 255, 0],
        &[0, 255, 0, 255, 0],
        &[0, 255, 255, 255, 0],
        &[0, 255, 0, 0, 0],
    ]);
    let maze = Maze::new(img).unwrap();
    let (cost, path) = solve(&maze).unwrap();
    assert_eq!(cost as usize, path.len() - 1);
    for p in &path {
        assert!(maze.is_walkable(*p));
    }
    for pair in path.windows(2) {
        let dx = pair[0].0.abs_diff(pair[1].0);
        let dy = pair[0].1.abs_diff(pair[1].1);
        assert_eq!(dx + dy, 1);
    }
}
