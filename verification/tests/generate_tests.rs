use std::collections::VecDeque;

use mazes::a_star::solve;
use mazes::buffer::GrayBuffer;
use mazes::generate::{backtrack, primms, Direction, MazeRng};
use mazes::{Maze, Point};

fn count_walkable_in_row(img: &GrayBuffer, y: u32) -> u32 {
    (0..img.width).filter(|&x| img.get_pixel(x, y) >= 127).count() as u32
}

/// Flood fill over walkable pixels starting from the entrance pixel; returns
/// how many walkable pixels are reachable.
fn reachable_from_entrance(img: &GrayBuffer) -> u32 {
    let (w, h) = (img.width, img.height);
    let start_x = (0..w).find(|&x| img.get_pixel(x, 0) >= 127).unwrap();
    let mut seen = vec![false; (w as usize) * (h as usize)];
    let idx = |x: u32, y: u32| (y as usize) * (w as usize) + (x as usize);
    let mut queue = VecDeque::new();
    seen[idx(start_x, 0)] = true;
    queue.push_back((start_x, 0u32));
    let mut count = 0u32;
    while let Some((x, y)) = queue.pop_front() {
        count += 1;
        let mut cands = Vec::new();
        if x + 1 < w {
            cands.push((x + 1, y));
        }
        if y + 1 < h {
            cands.push((x, y + 1));
        }
        if x > 0 {
            cands.push((x - 1, y));
        }
        if y > 0 {
            cands.push((x, y - 1));
        }
        for (a, b) in cands {
            if img.get_pixel(a, b) >= 127 && !seen[idx(a, b)] {
                seen[idx(a, b)] = true;
                queue.push_back((a, b));
            }
        }
    }
    count
}

fn total_walkable(img: &GrayBuffer) -> u32 {
    img.pixels.iter().filter(|&&p| p >= 127).count() as u32
}

/// Walkable pixels at odd/odd coordinates: the logical cells.
fn cell_pixels(img: &GrayBuffer) -> u32 {
    let mut n = 0;
    for y in 0..img.height {
        for x in 0..img.width {
            if x % 2 == 1 && y % 2 == 1 && img.get_pixel(x, y) >= 127 {
                n += 1;
            }
        }
    }
    n
}

/// Walkable pixels strictly inside the image with exactly one even
/// coordinate: the carved walls.
fn carved_walls(img: &GrayBuffer) -> u32 {
    let mut n = 0;
    for y in 1..img.height - 1 {
        for x in 1..img.width - 1 {
            if (x % 2) + (y % 2) == 1 && img.get_pixel(x, y) >= 127 {
                n += 1;
            }
        }
    }
    n
}

#[test]
fn backtrack_dimensions_and_intensities() {
    let mut rng = MazeRng::from_seed(7);
    let img = backtrack(6, 4, &mut rng);
    assert_eq!((img.width, img.height), (13, 9));
    for &p in &img.pixels {
        assert!(p == 0 || p == 255);
    }
}

#[test]
fn primms_dimensions_and_intensities() {
    let mut rng = MazeRng::from_seed(7);
    let img = primms(6, 4, &mut rng);
    assert_eq!((img.width, img.height), (13, 9));
    for &p in &img.pixels {
        assert!(p == 0 || p == 255);
    }
}

#[test]
fn generated_mazes_have_unique_entrance_and_exit() {
    // Exactly one passable pixel in row 0 and exactly one in the last row,
    // for every generated maze.
    for seed in 0..10u64 {
        let mut rng = MazeRng::from_seed(seed);
        let b = backtrack(5, 5, &mut rng);
        assert_eq!(count_walkable_in_row(&b, 0), 1);
        assert_eq!(count_walkable_in_row(&b, b.height - 1), 1);
        let mut rng = MazeRng::from_seed(seed);
        let p = primms(5, 5, &mut rng);
        assert_eq!(count_walkable_in_row(&p, 0), 1);
        assert_eq!(count_walkable_in_row(&p, p.height - 1), 1);
    }
}

#[test]
fn generated_mazes_are_connected() {
    // Every passable pixel is reachable from the entrance.
    for seed in 0..5u64 {
        let mut rng = MazeRng::from_seed(seed);
        let b = backtrack(7, 6, &mut rng);
        assert_eq!(reachable_from_entrance(&b), total_walkable(&b));
        let mut rng = MazeRng::from_seed(seed);
        let p = primms(7, 6, &mut rng);
        assert_eq!(reachable_from_entrance(&p), total_walkable(&p));
    }
}

#[test]
fn generated_mazes_are_acyclic() {
    // A perfect maze spans all logical cells and carves exactly
    // (number of cells - 1) walls.
    for seed in 0..5u64 {
        let mut rng = MazeRng::from_seed(seed);
        let b = backtrack(7, 6, &mut rng);
        assert_eq!(cell_pixels(&b), 7 * 6);
        assert_eq!(carved_walls(&b) + 1, cell_pixels(&b));
        let mut rng = MazeRng::from_seed(seed);
        let p = primms(7, 6, &mut rng);
        assert_eq!(cell_pixels(&p), 7 * 6);
        assert_eq!(carved_walls(&p) + 1, cell_pixels(&p));
    }
}

#[test]
fn generators_are_deterministic_given_seed() {
    // Identical seeds replay identical draws, so the output images are
    // byte-identical.
    let mut rng1 = MazeRng::from_seed(12345);
    let mut rng2 = MazeRng::from_seed(12345);
    let a = backtrack(9, 9, &mut rng1);
    let b = backtrack(9, 9, &mut rng2);
    assert_eq!(a.pixels, b.pixels);
    let mut rng1 = MazeRng::from_seed(54321);
    let mut rng2 = MazeRng::from_seed(54321);
    let a = primms(9, 9, &mut rng1);
    let b = primms(9, 9, &mut rng2);
    assert_eq!(a.pixels, b.pixels);
    let mut rng3 = MazeRng::from_seed(54322);
    let c = primms(9, 9, &mut rng3);
    assert_ne!(c.pixels, a.pixels);
}

#[test]
fn prim_round_trip() {
    // Generate a 10x10 maze with Prim's algorithm, solve it, and check the
    // returned route in full.
    let mut rng = MazeRng::from_seed(2024);
    let img = primms(10, 10, &mut rng);
    let maze = Maze::new(img).unwrap();
    let entrance = maze.get_entrance();
    let exit = maze.get_exit();
    let (cost, path) = solve(&maze).expect("a perfect maze always has a solution");
    assert_eq!(cost as usize, path.len() - 1);
    assert_eq!(path[0], entrance);
    assert_eq!(*path.last().unwrap(), exit);
    // Path length parity is consistent with the Manhattan-distance parity of
    // the endpoints.
    let manhattan = entrance.0.abs_diff(exit.0) + entrance.1.abs_diff(exit.1);
    assert_eq!(cost % 2, manhattan % 2);
    for pair in path.windows(2) {
        assert!(maze.is_walkable(pair[0]));
        assert!(maze.is_walkable(pair[1]));
        let dx = pair[0].0.abs_diff(pair[1].0);
        let dy = pair[0].1.abs_diff(pair[1].1);
        assert_eq!(dx + dy, 1);
    }
}

#[test]
fn backtrack_round_trip() {
    let mut rng = MazeRng::from_seed(99);
    let img = backtrack(10, 10, &mut rng);
    let maze = Maze::new(img).unwrap();
    let (cost, path) = solve(&maze).expect("a perfect maze always has a solution");
    assert_eq!(cost as usize, path.len() - 1);
}

#[test]
fn direction_coordinate_helpers() {
    let dims = (5u32, 4u32);
    assert_eq!(Direction::Right.neighbour(Point(2, 1), dims), Some(Point(3, 1)));
    assert_eq!(Direction::Right.neighbour(Point(4, 1), dims), None);
    assert_eq!(Direction::Down.neighbour(Point(2, 3), dims), None);
    assert_eq!(Direction::Up.neighbour(Point(2, 0), dims), None);
    assert_eq!(Direction::Up.neighbour(Point(2, 2), dims), Some(Point(2, 1)));
    assert_eq!(Direction::Left.neighbour(Point(0, 1), dims), None);
    assert_eq!(Direction::Left.neighbour(Point(3, 1), dims), Some(Point(2, 1)));

    // Cell (2, 1) sits at pixel (5, 3); its right-hand neighbour cell is at
    // (7, 3) and the wall between them at (6, 3).
    assert_eq!(Direction::Right.cell(Point(2, 1), dims), Some((7, 3)));
    assert_eq!(Direction::Right.wall(Point(2, 1), dims), Some((6, 3)));
    assert_eq!(Direction::Down.cell(Point(2, 1), dims), Some((5, 5)));
    assert_eq!(Direction::Down.wall(Point(2, 1), dims), Some((5, 4)));
    assert_eq!(Direction::Up.cell(Point(2, 1), dims), Some((5, 1)));
    assert_eq!(Direction::Up.wall(Point(2, 1), dims), Some((5, 2)));
    assert_eq!(Direction::Left.cell(Point(2, 1), dims), Some((3, 3)));
    assert_eq!(Direction::Left.wall(Point(2, 1), dims), Some((4, 3)));
    assert_eq!(Direction::Up.cell(Point(2, 0), dims), None);
    assert_eq!(Direction::Left.cell(Point(0, 1), dims), None);
    assert_eq!(Direction::Right.cell(Point(5, 1), dims), None);
}

#[test]
fn random_dirs_is_a_permutation() {
    let mut rng = MazeRng::from_seed(31);
    for _ in 0..50 {
        let dirs = Direction::random_dirs(&mut rng);
        assert_eq!(dirs.len(), 4);
        let mut seen = [false; 4];
        for d in &dirs {
            let i = match d {
                Direction::Right => 0,
                Direction::Down => 1,
                Direction::Left => 2,
                Direction::Up => 3,
            };
            assert!(!seen[i]);
            seen[i] = true;
        }
    }
}

#[test]
fn generated_mazes_have_walled_sides_and_odd_openings() {
    // The side columns stay solid walls and the entrance and exit pixels
    // stand at odd columns.
    for seed in 0..5u64 {
        let mut rng = MazeRng::from_seed(seed);
        let b = backtrack(6, 5, &mut rng);
        let mut rng = MazeRng::from_seed(seed);
        let p = primms(6, 5, &mut rng);
        for img in [&b, &p] {
            for y in 0..img.height {
                assert!(img.get_pixel(0, y) < 127);
                assert!(img.get_pixel(img.width - 1, y) < 127);
            }
            let ex = (0..img.width).find(|&x| img.get_pixel(x, 0) >= 127).unwrap();
            let xx = (0..img.width)
                .find(|&x| img.get_pixel(x, img.height - 1) >= 127)
                .unwrap();
            assert_eq!(ex % 2, 1);
            assert_eq!(xx % 2, 1);
        }
    }
}

#[test]
fn generated_maze_validates() {
    let mut rng = MazeRng::from_seed(5);
    let img = backtrack(4, 4, &mut rng);
    assert!(Maze::new(img).is_ok());
    let mut rng = MazeRng::from_seed(5);
    let img = primms(4, 4, &mut rng);
    assert!(Maze::new(img).is_ok());
}
