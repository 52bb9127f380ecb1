use mazes::buffer::GrayBuffer;
use mazes::{walk, Maze, MazeCreationError, Point};

fn buffer_from_rows(rows: &[&[u8]]) -> GrayBuffer {
    let height = rows.len() as u32;
    let width = rows[0].len() as u32;
    let mut pixels = Vec::new();
    for row in rows {
        assert_eq!(row.len() as u32, width);
        pixels.extend_from_slice(row);
    }
    GrayBuffer { width, height, pixels }
}

#[test]
fn walk_threshold_boundary() {
    assert!(!walk(0));
    assert!(!walk(126));
    assert!(walk(127));
    assert!(walk(128));
    assert!(walk(255));
}

#[test]
fn build_valid_grid() {
    let img = buffer_from_rows(&[
        &[0, 255, 0],
        &[0, 255, 0],
        &[0, 0, 255],
    ]);
    let maze = Maze::new(img).unwrap();
    assert_eq!(maze.dimensions(), (3, 3));
    assert_eq!(maze.get_entrance(), Point(1, 0));
    assert_eq!(maze.get_exit(), Point(2, 2));
}

#[test]
fn two_entrances_rejected() {
    // Invariant-violation scenario: two passable cells in row 0 must fail
    // with the too-many-entrances error, not panic.
    let img = buffer_from_rows(&[
        &[255, 0, 255],
        &[0, 255, 0],
        &[0, 255, 0],
    ]);
    assert_eq!(Maze::new(img).err(), Some(MazeCreationError::TooManyEntrances));
}

#[test]
fn zero_entrances_rejected() {
    let img = buffer_from_rows(&[
        &[0, 0, 0],
        &[0, 255, 0],
        &[0, 255, 0],
    ]);
    assert_eq!(Maze::new(img).err(), Some(MazeCreationError::TooManyEntrances));
}

#[test]
fn two_exits_rejected() {
    let img = buffer_from_rows(&[
        &[0, 255, 0],
        &[0, 255, 0],
        &[255, 0, 255],
    ]);
    assert_eq!(Maze::new(img).err(), Some(MazeCreationError::TooManyExits));
}

#[test]
fn strict_builder_rejects_open_side() {
    let img = buffer_from_rows(&[
        &[0, 255, 0],
        &[255, 255, 0],
        &[0, 255, 0],
    ]);
    assert_eq!(Maze::new_strict(img).err(), Some(MazeCreationError::NotBounded));
}

#[test]
fn strict_builder_accepts_walled_sides() {
    let img = buffer_from_rows(&[
        &[0, 255, 0],
        &[0, 255, 0],
        &[0, 255, 0],
    ]);
    assert!(Maze::new_strict(img).is_ok());
}

#[test]
fn lenient_builder_accepts_open_side() {
    // The lenient variant does not require bounded walls.
    let img = buffer_from_rows(&[
        &[0, 255, 0],
        &[255, 255, 0],
        &[0, 255, 0],
    ]);
    assert!(Maze::new(img).is_ok());
}

#[test]
fn exit_scan_starts_at_right_edge() {
    // The exit column is found by scanning from the last column inward.
    let img = buffer_from_rows(&[
        &[0, 0, 0, 255, 0],
        &[0, 255, 255, 255, 0],
        &[0, 255, 0, 0, 0],
    ]);
    let maze = Maze::new(img).unwrap();
    assert_eq!(maze.get_exit(), Point(1, 2));
}

#[test]
fn out_of_bounds_reads_as_wall() {
    let img = buffer_from_rows(&[
        &[0, 255, 0],
        &[255, 255, 255],
        &[0, 255, 0],
    ]);
    let maze = Maze::new(img).unwrap();
    assert!(!maze.is_walkable(Point(3, 1)));
    assert!(!maze.is_walkable(Point(1, 3)));
    assert!(maze.is_walkable(Point(1, 1)));
    // Coordinate arithmetic that would underflow yields no neighbour.
    let corner = Point(0, 1);
    let n = corner.neighbours(&maze);
    assert_eq!(n, vec![Point(1, 1)]);
}

#[test]
fn neighbours_enumeration_order() {
    // Fixed enumeration order {+x, +y, -x, -y}.
    let img = buffer_from_rows(&[
        &[0, 255, 0],
        &[255, 255, 255],
        &[0, 255, 0],
    ]);
    let maze = Maze::new(img).unwrap();
    let n = Point(1, 1).neighbours(&maze);
    assert_eq!(n, vec![Point(2, 1), Point(1, 2), Point(0, 1), Point(1, 0)]);
}
