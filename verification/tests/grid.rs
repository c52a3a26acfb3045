use maze_game::cell::{Cell, Wall};
use maze_game::maze::Maze;
use maze_game::position::{Direction, Position};

fn pos(r: usize, c: usize) -> Position {
    Position { r, c }
}

fn walled() -> Cell {
    Cell { left: Wall::Yes, right: Wall::Yes, up: Wall::Yes, down: Wall::Yes, clicked: false }
}

#[test]
fn closed_cell_has_every_wall() {
    assert_eq!(Cell::closed(), walled());
}

#[test]
fn wall_reads_the_side_that_is_asked_for() {
    let cell = Cell { left: Wall::No, right: Wall::Yes, up: Wall::Yes, down: Wall::No, clicked: true };
    assert_eq!(cell.wall(Direction::Left), Wall::No);
    assert_eq!(cell.wall(Direction::Right), Wall::Yes);
    assert_eq!(cell.wall(Direction::Up), Wall::Yes);
    assert_eq!(cell.wall(Direction::Down), Wall::No);
}

#[test]
fn remove_wall_changes_one_side_only() {
    let mut cell = Cell { clicked: true, ..walled() };
    cell.remove_wall(Direction::Up);
    assert_eq!(
        cell,
        Cell { left: Wall::Yes, right: Wall::Yes, up: Wall::No, down: Wall::Yes, clicked: true }
    );
    cell.remove_wall(Direction::Right);
    assert_eq!(
        cell,
        Cell { left: Wall::Yes, right: Wall::No, up: Wall::No, down: Wall::Yes, clicked: true }
    );
    cell.remove_wall(Direction::Right);
    assert_eq!(cell.right, Wall::No);
}

#[test]
fn new_maze_is_closed_off() {
    let maze = Maze::new(3, 4);
    assert_eq!(maze.m, 3);
    assert_eq!(maze.n, 4);
    assert_eq!(maze.cells.len(), 12);
    for cell in &maze.cells {
        assert_eq!(*cell, walled());
    }
}

#[test]
fn smallest_maze_has_one_cell() {
    let maze = Maze::new(1, 1);
    assert_eq!(maze.cells, vec![walled()]);
}

#[test]
fn positions_inside_and_outside() {
    let maze = Maze::new(3, 4);
    assert!(maze.is_position_valid(pos(0, 0)));
    assert!(maze.is_position_valid(pos(2, 3)));
    assert!(!maze.is_position_valid(pos(3, 0)));
    assert!(!maze.is_position_valid(pos(0, 4)));
    assert!(!maze.is_position_valid(pos(3, 4)));
    assert!(!maze.is_position_valid(pos(usize::MAX, 0)));
}

#[test]
fn cells_are_stored_row_by_row() {
    let maze = Maze::new(3, 5);
    assert_eq!(maze.index(pos(0, 0)), 0);
    assert_eq!(maze.index(pos(0, 4)), 4);
    assert_eq!(maze.index(pos(1, 0)), 5);
    assert_eq!(maze.index(pos(2, 3)), 13);
    assert_eq!(maze.index(pos(2, 4)), 14);
}

#[test]
fn cell_reads_the_cell_at_a_position() {
    let mut maze = Maze::new(2, 3);
    maze.cells[4].clicked = true;
    assert!(maze.cell(pos(1, 1)).clicked);
    assert!(!maze.cell(pos(1, 0)).clicked);
}

#[test]
fn open_passage_takes_the_wall_away_on_both_sides() {
    let mut maze = Maze::new(2, 2);
    let q = maze.open_passage(pos(0, 0), Direction::Right);
    assert_eq!(q, pos(0, 1));
    assert_eq!(maze.cells[0], Cell { right: Wall::No, ..walled() });
    assert_eq!(maze.cells[1], Cell { left: Wall::No, ..walled() });
    assert_eq!(maze.cells[2], walled());
    assert_eq!(maze.cells[3], walled());

    let q = maze.open_passage(pos(1, 1), Direction::Up);
    assert_eq!(q, pos(0, 1));
    assert_eq!(maze.cells[1], Cell { left: Wall::No, down: Wall::No, ..walled() });
    assert_eq!(maze.cells[3], Cell { up: Wall::No, ..walled() });
}

#[test]
fn is_open_wants_the_wall_gone_on_both_sides() {
    let mut maze = Maze::new(2, 2);
    assert!(!maze.is_open(pos(0, 0), Direction::Right));
    maze.cells[0].right = Wall::No;
    assert!(!maze.is_open(pos(0, 0), Direction::Right));
    maze.cells[1].left = Wall::No;
    assert!(maze.is_open(pos(0, 0), Direction::Right));
    assert!(maze.is_open(pos(0, 1), Direction::Left));
    assert!(!maze.is_open(pos(0, 0), Direction::Down));
}

#[test]
fn is_open_never_leads_out_of_the_maze() {
    let mut maze = Maze::new(1, 1);
    maze.cells[0] = Cell { left: Wall::No, right: Wall::No, up: Wall::No, down: Wall::No, clicked: false };
    assert!(!maze.is_open(pos(0, 0), Direction::Up));
    assert!(!maze.is_open(pos(0, 0), Direction::Down));
    assert!(!maze.is_open(pos(0, 0), Direction::Left));
    assert!(!maze.is_open(pos(0, 0), Direction::Right));
}

#[test]
fn reset_puts_every_wall_back() {
    let mut maze = Maze::new(4, 3);
    maze.cut_up_maze(5);
    maze.cells[7].clicked = true;
    maze.reset_maze();
    assert_eq!(maze, Maze::new(4, 3));
    for cell in &maze.cells {
        assert_eq!(*cell, walled());
    }
}

#[test]
fn reset_keeps_the_size() {
    let mut maze = Maze::new(2, 5);
    maze.reset_maze();
    assert_eq!((maze.m, maze.n, maze.cells.len()), (2, 5, 10));
}
