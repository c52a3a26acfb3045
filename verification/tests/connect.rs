use maze_game::cell::Wall;
use maze_game::maze::Maze;
use maze_game::position::{Direction, Position};

fn pos(r: usize, c: usize) -> Position {
    Position { r, c }
}

/// A three by three maze in which only the top row is open from end to end.
fn top_row_open() -> Maze {
    let mut maze = Maze::new(3, 3);
    maze.cells[0].right = Wall::No;
    maze.cells[1].left = Wall::No;
    maze.cells[1].right = Wall::No;
    maze.cells[2].left = Wall::No;
    maze
}

#[test]
fn a_cell_is_connected_to_itself() {
    let maze = Maze::new(3, 3);
    for r in 0..3 {
        for c in 0..3 {
            assert!(maze.is_connected(pos(r, c), pos(r, c), &vec![]));
        }
    }
    assert!(maze.is_connected(pos(1, 1), pos(1, 1), &vec![pos(0, 0)]));
    assert!(maze.is_connected(pos(9, 9), pos(9, 9), &vec![]));
}

#[test]
fn top_row_connects_its_ends() {
    let maze = top_row_open();
    let marked = vec![pos(0, 0), pos(0, 1), pos(0, 2)];
    assert!(maze.is_connected(pos(0, 0), pos(0, 2), &marked));
}

#[test]
fn a_missing_mark_in_the_middle_breaks_the_connection() {
    let maze = top_row_open();
    let marked = vec![pos(0, 0), pos(0, 2)];
    assert!(!maze.is_connected(pos(0, 0), pos(0, 2), &marked));
}

#[test]
fn the_start_need_not_be_marked() {
    let maze = top_row_open();
    let marked = vec![pos(0, 1), pos(0, 2)];
    assert!(maze.is_connected(pos(0, 0), pos(0, 2), &marked));
}

#[test]
fn the_goal_must_be_marked() {
    let maze = top_row_open();
    let marked = vec![pos(0, 0), pos(0, 1)];
    assert!(!maze.is_connected(pos(0, 0), pos(0, 2), &marked));
    assert!(maze.is_connected(pos(0, 0), pos(0, 1), &marked));
}

#[test]
fn nothing_marked_connects_nothing() {
    let maze = top_row_open();
    assert!(!maze.is_connected(pos(0, 0), pos(0, 1), &vec![]));
}

#[test]
fn walls_block_the_way() {
    let maze = top_row_open();
    let marked = vec![pos(0, 0), pos(0, 1), pos(0, 2), pos(1, 0), pos(1, 1), pos(1, 2)];
    assert!(!maze.is_connected(pos(0, 0), pos(1, 0), &marked));
    assert!(!maze.is_connected(pos(0, 0), pos(1, 2), &marked));
    assert!(maze.is_connected(pos(0, 2), pos(0, 0), &marked));
}

#[test]
fn a_wall_that_is_gone_on_one_side_only_still_blocks() {
    let mut maze = Maze::new(1, 2);
    let marked = vec![pos(0, 0), pos(0, 1)];
    maze.cells[0].right = Wall::No;
    assert!(!maze.is_connected(pos(0, 0), pos(0, 1), &marked));
    assert!(!maze.is_connected(pos(0, 1), pos(0, 0), &marked));
    maze.cells[1].left = Wall::No;
    assert!(maze.is_connected(pos(0, 0), pos(0, 1), &marked));
    assert!(maze.is_connected(pos(0, 1), pos(0, 0), &marked));
}

#[test]
fn connection_is_the_same_in_both_directions_between_marked_cells() {
    let mut maze = Maze::new(4, 4);
    maze.open_passage(pos(0, 0), Direction::Right);
    maze.open_passage(pos(0, 1), Direction::Down);
    maze.open_passage(pos(1, 1), Direction::Down);
    maze.open_passage(pos(2, 1), Direction::Right);
    maze.open_passage(pos(3, 3), Direction::Left);
    let marked = vec![pos(0, 0), pos(0, 1), pos(1, 1), pos(2, 2), pos(3, 3), pos(3, 2), pos(2, 1)];
    for a in &marked {
        for b in &marked {
            assert_eq!(
                maze.is_connected(*a, *b, &marked),
                maze.is_connected(*b, *a, &marked)
            );
        }
    }
    assert!(maze.is_connected(pos(0, 0), pos(2, 2), &marked));
    assert!(maze.is_connected(pos(2, 2), pos(0, 0), &marked));
    assert!(!maze.is_connected(pos(0, 0), pos(3, 3), &marked));
    assert!(maze.is_connected(pos(3, 3), pos(3, 2), &marked));
}

#[test]
fn an_unmarked_end_is_reached_from_but_does_not_reach_back() {
    let maze = top_row_open();
    let marked = vec![pos(0, 1), pos(0, 2)];
    assert!(maze.is_connected(pos(0, 0), pos(0, 2), &marked));
    assert!(!maze.is_connected(pos(0, 2), pos(0, 0), &marked));
}

#[test]
fn a_route_may_wind() {
    let mut maze = Maze::new(3, 3);
    // (0,0) down (1,0) down (2,0) right (2,1) right (2,2) up (1,2) up (0,2)
    maze.open_passage(pos(0, 0), Direction::Down);
    maze.open_passage(pos(1, 0), Direction::Down);
    maze.open_passage(pos(2, 0), Direction::Right);
    maze.open_passage(pos(2, 1), Direction::Right);
    maze.open_passage(pos(2, 2), Direction::Up);
    maze.open_passage(pos(1, 2), Direction::Up);
    let mut marked = vec![pos(1, 0), pos(2, 0), pos(2, 1), pos(2, 2), pos(1, 2), pos(0, 2)];
    assert!(maze.is_connected(pos(0, 0), pos(0, 2), &marked));
    marked.retain(|p| *p != pos(2, 1));
    assert!(!maze.is_connected(pos(0, 0), pos(0, 2), &marked));
    assert!(maze.is_connected(pos(0, 0), pos(2, 0), &marked));
}

#[test]
fn marks_outside_the_maze_are_ignored() {
    let maze = top_row_open();
    let marked = vec![pos(0, 3), pos(7, 7), pos(0, 1), pos(usize::MAX, 0), pos(0, 2), pos(0, 1)];
    assert!(maze.is_connected(pos(0, 0), pos(0, 2), &marked));
    assert!(!maze.is_connected(pos(0, 0), pos(0, 3), &marked));
}

#[test]
fn a_cell_outside_the_maze_is_connected_to_no_other_cell() {
    let maze = top_row_open();
    let marked = vec![pos(0, 0), pos(0, 1), pos(0, 2), pos(3, 0), pos(0, 3)];
    assert!(!maze.is_connected(pos(3, 0), pos(0, 0), &marked));
    assert!(!maze.is_connected(pos(0, 0), pos(3, 0), &marked));
    assert!(!maze.is_connected(pos(0, 3), pos(0, 2), &marked));
}

#[test]
fn the_search_changes_nothing() {
    let maze = top_row_open();
    let copy = maze.clone();
    let marked = vec![pos(0, 0), pos(0, 1), pos(0, 2)];
    let _ = maze.is_connected(pos(0, 0), pos(0, 2), &marked);
    assert_eq!(maze, copy);
    assert_eq!(marked, vec![pos(0, 0), pos(0, 1), pos(0, 2)]);
}

#[test]
fn mark_cells_sets_one_flag_per_named_cell() {
    let maze = Maze::new(2, 3);
    assert_eq!(maze.mark_cells(&vec![]), vec![false; 6]);
    assert_eq!(
        maze.mark_cells(&vec![pos(1, 2), pos(0, 1), pos(1, 2), pos(2, 0), pos(0, 3)]),
        vec![false, true, false, false, false, true]
    );
}

#[test]
fn the_marks_of_the_cells_play_no_part() {
    let mut maze = top_row_open();
    for cell in maze.cells.iter_mut() {
        cell.clicked = true;
    }
    assert!(!maze.is_connected(pos(0, 0), pos(0, 2), &vec![]));
}
