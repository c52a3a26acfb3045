use maze_game::position::{Direction, Position};

const ALL: [Direction; 4] = [Direction::Up, Direction::Down, Direction::Left, Direction::Right];

#[test]
fn up_lowers_the_row() {
    let p = Position { r: 3, c: 5 };
    assert_eq!(p.apply_move(Direction::Up), Some(Position { r: 2, c: 5 }));
}

#[test]
fn down_raises_the_row() {
    let p = Position { r: 3, c: 5 };
    assert_eq!(p.apply_move(Direction::Down), Some(Position { r: 4, c: 5 }));
}

#[test]
fn left_lowers_the_column() {
    let p = Position { r: 3, c: 5 };
    assert_eq!(p.apply_move(Direction::Left), Some(Position { r: 3, c: 4 }));
}

#[test]
fn right_raises_the_column() {
    let p = Position { r: 3, c: 5 };
    assert_eq!(p.apply_move(Direction::Right), Some(Position { r: 3, c: 6 }));
}

#[test]
fn no_step_below_zero() {
    let corner = Position { r: 0, c: 0 };
    assert_eq!(corner.apply_move(Direction::Up), None);
    assert_eq!(corner.apply_move(Direction::Left), None);
    assert_eq!(Position { r: 0, c: 7 }.apply_move(Direction::Up), None);
    assert_eq!(Position { r: 7, c: 0 }.apply_move(Direction::Left), None);
}

#[test]
fn no_step_above_the_largest_coordinate() {
    let far = Position { r: usize::MAX, c: usize::MAX };
    assert_eq!(far.apply_move(Direction::Down), None);
    assert_eq!(far.apply_move(Direction::Right), None);
    assert_eq!(
        far.apply_move(Direction::Up),
        Some(Position { r: usize::MAX - 1, c: usize::MAX })
    );
    assert_eq!(
        far.apply_move(Direction::Left),
        Some(Position { r: usize::MAX, c: usize::MAX - 1 })
    );
}

#[test]
fn a_move_does_not_look_at_any_grid() {
    let p = Position { r: 1_000_000, c: 2_000_000 };
    assert_eq!(
        p.apply_move(Direction::Down),
        Some(Position { r: 1_000_001, c: 2_000_000 })
    );
}

#[test]
fn opposite_directions() {
    assert_eq!(Direction::Up.opposite(), Direction::Down);
    assert_eq!(Direction::Down.opposite(), Direction::Up);
    assert_eq!(Direction::Left.opposite(), Direction::Right);
    assert_eq!(Direction::Right.opposite(), Direction::Left);
    for dir in ALL {
        assert_eq!(dir.opposite().opposite(), dir);
    }
}

#[test]
fn the_opposite_move_leads_back() {
    for r in 0..4 {
        for c in 0..4 {
            let p = Position { r, c };
            for dir in ALL {
                if let Some(q) = p.apply_move(dir) {
                    assert_ne!(q, p);
                    assert_eq!(q.apply_move(dir.opposite()), Some(p));
                }
            }
        }
    }
}

#[test]
fn a_move_leaves_its_argument_alone() {
    let p = Position { r: 2, c: 2 };
    let _ = p.apply_move(Direction::Up);
    assert_eq!(p, Position { r: 2, c: 2 });
}
