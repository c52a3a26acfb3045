use maze_game::game::{Game, GameStatus};

#[test]
fn a_game_begins_on_level_one_with_three_lives() {
    let game = Game::new();
    assert_eq!(game.level, 1);
    assert_eq!(game.lives, 3);
}

#[test]
fn a_loss_takes_a_life() {
    let mut game = Game::new();
    assert_eq!(game.apply_loss(), GameStatus::Alive);
    assert_eq!(game.lives, 2);
    assert_eq!(game.apply_loss(), GameStatus::Alive);
    assert_eq!(game.lives, 1);
    assert_eq!(game.level, 1);
}

#[test]
fn the_last_life_is_not_taken() {
    let mut game = Game { level: 4, lives: 1 };
    assert_eq!(game.apply_loss(), GameStatus::Dead);
    assert_eq!(game.lives, 1);
    assert_eq!(game.apply_loss(), GameStatus::Dead);
    assert_eq!(game.lives, 1);
    assert_eq!(game.level, 4);
}

#[test]
fn no_lives_is_dead() {
    let mut game = Game { level: 1, lives: 0 };
    assert_eq!(game.apply_loss(), GameStatus::Dead);
    assert_eq!(game.lives, 0);
}

#[test]
fn a_win_raises_the_level() {
    let mut game = Game::new();
    game.apply_win();
    assert_eq!(game.level, 2);
    assert_eq!(game.lives, 3);
    game.apply_win();
    assert_eq!(game.level, 3);
}
