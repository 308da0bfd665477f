use mine_sweeper::cell::{Dot, Swept};
use mine_sweeper::game::Game;

#[test]
fn game_rounds_center() {
    let mut game = Game::new();
    game.init(3, 3);

    let mut exp: Vec<(usize, usize)> = vec![];
    exp.extend(vec![(0, 0), (0, 1), (0, 2)]);
    exp.extend(vec![(1, 0), (1, 2)]);
    exp.extend(vec![(2, 0), (2, 1), (2, 2)]);
    assert_eq!(exp, game.rounds(1, 1));
}

#[test]
fn game_rounds_left_top() {
    let mut game = Game::new();
    game.init(3, 3);

    assert_eq!(vec![(0, 1), (1, 0), (1, 1)], game.rounds(0, 0));
}

#[test]
fn game_rounds_right_bottom() {
    let mut game = Game::new();
    game.init(3, 3);

    assert_eq!(vec![(1, 1), (1, 2), (2, 1)], game.rounds(2, 2))
}

#[test]
fn game_sweep() {
    let mut game = Game::new();
    game.init(3, 3);
    assert_eq!(Dot::Unexplored, game.dot_at(0, 0));

    // a flag can be planted right away on the practice board
    let swept = game.flag(2, 2).unwrap();
    assert_eq!(Swept::Safe, swept);
    assert_eq!(Dot::FlaggedMine, game.dot_at(2, 2));

    // the unexplored cell comes up as zero
    let swept = game.sweep(0, 0).unwrap();
    assert_eq!(Swept::Safe, swept);
    assert_eq!(Dot::Number(0), game.dot_at(0, 0));

    // the zero cell's surroundings have been chain revealed
    assert_eq!(Dot::Number(0), game.dot_at(1, 0));
    assert_eq!(Dot::Number(0), game.dot_at(2, 0));
    assert_eq!(Dot::Number(1), game.dot_at(0, 1));
    assert_eq!(Dot::Number(2), game.dot_at(1, 1));
    assert_eq!(Dot::Number(1), game.dot_at(2, 1));

    // mines and cells out of the region are left alone
    assert_eq!(Dot::Mine, game.dot_at(0, 2));
    assert_eq!(Dot::Unexplored, game.dot_at(1, 2));
    assert_eq!(Dot::FlaggedMine, game.dot_at(2, 2));

    // clicking an already revealed cell does nothing
    let swept = game.sweep(0, 0).unwrap();
    assert_eq!(Dot::Number(0), game.dot_at(0, 0));
    assert_eq!(Swept::Stay, swept);

    // stepping on a mine ends the round
    let swept = game.sweep(0, 2).unwrap();
    assert_eq!(Swept::Bomb, swept);

    // handling every cell correctly clears the game
    let swept = game.sweep(1, 2).unwrap();
    assert_eq!(Swept::Safe, swept);
    assert_eq!(Dot::Number(2), game.dot_at(1, 2));
    let swept = game.flag(0, 2).unwrap();
    assert_eq!(Swept::Clear, swept);
    assert_eq!(Dot::FlaggedMine, game.dot_at(0, 2));
}

#[test]
fn game_flag() {
    let mut game = Game::new();
    game.init(3, 3);

    // an unexplored cell toggles under the flag
    assert_eq!(Dot::Unexplored, game.dot_at(0, 0));
    game.flag(0, 0).unwrap();
    assert_eq!(Dot::FlaggedSafe, game.dot_at(0, 0));
    game.flag(0, 0).unwrap();
    assert_eq!(Dot::Unexplored, game.dot_at(0, 0));

    // a mine toggles under the flag
    assert_eq!(Dot::Mine, game.dot_at(0, 2));
    game.flag(0, 2).unwrap();
    assert_eq!(Dot::FlaggedMine, game.dot_at(0, 2));
    game.flag(0, 2).unwrap();
    assert_eq!(Dot::Mine, game.dot_at(0, 2));
}
