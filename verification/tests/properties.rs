use mine_sweeper::cell::{swept_label, Density, Dot, GameError, Swept};
use mine_sweeper::game::Game;
use mine_sweeper::scatter::nominal_mine_count;

#[test]
fn nominal_counts_follow_the_ceiling_formula() {
    assert_eq!(2, nominal_mine_count(5, 5, &Density::Low));
    assert_eq!(3, nominal_mine_count(5, 5, &Density::Middle));
    assert_eq!(5, nominal_mine_count(5, 5, &Density::High));
    assert_eq!(20, nominal_mine_count(20, 20, &Density::Low));
    assert_eq!(40, nominal_mine_count(20, 20, &Density::Middle));
    assert_eq!(80, nominal_mine_count(20, 20, &Density::High));
    assert_eq!(1, nominal_mine_count(1, 1, &Density::Low));
}

#[test]
fn scatter_deduplicates_repeated_draws() {
    let mut saw_a_shortfall = false;
    for _ in 0..300 {
        let mines = Game::get_scatter_mines(3, 3, &Density::High);
        assert!(mines.len() <= 2);
        for i in 0..mines.len() {
            for j in (i + 1)..mines.len() {
                assert_ne!(mines[i], mines[j]);
            }
        }
        if mines.len() < 2 {
            saw_a_shortfall = true;
        }
    }
    // two draws over nine cells collide often; deduplication must then
    // hand back fewer positions than were drawn
    assert!(saw_a_shortfall);
}

#[test]
fn first_sweep_never_hits_a_mine() {
    for x in 0..5 {
        for y in 0..5 {
            let mut game = Game::new();
            game.configure(5, 5, Density::High);
            let swept = game.sweep(x, y).unwrap();
            assert!(swept == Swept::Safe || swept == Swept::Clear);
        }
    }
}

#[test]
fn flag_before_first_sweep_changes_nothing() {
    let mut game = Game::new();
    game.configure(5, 5, Density::Middle);
    assert_eq!(Ok(Swept::Stay), game.flag(0, 0));
    assert_eq!(Ok(Swept::Stay), game.flag(4, 4));
    // even nonsense coordinates are shrugged off while no mines exist
    assert_eq!(Ok(Swept::Stay), game.flag(99, 99));
    for x in 0..5 {
        for y in 0..5 {
            assert_eq!(Dot::Unexplored, game.dot_at(x, y));
        }
    }
}

#[test]
fn sweep_on_a_number_is_idempotent() {
    let mut game = Game::new();
    game.init(3, 3);
    game.sweep(0, 0).unwrap();
    let before = game.show();
    assert_eq!(Ok(Swept::Stay), game.sweep(1, 1));
    assert_eq!(before, game.show());
    assert_eq!(Ok(Swept::Stay), game.sweep(1, 1));
    assert_eq!(before, game.show());
}

#[test]
fn sweeping_a_mine_leaves_the_board_as_it_was() {
    let mut game = Game::new();
    game.init(3, 3);
    game.sweep(0, 0).unwrap();
    game.sweep(1, 2).unwrap();
    let before: Vec<Dot> = (0..9).map(|k| game.dot_at(k % 3, k / 3)).collect();
    assert_eq!(Ok(Swept::Bomb), game.sweep(0, 2));
    let after: Vec<Dot> = (0..9).map(|k| game.dot_at(k % 3, k / 3)).collect();
    assert_eq!(before, after);
    // the solved counter was not touched either: the remaining moves win
    // exactly as they would have without the misstep
    assert_eq!(Ok(Swept::Safe), game.flag(0, 2));
    assert_eq!(Ok(Swept::Clear), game.flag(2, 2));
}

#[test]
fn flag_round_trip_restores_the_cell() {
    let mut game = Game::new();
    game.init(3, 3);
    game.sweep(0, 0).unwrap();
    // a safe cell and a mine both come back unchanged after two toggles
    game.flag(1, 2).unwrap();
    assert_eq!(Dot::FlaggedSafe, game.dot_at(1, 2));
    game.flag(1, 2).unwrap();
    assert_eq!(Dot::Unexplored, game.dot_at(1, 2));
    game.flag(2, 2).unwrap();
    assert_eq!(Dot::FlaggedMine, game.dot_at(2, 2));
    game.flag(2, 2).unwrap();
    assert_eq!(Dot::Mine, game.dot_at(2, 2));
    // a revealed cell ignores the flag entirely
    assert_eq!(Ok(Swept::Stay), game.flag(0, 0));
    assert_eq!(Dot::Number(0), game.dot_at(0, 0));
}

#[test]
fn scenario_two_mines_in_the_corners() {
    let mut game = Game::new();
    game.init(3, 3);
    assert_eq!(Ok(Swept::Safe), game.sweep(0, 0));
    let expected = [
        [Dot::Number(0), Dot::Number(0), Dot::Number(0)],
        [Dot::Number(1), Dot::Number(2), Dot::Number(1)],
        [Dot::Mine, Dot::Unexplored, Dot::Mine],
    ];
    for y in 0..3 {
        for x in 0..3 {
            assert_eq!(expected[y][x], game.dot_at(x, y));
        }
    }
    assert_eq!(Ok(Swept::Safe), game.sweep(1, 2));
    assert_eq!(Dot::Number(2), game.dot_at(1, 2));
    assert_eq!(Ok(Swept::Safe), game.flag(0, 2));
    assert_eq!(Ok(Swept::Clear), game.flag(2, 2));
}

#[test]
fn single_cell_board_clears_at_once() {
    // the smallest board: the nominal count is clamped below the cell
    // count, so the lone cell stays safe and the first reveal wins
    let mut game = Game::new();
    game.configure(1, 1, Density::High);
    assert_eq!(Ok(Swept::Clear), game.sweep(0, 0));
}

#[test]
fn out_of_bounds_coordinates_are_rejected() {
    let mut game = Game::new();
    game.configure(3, 3, Density::Low);
    game.init(3, 3);
    assert_eq!(Err(GameError::OutOfBounds), game.sweep(3, 0));
    assert_eq!(Err(GameError::OutOfBounds), game.sweep(0, 3));
    assert_eq!(Err(GameError::OutOfBounds), game.flag(99, 0));
    // an empty board rejects every coordinate
    let mut empty = Game::new();
    assert_eq!(Err(GameError::OutOfBounds), empty.sweep(0, 0));
}

#[test]
fn show_never_discloses_a_mine() {
    let mut game = Game::new();
    game.init(3, 3);
    let hidden = game.show();
    assert_eq!(3, hidden.len());
    for row in &hidden {
        assert_eq!(3, row.len());
        for label in row {
            // unexplored cells and mines look exactly the same
            assert_eq!("", label.as_str());
        }
    }
    game.sweep(0, 0).unwrap();
    game.flag(2, 2).unwrap();
    let open = game.show();
    assert_eq!(vec!["0", "0", "0"], open[0]);
    assert_eq!(vec!["1", "2", "1"], open[1]);
    // the unflagged mine still shows as nothing at all
    assert_eq!(vec!["", "", "flag"], open[2]);
}

#[test]
fn outcome_labels() {
    assert_eq!("safe", swept_label(Swept::Safe));
    assert_eq!("bomb", swept_label(Swept::Bomb));
    assert_eq!("stay", swept_label(Swept::Stay));
    assert_eq!("clear", swept_label(Swept::Clear));
}

#[test]
fn debug_labels() {
    assert_eq!(" ", Dot::Unexplored.dbg());
    assert_eq!("f", Dot::FlaggedSafe.dbg());
    assert_eq!("F", Dot::FlaggedMine.dbg());
    assert_eq!("M", Dot::Mine.dbg());
    assert_eq!("3", Dot::Number(3).dbg());
    assert_eq!("0", Dot::Number(0).dbg());
    assert_eq!("8", Dot::Number(8).dbg());
}
