use congol::{determine_new_state, Game};

fn alive_cells(game: &Game) -> Vec<(usize, usize)> {
    let mut out = Vec::new();
    let mut it = game.universe.iter();
    while let Some((x, y, c)) = it.next() {
        if *c {
            out.push((x, y));
        }
    }
    out
}

#[test]
fn transition_table_is_exact() {
    for n in 0u8..=8 {
        assert_eq!(determine_new_state(&true, n), n == 2 || n == 3, "alive, {n}");
        assert_eq!(determine_new_state(&false, n), n == 3, "dead, {n}");
    }
}

#[test]
fn transition_table_rows() {
    assert!(!determine_new_state(&true, 0));
    assert!(!determine_new_state(&true, 1));
    assert!(determine_new_state(&true, 2));
    assert!(determine_new_state(&true, 3));
    assert!(!determine_new_state(&true, 4));
    assert!(!determine_new_state(&true, 8));
    assert!(determine_new_state(&false, 3));
    assert!(!determine_new_state(&false, 2));
    assert!(!determine_new_state(&false, 4));
    assert!(!determine_new_state(&false, 0));
}

#[test]
fn new_game_is_all_dead() {
    let game = Game::new(6, 4);
    assert_eq!(game.universe.width(), 6);
    assert_eq!(game.universe.height(), 4);
    assert!(alive_cells(&game).is_empty());
}

#[test]
fn empty_universe_stays_empty() {
    let mut game = Game::new(5, 5);
    game.next_generation();
    assert!(alive_cells(&game).is_empty());
}

#[test]
fn blinker_uses_snapshot() {
    // Updating in place would kill (1,2) before (2,2) is looked at, and the
    // vertical form would not appear.
    let mut game = Game::new(5, 5);
    game.universe.set(1, 2, true);
    game.universe.set(2, 2, true);
    game.universe.set(3, 2, true);
    game.next_generation();
    assert_eq!(alive_cells(&game), vec![(2, 1), (2, 2), (2, 3)]);
}

#[test]
fn blinker_has_period_two() {
    let mut game = Game::new(5, 5);
    game.universe.set(1, 2, true);
    game.universe.set(2, 2, true);
    game.universe.set(3, 2, true);
    for _ in 0..3 {
        game.next_generation();
        assert_eq!(alive_cells(&game), vec![(2, 1), (2, 2), (2, 3)]);
        game.next_generation();
        assert_eq!(alive_cells(&game), vec![(1, 2), (2, 2), (3, 2)]);
    }
}

#[test]
fn block_is_still() {
    let mut game = Game::new(6, 6);
    game.universe.set(2, 2, true);
    game.universe.set(3, 2, true);
    game.universe.set(2, 3, true);
    game.universe.set(3, 3, true);
    for _ in 0..10 {
        game.next_generation();
        assert_eq!(alive_cells(&game), vec![(2, 2), (3, 2), (2, 3), (3, 3)]);
    }
}

#[test]
fn block_in_corner_is_still() {
    let mut game = Game::new(2, 2);
    game.universe.set(0, 0, true);
    game.universe.set(1, 0, true);
    game.universe.set(0, 1, true);
    game.universe.set(1, 1, true);
    game.next_generation();
    assert_eq!(alive_cells(&game), vec![(0, 0), (1, 0), (0, 1), (1, 1)]);
}

#[test]
fn edge_does_not_wrap_in_a_tick() {
    // A vertical blinker on the left edge: with wraparound the right column would
    // gain cells; with a dead border it becomes a horizontal pair plus the centre.
    let mut game = Game::new(4, 3);
    game.universe.set(0, 0, true);
    game.universe.set(0, 1, true);
    game.universe.set(0, 2, true);
    game.next_generation();
    assert_eq!(alive_cells(&game), vec![(0, 1), (1, 1)]);
}

#[test]
fn game_renders_its_universe() {
    let mut game = Game::new(3, 3);
    game.universe.set(0, 1, true);
    game.universe.set(1, 1, true);
    game.universe.set(2, 1, true);
    assert_eq!(game.to_string(), "   \nXXX\n   \n");
    game.next_generation();
    assert_eq!(game.to_string(), " X \n X \n X \n");
}
