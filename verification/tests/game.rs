use battleship::Game;

#[test]
fn new_game_is_quiet() {
    let game = Game::new();
    assert!(!game.is_verbose());
}

#[test]
fn verbosity_can_be_toggled() {
    let mut game = Game::new();
    game.set_verbose(true);
    assert!(game.is_verbose());
    game.set_verbose(false);
    assert!(!game.is_verbose());
}
