use slots::Game;

#[test]
fn pass() {
    assert_eq!(1 + 1, 2);
}

#[test]
fn test_create() {
    let mut game = Game::new(0);
    assert_eq!(game.id, 0);
    game.id = 10;
    assert_eq!(game.id, 10);
}
