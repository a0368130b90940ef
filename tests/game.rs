use connect_four::game::{valid_size, Game, TurnState};
use connect_four::marker::Marker;

#[test]
fn size_rule() {
    assert!(!valid_size(3, 3));
    assert!(!valid_size(4, 4));
    assert!(valid_size(4, 5));
    assert!(valid_size(5, 4));
    assert!(!valid_size(3, 9));
    assert!(!valid_size(9, 3));
    assert!(valid_size(127, 127));
    assert!(!valid_size(-5, 20));
}

#[test]
fn vertical_win_ends_the_game() {
    let mut game = Game::new(5, 4);
    assert_eq!(game.state(), TurnState::AwaitingMove(Marker::X));
    for _ in 0..3 {
        assert!(game.play(1));
        assert_eq!(game.state(), TurnState::AwaitingMove(Marker::O));
        assert!(game.play(2));
        assert_eq!(game.state(), TurnState::AwaitingMove(Marker::X));
    }
    assert!(game.play(1));
    assert_eq!(game.state(), TurnState::Won(Marker::X));
    assert!(!game.play(3));
    assert_eq!(game.state(), TurnState::Won(Marker::X));
    assert_eq!(game.board().get(4, 1), Some(Marker::X));
    assert_eq!(game.board().get(1, 3), None);
}

#[test]
fn refused_move_keeps_the_turn() {
    let mut game = Game::new(4, 5);
    assert!(!game.play(0));
    assert!(!game.play(6));
    assert_eq!(game.state(), TurnState::AwaitingMove(Marker::X));
    for _ in 0..4 {
        assert!(game.play(1));
    }
    assert_eq!(game.state(), TurnState::AwaitingMove(Marker::X));
    assert!(!game.play(1));
    assert_eq!(game.state(), TurnState::AwaitingMove(Marker::X));
    assert!(game.play(2));
    assert_eq!(game.state(), TurnState::AwaitingMove(Marker::O));
}

#[test]
fn full_board_without_winner_is_a_draw() {
    let mut game = Game::new(3, 3);
    let columns = [1, 2, 3, 1, 2, 3, 2, 1, 3];
    for (n, column) in columns.iter().enumerate() {
        assert!(game.play(*column));
        if n < 8 {
            assert!(matches!(game.state(), TurnState::AwaitingMove(_)));
        }
    }
    assert!(game.board().is_filled());
    assert_eq!(game.state(), TurnState::Draw);
    assert!(!game.play(1));
}
