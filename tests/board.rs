use connect_four::board::Board;
use connect_four::marker::Marker;

#[test]
fn basics() {
    let mut board = Board::new(6, 7);
    assert_eq!(board.find_top(&1), Some(1));

    board.add_marker(&1, &Marker::O);
    board.add_marker(&1, &Marker::O);
    board.add_marker(&1, &Marker::O);
    board.add_marker(&1, &Marker::O);
    board.add_marker(&1, &Marker::O);
    let a = board.add_marker(&1, &Marker::O);

    assert_eq!(board.find_top(&1), None);
    assert!(a);

    let b = board.add_marker(&1, &Marker::X);
    assert!(!b);
}

#[test]
fn print() {
    let mut board = Board::new(3, 3);
    board.add_marker(&1, &Marker::O);
    board.add_marker(&2, &Marker::X);
    board.add_marker(&2, &Marker::O);

    assert_eq!(board.render(), "___\n_O_\nOX_\n");
}

#[test]
fn check_winner() {
    let mut board = Board::new(5, 4);

    board.add_marker(&1, &Marker::O);
    assert!(!board.is_winner(&Marker::O, &1, &1));
    board.add_marker(&1, &Marker::X);
    assert!(!board.is_winner(&Marker::O, &2, &1));
    assert!(!board.is_winner(&Marker::X, &2, &1));

    board.add_marker(&1, &Marker::O);
    board.add_marker(&1, &Marker::O);
    board.add_marker(&1, &Marker::O);
    assert!(!board.is_winner(&Marker::O, &5, &1));

    board.add_marker(&2, &Marker::O);
    board.add_marker(&3, &Marker::O);
    board.add_marker(&4, &Marker::O);
    assert!(board.is_winner(&Marker::O, &1, &4));

    assert_eq!(board.render(), "O___\nO___\nO___\nX___\nOOOO\n");
}

#[test]
fn board_filled() {
    let mut board = Board::new(3, 3);

    assert!(!board.is_filled());

    for i in 1..4 {
        for _ in 1..4 {
            assert!(!board.is_filled());
            board.add_marker(&i, &Marker::X);
        }
    }

    assert!(board.is_filled())
}

#[test]
fn drop_lands_on_lowest_empty_row() {
    let mut board = Board::new(4, 5);
    assert!(board.add_marker(&3, &Marker::X));
    assert_eq!(board.get(1, 3), Some(Marker::X));
    assert!(board.add_marker(&3, &Marker::O));
    assert_eq!(board.get(2, 3), Some(Marker::O));
    assert_eq!(board.get(3, 3), None);
    assert_eq!(board.find_top(&3), Some(3));
    assert_eq!(board.find_top(&2), Some(1));
}

#[test]
fn full_column_refuses_and_keeps_board() {
    let mut board = Board::new(4, 5);
    for _ in 0..4 {
        assert!(board.add_marker(&2, &Marker::X));
    }
    let before = board.render();
    assert!(!board.add_marker(&2, &Marker::O));
    assert_eq!(board.render(), before);
    assert_eq!(board.get(4, 2), Some(Marker::X));
}

#[test]
fn column_off_the_board_is_refused() {
    let mut board = Board::new(4, 5);
    assert_eq!(board.find_top(&0), None);
    assert_eq!(board.find_top(&6), None);
    assert_eq!(board.find_top(&-1), None);
    assert!(!board.add_marker(&0, &Marker::X));
    assert!(!board.add_marker(&6, &Marker::X));
    assert_eq!(board.render(), "_____\n_____\n_____\n_____\n");
}

#[test]
fn vertical_four_wins_on_fourth_drop_only() {
    let mut board = Board::new(6, 7);
    for row in 1..4 {
        board.add_marker(&5, &Marker::X);
        assert!(!board.is_winner(&Marker::X, &row, &5));
    }
    board.add_marker(&5, &Marker::X);
    assert!(board.is_winner(&Marker::X, &4, &5));
}

#[test]
fn rising_diagonal_wins() {
    let mut board = Board::new(6, 7);
    board.add_marker(&1, &Marker::X);
    board.add_marker(&2, &Marker::O);
    board.add_marker(&2, &Marker::X);
    board.add_marker(&3, &Marker::O);
    board.add_marker(&3, &Marker::O);
    board.add_marker(&3, &Marker::X);
    board.add_marker(&4, &Marker::O);
    board.add_marker(&4, &Marker::O);
    board.add_marker(&4, &Marker::O);
    assert!(!board.is_winner(&Marker::X, &3, &3));
    board.add_marker(&4, &Marker::X);
    assert!(board.is_winner(&Marker::X, &4, &4));
    assert!(board.is_winner(&Marker::X, &2, &2));
}

#[test]
fn falling_diagonal_wins_from_its_middle() {
    let mut board = Board::new(6, 7);
    board.add_marker(&4, &Marker::X);
    board.add_marker(&3, &Marker::O);
    board.add_marker(&3, &Marker::X);
    board.add_marker(&2, &Marker::O);
    board.add_marker(&2, &Marker::O);
    board.add_marker(&1, &Marker::O);
    board.add_marker(&1, &Marker::O);
    board.add_marker(&1, &Marker::O);
    board.add_marker(&1, &Marker::X);
    assert!(!board.is_winner(&Marker::X, &4, &1));
    board.add_marker(&2, &Marker::X);
    assert!(board.is_winner(&Marker::X, &3, &2));
}

#[test]
fn horizontal_four_wins_from_its_middle() {
    let mut board = Board::new(4, 7);
    board.add_marker(&2, &Marker::O);
    board.add_marker(&3, &Marker::O);
    board.add_marker(&5, &Marker::O);
    assert!(!board.is_winner(&Marker::O, &1, &5));
    board.add_marker(&4, &Marker::O);
    assert!(board.is_winner(&Marker::O, &1, &4));
}

#[test]
fn opposing_marker_breaks_a_line() {
    let mut board = Board::new(4, 7);
    board.add_marker(&1, &Marker::O);
    board.add_marker(&2, &Marker::O);
    board.add_marker(&3, &Marker::X);
    board.add_marker(&4, &Marker::O);
    board.add_marker(&5, &Marker::O);
    assert!(!board.is_winner(&Marker::O, &1, &5));
    assert!(!board.is_winner(&Marker::O, &1, &2));
    board.add_marker(&6, &Marker::O);
    assert!(!board.is_winner(&Marker::O, &1, &6));
    board.add_marker(&7, &Marker::O);
    assert!(board.is_winner(&Marker::O, &1, &7));
}

#[test]
fn full_small_board_has_no_winner() {
    let mut board = Board::new(3, 3);
    let mut marker = Marker::X;
    for column in 1..4 {
        for _ in 0..3 {
            assert!(board.add_marker(&column, &marker));
            marker = marker.invert();
        }
    }
    assert!(board.is_filled());
    for row in 1..4 {
        for column in 1..4 {
            assert!(!board.is_winner(&Marker::X, &row, &column));
            assert!(!board.is_winner(&Marker::O, &row, &column));
        }
    }
}

#[test]
fn filled_needs_every_top_cell() {
    let mut board = Board::new(4, 5);
    for column in 1..6 {
        for _ in 0..4 {
            assert!(!board.is_filled());
            board.add_marker(&column, &Marker::O);
        }
    }
    assert!(board.is_filled());
    assert_eq!(board.rows(), 4);
    assert_eq!(board.columns(), 5);
}

#[test]
fn marker_symbols_and_inversion() {
    assert_eq!(Marker::X.symbol(), 'X');
    assert_eq!(Marker::O.symbol(), 'O');
    assert_eq!(Marker::X.invert(), Marker::O);
    assert_eq!(Marker::O.invert(), Marker::X);
}
