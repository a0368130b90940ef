use vstd::prelude::*;

use crate::board::{Board, BoardView};
use crate::marker::Marker;

verus! {

/// A board size that a game may be played on: at least four rows, at least
/// four columns, and at least nine rows and columns together.
pub open spec fn spec_valid_size(rows: int, columns: int) -> bool {
    rows >= 4 && columns >= 4 && rows + columns >= 9
}

/// Whether a game may be played on a board of this size.
pub fn valid_size(rows: i8, columns: i8) -> (r: bool)
    ensures
        r == spec_valid_size(rows as int, columns as int),
{
    rows >= 4 && columns >= 4 && rows as i16 + columns as i16 >= 9
}

/// Where a game stands.
#[derive(Clone, Copy, Debug, PartialEq, Eq, Structural)]
pub enum TurnState {
    /// The game goes on; the given player is to move.
    AwaitingMove(Marker),
    /// The given player has four in a row; the game is over.
    Won(Marker),
    /// The board is full with no winner; the game is over.
    Draw,
}

/// The state after `marker` has landed at `(row, column)` of `board`.
pub open spec fn next_state(board: BoardView, marker: Marker, row: int, column: int) -> TurnState {
    if board.wins_at(marker, row, column) {
        TurnState::Won(marker)
    } else if board.filled() {
        TurnState::Draw
    } else {
        TurnState::AwaitingMove(marker.other())
    }
}

/// What a game is, mathematically: its board and where it stands.
pub struct GameView {
    pub board: BoardView,
    pub state: TurnState,
}

impl GameView {
    /// The game after the player to move chooses `column`. A choice of a full
    /// column, of one off the board, or any choice once the game is over
    /// leaves the game as it is.
    pub open spec fn after_move(self, column: int) -> GameView {
        match self.state {
            TurnState::AwaitingMove(m) => match self.board.lowest_empty(column) {
                Some(row) => {
                    let board = self.board.drop_into(column, m);
                    GameView { board, state: next_state(board, m, row, column) }
                },
                None => self,
            },
            _ => self,
        }
    }
}

/// One game: a board and the turn sequence played on it.
pub struct Game {
    board: Board,
    state: TurnState,
}

impl View for Game {
    type V = GameView;

    closed spec fn view(&self) -> GameView {
        GameView { board: self.board@, state: self.state }
    }
}

impl Game {
    pub closed spec fn wf(&self) -> bool {
        self.board.wf()
    }

    /// Starts a game on an empty board of the given size, with `X` to move.
    pub fn new(rows: i8, columns: i8) -> (r: Game)
        ensures
            r.wf(),
            r@.board.rows == rows as int,
            r@.board.columns == columns as int,
            r@.board.cells == Map::<(int, int), Marker>::empty(),
            r@.state == TurnState::AwaitingMove(Marker::X),
    {
        Game { board: Board::new(rows, columns), state: TurnState::AwaitingMove(Marker::X) }
    }

    /// The board as it stands.
    pub fn board(&self) -> (r: &Board)
        requires
            self.wf(),
        ensures
            r.wf(),
            r@ == self@.board,
    {
        &self.board
    }

    /// Where the game stands.
    pub fn state(&self) -> (r: TurnState)
        ensures
            r == self@.state,
    {
        self.state
    }

    /// The player to move drops a marker into `column`. Returns whether the
    /// move was taken: it is refused, and the game left as it is, where the
    /// column is full or off the board, or the game is over. A taken move
    /// ends the game when it completes four in a row or fills the board, and
    /// passes the turn to the other player otherwise.
    pub fn play(&mut self, column: i8) -> (r: bool)
        requires
            old(self).wf(),
        ensures
            final(self).wf(),
            r == (old(self)@.state is AwaitingMove && old(self)@.board.lowest_empty(column as int) is Some),
            final(self)@ == old(self)@.after_move(column as int),
    {
        let marker = match self.state {
            TurnState::AwaitingMove(m) => m,
            _ => {
                return false;
            },
        };
        let row = match self.board.find_top(&column) {
            Some(row) => row,
            None => {
                return false;
            },
        };
        self.board.add_marker(&column, &marker);
        if self.board.is_winner(&marker, &row, &column) {
            self.state = TurnState::Won(marker);
        } else if self.board.is_filled() {
            self.state = TurnState::Draw;
        } else {
            self.state = TurnState::AwaitingMove(marker.invert());
        }
        true
    }
}

} // verus!
