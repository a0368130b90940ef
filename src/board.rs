use vstd::prelude::*;

use crate::marker::Marker;

verus! {

/// What a board is, mathematically: its dimensions and the occupied cells.
///
/// Rows are numbered from 1 at the bottom to `rows` at the top, columns from
/// 1 at the left to `columns` at the right.
pub struct BoardView {
    pub rows: int,
    pub columns: int,
    pub cells: Map<(int, int), Marker>,
}

impl BoardView {
    /// The cell lies on the board.
    pub open spec fn in_range(self, row: int, column: int) -> bool {
        1 <= row <= self.rows && 1 <= column <= self.columns
    }

    /// The cell holds a marker.
    pub open spec fn occupied(self, row: int, column: int) -> bool {
        self.cells.contains_key((row, column))
    }

    /// The marker at a cell, or `None` for an empty cell or one off the board.
    pub open spec fn at(self, row: int, column: int) -> Option<Marker> {
        if self.occupied(row, column) {
            Some(self.cells[(row, column)])
        } else {
            None
        }
    }

    /// Every occupied cell lies on the board and rests on an occupied cell
    /// or on the bottom row.
    pub open spec fn gravity(self) -> bool {
        forall|row: int, column: int|
            #[trigger] self.occupied(row, column) ==> self.in_range(row, column) && (row > 1
                ==> self.occupied(row - 1, column))
    }

    /// The first empty row of `column` when scanning upward from `row`.
    pub open spec fn lowest_empty_from(self, column: int, row: int) -> Option<int>
        decreases self.rows + 1 - row,
    {
        if row < 1 || row > self.rows {
            None
        } else if !self.occupied(row, column) {
            Some(row)
        } else {
            self.lowest_empty_from(column, row + 1)
        }
    }

    /// The row that a marker dropped into `column` lands on; `None` where the
    /// column is full or is not on the board.
    pub open spec fn lowest_empty(self, column: int) -> Option<int> {
        if 1 <= column <= self.columns {
            self.lowest_empty_from(column, 1)
        } else {
            None
        }
    }

    /// The board after dropping `marker` into `column`; unchanged where the
    /// drop is refused.
    pub open spec fn drop_into(self, column: int, marker: Marker) -> BoardView {
        match self.lowest_empty(column) {
            Some(row) => BoardView { cells: self.cells.insert((row, column), marker), ..self },
            None => self,
        }
    }

    /// Every column has a marker in its top row.
    pub open spec fn filled(self) -> bool {
        forall|column: int| 1 <= column <= self.columns ==> #[trigger] self.occupied(self.rows, column)
    }

    /// How many cells in a row, starting next to `(row, column)` and stepping
    /// by `(dr, dc)`, hold `marker`; at most `limit`.
    pub open spec fn run(self, marker: Marker, row: int, column: int, dr: int, dc: int, limit: nat) -> nat
        decreases limit,
    {
        if limit == 0 {
            0
        } else if self.at(row + dr, column + dc) == Some(marker) {
            1 + self.run(marker, row + dr, column + dc, dr, dc, (limit - 1) as nat)
        } else {
            0
        }
    }

    /// The length of the line of `marker` through `(row, column)` along
    /// `(dr, dc)`, counting the cell itself, then the cells ahead, then the
    /// cells behind, and stopping once it reaches four.
    pub open spec fn count_through(self, marker: Marker, row: int, column: int, dr: int, dc: int) -> nat {
        let ahead = self.run(marker, row, column, dr, dc, 3);
        1 + ahead + self.run(marker, row, column, -dr, -dc, (3 - ahead) as nat)
    }

    /// A marker at `(row, column)` completes four in a row: vertically,
    /// horizontally, or along either diagonal.
    pub open spec fn wins_at(self, marker: Marker, row: int, column: int) -> bool {
        ||| self.count_through(marker, row, column, 1, 0) >= 4
        ||| self.count_through(marker, row, column, 0, 1) >= 4
        ||| self.count_through(marker, row, column, 1, 1) >= 4
        ||| self.count_through(marker, row, column, -1, 1) >= 4
    }

    /// The character that shows a cell: its marker's symbol, or `_` when empty.
    pub open spec fn glyph(self, row: int, column: int) -> char {
        match self.at(row, column) {
            Some(m) => m.spec_symbol(),
            None => '_',
        }
    }

    /// The first `n` cells of `row`, from the left.
    pub open spec fn row_prefix(self, row: int, n: int) -> Seq<char> {
        Seq::new(if n > 0 { n as nat } else { 0 }, |j: int| self.glyph(row, j + 1))
    }

    /// One line of the rendering: the cells of `row`, then a newline.
    pub open spec fn row_text(self, row: int) -> Seq<char> {
        self.row_prefix(row, self.columns).push('\n')
    }

    /// The lines of rows `row` down to 1.
    pub open spec fn text_from(self, row: int) -> Seq<char>
        decreases row,
    {
        if row < 1 {
            Seq::empty()
        } else {
            self.row_text(row) + self.text_from(row - 1)
        }
    }

    /// The board as text: one line per row, from the top row down.
    pub open spec fn rendered(self) -> Seq<char> {
        self.text_from(self.rows)
    }

    /// The cell `k` steps from `(row, column)` along `(dr, dc)`.
    pub open spec fn along(self, row: int, column: int, dr: int, dc: int, k: int) -> Option<Marker> {
        self.at(row + k * dr, column + k * dc)
    }

    /// One of the four lines a win is looked for along: vertical,
    /// horizontal, rising diagonal, falling diagonal.
    pub open spec fn is_direction(dr: int, dc: int) -> bool {
        ||| dr == 1 && dc == 0
        ||| dr == 0 && dc == 1
        ||| dr == 1 && dc == 1
        ||| dr == -1 && dc == 1
    }

    /// The four cells along `(dr, dc)` that start `s` steps behind
    /// `(row, column)` all hold `marker`.
    pub open spec fn line_of_four(self, marker: Marker, row: int, column: int, dr: int, dc: int, s: int) -> bool {
        forall|k: int| -s <= k <= 3 - s ==> #[trigger] self.along(row, column, dr, dc, k) == Some(marker)
    }

    /// Four cells in a row that hold `marker` pass through `(row, column)`.
    pub open spec fn line_through(self, marker: Marker, row: int, column: int) -> bool {
        exists|dr: int, dc: int, s: int|
            Self::is_direction(dr, dc) && 0 <= s <= 3 && #[trigger] self.line_of_four(marker, row, column, dr, dc, s)
    }

    /// Scanning a column upward from `row`, past occupied cells only, finds
    /// the lowest empty cell, or reaches the top with every cell occupied.
    proof fn lemma_scan(self, column: int, row: int)
        requires
            1 <= column <= self.columns,
            1 <= row,
            forall|k: int| 1 <= k < row ==> #[trigger] self.occupied(k, column),
        ensures
            self.lowest_empty_from(column, row) matches Some(r) ==> {
                &&& row <= r <= self.rows
                &&& !self.occupied(r, column)
                &&& forall|k: int| 1 <= k < r ==> #[trigger] self.occupied(k, column)
            },
            self.lowest_empty_from(column, row) is None ==> forall|k: int|
                1 <= k <= self.rows ==> #[trigger] self.occupied(k, column),
        decreases self.rows + 1 - row,
    {
        if row <= self.rows && self.occupied(row, column) {
            self.lemma_scan(column, row + 1);
        }
    }

    /// Below an occupied cell, a column is occupied all the way down.
    proof fn lemma_below(self, column: int, top: int, row: int)
        requires
            self.gravity(),
            self.occupied(top, column),
            1 <= row <= top,
        ensures
            self.occupied(row, column),
        decreases top - row,
    {
        if row < top {
            self.lemma_below(column, top - 1, row);
        }
    }

    /// A drop into a column succeeds exactly when the column is on the board
    /// and has an empty cell; the marker then lands on the lowest empty cell,
    /// and markers still rest on one another. A refused drop changes nothing.
    pub proof fn lemma_drop(self, column: int, marker: Marker)
        requires
            self.gravity(),
        ensures
            self.lowest_empty(column) is Some <==> exists|row: int|
                self.in_range(row, column) && !#[trigger] self.occupied(row, column),
            self.lowest_empty(column) is Some <==> (1 <= column <= self.columns && 1 <= self.rows
                && !self.occupied(self.rows, column)),
            self.lowest_empty(column) matches Some(r) ==> {
                &&& self.in_range(r, column)
                &&& !self.occupied(r, column)
                &&& forall|k: int| 1 <= k < r ==> #[trigger] self.occupied(k, column)
            },
            self.drop_into(column, marker).gravity(),
            self.lowest_empty(column) is None ==> self.drop_into(column, marker) == self,
    {
        if 1 <= column <= self.columns {
            self.lemma_scan(column, 1);
            match self.lowest_empty(column) {
                Some(r) => {
                    if self.occupied(self.rows, column) {
                        self.lemma_below(column, self.rows, r);
                    }
                    let after = self.drop_into(column, marker);
                    assert forall|row: int, c: int| #[trigger] after.occupied(row, c) implies after.in_range(row, c)
                        && (row > 1 ==> after.occupied(row - 1, c)) by {
                        if row != r || c != column {
                            assert(self.occupied(row, c));
                            if row > 1 {
                                assert(self.occupied(row - 1, c));
                            }
                        } else if row > 1 {
                            assert(self.occupied(row - 1, c));
                        }
                    }
                },
                None => {
                    if self.rows >= 1 {
                        assert(self.occupied(self.rows, column));
                    }
                },
            }
        }
    }

    /// A board is filled exactly when every cell is occupied; so a board with
    /// an empty cell is not filled.
    pub proof fn lemma_filled_iff_full(self)
        requires
            self.gravity(),
            self.rows >= 1,
        ensures
            self.filled() <==> forall|row: int, column: int|
                self.in_range(row, column) ==> #[trigger] self.occupied(row, column),
    {
        if self.filled() {
            assert forall|row: int, column: int| self.in_range(row, column) implies #[trigger] self.occupied(row, column) by {
                assert(self.occupied(self.rows, column));
                self.lemma_below(column, self.rows, row);
            }
        }
        if forall|row: int, column: int| self.in_range(row, column) ==> #[trigger] self.occupied(row, column) {
            assert forall|column: int| 1 <= column <= self.columns implies #[trigger] self.occupied(self.rows, column) by {
                assert(self.in_range(self.rows, column));
            }
        }
    }

    /// A run of `n` cells of `marker` is counted in full, up to the limit.
    proof fn lemma_run_at_least(self, marker: Marker, row: int, column: int, dr: int, dc: int, limit: nat, n: nat)
        requires
            n <= limit,
            forall|k: int| 1 <= k <= n ==> #[trigger] self.along(row, column, dr, dc, k) == Some(marker),
        ensures
            self.run(marker, row, column, dr, dc, limit) >= n,
        decreases n,
    {
        if n > 0 {
            assert(self.along(row, column, dr, dc, 1) == Some(marker));
            assert forall|k: int| 1 <= k <= n - 1 implies #[trigger] self.along(row + dr, column + dc, dr, dc, k)
                == Some(marker) by {
                assert(self.along(row, column, dr, dc, k + 1) == Some(marker));
                assert(row + dr + k * dr == row + (k + 1) * dr) by (nonlinear_arith);
                assert(column + dc + k * dc == column + (k + 1) * dc) by (nonlinear_arith);
            }
            self.lemma_run_at_least(marker, row + dr, column + dc, dr, dc, (limit - 1) as nat, (n - 1) as nat);
        }
    }

    /// Every cell that a run counts holds `marker`.
    proof fn lemma_run_cells(self, marker: Marker, row: int, column: int, dr: int, dc: int, limit: nat, j: int)
        requires
            1 <= j <= self.run(marker, row, column, dr, dc, limit),
        ensures
            self.along(row, column, dr, dc, j) == Some(marker),
        decreases j,
    {
        if j > 1 {
            self.lemma_run_cells(marker, row + dr, column + dc, dr, dc, (limit - 1) as nat, j - 1);
            assert(row + dr + (j - 1) * dr == row + j * dr) by (nonlinear_arith);
            assert(column + dc + (j - 1) * dc == column + j * dc) by (nonlinear_arith);
        }
    }

    /// A run never counts more than its limit.
    proof fn lemma_run_bound(self, marker: Marker, row: int, column: int, dr: int, dc: int, limit: nat)
        ensures
            self.run(marker, row, column, dr, dc, limit) <= limit,
        decreases limit,
    {
        if limit > 0 {
            self.lemma_run_bound(marker, row + dr, column + dc, dr, dc, (limit - 1) as nat);
        }
    }

    /// Stepping back along `(dr, dc)` is stepping forward along `(-dr, -dc)`.
    proof fn lemma_along_reversed(self, row: int, column: int, dr: int, dc: int, k: int)
        ensures
            self.along(row, column, -dr, -dc, k) == self.along(row, column, dr, dc, -k),
    {
        assert(k * (-dr) == (-k) * dr) by (nonlinear_arith);
        assert(k * (-dc) == (-k) * dc) by (nonlinear_arith);
    }

    /// An opposing marker, or an empty cell, `j` steps away ends the run
    /// before it: cells beyond it never count toward four.
    pub proof fn lemma_blocked_run(self, marker: Marker, row: int, column: int, dr: int, dc: int, limit: nat, j: int)
        requires
            1 <= j,
            self.along(row, column, dr, dc, j) != Some(marker),
        ensures
            self.run(marker, row, column, dr, dc, limit) < j,
    {
        if self.run(marker, row, column, dr, dc, limit) >= j {
            self.lemma_run_cells(marker, row, column, dr, dc, limit, j);
        }
    }

    /// Along one direction, the count through a cell of `marker` reaches four
    /// exactly when four cells of `marker` in a row pass through it.
    proof fn lemma_count_iff_line(self, marker: Marker, row: int, column: int, dr: int, dc: int)
        requires
            self.at(row, column) == Some(marker),
        ensures
            self.count_through(marker, row, column, dr, dc) >= 4 <==> exists|s: int|
                0 <= s <= 3 && #[trigger] self.line_of_four(marker, row, column, dr, dc, s),
    {
        let ahead = self.run(marker, row, column, dr, dc, 3);
        let behind = self.run(marker, row, column, -dr, -dc, (3 - ahead) as nat);
        self.lemma_run_bound(marker, row, column, dr, dc, 3);
        assert(self.along(row, column, dr, dc, 0) == Some(marker)) by {
            assert(row + 0 * dr == row);
            assert(column + 0 * dc == column);
        }
        if self.count_through(marker, row, column, dr, dc) >= 4 {
            let s = 3 - ahead;
            assert forall|k: int| -s <= k <= 3 - s implies #[trigger] self.along(row, column, dr, dc, k) == Some(marker) by {
                if k > 0 {
                    self.lemma_run_cells(marker, row, column, dr, dc, 3, k);
                } else if k < 0 {
                    self.lemma_run_cells(marker, row, column, -dr, -dc, (3 - ahead) as nat, -k);
                    self.lemma_along_reversed(row, column, dr, dc, -k);
                }
            }
            assert(self.line_of_four(marker, row, column, dr, dc, s));
        }
        if exists|s: int| 0 <= s <= 3 && #[trigger] self.line_of_four(marker, row, column, dr, dc, s) {
            let s = choose|s: int| 0 <= s <= 3 && #[trigger] self.line_of_four(marker, row, column, dr, dc, s);
            assert forall|k: int| 1 <= k <= 3 - s implies #[trigger] self.along(row, column, dr, dc, k) == Some(marker) by {
            }
            self.lemma_run_at_least(marker, row, column, dr, dc, 3, (3 - s) as nat);
            if ahead < 3 {
                assert forall|k: int| 1 <= k <= 3 - ahead implies #[trigger] self.along(row, column, -dr, -dc, k) == Some(marker) by {
                    self.lemma_along_reversed(row, column, dr, dc, k);
                    assert(self.along(row, column, dr, dc, -k) == Some(marker));
                }
                self.lemma_run_at_least(marker, row, column, -dr, -dc, (3 - ahead) as nat, (3 - ahead) as nat);
            }
        }
    }

    /// Through a cell that holds `marker`, a win is detected exactly when
    /// four cells of `marker` in a row pass through that cell: vertically,
    /// horizontally or diagonally.
    pub proof fn lemma_win_iff_line(self, marker: Marker, row: int, column: int)
        requires
            self.at(row, column) == Some(marker),
        ensures
            self.wins_at(marker, row, column) <==> self.line_through(marker, row, column),
    {
        self.lemma_count_iff_line(marker, row, column, 1, 0);
        self.lemma_count_iff_line(marker, row, column, 0, 1);
        self.lemma_count_iff_line(marker, row, column, 1, 1);
        self.lemma_count_iff_line(marker, row, column, -1, 1);
        if self.line_through(marker, row, column) {
            let (dr, dc, s) = choose|dr: int, dc: int, s: int|
                Self::is_direction(dr, dc) && 0 <= s <= 3 && #[trigger] self.line_of_four(marker, row, column, dr, dc, s);
            assert(self.count_through(marker, row, column, dr, dc) >= 4);
        }
    }
}

/// A game board: a fixed number of rows and columns, each column holding
/// the markers dropped into it from the bottom up.
pub struct Board {
    rows: i8,
    columns: i8,
    stacks: Vec<Vec<Marker>>,
}

/// How many rows or columns a size gives: none where it is not positive.
pub open spec fn nonneg(n: i8) -> int {
    if n > 0 {
        n as int
    } else {
        0
    }
}

impl View for Board {
    type V = BoardView;

    closed spec fn view(&self) -> BoardView {
        BoardView {
            rows: self.rows as int,
            columns: self.columns as int,
            cells: Map::new(
                |p: (int, int)|
                    1 <= p.1 <= self.stacks@.len() && 1 <= p.0 <= self.stacks@[p.1 - 1]@.len(),
                |p: (int, int)| self.stacks@[p.1 - 1]@[p.0 - 1],
            ),
        }
    }
}

impl Board {
    /// One stack per column, none higher than the board.
    pub closed spec fn wf(&self) -> bool {
        &&& self.stacks@.len() == nonneg(self.columns)
        &&& forall|i: int|
            0 <= i < self.stacks@.len() ==> #[trigger] self.stacks@[i]@.len() <= nonneg(self.rows)
    }

    /// Markers on a board lie on it and rest on one another: each occupied
    /// cell above the bottom row has an occupied cell below it.
    pub proof fn lemma_gravity(&self)
        requires
            self.wf(),
        ensures
            self@.gravity(),
    {
        assert forall|row: int, column: int| #[trigger] self@.occupied(row, column) implies self@.in_range(row, column)
            && (row > 1 ==> self@.occupied(row - 1, column)) by {
            self.lemma_view_cell(row, column);
            self.lemma_view_cell(row - 1, column);
        }
    }

    proof fn lemma_view_cell(&self, row: int, column: int)
        requires
            self.wf(),
        ensures
            self@.occupied(row, column) <==> (1 <= column <= nonneg(self.columns) && 1 <= row
                <= self.stacks@[column - 1]@.len()),
            self@.occupied(row, column) ==> self@.cells[(row, column)]
                == self.stacks@[column - 1]@[row - 1],
    {
    }

    /// Scanning a column from `row` upward finds the cell above its stack.
    proof fn lemma_lowest_empty_from(&self, column: int, row: int)
        requires
            self.wf(),
            1 <= column <= nonneg(self.columns),
            1 <= row <= self.stacks@[column - 1]@.len() + 1,
        ensures
            self@.lowest_empty_from(column, row) == (if self.stacks@[column - 1]@.len()
                < nonneg(self.rows) {
                Some(self.stacks@[column - 1]@.len() + 1 as int)
            } else {
                None
            }),
        decreases self.stacks@[column - 1]@.len() + 1 - row,
    {
        let h = self.stacks@[column - 1]@.len();
        if row <= h {
            self.lemma_lowest_empty_from(column, row + 1);
        }
    }

    /// Makes an empty board of the given size.
    pub fn new(rows: i8, columns: i8) -> (r: Board)
        ensures
            r.wf(),
            r@.rows == rows as int,
            r@.columns == columns as int,
            r@.cells == Map::<(int, int), Marker>::empty(),
    {
        let mut stacks: Vec<Vec<Marker>> = Vec::new();
        let mut i: i8 = 0;
        while i < columns
            invariant
                0 <= i,
                i <= columns || (i == 0 && columns < 0),
                stacks@.len() == i as int,
                forall|k: int| 0 <= k < stacks@.len() ==> #[trigger] stacks@[k]@.len() == 0,
            decreases columns - i,
        {
            stacks.push(Vec::new());
            i = i + 1;
        }
        let r = Board { rows, columns, stacks };
        assert(r@.cells =~= Map::<(int, int), Marker>::empty());
        r
    }

    /// The number of rows.
    pub fn rows(&self) -> (r: i8)
        ensures
            r as int == self@.rows,
    {
        self.rows
    }

    /// The number of columns.
    pub fn columns(&self) -> (r: i8)
        ensures
            r as int == self@.columns,
    {
        self.columns
    }

    /// The marker at a cell; `None` for an empty cell or one off the board.
    fn cell(&self, row: i16, column: i16) -> (r: Option<Marker>)
        requires
            self.wf(),
        ensures
            r == self@.at(row as int, column as int),
    {
        proof {
            self.lemma_view_cell(row as int, column as int);
        }
        if column < 1 || column as usize > self.stacks.len() {
            return None;
        }
        let stack = &self.stacks[column as usize - 1];
        if row < 1 || row as usize > stack.len() {
            None
        } else {
            Some(stack[row as usize - 1])
        }
    }

    /// The marker at a cell; `None` for an empty cell or one off the board.
    pub fn get(&self, row: i8, column: i8) -> (r: Option<Marker>)
        requires
            self.wf(),
        ensures
            r == self@.at(row as int, column as int),
    {
        self.cell(row as i16, column as i16)
    }

    /// The row that a marker dropped into `column` would land on: the lowest
    /// empty one. `None` where the column is full or is not on the board.
    pub fn find_top(&self, column: &i8) -> (r: Option<i8>)
        requires
            self.wf(),
        ensures
            r is Some <==> self@.lowest_empty(*column as int) is Some,
            r is Some ==> self@.lowest_empty(*column as int) == Some(r->Some_0 as int),
    {
        let c = *column;
        if c < 1 || c > self.columns {
            return None;
        }
        proof {
            self.lemma_lowest_empty_from(c as int, 1);
        }
        let height = self.stacks[c as usize - 1].len();
        if (height as i8) < self.rows {
            Some(height as i8 + 1)
        } else {
            None
        }
    }

    /// Drops `marker` into `column`: it lands on the lowest empty row. Returns
    /// false, leaving the board unchanged, where the column is full or is not
    /// on the board.
    pub fn add_marker(&mut self, column: &i8, marker: &Marker) -> (r: bool)
        requires
            old(self).wf(),
        ensures
            final(self).wf(),
            r == old(self)@.lowest_empty(*column as int) is Some,
            final(self)@ == old(self)@.drop_into(*column as int, *marker),
    {
        match self.find_top(column) {
            Some(row) => {
                let ghost before = self@;
                proof {
                    self.lemma_lowest_empty_from(*column as int, 1);
                }
                let c = *column as usize - 1;
                self.stacks[c].push(*marker);
                assert(self@.cells =~= before.cells.insert((row as int, *column as int), *marker));
                true
            },
            None => false,
        }
    }
    /// Extends a running count of `marker` from `(row, column)` along `dir`,
    /// one cell at a time, until a cell does not hold `marker` or the count
    /// reaches four.
    fn find_contiguous_count(
        &self,
        marker: &Marker,
        row: &i8,
        column: &i8,
        count: i8,
        dir: &(i8, i8),
    ) -> (r: i8)
        requires
            self.wf(),
            1 <= count <= 4,
            -1 <= dir.0 <= 1,
            -1 <= dir.1 <= 1,
        ensures
            r == count + self@.run(*marker, *row as int, *column as int, dir.0 as int, dir.1 as int, (4 - count) as nat),
    {
        let mut n: i8 = count;
        let mut r: i16 = *row as i16;
        let mut c: i16 = *column as i16;
        while n < 4
            invariant
                self.wf(),
                1 <= count <= n <= 4,
                -1 <= dir.0 <= 1,
                -1 <= dir.1 <= 1,
                r == *row as int + (n - count) * dir.0,
                c == *column as int + (n - count) * dir.1,
                count + self@.run(*marker, *row as int, *column as int, dir.0 as int, dir.1 as int, (4 - count) as nat)
                    == n + self@.run(*marker, r as int, c as int, dir.0 as int, dir.1 as int, (4 - n) as nat),
            decreases 4 - n,
        {
            proof {
                assert(-4 <= (n - count) * dir.0 <= 4) by (nonlinear_arith)
                    requires 0 <= n - count <= 3, -1 <= dir.0 <= 1;
                assert(-4 <= (n - count) * dir.1 <= 4) by (nonlinear_arith)
                    requires 0 <= n - count <= 3, -1 <= dir.1 <= 1;
            }
            let next_r = r + dir.0 as i16;
            let next_c = c + dir.1 as i16;
            match self.cell(next_r, next_c) {
                Some(m) => {
                    if m != *marker {
                        return n;
                    }
                },
                None => {
                    return n;
                },
            }
            proof {
                assert((n + 1 - count) * dir.0 == (n - count) * dir.0 + dir.0) by (nonlinear_arith);
                assert((n + 1 - count) * dir.1 == (n - count) * dir.1 + dir.1) by (nonlinear_arith);
            }
            n = n + 1;
            r = next_r;
            c = next_c;
        }
        n
    }

    /// Whether `marker`, just placed at `(row, column)`, completes four in a
    /// row through that cell. Only the lines through that cell are looked at.
    pub fn is_winner(&self, marker: &Marker, row: &i8, column: &i8) -> (r: bool)
        requires
            self.wf(),
        ensures
            r == self@.wins_at(*marker, *row as int, *column as int),
    {
        let dirs: [(i8, i8); 4] = [(1, 0), (0, 1), (1, 1), (-1, 1)];
        let ghost want: Seq<(i8, i8)> = seq![(1i8, 0i8), (0i8, 1i8), (1i8, 1i8), (-1i8, 1i8)];
        assert(dirs@ =~= want);
        let mut i: usize = 0;
        while i < 4
            invariant
                self.wf(),
                want == seq![(1i8, 0i8), (0i8, 1i8), (1i8, 1i8), (-1i8, 1i8)],
                dirs@ == want,
                i <= 4,
                forall|k: int|
                    0 <= k < i ==> self@.count_through(*marker, *row as int, *column as int, #[trigger] want[k].0 as int, want[k].1 as int) < 4,
            decreases 4 - i,
        {
            let dir = &dirs[i];
            let dir_reverse = (-dir.0, -dir.1);
            let count_1 = self.find_contiguous_count(marker, row, column, 1, dir);
            if count_1 >= 4 {
                return true;
            }
            let count_2 = self.find_contiguous_count(marker, row, column, count_1, &dir_reverse);
            if count_2 >= 4 {
                return true;
            }
            i = i + 1;
        }
        assert(self@.count_through(*marker, *row as int, *column as int, want[0].0 as int, want[0].1 as int) < 4);
        assert(self@.count_through(*marker, *row as int, *column as int, want[1].0 as int, want[1].1 as int) < 4);
        assert(self@.count_through(*marker, *row as int, *column as int, want[2].0 as int, want[2].1 as int) < 4);
        assert(self@.count_through(*marker, *row as int, *column as int, want[3].0 as int, want[3].1 as int) < 4);
        false
    }

    /// Whether every column has a marker in its top row.
    pub fn is_filled(&self) -> (r: bool)
        requires
            self.wf(),
        ensures
            r == self@.filled(),
    {
        let mut i: i16 = 1;
        while i <= self.columns as i16
            invariant
                self.wf(),
                1 <= i <= 128,
                forall|k: int| 1 <= k < i ==> #[trigger] self@.occupied(self@.rows, k),
            decreases 128 - i,
        {
            if self.cell(self.rows as i16, i).is_none() {
                assert(!self@.occupied(self@.rows, i as int));
                return false;
            }
            i = i + 1;
        }
        true
    }
    /// The board as text: one line per row, from the top row down, each cell
    /// shown as its marker's symbol or `_` when empty.
    pub fn render(&self) -> (r: String)
        requires
            self.wf(),
        ensures
            r@ == self@.rendered(),
    {
        let mut out = String::new();
        let mut i: i16 = self.rows as i16;
        while i >= 1
            invariant
                self.wf(),
                i <= self.rows,
                out@ + self@.text_from(i as int) == self@.rendered(),
            decreases i,
        {
            let ghost base = out@;
            let mut j: i16 = 1;
            while j <= self.columns as i16
                invariant
                    self.wf(),
                    1 <= i <= self.rows,
                    1 <= j <= 128,
                    j == 1 || j <= self.columns + 1,
                    out@ == base + self@.row_prefix(i as int, j - 1),
                decreases 128 - j,
            {
                let text = match self.cell(i, j) {
                    Some(Marker::X) => "X",
                    Some(Marker::O) => "O",
                    None => "_",
                };
                proof {
                    reveal_strlit("X");
                    reveal_strlit("O");
                    reveal_strlit("_");
                }
                out.append(text);
                assert(out@ =~= base + self@.row_prefix(i as int, j as int));
                j = j + 1;
            }
            out.append("\n");
            proof {
                reveal_strlit("\n");
                assert(j - 1 == self@.columns || (j == 1 && self@.columns < 1));
                assert(self@.row_prefix(i as int, j - 1) =~= self@.row_prefix(i as int, self@.columns));
                assert(out@ =~= base + self@.row_text(i as int));
                assert(base + self@.text_from(i as int) =~= out@ + self@.text_from(i - 1));
            }
            i = i - 1;
        }
        assert(self@.text_from(i as int) =~= Seq::empty());
        assert(out@ =~= self@.rendered());
        out
    }
}

} // verus!
