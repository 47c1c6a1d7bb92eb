//! The board in memory: reads and writes, gravity drops and the detection
//! of four in a row through the piece played last.

use crate::grid::{lemma_index, lemma_pieces_bound, lemma_pieces_push, pieces, Grid};
use vstd::prelude::*;

verus! {

/// What a cell holds. The same three values name the side to move and the
/// result of a game, where `Empty` stands for "nobody": a draw.
#[derive(Copy, Clone, PartialEq, Eq, Debug, Structural)]
pub enum Player {
    P1,
    Empty,
    P2,
}

impl Player {
    /// The other side; `Empty` has no other side and stays as it is.
    pub open spec fn opponent(self) -> Player {
        match self {
            Player::P1 => Player::P2,
            Player::P2 => Player::P1,
            Player::Empty => Player::Empty,
        }
    }

    /// The other side.
    pub fn switch(&self) -> (r: Player)
        ensures
            r == self.opponent(),
    {
        match *self {
            Player::P1 => Player::P2,
            Player::P2 => Player::P1,
            Player::Empty => Player::Empty,
        }
    }
}

/// `a` brought into the range from 0 to `b`.
pub open spec fn clamped(a: int, b: int) -> int {
    if a < 0 {
        0
    } else if a >= b {
        b
    } else {
        a
    }
}

/// First start to try for a window of `length` cells around position `a` on
/// an axis of `bound` cells.
pub open spec fn window_start(a: int, bound: int, length: int) -> int {
    clamped(a - (length - 1), bound - 1)
}

/// One past the last start to try for such a window.
pub open spec fn window_end(a: int, bound: int, length: int) -> int {
    clamped(clamped(a + (length - 1), bound - 1) - (length - 1) + 1, bound - 1)
}

/// The window of `length` cells that starts at `s` lies on an axis of
/// `bound` cells and covers position `a`.
pub open spec fn covers(s: int, a: int, bound: int, length: int) -> bool {
    0 <= s <= a < s + length && s + length <= bound
}

/// For a position on the axis and windows of two cells or more: the first
/// start is the position less the rest of the window, but not below zero;
/// the end is one past the last start that keeps the window on the axis,
/// but not below zero; and the starts from the first up to, not including,
/// the end are those of the windows that fit on the axis and cover the
/// position: each of them, and no other start.
pub proof fn lemma_window_range(a: int, bound: int, length: int)
    requires
        0 <= a < bound,
        length >= 2,
    ensures
        window_start(a, bound, length) == if a - (length - 1) < 0 {
            0
        } else {
            a - (length - 1)
        },
        window_end(a, bound, length) == if bound < length {
            0
        } else if a + (length - 1) > bound - 1 {
            bound - length + 1
        } else {
            a + 1
        },
        forall|s: int|
            #![trigger covers(s, a, bound, length)]
            window_start(a, bound, length) <= s < window_end(a, bound, length) <==> covers(
                s,
                a,
                bound,
                length,
            ),
{
}

/// `a` brought into the range from 0 to `b`.
pub fn clamp(a: i64, b: u32) -> (r: u32)
    ensures
        r == clamped(a as int, b as int),
{
    if a < 0 {
        0
    } else if a >= b as i64 {
        b
    } else {
        a as u32
    }
}

/// The range of window starts to try around position `a`: the first, and
/// one past the last.
pub fn find_bounds_for_line(a: i32, bound: u32, length: u32) -> (r: (u32, u32))
    requires
        bound >= 1,
        length >= 1,
    ensures
        r.0 == window_start(a as int, bound as int, length as int),
        r.1 == window_end(a as int, bound as int, length as int),
{
    let diff: i64 = (length - 1) as i64;
    let earliest = clamp(a as i64 - diff, bound - 1);
    let latest = clamp(clamp(a as i64 + diff, bound - 1) as i64 - diff + 1, bound - 1);
    (earliest, latest)
}

/// The cell that an integer of a flat board description stands for:
/// positive for `P1`, negative for `P2`, zero for an empty cell.
pub open spec fn cell_of(x: i32) -> Player {
    if x > 0 {
        Player::P1
    } else if x < 0 {
        Player::P2
    } else {
        Player::Empty
    }
}

/// A board in memory. `vector` holds the cells row by row from the bottom,
/// `turn_number` the number of pieces on it, and `over` the answer of the
/// first `is_over` query made of this board, once there was one.
pub struct Board {
    pub w: u32,
    pub h: u32,
    pub turn_number: u32,
    pub vector: Vec<Player>,
    pub over: Option<bool>,
}

impl View for Board {
    type V = Grid;

    open spec fn view(&self) -> Grid {
        Grid { w: self.w as nat, h: self.h as nat, cells: self.vector@ }
    }
}

impl Clone for Board {
    /// A board of its own with the same cells, count and remembered answer.
    fn clone(&self) -> (b: Board)
        ensures
            b@ == self@,
            b.turn_number == self.turn_number,
            b.over == self.over,
    {
        let mut cells: Vec<Player> = Vec::new();
        let mut i: usize = 0;
        while i < self.vector.len()
            invariant
                i <= self.vector.len(),
                cells@ == self.vector@.take(i as int),
            decreases self.vector.len() - i,
        {
            cells.push(self.vector[i]);
            i = i + 1;
        }
        assert(self.vector@.take(self.vector.len() as int) =~= self.vector@);
        Board {
            w: self.w,
            h: self.h,
            turn_number: self.turn_number,
            vector: cells,
            over: self.over,
        }
    }
}

impl Board {
    /// The cells fill the rectangle, every coordinate fits a signed 32-bit
    /// number, the cell count fits `u32`, and `turn_number` counts the pieces.
    pub open spec fn wf(&self) -> bool {
        &&& self@.wf()
        &&& self.w <= i32::MAX
        &&& self.h <= i32::MAX
        &&& self.w * self.h <= u32::MAX
        &&& self.turn_number == self@.occupied()
    }

    /// The answer that `is_over` gives for column `x`: the remembered one
    /// where there is one, else whether the topmost piece of the column
    /// completes a run of four.
    pub open spec fn verdict(&self, x: int) -> bool {
        match self.over {
            Some(known) => known,
            None => self@.decided(x),
        }
    }

    /// Asked twice, of the same column or of another, a board gives its
    /// first answer both times: `after` stands for the board as the first
    /// query has left it.
    pub proof fn lemma_verdict_repeats(&self, after: Board, x: int, y: int)
        requires
            after@ == self@,
            after.over == Some(self.verdict(x)),
        ensures
            after.verdict(y) == self.verdict(x),
    {
    }

    /// Tests `wf`.
    pub fn well_formed(&self) -> (ok: bool)
        ensures
            ok == self.wf(),
    {
        if self.w > 0x7fff_ffff || self.h > 0x7fff_ffff {
            return false;
        }
        assert(self.w * self.h <= 0x7fff_ffff * 0x7fff_ffff) by (nonlinear_arith)
            requires
                self.w <= 0x7fff_ffff,
                self.h <= 0x7fff_ffff,
        ;
        let size: u64 = self.w as u64 * self.h as u64;
        if size > 0xffff_ffff || self.vector.len() as u64 != size {
            return false;
        }
        let mut count: u32 = 0;
        let mut i: usize = 0;
        while i < self.vector.len()
            invariant
                self.vector.len() <= u32::MAX,
                i <= self.vector.len(),
                count == pieces(self.vector@.take(i as int)),
            decreases self.vector.len() - i,
        {
            proof {
                lemma_pieces_bound(self.vector@.take(i as int));
                lemma_pieces_push(self.vector@.take(i as int), self.vector@[i as int]);
                assert(self.vector@.take(i + 1) =~= self.vector@.take(i as int).push(
                    self.vector@[i as int],
                ));
            }
            if self.vector[i] != Player::Empty {
                count = count + 1;
            }
            i = i + 1;
        }
        assert(self.vector@.take(self.vector.len() as int) =~= self.vector@);
        count == self.turn_number
    }

    /// Is there a legal move: a column with room?
    pub fn has_move(&self) -> (yes: bool)
        requires
            self.wf(),
        ensures
            yes == exists|c: int| self@.has_room(c),
    {
        let mut column: u32 = 0;
        while column < self.w
            invariant
                self.wf(),
                column <= self.w,
                forall|c: int| 0 <= c < column ==> !self@.has_room(c),
            decreases self.w - column,
        {
            if self.find_column_floor(column) < self.h {
                assert(self@.has_room(column as int));
                return true;
            }
            column = column + 1;
        }
        false
    }

    /// Where the cell at `column`, `row` stands in `vector`.
    fn index(&self, column: u32, row: u32) -> (i: usize)
        requires
            self.wf(),
            column < self.w,
            row < self.h,
        ensures
            i == row * self.w + column,
            i < self.vector.len(),
    {
        proof {
            lemma_index(self.w as nat, self.h as nat, column as int, row as int);
        }
        let base: u32 = row * self.w;
        (base + column) as usize
    }

    /// The cell at `column`, `row`, which must lie on the board.
    pub fn get(&self, column: u32, row: u32) -> (p: Player)
        requires
            self.wf(),
            column < self.w,
            row < self.h,
        ensures
            p == self@.at(column as int, row as int),
    {
        let i = self.index(column, row);
        self.vector[i]
    }

    /// A read at signed coordinates that answers `None` off the board.
    pub fn get_option(&self, column: i64, row: i64) -> (cell: Option<Player>)
        requires
            self.wf(),
        ensures
            cell == self@.probe(column as int, row as int),
    {
        if column < 0 || row < 0 {
            return None;
        }
        if column >= self.w as i64 || row >= self.h as i64 {
            return None;
        }
        Some(self.get(column as u32, row as u32))
    }

    /// Writes `p` at column `column`, row `row`, whatever was there, and
    /// keeps `turn_number` in step. The remembered `is_over` answer stays.
    pub fn put(&mut self, column: u32, row: u32, p: Player)
        requires
            old(self).wf(),
            column < old(self).w,
            row < old(self).h,
        ensures
            final(self).wf(),
            final(self)@ == old(self)@.with(column as int, row as int, p),
            final(self).over == old(self).over,
    {
        let i = self.index(column, row);
        let was = self.vector[i];
        proof {
            self@.lemma_with(column as int, row as int, p);
            lemma_pieces_bound(self@.with(column as int, row as int, p).cells);
        }
        if was == Player::Empty && p != Player::Empty {
            self.turn_number = self.turn_number + 1;
        } else if was != Player::Empty && p == Player::Empty {
            self.turn_number = self.turn_number - 1;
        }
        self.vector.set(i, p);
    }

    /// The landing row of `column`: `h` when the column is full.
    pub fn find_column_floor(&self, column: u32) -> (floor: u32)
        requires
            self.wf(),
            column < self.w,
        ensures
            floor == self@.floor(column as int),
            floor <= self.h,
    {
        let mut i: u32 = self.h;
        while i > 0
            invariant
                self.wf(),
                column < self.w,
                i <= self.h,
                self@.floor(column as int) == self@.stack(column as int, i as nat),
            decreases i,
        {
            if self.get(column, i - 1) != Player::Empty {
                return i;
            }
            i = i - 1;
        }
        0
    }

    /// Drops a piece of `p` into `column`. `None` when the column is full;
    /// else a new board, one piece richer, with nothing remembered of
    /// `is_over`. The board itself is left as it was.
    pub fn place(&self, column: u32, p: Player) -> (next: Option<Board>)
        requires
            self.wf(),
            column < self.w,
            p != Player::Empty,
        ensures
            next is None <==> self@.floor(column as int) >= self.h,
            next matches Some(b) ==> {
                &&& b.wf()
                &&& b@ == self@.drop(column as int, p)
                &&& b@.occupied() == self@.occupied() + 1
                &&& b.turn_number == self.turn_number + 1
                &&& b.over is None
                &&& b@.at(column as int, self@.floor(column as int) as int) == p
                &&& forall|c: int, r: int|
                    self@.in_range(c, r) && (c != column || r != self@.floor(column as int))
                        ==> #[trigger] b@.at(c, r) == self@.at(c, r)
            },
    {
        let column_floor = self.find_column_floor(column);
        if column_floor == self.h {
            return None;
        }
        proof {
            self@.lemma_drop(column as int, p);
        }
        let mut new_board = self.clone();
        new_board.over = None;
        new_board.put(column, column_floor, p);
        Some(new_board)
    }

    /// Is the cell at `x`, `y`, which holds `p`, part of four in a column?
    /// Tries each window of four rows that covers row `y`.
    fn four_upwards(&self, x: u32, y: u32, p: Player) -> (found: bool)
        requires
            self.wf(),
            x < self.w,
            y < self.h,
            p == self@.at(x as int, y as int),
        ensures
            found == self@.axis(x as int, y as int, 0, 1),
    {
        let (low, high) = find_bounds_for_line(y as i32, self.h, 4);
        proof {
            lemma_window_range(y as int, self.h as int, 4);
        }
        let mut i: u32 = low;
        while i < high
            invariant
                self.wf(),
                x < self.w,
                low <= i,
                forall|s: int|
                    low <= s < high <==> #[trigger] covers(s, y as int, self.h as int, 4),
                forall|s: int| low <= s < i ==> !#[trigger] self@.run(x as int, s, 0, 1, p),
            decreases high - i,
        {
            assert(covers(i as int, y as int, self.h as int, 4));
            if self.get(x, i) == p && self.get(x, i + 1) == p && self.get(x, i + 2) == p
                && self.get(x, i + 3) == p {
                return true;
            }
            i = i + 1;
        }
        proof {
            let g = self@;
            if g.run(x as int, y - 0, 0, 1, p) {
                assert(covers(y - 0, y as int, self.h as int, 4));
            }
            if g.run(x as int, y - 1, 0, 1, p) {
                assert(covers(y - 1, y as int, self.h as int, 4));
            }
            if g.run(x as int, y - 2, 0, 1, p) {
                assert(covers(y - 2, y as int, self.h as int, 4));
            }
            if g.run(x as int, y - 3, 0, 1, p) {
                assert(covers(y - 3, y as int, self.h as int, 4));
            }
        }
        false
    }

    /// Is the cell at `x`, `y`, which holds `p`, part of four in a row?
    /// Tries each window of four columns that covers column `x`.
    fn four_sideways(&self, x: u32, y: u32, p: Player) -> (found: bool)
        requires
            self.wf(),
            x < self.w,
            y < self.h,
            p == self@.at(x as int, y as int),
        ensures
            found == self@.axis(x as int, y as int, 1, 0),
    {
        let (low, high) = find_bounds_for_line(x as i32, self.w, 4);
        proof {
            lemma_window_range(x as int, self.w as int, 4);
        }
        let mut i: u32 = low;
        while i < high
            invariant
                self.wf(),
                y < self.h,
                low <= i,
                forall|s: int|
                    low <= s < high <==> #[trigger] covers(s, x as int, self.w as int, 4),
                forall|s: int| low <= s < i ==> !#[trigger] self@.run(s, y as int, 1, 0, p),
            decreases high - i,
        {
            assert(covers(i as int, x as int, self.w as int, 4));
            if self.get(i, y) == p && self.get(i + 1, y) == p && self.get(i + 2, y) == p
                && self.get(i + 3, y) == p {
                return true;
            }
            i = i + 1;
        }
        proof {
            let g = self@;
            if g.run(x - 0, y as int, 1, 0, p) {
                assert(covers(x - 0, x as int, self.w as int, 4));
            }
            if g.run(x - 1, y as int, 1, 0, p) {
                assert(covers(x - 1, x as int, self.w as int, 4));
            }
            if g.run(x - 2, y as int, 1, 0, p) {
                assert(covers(x - 2, x as int, self.w as int, 4));
            }
            if g.run(x - 3, y as int, 1, 0, p) {
                assert(covers(x - 3, x as int, self.w as int, 4));
            }
        }
        false
    }

    /// Does the cell at column `c`, row `r` lie on the board and hold `p`?
    fn holds(&self, c: i64, r: i64, p: Player) -> (yes: bool)
        requires
            self.wf(),
        ensures
            yes == self@.holds(c as int, r as int, p),
    {
        match self.get_option(c, r) {
            None => false,
            Some(piece_type) => piece_type == p,
        }
    }

    /// Four cells from column `c`, row `r` along the diagonal that rises
    /// (`slope` 1) or falls (`slope` -1) to the right; a cell off the board
    /// spoils the run.
    fn four_from(&self, c: i64, r: i64, slope: i64, p: Player) -> (found: bool)
        requires
            self.wf(),
            slope == 1 || slope == -1,
            -3 <= c <= u32::MAX,
            -3 <= r <= u32::MAX,
        ensures
            found == self@.run(c as int, r as int, 1, slope as int, p),
    {
        self.holds(c, r, p) && self.holds(c + 1, r + slope, p) && self.holds(
            c + 2,
            r + 2 * slope,
            p,
        ) && self.holds(c + 3, r + 3 * slope, p)
    }

    /// Is the cell at `x`, `y`, which holds `p`, part of four along the
    /// diagonal of that slope? Tries the four runs that pass through it.
    fn four_diagonal(&self, x: u32, y: u32, slope: i64, p: Player) -> (found: bool)
        requires
            self.wf(),
            x < self.w,
            y < self.h,
            slope == 1 || slope == -1,
            p == self@.at(x as int, y as int),
        ensures
            found == self@.axis(x as int, y as int, 1, slope as int),
    {
        let c = x as i64;
        let r = y as i64;
        self.four_from(c, r, slope, p) || self.four_from(c - 1, r - slope, slope, p)
            || self.four_from(c - 2, r - 2 * slope, slope, p) || self.four_from(
            c - 3,
            r - 3 * slope,
            slope,
            p,
        )
    }

    /// Has the last move, made in column `x`, decided the game? The first
    /// query of a board looks at the topmost piece of the column and is
    /// remembered; every later query, of whatever column, repeats its answer.
    pub fn is_over(&mut self, x: u32) -> (decided: bool)
        requires
            old(self).wf(),
            old(self).over is None ==> x < old(self).w && old(self)@.floor(x as int) > 0,
        ensures
            decided == old(self).verdict(x as int),
            final(self).over == Some(decided),
            final(self)@ == old(self)@,
            final(self).turn_number == old(self).turn_number,
            final(self).wf(),
    {
        if let Some(known) = self.over {
            return known;
        }
        let y = self.find_column_floor(x) - 1;
        let p = self.get(x, y);
        let decided = self.four_upwards(x, y, p) || self.four_sideways(x, y, p)
            || self.four_diagonal(x, y, 1, p) || self.four_diagonal(x, y, -1, p);
        self.over = Some(decided);
        decided
    }

    /// A board of `w` columns and `h` rows over the given cells, with
    /// nothing remembered of `is_over`.
    pub fn new(array: Vec<Player>, turn_number: u32, w: u32, h: u32) -> (b: Board)
        requires
            array.len() == w * h,
            w <= i32::MAX,
            h <= i32::MAX,
            w * h <= u32::MAX,
            turn_number == pieces(array@),
        ensures
            b.wf(),
            b.w == w,
            b.h == h,
            b.vector@ == array@,
            b.turn_number == turn_number,
            b.over is None,
    {
        Board { vector: array, turn_number: turn_number, over: None, w: w, h: h }
    }

    /// The board that a flat list of integers describes, one integer per
    /// cell, row by row from the bottom.
    pub fn from_int_array(board_array: Vec<i32>, w: u32, h: u32) -> (b: Board)
        requires
            board_array.len() == w * h,
            w <= i32::MAX,
            h <= i32::MAX,
            w * h <= u32::MAX,
        ensures
            b.wf(),
            b.w == w,
            b.h == h,
            b.vector@ == board_array@.map_values(|x: i32| cell_of(x)),
            b.over is None,
    {
        let mut board_array_player: Vec<Player> = Vec::new();
        let mut turn_number: u32 = 0;
        let mut i: usize = 0;
        while i < board_array.len()
            invariant
                i <= board_array.len(),
                board_array.len() <= u32::MAX,
                board_array_player@ == board_array@.take(i as int).map_values(|x: i32| cell_of(x)),
                turn_number == pieces(board_array_player@),
            decreases board_array.len() - i,
        {
            let place = board_array[i];
            let player_in_place = if place > 0 {
                Player::P1
            } else if place < 0 {
                Player::P2
            } else {
                Player::Empty
            };
            proof {
                lemma_pieces_push(board_array_player@, player_in_place);
                lemma_pieces_bound(board_array_player@);
                assert(board_array@.take(i + 1).map_values(|x: i32| cell_of(x))
                    =~= board_array_player@.push(player_in_place));
            }
            if place != 0 {
                turn_number = turn_number + 1;
            }
            board_array_player.push(player_in_place);
            i = i + 1;
        }
        Board::new(board_array_player, turn_number, w, h)
    }
}

} // verus!
