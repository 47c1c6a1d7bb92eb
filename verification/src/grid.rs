//! The board as mathematics: a rectangle of cells, the height of its
//! columns, runs of four, and what a write and a drop do to it.

use crate::c4::Player;
use vstd::prelude::*;

verus! {

/// Number of cells of `cells` that hold a piece.
pub open spec fn pieces(cells: Seq<Player>) -> nat
    decreases cells.len(),
{
    if cells.len() == 0 {
        0
    } else {
        pieces(cells.drop_last()) + if cells.last() != Player::Empty {
            1nat
        } else {
            0nat
        }
    }
}

/// The mathematical board: `w` columns, `h` rows, row 0 at the bottom, and
/// the cell of column `c` in row `r` at index `r * w + c`.
pub struct Grid {
    pub w: nat,
    pub h: nat,
    pub cells: Seq<Player>,
}

impl Grid {
    /// The cells fill the rectangle.
    pub open spec fn wf(self) -> bool {
        self.cells.len() == self.w * self.h
    }

    /// Column `c`, row `r` lies on the board.
    pub open spec fn in_range(self, c: int, r: int) -> bool {
        0 <= c < self.w && 0 <= r < self.h
    }

    /// The cell at column `c`, row `r`.
    pub open spec fn at(self, c: int, r: int) -> Player {
        self.cells[r * self.w + c]
    }

    /// A read that may fall off the board.
    pub open spec fn probe(self, c: int, r: int) -> Option<Player> {
        if self.in_range(c, r) {
            Some(self.at(c, r))
        } else {
            None
        }
    }

    /// The number of pieces on the board.
    pub open spec fn occupied(self) -> nat {
        pieces(self.cells)
    }

    /// Every cell holds a piece.
    pub open spec fn is_full(self) -> bool {
        self.occupied() >= self.w * self.h
    }

    /// Height of the stack in column `c`, looking only at rows below `n`:
    /// one more than the highest of those rows that holds a piece.
    pub open spec fn stack(self, c: int, n: nat) -> nat
        decreases n,
    {
        if n == 0 {
            0
        } else if self.at(c, n - 1) != Player::Empty {
            n
        } else {
            self.stack(c, (n - 1) as nat)
        }
    }

    /// The landing row of column `c`: the row just above its highest piece.
    pub open spec fn floor(self, c: int) -> nat {
        self.stack(c, self.h)
    }

    /// Column `c` is a column of the board and takes one more piece.
    pub open spec fn has_room(self, c: int) -> bool {
        0 <= c < self.w && self.floor(c) < self.h
    }

    /// The cell at column `c`, row `r` lies on the board and holds `p`.
    pub open spec fn holds(self, c: int, r: int, p: Player) -> bool {
        self.in_range(c, r) && self.at(c, r) == p
    }

    /// Four cells in a line, from column `c`, row `r` in steps of
    /// (`dc`, `dr`), all lie on the board and all hold `p`.
    pub open spec fn run(self, c: int, r: int, dc: int, dr: int, p: Player) -> bool {
        &&& self.holds(c, r, p)
        &&& self.holds(c + dc, r + dr, p)
        &&& self.holds(c + 2 * dc, r + 2 * dr, p)
        &&& self.holds(c + 3 * dc, r + 3 * dr, p)
    }

    /// Along the direction (`dc`, `dr`) some run of four passes through the
    /// cell at column `c`, row `r` and holds that cell's own content.
    pub open spec fn axis(self, c: int, r: int, dc: int, dr: int) -> bool {
        let p = self.at(c, r);
        ||| self.run(c, r, dc, dr, p)
        ||| self.run(c - dc, r - dr, dc, dr, p)
        ||| self.run(c - 2 * dc, r - 2 * dr, dc, dr, p)
        ||| self.run(c - 3 * dc, r - 3 * dr, dc, dr, p)
    }

    /// The cell at column `c`, row `r` is part of a run of four of its own
    /// content: upwards, sideways or along one of the two diagonals.
    pub open spec fn connects(self, c: int, r: int) -> bool {
        ||| self.axis(c, r, 0, 1)
        ||| self.axis(c, r, 1, 0)
        ||| self.axis(c, r, 1, 1)
        ||| self.axis(c, r, 1, -1)
    }

    /// The topmost piece of column `c` completes a run of four.
    pub open spec fn decided(self, c: int) -> bool {
        self.connects(c, self.floor(c) - 1)
    }

    /// No piece floats: below the floor of each column every cell holds a
    /// piece.
    pub open spec fn settled(self) -> bool {
        forall|c: int, r: int|
            0 <= c < self.w && 0 <= r < self.floor(c) ==> #[trigger] self.at(c, r) != Player::Empty
    }

    /// The same board with `p` written at column `c`, row `r`.
    pub open spec fn with(self, c: int, r: int, p: Player) -> Grid {
        Grid { w: self.w, h: self.h, cells: self.cells.update(r * self.w + c, p) }
    }

    /// The board after `p` is dropped into column `c`.
    pub open spec fn drop(self, c: int, p: Player) -> Grid {
        self.with(c, self.floor(c) as int, p)
    }
}

/// Cells are stored row by row, so a cell on the board has an index of its
/// own inside the cell sequence.
pub proof fn lemma_index(w: nat, h: nat, c: int, r: int)
    requires
        0 <= c < w,
        0 <= r < h,
    ensures
        0 <= r * w + c < w * h,
{
    assert(r * w + c < w * h) by (nonlinear_arith)
        requires
            0 <= c < w,
            0 <= r < h,
    ;
    assert(0 <= r * w) by (nonlinear_arith)
        requires
            0 <= r,
            0 <= w,
    ;
}

/// Two different cells of the board never share an index.
pub proof fn lemma_index_injective(w: nat, c1: int, r1: int, c2: int, r2: int)
    requires
        0 <= c1 < w,
        0 <= c2 < w,
        0 <= r1,
        0 <= r2,
        r1 * w + c1 == r2 * w + c2,
    ensures
        c1 == c2,
        r1 == r2,
{
    if r1 < r2 {
        assert(r1 * w + w <= r2 * w) by (nonlinear_arith)
            requires
                r1 + 1 <= r2,
                0 <= w,
        ;
    } else if r2 < r1 {
        assert(r2 * w + w <= r1 * w) by (nonlinear_arith)
            requires
                r2 + 1 <= r1,
                0 <= w,
        ;
    }
}

/// What one cell adds to the count of pieces.
pub open spec fn weight(p: Player) -> nat {
    if p != Player::Empty {
        1
    } else {
        0
    }
}

/// No sequence holds more pieces than it has cells.
pub proof fn lemma_pieces_bound(cells: Seq<Player>)
    ensures
        pieces(cells) <= cells.len(),
    decreases cells.len(),
{
    if cells.len() > 0 {
        lemma_pieces_bound(cells.drop_last());
    }
}

/// Appending a cell adds its weight to the count.
pub proof fn lemma_pieces_push(cells: Seq<Player>, p: Player)
    ensures
        pieces(cells.push(p)) == pieces(cells) + weight(p),
{
    assert(cells.push(p).drop_last() =~= cells);
}

/// Rewriting one cell trades the old cell's weight for the new one's.
pub proof fn lemma_pieces_update(cells: Seq<Player>, i: int, p: Player)
    requires
        0 <= i < cells.len(),
    ensures
        pieces(cells.update(i, p)) + weight(cells[i]) == pieces(cells) + weight(p),
    decreases cells.len(),
{
    let after = cells.update(i, p);
    if i == cells.len() - 1 {
        assert(after.drop_last() =~= cells.drop_last());
    } else {
        lemma_pieces_update(cells.drop_last(), i, p);
        assert(after.drop_last() =~= cells.drop_last().update(i, p));
    }
}

impl Grid {
    /// What `stack` returns is the height of a stack: nothing lies at or
    /// above it (below row `n`), and a piece lies just beneath it.
    pub proof fn lemma_stack(self, c: int, n: nat)
        ensures
            self.stack(c, n) <= n,
            forall|r: int| self.stack(c, n) <= r < n ==> self.at(c, r) == Player::Empty,
            self.stack(c, n) > 0 ==> self.at(c, self.stack(c, n) - 1) != Player::Empty,
        decreases n,
    {
        if n > 0 && self.at(c, n - 1) == Player::Empty {
            self.lemma_stack(c, (n - 1) as nat);
        }
    }

    /// The landing row is the one row that has only empty cells from itself
    /// upwards and a piece right below.
    pub proof fn lemma_floor_unique(self, c: int, f: int)
        requires
            0 <= f <= self.h,
            forall|r: int| f <= r < self.h ==> self.at(c, r) == Player::Empty,
            f > 0 ==> self.at(c, f - 1) != Player::Empty,
        ensures
            self.floor(c) == f,
    {
        self.lemma_stack(c, self.h);
        let g = self.floor(c) as int;
        if g < f {
            assert(self.at(c, f - 1) == Player::Empty);
        } else if f < g {
            assert(self.at(c, g - 1) == Player::Empty);
        }
    }

    /// A write inside the board changes the cell written and no other, and
    /// moves the count of pieces by the difference of the two weights.
    pub proof fn lemma_with(self, c: int, r: int, p: Player)
        requires
            self.wf(),
            self.in_range(c, r),
        ensures
            self.with(c, r, p).wf(),
            self.with(c, r, p).at(c, r) == p,
            forall|c2: int, r2: int|
                self.in_range(c2, r2) && (c2 != c || r2 != r) ==> #[trigger] self.with(
                    c,
                    r,
                    p,
                ).at(c2, r2) == self.at(c2, r2),
            self.with(c, r, p).occupied() + weight(self.at(c, r)) == self.occupied() + weight(p),
    {
        lemma_index(self.w, self.h, c, r);
        lemma_pieces_update(self.cells, r * self.w + c, p);
        assert forall|c2: int, r2: int|
            self.in_range(c2, r2) && (c2 != c || r2 != r) implies #[trigger] self.with(c, r, p).at(
            c2,
            r2,
        ) == self.at(c2, r2) by {
            lemma_index(self.w, self.h, c2, r2);
            if r2 * self.w + c2 == r * self.w + c {
                lemma_index_injective(self.w, c, r, c2, r2);
            }
        }
    }

    /// A well-formed board holds no more pieces than it has cells.
    pub proof fn lemma_occupied(self)
        requires
            self.wf(),
        ensures
            self.occupied() <= self.w * self.h,
    {
        lemma_pieces_bound(self.cells);
    }

    /// A drop into a column with room lands on the column's floor: the
    /// board gains exactly that one piece, every other cell stays as it
    /// was, and the column's floor rises by one.
    pub proof fn lemma_drop(self, c: int, p: Player)
        requires
            self.wf(),
            self.has_room(c),
            p != Player::Empty,
        ensures
            self.drop(c, p).wf(),
            self.drop(c, p).w == self.w,
            self.drop(c, p).h == self.h,
            self.at(c, self.floor(c) as int) == Player::Empty,
            self.drop(c, p).at(c, self.floor(c) as int) == p,
            forall|c2: int, r2: int|
                self.in_range(c2, r2) && (c2 != c || r2 != self.floor(c)) ==> #[trigger] self.drop(
                    c,
                    p,
                ).at(c2, r2) == self.at(c2, r2),
            self.drop(c, p).occupied() == self.occupied() + 1,
            self.drop(c, p).floor(c) == self.floor(c) + 1,
            forall|c2: int|
                0 <= c2 < self.w && c2 != c ==> #[trigger] self.drop(c, p).floor(c2) == self.floor(
                    c2,
                ),
    {
        let f = self.floor(c) as int;
        let after = self.drop(c, p);
        self.lemma_stack(c, self.h);
        self.lemma_with(c, f, p);
        after.lemma_floor_unique(c, f + 1);
        assert forall|c2: int| 0 <= c2 < self.w && c2 != c implies #[trigger] after.floor(c2)
            == self.floor(c2) by {
            self.lemma_stack(c2, self.h);
            after.lemma_floor_unique(c2, self.floor(c2) as int);
        }
    }

    /// A drop never leaves a gap: it keeps a board settled.
    pub proof fn lemma_drop_settled(self, c: int, p: Player)
        requires
            self.wf(),
            self.settled(),
            self.has_room(c),
            p != Player::Empty,
        ensures
            self.drop(c, p).settled(),
    {
        let after = self.drop(c, p);
        self.lemma_drop(c, p);
        assert forall|c2: int, r2: int| 0 <= c2 < after.w && 0 <= r2 < after.floor(c2) implies #[trigger] after.at(
            c2,
            r2,
        ) != Player::Empty by {
            self.lemma_stack(c2, self.h);
            if c2 != c || r2 != self.floor(c) {
                assert(self.at(c2, r2) != Player::Empty);
            }
        }
    }

    /// A settled board that is not full has a column with room.
    pub proof fn lemma_room_left(self)
        requires
            self.wf(),
            self.settled(),
            !self.is_full(),
        ensures
            exists|c: int| self.has_room(c),
    {
        if forall|c: int| 0 <= c < self.w ==> self.floor(c) >= self.h {
            assert forall|i: int| 0 <= i < self.cells.len() implies #[trigger] self.cells[i]
                != Player::Empty by {
                let w = self.w as int;
                assert(w > 0) by (nonlinear_arith)
                    requires
                        0 <= i < self.w * self.h,
                        w == self.w,
                ;
                let c = i % w;
                let r = i / w;
                vstd::arithmetic::div_mod::lemma_fundamental_div_mod(i, w);
                vstd::arithmetic::div_mod::lemma_mod_bound(i, w);
                vstd::arithmetic::div_mod::lemma_div_pos_is_pos(i, w);
                vstd::arithmetic::div_mod::lemma_multiply_divide_lt(i, w, self.h as int);
                assert(w * r == r * w) by (nonlinear_arith);
                self.lemma_stack(c, self.h);
                assert(self.at(c, r) != Player::Empty);
            }
            lemma_pieces_all(self.cells);
        }
        let c = choose|c: int| 0 <= c < self.w && self.floor(c) < self.h;
        assert(self.has_room(c));
    }
}

/// Where every cell holds a piece there are as many pieces as cells.
pub proof fn lemma_pieces_all(cells: Seq<Player>)
    requires
        forall|i: int| 0 <= i < cells.len() ==> #[trigger] cells[i] != Player::Empty,
    ensures
        pieces(cells) == cells.len(),
    decreases cells.len(),
{
    if cells.len() > 0 {
        let rest = cells.drop_last();
        assert forall|i: int| 0 <= i < rest.len() implies #[trigger] rest[i] != Player::Empty by {
            assert(rest[i] == cells[i]);
        }
        lemma_pieces_all(rest);
    }
}

} // verus!
