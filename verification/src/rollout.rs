//! The leaf estimator: random games played to their end, each with a
//! random stream of its own, and the mean of their results.

use crate::c4::{Board, Player};
use crate::grid::Grid;
use rand::{Rng, SeedableRng, XorShiftRng};
use rayon::iter::{IntoParallelIterator, ParallelIterator};
use vstd::prelude::*;

verus! {

/// `rand::XorShiftRng`, the generator that the random games draw from.
/// Nothing is known of its state.
#[verifier::external_type_specification]
#[verifier::external_body]
pub struct ExXorShiftRng(rand::XorShiftRng);

/// `SeedableRng::from_seed` for `XorShiftRng`: a generator that starts from
/// the four words of `seed`. It refuses a seed of four zeros, which this
/// contract keeps out; nothing is claimed of the generator.
#[verifier::external_body]
fn seeded(seed: [u32; 4]) -> (rng: XorShiftRng)
    requires
        seed[0] != 0 || seed[1] != 0 || seed[2] != 0 || seed[3] != 0,
{
    SeedableRng::from_seed(seed)
}

/// `Rng::gen_range` from 0: some number below `bound`. It refuses an empty
/// range, which this contract keeps out; which number comes is left open.
#[verifier::external_body]
fn draw_below(rng: &mut XorShiftRng, bound: u32) -> (pick: u32)
    requires
        bound > 0,
    ensures
        pick < bound,
{
    rng.gen_range(0, bound)
}

/// The low 32 bits of a number.
pub open spec fn low_word(x: int) -> u32 {
    (x % 0x1_0000_0000) as u32
}

/// The four seed words of run number `run`, in 32-bit wrapping arithmetic.
pub open spec fn seed_words(run: u32) -> Seq<u32> {
    seq![
        low_word(run + 1),
        run ^ 2u32,
        low_word(run * 3),
        low_word(low_word(run + 2) * (low_word(8 + run) ^ 2u32)),
    ]
}

/// The seed of run number `run`. No run has a seed of four zeros.
pub fn seed_for(run: u32) -> (seed: [u32; 4])
    ensures
        seed@ == seed_words(run),
        seed[0] != 0 || seed[2] != 0,
{
    let y: u64 = run as u64;
    let first: u32 = ((y + 1) % 0x1_0000_0000) as u32;
    let second: u32 = run ^ 2;
    let third: u32 = ((y * 3) % 0x1_0000_0000) as u32;
    let left: u32 = ((y + 2) % 0x1_0000_0000) as u32;
    let right: u32 = (((8 + y) % 0x1_0000_0000) as u32) ^ 2;
    assert(left * right <= 0xffff_ffff * 0xffff_ffff) by (nonlinear_arith)
        requires
            left <= 0xffff_ffff,
            right <= 0xffff_ffff,
    ;
    let fourth: u32 = ((left as u64 * right as u64) % 0x1_0000_0000) as u32;
    [first, second, third, fourth]
}

/// A random game in progress, in mathematical terms.
pub struct Game {
    pub grid: Grid,
    pub turn: Player,
    /// The columns not yet found full.
    pub open: Seq<u32>,
    /// The result, once there is one: the winner, or `Empty` for a draw.
    pub winner: Option<Player>,
}

impl Game {
    /// The game at its start. It is drawn at once on a full board and on
    /// a board without columns.
    pub open spec fn start(grid: Grid, turn: Player) -> Game {
        Game {
            grid,
            turn,
            open: Seq::new(grid.w, |c: int| c as u32),
            winner: if grid.is_full() || grid.w == 0 {
                Some(Player::Empty)
            } else {
                None
            },
        }
    }

    /// The game after the side to move tries the `pick`-th open column.
    /// A full column leaves the list, and the game is drawn when the list
    /// runs out. Else the piece drops: the mover wins if it completes four
    /// in a row, the game is drawn if it fills the board, and otherwise
    /// the turn passes. A finished game and a pick beyond the list change
    /// nothing.
    pub open spec fn step(self, pick: int) -> Game {
        if self.winner is Some || !(0 <= pick < self.open.len()) {
            self
        } else {
            let c = self.open[pick] as int;
            if !self.grid.has_room(c) {
                let rest = self.open.remove(pick);
                Game {
                    open: rest,
                    winner: if rest.len() == 0 {
                        Some(Player::Empty)
                    } else {
                        None
                    },
                    ..self
                }
            } else {
                let next = self.grid.drop(c, self.turn);
                if next.decided(c) {
                    Game { grid: next, winner: Some(self.turn), ..self }
                } else {
                    Game {
                        grid: next,
                        turn: self.turn.opponent(),
                        winner: if next.is_full() {
                            Some(Player::Empty)
                        } else {
                            None
                        },
                        ..self
                    }
                }
            }
        }
    }

    /// The game after the picks of `picks`, one step each.
    pub open spec fn play(self, picks: Seq<int>) -> Game
        decreases picks.len(),
    {
        if picks.len() == 0 {
            self
        } else {
            self.step(picks[0]).play(picks.skip(1))
        }
    }

    /// One more pick at the end is one more step at the end.
    pub proof fn lemma_play_push(self, picks: Seq<int>, pick: int)
        ensures
            self.play(picks.push(pick)) == self.play(picks).step(pick),
        decreases picks.len(),
    {
        let longer = picks.push(pick);
        if picks.len() == 0 {
            assert(self.play(longer) == self.step(pick).play(longer.skip(1)));
        } else {
            assert(longer.skip(1) =~= picks.skip(1).push(pick));
            self.step(picks[0]).lemma_play_push(picks.skip(1), pick);
        }
    }

    /// A finished game stays as it is, whatever is picked.
    pub proof fn lemma_play_finished(self, picks: Seq<int>)
        requires
            self.winner is Some,
        ensures
            self.play(picks) == self,
        decreases picks.len(),
    {
        if picks.len() > 0 {
            self.lemma_play_finished(picks.skip(1));
        }
    }

    /// `winner` may be the result of a random game from `grid` with `turn`
    /// to move: some sequence of picks ends the game with it.
    pub open spec fn may_end(grid: Grid, turn: Player, winner: Player) -> bool {
        exists|picks: Seq<int>|
            (#[trigger] Game::start(grid, turn).play(picks)).winner == Some(winner)
    }
}

/// The value of a finished game: 1 where `P1` has won, -1 where `P2` has,
/// 0 for a draw.
pub open spec fn score(winner: Player) -> int {
    match winner {
        Player::P1 => 1,
        Player::P2 => -1,
        Player::Empty => 0,
    }
}

/// `s` may be the score of a random game from `grid` with `turn` to move.
pub open spec fn may_score(grid: Grid, turn: Player, s: int) -> bool {
    exists|winner: Player| s == score(winner) && #[trigger] Game::may_end(grid, turn, winner)
}

/// The sum of `scores`.
pub open spec fn sum_of(scores: Seq<int>) -> int
    decreases scores.len(),
{
    if scores.len() == 0 {
        0
    } else {
        sum_of(scores.drop_last()) + scores.last()
    }
}

/// `total` may be the sum of the scores of `n` random games from `grid`
/// with `turn` to move.
pub open spec fn may_total(grid: Grid, turn: Player, n: nat, total: int) -> bool {
    exists|scores: Seq<int>|
        {
            &&& scores.len() == n
            &&& forall|i: int| 0 <= i < n ==> may_score(grid, turn, #[trigger] scores[i])
            &&& total == sum_of(scores)
        }
}

/// A sum of scores lies within one point a game of zero.
pub proof fn lemma_sum_bound(scores: Seq<int>)
    requires
        forall|i: int| 0 <= i < scores.len() ==> -1 <= #[trigger] scores[i] <= 1,
    ensures
        -scores.len() <= sum_of(scores) <= scores.len(),
    decreases scores.len(),
{
    if scores.len() > 0 {
        assert forall|i: int| 0 <= i < scores.drop_last().len() implies -1
            <= #[trigger] scores.drop_last()[i] <= 1 by {
            assert(scores.drop_last()[i] == scores[i]);
        }
        lemma_sum_bound(scores.drop_last());
    }
}

/// On a full board every game is a draw, so the scores of any number of
/// games sum up to zero.
pub proof fn lemma_full_board_total(grid: Grid, turn: Player, n: nat, total: int)
    requires
        grid.is_full(),
        may_total(grid, turn, n, total),
    ensures
        total == 0,
{
    let scores = choose|scores: Seq<int>|
        {
            &&& scores.len() == n
            &&& forall|i: int| 0 <= i < n ==> may_score(grid, turn, #[trigger] scores[i])
            &&& total == sum_of(scores)
        };
    assert forall|i: int| 0 <= i < n implies #[trigger] scores[i] == 0 by {
        let winner = choose|winner: Player|
            scores[i] == score(winner) && #[trigger] Game::may_end(grid, turn, winner);
        let picks = choose|picks: Seq<int>|
            (#[trigger] Game::start(grid, turn).play(picks)).winner == Some(winner);
        Game::start(grid, turn).lemma_play_finished(picks);
    }
    lemma_sum_zero(scores);
}

/// Zeros sum up to zero.
proof fn lemma_sum_zero(scores: Seq<int>)
    requires
        forall|i: int| 0 <= i < scores.len() ==> #[trigger] scores[i] == 0,
    ensures
        sum_of(scores) == 0,
    decreases scores.len(),
{
    if scores.len() > 0 {
        let rest = scores.drop_last();
        assert forall|i: int| 0 <= i < rest.len() implies #[trigger] rest[i] == 0 by {
            assert(rest[i] == scores[i]);
        }
        lemma_sum_zero(rest);
    }
}

/// A random game in progress.
pub struct Playout {
    pub board: Board,
    pub turn: Player,
    pub open: Vec<u32>,
    pub winner: Option<Player>,
}

impl View for Playout {
    type V = Game;

    open spec fn view(&self) -> Game {
        Game { grid: self.board@, turn: self.turn, open: self.open@, winner: self.winner }
    }
}

impl Playout {
    /// The board is well-formed, a player is to move, the open columns are
    /// columns of the board and no more than it has, and a game that has
    /// not ended has an open column and an empty cell left.
    pub open spec fn wf(&self) -> bool {
        &&& self.board.wf()
        &&& self.turn != Player::Empty
        &&& self.open.len() <= self.board.w
        &&& forall|i: int| 0 <= i < self.open.len() ==> #[trigger] self.open[i] < self.board.w
        &&& self.winner is None ==> self.open.len() > 0 && !self.board@.is_full()
    }

    /// What is left to do at most: the empty cells and the open columns.
    pub open spec fn budget(&self) -> int {
        if self.winner is Some {
            0
        } else {
            self.board.w * self.board.h - self.board.turn_number + self.open.len()
        }
    }

    /// A game that starts on a copy of `board` with `turn` to move.
    pub fn new(board: &Board, turn: Player) -> (game: Playout)
        requires
            board.wf(),
            turn != Player::Empty,
        ensures
            game.wf(),
            game@ == Game::start(board@, turn),
    {
        let mut open: Vec<u32> = Vec::new();
        let mut c: u32 = 0;
        while c < board.w
            invariant
                c <= board.w,
                open@ == Seq::new(c as nat, |c: int| c as u32),
            decreases board.w - c,
        {
            open.push(c);
            c = c + 1;
        }
        let full = board.turn_number as u64 >= board.w as u64 * board.h as u64;
        let winner = if full || board.w == 0 {
            Some(Player::Empty)
        } else {
            None
        };
        Playout { board: board.clone(), turn, open, winner }
    }

    /// Tries the `pick`-th open column for the side to move.
    pub fn advance(&mut self, pick: u32)
        requires
            old(self).wf(),
            old(self).winner is None,
            pick < old(self).open.len(),
        ensures
            final(self).wf(),
            final(self)@ == old(self)@.step(pick as int),
            final(self).budget() < old(self).budget(),
    {
        let c = self.open[pick as usize];
        proof {
            self.board@.lemma_occupied();
        }
        match self.board.place(c, self.turn) {
            None => {
                self.open.remove(pick as usize);
                if self.open.len() == 0 {
                    self.winner = Some(Player::Empty);
                }
            },
            Some(mut b) => {
                proof {
                    self.board@.lemma_drop(c as int, self.turn);
                    b@.lemma_occupied();
                }
                if b.is_over(c) {
                    self.winner = Some(self.turn);
                } else {
                    self.turn = self.turn.switch();
                    if b.turn_number as u64 >= b.w as u64 * b.h as u64 {
                        self.winner = Some(Player::Empty);
                    }
                }
                self.board = b;
            },
        }
    }
}

/// Plays one random game from `board_orig` with `p_orig` to move, taking
/// its picks from `rng`, and returns the winner: `Empty` for a draw.
pub fn random_rollout(board_orig: &Board, p_orig: &Player, rng: &mut XorShiftRng) -> (winner:
    Player)
    requires
        board_orig.wf(),
        *p_orig != Player::Empty,
    ensures
        Game::may_end(board_orig@, *p_orig, winner),
{
    let mut game = Playout::new(board_orig, *p_orig);
    let ghost start = game@;
    let ghost mut picks: Seq<int> = Seq::empty();
    loop
        invariant
            game.wf(),
            start == Game::start(board_orig@, *p_orig),
            start.play(picks) == game@,
        decreases game.budget(),
    {
        match game.winner {
            Some(winner) => {
                return winner;
            },
            None => {
                let pick = draw_below(rng, game.open.len() as u32);
                proof {
                    start.lemma_play_push(picks, pick as int);
                    picks = picks.push(pick as int);
                }
                game.advance(pick);
            },
        }
    }
}

/// Run number `run` of the estimator: one random game from `board` with
/// `turn` to move, on the random stream of that run, and its score.
pub fn scored_run(board: &Board, turn: Player, run: u32) -> (s: i64)
    requires
        board.wf(),
        turn != Player::Empty,
    ensures
        may_score(board@, turn, s as int),
{
    let mut rng = seeded(seed_for(run));
    let winner = random_rollout(board, &turn, &mut rng);
    match winner {
        Player::P1 => 1,
        Player::P2 => -1,
        Player::Empty => 0,
    }
}

/// The runs 0 to `n` - 1 of the estimator, handed out to rayon's worker
/// threads (`into_par_iter`, `map`), and the sum of their scores (`sum`).
/// Claimed: the result is the sum of `n` numbers, each of which is what
/// `scored_run` may give on this board.
#[verifier::external_body]
fn sum_of_runs(board: &Board, turn: Player, n: u32) -> (total: i64)
    requires
        board.wf(),
        turn != Player::Empty,
    ensures
        may_total(board@, turn, n as nat, total as int),
{
    (0..n).into_par_iter().map(|run| scored_run(board, turn, run)).sum()
}

/// The mean of a number of scores, kept exact: `total` over `runs`.
pub struct Mean {
    pub total: i64,
    pub runs: u32,
}

impl Mean {
    /// The mean lies between -1 and 1.
    pub open spec fn wf(self) -> bool {
        -self.runs <= self.total <= self.runs
    }
}

/// Estimates the position by `n` random games from `board_orig` with
/// `p_orig` to move, run number 0 to `n` - 1: the mean of their scores.
pub fn average_random_rollout(board_orig: &Board, p_orig: &Player, n: u32) -> (mean: Mean)
    requires
        board_orig.wf(),
        *p_orig != Player::Empty,
    ensures
        mean.runs == n,
        may_total(board_orig@, *p_orig, n as nat, mean.total as int),
        mean.wf(),
{
    let cumulative = sum_of_runs(board_orig, *p_orig, n);
    proof {
        let scores = choose|scores: Seq<int>|
            {
                &&& scores.len() == n
                &&& forall|i: int|
                    0 <= i < n ==> may_score(board_orig@, *p_orig, #[trigger] scores[i])
                &&& cumulative == sum_of(scores)
            };
        lemma_sum_bound(scores);
    }
    Mean { total: cumulative, runs: n }
}

} // verus!
