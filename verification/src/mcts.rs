//! The search: minimax to a fixed depth with alpha-beta cut-offs, a
//! discount on every step down, and random playouts at the horizon.

use crate::c4::{Board, Player};
use crate::grid::Grid;
use crate::rollout::{average_random_rollout, may_total, score};
use crate::tree::{
    expansion, legal_columns, lemma_legal_below, Branch, BranchView, InnerNode, Node, Outlook,
};
use vstd::prelude::*;

verus! {

/// One whole point, the value of a won game. Values are counted in
/// hundred-thousandths of a point, fine enough for every discount within
/// the search depth to come out exact.
pub const UNIT: i64 = 100_000;

/// The depth at which the search starts.
pub const DEPTH: u32 = 5;

/// The number of random games behind one estimate at the horizon.
pub const PLAYOUTS: u32 = 10;

/// The value of a settled game: a whole point for `P1`, a whole point
/// against for `P2`, nothing for a draw.
pub open spec fn leaf_value(winner: Player) -> int {
    score(winner) * UNIT
}

/// The value of a position at the horizon: the mean of the scores of
/// `PLAYOUTS` random games that sum up to `total`.
pub open spec fn horizon_value(total: int) -> int {
    total * UNIT / (PLAYOUTS as int)
}

/// Nine tenths of `v`, the worth of a value one move further away.
pub open spec fn discounted(v: int) -> int {
    v * 9 / 10
}

/// The step between the values that can arise `d` levels above the
/// horizon: each level down from the top is ten times coarser.
pub open spec fn grain(d: nat) -> int {
    if d == 0 {
        10_000
    } else if d == 1 {
        1_000
    } else if d == 2 {
        100
    } else if d == 3 {
        10
    } else {
        1
    }
}

/// A level starts from a value within bounds that is a multiple of
/// every grain.
pub proof fn lemma_descend_tidy(ctx: Frame, d: nat)
    ensures
        ctx.descend().tidy(d),
{
    if d == 0 {
        assert(200_000int % 10_000 == 0 && (-200_000int) % 10_000 == 0);
    } else if d == 1 {
        assert(200_000int % 1_000 == 0 && (-200_000int) % 1_000 == 0);
    } else if d == 2 {
        assert(200_000int % 100 == 0 && (-200_000int) % 100 == 0);
    } else if d == 3 {
        assert(200_000int % 10 == 0 && (-200_000int) % 10 == 0);
    } else {
        assert(200_000int % 1 == 0 && (-200_000int) % 1 == 0);
    }
}

/// The value of a settled game is a multiple of every grain.
pub proof fn lemma_leaf_tidy(winner: Player, d: nat)
    ensures
        -UNIT <= leaf_value(winner) <= UNIT,
        leaf_value(winner) % grain(d) == 0,
{
    if d == 0 {
        assert(100_000int % 10_000 == 0 && (-100_000int) % 10_000 == 0);
    } else if d == 1 {
        assert(100_000int % 1_000 == 0 && (-100_000int) % 1_000 == 0);
    } else if d == 2 {
        assert(100_000int % 100 == 0 && (-100_000int) % 100 == 0);
    } else if d == 3 {
        assert(100_000int % 10 == 0 && (-100_000int) % 10 == 0);
    } else {
        assert(100_000int % 1 == 0 && (-100_000int) % 1 == 0);
    }
}

/// A multiple of one level's grain is a multiple of the finer grain of the
/// level above.
pub proof fn lemma_grain_finer(v: int, d: nat)
    requires
        v % grain(d) == 0,
    ensures
        v % grain(d + 1) == 0,
{
    if d == 0 {
        assert(v % 10_000 == 0 ==> v % 1_000 == 0);
    } else if d == 1 {
        assert(v % 1_000 == 0 ==> v % 100 == 0);
    } else if d == 2 {
        assert(v % 100 == 0 ==> v % 10 == 0);
    } else {
        assert(v % 1 == 0);
    }
}

/// One level up, a value is discounted without a remainder and stays a
/// multiple of the grain there.
pub proof fn lemma_discount_exact(v: int, d: nat)
    requires
        1 <= d <= 4,
        v % grain((d - 1) as nat) == 0,
        -2 * UNIT <= v <= 2 * UNIT,
    ensures
        v % 10 == 0,
        10 * discounted(v) == 9 * v,
        discounted(v) % grain(d) == 0,
        -2 * UNIT <= discounted(v) <= 2 * UNIT,
{
    let g = grain(d);
    let q = v / (10 * g);
    assert(v == q * (10 * g)) by (nonlinear_arith)
        requires
            v % (10 * g) == 0,
            g > 0,
            q == v / (10 * g),
    ;
    assert(v == 10 * (q * g)) by (nonlinear_arith)
        requires
            v == q * (10 * g),
    ;
    assert(discounted(v) == 9 * (q * g));
    assert((9 * (q * g)) % g == 0) by (nonlinear_arith)
        requires
            g > 0,
    {
        assert(((9 * q) * g) % g == 0);
    }
}

/// The running state of one level of the search, in mathematical terms.
pub struct Frame {
    /// The best value found so far.
    pub v: int,
    /// Alpha: what the maximizer is sure of.
    pub a: int,
    /// Beta: what the minimizer is sure of.
    pub b: int,
    /// The player to move at this level. `P1` maximizes; the other side
    /// minimizes.
    pub p: Player,
    /// The column chosen so far.
    pub best: Option<int>,
}

impl Frame {
    /// The side to move at this level wants the value high.
    pub open spec fn maximizing(self) -> bool {
        self.p == Player::P1
    }

    /// The state at the root for `player`: the worst value for the side to
    /// move, the widest window, no move chosen.
    pub open spec fn start(player: Player) -> Frame {
        if player == Player::P1 {
            Frame { v: -2 * UNIT, a: -2 * UNIT, b: 2 * UNIT, p: Player::P1, best: None }
        } else {
            Frame { v: 2 * UNIT, a: -2 * UNIT, b: 2 * UNIT, p: Player::P2, best: None }
        }
    }

    /// The state one level down: the other side moves, starts from its own
    /// worst value and inherits the window.
    pub open spec fn descend(self) -> Frame {
        if self.maximizing() {
            Frame { v: 2 * UNIT, a: self.a, b: self.b, p: Player::P2, best: None }
        } else {
            Frame { v: -2 * UNIT, a: self.a, b: self.b, p: Player::P1, best: None }
        }
    }

    /// `score` is strictly better than the best value so far for the side
    /// to move.
    pub open spec fn improves(self, score: int) -> bool {
        if self.maximizing() {
            score > self.v
        } else {
            score < self.v
        }
    }

    /// The state after the move into `column`, worth `score`, is folded in.
    /// The best value moves only on a strict improvement, and the move
    /// with it; the first move folded in is chosen until then. The
    /// maximizer raises alpha, and the minimizer lowers beta, to the best
    /// value as it stood before this move. Where that closes the window
    /// the move folded in is chosen, improvement or not.
    pub open spec fn fold(self, score: int, column: int) -> Frame {
        let a = if self.maximizing() && self.v > self.a {
            self.v
        } else {
            self.a
        };
        let b = if !self.maximizing() && self.v < self.b {
            self.v
        } else {
            self.b
        };
        let v = if self.improves(score) {
            score
        } else {
            self.v
        };
        let best = if b <= a || self.improves(score) || self.best is None {
            Some(column)
        } else {
            self.best
        };
        Frame { v, a, b, p: self.p, best }
    }

    /// The window is closed: no further move at this level can matter.
    pub open spec fn cut(self) -> bool {
        self.b <= self.a
    }

    /// The best value is within two points of zero and a multiple of the
    /// grain of level `d`.
    pub open spec fn tidy(self, d: nat) -> bool {
        -2 * UNIT <= self.v <= 2 * UNIT && self.v % grain(d) == 0
    }
}

/// The sums of scores that the estimator gave in the course of one search,
/// laid out as the search walked: one sum for a position at the horizon,
/// one part for each branch followed from a position above it.
pub enum Samples {
    Tip(int),
    Fan(Seq<Samples>),
}

impl Samples {
    /// The sum at a position at the horizon.
    pub open spec fn total(self) -> int {
        match self {
            Samples::Tip(t) => t,
            Samples::Fan(_) => 0,
        }
    }

    /// The parts below a position above the horizon.
    pub open spec fn parts(self) -> Seq<Samples> {
        match self {
            Samples::Tip(_) => Seq::empty(),
            Samples::Fan(parts) => parts,
        }
    }
}

/// Random games stand behind the sums `seen` of a search of `node` from
/// `d` levels above the horizon: the sum at a position at the horizon may
/// be the sum of the scores of `PLAYOUTS` random games from that position,
/// and the parts below a position higher up belong, in their order, to the
/// first of its branches.
pub open spec fn backed(node: Outlook, d: nat, seen: Samples) -> bool
    decreases d, 1nat,
{
    match node {
        Outlook::Settled(_) => true,
        Outlook::Open(grid, turn) => if d == 0 {
            may_total(grid, turn, PLAYOUTS as nat, seen.total())
        } else {
            all_backed(expansion(grid, turn), (d - 1) as nat, seen.parts())
        },
    }
}

/// Random games stand behind each of `seen`, the sums of searches of the
/// first branches of `branches` from `d` levels above the horizon.
pub open spec fn all_backed(branches: Seq<BranchView>, d: nat, seen: Seq<Samples>) -> bool
    decreases d, 2nat,
{
    &&& seen.len() <= branches.len()
    &&& forall|i: int| 0 <= i < seen.len() ==> backed(branches[i].outlook, d, #[trigger] seen[i])
}

/// The value of a node searched `d` levels above the horizon, starting
/// from the state `ctx`, where the estimator gave the sums `seen`. A
/// settled game has its own value, a position at the horizon its estimate,
/// and any other position the best value that its branches leave behind.
pub open spec fn value_of(node: Outlook, d: nat, ctx: Frame, seen: Samples) -> int
    decreases d, 1nat, 0nat,
{
    match node {
        Outlook::Settled(winner) => leaf_value(winner),
        Outlook::Open(grid, turn) => if d == 0 {
            horizon_value(seen.total())
        } else {
            let branches = expansion(grid, turn);
            swept(branches, branches.len(), d, ctx, seen.parts(), true).v
        },
    }
}

/// The state of a level `d` above the horizon after the first `n` of its
/// branches, starting from `ctx`. Each branch is searched one level down
/// from the state that the branches before it left, and folded in, at nine
/// tenths of its value where `discount` is set. Once a fold has closed the
/// window, the branches after it are left alone.
pub open spec fn swept(
    branches: Seq<BranchView>,
    n: nat,
    d: nat,
    ctx: Frame,
    seen: Seq<Samples>,
    discount: bool,
) -> Frame
    decreases d, 0nat, n,
{
    if n == 0 || d == 0 || n > branches.len() {
        ctx
    } else {
        let before = swept(branches, (n - 1) as nat, d, ctx, seen, discount);
        if n >= 2 && before.cut() {
            before
        } else {
            let below = value_of(
                branches[n - 1].outlook,
                (d - 1) as nat,
                before.descend(),
                seen[n - 1],
            );
            before.fold(
                if discount {
                    discounted(below)
                } else {
                    below
                },
                branches[n - 1].column,
            )
        }
    }
}

/// The move that the search makes for `p` on `grid`, where the estimator
/// gave the sums `seen`: the column chosen once the branches of the root
/// are folded in, undiscounted. `None` where there is no legal move.
pub open spec fn choice(grid: Grid, p: Player, seen: Seq<Samples>) -> Option<int> {
    let branches = expansion(grid, p);
    swept(branches, branches.len(), DEPTH as nat, Frame::start(p), seen, false).best
}

/// Sums beyond the first `n` have no part in the first `n` branches.
pub proof fn lemma_swept_frame(
    branches: Seq<BranchView>,
    n: nat,
    d: nat,
    ctx: Frame,
    seen: Seq<Samples>,
    more: Seq<Samples>,
    discount: bool,
)
    requires
        n <= seen.len() <= more.len(),
        forall|i: int| 0 <= i < seen.len() ==> seen[i] == more[i],
    ensures
        swept(branches, n, d, ctx, seen, discount) == swept(branches, n, d, ctx, more, discount),
    decreases n,
{
    if n > 0 && d > 0 && n <= branches.len() {
        lemma_swept_frame(branches, (n - 1) as nat, d, ctx, seen, more, discount);
    }
}

/// Once the window is closed, later branches change nothing.
pub proof fn lemma_swept_stays(
    branches: Seq<BranchView>,
    k: nat,
    n: nat,
    d: nat,
    ctx: Frame,
    seen: Seq<Samples>,
    discount: bool,
)
    requires
        1 <= k <= n <= branches.len(),
        swept(branches, k, d, ctx, seen, discount).cut(),
    ensures
        swept(branches, n, d, ctx, seen, discount) == swept(branches, k, d, ctx, seen, discount),
    decreases n,
{
    if n > k {
        lemma_swept_stays(branches, k, (n - 1) as nat, d, ctx, seen, discount);
    }
}

/// Where no more cells are empty than there are levels above the horizon,
/// the search reaches the end of every game before it reaches the
/// horizon: the value of the node is the same whatever sums are given.
pub proof fn lemma_value_short(node: Outlook, d: nat, ctx: Frame, seen: Samples, other: Samples)
    requires
        node matches Outlook::Open(grid, turn) ==> {
            &&& grid.wf()
            &&& turn != Player::Empty
            &&& !grid.is_full()
            &&& grid.w * grid.h - grid.occupied() <= d
        },
    ensures
        value_of(node, d, ctx, seen) == value_of(node, d, ctx, other),
    decreases d, 1nat, 0nat,
{
    match node {
        Outlook::Settled(_) => {},
        Outlook::Open(grid, turn) => {
            let branches = expansion(grid, turn);
            lemma_swept_short(grid, turn, branches.len(), d, ctx, seen.parts(), other.parts(), true);
        },
    }
}

/// The same for the branches of a position.
pub proof fn lemma_swept_short(
    grid: Grid,
    turn: Player,
    n: nat,
    d: nat,
    ctx: Frame,
    seen: Seq<Samples>,
    other: Seq<Samples>,
    discount: bool,
)
    requires
        grid.wf(),
        turn != Player::Empty,
        0 < d,
        grid.w * grid.h - grid.occupied() <= d,
        n <= expansion(grid, turn).len(),
    ensures
        swept(expansion(grid, turn), n, d, ctx, seen, discount) == swept(
            expansion(grid, turn),
            n,
            d,
            ctx,
            other,
            discount,
        ),
    decreases d, 0nat, n,
{
    if n > 0 {
        let branches = expansion(grid, turn);
        lemma_swept_short(grid, turn, (n - 1) as nat, d, ctx, seen, other, discount);
        let before = swept(branches, (n - 1) as nat, d, ctx, seen, discount);
        let column = legal_columns(grid)[n - 1];
        lemma_legal_below(grid, grid.w);
        grid.lemma_drop(column, turn);
        lemma_value_short(
            branches[n - 1].outlook,
            (d - 1) as nat,
            before.descend(),
            seen[n - 1],
            other[n - 1],
        );
    }
}

/// On a board with no more empty cells than the search is deep, the move
/// chosen does not depend on the estimator.
pub proof fn lemma_choice_short(
    grid: Grid,
    p: Player,
    seen: Seq<Samples>,
    other: Seq<Samples>,
)
    requires
        grid.wf(),
        p != Player::Empty,
        grid.w * grid.h - grid.occupied() <= DEPTH,
    ensures
        choice(grid, p, seen) == choice(grid, p, other),
{
    lemma_swept_short(
        grid,
        p,
        expansion(grid, p).len(),
        DEPTH as nat,
        Frame::start(p),
        seen,
        other,
        false,
    );
}

/// The running state of one level of the search.
pub struct StepData {
    pub v: i64,
    pub a: i64,
    pub b: i64,
    /// Levels left above the horizon.
    pub d: u32,
    pub p: Player,
    pub best_move: Option<u32>,
}

impl View for StepData {
    type V = Frame;

    open spec fn view(&self) -> Frame {
        Frame {
            v: self.v as int,
            a: self.a as int,
            b: self.b as int,
            p: self.p,
            best: match self.best_move {
                Some(column) => Some(column as int),
                None => None,
            },
        }
    }
}

impl StepData {
    /// The state at the root for `player`, `DEPTH` levels above the
    /// horizon.
    pub fn new(player: Player) -> (step_data: StepData)
        ensures
            step_data@ == Frame::start(player),
            step_data.d == DEPTH,
    {
        match player {
            Player::P1 => StepData {
                v: -200_000,
                a: -200_000,
                b: 200_000,
                d: 5,
                p: Player::P1,
                best_move: None,
            },
            _ => StepData {
                v: 200_000,
                a: -200_000,
                b: 200_000,
                d: 5,
                p: Player::P2,
                best_move: None,
            },
        }
    }

    /// Folds in the move `current_move`, worth `score`, and tells whether
    /// the window is closed now.
    pub fn update(&mut self, score: i64, current_move: u32) -> (cut: bool)
        ensures
            final(self)@ == old(self)@.fold(score as int, current_move as int),
            final(self).d == old(self).d,
            cut == final(self)@.cut(),
    {
        if let None = self.best_move {
            self.best_move = Some(current_move);
        }
        if self.p == Player::P1 {
            if self.v > self.a {
                self.a = self.v;
            }
            if score > self.v {
                self.v = score;
                self.best_move = Some(current_move);
            }
        } else {
            if self.v < self.b {
                self.b = self.v;
            }
            if score < self.v {
                self.v = score;
                self.best_move = Some(current_move);
            }
        }
        if self.b <= self.a {
            self.best_move = Some(current_move);
            return true;
        }
        false
    }

    /// The state for the level below.
    pub fn next(&self) -> (below: StepData)
        requires
            self.d > 0,
        ensures
            below@ == self@.descend(),
            below.d == self.d - 1,
    {
        match self.p {
            Player::P1 => StepData {
                v: 200_000,
                a: self.a,
                b: self.b,
                d: self.d - 1,
                p: Player::P2,
                best_move: None,
            },
            _ => StepData {
                v: -200_000,
                a: self.a,
                b: self.b,
                d: self.d - 1,
                p: Player::P1,
                best_move: None,
            },
        }
    }
}

/// The value of a settled game.
pub fn leaf_score(winner: Player) -> (value: i64)
    ensures
        value == leaf_value(winner),
{
    if winner == Player::P1 {
        100_000
    } else if winner == Player::P2 {
        -100_000
    } else {
        0
    }
}

/// The value of a position at the horizon whose `PLAYOUTS` random games
/// sum up to `total`.
pub fn horizon_score(total: i64) -> (value: i64)
    requires
        -PLAYOUTS <= total <= PLAYOUTS,
    ensures
        value == horizon_value(total as int),
{
    total * 10_000
}

/// Nine tenths of a value, rounded down; exact where tenths divide the
/// value.
pub fn discount(value: i64) -> (less: i64)
    requires
        -2 * UNIT <= value <= 2 * UNIT,
    ensures
        less == discounted(value as int),
        value % 10 == 0 ==> 10 * less == 9 * value,
{
    let nine = value * 9;
    if nine >= 0 {
        nine / 10
    } else {
        -((9 - nine) / 10)
    }
}

/// Searches the branches `children` of one level in their order and folds
/// each into the running state: the whole of `swept`, with the sums that
/// the estimator gave on the way.
fn sweep(
    children: Vec<Branch>,
    step_data: StepData,
    discounting: bool,
    Ghost(branches): Ghost<Seq<BranchView>>,
) -> (r: (StepData, Ghost<Seq<Samples>>))
    requires
        branches == children@.map_values(|b: Branch| b@),
        forall|i: int| 0 <= i < children.len() ==> (#[trigger] children[i]).node.fresh(),
        0 < step_data.d <= DEPTH,
        discounting ==> step_data.d < DEPTH,
        step_data@.tidy(step_data.d as nat),
    ensures
        r.0@ == swept(branches, branches.len(), step_data.d as nat, step_data@, r.1@, discounting),
        r.0.d == step_data.d,
        all_backed(branches, (step_data.d - 1) as nat, r.1@),
        r.0@.tidy(step_data.d as nat),
        step_data.best_move is None && branches.len() > 0 ==> r.0.best_move is Some,
        step_data.best_move is None ==> (r.0.best_move matches Some(m) ==> exists|i: int|
            0 <= i < branches.len() && (#[trigger] branches[i]).column == m),
    decreases step_data.d, 0nat,
{
    let mut rest = children;
    let mut ctx = step_data;
    let mut cut = false;
    let ghost mut seen: Seq<Samples> = Seq::empty();
    let ghost d = step_data.d as nat;
    while !cut && rest.len() > 0
        invariant
            0 < d <= DEPTH,
            d == step_data.d,
            discounting ==> d < DEPTH,
            seen.len() + rest.len() == branches.len(),
            forall|i: int|
                0 <= i < rest.len() ==> (#[trigger] rest[i])@ == branches[seen.len() + i],
            forall|i: int| 0 <= i < rest.len() ==> (#[trigger] rest[i]).node.fresh(),
            ctx@ == swept(branches, seen.len(), d, step_data@, seen, discounting),
            ctx.d == step_data.d,
            cut == (seen.len() >= 1 && ctx@.cut()),
            forall|i: int|
                0 <= i < seen.len() ==> backed(
                    branches[i].outlook,
                    (d - 1) as nat,
                    #[trigger] seen[i],
                ),
            ctx@.tidy(d),
            step_data.best_move is None && seen.len() > 0 ==> ctx.best_move is Some,
            step_data.best_move is None ==> (ctx.best_move matches Some(m) ==> exists|i: int|
                0 <= i < branches.len() && (#[trigger] branches[i]).column == m),
        decreases rest.len(),
    {
        let ghost k = seen.len() as int;
        let ghost earlier = rest@;
        let branch = rest.remove(0);
        assert forall|i: int| 0 <= i < rest.len() implies (#[trigger] rest[i])@ == branches[k
            + 1 + i] && rest[i].node.fresh() by {
            assert(rest[i] == earlier[i + 1]);
        }
        proof {
            lemma_descend_tidy(ctx@, (d - 1) as nat);
        }
        let (below, Ghost(part)) = mcts_step(branch.node, ctx.next());
        proof {
            if discounting {
                lemma_discount_exact(below as int, d);
            } else {
                lemma_grain_finer(below as int, (d - 1) as nat);
            }
        }
        let score = if discounting {
            discount(below)
        } else {
            below
        };
        cut = ctx.update(score, branch.input);
        proof {
            let longer = seen.push(part);
            lemma_swept_frame(branches, seen.len(), d, step_data@, seen, longer, discounting);
            assert(swept(branches, (k + 1) as nat, d, step_data@, longer, discounting) == ctx@);
            seen = longer;
        }
    }
    proof {
        if seen.len() < branches.len() {
            lemma_swept_stays(
                branches,
                seen.len(),
                branches.len(),
                d,
                step_data@,
                seen,
                discounting,
            );
        }
    }
    (ctx, Ghost(seen))
}

/// The value of the node `n`, searched from the state `step_data`.
fn mcts_step(n: Node, step_data: StepData) -> (r: (i64, Ghost<Samples>))
    requires
        n.fresh(),
        step_data.d < DEPTH,
        step_data@.tidy(step_data.d as nat),
    ensures
        r.0 == value_of(n.outlook(), step_data.d as nat, step_data@, r.1@),
        backed(n.outlook(), step_data.d as nat, r.1@),
        -2 * UNIT <= r.0 <= 2 * UNIT,
        r.0 as int % grain(step_data.d as nat) == 0,
    decreases step_data.d, 1nat,
{
    match n {
        Node::Leaf(leaf) => {
            proof {
                lemma_leaf_tidy(leaf.winner, step_data.d as nat);
            }
            (leaf_score(leaf.winner), Ghost(Samples::Tip(0)))
        },
        Node::InnerNode(mut node) => {
            if step_data.d == 0 {
                let mean = average_random_rollout(&node.board, &node.turn, PLAYOUTS);
                let value = horizon_score(mean.total);
                assert(value == mean.total * 10_000);
                return (value, Ghost(Samples::Tip(mean.total as int)));
            }
            let ghost branches = expansion(node.board@, node.turn);
            node.find_children();
            assert(node@.branches == branches);
            let (ctx, Ghost(seen)) = sweep(node.children, step_data, true, Ghost(branches));
            assert(Samples::Fan(seen).parts() == seen);
            (ctx.v, Ghost(Samples::Fan(seen)))
        },
    }
}

/// Picks the move of `p` on `board`: the column that the search chooses
/// at the root. The board must have a legal move.
pub fn mcts(board: &Board, p: Player) -> (column: u32)
    requires
        board.wf(),
        p != Player::Empty,
        exists|c: int| board@.has_room(c),
    ensures
        board@.has_room(column as int),
        exists|seen: Seq<Samples>|
            all_backed(expansion(board@, p), (DEPTH - 1) as nat, seen) && #[trigger] choice(
                board@,
                p,
                seen,
            ) == Some(column as int),
{
    let mut n = InnerNode::new(board.clone(), p);
    n.find_children();
    let ghost branches = expansion(board@, p);
    proof {
        lemma_legal_below(board@, board@.w);
    }
    let (step_data, Ghost(seen)) = sweep(n.children, StepData::new(p), false, Ghost(branches));
    proof {
        assert(choice(board@, p, seen) == step_data@.best);
    }
    step_data.best_move.expect("no move found")
}

} // verus!
