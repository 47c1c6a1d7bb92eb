//! The game tree: a node is either settled or holds a position whose moves
//! are found on demand.

use crate::c4::{Board, Player};
use crate::grid::Grid;
use vstd::prelude::*;

verus! {

/// A position that needs no further search: `winner` has won, or nobody
/// has (`Empty`) and the board is full.
pub struct Leaf {
    pub winner: Player,
}

impl Clone for Leaf {
    /// A leaf with the same winner.
    fn clone(&self) -> (leaf: Leaf)
        ensures
            leaf == *self,
    {
        Leaf { winner: self.winner }
    }
}

/// A node of the game tree.
pub enum Node {
    InnerNode(InnerNode),
    Leaf(Leaf),
}

/// A position with `turn` to move. `children` is empty until
/// `find_children` has filled it.
pub struct InnerNode {
    pub board: Board,
    pub children: Vec<Branch>,
    pub turn: Player,
}

/// The move into column `input` and the node it leads to.
pub struct Branch {
    pub input: u32,
    pub node: Node,
}

/// What a node stands for, without its children.
pub enum Outlook {
    /// The game has ended with this winner; `Empty` for a draw.
    Settled(Player),
    /// The game goes on from this board with this player to move.
    Open(Grid, Player),
}

/// Where the move of `turn` into column `c` leads: to a win of the mover if
/// the new piece completes four in a row, else to a draw if it fills the
/// board, else to the new board with the opponent to move.
pub open spec fn outlook_after(g: Grid, turn: Player, c: int) -> Outlook {
    let next = g.drop(c, turn);
    if next.decided(c) {
        Outlook::Settled(turn)
    } else if next.is_full() {
        Outlook::Settled(Player::Empty)
    } else {
        Outlook::Open(next, turn.opponent())
    }
}

/// The columns below `n` that have room, in ascending order.
pub open spec fn legal_below(g: Grid, n: nat) -> Seq<int>
    decreases n,
{
    if n == 0 {
        Seq::empty()
    } else if g.has_room(n - 1) {
        legal_below(g, (n - 1) as nat).push(n - 1)
    } else {
        legal_below(g, (n - 1) as nat)
    }
}

/// All legal moves, in ascending order.
pub open spec fn legal_columns(g: Grid) -> Seq<int> {
    legal_below(g, g.w)
}

/// One branch as the search sees it: the column, and where it leads.
pub struct BranchView {
    pub column: int,
    pub outlook: Outlook,
}

/// The branch of the move of `turn` into column `c`.
pub open spec fn branch_into(g: Grid, turn: Player, c: int) -> BranchView {
    BranchView { column: c, outlook: outlook_after(g, turn, c) }
}

/// The branches of a position: one for each legal move, in ascending order
/// of the column.
pub open spec fn expansion(g: Grid, turn: Player) -> Seq<BranchView> {
    legal_columns(g).map_values(|c: int| branch_into(g, turn, c))
}

/// An inner node as the search sees it.
pub struct InnerNodeView {
    pub grid: Grid,
    pub turn: Player,
    pub branches: Seq<BranchView>,
}

impl InnerNodeView {
    /// The node after `find_children`: a node that has branches keeps them,
    /// a node without any gets the branches of its position.
    pub open spec fn unfold(self) -> InnerNodeView {
        if self.branches.len() > 0 {
            self
        } else {
            InnerNodeView {
                grid: self.grid,
                turn: self.turn,
                branches: expansion(self.grid, self.turn),
            }
        }
    }

    /// Expanding a node twice gives what expanding it once gives: no branch
    /// is added a second time.
    pub proof fn lemma_unfold_once(self)
        ensures
            self.unfold().unfold() == self.unfold(),
    {
    }
}

/// The columns listed by `legal_below` are below `n`, have room, and
/// ascend; each column below `n` with room is listed.
pub proof fn lemma_legal_below(g: Grid, n: nat)
    ensures
        legal_below(g, n).len() <= n,
        forall|i: int|
            0 <= i < legal_below(g, n).len() ==> 0 <= #[trigger] legal_below(g, n)[i] < n
                && g.has_room(legal_below(g, n)[i]),
        forall|i: int, j: int|
            0 <= i < j < legal_below(g, n).len() ==> legal_below(g, n)[i] < legal_below(g, n)[j],
        forall|c: int| 0 <= c < n && g.has_room(c) ==> legal_below(g, n).contains(c),
    decreases n,
{
    if n > 0 {
        let rest = legal_below(g, (n - 1) as nat);
        lemma_legal_below(g, (n - 1) as nat);
        let all = legal_below(g, n);
        assert forall|c: int| 0 <= c < n && g.has_room(c) implies all.contains(c) by {
            if c == n - 1 {
                assert(all[all.len() - 1] == c);
            } else {
                let i = choose|i: int| 0 <= i < rest.len() && rest[i] == c;
                assert(all[i] == c);
            }
        }
    }
}

impl Node {
    /// What the node stands for.
    pub open spec fn outlook(self) -> Outlook {
        match self {
            Node::Leaf(leaf) => Outlook::Settled(leaf.winner),
            Node::InnerNode(inner) => Outlook::Open(inner.board@, inner.turn),
        }
    }

    /// A node as expansion makes it: a leaf, or an inner node over a
    /// well-formed board, with a player to move, that has not been
    /// expanded yet.
    pub open spec fn fresh(self) -> bool {
        match self {
            Node::Leaf(_) => true,
            Node::InnerNode(inner) => inner.board.wf() && inner.turn != Player::Empty
                && inner.children.len() == 0,
        }
    }
}

impl View for Branch {
    type V = BranchView;

    open spec fn view(&self) -> BranchView {
        BranchView { column: self.input as int, outlook: self.node.outlook() }
    }
}

impl View for InnerNode {
    type V = InnerNodeView;

    open spec fn view(&self) -> InnerNodeView {
        InnerNodeView {
            grid: self.board@,
            turn: self.turn,
            branches: self.children@.map_values(|b: Branch| b@),
        }
    }
}

impl InnerNode {
    /// Finds the moves of this position, unless they were found before:
    /// for each column with room, in ascending order, one branch that
    /// leads to a leaf where the move ends the game and to a fresh inner
    /// node where it does not.
    pub fn find_children(&mut self)
        requires
            old(self).board.wf(),
            old(self).turn != Player::Empty,
        ensures
            final(self)@ == old(self)@.unfold(),
            final(self).board == old(self).board,
            final(self).turn == old(self).turn,
            old(self).children.len() > 0 ==> final(self).children == old(self).children,
            old(self).children.len() == 0 ==> forall|i: int|
                #![trigger final(self).children[i]]
                0 <= i < final(self).children.len() ==> final(self).children[i].node.fresh(),
    {
        if self.children.len() > 0 {
            return ;
        }
        let ghost g = self.board@;
        let mut i: u32 = 0;
        while i < self.board.w
            invariant
                self.board == old(self).board,
                self.turn == old(self).turn,
                self.board.wf(),
                self.turn != Player::Empty,
                g == self.board@,
                i <= self.board.w,
                self.children.len() == legal_below(g, i as nat).len(),
                forall|j: int|
                    0 <= j < self.children.len() ==> (#[trigger] self.children[j])@ == branch_into(
                        g,
                        self.turn,
                        legal_below(g, i as nat)[j],
                    ),
                forall|j: int|
                    0 <= j < self.children.len() ==> (#[trigger] self.children[j]).node.fresh(),
            decreases self.board.w - i,
        {
            let new_board = self.board.place(i, self.turn);
            if let Some(mut b) = new_board {
                proof {
                    g.lemma_drop(i as int, self.turn);
                }
                let branch;
                if b.is_over(i) {
                    branch = Branch { node: Node::Leaf(Leaf { winner: self.turn }), input: i };
                } else if b.turn_number as u64 >= b.w as u64 * b.h as u64 {
                    branch = Branch { node: Node::Leaf(Leaf { winner: Player::Empty }), input: i };
                } else {
                    branch = Branch {
                        node: Node::InnerNode(InnerNode::new(b, self.turn.switch())),
                        input: i,
                    };
                }
                self.children.push(branch);
            }
            i = i + 1;
        }
        assert(self@.branches =~= expansion(g, self.turn));
    }

    /// A node over `board` with `turn` to move and no children yet.
    pub fn new(board: Board, turn: Player) -> (node: InnerNode)
        ensures
            node.board == board,
            node.turn == turn,
            node.children@ == Seq::<Branch>::empty(),
    {
        InnerNode { board: board, children: Vec::new(), turn: turn }
    }
}

} // verus!
