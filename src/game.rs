use vstd::prelude::*;
use crate::outcome::{GameOutcome, Player};

verus! {

/// What a game must provide to be searched: its positions, their outcome,
/// whose turn it is, the legal moves and the positions they lead to, and
/// the symmetry projection used to merge equivalent positions.
///
/// A move is a cell index.
pub trait Game {
    type Board: Copy;

    /// The game's own data (its tables) is well formed.
    spec fn valid(&self) -> bool;

    /// `b` is a well-formed position of this game.
    spec fn wf(&self, b: Self::Board) -> bool;

    spec fn outcome_of(&self, b: Self::Board) -> GameOutcome;

    spec fn turn_of(&self, b: Self::Board) -> Player;

    spec fn is_legal(&self, b: Self::Board, m: u8) -> bool;

    /// The position after `m`, projected to its symmetry representative.
    spec fn after(&self, b: Self::Board, m: u8) -> Self::Board;

    /// Some cell is claimed by opposite players in `a` and `b`.
    spec fn conflict(&self, a: Self::Board, b: Self::Board) -> bool;

    spec fn canon(&self, b: Self::Board) -> Self::Board;

    /// `a` is the position after some legal move of `b`.
    spec fn is_afterstate(&self, b: Self::Board, a: Self::Board) -> bool;

    /// What `is_afterstate` means.
    proof fn lemma_is_afterstate(&self, b: Self::Board, a: Self::Board)
        ensures
            self.is_afterstate(b, a) == exists|m: u8| self.is_legal(b, m) && a == self.after(b, m),
    ;

    /// The game's own promise on the list of afterstates of `b`: their
    /// order, and which positions are merged.
    spec fn afterstates_shape(&self, b: Self::Board, r: Seq<Self::Board>) -> bool;


    /// The transposition-table key of a position: its cell occupancy.
    spec fn key_of(&self, b: Self::Board) -> u128;

    /// The number of empty cells: every move lowers it.
    spec fn moves_left(&self, b: Self::Board) -> nat;

    /// No game has more than 64 cells, and positions with one key have as
    /// many empty cells and, when well formed, one outcome.
    proof fn lemma_moves_left(&self, a: Self::Board, b: Self::Board)
        ensures
            self.moves_left(a) <= 64,
            self.key_of(a) == self.key_of(b) ==> self.moves_left(a) == self.moves_left(b),
            self.key_of(a) == self.key_of(b) ==> self.outcome_of(a) == self.outcome_of(b),
    ;

    fn start(&self) -> (r: Self::Board)
        requires
            self.valid(),
        ensures
            self.wf(r),
            self.outcome_of(r) == GameOutcome::Ongoing,
    ;

    fn outcome(&self, b: Self::Board) -> (r: GameOutcome)
        requires
            self.valid(),
            self.wf(b),
        ensures
            r == self.outcome_of(b),
            r != GameOutcome::Invalid,
    ;

    fn whose_turn(&self, b: Self::Board) -> (r: Player)
        ensures
            r == self.turn_of(b),
    ;

    fn apply_move(&self, b: Self::Board, m: u8) -> (r: Self::Board)
        requires
            self.valid(),
            self.wf(b),
            self.outcome_of(b) == GameOutcome::Ongoing,
            self.is_legal(b, m),
        ensures
            r == self.after(b, m),
            self.wf(r),
            self.moves_left(r) < self.moves_left(b),
    ;

    fn legal_moves(&self, b: Self::Board) -> (r: Vec<u8>)
        requires
            self.valid(),
            self.wf(b),
        ensures
            forall|i: int| 0 <= i < r@.len() ==> self.is_legal(b, #[trigger] r@[i]),
            forall|m: u8| self.is_legal(b, m) ==> r@.contains(m),
            forall|i: int, j: int| 0 <= i < j < r@.len() ==> r@[i] < r@[j],
            self.outcome_of(b) == GameOutcome::Ongoing ==> r@.len() > 0,
            r@.len() <= 64,
    ;

    fn afterstates(&self, b: Self::Board) -> (r: Vec<Self::Board>)
        requires
            self.valid(),
            self.wf(b),
            self.outcome_of(b) == GameOutcome::Ongoing,
        ensures
            forall|i: int| 0 <= i < r@.len() ==> self.wf(#[trigger] r@[i]) && self.moves_left(r@[i]) < self.moves_left(b),
            forall|i: int| 0 <= i < r@.len() ==> self.is_afterstate(b, #[trigger] r@[i]),
            self.afterstates_shape(b, r@),
            forall|m: u8|
                self.is_legal(b, m) ==> exists|i: int|
                    0 <= i < r@.len() && self.key_of(#[trigger] r@[i]) == self.key_of(
                        self.after(b, m),
                    ),
            self.outcome_of(b) == GameOutcome::Ongoing ==> r@.len() > 0,
            r@.len() <= 64,
    ;

    fn unreachable_from(&self, a: Self::Board, b: Self::Board) -> (r: bool)
        ensures
            r == self.conflict(a, b),
    ;

    fn canonical(&self, b: Self::Board) -> (r: Self::Board)
        requires
            self.valid(),
            self.wf(b),
        ensures
            r == self.canon(b),
            self.wf(r),
    ;

    fn key(&self, b: Self::Board) -> (r: u128)
        ensures
            r == self.key_of(b),
    ;
}

/// Playing `m` at `root` wins at once for the side to move.
pub open spec fn wins_at_once<G: Game + ?Sized>(g: &G, root: G::Board, m: u8) -> bool {
    &&& g.is_legal(root, m)
    &&& g.outcome_of(g.after(root, m)) == GameOutcome::Winner(g.turn_of(root))
}

} // verus!
