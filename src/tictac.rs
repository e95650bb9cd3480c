use vstd::prelude::*;
use crate::bits::{bit, bits_below, lemma_flip, count_bits_below, one_idxs, set_indices, lemma_set_indices};
use crate::game::Game;
use crate::outcome::{GameOutcome, Player};

verus! {

/// The nine cells in use: bits 0..9.
pub const TIC_TAC_CELLS: u16 = 0x1ff;

/// A 3x3 position: one occupancy mask of nine bits per player.
#[derive(PartialEq, Eq, Structural, Clone, Copy, Debug, Hash, PartialOrd, Ord)]
pub struct TicTacBoard {
    pub p0: u16,
    pub p1: u16,
}

/// The eight lines: three rows, three columns, two diagonals.
pub open spec fn tic_tac_lines() -> Seq<u16> {
    seq![0x007, 0x038, 0x1c0, 0x124, 0x092, 0x049, 0x111, 0x054]
}

pub open spec fn holds_line(bits: u16) -> bool {
    exists|i: int| 0 <= i < 8 && #[trigger] (tic_tac_lines()[i] & bits) == tic_tac_lines()[i]
}

pub open spec fn cell_taken(b: TicTacBoard, m: u8) -> bool {
    ((b.p0 | b.p1) >> (m as u16)) & 1 == 1
}

/// The line with index `i`.
fn tic_tac_line(i: usize) -> (r: u16)
    requires
        i < 8,
    ensures
        r == tic_tac_lines()[i as int],
{
    match i {
        0 => 0x007,
        1 => 0x038,
        2 => 0x1c0,
        3 => 0x124,
        4 => 0x092,
        5 => 0x049,
        6 => 0x111,
        _ => 0x054,
    }
}

fn has_line(bits: u16) -> (r: bool)
    ensures
        r == holds_line(bits),
{
    let mut i: usize = 0;
    while i < 8
        invariant
            i <= 8,
            forall|j: int| 0 <= j < i ==> (tic_tac_lines()[j] & bits) != tic_tac_lines()[j],
        decreases 8 - i,
    {
        let mask = tic_tac_line(i);
        if (mask & bits) == mask {
            return true;
        }
        i = i + 1;
    }
    false
}

impl TicTacBoard {
    /// Occupancy masks disjoint and within the nine cells.
    pub open spec fn wf(self) -> bool {
        &&& self.p0 & self.p1 == 0
        &&& self.p0 <= TIC_TAC_CELLS
        &&& self.p1 <= TIC_TAC_CELLS
    }

    pub open spec fn outcome_spec(self) -> GameOutcome {
        if holds_line(self.p0) {
            GameOutcome::Winner(Player::P0)
        } else if holds_line(self.p1) {
            GameOutcome::Winner(Player::P1)
        } else if (self.p0 | self.p1) == TIC_TAC_CELLS {
            GameOutcome::Draw
        } else {
            GameOutcome::Ongoing
        }
    }

    pub open spec fn turn_spec(self) -> Player {
        if bits_below(self.p0 as u64, 16) > bits_below(self.p1 as u64, 16) {
            Player::P1
        } else {
            Player::P0
        }
    }

    pub open spec fn is_legal(self, m: u8) -> bool {
        m < 9 && !cell_taken(self, m)
    }

    pub open spec fn placed(self, m: u8) -> TicTacBoard {
        match self.turn_spec() {
            Player::P0 => TicTacBoard { p0: self.p0 | (1u16 << (m as u16)), p1: self.p1 },
            Player::P1 => TicTacBoard { p0: self.p0, p1: self.p1 | (1u16 << (m as u16)) },
        }
    }

    pub open spec fn conflict(self, state: TicTacBoard) -> bool {
        (state.p0 & self.p1) != 0 || (state.p1 & self.p0) != 0
    }

    pub fn new() -> (r: TicTacBoard)
        ensures
            r.wf(),
            r.p0 == 0 && r.p1 == 0,
            r.outcome_spec() == GameOutcome::Ongoing,
    {
        assert(0u16 & 0u16 == 0 && (0u16 | 0u16) != 0x1ffu16) by (bit_vector);
        assert forall|i: int| 0 <= i < 8 implies (tic_tac_lines()[i] & 0u16)
            != tic_tac_lines()[i] by {
            let l = tic_tac_lines()[i];
            assert(l != 0);
            assert((l & 0u16) == 0) by (bit_vector);
        }
        TicTacBoard { p0: 0, p1: 0 }
    }

    /// A line of the first player wins for it, else a line of the second
    /// player; a full board without a line is drawn.
    pub fn outcome(&self) -> (r: GameOutcome)
        ensures
            r == self.outcome_spec(),
    {
        if has_line(self.p0) {
            return GameOutcome::Winner(Player::P0);
        }
        if has_line(self.p1) {
            return GameOutcome::Winner(Player::P1);
        }
        if (self.p0 | self.p1) == TIC_TAC_CELLS {
            return GameOutcome::Draw;
        }
        GameOutcome::Ongoing
    }

    /// The second player moves when the first has strictly more stones.
    pub fn whose_turn(&self) -> (r: Player)
        ensures
            r == self.turn_spec(),
    {
        if count_bits_below(self.p0 as u64, 16) > count_bits_below(self.p1 as u64, 16) {
            return Player::P1;
        }
        Player::P0
    }

    /// Puts a stone of the side to move on the empty cell `m`.
    pub fn apply_move(&self, m: u8) -> (r: TicTacBoard)
        requires
            self.wf(),
            self.is_legal(m),
        ensures
            r == self.placed(m),
            r.wf(),
            r.p0 | r.p1 == self.p0 | self.p1 | (1u16 << (m as u16)),
    {
        let p0 = self.p0;
        let p1 = self.p1;
        let s = m as u16;
        assert(((p0 | p1) >> s) & 1 != 1 && s < 9 && p0 & p1 == 0 && p0 <= 0x1ff && p1 <= 0x1ff
            ==> (p0 | (1u16 << s)) & p1 == 0 && p0 & (p1 | (1u16 << s)) == 0
            && (p0 | (1u16 << s)) <= 0x1ff && (p1 | (1u16 << s)) <= 0x1ff
            && (p0 | (1u16 << s)) | p1 == p0 | p1 | (1u16 << s)
            && p0 | (p1 | (1u16 << s)) == p0 | p1 | (1u16 << s)) by (bit_vector);
        match self.whose_turn() {
            Player::P0 => TicTacBoard { p0: self.p0 | (1u16 << s), p1: self.p1 },
            Player::P1 => TicTacBoard { p0: self.p0, p1: self.p1 | (1u16 << s) },
        }
    }

    pub open spec fn open_cells(self) -> u16 {
        !(self.p0 | self.p1) & TIC_TAC_CELLS
    }

    /// The empty cells, in increasing order.
    pub open spec fn legal_seq(self) -> Seq<u8> {
        set_indices(self.open_cells() as u64, 64)
    }

    pub proof fn lemma_legal_seq(self)
        requires
            self.wf(),
        ensures
            forall|i: int| 0 <= i < self.legal_seq().len() ==> self.is_legal(#[trigger] self.legal_seq()[i]),
            forall|m: u8| self.is_legal(m) ==> self.legal_seq().contains(m),
            forall|i: int, j: int| 0 <= i < j < self.legal_seq().len() ==> self.legal_seq()[i] < self.legal_seq()[j],
            self.legal_seq().len() <= 64,
    {
        let open_spots = self.open_cells();
        lemma_set_indices(open_spots as u64, 64);
        crate::bits::lemma_bits_below_bound(open_spots as u64, 64);
        let occ = self.p0 | self.p1;
        assert forall|m: u8| bit(open_spots as u64, m as nat) <==> self.is_legal(m) by {
            let mm = m as u64;
            assert(open_spots == !occ & 0x1ffu16);
            assert(mm < 64 ==> ((((!occ & 0x1ffu16) as u64) >> mm) & 1 == 1 <==> (mm < 9
                && (occ >> (mm as u16)) & 1 != 1))) by (bit_vector);
        }
    }

    /// The empty cells, in increasing order.
    pub fn legal_moves(&self) -> (r: Vec<u8>)
        requires
            self.wf(),
        ensures
            r@ == self.legal_seq(),
    {
        let open_spots: u16 = !(self.p0 | self.p1) & TIC_TAC_CELLS;
        one_idxs(open_spots as u64)
    }

    /// One position per empty cell, in the order of `legal_moves`.
    pub fn afterstates(&self) -> (r: Vec<TicTacBoard>)
        requires
            self.wf(),
        ensures
            r@ == self.legal_seq().map_values(|m: u8| self.placed(m)),
            forall|i: int| 0 <= i < r@.len() ==> (#[trigger] r@[i]).wf(),
    {
        let moves = self.legal_moves();
        proof {
            self.lemma_legal_seq();
        }
        let mut r: Vec<TicTacBoard> = Vec::new();
        let mut i: usize = 0;
        while i < moves.len()
            invariant
                self.wf(),
                i <= moves@.len(),
                moves@ == self.legal_seq(),
                moves@.len() <= 64,
                r@.len() == i,
                forall|j: int| 0 <= j < moves@.len() ==> self.is_legal(#[trigger] moves@[j]),
                forall|j: int| 0 <= j < i ==> #[trigger] r@[j] == self.placed(moves@[j]),
                forall|j: int| 0 <= j < i ==> (#[trigger] r@[j]).wf(),
            decreases moves@.len() - i,
        {
            let b = self.apply_move(moves[i]);
            r.push(b);
            i = i + 1;
        }
        assert(r@ =~= self.legal_seq().map_values(|m: u8| self.placed(m)));
        r
    }

    /// True iff some cell holds a stone of one player in `self` and of the
    /// other in `state`.
    pub fn unreachable_from(&self, state: TicTacBoard) -> (r: bool)
        ensures
            r == self.conflict(state),
    {
        (state.p0 & self.p1 != 0) || (state.p1 & self.p0 != 0)
    }

    /// No symmetry reduction: every position is its own representative.
    pub fn canonical(&self) -> (r: TicTacBoard)
        ensures
            r == *self,
    {
        *self
    }
}

/// The 3x3 game, searchable through `Game`.
#[derive(Clone, Copy, Debug)]
pub struct TicTacGame;

impl Game for TicTacGame {
    type Board = TicTacBoard;

    open spec fn valid(&self) -> bool {
        true
    }

    open spec fn wf(&self, b: TicTacBoard) -> bool {
        b.wf()
    }

    open spec fn outcome_of(&self, b: TicTacBoard) -> GameOutcome {
        b.outcome_spec()
    }

    open spec fn turn_of(&self, b: TicTacBoard) -> Player {
        b.turn_spec()
    }

    open spec fn is_legal(&self, b: TicTacBoard, m: u8) -> bool {
        b.is_legal(m)
    }

    open spec fn after(&self, b: TicTacBoard, m: u8) -> TicTacBoard {
        b.placed(m)
    }

    open spec fn conflict(&self, a: TicTacBoard, b: TicTacBoard) -> bool {
        a.conflict(b)
    }

    open spec fn canon(&self, b: TicTacBoard) -> TicTacBoard {
        b
    }

    open spec fn key_of(&self, b: TicTacBoard) -> u128 {
        ((b.p0 as u128) << 16u128) | (b.p1 as u128)
    }

    /// One position per empty cell, in increasing cell order.
    open spec fn afterstates_shape(&self, b: TicTacBoard, r: Seq<TicTacBoard>) -> bool {
        r == b.legal_seq().map_values(|m: u8| b.placed(m))
    }

    open spec fn is_afterstate(&self, b: TicTacBoard, a: TicTacBoard) -> bool {
        exists|m: u8| self.is_legal(b, m) && a == self.after(b, m)
    }

    proof fn lemma_is_afterstate(&self, b: TicTacBoard, a: TicTacBoard) {
    }

    open spec fn moves_left(&self, b: TicTacBoard) -> nat {
        let stones = bits_below((b.p0 | b.p1) as u64, 9);
        if stones <= 9 {
            (9 - stones) as nat
        } else {
            0
        }
    }

    proof fn lemma_moves_left(&self, a: TicTacBoard, b: TicTacBoard) {
        let (a0, a1, b0, b1) = (a.p0, a.p1, b.p0, b.p1);
        assert((((a0 as u128) << 16u128) | (a1 as u128)) == (((b0 as u128) << 16u128) | (b1 as u128)) ==> a0 == b0
            && a1 == b1) by (bit_vector);
    }

    fn start(&self) -> (r: TicTacBoard) {
        TicTacBoard::new()
    }

    fn outcome(&self, b: TicTacBoard) -> (r: GameOutcome) {
        b.outcome()
    }

    fn whose_turn(&self, b: TicTacBoard) -> (r: Player) {
        b.whose_turn()
    }

    fn apply_move(&self, b: TicTacBoard, m: u8) -> (r: TicTacBoard) {
        let r = b.apply_move(m);
        proof {
            lemma_placed_count(b, m);
        }
        r
    }

    fn legal_moves(&self, b: TicTacBoard) -> (r: Vec<u8>) {
        let r = b.legal_moves();
        proof {
            b.lemma_legal_seq();
            if b.outcome_spec() == GameOutcome::Ongoing {
                lemma_ongoing_has_move(b);
            }
        }
        r
    }

    fn afterstates(&self, b: TicTacBoard) -> (r: Vec<TicTacBoard>) {
        let r = b.afterstates();
        proof {
            b.lemma_legal_seq();
            let ms = b.legal_seq();
            assert forall|i: int| 0 <= i < r@.len() implies self.wf(#[trigger] r@[i]) && self.moves_left(r@[i]) < self.moves_left(b) by {
                lemma_placed_count(b, ms[i]);
            }
            assert forall|i: int| 0 <= i < r@.len() implies self.is_afterstate(b, #[trigger] r@[i]) by {
                assert(self.is_legal(b, ms[i]) && r@[i] == self.after(b, ms[i]));
            }
            assert forall|m: u8| self.is_legal(b, m) implies exists|i: int|
                0 <= i < r@.len() && self.key_of(#[trigger] r@[i]) == self.key_of(self.after(b, m)) by {
                let i = choose|i: int| 0 <= i < ms.len() && ms[i] == m;
                assert(r@[i] == b.placed(m));
            }
            if b.outcome_spec() == GameOutcome::Ongoing {
                lemma_ongoing_has_move(b);
                let m = choose|m: u8| b.is_legal(m);
                assert(ms.contains(m));
            }
        }
        r
    }

    fn unreachable_from(&self, a: TicTacBoard, b: TicTacBoard) -> (r: bool) {
        a.unreachable_from(b)
    }

    fn canonical(&self, b: TicTacBoard) -> (r: TicTacBoard) {
        b.canonical()
    }

    fn key(&self, b: TicTacBoard) -> (r: u128) {
        ((b.p0 as u128) << 16u128) | (b.p1 as u128)
    }
}

/// A stone on an empty cell leaves one empty cell fewer.
pub proof fn lemma_placed_count(b: TicTacBoard, m: u8)
    requires
        b.wf(),
        b.is_legal(m),
    ensures
        bits_below((b.placed(m).p0 | b.placed(m).p1) as u64, 9) == bits_below((b.p0 | b.p1) as u64, 9) + 1,
        bits_below((b.placed(m).p0 | b.placed(m).p1) as u64, 9) <= 9,
{
    let (p0, p1) = (b.p0, b.p1);
    let s = m as u16;
    let q = b.placed(m);
    let (q0, q1) = (q.p0, q.p1);
    assert(((p0 | p1) >> s) & 1 != 1 && s < 9 && (q0 | q1) == p0 | p1 | (1u16 << s) ==> ((q0 | q1) as u64)
        == ((p0 | p1) as u64) ^ (1u64 << (s as u64)) && (((p0 | p1) as u64) >> (s as u64)) & 1 != 1) by (bit_vector);
    assert((q0 | q1) == p0 | p1 | (1u16 << s)) by (bit_vector)
        requires
            (q0 == p0 | (1u16 << s) && q1 == p1) || (q0 == p0 && q1 == p1 | (1u16 << s)),
    ;
    lemma_flip(((p0 | p1) as u64), s as u64, 9);
    crate::bits::lemma_bits_below_bound((q0 | q1) as u64, 9);
}

/// A position that is not full has an empty cell.
pub proof fn lemma_ongoing_has_move(b: TicTacBoard)
    requires
        b.wf(),
        b.outcome_spec() == GameOutcome::Ongoing,
    ensures
        exists|m: u8| b.is_legal(m),
{
    let p0 = b.p0;
    let p1 = b.p1;
    let occ = p0 | p1;
    assert(occ <= 0x1ff) by (bit_vector)
        requires
            p0 <= 0x1ff && p1 <= 0x1ff && occ == p0 | p1,
    ;
    if forall|s: u16| s < 9 ==> (occ >> s) & 1 == 1 {
        assert((occ >> 0u16) & 1 == 1);
        assert((occ >> 1u16) & 1 == 1);
        assert((occ >> 2u16) & 1 == 1);
        assert((occ >> 3u16) & 1 == 1);
        assert((occ >> 4u16) & 1 == 1);
        assert((occ >> 5u16) & 1 == 1);
        assert((occ >> 6u16) & 1 == 1);
        assert((occ >> 7u16) & 1 == 1);
        assert((occ >> 8u16) & 1 == 1);
        assert(occ == 0x1ff) by (bit_vector)
            requires
                occ <= 0x1ff,
                (occ >> 0u16) & 1 == 1,
                (occ >> 1u16) & 1 == 1,
                (occ >> 2u16) & 1 == 1,
                (occ >> 3u16) & 1 == 1,
                (occ >> 4u16) & 1 == 1,
                (occ >> 5u16) & 1 == 1,
                (occ >> 6u16) & 1 == 1,
                (occ >> 7u16) & 1 == 1,
                (occ >> 8u16) & 1 == 1,
        ;
    }
    let s = choose|s: u16| s < 9 && (occ >> s) & 1 != 1;
    assert(b.is_legal(s as u8));
}

} // verus!
