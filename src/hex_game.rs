use vstd::prelude::*;
use crate::bits::{bit, bits_below, lemma_flip, one_idxs, lemma_set_indices, set_indices};
use crate::hex::within_cells;
use crate::symmetry::{lemma_canon_keeps_count, lemma_top_bits};
use crate::calls::{pair_le, sort_pairs};
use crate::game::Game;
use crate::hex::{after_move_spec, board_ok, canon_spec, canonical, check_game_outcome, check_game_outcome_after_move, full_spec, hex_whose_turn, hex_wf, lemma_empty_ongoing, lemma_incremental_matches_scan, n_moves_played, outcome_spec, placed, turn_spec, BitBoard, HexRules, PlayerBitBoard, CANON_LIMIT, EXCLUDE_TOP_BITS};
use crate::outcome::{GameOutcome, Player};

verus! {

broadcast use vstd::seq_lib::group_to_multiset_ensures;

pub open spec fn hex_key(b: BitBoard) -> u128 {
    ((b.p0.bits as u128) << 64u128) | (b.p1.bits as u128)
}

pub open spec fn hex_legal(b: BitBoard, m: u8) -> bool {
    m < 61 && !bit(b.p0.bits | b.p1.bits, m as nat)
}

/// The position after the side to move plays `m`, with the outcome that
/// the incremental check gives, before symmetry projection.
pub open spec fn placed_known(rules: &HexRules, b: BitBoard, m: u8) -> BitBoard {
    let p = placed(b, m);
    BitBoard { p0: p.p0, p1: p.p1, outcome: Some(after_move_spec(rules, b, m)) }
}

pub open spec fn hex_free(b: BitBoard) -> u64 {
    !(b.p0.bits | b.p1.bits) & EXCLUDE_TOP_BITS
}

proof fn lemma_free_cells(b: BitBoard)
    requires
        board_ok(b),
    ensures
        forall|m: u8| bit(hex_free(b), m as nat) <==> hex_legal(b, m),
        !full_spec(b.p0.bits, b.p1.bits) ==> exists|m: u8| hex_legal(b, m),
{
    let occ = b.p0.bits | b.p1.bits;
    assert forall|m: u8| bit(hex_free(b), m as nat) <==> hex_legal(b, m) by {
        let mm = m as u64;
        assert(mm < 64 ==> (((!occ & 0x1fff_ffff_ffff_ffffu64) >> mm) & 1 == 1 <==> (mm < 61
            && (occ >> mm) & 1 != 1))) by (bit_vector);
    }
    if !full_spec(b.p0.bits, b.p1.bits) {
        let free = hex_free(b);
        vstd::std_specs::bits::axiom_u64_trailing_zeros(free);
        let t = vstd::std_specs::bits::u64_trailing_zeros(free) as u64;
        assert(free == !occ & 0x1fff_ffff_ffff_ffffu64);
        assert(free == !occ & 0x1fff_ffff_ffff_ffffu64 && t < 64 && (free >> t) & 1 == 1 ==> t < 61) by (bit_vector);
        assert(bit(free, t as nat));
        assert(hex_legal(b, t as u8));
    }
}

/// After a move the position, projected to its representative, has one
/// stone more, and at most 61.
pub proof fn lemma_placed_count(rules: &HexRules, b: BitBoard, m: u8)
    requires
        rules.wf(),
        board_ok(b),
        hex_legal(b, m),
    ensures
        bits_below(canon_spec(rules, placed_known(rules, b, m)).p0.bits | canon_spec(rules, placed_known(rules, b, m)).p1.bits, 64)
            == bits_below(b.p0.bits | b.p1.bits, 64) + 1,
        bits_below(b.p0.bits | b.p1.bits, 64) + 1 <= 61,
{
    let p = placed_known(rules, b, m);
    lemma_placement_disjoint(b, m);
    let occ = b.p0.bits | b.p1.bits;
    let mm = m as u64;
    assert((occ >> mm) & 1 != 1 && mm < 61 ==> occ | (1u64 << mm) == occ ^ (1u64 << mm)) by (bit_vector);
    lemma_flip(occ, mm, 64);
    lemma_canon_keeps_count(rules, p);
    let c = canon_spec(rules, p);
    let (c0, c1) = (c.p0.bits, c.p1.bits);
    let q = c0 | c1;
    assert(within_cells(q)) by (bit_vector)
        requires
            c0 & !0x1fff_ffff_ffff_ffffu64 == 0,
            c1 & !0x1fff_ffff_ffff_ffffu64 == 0,
            q == c0 | c1,
    ;
    lemma_top_bits(q);
    crate::bits::lemma_bits_below_bound(q, 61);
}

/// A move adds one stone to the side that moved and none to the other,
/// also after projection to the representative.
pub proof fn lemma_apply_move_counts(rules: &HexRules, b: BitBoard, m: u8)
    requires
        rules.wf(),
        board_ok(b),
        hex_legal(b, m),
    ensures
        ({
            let a = rules.after(b, m);
            let (d0, d1) = if turn_spec(b) == Player::P0 { (1int, 0int) } else { (0int, 1int) };
            &&& bits_below(a.p0.bits, 64) == bits_below(b.p0.bits, 64) + d0
            &&& bits_below(a.p1.bits, 64) == bits_below(b.p1.bits, 64) + d1
        }),
{
    let p = placed_known(rules, b, m);
    lemma_placement_disjoint(b, m);
    lemma_canon_keeps_count(rules, p);
    let (p0, p1) = (b.p0.bits, b.p1.bits);
    let mm = m as u64;
    assert(p0 & p1 == 0 && ((p0 | p1) >> mm) & 1 != 1 && mm < 61 ==> (p0 >> mm) & 1 != 1 && (p1 >> mm) & 1 != 1
        && p0 | (1u64 << mm) == p0 ^ (1u64 << mm) && p1 | (1u64 << mm) == p1 ^ (1u64 << mm)) by (bit_vector);
    lemma_flip(p0, mm, 64);
    lemma_flip(p1, mm, 64);
}

/// A stone placed on an empty cell claims that cell and no other, and the
/// players' cells stay disjoint and on the board.
pub proof fn lemma_placement_disjoint(b: BitBoard, m: u8)
    requires
        board_ok(b),
        hex_legal(b, m),
    ensures
        board_ok(placed(b, m)),
        placed(b, m).p0.bits | placed(b, m).p1.bits == b.p0.bits | b.p1.bits | (1u64 << (m as u64)),
{
    let p0 = b.p0.bits;
    let p1 = b.p1.bits;
    let mm = m as u64;
    assert(p0 & p1 == 0 && p0 & !0x1fff_ffff_ffff_ffffu64 == 0 && p1 & !0x1fff_ffff_ffff_ffffu64 == 0
        && mm < 61 && ((p0 | p1) >> mm) & 1 != 1 ==> {
        let x = p0 | (1u64 << mm);
        let y = p1 | (1u64 << mm);
        &&& x & p1 == 0 && x & !0x1fff_ffff_ffff_ffffu64 == 0
        &&& p0 & y == 0 && y & !0x1fff_ffff_ffff_ffffu64 == 0
        &&& x | p1 == p0 | p1 | (1u64 << mm)
        &&& p0 | y == p0 | p1 | (1u64 << mm)
    }) by (bit_vector);
}

impl Game for HexRules {
    type Board = BitBoard;

    open spec fn valid(&self) -> bool {
        self.wf()
    }

    open spec fn wf(&self, b: BitBoard) -> bool {
        hex_wf(self, b)
    }

    open spec fn outcome_of(&self, b: BitBoard) -> GameOutcome {
        outcome_spec(self, b)
    }

    open spec fn turn_of(&self, b: BitBoard) -> Player {
        turn_spec(b)
    }

    open spec fn is_legal(&self, b: BitBoard, m: u8) -> bool {
        hex_legal(b, m)
    }

    open spec fn after(&self, b: BitBoard, m: u8) -> BitBoard {
        canon_spec(self, placed_known(self, b, m))
    }

    open spec fn conflict(&self, a: BitBoard, b: BitBoard) -> bool {
        (a.p0.bits & b.p1.bits) != 0 || (a.p1.bits & b.p0.bits) != 0
    }

    open spec fn canon(&self, b: BitBoard) -> BitBoard {
        canon_spec(self, b)
    }

    open spec fn key_of(&self, b: BitBoard) -> u128 {
        hex_key(b)
    }

    /// From `CANON_LIMIT` stones on, one position per empty cell in
    /// increasing cell order; below it, keys strictly increasing (sorted,
    /// with positions of equal occupancy merged).
    open spec fn afterstates_shape(&self, b: BitBoard, r: Seq<BitBoard>) -> bool {
        if bits_below(b.p0.bits | b.p1.bits, 64) >= CANON_LIMIT {
            let ms = set_indices(hex_free(b), 64);
            &&& r.len() == ms.len()
            &&& forall|i: int| 0 <= i < r.len() ==> #[trigger] r[i] == self.after(b, ms[i])
        } else {
            forall|i: int, j: int| 0 <= i < j < r.len() ==> hex_key(r[i]) < hex_key(r[j])
        }
    }

    open spec fn is_afterstate(&self, b: BitBoard, a: BitBoard) -> bool {
        exists|m: u8| self.is_legal(b, m) && a == self.after(b, m)
    }

    proof fn lemma_is_afterstate(&self, b: BitBoard, a: BitBoard) {
    }

    open spec fn moves_left(&self, b: BitBoard) -> nat {
        let stones = bits_below(b.p0.bits | b.p1.bits, 64);
        if stones <= 61 {
            (61 - stones) as nat
        } else {
            0
        }
    }

    proof fn lemma_moves_left(&self, a: BitBoard, b: BitBoard) {
        let (a0, a1, b0, b1) = (a.p0.bits, a.p1.bits, b.p0.bits, b.p1.bits);
        assert((((a0 as u128) << 64u128) | (a1 as u128)) == (((b0 as u128) << 64u128) | (b1 as u128)) ==> a0 == b0
            && a1 == b1) by (bit_vector);
    }

    fn start(&self) -> (r: BitBoard) {
        proof {
            lemma_empty_ongoing(self);
        }
        let r = BitBoard::empty();
        assert(0u64 & 0u64 == 0 && 0u64 & !0x1fff_ffff_ffff_ffffu64 == 0) by (bit_vector);
        r
    }

    /// The stored outcome when there is one, else a full scan.
    fn outcome(&self, b: BitBoard) -> (r: GameOutcome) {
        match b.outcome {
            Some(o) => o,
            None => check_game_outcome(b, self).0,
        }
    }

    fn whose_turn(&self, b: BitBoard) -> (r: Player) {
        hex_whose_turn(b)
    }

    /// Places the stone, records the outcome from the lines through `m`,
    /// and projects the result to its representative.
    fn apply_move(&self, b: BitBoard, m: u8) -> (r: BitBoard) {
        let o = check_game_outcome_after_move(b, m, self);
        let bit_m: u64 = 1u64 << m as u64;
        let p = match hex_whose_turn(b) {
            Player::P0 => BitBoard {
                p0: PlayerBitBoard { bits: b.p0.bits | bit_m },
                p1: b.p1,
                outcome: Some(o),
            },
            Player::P1 => BitBoard {
                p0: b.p0,
                p1: PlayerBitBoard { bits: b.p1.bits | bit_m },
                outcome: Some(o),
            },
        };
        proof {
            lemma_incremental_matches_scan(self, b, m);
            lemma_placement_disjoint(b, m);
            assert(p == placed_known(self, b, m));
            lemma_placed_count(self, b, m);
        }
        canonical(p, self)
    }

    fn legal_moves(&self, b: BitBoard) -> (r: Vec<u8>) {
        let free = !(b.p0.bits | b.p1.bits) & EXCLUDE_TOP_BITS;
        let r = one_idxs(free);
        proof {
            lemma_free_cells(b);
            lemma_set_indices(free, 64);
            if outcome_spec(self, b) == GameOutcome::Ongoing {
                let m = choose|m: u8| hex_legal(b, m);
                assert(r@.contains(m));
            }
        }
        r
    }

    /// One position per empty cell; below `CANON_LIMIT` stones, positions
    /// with equal occupancy are merged, leaving them ordered by occupancy.
    #[verifier::rlimit(60)]
    fn afterstates(&self, b: BitBoard) -> (r: Vec<BitBoard>) {
        let free = !(b.p0.bits | b.p1.bits) & EXCLUDE_TOP_BITS;
        let moves = one_idxs(free);
        proof {
            lemma_free_cells(b);
            lemma_set_indices(free, 64);
            if outcome_spec(self, b) == GameOutcome::Ongoing {
                let m = choose|m: u8| hex_legal(b, m);
                assert(moves@.contains(m));
            }
        }
        let mut result: Vec<BitBoard> = Vec::new();
        let mut i: usize = 0;
        while i < moves.len()
            invariant
                self.wf(),
                hex_wf(self, b),
                outcome_spec(self, b) == GameOutcome::Ongoing,
                i <= moves@.len(),
                moves@.len() <= 64,
                forall|j: int| 0 <= j < moves@.len() ==> hex_legal(b, #[trigger] moves@[j]),
                forall|m: u8| hex_legal(b, m) ==> moves@.contains(m),
                outcome_spec(self, b) == GameOutcome::Ongoing ==> moves@.len() > 0,
                moves@ == set_indices(hex_free(b), 64),
                result@.len() == i,
                forall|j: int| 0 <= j < i ==> #[trigger] result@[j] == self.after(b, moves@[j]),
                forall|j: int| 0 <= j < i ==> hex_wf(self, #[trigger] result@[j]) && self.moves_left(result@[j]) < self.moves_left(b)
                    && self.is_afterstate(b, result@[j]),
            decreases moves@.len() - i,
        {
            let a = self.apply_move(b, moves[i]);
            proof {
                assert(self.is_legal(b, moves@[i as int]) && a == self.after(b, moves@[i as int]));
            }
            result.push(a);
            i = i + 1;
        }
        if n_moves_played(b) >= CANON_LIMIT {
            proof {
                assert forall|m: u8| self.is_legal(b, m) implies exists|i: int|
                    0 <= i < result@.len() && self.key_of(#[trigger] result@[i]) == self.key_of(self.after(b, m)) by {
                    let q = choose|q: int| 0 <= q < moves@.len() && moves@[q] == m;
                    assert(result@[q] == self.after(b, m));
                }
                if outcome_spec(self, b) == GameOutcome::Ongoing {
                    assert(moves@.len() > 0);
                }
            }
            return result;
        }
        let mut keys: Vec<(u128, u64)> = Vec::new();
        let mut k: usize = 0;
        while k < result.len()
            invariant
                k <= result@.len(),
                result@.len() <= 64,
                keys@.len() == k,
                forall|j: int| 0 <= j < k ==> #[trigger] keys@[j] == (hex_key(result@[j]), j as u64),
            decreases result@.len() - k,
        {
            let key: u128 = ((result[k].p0.bits as u128) << 64u128) | (result[k].p1.bits as u128);
            keys.push((key, k as u64));
            k = k + 1;
        }
        let ghost unsorted = keys@;
        sort_pairs(&mut keys);
        let ghost sorted = keys@;
        proof {
            assert(sorted.to_multiset().len() == sorted.len());
            assert(unsorted.to_multiset().len() == unsorted.len());
            assert forall|j: int| 0 <= j < sorted.len() implies (#[trigger] sorted[j]).1 < result@.len()
                && sorted[j].0 == hex_key(result@[sorted[j].1 as int]) by {
                assert(sorted.contains(sorted[j]));
                assert(unsorted.to_multiset().count(sorted[j]) > 0);
                assert(unsorted.contains(sorted[j]));
            }
        }
        let mut out: Vec<BitBoard> = Vec::new();
        let mut last_key: u128 = 0;
        let mut j: usize = 0;
        while j < keys.len()
            invariant
                keys@ == sorted,
                j <= sorted.len(),
                sorted.len() == result@.len(),
                forall|q: int| 0 <= q < sorted.len() ==> (#[trigger] sorted[q]).1 < result@.len()
                    && sorted[q].0 == hex_key(result@[sorted[q].1 as int]),
                forall|q: int, w: int| 0 <= q < w < sorted.len() ==> pair_le(sorted[q], sorted[w]),
                forall|q: int| 0 <= q < result@.len() ==> hex_wf(self, #[trigger] result@[q]) && self.moves_left(result@[q]) < self.moves_left(b)
                    && self.is_afterstate(b, result@[q]),
                forall|q: int| 0 <= q < out@.len() ==> hex_wf(self, #[trigger] out@[q]) && self.moves_left(out@[q]) < self.moves_left(b)
                    && self.is_afterstate(b, out@[q]),
                out@.len() <= j,
                j > 0 ==> out@.len() > 0 && last_key == sorted[j - 1].0 && hex_key(out@[out@.len() - 1]) == last_key,
                forall|p: int, q: int| 0 <= p < q < out@.len() ==> hex_key(out@[p]) < hex_key(out@[q]),
                forall|q: int| 0 <= q < j ==> exists|w: int| 0 <= w < out@.len() && hex_key(#[trigger] out@[w]) == (#[trigger] sorted[q]).0,
            decreases sorted.len() - j,
        {
            let (key, idx) = keys[j];
            let ghost prev = out@;
            if j == 0 || key != last_key {
                out.push(result[idx as usize]);
                last_key = key;
            }
            proof {
                if j > 0 {
                    assert(pair_le(sorted[j - 1], sorted[j as int]));
                }
                assert forall|p: int, q: int| 0 <= p < q < out@.len() implies hex_key(out@[p]) < hex_key(out@[q]) by {
                    if out@.len() > prev.len() && q == out@.len() - 1 {
                        assert(out@[p] == prev[p]);
                        if p < prev.len() - 1 {
                            assert(hex_key(prev[p]) < hex_key(prev[prev.len() - 1]));
                        }
                    } else {
                        assert(out@[p] == prev[p] && out@[q] == prev[q]);
                    }
                }
                assert(hex_key(out@[out@.len() - 1]) == sorted[j as int].0);
                assert forall|q: int| 0 <= q < j + 1 implies exists|w: int|
                    0 <= w < out@.len() && hex_key(#[trigger] out@[w]) == (#[trigger] sorted[q]).0 by {
                    if q == j {
                        assert(hex_key(out@[out@.len() - 1]) == sorted[q].0);
                    } else {
                        let w = choose|w: int| 0 <= w < prev.len() && hex_key(#[trigger] prev[w]) == sorted[q].0;
                        assert(out@[w] == prev[w]);
                    }
                }
            }
            j = j + 1;
        }
        proof {
            assert forall|m: u8| self.is_legal(b, m) implies exists|i: int|
                0 <= i < out@.len() && self.key_of(#[trigger] out@[i]) == self.key_of(self.after(b, m)) by {
                let q = choose|q: int| 0 <= q < moves@.len() && moves@[q] == m;
                assert(unsorted[q] == (hex_key(result@[q]), q as u64));
                assert(unsorted.contains(unsorted[q]));
                assert(sorted.to_multiset().count(unsorted[q]) > 0);
                let w = choose|w: int| 0 <= w < sorted.len() && sorted[w] == unsorted[q];
                assert(sorted[w].0 == hex_key(result@[q]));
            }
            if outcome_spec(self, b) == GameOutcome::Ongoing {
                assert(self.is_legal(b, moves@[0]));
            }
        }
        out
    }

    /// True iff some cell holds a stone of one player in `a` and of the
    /// other in `b`.
    fn unreachable_from(&self, a: BitBoard, b: BitBoard) -> (r: bool) {
        (a.p0.bits & b.p1.bits) != 0 || (a.p1.bits & b.p0.bits) != 0
    }

    fn canonical(&self, b: BitBoard) -> (r: BitBoard) {
        canonical(b, self)
    }

    fn key(&self, b: BitBoard) -> (r: u128) {
        ((b.p0.bits as u128) << 64u128) | (b.p1.bits as u128)
    }
}

} // verus!
