use vstd::prelude::*;
use crate::bits::{bit, bits_below, count_bits_below};
use crate::outcome::{opponent, other_player, GameOutcome, Player};

verus! {

/// The 61 cells of the board: bits 0..61. The top three bits are never used.
pub const EXCLUDE_TOP_BITS: u64 = 0x1fff_ffff_ffff_ffff;

/// The first bit of each six-bit ring segment, where a rotation wraps.
pub const ROLLED_RING_POSITIONS: u64 = 0x2082_0820_8208_2082;

/// Symmetry reduction applies only to positions with fewer stones than this.
pub const CANON_LIMIT: u32 = 5;

/// The cells of one player.
#[derive(PartialEq, Eq, Structural, Clone, Copy, Debug, Hash, PartialOrd, Ord)]
pub struct PlayerBitBoard {
    pub bits: u64,
}

/// A hexagonal position: one occupancy mask per player and, when known,
/// the position's outcome.
#[derive(PartialEq, Eq, Structural, Clone, Copy, Debug, Hash, PartialOrd, Ord)]
pub struct BitBoard {
    pub p0: PlayerBitBoard,
    pub p1: PlayerBitBoard,
    pub outcome: Option<GameOutcome>,
}

/// One step of the six-fold rotation: every six-bit ring segment turns by
/// one place; the centre (bit 0) stays.
pub open spec fn rotate_spec(bb: u64) -> u64 {
    let shifted = bb << 1;
    ((shifted & !ROLLED_RING_POSITIONS) | ((shifted & ROLLED_RING_POSITIONS) >> 6)) | (bb & 1)
}

pub open spec fn rotate_n(bb: u64, n: nat) -> u64
    decreases n,
{
    if n == 0 {
        bb
    } else {
        rotate_spec(rotate_n(bb, (n - 1) as nat))
    }
}

pub open spec fn within_cells(x: u64) -> bool {
    x & !EXCLUDE_TOP_BITS == 0
}

/// `mask` is contained in `bits`.
pub open spec fn covers(bits: u64, mask: u64) -> bool {
    mask & bits == mask
}

/// A rotation keeps a mask on the board, keeps it non-empty, and keeps
/// two disjoint masks disjoint; six rotations are the identity.
pub proof fn lemma_rotate(a: u64, b: u64)
    ensures
        within_cells(a) ==> within_cells(rotate_spec(a)),
        within_cells(a) && a != 0 ==> rotate_spec(a) != 0,
        a & b == 0 ==> rotate_spec(a) & rotate_spec(b) == 0,
        within_cells(a) ==> rotate_n(a, 6) == a,
        within_cells(a) && within_cells(b) ==> (covers(b, a) <==> covers(rotate_spec(b), rotate_spec(a))),
        rotate_spec(a | b) == rotate_spec(a) | rotate_spec(b),
        rotate_spec(EXCLUDE_TOP_BITS) == EXCLUDE_TOP_BITS,
{
    assert({
        let s = a << 1;
        let r = ((s & !0x2082_0820_8208_2082u64) | ((s & 0x2082_0820_8208_2082u64) >> 6)) | (a & 1);
        let t = b << 1;
        let q = ((t & !0x2082_0820_8208_2082u64) | ((t & 0x2082_0820_8208_2082u64) >> 6)) | (b & 1);
        let o = (a | b) << 1;
        let ro = ((o & !0x2082_0820_8208_2082u64) | ((o & 0x2082_0820_8208_2082u64) >> 6)) | ((a | b) & 1);
        let e = 0x1fff_ffff_ffff_ffffu64 << 1;
        let re = ((e & !0x2082_0820_8208_2082u64) | ((e & 0x2082_0820_8208_2082u64) >> 6)) | (0x1fff_ffff_ffff_ffffu64 & 1);
        &&& a & !0x1fff_ffff_ffff_ffffu64 == 0 ==> r & !0x1fff_ffff_ffff_ffffu64 == 0 && (a != 0 ==> r != 0)
        &&& a & b == 0 ==> r & q == 0
        &&& (a & !0x1fff_ffff_ffff_ffffu64 == 0 && b & !0x1fff_ffff_ffff_ffffu64 == 0) ==> (a & b == a <==> r & q == r)
        &&& ro == r | q
        &&& re == 0x1fff_ffff_ffff_ffffu64
    }) by (bit_vector);
    reveal_with_fuel(rotate_n, 7);
    let r1 = rotate_spec(a);
    let r2 = rotate_spec(r1);
    let r3 = rotate_spec(r2);
    let r4 = rotate_spec(r3);
    let r5 = rotate_spec(r4);
    let r6 = rotate_spec(r5);
    assert(a & !0x1fff_ffff_ffff_ffffu64 == 0 ==> {
        let s1 = a << 1;
        let x1 = ((s1 & !0x2082_0820_8208_2082u64) | ((s1 & 0x2082_0820_8208_2082u64) >> 6)) | (a & 1);
        let s2 = x1 << 1;
        let x2 = ((s2 & !0x2082_0820_8208_2082u64) | ((s2 & 0x2082_0820_8208_2082u64) >> 6)) | (x1 & 1);
        let s3 = x2 << 1;
        let x3 = ((s3 & !0x2082_0820_8208_2082u64) | ((s3 & 0x2082_0820_8208_2082u64) >> 6)) | (x2 & 1);
        let s4 = x3 << 1;
        let x4 = ((s4 & !0x2082_0820_8208_2082u64) | ((s4 & 0x2082_0820_8208_2082u64) >> 6)) | (x3 & 1);
        let s5 = x4 << 1;
        let x5 = ((s5 & !0x2082_0820_8208_2082u64) | ((s5 & 0x2082_0820_8208_2082u64) >> 6)) | (x4 & 1);
        let s6 = x5 << 1;
        let x6 = ((s6 & !0x2082_0820_8208_2082u64) | ((s6 & 0x2082_0820_8208_2082u64) >> 6)) | (x5 & 1);
        x6 == a
    }) by (bit_vector);
}

/// Turns one player's cells by one sixth of a turn.
pub fn yavalath_rotate(bb: u64) -> (r: u64)
    ensures
        r == rotate_spec(bb),
{
    let shifted = bb << 1;
    let checked_rolled_bits = shifted & ROLLED_RING_POSITIONS;
    let with_cleared_rolled_bits = shifted & !ROLLED_RING_POSITIONS;
    let with_set_rolled_bits = with_cleared_rolled_bits | (checked_rolled_bits >> 6);
    with_set_rolled_bits | (bb & 1)
}

/// Turns both players' cells by one sixth of a turn; the outcome is kept.
pub fn rotate_board(bb: BitBoard) -> (r: BitBoard)
    ensures
        r.p0.bits == rotate_spec(bb.p0.bits),
        r.p1.bits == rotate_spec(bb.p1.bits),
        r.outcome == bb.outcome,
{
    BitBoard {
        p0: PlayerBitBoard { bits: yavalath_rotate(bb.p0.bits) },
        p1: PlayerBitBoard { bits: yavalath_rotate(bb.p1.bits) },
        outcome: bb.outcome,
    }
}

/// The change that swapping bits `a` and `b` of `n` makes: both bits flip
/// exactly when they differ.
pub open spec fn swap_delta(n: u64, a: u8, b: u8) -> u64 {
    let x = ((n >> (a as u64)) & 1) ^ ((n >> (b as u64)) & 1);
    (x << (a as u64)) | (x << (b as u64))
}

/// `n` with the bits of the first `k` pairs swapped, each pair reading the
/// bits of `n` itself.
pub open spec fn mirror_upto(n: u64, pairs: Seq<(u8, u8)>, k: nat) -> u64
    decreases k,
{
    if k == 0 || k > pairs.len() {
        n
    } else {
        mirror_upto(n, pairs, (k - 1) as nat) ^ swap_delta(n, pairs[k - 1].0, pairs[k - 1].1)
    }
}

pub open spec fn mirror_spec(n: u64, pairs: Seq<(u8, u8)>) -> u64 {
    mirror_upto(n, pairs, pairs.len())
}

pub open spec fn pairs_in_range(pairs: Seq<(u8, u8)>) -> bool {
    forall|i: int| 0 <= i < pairs.len() ==> (#[trigger] pairs[i]).0 < 61 && pairs[i].1 < 61
}

/// Reflects one player's cells by swapping the bits of each pair.
pub fn yavalath_mirror(n: u64, pairs: &Vec<(u8, u8)>) -> (r: u64)
    requires
        pairs_in_range(pairs@),
    ensures
        r == mirror_spec(n, pairs@),
        pairs_disjoint(pairs@) ==> bits_below(r, 64) == bits_below(n, 64),
        pairs_disjoint(pairs@) ==> mirror_spec(r, pairs@) == n,
        within_cells(n) ==> within_cells(r),
{
    proof {
        if pairs_disjoint(pairs@) {
            crate::symmetry::lemma_mirror_count(n, pairs@, pairs@.len());
            crate::symmetry::lemma_mirror_involutive(pairs@);
        }
        if within_cells(n) {
            crate::symmetry::lemma_mirror_within(n, pairs@, pairs@.len());
        }
    }
    let mut result = n;
    let mut i: usize = 0;
    while i < pairs.len()
        invariant
            i <= pairs@.len(),
            pairs_in_range(pairs@),
            result == mirror_upto(n, pairs@, i as nat),
        decreases pairs@.len() - i,
    {
        let (p1, p2) = pairs[i];
        let p1_set = (n >> p1 as u64) & 1;
        let p2_set = (n >> p2 as u64) & 1;
        let xor = p1_set ^ p2_set;
        let both_xor = (xor << p1 as u64) | (xor << p2 as u64);
        result = result ^ both_xor;
        i = i + 1;
    }
    proof {
        if pairs_disjoint(pairs@) {
            assert(mirror_spec(mirror_spec(n, pairs@), pairs@) == n);
        }
    }
    result
}

/// Reflects both players' cells; the outcome is kept.
pub fn mirror_board(bb: BitBoard, pairs: &Vec<(u8, u8)>) -> (r: BitBoard)
    requires
        pairs_in_range(pairs@),
    ensures
        r.p0.bits == mirror_spec(bb.p0.bits, pairs@),
        r.p1.bits == mirror_spec(bb.p1.bits, pairs@),
        r.outcome == bb.outcome,
        pairs_disjoint(pairs@) ==> mirror_spec(r.p0.bits, pairs@) == bb.p0.bits && mirror_spec(r.p1.bits, pairs@)
            == bb.p1.bits,
        pairs_disjoint(pairs@) ==> bits_below(r.p0.bits, 64) == bits_below(bb.p0.bits, 64) && bits_below(r.p1.bits, 64)
            == bits_below(bb.p1.bits, 64),
{
    BitBoard {
        p0: PlayerBitBoard { bits: yavalath_mirror(bb.p0.bits, pairs) },
        p1: PlayerBitBoard { bits: yavalath_mirror(bb.p1.bits, pairs) },
        outcome: bb.outcome,
    }
}

/// Every base mask followed by its two further rotations:
/// `expand(masks)[3 * i + j] == rotate_n(masks[i], j)`.
pub open spec fn expand(masks: Seq<u64>) -> Seq<u64> {
    Seq::new(3 * masks.len(), |k: int| rotate_n(masks[k / 3], (k % 3) as nat))
}

/// The first mask of `all`, from index `k` on, that `bits` covers.
pub open spec fn first_hit(all: Seq<u64>, bits: u64, k: nat) -> Option<u64>
    decreases all.len() - k,
{
    if k >= all.len() {
        None
    } else if covers(bits, all[k as int]) {
        Some(all[k as int])
    } else {
        first_hit(all, bits, k + 1)
    }
}

pub proof fn lemma_first_hit(all: Seq<u64>, bits: u64, k: nat)
    ensures
        first_hit(all, bits, k) is Some <==> exists|i: int| k <= i < all.len() && covers(bits, #[trigger] all[i]),
        first_hit(all, bits, k) is Some ==> covers(bits, first_hit(all, bits, k)->0)
            && all.contains(first_hit(all, bits, k)->0),
    decreases all.len() - k,
{
    if k < all.len() {
        lemma_first_hit(all, bits, k + 1);
        if first_hit(all, bits, k) is Some {
            assert(all[k as int] == all[k as int]);
        }
    }
}

/// Finds the first mask, among `masks` and their rotations in the order of
/// `expand`, that `bb` covers.
pub fn any_mask(bb: u64, masks: &Vec<u64>) -> (r: (bool, Option<u64>))
    requires
        masks@.len() <= usize::MAX / 3,
    ensures
        r.1 == first_hit(expand(masks@), bb, 0),
        r.0 == r.1 is Some,
{
    let ghost all = expand(masks@);
    let mut i: usize = 0;
    while i < masks.len()
        invariant
            i <= masks@.len(),
            masks@.len() <= usize::MAX / 3,
            all == expand(masks@),
            first_hit(all, bb, 0) == first_hit(all, bb, (3 * i) as nat),
        decreases masks@.len() - i,
    {
        let mut r_mask = masks[i];
        let mut j: usize = 0;
        while j < 3
            invariant
                i < masks@.len(),
                masks@.len() <= usize::MAX / 3,
                j <= 3,
                all == expand(masks@),
                r_mask == rotate_n(masks@[i as int], j as nat),
                first_hit(all, bb, 0) == first_hit(all, bb, (3 * i + j) as nat),
            decreases 3 - j,
        {
            assert(all[3 * i + j] == r_mask) by {
                assert((3 * i + j) / 3 == i as int) by (nonlinear_arith)
                    requires j < 3;
                assert((3 * i + j) % 3 == j as int) by (nonlinear_arith)
                    requires j < 3;
            }
            if (r_mask & bb) == r_mask {
                return (true, Some(r_mask));
            }
            r_mask = yavalath_rotate(r_mask);
            j = j + 1;
        }
        i = i + 1;
    }
    (false, None)
}

} // verus!

verus! {

/// No bit index occurs in two places of the pair list.
pub open spec fn pairs_disjoint(pairs: Seq<(u8, u8)>) -> bool {
    &&& forall|i: int| 0 <= i < pairs.len() ==> (#[trigger] pairs[i]).0 != pairs[i].1
    &&& forall|i: int, j: int|
        0 <= i < pairs.len() && 0 <= j < pairs.len() && i != j ==> {
            &&& (#[trigger] pairs[i]).0 != (#[trigger] pairs[j]).0
            &&& pairs[i].0 != pairs[j].1
            &&& pairs[i].1 != pairs[j].0
            &&& pairs[i].1 != pairs[j].1
        }
}

/// The lines of `all` are closed under the rotation and the reflection:
/// the image of every line is a line.
/// On every single cell, reflecting the rotated cell is rotating the
/// reflected cell five more sixths of a turn.
#[verifier::opaque]
pub open spec fn commutes_on_cells(pairs: Seq<(u8, u8)>) -> bool {
    forall|c: u64| c < 61 ==> #[trigger] mirror_spec(rotate_spec(1u64 << c), pairs) == rotate_n(
        mirror_spec(1u64 << c, pairs),
        5,
    )
}

#[verifier::opaque]
pub open spec fn closed_under_group(all: Seq<u64>, pairs: Seq<(u8, u8)>) -> bool {
    forall|k: int| 0 <= k < all.len() ==> all.contains(rotate_spec(#[trigger] all[k])) && all.contains(
        mirror_spec(all[k], pairs),
    )
}

pub open spec fn masks_ok(masks: Seq<u64>) -> bool {
    &&& masks.len() <= usize::MAX / 3
    &&& forall|i: int| 0 <= i < masks.len() ==> #[trigger] masks[i] != 0 && within_cells(masks[i])
}

/// `row` lists exactly the masks of `all` that touch cell `c`.
pub open spec fn row_ok(row: Seq<u64>, all: Seq<u64>, c: nat) -> bool {
    &&& forall|k: int| 0 <= k < row.len() ==> all.contains(#[trigger] row[k]) && bit(row[k], c)
    &&& forall|k: int| 0 <= k < all.len() && bit(#[trigger] all[k], c) ==> row.contains(all[k])
}

/// The mask tables of the hexagonal game: winning and losing lines (each
/// standing also for its two further rotations), the bit pairs that a
/// reflection swaps, and, for each cell, the lines through it.
#[derive(Clone)]
pub struct HexRules {
    pub winning_masks: Vec<u64>,
    pub losing_masks: Vec<u64>,
    pub mirror_pairs: Vec<(u8, u8)>,
    pub win_checks: Vec<Vec<u64>>,
    pub lose_checks: Vec<Vec<u64>>,
}

impl HexRules {
    pub open spec fn wf(&self) -> bool {
        &&& masks_ok(self.winning_masks@)
        &&& masks_ok(self.losing_masks@)
        &&& pairs_in_range(self.mirror_pairs@)
        &&& pairs_disjoint(self.mirror_pairs@)
        &&& commutes_on_cells(self.mirror_pairs@)
        &&& closed_under_group(expand(self.winning_masks@), self.mirror_pairs@)
        &&& closed_under_group(expand(self.losing_masks@), self.mirror_pairs@)
        &&& self.win_checks@.len() == 61
        &&& self.lose_checks@.len() == 61
        &&& forall|c: int| 0 <= c < 61 ==> row_ok(#[trigger] self.win_checks@[c]@, expand(self.winning_masks@), c as nat)
        &&& forall|c: int| 0 <= c < 61 ==> row_ok(#[trigger] self.lose_checks@[c]@, expand(self.losing_masks@), c as nat)
    }

    pub open spec fn wins(&self) -> Seq<u64> {
        expand(self.winning_masks@)
    }

    pub open spec fn loses(&self) -> Seq<u64> {
        expand(self.losing_masks@)
    }

    /// Builds the tables from the base lines and the reflection pairs;
    /// `None` when a line is empty or leaves the board, when there are too
    /// many lines to list with their rotations, when a pair names a bit off
    /// the board or shares a bit with another pair, or when the image of a
    /// line (with its rotations) under the rotation or the reflection is not
    /// itself such a line.
    pub fn new(winning_masks: Vec<u64>, losing_masks: Vec<u64>, mirror_pairs: Vec<(u8, u8)>) -> (r: Option<HexRules>)
        ensures
            r is Some <==> masks_ok(winning_masks@) && masks_ok(losing_masks@) && pairs_in_range(mirror_pairs@)
                && pairs_disjoint(mirror_pairs@) && commutes_on_cells(mirror_pairs@)
                && closed_under_group(expand(winning_masks@), mirror_pairs@)
                && closed_under_group(expand(losing_masks@), mirror_pairs@),
            r is Some ==> r->0.wf() && r->0.winning_masks@ == winning_masks@
                && r->0.losing_masks@ == losing_masks@ && r->0.mirror_pairs@ == mirror_pairs@,
    {
        if !check_masks(&winning_masks) || !check_masks(&losing_masks) {
            return None;
        }
        if !check_pairs(&mirror_pairs) {
            return None;
        }
        if !check_commutes(&mirror_pairs) {
            return None;
        }
        let all_wins = expand_masks(&winning_masks);
        let all_loses = expand_masks(&losing_masks);
        if !check_closed(&all_wins, &mirror_pairs) || !check_closed(&all_loses, &mirror_pairs) {
            return None;
        }
        let win_checks = compute_tables(&winning_masks);
        let lose_checks = compute_tables(&losing_masks);
        Some(HexRules { winning_masks, losing_masks, mirror_pairs, win_checks, lose_checks })
    }
}

fn vec_contains(v: &Vec<u64>, x: u64) -> (r: bool)
    ensures
        r == v@.contains(x),
{
    let mut i: usize = 0;
    while i < v.len()
        invariant
            i <= v@.len(),
            forall|j: int| 0 <= j < i ==> v@[j] != x,
        decreases v@.len() - i,
    {
        if v[i] == x {
            return true;
        }
        i = i + 1;
    }
    false
}

fn rotate_times(x: u64, n: u64) -> (r: u64)
    ensures
        r == rotate_n(x, n as nat),
{
    let mut r = x;
    let mut i: u64 = 0;
    while i < n
        invariant
            i <= n,
            r == rotate_n(x, i as nat),
        decreases n - i,
    {
        r = yavalath_rotate(r);
        i = i + 1;
    }
    r
}

fn check_commutes(pairs: &Vec<(u8, u8)>) -> (r: bool)
    requires
        pairs_in_range(pairs@),
    ensures
        r == commutes_on_cells(pairs@),
{
    reveal(commutes_on_cells);
    let mut c: u64 = 0;
    while c < 61
        invariant
            c <= 61,
            pairs_in_range(pairs@),
            forall|d: u64| d < c ==> #[trigger] mirror_spec(rotate_spec(1u64 << d), pairs@) == rotate_n(
                mirror_spec(1u64 << d, pairs@),
                5,
            ),
        decreases 61 - c,
    {
        let bit: u64 = 1u64 << c;
        let lhs = yavalath_mirror(yavalath_rotate(bit), pairs);
        let rhs = rotate_times(yavalath_mirror(bit, pairs), 5);
        if lhs != rhs {
            proof {
                reveal(commutes_on_cells);
            }
            return false;
        }
        c = c + 1;
    }
    proof {
        reveal(commutes_on_cells);
    }
    true
}

fn check_closed(all: &Vec<u64>, pairs: &Vec<(u8, u8)>) -> (r: bool)
    requires
        pairs_in_range(pairs@),
    ensures
        r == closed_under_group(all@, pairs@),
{
    reveal(closed_under_group);
    let mut k: usize = 0;
    while k < all.len()
        invariant
            k <= all@.len(),
            pairs_in_range(pairs@),
            forall|j: int| 0 <= j < k ==> all@.contains(rotate_spec(#[trigger] all@[j])) && all@.contains(
                mirror_spec(all@[j], pairs@),
            ),
        decreases all@.len() - k,
    {
        let w = all[k];
        if !vec_contains(all, yavalath_rotate(w)) || !vec_contains(all, yavalath_mirror(w, pairs)) {
            proof {
                reveal(closed_under_group);
                assert(all@[k as int] == w);
            }
            return false;
        }
        k = k + 1;
    }
    proof {
        reveal(closed_under_group);
    }
    true
}

fn check_pairs(pairs: &Vec<(u8, u8)>) -> (r: bool)
    ensures
        r == (pairs_in_range(pairs@) && pairs_disjoint(pairs@)),
{
    let mut i: usize = 0;
    while i < pairs.len()
        invariant
            i <= pairs@.len(),
            forall|j: int| 0 <= j < i ==> (#[trigger] pairs@[j]).0 < 61 && pairs@[j].1 < 61 && pairs@[j].0 != pairs@[j].1,
            forall|j: int, k: int| 0 <= j < i && 0 <= k < pairs@.len() && j != k ==> {
                &&& (#[trigger] pairs@[j]).0 != (#[trigger] pairs@[k]).0
                &&& pairs@[j].0 != pairs@[k].1
                &&& pairs@[j].1 != pairs@[k].0
                &&& pairs@[j].1 != pairs@[k].1
            },
        decreases pairs@.len() - i,
    {
        let (a, b) = pairs[i];
        if a >= 61 || b >= 61 || a == b {
            return false;
        }
        let mut k: usize = 0;
        while k < pairs.len()
            invariant
                i < pairs@.len(),
                k <= pairs@.len(),
                (a, b) == pairs@[i as int],
                forall|q: int| 0 <= q < k && q != i ==> {
                    &&& a != (#[trigger] pairs@[q]).0
                    &&& a != pairs@[q].1
                    &&& b != pairs@[q].0
                    &&& b != pairs@[q].1
                },
            decreases pairs@.len() - k,
        {
            if k != i {
                let (c, d) = pairs[k];
                if a == c || a == d || b == c || b == d {
                    proof {
                        assert(pairs@[i as int] == (a, b) && pairs@[k as int] == (c, d));
                    }
                    return false;
                }
            }
            k = k + 1;
        }
        i = i + 1;
    }
    true
}

fn check_masks(masks: &Vec<u64>) -> (r: bool)
    ensures
        r == masks_ok(masks@),
{
    if masks.len() > usize::MAX / 3 {
        return false;
    }
    let mut i: usize = 0;
    while i < masks.len()
        invariant
            i <= masks@.len(),
            masks@.len() <= usize::MAX / 3,
            forall|j: int| 0 <= j < i ==> #[trigger] masks@[j] != 0 && within_cells(masks@[j]),
        decreases masks@.len() - i,
    {
        if masks[i] == 0 || masks[i] & !EXCLUDE_TOP_BITS != 0 {
            return false;
        }
        i = i + 1;
    }
    true
}

/// Every mask of `masks` followed by its two further rotations.
pub fn expand_masks(masks: &Vec<u64>) -> (r: Vec<u64>)
    requires
        masks@.len() <= usize::MAX / 3,
    ensures
        r@ == expand(masks@),
{
    let mut all: Vec<u64> = Vec::new();
    let mut i: usize = 0;
    while i < masks.len()
        invariant
            i <= masks@.len(),
            masks@.len() <= usize::MAX / 3,
            all@.len() == 3 * i,
            forall|k: int| 0 <= k < 3 * i ==> #[trigger] all@[k] == rotate_n(masks@[k / 3], (k % 3) as nat),
        decreases masks@.len() - i,
    {
        let m = masks[i];
        let m1 = yavalath_rotate(m);
        let m2 = yavalath_rotate(m1);
        proof {
            reveal_with_fuel(rotate_n, 3);
        }
        all.push(m);
        all.push(m1);
        all.push(m2);
        proof {
            assert forall|k: int| 0 <= k < 3 * (i + 1) implies #[trigger] all@[k] == rotate_n(masks@[k / 3], (k % 3) as nat) by {
                if k >= 3 * i {
                    assert(k / 3 == i as int && k % 3 == k - 3 * i) by (nonlinear_arith)
                        requires 3 * i <= k < 3 * i + 3;
                }
            }
        }
        i = i + 1;
    }
    assert(all@ =~= expand(masks@));
    all
}

/// For each of the 61 cells, the masks (with their rotations) that touch it.
pub fn compute_tables(some_masks: &Vec<u64>) -> (r: Vec<Vec<u64>>)
    requires
        some_masks@.len() <= usize::MAX / 3,
    ensures
        r@.len() == 61,
        forall|c: int| 0 <= c < 61 ==> row_ok(#[trigger] r@[c]@, expand(some_masks@), c as nat),
{
    let all_masks = expand_masks(some_masks);
    let mut all_rows: Vec<Vec<u64>> = Vec::new();
    let mut c: u64 = 0;
    while c < 61
        invariant
            c <= 61,
            all_masks@ == expand(some_masks@),
            all_rows@.len() == c,
            forall|d: int| 0 <= d < c ==> row_ok(#[trigger] all_rows@[d]@, all_masks@, d as nat),
        decreases 61 - c,
    {
        let mut relevant: Vec<u64> = Vec::new();
        let mut k: usize = 0;
        while k < all_masks.len()
            invariant
                c < 61,
                k <= all_masks@.len(),
                forall|j: int| 0 <= j < relevant@.len() ==> all_masks@.contains(#[trigger] relevant@[j]) && bit(relevant@[j], c as nat),
                forall|j: int| 0 <= j < k && bit(#[trigger] all_masks@[j], c as nat) ==> relevant@.contains(all_masks@[j]),
            decreases all_masks@.len() - k,
        {
            let mask = all_masks[k];
            let ghost prev = relevant@;
            if (mask >> c) & 1 == 1 {
                relevant.push(mask);
                proof {
                    assert(relevant@[relevant@.len() - 1] == mask);
                    assert(all_masks@[k as int] == mask);
                }
            }
            proof {
                assert forall|j: int| 0 <= j < k + 1 && bit(#[trigger] all_masks@[j], c as nat) implies relevant@.contains(all_masks@[j]) by {
                    if j == k {
                        assert(relevant@[relevant@.len() - 1] == mask);
                    } else {
                        let q = choose|q: int| 0 <= q < prev.len() && prev[q] == all_masks@[j];
                        assert(relevant@[q] == all_masks@[j]);
                    }
                }
            }
            k = k + 1;
        }
        all_rows.push(relevant);
        c = c + 1;
    }
    all_rows
}

} // verus!

verus! {

pub open spec fn full_spec(p0: u64, p1: u64) -> bool {
    !(p0 | p1) & EXCLUDE_TOP_BITS == 0
}

/// The outcome of a position by a scan of every mask, with the mask that
/// decided it: a full board is drawn; else a winning line of the first
/// player, then one of the second, wins for its owner; else a losing line
/// of the first player, then one of the second, loses for its owner.
pub open spec fn scan(wins: Seq<u64>, loses: Seq<u64>, p0: u64, p1: u64) -> (GameOutcome, Option<u64>) {
    if full_spec(p0, p1) {
        (GameOutcome::Draw, None)
    } else if first_hit(wins, p0, 0) is Some {
        (GameOutcome::Winner(Player::P0), first_hit(wins, p0, 0))
    } else if first_hit(wins, p1, 0) is Some {
        (GameOutcome::Winner(Player::P1), first_hit(wins, p1, 0))
    } else if first_hit(loses, p0, 0) is Some {
        (GameOutcome::Winner(Player::P1), first_hit(loses, p0, 0))
    } else if first_hit(loses, p1, 0) is Some {
        (GameOutcome::Winner(Player::P0), first_hit(loses, p1, 0))
    } else {
        (GameOutcome::Ongoing, None)
    }
}

/// Disjoint occupancy masks within the 61 cells.
pub open spec fn board_ok(b: BitBoard) -> bool {
    &&& b.p0.bits & b.p1.bits == 0
    &&& within_cells(b.p0.bits)
    &&& within_cells(b.p1.bits)
}

pub open spec fn outcome_spec(rules: &HexRules, b: BitBoard) -> GameOutcome {
    scan(rules.wins(), rules.loses(), b.p0.bits, b.p1.bits).0
}

/// A well-formed position: its masks are `board_ok` and its stored
/// outcome, if any, is the scanned one.
pub open spec fn hex_wf(rules: &HexRules, b: BitBoard) -> bool {
    &&& board_ok(b)
    &&& (b.outcome is Some ==> b.outcome == Some(outcome_spec(rules, b)))
}

pub open spec fn turn_spec(b: BitBoard) -> Player {
    if bits_below(b.p0.bits, 64) <= bits_below(b.p1.bits, 64) {
        Player::P0
    } else {
        Player::P1
    }
}

/// The cells of the side to move once it has played `m`.
pub open spec fn mover_bits_after(b: BitBoard, m: u8) -> u64 {
    match turn_spec(b) {
        Player::P0 => b.p0.bits | (1u64 << (m as u64)),
        Player::P1 => b.p1.bits | (1u64 << (m as u64)),
    }
}

/// The occupancy after the side to move plays `m`, before any symmetry
/// projection; the stored outcome is dropped.
pub open spec fn placed(b: BitBoard, m: u8) -> BitBoard {
    match turn_spec(b) {
        Player::P0 => BitBoard { p0: PlayerBitBoard { bits: b.p0.bits | (1u64 << (m as u64)) }, p1: b.p1, outcome: None },
        Player::P1 => BitBoard { p0: b.p0, p1: PlayerBitBoard { bits: b.p1.bits | (1u64 << (m as u64)) }, outcome: None },
    }
}

/// The outcome after the side to move plays `m`, judged from the masks
/// through `m` only: a full board is drawn, a winning line through `m` wins
/// for the mover, a losing line through `m` loses for it.
pub open spec fn after_move_spec(rules: &HexRules, b: BitBoard, m: u8) -> GameOutcome {
    let player = turn_spec(b);
    let pb = mover_bits_after(b, m);
    let occ = pb | (if player == Player::P0 { b.p1.bits } else { b.p0.bits });
    if occ == EXCLUDE_TOP_BITS {
        GameOutcome::Draw
    } else if exists|k: int| 0 <= k < rules.wins().len() && bit(#[trigger] rules.wins()[k], m as nat) && covers(pb, rules.wins()[k]) {
        GameOutcome::Winner(player)
    } else if exists|k: int| 0 <= k < rules.loses().len() && bit(#[trigger] rules.loses()[k], m as nat) && covers(pb, rules.loses()[k]) {
        GameOutcome::Winner(opponent(player))
    } else {
        GameOutcome::Ongoing
    }
}

impl BitBoard {
    /// The empty board, known to be ongoing.
    pub fn empty() -> (r: BitBoard)
        ensures
            r.p0.bits == 0 && r.p1.bits == 0,
            r.outcome == Some(GameOutcome::Ongoing),
    {
        BitBoard { p0: PlayerBitBoard { bits: 0 }, p1: PlayerBitBoard { bits: 0 }, outcome: Some(GameOutcome::Ongoing) }
    }

    /// A board from two occupancy masks, its outcome not yet known.
    pub fn make(p0: u64, p1: u64) -> (r: BitBoard)
        ensures
            r.p0.bits == p0 && r.p1.bits == p1,
            r.outcome is None,
    {
        BitBoard { p0: PlayerBitBoard { bits: p0 }, p1: PlayerBitBoard { bits: p1 }, outcome: None }
    }

    /// Every cell is taken.
    pub fn full(&self) -> (r: bool)
        ensures
            r == full_spec(self.p0.bits, self.p1.bits),
    {
        !(self.p0.bits | self.p1.bits) & EXCLUDE_TOP_BITS == 0
    }
}

/// The empty board is ongoing under any well-formed tables.
pub proof fn lemma_empty_ongoing(rules: &HexRules)
    requires
        rules.wf(),
    ensures
        scan(rules.wins(), rules.loses(), 0, 0) == (GameOutcome::Ongoing, Option::<u64>::None),
{
    assert(!(0u64 | 0u64) & 0x1fff_ffff_ffff_ffffu64 != 0) by (bit_vector);
    lemma_no_empty_mask(rules.winning_masks@);
    lemma_no_empty_mask(rules.losing_masks@);
    lemma_first_hit(rules.wins(), 0, 0);
    lemma_first_hit(rules.loses(), 0, 0);
}

/// No rotation of a valid mask is empty, and each stays on the board.
pub proof fn lemma_no_empty_mask(masks: Seq<u64>)
    requires
        masks_ok(masks),
    ensures
        forall|k: int| 0 <= k < expand(masks).len() ==> !covers(0, #[trigger] expand(masks)[k])
            && within_cells(expand(masks)[k]),
{
    assert forall|k: int| 0 <= k < expand(masks).len() implies !covers(0, #[trigger] expand(masks)[k])
        && within_cells(expand(masks)[k]) by {
        let m = masks[k / 3];
        reveal_with_fuel(rotate_n, 3);
        lemma_rotate(m, 0);
        lemma_rotate(rotate_spec(m), 0);
        let x = expand(masks)[k];
        assert(x != 0 && within_cells(x));
        assert(x != 0 ==> x & 0u64 != x) by (bit_vector);
    }
}

/// Scans every mask of the board (see `scan`).
pub fn check_game_outcome(bb: BitBoard, rules: &HexRules) -> (r: (GameOutcome, Option<u64>))
    requires
        rules.wf(),
    ensures
        r == scan(rules.wins(), rules.loses(), bb.p0.bits, bb.p1.bits),
{
    if bb.full() {
        return (GameOutcome::Draw, None);
    }
    let w0 = any_mask(bb.p0.bits, &rules.winning_masks);
    if w0.0 {
        return (GameOutcome::Winner(Player::P0), w0.1);
    }
    let w1 = any_mask(bb.p1.bits, &rules.winning_masks);
    if w1.0 {
        return (GameOutcome::Winner(Player::P1), w1.1);
    }
    let l0 = any_mask(bb.p0.bits, &rules.losing_masks);
    if l0.0 {
        return (GameOutcome::Winner(Player::P1), l0.1);
    }
    let l1 = any_mask(bb.p1.bits, &rules.losing_masks);
    if l1.0 {
        return (GameOutcome::Winner(Player::P0), l1.1);
    }
    (GameOutcome::Ongoing, None)
}

/// The number of stones on the board.
pub fn n_moves_played(bb: BitBoard) -> (r: u32)
    ensures
        r as nat == bits_below(bb.p0.bits | bb.p1.bits, 64),
{
    count_bits_below(bb.p0.bits | bb.p1.bits, 64)
}

/// The side to move: the first player unless it has more stones.
pub fn hex_whose_turn(bb: BitBoard) -> (r: Player)
    ensures
        r == turn_spec(bb),
{
    if count_bits_below(bb.p0.bits, 64) <= count_bits_below(bb.p1.bits, 64) {
        Player::P0
    } else {
        Player::P1
    }
}

fn covers_any(bits: u64, row: &Vec<u64>) -> (r: bool)
    ensures
        r == exists|k: int| 0 <= k < row@.len() && covers(bits, #[trigger] row@[k]),
{
    let mut i: usize = 0;
    while i < row.len()
        invariant
            i <= row@.len(),
            forall|k: int| 0 <= k < i ==> !covers(bits, #[trigger] row@[k]),
        decreases row@.len() - i,
    {
        if (row[i] & bits) == row[i] {
            return true;
        }
        i = i + 1;
    }
    false
}

/// A line through `m` is covered iff a listed line of row `m` is.
proof fn lemma_row_covers(row: Seq<u64>, all: Seq<u64>, m: u8, pb: u64)
    requires
        m < 61,
        row_ok(row, all, m as nat),
    ensures
        (exists|k: int| 0 <= k < row.len() && covers(pb, #[trigger] row[k])) <==> (exists|k: int|
            0 <= k < all.len() && bit(#[trigger] all[k], m as nat) && covers(pb, all[k])),
{
    if exists|k: int| 0 <= k < row.len() && covers(pb, #[trigger] row[k]) {
        let k = choose|k: int| 0 <= k < row.len() && covers(pb, #[trigger] row[k]);
        let j = choose|j: int| 0 <= j < all.len() && all[j] == row[k];
        assert(bit(all[j], m as nat) && covers(pb, all[j]));
    }
    if exists|k: int| 0 <= k < all.len() && bit(#[trigger] all[k], m as nat) && covers(pb, all[k]) {
        let k = choose|k: int| 0 <= k < all.len() && bit(#[trigger] all[k], m as nat) && covers(pb, all[k]);
        assert(row.contains(all[k]));
        let j = choose|j: int| 0 <= j < row.len() && row[j] == all[k];
        assert(covers(pb, row[j]));
    }
}

/// The outcome after the side to move plays the empty cell `m`, from the
/// lines through `m` only (see `after_move_spec`).
pub fn check_game_outcome_after_move(bb: BitBoard, m: u8, rules: &HexRules) -> (r: GameOutcome)
    requires
        rules.wf(),
        m < 61,
    ensures
        r == after_move_spec(rules, bb, m),
{
    let player = hex_whose_turn(bb);
    let player_bits: u64;
    let occupied: u64;
    match player {
        Player::P0 => {
            player_bits = bb.p0.bits | (1u64 << m as u64);
            occupied = player_bits | bb.p1.bits;
        },
        Player::P1 => {
            player_bits = bb.p1.bits | (1u64 << m as u64);
            occupied = player_bits | bb.p0.bits;
        },
    }
    if occupied == EXCLUDE_TOP_BITS {
        return GameOutcome::Draw;
    }
    proof {
        lemma_row_covers(rules.win_checks@[m as int]@, rules.wins(), m, player_bits);
        lemma_row_covers(rules.lose_checks@[m as int]@, rules.loses(), m, player_bits);
    }
    if covers_any(player_bits, &rules.win_checks[m as usize]) {
        return GameOutcome::Winner(player);
    }
    if covers_any(player_bits, &rules.lose_checks[m as usize]) {
        return GameOutcome::Winner(other_player(player));
    }
    GameOutcome::Ongoing
}

/// The incremental check agrees with a full scan: on a well-formed ongoing
/// position, the outcome judged from the lines through the cell just played
/// is the outcome that scanning the whole resulting board gives.
pub proof fn lemma_incremental_matches_scan(rules: &HexRules, b: BitBoard, m: u8)
    requires
        rules.wf(),
        board_ok(b),
        outcome_spec(rules, b) == GameOutcome::Ongoing,
        m < 61,
        !bit(b.p0.bits | b.p1.bits, m as nat),
    ensures
        after_move_spec(rules, b, m) == outcome_spec(rules, placed(b, m)),
{
    let p0 = b.p0.bits;
    let p1 = b.p1.bits;
    let a = placed(b, m);
    let q0 = a.p0.bits;
    let q1 = a.p1.bits;
    let mm = m as u64;
    let wins = rules.wins();
    let loses = rules.loses();
    assert(p0 & !0x1fff_ffff_ffff_ffffu64 == 0 && p1 & !0x1fff_ffff_ffff_ffffu64 == 0 && mm < 61 ==> {
        let x = p0 | (1u64 << mm);
        let y = p1 | (1u64 << mm);
        &&& (!(x | p1) & 0x1fff_ffff_ffff_ffffu64 == 0 <==> (x | p1) == 0x1fff_ffff_ffff_ffffu64)
        &&& (!(p0 | y) & 0x1fff_ffff_ffff_ffffu64 == 0 <==> (y | p0) == 0x1fff_ffff_ffff_ffffu64)
    }) by (bit_vector);
    lemma_first_hit(wins, p0, 0);
    lemma_first_hit(wins, p1, 0);
    lemma_first_hit(loses, p0, 0);
    lemma_first_hit(loses, p1, 0);
    lemma_first_hit(wins, q0, 0);
    lemma_first_hit(wins, q1, 0);
    lemma_first_hit(loses, q0, 0);
    lemma_first_hit(loses, q1, 0);
    let pb = mover_bits_after(b, m);
    let old_bits = if turn_spec(b) == Player::P0 { p0 } else { p1 };
    assert(pb == old_bits | (1u64 << mm));
    // A line that the move completes passes through `m`.
    assert forall|mask: u64| covers(pb, mask) && !covers(old_bits, mask) implies bit(mask, m as nat) by {
        assert(mask & (old_bits | (1u64 << mm)) == mask && mask & old_bits != mask && mm < 61
            ==> (mask >> mm) & 1 == 1) by (bit_vector);
    }
    assert((exists|k: int| 0 <= k < wins.len() && bit(#[trigger] wins[k], m as nat) && covers(pb, wins[k]))
        <==> (exists|k: int| 0 <= k < wins.len() && covers(pb, #[trigger] wins[k])));
    assert((exists|k: int| 0 <= k < loses.len() && bit(#[trigger] loses[k], m as nat) && covers(pb, loses[k]))
        <==> (exists|k: int| 0 <= k < loses.len() && covers(pb, #[trigger] loses[k])));
}

} // verus!

verus! {

/// `a` comes no later than `b`: by the first player's mask, then the second's.
pub open spec fn occ_le(a: (u64, u64), b: (u64, u64)) -> bool {
    a.0 < b.0 || (a.0 == b.0 && a.1 <= b.1)
}

/// Disjoint masks within the board.
pub open spec fn occ_ok(c: (u64, u64)) -> bool {
    c.0 & c.1 == 0 && within_cells(c.0) && within_cells(c.1)
}

/// The images of a position under the symmetry group: its six rotations,
/// then its reflection and the reflection's five further rotations.
pub open spec fn orbit(p0: u64, p1: u64, pairs: Seq<(u8, u8)>) -> Seq<(u64, u64)> {
    Seq::new(
        12,
        |i: int|
            if i < 6 {
                (rotate_n(p0, i as nat), rotate_n(p1, i as nat))
            } else {
                (rotate_n(mirror_spec(p0, pairs), (i - 6) as nat), rotate_n(mirror_spec(p1, pairs), (i - 6) as nat))
            },
    )
}

/// `c` is the least well-formed image in `cands`.
pub open spec fn is_least(c: (u64, u64), cands: Seq<(u64, u64)>) -> bool {
    &&& cands.contains(c)
    &&& occ_ok(c)
    &&& forall|k: int| 0 <= k < cands.len() && occ_ok(#[trigger] cands[k]) ==> occ_le(c, cands[k])
}

pub open spec fn least_image(p0: u64, p1: u64, pairs: Seq<(u8, u8)>) -> (u64, u64) {
    choose|c: (u64, u64)| is_least(c, orbit(p0, p1, pairs))
}

/// The representative of a position: below `CANON_LIMIT` stones, its least
/// well-formed image under the symmetry group, with the position's stored
/// outcome; else the position.
pub open spec fn canon_spec(rules: &HexRules, b: BitBoard) -> BitBoard {
    if bits_below(b.p0.bits | b.p1.bits, 64) >= CANON_LIMIT {
        b
    } else {
        let c = least_image(b.p0.bits, b.p1.bits, rules.mirror_pairs@);
        BitBoard { p0: PlayerBitBoard { bits: c.0 }, p1: PlayerBitBoard { bits: c.1 }, outcome: b.outcome }
    }
}

proof fn lemma_least_unique(c: (u64, u64), cands: Seq<(u64, u64)>)
    requires
        is_least(c, cands),
    ensures
        (choose|d: (u64, u64)| is_least(d, cands)) == c,
{
    let d = choose|d: (u64, u64)| is_least(d, cands);
    let i = choose|i: int| 0 <= i < cands.len() && cands[i] == d;
    let j = choose|j: int| 0 <= j < cands.len() && cands[j] == c;
    assert(occ_le(c, cands[i]) && occ_le(d, cands[j]));
}

/// Projects a position to its symmetry representative (see `canon_spec`).
pub fn canonical(bb: BitBoard, rules: &HexRules) -> (r: BitBoard)
    requires
        rules.wf(),
        board_ok(bb),
    ensures
        r == canon_spec(rules, bb),
        board_ok(r),
        bits_below(r.p0.bits, 64) == bits_below(bb.p0.bits, 64),
        bits_below(r.p1.bits, 64) == bits_below(bb.p1.bits, 64),
        r.outcome == bb.outcome,
        outcome_spec(rules, r) == outcome_spec(rules, bb),
        hex_wf(rules, bb) ==> hex_wf(rules, r),
{
    proof {
        crate::symmetry::lemma_canon_keeps_count(rules, bb);
        crate::symmetry::lemma_canon_outcome(rules, bb);
    }
    if n_moves_played(bb) >= CANON_LIMIT {
        return bb;
    }
    let ghost cands = orbit(bb.p0.bits, bb.p1.bits, rules.mirror_pairs@);
    let mut best: (u64, u64) = (bb.p0.bits, bb.p1.bits);
    assert(cands[0] == best);
    let mirrored = mirror_board(bb, &rules.mirror_pairs);
    let mut half: usize = 0;
    while half < 2
        invariant
            half <= 2,
            rules.wf(),
            cands == orbit(bb.p0.bits, bb.p1.bits, rules.mirror_pairs@),
            mirrored.p0.bits == mirror_spec(bb.p0.bits, rules.mirror_pairs@),
            mirrored.p1.bits == mirror_spec(bb.p1.bits, rules.mirror_pairs@),
            board_ok(bb),
            cands.contains(best),
            occ_ok(best),
            forall|k: int| 0 <= k < 6 * half && occ_ok(#[trigger] cands[k]) ==> occ_le(best, cands[k]),
        decreases 2 - half,
    {
        let mut cur: (u64, u64) = if half == 0 {
            (bb.p0.bits, bb.p1.bits)
        } else {
            (mirrored.p0.bits, mirrored.p1.bits)
        };
        assert(cur == cands[6 * half]);
        let mut i: usize = 0;
        while i < 6
            invariant
                half < 2,
                i <= 6,
                rules.wf(),
                cands == orbit(bb.p0.bits, bb.p1.bits, rules.mirror_pairs@),
                mirrored.p0.bits == mirror_spec(bb.p0.bits, rules.mirror_pairs@),
                mirrored.p1.bits == mirror_spec(bb.p1.bits, rules.mirror_pairs@),
                i < 6 ==> cur == cands[6 * half + i],
                cands.contains(best),
                occ_ok(best),
                forall|k: int| 0 <= k < 6 * half + i && occ_ok(#[trigger] cands[k]) ==> occ_le(best, cands[k]),
            decreases 6 - i,
        {
            let ok = cur.0 & cur.1 == 0 && cur.0 & !EXCLUDE_TOP_BITS == 0 && cur.1 & !EXCLUDE_TOP_BITS == 0;
            if ok && (cur.0 < best.0 || (cur.0 == best.0 && cur.1 < best.1)) {
                best = cur;
            }
            proof {
                assert(cands[6 * half + i] == cur);
            }
            if i < 5 {
                cur = (yavalath_rotate(cur.0), yavalath_rotate(cur.1));
                proof {
                    let k = 6 * half + i;
                    if half == 0 {
                        assert(cands[k + 1] == (rotate_spec(rotate_n(bb.p0.bits, i as nat)), rotate_spec(rotate_n(bb.p1.bits, i as nat))));
                    } else {
                        assert(cands[k + 1] == (rotate_spec(rotate_n(mirrored.p0.bits, i as nat)), rotate_spec(rotate_n(mirrored.p1.bits, i as nat))));
                    }
                }
            }
            i = i + 1;
        }
        half = half + 1;
    }
    proof {
        lemma_least_unique(best, cands);
    }
    BitBoard { p0: PlayerBitBoard { bits: best.0 }, p1: PlayerBitBoard { bits: best.1 }, outcome: bb.outcome }
}

} // verus!
