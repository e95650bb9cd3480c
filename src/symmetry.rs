use vstd::prelude::*;
use crate::bits::{bit, bits_below, lemma_flip};
use crate::hex::{
    commutes_on_cells,
    closed_under_group, covers, expand, first_hit, full_spec, lemma_first_hit, lemma_no_empty_mask, outcome_spec, scan, EXCLUDE_TOP_BITS,
    pairs_disjoint,
    board_ok, canon_spec, is_least, least_image, lemma_rotate, mirror_spec, mirror_upto, occ_le, occ_ok, orbit,
    pairs_in_range, rotate_n, rotate_spec, within_cells, BitBoard, HexRules, PlayerBitBoard, CANON_LIMIT,
};
use crate::hex_game::hex_key;

verus! {

/// The number of set bits of the low six bits of `y`.
pub open spec fn pc6(y: u64) -> nat {
    ((y & 1) + ((y >> 1) & 1) + ((y >> 2) & 1) + ((y >> 3) & 1) + ((y >> 4) & 1) + ((y >> 5) & 1)) as nat
}

/// The six-bit ring segment of `x` that starts at bit `6 * j + 1`.
pub open spec fn segment(x: u64, j: nat) -> u64 {
    (x >> ((6 * j + 1) as u64)) & 63
}

pub open spec fn segments_sum(x: u64, j: nat) -> nat
    decreases j,
{
    if j == 0 {
        0
    } else {
        segments_sum(x, (j - 1) as nat) + pc6(segment(x, (j - 1) as nat))
    }
}

proof fn lemma_bits_below_segment(x: u64, s: nat)
    requires
        s + 6 <= 64,
    ensures
        bits_below(x, s + 6) == bits_below(x, s) + pc6((x >> (s as u64)) & 63),
{
    reveal_with_fuel(bits_below, 7);
    let ss = s as u64;
    assert(ss + 6 <= 64 ==> {
        let y = (x >> ss) & 63;
        &&& (x >> ss) & 1 == y & 1
        &&& (x >> (ss + 1)) & 1 == (y >> 1) & 1
        &&& (x >> (ss + 2)) & 1 == (y >> 2) & 1
        &&& (x >> (ss + 3)) & 1 == (y >> 3) & 1
        &&& (x >> (ss + 4)) & 1 == (y >> 4) & 1
        &&& (x >> (ss + 5)) & 1 == (y >> 5) & 1
    }) by (bit_vector);
    let y = (x >> ss) & 63;
    assert(y & 1 <= 1 && (y >> 1) & 1 <= 1 && (y >> 2) & 1 <= 1 && (y >> 3) & 1 <= 1 && (y >> 4) & 1 <= 1
        && (y >> 5) & 1 <= 1) by (bit_vector);
    assert(bits_below(x, s + 1) == bits_below(x, s) + (y & 1));
    assert(bits_below(x, s + 2) == bits_below(x, s + 1) + ((y >> 1) & 1));
    assert(bits_below(x, s + 3) == bits_below(x, s + 2) + ((y >> 2) & 1));
    assert(bits_below(x, s + 4) == bits_below(x, s + 3) + ((y >> 3) & 1));
    assert(bits_below(x, s + 5) == bits_below(x, s + 4) + ((y >> 4) & 1));
}

proof fn lemma_bits_below_segments(x: u64, j: nat)
    requires
        j <= 10,
    ensures
        bits_below(x, 6 * j + 1) == bits_below(x, 1) + segments_sum(x, j),
    decreases j,
{
    if j > 0 {
        lemma_bits_below_segments(x, (j - 1) as nat);
        lemma_bits_below_segment(x, (6 * (j - 1) + 1) as nat);
    }
}

proof fn lemma_rotate_segment(x: u64, j: nat)
    requires
        j < 10,
    ensures
        pc6(segment(rotate_spec(x), j)) == pc6(segment(x, j)),
{
    let s = (6 * j + 1) as u64;
    assert(s == 1 || s == 7 || s == 13 || s == 19 || s == 25 || s == 31 || s == 37 || s == 43 || s == 49 || s == 55);
    assert((s == 1 || s == 7 || s == 13 || s == 19 || s == 25 || s == 31 || s == 37 || s == 43 || s == 49 || s == 55) ==> {
        let sh = x << 1;
        let r = ((sh & !0x2082_0820_8208_2082u64) | ((sh & 0x2082_0820_8208_2082u64) >> 6)) | (x & 1);
        let y = (x >> s) & 63;
        let z = (r >> s) & 63;
        z == ((y << 1) | (y >> 5)) & 63 && y <= 63
    }) by (bit_vector);
    let y = segment(x, j);
    let z = segment(rotate_spec(x), j);
    assert(y <= 63 && z == ((y << 1) | (y >> 5)) & 63 ==> {
        &&& z & 1 == (y >> 5) & 1
        &&& (z >> 1) & 1 == y & 1
        &&& (z >> 2) & 1 == (y >> 1) & 1
        &&& (z >> 3) & 1 == (y >> 2) & 1
        &&& (z >> 4) & 1 == (y >> 3) & 1
        &&& (z >> 5) & 1 == (y >> 4) & 1
    }) by (bit_vector);
    assert(y == (x >> s) & 63);
}

proof fn lemma_rotate_segments_sum(x: u64, j: nat)
    requires
        j <= 10,
    ensures
        segments_sum(rotate_spec(x), j) == segments_sum(x, j),
    decreases j,
{
    if j > 0 {
        lemma_rotate_segments_sum(x, (j - 1) as nat);
        lemma_rotate_segment(x, (j - 1) as nat);
    }
}

pub proof fn lemma_top_bits(x: u64)
    requires
        within_cells(x),
    ensures
        bits_below(x, 64) == bits_below(x, 61),
{
    reveal_with_fuel(bits_below, 4);
    assert(x & !0x1fff_ffff_ffff_ffffu64 == 0 ==> (x >> 61u64) & 1 == 0 && (x >> 62u64) & 1 == 0
        && (x >> 63u64) & 1 == 0) by (bit_vector);
}

/// A rotation moves stones between cells and neither adds nor removes one.
pub proof fn lemma_rotate_keeps_count(x: u64)
    requires
        within_cells(x),
    ensures
        bits_below(rotate_spec(x), 64) == bits_below(x, 64),
{
    crate::hex::lemma_rotate(x, 0);
    let r = rotate_spec(x);
    lemma_top_bits(x);
    lemma_top_bits(r);
    lemma_bits_below_segments(x, 10);
    lemma_bits_below_segments(r, 10);
    lemma_rotate_segments_sum(x, 10);
    reveal_with_fuel(bits_below, 2);
    assert(r & 1 == x & 1) by (bit_vector)
        requires
            r == ((((x << 1) & !0x2082_0820_8208_2082u64) | (((x << 1) & 0x2082_0820_8208_2082u64) >> 6)) | (x & 1)),
    ;
    assert((r >> 0u64) & 1 == (x >> 0u64) & 1) by (bit_vector)
        requires
            r & 1 == x & 1,
    ;
    assert(bit(r, 0) == bit(x, 0));
}


proof fn lemma_rotate_n_shift(x: u64, i: nat)
    ensures
        rotate_n(rotate_spec(x), i) == rotate_n(x, i + 1),
    decreases i,
{
    reveal_with_fuel(rotate_n, 2);
    if i > 0 {
        lemma_rotate_n_shift(x, (i - 1) as nat);
    }
}

proof fn lemma_rotate_n_add(x: u64, a: nat, b: nat)
    ensures
        rotate_n(rotate_n(x, a), b) == rotate_n(x, a + b),
    decreases b,
{
    if b > 0 {
        lemma_rotate_n_add(x, a, (b - 1) as nat);
    }
}

proof fn lemma_rotate_n_within(x: u64, i: nat)
    requires
        within_cells(x),
    ensures
        within_cells(rotate_n(x, i)),
    decreases i,
{
    if i > 0 {
        lemma_rotate_n_within(x, (i - 1) as nat);
        lemma_rotate(rotate_n(x, (i - 1) as nat), 0);
    }
}

/// Rotations of a board-bound mask repeat with period six.
proof fn lemma_rotate_n_period(x: u64, k: nat)
    requires
        within_cells(x),
    ensures
        rotate_n(x, k + 6) == rotate_n(x, k),
{
    lemma_rotate(x, 0);
    lemma_rotate_n_add(x, 6, k);
}

pub proof fn lemma_mirror_within(n: u64, pairs: Seq<(u8, u8)>, k: nat)
    requires
        within_cells(n),
        pairs_in_range(pairs),
    ensures
        within_cells(mirror_upto(n, pairs, k)),
    decreases k,
{
    if k > 0 && k <= pairs.len() {
        lemma_mirror_within(n, pairs, (k - 1) as nat);
        let prev = mirror_upto(n, pairs, (k - 1) as nat);
        let a = pairs[k - 1].0 as u64;
        let b = pairs[k - 1].1 as u64;
        assert(prev & !0x1fff_ffff_ffff_ffffu64 == 0 && a < 61 && b < 61 ==> {
            let x = ((n >> a) & 1) ^ ((n >> b) & 1);
            (prev ^ ((x << a) | (x << b))) & !0x1fff_ffff_ffff_ffffu64 == 0
        }) by (bit_vector);
    }
}

/// The reflection and the rotation generate the twelve-element group:
/// reflecting a rotated mask is rotating the reflection the other way.
pub open spec fn mirror_commutes(pairs: Seq<(u8, u8)>) -> bool {
    forall|x: u64| within_cells(x) ==> #[trigger] mirror_spec(rotate_spec(x), pairs) == rotate_n(mirror_spec(x, pairs), 5)
}

pub open spec fn rotated(b: BitBoard) -> BitBoard {
    BitBoard {
        p0: PlayerBitBoard { bits: rotate_spec(b.p0.bits) },
        p1: PlayerBitBoard { bits: rotate_spec(b.p1.bits) },
        outcome: b.outcome,
    }
}

pub(crate) proof fn lemma_least_exists(cands: Seq<(u64, u64)>, k0: int)
    requires
        0 <= k0 < cands.len(),
        occ_ok(cands[k0]),
    ensures
        exists|c: (u64, u64)| is_least(c, cands),
    decreases cands.len(),
{
    let n = cands.len();
    let init = cands.drop_last();
    let last = cands[n - 1];
    if exists|k: int| 0 <= k < init.len() && occ_ok(init[k]) {
        let k = choose|k: int| 0 <= k < init.len() && occ_ok(init[k]);
        lemma_least_exists(init, k);
        let c = choose|c: (u64, u64)| is_least(c, init);
        let j = choose|j: int| 0 <= j < init.len() && init[j] == c;
        assert(cands[j] == c);
        if occ_ok(last) && !occ_le(c, last) {
            assert(cands[n - 1] == last);
            assert(is_least(last, cands)) by {
                assert forall|q: int| 0 <= q < cands.len() && occ_ok(#[trigger] cands[q]) implies occ_le(last, cands[q]) by {
                    if q < n - 1 {
                        assert(cands[q] == init[q]);
                    }
                }
            }
        } else {
            assert(is_least(c, cands)) by {
                assert forall|q: int| 0 <= q < cands.len() && occ_ok(#[trigger] cands[q]) implies occ_le(c, cands[q]) by {
                    if q < n - 1 {
                        assert(cands[q] == init[q]);
                    }
                }
            }
        }
    } else {
        assert(k0 == n - 1) by {
            if k0 < n - 1 {
                assert(init[k0] == cands[k0]);
            }
        }
        assert(is_least(last, cands)) by {
            assert(cands[n - 1] == last);
            assert forall|q: int| 0 <= q < cands.len() && occ_ok(#[trigger] cands[q]) implies occ_le(last, cands[q]) by {
                if q < n - 1 {
                    assert(cands[q] == init[q]);
                }
            }
        }
    }
}

/// Two candidate lists with the same members have the same least member.
proof fn lemma_same_least(a: Seq<(u64, u64)>, b: Seq<(u64, u64)>, k0: int)
    requires
        0 <= k0 < a.len(),
        occ_ok(a[k0]),
        forall|i: int| 0 <= i < a.len() ==> b.contains(#[trigger] a[i]),
        forall|i: int| 0 <= i < b.len() ==> a.contains(#[trigger] b[i]),
    ensures
        (choose|c: (u64, u64)| is_least(c, a)) == (choose|c: (u64, u64)| is_least(c, b)),
{
    lemma_least_exists(a, k0);
    let c = choose|c: (u64, u64)| is_least(c, a);
    assert(is_least(c, b)) by {
        let i = choose|i: int| 0 <= i < a.len() && a[i] == c;
        assert(b.contains(a[i]));
        assert forall|q: int| 0 <= q < b.len() && occ_ok(#[trigger] b[q]) implies occ_le(c, b[q]) by {
            assert(a.contains(b[q]));
            let j = choose|j: int| 0 <= j < a.len() && a[j] == b[q];
        }
    }
    let d = choose|d: (u64, u64)| is_least(d, b);
    let i = choose|i: int| 0 <= i < b.len() && b[i] == d;
    let j = choose|j: int| 0 <= j < b.len() && b[j] == c;
    assert(occ_le(c, b[i]) && occ_le(d, b[j]));
}

/// Below `CANON_LIMIT` stones the representative of a board is keyed by
/// the least image of its orbit.
proof fn lemma_canon_key(rules: &HexRules, b: BitBoard)
    requires
        bits_below(b.p0.bits | b.p1.bits, 64) < CANON_LIMIT,
    ensures
        hex_key(canon_spec(rules, b)) == hex_key(BitBoard {
            p0: PlayerBitBoard { bits: least_image(b.p0.bits, b.p1.bits, rules.mirror_pairs@).0 },
            p1: PlayerBitBoard { bits: least_image(b.p0.bits, b.p1.bits, rules.mirror_pairs@).1 },
            outcome: None,
        }),
{
}

/// Symmetry reduction merges a board with its rotation: while fewer than
/// `CANON_LIMIT` stones are on the board, a board and the board turned by
/// one sixth have the same representative, for any well-formed tables.
pub proof fn lemma_canonical_rotation_invariant(rules: &HexRules, b: BitBoard)
    requires
        rules.wf(),
        board_ok(b),
        bits_below(b.p0.bits | b.p1.bits, 64) < CANON_LIMIT,
    ensures
        canon_spec(rules, rotated(b)) == canon_spec(rules, b),
{
    lemma_mirror_commutes(rules.mirror_pairs@);
    let p0 = b.p0.bits;
    let p1 = b.p1.bits;
    let pairs = rules.mirror_pairs@;
    let r = rotated(b);
    let q0 = r.p0.bits;
    let q1 = r.p1.bits;
    // The rotated board has as many stones.
    lemma_rotations_keep_count(b, 1);
    reveal_with_fuel(rotated_n, 2);
    assert(rotated_n(b, 1) == r);
    lemma_canon_key(rules, b);
    lemma_canon_key(rules, r);
    let o = orbit(p0, p1, pairs);
    let o2 = orbit(q0, q1, pairs);
    let m0 = mirror_spec(p0, pairs);
    let m1 = mirror_spec(p1, pairs);
    lemma_mirror_within(p0, pairs, pairs.len());
    lemma_mirror_within(p1, pairs, pairs.len());
    assert(mirror_spec(q0, pairs) == rotate_n(m0, 5));
    assert(mirror_spec(q1, pairs) == rotate_n(m1, 5));
    assert forall|i: int| 0 <= i < 12 implies o.contains(#[trigger] o2[i]) by {
        if i < 6 {
            lemma_rotate_n_shift(p0, i as nat);
            lemma_rotate_n_shift(p1, i as nat);
            if i == 5 {
                lemma_rotate_n_period(p0, 0);
                lemma_rotate_n_period(p1, 0);
                assert(o2[i] == o[0]);
            } else {
                assert(o2[i] == o[i + 1]);
            }
        } else {
            let k = (i - 6) as nat;
            lemma_rotate_n_add(m0, 5, k);
            lemma_rotate_n_add(m1, 5, k);
            if k == 0 {
                assert(o2[i] == o[11]);
            } else {
                lemma_rotate_n_period(m0, (k - 1) as nat);
                lemma_rotate_n_period(m1, (k - 1) as nat);
                assert(o2[i] == o[(6 + k - 1) as int]);
            }
        }
    }
    assert forall|i: int| 0 <= i < 12 implies o2.contains(#[trigger] o[i]) by {
        if i < 6 {
            if i == 0 {
                lemma_rotate_n_shift(p0, 5);
                lemma_rotate_n_shift(p1, 5);
                lemma_rotate_n_period(p0, 0);
                lemma_rotate_n_period(p1, 0);
                assert(o[i] == o2[5]);
            } else {
                lemma_rotate_n_shift(p0, (i - 1) as nat);
                lemma_rotate_n_shift(p1, (i - 1) as nat);
                assert(o[i] == o2[i - 1]);
            }
        } else {
            let k = (i - 6) as nat;
            lemma_rotate_n_add(m0, 5, (k + 1) as nat);
            lemma_rotate_n_add(m1, 5, (k + 1) as nat);
            if k == 5 {
                lemma_rotate_n_period(m0, 5);
                lemma_rotate_n_period(m1, 5);
                assert(rotate_n(m0, 5 + 6) == rotate_n(m0, 5));
                assert(o[i] == o2[6]) by {
                    lemma_rotate_n_add(m0, 5, 0);
                    lemma_rotate_n_add(m1, 5, 0);
                }
            } else {
                lemma_rotate_n_period(m0, k);
                lemma_rotate_n_period(m1, k);
                assert(o[i] == o2[(6 + k + 1) as int]);
            }
        }
    }
    assert(o[0] == (p0, p1));
    lemma_same_least(o, o2, 0);
}

pub open spec fn rotated_n(b: BitBoard, k: nat) -> BitBoard
    decreases k,
{
    if k == 0 {
        b
    } else {
        rotated(rotated_n(b, (k - 1) as nat))
    }
}

/// The same for every rotation of the group: turning a board by `k` sixths
/// keeps its representative, below `CANON_LIMIT` stones.
pub proof fn lemma_canonical_rotations_invariant(rules: &HexRules, b: BitBoard, k: nat)
    requires
        rules.wf(),
        board_ok(b),
        bits_below(b.p0.bits | b.p1.bits, 64) < CANON_LIMIT,
    ensures
        canon_spec(rules, rotated_n(b, k)) == canon_spec(rules, b),
        board_ok(rotated_n(b, k)),
        bits_below(rotated_n(b, k).p0.bits | rotated_n(b, k).p1.bits, 64) == bits_below(b.p0.bits | b.p1.bits, 64),
    decreases k,
{
    lemma_mirror_commutes(rules.mirror_pairs@);
    if k > 0 {
        lemma_canonical_rotations_invariant(rules, b, (k - 1) as nat);
        let c = rotated_n(b, (k - 1) as nat);
        lemma_canonical_rotation_invariant(rules, c);
        lemma_rotations_keep_count(b, k);
    }
}

pub open spec fn untouched(pairs: Seq<(u8, u8)>, k: nat, q: u64) -> bool {
    forall|i: int| 0 <= i < k ==> (#[trigger] pairs[i]).0 as u64 != q && pairs[i].1 as u64 != q
}

proof fn lemma_mirror_untouched(n: u64, pairs: Seq<(u8, u8)>, k: nat, q: u64)
    requires
        k <= pairs.len(),
        pairs_in_range(pairs),
        q < 64,
        untouched(pairs, k, q),
    ensures
        (mirror_upto(n, pairs, k) >> q) & 1 == (n >> q) & 1,
    decreases k,
{
    if k > 0 {
        lemma_mirror_untouched(n, pairs, (k - 1) as nat, q);
        let c = mirror_upto(n, pairs, (k - 1) as nat);
        let a = pairs[k - 1].0 as u64;
        let b = pairs[k - 1].1 as u64;
        lemma_step_keeps(c, n, a, b, q);
    }
}

/// A swap step leaves every other bit as it was.
proof fn lemma_step_keeps(c: u64, n: u64, a: u64, b: u64, q: u64)
    requires
        a < 64,
        b < 64,
        q != a,
        q != b,
    ensures
        ((c ^ ((((n >> a) & 1) ^ ((n >> b) & 1)) << a | (((n >> a) & 1) ^ ((n >> b) & 1)) << b)) >> q) & 1 == (c >> q) & 1,
{
    assert(a < 64 && b < 64 && q != a && q != b ==> {
        let t = ((n >> a) & 1) ^ ((n >> b) & 1);
        ((c ^ ((t << a) | (t << b))) >> q) & 1 == (c >> q) & 1
    }) by (bit_vector);
}

/// After the step for pair `i`, and every later one, the two bits of the
/// pair hold each other's original value.
proof fn lemma_mirror_swapped(n: u64, pairs: Seq<(u8, u8)>, k: nat, i: int)
    requires
        k <= pairs.len(),
        0 <= i < k,
        pairs_in_range(pairs),
        pairs_disjoint(pairs),
    ensures
        (mirror_upto(n, pairs, k) >> (pairs[i].0 as u64)) & 1 == (n >> (pairs[i].1 as u64)) & 1,
        (mirror_upto(n, pairs, k) >> (pairs[i].1 as u64)) & 1 == (n >> (pairs[i].0 as u64)) & 1,
    decreases k,
{
    let km = (k - 1) as nat;
    let c = mirror_upto(n, pairs, km);
    let a2 = pairs[k - 1].0 as u64;
    let b2 = pairs[k - 1].1 as u64;
    let a = pairs[i].0 as u64;
    let b = pairs[i].1 as u64;
    if i == k - 1 {
        assert(untouched(pairs, km, a) && untouched(pairs, km, b)) by {
            assert forall|j: int| 0 <= j < km implies (#[trigger] pairs[j]).0 as u64 != a && pairs[j].1 as u64 != a by {
                assert(j != i);
            }
        }
        lemma_mirror_untouched(n, pairs, km, a);
        lemma_mirror_untouched(n, pairs, km, b);
        assert(a < 64 && b < 64 && a != b && (c >> a) & 1 == (n >> a) & 1 && (c >> b) & 1 == (n >> b) & 1 ==> {
            let t = ((n >> a) & 1) ^ ((n >> b) & 1);
            let d = c ^ ((t << a) | (t << b));
            (d >> a) & 1 == (n >> b) & 1 && (d >> b) & 1 == (n >> a) & 1
        }) by (bit_vector);
    } else {
        lemma_mirror_swapped(n, pairs, km, i);
        assert(i != k - 1);
        lemma_step_keeps(c, n, a2, b2, a);
        lemma_step_keeps(c, n, a2, b2, b);
    }
}

/// Two masks with the same bits are equal.
proof fn lemma_bits_equal(x: u64, y: u64)
    requires
        forall|q: u64| q < 64 ==> #[trigger] ((x >> q) & 1) == (y >> q) & 1,
    ensures
        x == y,
{
    assert(x == y) by (bit_vector)
        requires
            (x >> 0u64) & 1 == (y >> 0u64) & 1,
            (x >> 1u64) & 1 == (y >> 1u64) & 1,
            (x >> 2u64) & 1 == (y >> 2u64) & 1,
            (x >> 3u64) & 1 == (y >> 3u64) & 1,
            (x >> 4u64) & 1 == (y >> 4u64) & 1,
            (x >> 5u64) & 1 == (y >> 5u64) & 1,
            (x >> 6u64) & 1 == (y >> 6u64) & 1,
            (x >> 7u64) & 1 == (y >> 7u64) & 1,
            (x >> 8u64) & 1 == (y >> 8u64) & 1,
            (x >> 9u64) & 1 == (y >> 9u64) & 1,
            (x >> 10u64) & 1 == (y >> 10u64) & 1,
            (x >> 11u64) & 1 == (y >> 11u64) & 1,
            (x >> 12u64) & 1 == (y >> 12u64) & 1,
            (x >> 13u64) & 1 == (y >> 13u64) & 1,
            (x >> 14u64) & 1 == (y >> 14u64) & 1,
            (x >> 15u64) & 1 == (y >> 15u64) & 1,
            (x >> 16u64) & 1 == (y >> 16u64) & 1,
            (x >> 17u64) & 1 == (y >> 17u64) & 1,
            (x >> 18u64) & 1 == (y >> 18u64) & 1,
            (x >> 19u64) & 1 == (y >> 19u64) & 1,
            (x >> 20u64) & 1 == (y >> 20u64) & 1,
            (x >> 21u64) & 1 == (y >> 21u64) & 1,
            (x >> 22u64) & 1 == (y >> 22u64) & 1,
            (x >> 23u64) & 1 == (y >> 23u64) & 1,
            (x >> 24u64) & 1 == (y >> 24u64) & 1,
            (x >> 25u64) & 1 == (y >> 25u64) & 1,
            (x >> 26u64) & 1 == (y >> 26u64) & 1,
            (x >> 27u64) & 1 == (y >> 27u64) & 1,
            (x >> 28u64) & 1 == (y >> 28u64) & 1,
            (x >> 29u64) & 1 == (y >> 29u64) & 1,
            (x >> 30u64) & 1 == (y >> 30u64) & 1,
            (x >> 31u64) & 1 == (y >> 31u64) & 1,
            (x >> 32u64) & 1 == (y >> 32u64) & 1,
            (x >> 33u64) & 1 == (y >> 33u64) & 1,
            (x >> 34u64) & 1 == (y >> 34u64) & 1,
            (x >> 35u64) & 1 == (y >> 35u64) & 1,
            (x >> 36u64) & 1 == (y >> 36u64) & 1,
            (x >> 37u64) & 1 == (y >> 37u64) & 1,
            (x >> 38u64) & 1 == (y >> 38u64) & 1,
            (x >> 39u64) & 1 == (y >> 39u64) & 1,
            (x >> 40u64) & 1 == (y >> 40u64) & 1,
            (x >> 41u64) & 1 == (y >> 41u64) & 1,
            (x >> 42u64) & 1 == (y >> 42u64) & 1,
            (x >> 43u64) & 1 == (y >> 43u64) & 1,
            (x >> 44u64) & 1 == (y >> 44u64) & 1,
            (x >> 45u64) & 1 == (y >> 45u64) & 1,
            (x >> 46u64) & 1 == (y >> 46u64) & 1,
            (x >> 47u64) & 1 == (y >> 47u64) & 1,
            (x >> 48u64) & 1 == (y >> 48u64) & 1,
            (x >> 49u64) & 1 == (y >> 49u64) & 1,
            (x >> 50u64) & 1 == (y >> 50u64) & 1,
            (x >> 51u64) & 1 == (y >> 51u64) & 1,
            (x >> 52u64) & 1 == (y >> 52u64) & 1,
            (x >> 53u64) & 1 == (y >> 53u64) & 1,
            (x >> 54u64) & 1 == (y >> 54u64) & 1,
            (x >> 55u64) & 1 == (y >> 55u64) & 1,
            (x >> 56u64) & 1 == (y >> 56u64) & 1,
            (x >> 57u64) & 1 == (y >> 57u64) & 1,
            (x >> 58u64) & 1 == (y >> 58u64) & 1,
            (x >> 59u64) & 1 == (y >> 59u64) & 1,
            (x >> 60u64) & 1 == (y >> 60u64) & 1,
            (x >> 61u64) & 1 == (y >> 61u64) & 1,
            (x >> 62u64) & 1 == (y >> 62u64) & 1,
            (x >> 63u64) & 1 == (y >> 63u64) & 1,
    ;
}

/// A table of disjoint pairs swaps each pair's bits: reflecting twice gives
/// back the mask.
pub proof fn lemma_mirror_involutive(pairs: Seq<(u8, u8)>)
    requires
        pairs_in_range(pairs),
        pairs_disjoint(pairs),
    ensures
        forall|x: u64| #[trigger] mirror_spec(mirror_spec(x, pairs), pairs) == x,
{
    assert forall|x: u64| #[trigger] mirror_spec(mirror_spec(x, pairs), pairs) == x by {
        let y = mirror_spec(x, pairs);
        let z = mirror_spec(y, pairs);
        let len = pairs.len();
        assert forall|q: u64| q < 64 implies #[trigger] ((z >> q) & 1) == (x >> q) & 1 by {
            if untouched(pairs, len, q) {
                lemma_mirror_untouched(x, pairs, len, q);
                lemma_mirror_untouched(y, pairs, len, q);
            } else {
                let i = choose|i: int| 0 <= i < len && !((#[trigger] pairs[i]).0 as u64 != q && pairs[i].1 as u64 != q);
                lemma_mirror_swapped(x, pairs, len, i);
                lemma_mirror_swapped(y, pairs, len, i);
            }
        }
        lemma_bits_equal(z, x);
    }
}

pub proof fn lemma_mirror_count(n: u64, pairs: Seq<(u8, u8)>, k: nat)
    requires
        k <= pairs.len(),
        pairs_in_range(pairs),
        pairs_disjoint(pairs),
    ensures
        bits_below(mirror_upto(n, pairs, k), 64) == bits_below(n, 64),
    decreases k,
{
    if k > 0 {
        lemma_mirror_count(n, pairs, (k - 1) as nat);
        let c = mirror_upto(n, pairs, (k - 1) as nat);
        let a = pairs[k - 1].0 as u64;
        let b = pairs[k - 1].1 as u64;
        assert(untouched(pairs, (k - 1) as nat, a) && untouched(pairs, (k - 1) as nat, b)) by {
            assert forall|i: int| 0 <= i < k - 1 implies (#[trigger] pairs[i]).0 as u64 != a && pairs[i].1 as u64 != a by {
                assert(pairs[i] != pairs[k - 1] || i != k - 1);
            }
        }
        lemma_mirror_untouched(n, pairs, (k - 1) as nat, a);
        lemma_mirror_untouched(n, pairs, (k - 1) as nat, b);
        let t = ((n >> a) & 1) ^ ((n >> b) & 1);
        let next = c ^ ((t << a) | (t << b));
        assert(next == mirror_upto(n, pairs, k));
        assert(t <= 1) by (bit_vector)
            requires
                t == ((n >> a) & 1) ^ ((n >> b) & 1),
        ;
        assert(a != b);
        if t == 0 {
            assert(next == c) by (bit_vector)
                requires
                    t == 0,
                    next == c ^ ((t << a) | (t << b)),
            ;
        } else {
            let c1 = c ^ (1u64 << a);
            assert(a < 64 && b < 64 && a != b && t == 1 ==> next == c1 ^ (1u64 << b) && ((c1 >> b) & 1 == (c >> b) & 1))
                by (bit_vector)
                requires
                    next == c ^ ((t << a) | (t << b)),
                    c1 == c ^ (1u64 << a),
            ;
            assert(t == 1 && t == ((n >> a) & 1) ^ ((n >> b) & 1) ==> ((n >> a) & 1 == 1 <==> (n >> b) & 1 != 1))
                by (bit_vector);
            lemma_flip(c, a, 64);
            lemma_flip(c1, b, 64);
        }
    }
}

proof fn lemma_mirror_or(p0: u64, p1: u64, pairs: Seq<(u8, u8)>, k: nat)
    requires
        k <= pairs.len(),
        pairs_in_range(pairs),
        pairs_disjoint(pairs),
        p0 & p1 == 0,
    ensures
        mirror_upto(p0 | p1, pairs, k) == mirror_upto(p0, pairs, k) | mirror_upto(p1, pairs, k),
        mirror_upto(p0, pairs, k) & mirror_upto(p1, pairs, k) == 0,
    decreases k,
{
    if k > 0 {
        lemma_mirror_or(p0, p1, pairs, (k - 1) as nat);
        let km = (k - 1) as nat;
        let po = p0 | p1;
        let c0 = mirror_upto(p0, pairs, km);
        let c1 = mirror_upto(p1, pairs, km);
        let co = mirror_upto(po, pairs, km);
        let a = pairs[k - 1].0 as u64;
        let b = pairs[k - 1].1 as u64;
        assert(untouched(pairs, km, a) && untouched(pairs, km, b)) by {
            assert forall|i: int| 0 <= i < k - 1 implies (#[trigger] pairs[i]).0 as u64 != a && pairs[i].1 as u64 != a by {
                assert(pairs[i] != pairs[k - 1] || i != k - 1);
            }
        }
        lemma_mirror_untouched(p0, pairs, km, a);
        lemma_mirror_untouched(p0, pairs, km, b);
        lemma_mirror_untouched(p1, pairs, km, a);
        lemma_mirror_untouched(p1, pairs, km, b);
        assert(a < 64 && b < 64 && a != b && co == c0 | c1 && c0 & c1 == 0 && p0 & p1 == 0
            && (c0 >> a) & 1 == (p0 >> a) & 1 && (c0 >> b) & 1 == (p0 >> b) & 1
            && (c1 >> a) & 1 == (p1 >> a) & 1 && (c1 >> b) & 1 == (p1 >> b) & 1 ==> {
            let t0 = ((p0 >> a) & 1) ^ ((p0 >> b) & 1);
            let t1 = ((p1 >> a) & 1) ^ ((p1 >> b) & 1);
            let to = (((p0 | p1) >> a) & 1) ^ (((p0 | p1) >> b) & 1);
            let n0 = c0 ^ ((t0 << a) | (t0 << b));
            let n1 = c1 ^ ((t1 << a) | (t1 << b));
            let no = co ^ ((to << a) | (to << b));
            no == n0 | n1 && n0 & n1 == 0
        }) by (bit_vector);
    }
}

pub open spec fn mirrored(b: BitBoard, pairs: Seq<(u8, u8)>) -> BitBoard {
    BitBoard {
        p0: PlayerBitBoard { bits: mirror_spec(b.p0.bits, pairs) },
        p1: PlayerBitBoard { bits: mirror_spec(b.p1.bits, pairs) },
        outcome: b.outcome,
    }
}

/// Symmetry reduction merges a board with its reflection: while fewer than
/// `CANON_LIMIT` stones are on the board, a board and its mirror image have
/// the same representative, for any well-formed tables.
pub proof fn lemma_canonical_mirror_invariant(rules: &HexRules, b: BitBoard)
    requires
        rules.wf(),
        board_ok(b),
        bits_below(b.p0.bits | b.p1.bits, 64) < CANON_LIMIT,
    ensures
        canon_spec(rules, mirrored(b, rules.mirror_pairs@)) == canon_spec(rules, b),
        board_ok(mirrored(b, rules.mirror_pairs@)),
        bits_below(mirrored(b, rules.mirror_pairs@).p0.bits | mirrored(b, rules.mirror_pairs@).p1.bits, 64)
            == bits_below(b.p0.bits | b.p1.bits, 64),
{
    lemma_mirror_commutes(rules.mirror_pairs@);
    let pairs = rules.mirror_pairs@;
    let p0 = b.p0.bits;
    let p1 = b.p1.bits;
    let m = mirrored(b, pairs);
    let m0 = m.p0.bits;
    let m1 = m.p1.bits;
    lemma_mirror_or(p0, p1, pairs, pairs.len());
    lemma_mirror_count(p0 | p1, pairs, pairs.len());
    lemma_mirror_within(p0, pairs, pairs.len());
    lemma_mirror_within(p1, pairs, pairs.len());
    lemma_canon_key(rules, b);
    lemma_canon_key(rules, m);
    let o = orbit(p0, p1, pairs);
    let o2 = orbit(m0, m1, pairs);
    lemma_mirror_involutive(pairs);
    assert(mirror_spec(m0, pairs) == p0);
    assert(mirror_spec(m1, pairs) == p1);
    assert forall|i: int| 0 <= i < 12 implies o.contains(#[trigger] o2[i]) by {
        if i < 6 {
            assert(o2[i] == o[i + 6]);
        } else {
            assert(o2[i] == o[i - 6]);
        }
    }
    assert forall|i: int| 0 <= i < 12 implies o2.contains(#[trigger] o[i]) by {
        if i < 6 {
            assert(o[i] == o2[i + 6]);
        } else {
            assert(o[i] == o2[i - 6]);
        }
    }
    assert(o[0] == (p0, p1));
    lemma_same_least(o, o2, 0);
}

proof fn lemma_rotated_n_bits(b: BitBoard, k: nat)
    ensures
        rotated_n(b, k).p0.bits == rotate_n(b.p0.bits, k),
        rotated_n(b, k).p1.bits == rotate_n(b.p1.bits, k),
        rotated_n(b, k).outcome == b.outcome,
    decreases k,
{
    if k > 0 {
        lemma_rotated_n_bits(b, (k - 1) as nat);
    }
}

/// A representative depends on the occupancy and the stored outcome alone.
proof fn lemma_canon_same_input(rules: &HexRules, x: BitBoard, y: BitBoard)
    requires
        x.p0.bits == y.p0.bits,
        x.p1.bits == y.p1.bits,
        x.outcome == y.outcome,
    ensures
        canon_spec(rules, x) == canon_spec(rules, y),
{
}

/// Projecting twice is projecting once: the representative of a board's
/// representative is that representative.
pub proof fn lemma_canonical_idempotent(rules: &HexRules, b: BitBoard)
    requires
        rules.wf(),
        board_ok(b),
    ensures
        canon_spec(rules, canon_spec(rules, b)) == canon_spec(rules, b),
{
    lemma_mirror_commutes(rules.mirror_pairs@);
    let pairs = rules.mirror_pairs@;
    let p0 = b.p0.bits;
    let p1 = b.p1.bits;
    if bits_below(p0 | p1, 64) < CANON_LIMIT {
        let o = orbit(p0, p1, pairs);
        lemma_least_exists(o, 0);
        let c = least_image(p0, p1, pairs);
        assert(is_least(c, o));
        let cb = canon_spec(rules, b);
        if c != (p0, p1) {
            let i = choose|i: int| 0 <= i < 12 && o[i] == c;
            if i < 6 {
                let r = rotated_n(b, i as nat);
                lemma_rotated_n_bits(b, i as nat);
                lemma_canonical_rotations_invariant(rules, b, i as nat);
                lemma_canon_same_input(rules, cb, r);
            } else {
                let mb = mirrored(b, pairs);
                lemma_canonical_mirror_invariant(rules, b);
                let r = rotated_n(mb, (i - 6) as nat);
                lemma_rotated_n_bits(mb, (i - 6) as nat);
                lemma_canonical_rotations_invariant(rules, mb, (i - 6) as nat);
                lemma_canon_same_input(rules, cb, r);
            }
        }
    }
}

/// Every element of the twelve-element group (a reflection or none,
/// followed by `k` sixths of a turn) keeps a board's representative, while
/// fewer than `CANON_LIMIT` stones are on the board.
pub proof fn lemma_canonical_group_invariant(rules: &HexRules, b: BitBoard, reflect: bool, k: nat)
    requires
        rules.wf(),
        board_ok(b),
        bits_below(b.p0.bits | b.p1.bits, 64) < CANON_LIMIT,
    ensures
        canon_spec(rules, rotated_n(if reflect { mirrored(b, rules.mirror_pairs@) } else { b }, k))
            == canon_spec(rules, b),
{
    lemma_mirror_commutes(rules.mirror_pairs@);
    if reflect {
        let mb = mirrored(b, rules.mirror_pairs@);
        lemma_canonical_mirror_invariant(rules, b);
        lemma_canonical_rotations_invariant(rules, mb, k);
    } else {
        lemma_canonical_rotations_invariant(rules, b, k);
    }
}

/// Every image of a board under the group has the board's stone count and
/// is a well-formed board.
pub proof fn lemma_orbit_counts(rules: &HexRules, b: BitBoard)
    requires
        rules.wf(),
        board_ok(b),
    ensures
        forall|i: int| 0 <= i < 12 ==> occ_ok(#[trigger] orbit(b.p0.bits, b.p1.bits, rules.mirror_pairs@)[i])
            && bits_below(orbit(b.p0.bits, b.p1.bits, rules.mirror_pairs@)[i].0 | orbit(b.p0.bits, b.p1.bits, rules.mirror_pairs@)[i].1, 64)
            == bits_below(b.p0.bits | b.p1.bits, 64)
            && bits_below(orbit(b.p0.bits, b.p1.bits, rules.mirror_pairs@)[i].0, 64) == bits_below(b.p0.bits, 64)
            && bits_below(orbit(b.p0.bits, b.p1.bits, rules.mirror_pairs@)[i].1, 64) == bits_below(b.p1.bits, 64),
{
    let pairs = rules.mirror_pairs@;
    let o = orbit(b.p0.bits, b.p1.bits, pairs);
    let mb = mirrored(b, pairs);
    lemma_mirror_or(b.p0.bits, b.p1.bits, pairs, pairs.len());
    lemma_mirror_count(b.p0.bits | b.p1.bits, pairs, pairs.len());
    lemma_mirror_count(b.p0.bits, pairs, pairs.len());
    lemma_mirror_count(b.p1.bits, pairs, pairs.len());
    lemma_mirror_within(b.p0.bits, pairs, pairs.len());
    lemma_mirror_within(b.p1.bits, pairs, pairs.len());
    assert(board_ok(mb));
    assert forall|i: int| 0 <= i < 12 implies occ_ok(#[trigger] o[i])
        && bits_below(o[i].0 | o[i].1, 64) == bits_below(b.p0.bits | b.p1.bits, 64)
        && bits_below(o[i].0, 64) == bits_below(b.p0.bits, 64) && bits_below(o[i].1, 64) == bits_below(b.p1.bits, 64) by {
        if i < 6 {
            lemma_rotations_keep_count(b, i as nat);
            lemma_rotated_n_bits(b, i as nat);
        } else {
            lemma_rotations_keep_count(mb, (i - 6) as nat);
            lemma_rotated_n_bits(mb, (i - 6) as nat);
        }
    }
}

/// Turning a board keeps it well formed and keeps its stone count.
pub proof fn lemma_rotations_keep_count(b: BitBoard, k: nat)
    requires
        board_ok(b),
    ensures
        board_ok(rotated_n(b, k)),
        bits_below(rotated_n(b, k).p0.bits | rotated_n(b, k).p1.bits, 64) == bits_below(b.p0.bits | b.p1.bits, 64),
        bits_below(rotated_n(b, k).p0.bits, 64) == bits_below(b.p0.bits, 64),
        bits_below(rotated_n(b, k).p1.bits, 64) == bits_below(b.p1.bits, 64),
    decreases k,
{
    if k > 0 {
        lemma_rotations_keep_count(b, (k - 1) as nat);
        lemma_rotate_keeps_count(rotated_n(b, (k - 1) as nat).p0.bits);
        lemma_rotate_keeps_count(rotated_n(b, (k - 1) as nat).p1.bits);
        let c = rotated_n(b, (k - 1) as nat);
        let p0 = c.p0.bits;
        let p1 = c.p1.bits;
        lemma_rotate(p0, p1);
        lemma_rotate(p1, p0);
        let q0 = rotate_spec(p0);
        let q1 = rotate_spec(p1);
        assert(q0 | q1 == rotate_spec(p0 | p1)) by (bit_vector)
            requires
                q0 == ((((p0 << 1) & !0x2082_0820_8208_2082u64) | (((p0 << 1) & 0x2082_0820_8208_2082u64) >> 6)) | (p0 & 1)),
                q1 == ((((p1 << 1) & !0x2082_0820_8208_2082u64) | (((p1 << 1) & 0x2082_0820_8208_2082u64) >> 6)) | (p1 & 1)),
        ;
        assert(within_cells(p0 | p1)) by (bit_vector)
            requires
                p0 & !0x1fff_ffff_ffff_ffffu64 == 0,
                p1 & !0x1fff_ffff_ffff_ffffu64 == 0,
        ;
        lemma_rotate_keeps_count(p0 | p1);
    }
}

/// The representative of a well-formed board is well formed and has the
/// same number of stones.
pub proof fn lemma_canon_keeps_count(rules: &HexRules, b: BitBoard)
    requires
        rules.wf(),
        board_ok(b),
    ensures
        board_ok(canon_spec(rules, b)),
        bits_below(canon_spec(rules, b).p0.bits | canon_spec(rules, b).p1.bits, 64) == bits_below(b.p0.bits | b.p1.bits, 64),
        bits_below(canon_spec(rules, b).p0.bits, 64) == bits_below(b.p0.bits, 64),
        bits_below(canon_spec(rules, b).p1.bits, 64) == bits_below(b.p1.bits, 64),
{
    if bits_below(b.p0.bits | b.p1.bits, 64) < CANON_LIMIT {
        let o = orbit(b.p0.bits, b.p1.bits, rules.mirror_pairs@);
        lemma_orbit_counts(rules, b);
        assert(o[0] == (b.p0.bits, b.p1.bits));
        lemma_least_exists(o, 0);
        let c = least_image(b.p0.bits, b.p1.bits, rules.mirror_pairs@);
        assert(is_least(c, o));
        let i = choose|i: int| 0 <= i < o.len() && o[i] == c;
    }
}

proof fn lemma_closed_at(all: Seq<u64>, pairs: Seq<(u8, u8)>, i: int)
    requires
        closed_under_group(all, pairs),
        0 <= i < all.len(),
    ensures
        all.contains(rotate_spec(all[i])),
        all.contains(mirror_spec(all[i], pairs)),
{
    reveal(closed_under_group);
}

proof fn lemma_closed_rotations(all: Seq<u64>, pairs: Seq<(u8, u8)>, w: u64, k: nat)
    requires
        closed_under_group(all, pairs),
        all.contains(w),
    ensures
        all.contains(rotate_n(w, k)),
    decreases k,
{
    if k > 0 {
        lemma_closed_rotations(all, pairs, w, (k - 1) as nat);
        let v = rotate_n(w, (k - 1) as nat);
        let i = choose|i: int| 0 <= i < all.len() && all[i] == v;
        lemma_closed_at(all, pairs, i);
    }
}

/// Turning a mask keeps which lines of a closed family it covers.
proof fn lemma_hits_rotate(all: Seq<u64>, pairs: Seq<(u8, u8)>, p: u64)
    requires
        closed_under_group(all, pairs),
        forall|i: int| 0 <= i < all.len() ==> within_cells(#[trigger] all[i]),
        within_cells(p),
    ensures
        (exists|i: int| 0 <= i < all.len() && covers(rotate_spec(p), #[trigger] all[i])) == (exists|i: int|
            0 <= i < all.len() && covers(p, #[trigger] all[i])),
{
    if exists|i: int| 0 <= i < all.len() && covers(p, #[trigger] all[i]) {
        let i = choose|i: int| 0 <= i < all.len() && covers(p, #[trigger] all[i]);
        lemma_rotate(all[i], p);
        lemma_closed_at(all, pairs, i);
        let j = choose|j: int| 0 <= j < all.len() && all[j] == rotate_spec(all[i]);
        assert(covers(rotate_spec(p), all[j]));
    }
    if exists|i: int| 0 <= i < all.len() && covers(rotate_spec(p), #[trigger] all[i]) {
        let i = choose|i: int| 0 <= i < all.len() && covers(rotate_spec(p), #[trigger] all[i]);
        let w = all[i];
        assert(all.contains(w));
        lemma_closed_rotations(all, pairs, w, 5);
        let v = rotate_n(w, 5);
        lemma_rotate(w, 0);
        reveal_with_fuel(rotate_n, 2);
        assert(rotate_spec(v) == rotate_n(w, 6));
        lemma_rotate_n_within(w, 5);
        lemma_rotate(v, p);
        let j = choose|j: int| 0 <= j < all.len() && all[j] == v;
        assert(covers(p, all[j]));
    }
}

proof fn lemma_mirror_and(x: u64, y: u64, pairs: Seq<(u8, u8)>, k: nat)
    requires
        k <= pairs.len(),
        pairs_in_range(pairs),
        pairs_disjoint(pairs),
    ensures
        mirror_upto(x & y, pairs, k) == mirror_upto(x, pairs, k) & mirror_upto(y, pairs, k),
    decreases k,
{
    if k > 0 {
        lemma_mirror_and(x, y, pairs, (k - 1) as nat);
        let km = (k - 1) as nat;
        let c0 = mirror_upto(x, pairs, km);
        let c1 = mirror_upto(y, pairs, km);
        let co = mirror_upto(x & y, pairs, km);
        let a = pairs[k - 1].0 as u64;
        let b = pairs[k - 1].1 as u64;
        assert(untouched(pairs, km, a) && untouched(pairs, km, b)) by {
            assert forall|i: int| 0 <= i < k - 1 implies (#[trigger] pairs[i]).0 as u64 != a && pairs[i].1 as u64 != a by {
                assert(pairs[i] != pairs[k - 1] || i != k - 1);
            }
        }
        lemma_mirror_untouched(x, pairs, km, a);
        lemma_mirror_untouched(x, pairs, km, b);
        lemma_mirror_untouched(y, pairs, km, a);
        lemma_mirror_untouched(y, pairs, km, b);
        assert(a < 64 && b < 64 && a != b && co == c0 & c1
            && (c0 >> a) & 1 == (x >> a) & 1 && (c0 >> b) & 1 == (x >> b) & 1
            && (c1 >> a) & 1 == (y >> a) & 1 && (c1 >> b) & 1 == (y >> b) & 1 ==> {
            let t0 = ((x >> a) & 1) ^ ((x >> b) & 1);
            let t1 = ((y >> a) & 1) ^ ((y >> b) & 1);
            let to = (((x & y) >> a) & 1) ^ (((x & y) >> b) & 1);
            co ^ ((to << a) | (to << b)) == (c0 ^ ((t0 << a) | (t0 << b))) & (c1 ^ ((t1 << a) | (t1 << b)))
        }) by (bit_vector);
    }
}

/// The reflection leaves the full board as it is.
proof fn lemma_mirror_full(pairs: Seq<(u8, u8)>, k: nat)
    requires
        k <= pairs.len(),
        pairs_in_range(pairs),
    ensures
        mirror_upto(EXCLUDE_TOP_BITS, pairs, k) == EXCLUDE_TOP_BITS,
    decreases k,
{
    if k > 0 {
        lemma_mirror_full(pairs, (k - 1) as nat);
        let a = pairs[k - 1].0 as u64;
        let b = pairs[k - 1].1 as u64;
        let e = EXCLUDE_TOP_BITS;
        let t = ((e >> a) & 1) ^ ((e >> b) & 1);
        assert(e ^ ((t << a) | (t << b)) == e) by (bit_vector)
            requires
                a < 61,
                b < 61,
                e == 0x1fff_ffff_ffff_ffffu64,
                t == ((e >> a) & 1) ^ ((e >> b) & 1),
        ;
    }
}

/// Reflecting a mask keeps which lines of a closed family it covers.
proof fn lemma_hits_mirror(all: Seq<u64>, pairs: Seq<(u8, u8)>, p: u64)
    requires
        closed_under_group(all, pairs),
        pairs_in_range(pairs),
        pairs_disjoint(pairs),
    ensures
        (exists|i: int| 0 <= i < all.len() && covers(mirror_spec(p, pairs), #[trigger] all[i])) == (exists|i: int|
            0 <= i < all.len() && covers(p, #[trigger] all[i])),
{
    lemma_mirror_involutive(pairs);
    if exists|i: int| 0 <= i < all.len() && covers(p, #[trigger] all[i]) {
        let i = choose|i: int| 0 <= i < all.len() && covers(p, #[trigger] all[i]);
        let w = all[i];
        lemma_mirror_and(w, p, pairs, pairs.len());
        lemma_closed_at(all, pairs, i);
        let j = choose|j: int| 0 <= j < all.len() && all[j] == mirror_spec(w, pairs);
        assert(covers(mirror_spec(p, pairs), all[j]));
    }
    if exists|i: int| 0 <= i < all.len() && covers(mirror_spec(p, pairs), #[trigger] all[i]) {
        let i = choose|i: int| 0 <= i < all.len() && covers(mirror_spec(p, pairs), #[trigger] all[i]);
        let w = all[i];
        let v = mirror_spec(w, pairs);
        lemma_closed_at(all, pairs, i);
        assert(mirror_spec(v, pairs) == w);
        lemma_mirror_and(v, p, pairs, pairs.len());
        assert(mirror_spec(v & p, pairs) == mirror_spec(v, pairs));
        assert(mirror_spec(mirror_spec(v & p, pairs), pairs) == v & p);
        let j = choose|j: int| 0 <= j < all.len() && all[j] == v;
        assert(covers(p, all[j]));
    }
}

proof fn lemma_full_covers(p0: u64, p1: u64)
    requires
        within_cells(p0),
        within_cells(p1),
    ensures
        within_cells(p0 | p1),
        within_cells(EXCLUDE_TOP_BITS),
        full_spec(p0, p1) == covers(p0 | p1, EXCLUDE_TOP_BITS),
{
    assert(0x1fff_ffff_ffff_ffffu64 & !0x1fff_ffff_ffff_ffffu64 == 0 && (p0 & !0x1fff_ffff_ffff_ffffu64 == 0 && p1 & !0x1fff_ffff_ffff_ffffu64 == 0 ==> (p0 | p1)
        & !0x1fff_ffff_ffff_ffffu64 == 0 && (!(p0 | p1) & 0x1fff_ffff_ffff_ffffu64 == 0 <==> 0x1fff_ffff_ffff_ffffu64
        & (p0 | p1) == 0x1fff_ffff_ffff_ffffu64))) by (bit_vector);
}

proof fn lemma_scan_same(rules: &HexRules, p0: u64, p1: u64, q0: u64, q1: u64)
    requires
        full_spec(p0, p1) == full_spec(q0, q1),
        (exists|i: int| 0 <= i < rules.wins().len() && covers(p0, #[trigger] rules.wins()[i])) == (exists|i: int|
            0 <= i < rules.wins().len() && covers(q0, #[trigger] rules.wins()[i])),
        (exists|i: int| 0 <= i < rules.wins().len() && covers(p1, #[trigger] rules.wins()[i])) == (exists|i: int|
            0 <= i < rules.wins().len() && covers(q1, #[trigger] rules.wins()[i])),
        (exists|i: int| 0 <= i < rules.loses().len() && covers(p0, #[trigger] rules.loses()[i])) == (exists|i: int|
            0 <= i < rules.loses().len() && covers(q0, #[trigger] rules.loses()[i])),
        (exists|i: int| 0 <= i < rules.loses().len() && covers(p1, #[trigger] rules.loses()[i])) == (exists|i: int|
            0 <= i < rules.loses().len() && covers(q1, #[trigger] rules.loses()[i])),
    ensures
        scan(rules.wins(), rules.loses(), p0, p1).0 == scan(rules.wins(), rules.loses(), q0, q1).0,
{
    lemma_first_hit(rules.wins(), p0, 0);
    lemma_first_hit(rules.wins(), p1, 0);
    lemma_first_hit(rules.loses(), p0, 0);
    lemma_first_hit(rules.loses(), p1, 0);
    lemma_first_hit(rules.wins(), q0, 0);
    lemma_first_hit(rules.wins(), q1, 0);
    lemma_first_hit(rules.loses(), q0, 0);
    lemma_first_hit(rules.loses(), q1, 0);
}

/// Turning a board keeps its scanned outcome.
pub proof fn lemma_outcome_rotate(rules: &HexRules, b: BitBoard)
    requires
        rules.wf(),
        board_ok(b),
    ensures
        outcome_spec(rules, rotated(b)) == outcome_spec(rules, b),
{
    let (p0, p1) = (b.p0.bits, b.p1.bits);
    lemma_no_empty_mask(rules.winning_masks@);
    lemma_no_empty_mask(rules.losing_masks@);
    lemma_hits_rotate(rules.wins(), rules.mirror_pairs@, p0);
    lemma_hits_rotate(rules.wins(), rules.mirror_pairs@, p1);
    lemma_hits_rotate(rules.loses(), rules.mirror_pairs@, p0);
    lemma_hits_rotate(rules.loses(), rules.mirror_pairs@, p1);
    lemma_rotate(p0, p1);
    lemma_rotate(p1, p0);
    lemma_full_covers(p0, p1);
    lemma_full_covers(rotate_spec(p0), rotate_spec(p1));
    lemma_rotate(EXCLUDE_TOP_BITS, p0 | p1);
    lemma_scan_same(rules, rotate_spec(p0), rotate_spec(p1), p0, p1);
}

/// Reflecting a board keeps its scanned outcome.
pub proof fn lemma_outcome_mirror(rules: &HexRules, b: BitBoard)
    requires
        rules.wf(),
        board_ok(b),
    ensures
        outcome_spec(rules, mirrored(b, rules.mirror_pairs@)) == outcome_spec(rules, b),
{
    let pairs = rules.mirror_pairs@;
    let (p0, p1) = (b.p0.bits, b.p1.bits);
    let (m0, m1) = (mirror_spec(p0, pairs), mirror_spec(p1, pairs));
    lemma_hits_mirror(rules.wins(), pairs, p0);
    lemma_hits_mirror(rules.wins(), pairs, p1);
    lemma_hits_mirror(rules.loses(), pairs, p0);
    lemma_hits_mirror(rules.loses(), pairs, p1);
    lemma_mirror_or(p0, p1, pairs, pairs.len());
    lemma_mirror_within(p0, pairs, pairs.len());
    lemma_mirror_within(p1, pairs, pairs.len());
    lemma_full_covers(p0, p1);
    lemma_full_covers(m0, m1);
    lemma_mirror_full(pairs, pairs.len());
    lemma_mirror_and(EXCLUDE_TOP_BITS, p0 | p1, pairs, pairs.len());
    lemma_mirror_involutive(pairs);
    let occ = p0 | p1;
    assert(mirror_spec(mirror_spec(EXCLUDE_TOP_BITS & occ, pairs), pairs) == EXCLUDE_TOP_BITS & occ);
    lemma_scan_same(rules, m0, m1, p0, p1);
}

/// Every image of a board under the group has the board's scanned outcome.
pub proof fn lemma_outcome_orbit(rules: &HexRules, b: BitBoard, i: int)
    requires
        rules.wf(),
        board_ok(b),
        0 <= i < 12,
    ensures
        ({
            let c = orbit(b.p0.bits, b.p1.bits, rules.mirror_pairs@)[i];
            outcome_spec(rules, BitBoard { p0: PlayerBitBoard { bits: c.0 }, p1: PlayerBitBoard { bits: c.1 }, outcome: None })
                == outcome_spec(rules, b)
        }),
{
    let pairs = rules.mirror_pairs@;
    if i < 6 {
        lemma_rotations_outcome(rules, b, i as nat);
        lemma_rotated_n_bits(b, i as nat);
    } else {
        let mb = mirrored(b, pairs);
        lemma_outcome_mirror(rules, b);
        lemma_mirror_within(b.p0.bits, pairs, pairs.len());
        lemma_mirror_within(b.p1.bits, pairs, pairs.len());
        lemma_mirror_or(b.p0.bits, b.p1.bits, pairs, pairs.len());
        lemma_rotations_outcome(rules, mb, (i - 6) as nat);
        lemma_rotated_n_bits(mb, (i - 6) as nat);
    }
}

proof fn lemma_rotations_outcome(rules: &HexRules, b: BitBoard, k: nat)
    requires
        rules.wf(),
        board_ok(b),
    ensures
        outcome_spec(rules, rotated_n(b, k)) == outcome_spec(rules, b),
    decreases k,
{
    if k > 0 {
        lemma_rotations_outcome(rules, b, (k - 1) as nat);
        lemma_rotations_keep_count(b, (k - 1) as nat);
        lemma_outcome_rotate(rules, rotated_n(b, (k - 1) as nat));
    }
}

/// The representative of a board has the board's scanned outcome.
pub proof fn lemma_canon_outcome(rules: &HexRules, b: BitBoard)
    requires
        rules.wf(),
        board_ok(b),
    ensures
        outcome_spec(rules, canon_spec(rules, b)) == outcome_spec(rules, b),
{
    if bits_below(b.p0.bits | b.p1.bits, 64) < CANON_LIMIT {
        let o = orbit(b.p0.bits, b.p1.bits, rules.mirror_pairs@);
        lemma_orbit_counts(rules, b);
        assert(o[0] == (b.p0.bits, b.p1.bits));
        lemma_least_exists(o, 0);
        let c = least_image(b.p0.bits, b.p1.bits, rules.mirror_pairs@);
        assert(is_least(c, o));
        let i = choose|i: int| 0 <= i < o.len() && o[i] == c;
        lemma_outcome_orbit(rules, b, i);
    }
}

/// The bits of `x` below `n`.
pub open spec fn low_bits(x: u64, n: u64) -> u64 {
    x & !(0xffff_ffff_ffff_ffffu64 << n)
}

proof fn lemma_low_bits(x: u64, n: u64)
    requires
        n < 61,
    ensures
        low_bits(x, 0) == 0,
        low_bits(x, (n + 1) as u64) == low_bits(x, n) | (x & (1u64 << n)),
        low_bits(x, n) & (x & (1u64 << n)) == 0,
        (x & (1u64 << n)) == 0 || (x & (1u64 << n)) == (1u64 << n),
        (x & (1u64 << n)) == 0 ==> low_bits(x, (n + 1) as u64) == low_bits(x, n),
        within_cells(x) ==> low_bits(x, 61) == x,
{
    assert(n < 61 ==> {
        &&& x & !(0xffff_ffff_ffff_ffffu64 << 0u64) == 0
        &&& x & !(0xffff_ffff_ffff_ffffu64 << (n + 1)) == (x & !(0xffff_ffff_ffff_ffffu64 << n)) | (x & (1u64 << n))
        &&& (x & !(0xffff_ffff_ffff_ffffu64 << n)) & (x & (1u64 << n)) == 0
        &&& ((x & (1u64 << n)) == 0 || (x & (1u64 << n)) == (1u64 << n))
        &&& ((x & (1u64 << n)) == 0 ==> x & !(0xffff_ffff_ffff_ffffu64 << (n + 1)) == x & !(0xffff_ffff_ffff_ffffu64 << n))
        &&& (x & !0x1fff_ffff_ffff_ffffu64 == 0 ==> x & !(0xffff_ffff_ffff_ffffu64 << 61u64) == x)
    }) by (bit_vector);
}

proof fn lemma_mirror_zero(pairs: Seq<(u8, u8)>, k: nat)
    requires
        k <= pairs.len(),
        pairs_in_range(pairs),
    ensures
        mirror_upto(0, pairs, k) == 0,
    decreases k,
{
    if k > 0 {
        lemma_mirror_zero(pairs, (k - 1) as nat);
        let a = pairs[k - 1].0 as u64;
        let b = pairs[k - 1].1 as u64;
        let z = 0u64;
        assert(z == 0 ==> z ^ (((((z >> a) & 1) ^ ((z >> b) & 1)) << a) | ((((z >> a) & 1) ^ ((z >> b) & 1)) << b)) == 0)
            by (bit_vector);
    }
}

proof fn lemma_rotate_n_or(a: u64, b: u64, k: nat)
    ensures
        rotate_n(a | b, k) == rotate_n(a, k) | rotate_n(b, k),
    decreases k,
{
    if k > 0 {
        lemma_rotate_n_or(a, b, (k - 1) as nat);
        lemma_rotate(rotate_n(a, (k - 1) as nat), rotate_n(b, (k - 1) as nat));
    }
}

proof fn lemma_rotate_n_zero(k: nat)
    ensures
        rotate_n(0, k) == 0,
    decreases k,
{
    if k > 0 {
        lemma_rotate_n_zero((k - 1) as nat);
        let z = 0u64;
        assert(z == 0 ==> ((((z << 1) & !0x2082_0820_8208_2082u64) | (((z << 1) & 0x2082_0820_8208_2082u64) >> 6)) | (z & 1))
            == 0) by (bit_vector);
    }
}

proof fn lemma_commutes_low(x: u64, pairs: Seq<(u8, u8)>, n: u64)
    requires
        n <= 61,
        pairs_in_range(pairs),
        pairs_disjoint(pairs),
        commutes_on_cells(pairs),
    ensures
        mirror_spec(rotate_spec(low_bits(x, n)), pairs) == rotate_n(mirror_spec(low_bits(x, n), pairs), 5),
    decreases n,
{
    let len = pairs.len();
    if n == 0 {
        lemma_low_bits(x, 0);
        lemma_rotate_n_zero(1);
        lemma_mirror_zero(pairs, len);
        lemma_rotate_n_zero(5);
        reveal_with_fuel(rotate_n, 2);
    } else {
        let m = (n - 1) as u64;
        lemma_commutes_low(x, pairs, m);
        lemma_low_bits(x, m);
        let l = low_bits(x, m);
        let t = x & (1u64 << m);
        if t != 0 {
            lemma_rotate(l, t);
            lemma_mirror_or(rotate_spec(l), rotate_spec(t), pairs, len);
            reveal(commutes_on_cells);
            assert(mirror_spec(rotate_spec(1u64 << m), pairs) == rotate_n(mirror_spec(1u64 << m, pairs), 5));
            lemma_rotate_n_or(mirror_spec(l, pairs), mirror_spec(t, pairs), 5);
            lemma_mirror_or(l, t, pairs, len);
            assert(low_bits(x, n) == l | t);
            assert(rotate_spec(l | t) == rotate_spec(l) | rotate_spec(t));
            assert(mirror_spec(rotate_spec(l) | rotate_spec(t), pairs) == mirror_spec(rotate_spec(l), pairs) | mirror_spec(rotate_spec(t), pairs));
            assert(mirror_spec(rotate_spec(t), pairs) == rotate_n(mirror_spec(t, pairs), 5));
        } else {
            assert(low_bits(x, n) == l);
        }
    }
}

/// A reflection table that commutes with the rotation on single cells does
/// so on every mask: it forms the twelve-element group with the rotation.
pub proof fn lemma_mirror_commutes(pairs: Seq<(u8, u8)>)
    requires
        pairs_in_range(pairs),
        pairs_disjoint(pairs),
        commutes_on_cells(pairs),
    ensures
        mirror_commutes(pairs),
{
    assert forall|x: u64| within_cells(x) implies #[trigger] mirror_spec(rotate_spec(x), pairs) == rotate_n(
        mirror_spec(x, pairs),
        5,
    ) by {
        lemma_commutes_low(x, pairs, 61);
        lemma_low_bits(x, 60);
    }
}

} // verus!
