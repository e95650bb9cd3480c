use yavalath_mcts::game::Game;
use yavalath_mcts::hex::{
    any_mask, canonical, check_game_outcome, check_game_outcome_after_move, compute_tables, mirror_board,
    n_moves_played, rotate_board, yavalath_mirror, yavalath_rotate, BitBoard, HexRules, EXCLUDE_TOP_BITS,
};
use yavalath_mcts::{other_player, GameOutcome, Player};

const WIN: u64 = 0b1110;
const LOSE: u64 = (1 << 7) | (1 << 8);

// With their rotations these list every run of three on the first ring and
// every run of two on the next segment, so both families are closed under
// the rotation and under the reflection of the first ring.
const WIN_OPPOSITE: u64 = 0b111_0000;
const LOSE_OPPOSITE: u64 = (1 << 10) | (1 << 11);

fn rules() -> HexRules {
    HexRules::new(vec![WIN, WIN_OPPOSITE], vec![LOSE, LOSE_OPPOSITE], mirror_pairs()).unwrap()
}

// Reflects every six-cell segment of the rings the same way, which commutes
// with turning as a reflection must.
fn mirror_pairs() -> Vec<(u8, u8)> {
    let mut pairs = Vec::new();
    for g in 0..10u8 {
        let s = 6 * g + 1;
        pairs.push((s, s + 5));
        pairs.push((s + 1, s + 4));
        pairs.push((s + 2, s + 3));
    }
    pairs
}


#[test]
fn rotation_turns_each_ring() {
    assert_eq!(yavalath_rotate(0b1110), 0b11100);
    assert_eq!(yavalath_rotate(1 << 6), 1 << 1);
    assert_eq!(yavalath_rotate(1), 1);
    assert_eq!(yavalath_rotate(1 << 60), 1 << 55);
}

#[test]
fn six_rotations_are_the_identity() {
    let x: u64 = 0x1234_5678_9abc_def0 & EXCLUDE_TOP_BITS;
    let mut y = x;
    for _ in 0..6 {
        y = yavalath_rotate(y);
        assert_eq!(y & !EXCLUDE_TOP_BITS, 0);
    }
    assert_eq!(y, x);
}

#[test]
fn mirror_swaps_pairs_and_is_an_involution() {
    let pairs = vec![(1u8, 6u8), (2, 5), (3, 4)];
    assert_eq!(yavalath_mirror(0b10, &pairs), 0b100_0000);
    assert_eq!(yavalath_mirror(0b1_0110, &pairs), 0b110_1000);
    let x: u64 = 0b1011_0101;
    assert_eq!(yavalath_mirror(yavalath_mirror(x, &pairs), &pairs), x);
}

#[test]
fn board_transforms_keep_the_outcome() {
    let b = BitBoard { outcome: Some(GameOutcome::Draw), ..BitBoard::make(0b10, 0b100) };
    let r = rotate_board(b);
    assert_eq!((r.p0.bits, r.p1.bits, r.outcome), (0b100, 0b1000, Some(GameOutcome::Draw)));
    let m = mirror_board(b, &vec![(1, 6), (2, 5), (3, 4)]);
    assert_eq!((m.p0.bits, m.p1.bits, m.outcome), (0b100_0000, 0b10_0000, Some(GameOutcome::Draw)));
}

#[test]
fn empty_and_full() {
    let e = BitBoard::empty();
    assert_eq!((e.p0.bits, e.p1.bits, e.outcome), (0, 0, Some(GameOutcome::Ongoing)));
    assert!(!e.full());
    let f = BitBoard::make(0x1555_5555_5555_5555, 0x0aaa_aaaa_aaaa_aaaa);
    assert!(f.full());
    assert_eq!(n_moves_played(f), 61);
    assert_eq!(n_moves_played(BitBoard::make(0b101, 0b10)), 3);
}

#[test]
fn any_mask_finds_rotated_lines() {
    let masks = vec![WIN];
    assert_eq!(any_mask(0b1110, &masks), (true, Some(0b1110)));
    assert_eq!(any_mask(0b11100, &masks), (true, Some(0b11100)));
    assert_eq!(any_mask(0b111000, &masks), (true, Some(0b111000)));
    // A fourth rotation is not among the listed ones.
    assert_eq!(any_mask(0b1110000 | 1, &masks), (false, None));
}

#[test]
fn full_scan_outcomes() {
    let r = rules();
    assert_eq!(check_game_outcome(BitBoard::make(0, 0), &r), (GameOutcome::Ongoing, None));
    assert_eq!(check_game_outcome(BitBoard::make(0b1110, 1), &r), (GameOutcome::Winner(Player::P0), Some(0b1110)));
    assert_eq!(check_game_outcome(BitBoard::make(1, 0b11100), &r), (GameOutcome::Winner(Player::P1), Some(0b11100)));
    // A losing line loses for its owner.
    assert_eq!(check_game_outcome(BitBoard::make(LOSE, 1), &r), (GameOutcome::Winner(Player::P1), Some(LOSE)));
    assert_eq!(check_game_outcome(BitBoard::make(1, LOSE), &r), (GameOutcome::Winner(Player::P0), Some(LOSE)));
    let full = BitBoard::make(0x1555_5555_5555_5555, 0x0aaa_aaaa_aaaa_aaaa);
    assert_eq!(check_game_outcome(full, &r), (GameOutcome::Draw, None));
}

#[test]
fn incremental_check_matches_full_scan() {
    let r = rules();
    // The first player holds cells 1 and 2, the second 20 and 30.
    let b = BitBoard::make(0b110, (1 << 20) | (1 << 30));
    assert_eq!(check_game_outcome(b, &r).0, GameOutcome::Ongoing);
    for m in 0..61u8 {
        if (b.p0.bits | b.p1.bits) & (1 << m) != 0 {
            continue;
        }
        let placed = BitBoard::make(b.p0.bits | (1 << m), b.p1.bits);
        assert_eq!(check_game_outcome_after_move(b, m, &r), check_game_outcome(placed, &r).0);
    }
    assert_eq!(check_game_outcome_after_move(b, 3, &r), GameOutcome::Winner(Player::P0));
    // The second player completing a losing line hands the first the win.
    let c = BitBoard::make(0b110 | (1 << 20), (1 << 7) | (1 << 10));
    assert_eq!(check_game_outcome_after_move(c, 8, &r), GameOutcome::Winner(Player::P0));
}

#[test]
fn tables_list_the_lines_through_each_cell() {
    let t = compute_tables(&vec![WIN]);
    assert_eq!(t.len(), 61);
    assert_eq!(t[0], Vec::<u64>::new());
    assert_eq!(t[1], vec![0b1110]);
    assert_eq!(t[3], vec![0b1110, 0b11100, 0b111000]);
    assert_eq!(t[5], vec![0b111000]);
}

#[test]
fn rules_reject_bad_tables() {
    assert!(HexRules::new(vec![0], vec![], vec![]).is_none());
    assert!(HexRules::new(vec![1 << 62], vec![], vec![]).is_none());
    assert!(HexRules::new(vec![WIN], vec![LOSE], vec![(1, 61)]).is_none());
    // Not closed under the rotation, or not under the reflection.
    assert!(HexRules::new(vec![WIN], vec![LOSE], vec![]).is_none());
    assert!(HexRules::new(vec![WIN, WIN_OPPOSITE], vec![LOSE, LOSE_OPPOSITE], vec![(1, 60)]).is_none());
    assert!(HexRules::new(vec![WIN, WIN_OPPOSITE], vec![LOSE, LOSE_OPPOSITE], mirror_pairs()).is_some());
    // The first ring alone is reflected: that does not commute with turning.
    assert!(HexRules::new(vec![WIN, WIN_OPPOSITE], vec![LOSE, LOSE_OPPOSITE], vec![(1, 6), (2, 5), (3, 4)]).is_none());
}

#[test]
fn canonical_picks_the_least_image() {
    let r = rules();
    // One stone on the first ring: its least image is cell 1.
    let b = BitBoard::make(1 << 4, 0);
    let c = canonical(b, &r);
    assert_eq!((c.p0.bits, c.p1.bits, c.outcome), (1 << 1, 0, None));
    // Idempotent.
    assert_eq!(canonical(c, &r), c);
    // A rotated copy has the same representative.
    assert_eq!(canonical(rotate_board(b), &r), c);
    // So does a reflected one.
    let m = mirror_board(b, &r.mirror_pairs);
    assert_eq!(m.p0.bits, 1 << 3);
    assert_eq!(canonical(m, &r), c);
    // Two stones: every image under the group has the same representative.
    let two = BitBoard::make(1 << 2, 1 << 4);
    let rep = canonical(two, &r);
    let mut img = two;
    for _ in 0..6 {
        img = rotate_board(img);
        assert_eq!(canonical(img, &r).p0.bits, rep.p0.bits);
        assert_eq!(canonical(img, &r).p1.bits, rep.p1.bits);
        let refl = mirror_board(img, &r.mirror_pairs);
        assert_eq!(canonical(refl, &r).p0.bits, rep.p0.bits);
        assert_eq!(canonical(refl, &r).p1.bits, rep.p1.bits);
    }
    assert_eq!(canonical(rep, &r), rep);
    // From CANON_LIMIT stones on, boards are left as they are.
    let big = BitBoard::make((1 << 4) | (1 << 9) | (1 << 20), (1 << 30) | (1 << 40));
    assert_eq!(canonical(big, &r), big);
}

#[test]
fn other_player_flips() {
    assert_eq!(other_player(Player::P0), Player::P1);
    assert_eq!(other_player(Player::P1), Player::P0);
}

#[test]
fn hex_game_moves_and_turns() {
    let r = rules();
    let b = r.start();
    assert_eq!(r.outcome(b), GameOutcome::Ongoing);
    assert_eq!(r.whose_turn(b), Player::P0);
    assert_eq!(r.legal_moves(b).len(), 61);
    let a = r.apply_move(b, 30);
    assert_eq!(r.whose_turn(a), Player::P1);
    assert_eq!(a.p0.bits.count_ones(), 1);
    assert_eq!(a.p0.bits & a.p1.bits, 0);
    let a2 = r.apply_move(a, 0);
    assert_eq!(a2.p1.bits, 1);
    assert_eq!(a2.p0.bits & a2.p1.bits, 0);
}

#[test]
fn early_afterstates_are_merged_and_sorted() {
    let r = rules();
    let b = r.start();
    let after = r.afterstates(b);
    assert!(after.len() < 61);
    let keys: Vec<u128> = after.iter().map(|a| r.key(*a)).collect();
    for w in keys.windows(2) {
        assert!(w[0] < w[1]);
    }
    for m in r.legal_moves(b) {
        assert!(keys.contains(&r.key(r.apply_move(b, m))));
    }
}

#[test]
fn late_afterstates_keep_every_move() {
    let r = rules();
    let b = BitBoard::make((1 << 20) | (1 << 30) | (1 << 40), (1 << 25) | (1 << 35) | (1 << 45));
    let after = r.afterstates(b);
    assert_eq!(after.len(), 55);
}

#[test]
fn unreachable_iff_cells_conflict() {
    let r = rules();
    let root = BitBoard::make(0b1, 0b10);
    assert!(!r.unreachable_from(BitBoard::make(0b101, 0b1010), root));
    assert!(r.unreachable_from(BitBoard::make(0b10, 0), root));
    assert!(r.unreachable_from(BitBoard::make(0, 0b1), root));
}

#[test]
fn stored_outcome_agrees_with_a_fresh_scan() {
    let r = rules();
    let mut b = BitBoard::make((1 << 20) | (1 << 30) | (1 << 40), (1 << 25) | (1 << 35) | (1 << 45));
    for m in [1u8, 50, 2, 52, 3] {
        assert_eq!(r.outcome(b), GameOutcome::Ongoing);
        b = r.apply_move(b, m);
        let fresh = check_game_outcome(BitBoard::make(b.p0.bits, b.p1.bits), &r).0;
        assert_eq!(b.outcome, Some(fresh));
        assert_eq!(r.outcome(b), fresh);
    }
    assert_eq!(r.outcome(b), GameOutcome::Winner(Player::P0));
}

#[test]
fn rules_reject_overlapping_pairs() {
    assert!(HexRules::new(vec![WIN, WIN_OPPOSITE], vec![LOSE, LOSE_OPPOSITE], vec![(1, 6), (6, 2)]).is_none());
    assert!(HexRules::new(vec![WIN, WIN_OPPOSITE], vec![LOSE, LOSE_OPPOSITE], vec![(3, 3)]).is_none());
}

#[test]
fn moves_add_one_stone_to_the_mover() {
    let r = rules();
    let b = BitBoard::make(1 << 1, 0);
    let a = r.apply_move(b, 40);
    assert_eq!(a.p0.bits.count_ones(), 1);
    assert_eq!(a.p1.bits.count_ones(), 1);
    assert_eq!(canonical(a, &r), a);
}

#[test]
fn representative_keeps_the_stored_outcome() {
    let r = rules();
    let b = BitBoard { outcome: Some(GameOutcome::Ongoing), ..BitBoard::make(1 << 6, 0) };
    let c = canonical(b, &r);
    assert_eq!((c.p0.bits, c.p1.bits, c.outcome), (1 << 1, 0, Some(GameOutcome::Ongoing)));
    assert_eq!(canonical(rotate_board(b), &r), c);
}

#[test]
fn a_move_stores_the_incremental_outcome() {
    let r = rules();
    let b = r.start();
    let expected = check_game_outcome_after_move(b, 6, &r);
    let a = r.apply_move(b, 6);
    assert_eq!(a.outcome, Some(expected));
    assert_eq!((a.p0.bits, a.p1.bits), (1 << 1, 0));
}

#[test]
fn rules_reject_a_reflection_outside_the_group() {
    // Swapping two cells of different rings does not commute with turning.
    assert!(HexRules::new(vec![WIN, WIN_OPPOSITE], vec![LOSE, LOSE_OPPOSITE], vec![(1, 7)]).is_none());
}
