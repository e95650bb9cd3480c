use yavalath_mcts::fixed::{discount, isqrt, ln_fixed, ucb_score, VALUE_SCALE};
use yavalath_mcts::playout::{first_win, playout_candidates, playout_pick};
use yavalath_mcts::{GameOutcome, Player};

#[test]
fn fixed_point_logarithm() {
    assert_eq!(ln_fixed(1), 0);
    assert_eq!(ln_fixed(4), 1453634);
    assert_eq!(ln_fixed(6), 1817043);
}

#[test]
fn integer_square_root() {
    assert_eq!(isqrt(0), 0);
    assert_eq!(isqrt(15), 3);
    assert_eq!(isqrt(16), 4);
    assert_eq!(isqrt(u64::MAX), 0xffff_ffff);
}

#[test]
fn selection_scores() {
    assert_eq!(ucb_score(1, 1, 0, true), 0);
    assert_eq!(ucb_score(4, 2, VALUE_SCALE as i64, true), 1450240);
    assert_eq!(ucb_score(4, 2, VALUE_SCALE as i64, false), 401664);
    assert_eq!(ucb_score(6, 3, -(VALUE_SCALE as i64), true), 495749);
}

#[test]
fn depth_discount() {
    assert_eq!(discount(VALUE_SCALE), 1022361);
    assert_eq!(discount(0), 0);
}

#[test]
fn playout_prefers_immediate_wins() {
    let outs = vec![GameOutcome::Ongoing, GameOutcome::Winner(Player::P1), GameOutcome::Winner(Player::P1)];
    assert_eq!(first_win(&outs, Player::P1), Some(1));
    assert_eq!(first_win(&outs, Player::P0), None);
    let c = playout_candidates(&outs, Player::P1);
    assert_eq!(playout_pick(&outs, Player::P1, &c, 0), 1);
}

#[test]
fn playout_avoids_losing_moves() {
    let outs = vec![
        GameOutcome::Winner(Player::P1),
        GameOutcome::Ongoing,
        GameOutcome::Winner(Player::P1),
        GameOutcome::Draw,
    ];
    let c = playout_candidates(&outs, Player::P0);
    assert_eq!(c, vec![1, 3]);
    assert_eq!(playout_pick(&outs, Player::P0, &c, 1), 3);
    let all_lose = vec![GameOutcome::Winner(Player::P0), GameOutcome::Winner(Player::P0)];
    assert_eq!(playout_candidates(&all_lose, Player::P1), vec![0, 1]);
}
