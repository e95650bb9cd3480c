use yavalath_mcts::game::Game;
use yavalath_mcts::mcts::Mcts;
use yavalath_mcts::tictac::{TicTacBoard, TicTacGame};
use yavalath_mcts::{GameOutcome, Player};

#[test]
fn top_row_wins_for_first_player() {
    let b = TicTacBoard { p0: 0b000_000_111, p1: 0b000_011_000 };
    assert_eq!(b.outcome(), GameOutcome::Winner(Player::P0));
}

#[test]
fn column_wins_for_second_player() {
    let b = TicTacBoard { p0: 0b000_011_010, p1: 0b100_100_100 };
    assert_eq!(b.outcome(), GameOutcome::Winner(Player::P1));
}

#[test]
fn full_board_without_line_is_drawn() {
    // X O X / X O O / O X X
    let b = TicTacBoard { p0: 0b110_001_101, p1: 0b001_110_010 };
    assert_eq!(b.outcome(), GameOutcome::Draw);
}

#[test]
fn empty_board_is_ongoing_and_first_player_moves() {
    let b = TicTacBoard::new();
    assert_eq!(b.outcome(), GameOutcome::Ongoing);
    assert_eq!(b.whose_turn(), Player::P0);
    assert_eq!(b.legal_moves(), vec![0, 1, 2, 3, 4, 5, 6, 7, 8]);
}

#[test]
fn turns_alternate() {
    let b = TicTacBoard::new().apply_move(4);
    assert_eq!(b, TicTacBoard { p0: 1 << 4, p1: 0 });
    assert_eq!(b.whose_turn(), Player::P1);
    let c = b.apply_move(0);
    assert_eq!(c, TicTacBoard { p0: 1 << 4, p1: 1 });
    assert_eq!(c.whose_turn(), Player::P0);
}

#[test]
fn moves_fill_only_empty_cells() {
    let b = TicTacBoard { p0: 0b000_010_001, p1: 0b100_000_000 };
    let moves = b.legal_moves();
    assert_eq!(moves, vec![1, 2, 3, 5, 6, 7]);
    for m in moves {
        let a = b.apply_move(m);
        assert_eq!(a.p0 & a.p1, 0);
        assert_eq!(a.p0 | a.p1, b.p0 | b.p1 | (1 << m));
    }
}

#[test]
fn afterstates_follow_legal_moves() {
    let b = TicTacBoard { p0: 0b000_010_001, p1: 0b100_000_000 };
    let after = b.afterstates();
    let moves = b.legal_moves();
    assert_eq!(after.len(), moves.len());
    for (a, m) in after.iter().zip(moves.iter()) {
        assert_eq!(*a, b.apply_move(*m));
    }
}

#[test]
fn conflict_means_unreachable() {
    let a = TicTacBoard { p0: 0b1, p1: 0b10 };
    let later = TicTacBoard { p0: 0b101, p1: 0b1010 };
    let other = TicTacBoard { p0: 0b10, p1: 0b100 };
    assert!(!a.unreachable_from(later));
    assert!(a.unreachable_from(other));
    assert_eq!(a.canonical(), a);
}

#[test]
fn zero_budget_picks_last_move() {
    let mut engine = Mcts::new(TicTacGame, 0);
    let m = engine.choose_move(TicTacBoard::new(), &|| false);
    assert_eq!(m, 8);
}

#[test]
fn search_takes_the_winning_move() {
    // X X _ / O O _ / _ _ _ : the first player wins at cell 2.
    let b = TicTacBoard { p0: 0b000_000_011, p1: 0b000_011_000 };
    let mut engine = Mcts::new(TicTacGame, 2000);
    let m = engine.choose_move(b, &|| false);
    assert_eq!(m, 2);
}

#[test]
fn cancelled_search_still_returns_a_legal_move() {
    let b = TicTacBoard { p0: 0b000_000_011, p1: 0b000_011_000 };
    let mut engine = Mcts::new(TicTacGame, 1000);
    let m = engine.choose_move(b, &|| true);
    assert!(TicTacGame.legal_moves(b).contains(&m));
    assert!(engine.table.is_empty());
}

#[test]
fn playouts_record_their_start() {
    let b = TicTacBoard { p0: 0b000_000_011, p1: 0b000_011_000 };
    let mut engine = Mcts::new(TicTacGame, 10);
    engine.do_random_rollouts(b, 5);
    let e = engine.table.get(&TicTacGame.key(b)).unwrap();
    assert_eq!(e.visits, 5);
    // The first player always completes its row at once.
    assert_eq!(e.wins, 5 * 1048576);
}

#[test]
fn clean_table_drops_conflicting_positions() {
    let mut engine = Mcts::new(TicTacGame, 10);
    let kept = TicTacBoard { p0: 0b1, p1: 0 };
    let dropped = TicTacBoard { p0: 0b10, p1: 0 };
    engine.record(kept, 3);
    engine.record(dropped, 4);
    engine.record(dropped, -1);
    assert_eq!(engine.table.get(&TicTacGame.key(dropped)).unwrap().visits, 2);
    assert_eq!(engine.table.get(&TicTacGame.key(dropped)).unwrap().wins, 3);
    let root = TicTacBoard { p0: 0b1, p1: 0b10 };
    engine.clean_table(root);
    assert!(engine.table.contains_key(&TicTacGame.key(kept)));
    assert!(!engine.table.contains_key(&TicTacGame.key(dropped)));
    assert_eq!(engine.keys.len(), 1);
    engine.reset_game_specific_state();
    assert!(engine.table.is_empty());
}

#[test]
fn finished_root_gains_its_value_per_playout() {
    let won = TicTacBoard { p0: 0b000_000_111, p1: 0b000_011_000 };
    let mut engine = Mcts::new(TicTacGame, 10);
    engine.record(won, 7);
    engine.do_random_rollouts(won, 3);
    let e = engine.table.get(&TicTacGame.key(won)).unwrap();
    assert_eq!(e.visits, 4);
    assert_eq!(e.wins, 7 + 3 * 1048576);
    assert_eq!(engine.table.len(), 1);
}

#[test]
fn search_stopped_at_first_poll_only_cleans() {
    let mut engine = Mcts::new(TicTacGame, 1000);
    let kept = TicTacBoard { p0: 0b1, p1: 0 };
    let dropped = TicTacBoard { p0: 0b10, p1: 0 };
    engine.record(kept, 3);
    engine.record(dropped, 4);
    let root = TicTacBoard { p0: 0b1, p1: 0b10 };
    let m = engine.choose_move(root, &|| true);
    assert!(TicTacGame.legal_moves(root).contains(&m));
    assert_eq!(engine.table.len(), 1);
    let e = engine.table.get(&TicTacGame.key(kept)).unwrap();
    assert_eq!((e.visits, e.wins), (1, 3));
}

#[test]
fn expansion_check_sees_every_child() {
    let b = TicTacBoard { p0: 0b000_011_011, p1: 0b011_100_100 };
    let mut engine = Mcts::new(TicTacGame, 10);
    assert!(!engine.is_expanded(b));
    for m in TicTacGame.legal_moves(b) {
        engine.record(TicTacGame.apply_move(b, m), 0);
    }
    assert!(engine.is_expanded(b));
}

#[test]
fn every_rollout_visits_the_root() {
    let b = TicTacBoard { p0: 0b000_000_011, p1: 0b000_011_000 };
    let mut engine = Mcts::new(TicTacGame, 25);
    engine.choose_move(b, &|| false);
    assert_eq!(engine.table.get(&TicTacGame.key(b)).unwrap().visits, 25);
}
