use vstd::prelude::*;
use crate::bits::{one_idxs, set_indices};
use crate::codec::{parse_board_hex, parse_spec};
use crate::game::Game;
use crate::hex::{board_ok, check_game_outcome, outcome_spec, scan, BitBoard, HexRules, PlayerBitBoard, EXCLUDE_TOP_BITS};
use crate::hex_game::hex_legal;
use crate::mcts::Mcts;
use crate::outcome::GameOutcome;

verus! {

/// The rollout budget of a move search; the caller's time limit usually
/// ends the search first.
pub const PICK_MOVE_ROLLOUTS: u32 = 100000;

/// The outcome of an encoded board, with the cells of the line that
/// decided it when a line did.
#[derive(Clone, Copy, Debug)]
pub struct CompleteOutcome {
    pub outcome: GameOutcome,
    pub locations: Option<[i32; 4]>,
}

/// The first four cells of `mask`, in increasing order, padded with -1.
pub open spec fn locations_of(mask: u64) -> Seq<i32> {
    let cells = set_indices(mask, 64);
    Seq::new(4, |i: int| if i < cells.len() { cells[i] as i32 } else { -1i32 })
}

/// What `check_game_string_worker` reports for an encoding: `Invalid` when
/// it does not decode; else the scanned outcome, with the deciding line's
/// cells when a line gave the win.
pub open spec fn report_spec(rules: &HexRules, cs: Seq<char>) -> (GameOutcome, Option<Seq<i32>>) {
    match parse_spec(cs) {
        Err(_) => (GameOutcome::Invalid, None),
        Ok((p0, p1)) => {
            let (o, mask) = scan(rules.wins(), rules.loses(), p0, p1);
            match (o, mask) {
                (GameOutcome::Winner(_), Some(m)) => (o, Some(locations_of(m))),
                _ => (o, None),
            }
        },
    }
}

/// See `locations_of`.
pub fn mask_locations(mask: u64) -> (r: [i32; 4])
    ensures
        r@ == locations_of(mask),
{
    let cells = one_idxs(mask);
    let l0: i32 = if cells.len() > 0 { cells[0] as i32 } else { -1 };
    let l1: i32 = if cells.len() > 1 { cells[1] as i32 } else { -1 };
    let l2: i32 = if cells.len() > 2 { cells[2] as i32 } else { -1 };
    let l3: i32 = if cells.len() > 3 { cells[3] as i32 } else { -1 };
    let r = [l0, l1, l2, l3];
    assert(r@ =~= locations_of(mask));
    r
}

/// Decodes a board and reports its outcome (see `report_spec`).
pub fn check_game_string_worker(board_hex: &str, rules: &HexRules) -> (r: CompleteOutcome)
    requires
        rules.wf(),
    ensures
        r.outcome == report_spec(rules, board_hex@).0,
        match report_spec(rules, board_hex@).1 {
            Some(l) => r.locations matches Some(a) && a@ == l,
            None => r.locations is None,
        },
{
    match parse_board_hex(board_hex) {
        Ok(bb) => {
            let (outcome, mask_opt) = check_game_outcome(bb, rules);
            match outcome {
                GameOutcome::Winner(player) => match mask_opt {
                    Some(mask) => CompleteOutcome { outcome, locations: Some(mask_locations(mask)) },
                    None => CompleteOutcome { outcome, locations: None },
                },
                _ => CompleteOutcome { outcome, locations: None },
            }
        },
        Err(_) => CompleteOutcome { outcome: GameOutcome::Invalid, locations: None },
    }
}

/// The board that an encoding decodes to, its outcome not yet known.
pub open spec fn decoded(p0: u64, p1: u64) -> BitBoard {
    BitBoard { p0: PlayerBitBoard { bits: p0 }, p1: PlayerBitBoard { bits: p1 }, outcome: None }
}

/// Decodes a board and searches it for the move of the side to move,
/// polling `terminate` before each rollout. Answers -1 when the encoding
/// does not decode, when a mask uses one of the three unused bits, or when
/// the game is already over; else a legal cell.
pub fn ai_pick_move<F: Fn() -> bool>(board_hex: &str, rules: HexRules, terminate: &F) -> (r: i32)
    requires
        rules.wf(),
        terminate.requires(()),
    ensures
        match parse_spec(board_hex@) {
            Err(_) => r == -1,
            Ok((p0, p1)) => if board_ok(decoded(p0, p1)) && outcome_spec(&rules, decoded(p0, p1))
                == GameOutcome::Ongoing {
                0 <= r < 61 && hex_legal(decoded(p0, p1), r as u8)
            } else {
                r == -1
            },
        },
{
    match parse_board_hex(board_hex) {
        Ok(bb) => {
            if bb.p0.bits & !EXCLUDE_TOP_BITS != 0 || bb.p1.bits & !EXCLUDE_TOP_BITS != 0 {
                return -1;
            }
            if rules.outcome(bb) != GameOutcome::Ongoing {
                return -1;
            }
            let ghost g = rules;
            let mut player = Mcts::new(rules, PICK_MOVE_ROLLOUTS);
            let m = player.choose_move(bb, terminate);
            assert(g.is_legal(bb, m));
            m as i32
        },
        Err(_) => -1,
    }
}

} // verus!
