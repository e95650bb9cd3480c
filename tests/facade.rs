use yavalath_mcts::codec::{parse_board_hex, ParseBoardError};
use yavalath_mcts::facade::{ai_pick_move, check_game_string_worker, mask_locations};
use yavalath_mcts::hex::HexRules;
use yavalath_mcts::{GameOutcome, Player};

fn rules() -> HexRules {
    HexRules::new(
        vec![0b1110, 0b111_0000],
        vec![(1 << 7) | (1 << 8), (1 << 10) | (1 << 11)],
        mirror_pairs(),
    )
    .unwrap()
}

// Reflects every six-cell segment of the rings the same way, which commutes
// with turning as a reflection must.
fn mirror_pairs() -> Vec<(u8, u8)> {
    let mut pairs = Vec::new();
    for g in 0..10u8 {
        let s = 6 * g + 1;
        pairs.push((s, s + 5));
        pairs.push((s + 1, s + 4));
        pairs.push((s + 2, s + 3));
    }
    pairs
}


#[test]
fn empty_encoding_is_ongoing() {
    let s = format!("{}{}", "0000000000000000", "0000000000000000");
    let r = check_game_string_worker(&s, &rules());
    assert_eq!(r.outcome, GameOutcome::Ongoing);
    assert_eq!(r.locations, None);
}

#[test]
fn packed_board_is_drawn() {
    let s = format!("{:016X}{:016X}", 0x1555_5555_5555_5555u64, 0x0aaa_aaaa_aaaa_aaaau64);
    let r = check_game_string_worker(&s, &rules());
    assert_eq!(r.outcome, GameOutcome::Draw);
    assert_eq!(r.locations, None);
}

#[test]
fn winning_line_is_reported_with_its_cells() {
    let s = format!("{:016x}{:016x}", 0b1110u64, 1u64 << 20);
    let r = check_game_string_worker(&s, &rules());
    assert_eq!(r.outcome, GameOutcome::Winner(Player::P0));
    assert_eq!(r.locations, Some([1, 2, 3, -1]));
}

#[test]
fn bad_encodings_are_invalid() {
    let r = rules();
    assert_eq!(check_game_string_worker("00", &r).outcome, GameOutcome::Invalid);
    let s = format!("{}{}", "000000000000000g", "0000000000000000");
    assert_eq!(check_game_string_worker(&s, &r).outcome, GameOutcome::Invalid);
    let s = format!("{:016x}{:016x}", 3u64, 2u64);
    assert_eq!(check_game_string_worker(&s, &r).outcome, GameOutcome::Invalid);
}

#[test]
fn parse_errors() {
    assert_eq!(parse_board_hex("0123").unwrap_err(), ParseBoardError::WrongLength);
    let s = format!("{}{}", "0000000000000000", "000000000000000Z");
    assert_eq!(parse_board_hex(&s).unwrap_err(), ParseBoardError::NotHex);
    let s = format!("{:016x}{:016x}", 6u64, 2u64);
    assert_eq!(parse_board_hex(&s).unwrap_err(), ParseBoardError::Overlap);
    let b = parse_board_hex("00000000000000FF0000000000000a00").unwrap();
    assert_eq!((b.p0.bits, b.p1.bits, b.outcome), (0xff, 0xa00, None));
}

#[test]
fn locations_pad_with_minus_one() {
    assert_eq!(mask_locations(0), [-1, -1, -1, -1]);
    assert_eq!(mask_locations((1 << 5) | (1 << 40)), [5, 40, -1, -1]);
    assert_eq!(mask_locations(0b11111), [0, 1, 2, 3]);
}

#[test]
fn pick_move_returns_a_legal_cell() {
    let s = format!("{:016x}{:016x}", 1u64, 0u64);
    let start = std::time::Instant::now();
    let m = ai_pick_move(&s, rules(), &move || start.elapsed().as_millis() > 200);
    assert!((0..61).contains(&m));
    assert_ne!(m, 0);
}

#[test]
fn cancelled_pick_move_still_moves() {
    let s = format!("{:016x}{:016x}", 0b110u64, 1u64 << 30);
    let m = ai_pick_move(&s, rules(), &|| true);
    assert!((0..61).contains(&m));
    assert!(m != 1 && m != 2 && m != 30);
}

#[test]
fn pick_move_refuses_bad_or_finished_boards() {
    assert_eq!(ai_pick_move("zz", rules(), &|| true), -1);
    let won = format!("{:016x}{:016x}", 0b1110u64, 1u64 << 30);
    assert_eq!(ai_pick_move(&won, rules(), &|| true), -1);
    let off = format!("{:016x}{:016x}", 1u64 << 62, 0u64);
    assert_eq!(ai_pick_move(&off, rules(), &|| true), -1);
}
