use vstd::prelude::*;

verus! {

/// One of the two sides of a game; `P0` moves first.
#[derive(PartialEq, Eq, Structural, Clone, Copy, Debug, Hash, PartialOrd, Ord)]
pub enum Player {
    P0,
    P1,
}

/// The classification of a position.
#[derive(PartialEq, Eq, Structural, Clone, Copy, Debug, Hash, PartialOrd, Ord)]
pub enum GameOutcome {
    Winner(Player),
    Ongoing,
    Invalid,
    Draw,
}

pub open spec fn opponent(p: Player) -> Player {
    match p {
        Player::P0 => Player::P1,
        Player::P1 => Player::P0,
    }
}

/// The side that does not play `player`.
pub fn other_player(player: Player) -> (r: Player)
    ensures
        r == opponent(player),
        r != player,
{
    match player {
        Player::P0 => Player::P1,
        Player::P1 => Player::P0,
    }
}

/// Whether a position is over (won or drawn).
pub open spec fn is_terminal(o: GameOutcome) -> bool {
    o is Winner || o is Draw
}

} // verus!
