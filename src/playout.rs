use vstd::prelude::*;
use crate::game::Game;
use crate::outcome::{opponent, GameOutcome, Player};

verus! {

/// The position hands the opponent of `mover` a win.
pub open spec fn loses_for(o: GameOutcome, mover: Player) -> bool {
    o == GameOutcome::Winner(opponent(mover))
}

/// The indices `i < k` whose outcome does not lose for `mover`, in order.
pub open spec fn non_losing_upto(outs: Seq<GameOutcome>, mover: Player, k: nat) -> Seq<usize>
    decreases k,
{
    if k == 0 || k > outs.len() {
        seq![]
    } else {
        let rest = non_losing_upto(outs, mover, (k - 1) as nat);
        if !loses_for(outs[k - 1], mover) {
            rest.push((k - 1) as usize)
        } else {
            rest
        }
    }
}

/// The moves a playout draws from: those that do not hand the opponent a
/// win, or every move when each of them does.
pub open spec fn playout_candidates_spec(outs: Seq<GameOutcome>, mover: Player) -> Seq<usize> {
    let nl = non_losing_upto(outs, mover, outs.len());
    if nl.len() > 0 {
        nl
    } else {
        Seq::new(outs.len(), |i: int| i as usize)
    }
}

/// The first index, from `k` on, whose outcome is a win for `mover`.
pub open spec fn first_win_from(outs: Seq<GameOutcome>, mover: Player, k: nat) -> Option<usize>
    decreases outs.len() - k,
{
    if k >= outs.len() {
        None
    } else if outs[k as int] == GameOutcome::Winner(mover) {
        Some(k as usize)
    } else {
        first_win_from(outs, mover, k + 1)
    }
}

proof fn lemma_non_losing(outs: Seq<GameOutcome>, mover: Player, k: nat)
    requires
        k <= outs.len(),
        outs.len() <= usize::MAX,
    ensures
        non_losing_upto(outs, mover, k).len() <= k,
        forall|i: int| 0 <= i < non_losing_upto(outs, mover, k).len() ==> (#[trigger] non_losing_upto(outs, mover, k)[i] as int) < k
            && !loses_for(outs[non_losing_upto(outs, mover, k)[i] as int], mover),
    decreases k,
{
    if k > 0 {
        lemma_non_losing(outs, mover, (k - 1) as nat);
    }
}

/// The outcome of each position.
pub fn outcomes_of<G: Game>(game: &G, boards: &Vec<G::Board>) -> (r: Vec<GameOutcome>)
    requires
        game.valid(),
        forall|i: int| 0 <= i < boards@.len() ==> game.wf(#[trigger] boards@[i]),
    ensures
        r@.len() == boards@.len(),
        forall|i: int| 0 <= i < r@.len() ==> #[trigger] r@[i] == game.outcome_of(boards@[i]),
{
    let mut r: Vec<GameOutcome> = Vec::new();
    let mut i: usize = 0;
    while i < boards.len()
        invariant
            game.valid(),
            i <= boards@.len(),
            forall|j: int| 0 <= j < boards@.len() ==> game.wf(#[trigger] boards@[j]),
            r@.len() == i,
            forall|j: int| 0 <= j < i ==> #[trigger] r@[j] == game.outcome_of(boards@[j]),
        decreases boards@.len() - i,
    {
        let o = game.outcome(boards[i]);
        r.push(o);
        i = i + 1;
    }
    r
}

/// The first position that wins at once for `mover`, if any.
pub fn first_win(outs: &Vec<GameOutcome>, mover: Player) -> (r: Option<usize>)
    ensures
        r == first_win_from(outs@, mover, 0),
{
    let mut i: usize = 0;
    while i < outs.len()
        invariant
            i <= outs@.len(),
            first_win_from(outs@, mover, 0) == first_win_from(outs@, mover, i as nat),
        decreases outs@.len() - i,
    {
        if outs[i] == GameOutcome::Winner(mover) {
            return Some(i);
        }
        i = i + 1;
    }
    None
}

/// The positions a playout may draw from (see `playout_candidates_spec`).
pub fn playout_candidates(outs: &Vec<GameOutcome>, mover: Player) -> (r: Vec<usize>)
    ensures
        r@ == playout_candidates_spec(outs@, mover),
        forall|i: int| 0 <= i < r@.len() ==> (#[trigger] r@[i] as int) < outs@.len(),
        outs@.len() > 0 ==> r@.len() > 0,
{
    let mut nl: Vec<usize> = Vec::new();
    let mut i: usize = 0;
    while i < outs.len()
        invariant
            i <= outs@.len(),
            nl@ == non_losing_upto(outs@, mover, i as nat),
        decreases outs@.len() - i,
    {
        let o = outs[i];
        let loses = match mover {
            Player::P0 => o == GameOutcome::Winner(Player::P1),
            Player::P1 => o == GameOutcome::Winner(Player::P0),
        };
        if !loses {
            nl.push(i);
        }
        i = i + 1;
    }
    proof {
        lemma_non_losing(outs@, mover, outs@.len());
    }
    if nl.len() > 0 {
        return nl;
    }
    let mut all: Vec<usize> = Vec::new();
    let mut j: usize = 0;
    while j < outs.len()
        invariant
            j <= outs@.len(),
            all@ == Seq::new(j as nat, |q: int| q as usize),
        decreases outs@.len() - j,
    {
        all.push(j);
        j = j + 1;
        assert(all@ =~= Seq::new(j as nat, |q: int| q as usize));
    }
    all
}

/// The position a playout moves to, given a draw `roll` from
/// `0..playout_candidates(outs, mover).len()`: a position that wins at once
/// for the mover is always taken (the first one); else the drawn candidate.
pub fn playout_pick(outs: &Vec<GameOutcome>, mover: Player, candidates: &Vec<usize>, roll: usize) -> (r: usize)
    requires
        candidates@ == playout_candidates_spec(outs@, mover),
        roll < candidates@.len(),
    ensures
        r == match first_win_from(outs@, mover, 0) {
            Some(i) => i,
            None => candidates@[roll as int],
        },
{
    match first_win(outs, mover) {
        Some(i) => i,
        None => candidates[roll],
    }
}

} // verus!
