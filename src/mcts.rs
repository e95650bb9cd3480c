use std::collections::HashMap;
use vstd::prelude::*;
use crate::calls::random_index;
use crate::fixed::{discount, ucb_score, ucb_spec, VALUE_SCALE};
use crate::game::{wins_at_once, Game};
use crate::outcome::{GameOutcome, Player};
use crate::playout::{outcomes_of, playout_candidates, playout_pick};

verus! {

broadcast use vstd::std_specs::hash::group_hash_axioms;

/// The rollout budget of a default engine.
pub const N_ROLLOUTS: u32 = 1000;

/// An upper bound on the plies of one descent or playout. No game here
/// comes near it (each move fills one of at most 64 cells); a walk that
/// reached it would be dropped without being recorded.
pub const MAX_PLIES: usize = 256;

/// The statistics of one position: how often it was visited, and the sum
/// of the (discounted) results seen from it, in units of `1 / VALUE_SCALE`
/// and from the first player's side.
#[derive(Clone, Copy)]
pub struct Entry<B> {
    pub board: B,
    pub visits: u64,
    pub wins: i64,
}

/// A Monte Carlo tree search engine for one game, with its transposition
/// table keyed by position occupancy.
pub struct Mcts<G: Game> {
    pub game: G,
    pub table: HashMap<u128, Entry<G::Board>>,
    pub keys: Vec<u128>,
    pub n_rollouts: u32,
}

/// The value of a finished game: a win of the first player, of the second,
/// or a draw.
pub open spec fn outcome_value(o: GameOutcome) -> int {
    match o {
        GameOutcome::Winner(Player::P0) => VALUE_SCALE as int,
        GameOutcome::Winner(Player::P1) => -(VALUE_SCALE as int),
        _ => 0,
    }
}

pub open spec fn sat_i64(x: int) -> int {
    if x > i64::MAX {
        i64::MAX as int
    } else if x < i64::MIN {
        i64::MIN as int
    } else {
        x
    }
}

pub open spec fn sat_u64(x: int) -> int {
    if x > u64::MAX {
        u64::MAX as int
    } else {
        x
    }
}

/// The visits and wins that `m` stores for key `k`, or zero when absent.
pub open spec fn stats_in<B>(m: Map<u128, Entry<B>>, k: u128) -> (int, int) {
    if m.contains_key(k) {
        (m[k].visits as int, m[k].wins as int)
    } else {
        (0, 0)
    }
}

/// `e` is the statistics `s` after `c` more visits (saturating), its wins
/// moved by at most `VALUE_SCALE` per visit.
pub open spec fn step_ok<B>(s: (int, int), e: Entry<B>, c: nat) -> bool {
    &&& e.visits == sat_u64(s.0 + c)
    &&& s.1 - c * (VALUE_SCALE as int) <= e.wins <= s.1 + c * (VALUE_SCALE as int)
}

/// No entry of `before` is lost, and every entry of `now` grew from its
/// statistics in `before` (zero when new) by `step_ok`: visits only rise,
/// and wins move by at most `VALUE_SCALE` per visit gained.
pub open spec fn grew_from<B>(now: Map<u128, Entry<B>>, before: Map<u128, Entry<B>>) -> bool {
    &&& before.dom().subset_of(now.dom())
    &&& forall|k: u128| #[trigger] now.contains_key(k) ==> exists|c: nat| step_ok(stats_in(before, k), now[k], c)
}

proof fn lemma_grew_refl<B>(m: Map<u128, Entry<B>>)
    ensures
        grew_from(m, m),
{
    assert forall|k: u128| #[trigger] m.contains_key(k) implies exists|c: nat| step_ok(stats_in(m, k), m[k], c) by {
        assert(step_ok(stats_in(m, k), m[k], 0));
    }
}

proof fn lemma_grew_trans<B>(a: Map<u128, Entry<B>>, b: Map<u128, Entry<B>>, c: Map<u128, Entry<B>>)
    requires
        grew_from(b, a),
        grew_from(c, b),
    ensures
        grew_from(c, a),
{
    assert forall|k: u128| #[trigger] c.contains_key(k) implies exists|n: nat| step_ok(stats_in(a, k), c[k], n) by {
        let c2 = choose|n: nat| step_ok(stats_in(b, k), c[k], n);
        if b.contains_key(k) {
            let c1 = choose|n: nat| step_ok(stats_in(a, k), b[k], n);
            assert(step_ok(stats_in(a, k), c[k], c1 + c2)) by (nonlinear_arith)
                requires
                    step_ok(stats_in(b, k), c[k], c2),
                    step_ok(stats_in(a, k), b[k], c1),
                    stats_in(b, k) == (b[k].visits as int, b[k].wins as int),
                    stats_in(a, k).0 >= 0,
            ;
        } else {
            assert(!a.contains_key(k));
            assert(step_ok(stats_in(a, k), c[k], c2));
        }
    }
}

proof fn lemma_grew_record<B>(
    before: Map<u128, Entry<B>>,
    mid: Map<u128, Entry<B>>,
    now: Map<u128, Entry<B>>,
    k: u128,
    d: int,
)
    requires
        grew_from(mid, before),
        now.dom() == mid.dom().insert(k),
        now[k].visits == sat_u64(stats_in(mid, k).0 + 1),
        now[k].wins == sat_i64(stats_in(mid, k).1 + d),
        -(VALUE_SCALE as int) <= d <= VALUE_SCALE,
        forall|q: u128| q != k && #[trigger] mid.contains_key(q) ==> now[q] == mid[q],
    ensures
        grew_from(now, before),
{
    assert forall|q: u128| #[trigger] now.contains_key(q) implies exists|n: nat| step_ok(stats_in(before, q), now[q], n) by {
        if q != k {
            assert(mid.contains_key(q));
            let c = choose|n: nat| step_ok(stats_in(before, q), mid[q], n);
            assert(step_ok(stats_in(before, q), now[q], c));
        } else if mid.contains_key(k) {
            let c = choose|n: nat| step_ok(stats_in(before, k), mid[k], n);
            assert(step_ok(stats_in(before, k), now[k], c + 1)) by (nonlinear_arith)
                requires
                    step_ok(stats_in(before, k), mid[k], c),
                    stats_in(mid, k) == (mid[k].visits as int, mid[k].wins as int),
                    now[k].visits == sat_u64(stats_in(mid, k).0 + 1),
                    now[k].wins == sat_i64(stats_in(mid, k).1 + d),
                    -(VALUE_SCALE as int) <= d <= VALUE_SCALE,
                    i64::MIN <= mid[k].wins <= i64::MAX,
                    stats_in(before, k).0 >= 0,
            ;
        } else {
            assert(!before.contains_key(k));
            assert(step_ok(stats_in(before, k), now[k], 1));
        }
    }
}

/// `w` after `n` saturating additions of `d`.
pub open spec fn sat_repeat(w: int, d: int, n: nat) -> int
    decreases n,
{
    if n == 0 {
        w
    } else {
        sat_i64(sat_repeat(w, d, (n - 1) as nat) + d)
    }
}

/// Below every selection score.
pub open spec fn no_score() -> int {
    -0x1_0000_0000_0000_0000_0000_0000_0000
}

impl<G: Game> Mcts<G> {
    /// The table and its key list agree; entries are keyed by their board
    /// and have been visited.
    pub open spec fn wf(&self) -> bool {
        &&& self.game.valid()
        &&& self.keys@.no_duplicates()
        &&& forall|k: u128| self.table@.contains_key(k) <==> self.keys@.contains(k)
        &&& forall|k: u128| #[trigger] self.table@.contains_key(k) ==> self.game.key_of(self.table@[k].board) == k
            && self.table@[k].visits >= 1
    }

    pub open spec fn visits_of(&self, b: G::Board) -> int {
        if self.table@.contains_key(self.game.key_of(b)) {
            self.table@[self.game.key_of(b)].visits as int
        } else {
            -1
        }
    }

    /// The selection score of playing `m` at `state` (see `ucb_spec`); a
    /// child without statistics scores below every other.
    pub open spec fn child_score(&self, state: G::Board, m: u8) -> int {
        let child = self.game.key_of(self.game.after(state, m));
        let parent = if self.table@.contains_key(self.game.key_of(state)) {
            self.table@[self.game.key_of(state)].visits as nat
        } else {
            1
        };
        if self.table@.contains_key(child) {
            ucb_spec(
                parent,
                self.table@[child].visits as nat,
                self.table@[child].wins as int,
                if self.game.turn_of(state) == Player::P0 { 1 } else { -1 },
            )
        } else {
            no_score()
        }
    }

    /// The stored state of the engine, other than its table, is that of `o`.
    pub open spec fn same_setup(&self, o: &Self) -> bool {
        &&& self.game == o.game
        &&& self.n_rollouts == o.n_rollouts
    }

    /// An engine with an empty table and the given rollout budget.
    pub fn new(game: G, n_rollouts: u32) -> (r: Self)
        requires
            game.valid(),
        ensures
            r.wf(),
            r.game == game,
            r.n_rollouts == n_rollouts,
            r.table@.is_empty(),
    {
        let r = Mcts { game, table: HashMap::new(), keys: Vec::new(), n_rollouts };
        assert(r.table@ =~= Map::empty());
        r
    }

    /// Empties the table.
    pub fn reset_game_specific_state(&mut self)
        requires
            old(self).wf(),
        ensures
            final(self).wf(),
            final(self).same_setup(old(self)),
            final(self).table@.is_empty(),
    {
        self.table.clear();
        self.keys = Vec::new();
        assert(self.table@ =~= Map::empty());
    }

    /// Adds one visit and `delta` to the statistics of `b`, creating them
    /// when absent. Both counters saturate.
    pub fn record(&mut self, b: G::Board, delta: i64)
        requires
            old(self).wf(),
        ensures
            final(self).wf(),
            final(self).same_setup(old(self)),
            final(self).table@.dom() == old(self).table@.dom().insert(old(self).game.key_of(b)),
            ({
                let k = old(self).game.key_of(b);
                let (v, w) = if old(self).table@.contains_key(k) {
                    (old(self).table@[k].visits as int, old(self).table@[k].wins as int)
                } else {
                    (0int, 0int)
                };
                &&& final(self).table@[k].visits == sat_u64(v + 1)
                &&& final(self).table@[k].wins == sat_i64(w + delta)
                &&& final(self).table@[k].board == if old(self).table@.contains_key(k) {
                    old(self).table@[k].board
                } else {
                    b
                }
            }),
            forall|k: u128| k != old(self).game.key_of(b) && #[trigger] old(self).table@.contains_key(k)
                ==> final(self).table@[k] == old(self).table@[k],
    {
        let k = self.game.key(b);
        let ghost keys_before = self.keys@;
        let ghost was_new = !self.table@.contains_key(k);
        let (board, v, w) = match self.table.get(&k) {
            Some(e) => (e.board, e.visits, e.wins),
            None => {
                proof {
                    assert(!self.keys@.contains(k));
                }
                self.keys.push(k);
                (b, 0u64, 0i64)
            },
        };
        let nv: u64 = if v < u64::MAX { v + 1 } else { v };
        let sum: i128 = w as i128 + delta as i128;
        let nw: i64 = if sum > i64::MAX as i128 {
            i64::MAX
        } else if sum < i64::MIN as i128 {
            i64::MIN
        } else {
            sum as i64
        };
        self.table.insert(k, Entry { board, visits: nv, wins: nw });
        proof {
            assert(self.table@.dom() =~= old(self).table@.dom().insert(k));
            assert forall|q: u128| self.table@.contains_key(q) <==> self.keys@.contains(q) by {
                if was_new {
                    assert(self.keys@ == keys_before.push(k));
                    lemma_push_contains(keys_before, k, q);
                } else {
                    assert(self.keys@ == keys_before);
                }
            }
        }
    }

    /// Every afterstate of `state` has statistics.
    pub fn is_expanded(&self, state: G::Board) -> (r: bool)
        requires
            self.wf(),
            self.game.wf(state),
            self.game.outcome_of(state) == GameOutcome::Ongoing,
        ensures
            r == forall|m: u8| self.game.is_legal(state, m)
                ==> self.table@.contains_key(self.game.key_of(#[trigger] self.game.after(state, m))),
    {
        let moves = self.game.legal_moves(state);
        let mut i: usize = 0;
        while i < moves.len()
            invariant
                self.wf(),
                self.game.wf(state),
                self.game.outcome_of(state) == GameOutcome::Ongoing,
                i <= moves@.len(),
                forall|j: int| 0 <= j < moves@.len() ==> self.game.is_legal(state, #[trigger] moves@[j]),
                forall|m: u8| self.game.is_legal(state, m) ==> moves@.contains(m),
                forall|j: int| 0 <= j < i ==> self.table@.contains_key(self.game.key_of(self.game.after(state, #[trigger] moves@[j]))),
            decreases moves@.len() - i,
        {
            let child = self.game.apply_move(state, moves[i]);
            let k = self.game.key(child);
            if !self.table.contains_key(&k) {
                return false;
            }
            i = i + 1;
        }
        proof {
            assert forall|m: u8| self.game.is_legal(state, m) implies self.table@.contains_key(
                self.game.key_of(#[trigger] self.game.after(state, m))) by {
                assert(moves@.contains(m));
                let j = choose|j: int| 0 <= j < moves@.len() && moves@[j] == m;
                assert(self.table@.contains_key(self.game.key_of(self.game.after(state, moves@[j]))));
            }
        }
        true
    }

    /// The legal move of `state` with the highest selection score
    /// (`child_score`); of equal scores the last in move order.
    pub fn ucb_choice(&self, state: G::Board) -> (r: u8)
        requires
            self.wf(),
            self.game.wf(state),
            self.game.outcome_of(state) == GameOutcome::Ongoing,
        ensures
            self.game.is_legal(state, r),
            forall|m: u8| self.game.is_legal(state, m) ==> #[trigger] self.child_score(state, m)
                <= self.child_score(state, r),
            forall|m: u8| self.game.is_legal(state, m) && m > r ==> #[trigger] self.child_score(state, m)
                < self.child_score(state, r),
    {
        let sk = self.game.key(state);
        let parent: u64 = match self.table.get(&sk) {
            Some(e) => e.visits,
            None => 1,
        };
        let first = self.game.whose_turn(state) == Player::P0;
        let moves = self.game.legal_moves(state);
        let mut best: u8 = moves[0];
        let mut best_score: i128 = -0x1_0000_0000_0000_0000_0000_0000_0000;
        let ghost mut bi: int = 0;
        let mut i: usize = 0;
        while i < moves.len()
            invariant
                self.wf(),
                self.game.wf(state),
                self.game.outcome_of(state) == GameOutcome::Ongoing,
                sk == self.game.key_of(state),
                parent as nat == (if self.table@.contains_key(sk) { self.table@[sk].visits as nat } else { 1 }),
                parent >= 1,
                first == (self.game.turn_of(state) == Player::P0),
                i <= moves@.len(),
                forall|j: int| 0 <= j < moves@.len() ==> self.game.is_legal(state, #[trigger] moves@[j]),
                forall|m: u8| self.game.is_legal(state, m) ==> moves@.contains(m),
                self.game.is_legal(state, best),
                i > 0 ==> best_score == self.child_score(state, best),
                i == 0 ==> best_score == no_score() && best == moves@[0],
                forall|j: int| 0 <= j < i ==> #[trigger] self.child_score(state, moves@[j]) <= best_score,
                forall|p: int, q: int| 0 <= p < q < moves@.len() ==> moves@[p] < moves@[q],
                i > 0 ==> 0 <= bi < i && moves@[bi] == best,
                forall|j: int| bi < j < i ==> #[trigger] self.child_score(state, moves@[j]) < best_score,
            decreases moves@.len() - i,
        {
            let m = moves[i];
            let child = self.game.apply_move(state, m);
            let ck = self.game.key(child);
            let score: i128 = match self.table.get(&ck) {
                Some(e) => ucb_score(parent, e.visits, e.wins, first),
                None => -0x1_0000_0000_0000_0000_0000_0000_0000,
            };
            if score >= best_score {
                best = m;
                best_score = score;
                proof {
                    bi = i as int;
                }
            }
            i = i + 1;
        }
        proof {
            assert forall|m: u8| self.game.is_legal(state, m) && m > best implies #[trigger] self.child_score(state, m)
                < self.child_score(state, best) by {
                assert(moves@.contains(m));
                let j = choose|j: int| 0 <= j < moves@.len() && moves@[j] == m;
                if j <= bi {
                    if j < bi {
                        assert(moves@[j] < moves@[bi]);
                    }
                }
            }
            assert forall|m: u8| self.game.is_legal(state, m) implies #[trigger] self.child_score(state, m)
                <= self.child_score(state, best) by {
                assert(moves@.contains(m));
                let j = choose|j: int| 0 <= j < moves@.len() && moves@[j] == m;
                assert(0 <= j < i);
                assert(self.child_score(state, moves@[j]) <= best_score);
            }
        }
        best
    }

    /// Every entry not in `before` is the root's or that of a position one
    /// move after it that wins at once for the side to move.
    pub open spec fn only_win_keys(&self, before: Map<u128, Entry<G::Board>>, root: G::Board) -> bool {
        forall|k: u128| #[trigger] self.table@.contains_key(k) ==> before.contains_key(k) || k == self.game.key_of(root)
            || exists|m: u8| wins_at_once(&self.game, root, m) && k == self.game.key_of(self.game.after(root, m))
    }

    /// Every afterstate of `s` has statistics.
    pub open spec fn expanded_spec(&self, s: G::Board) -> bool {
        forall|m: u8| self.game.is_legal(s, m) ==> self.table@.contains_key(self.game.key_of(#[trigger] self.game.after(s, m)))
    }

    /// Every entry that is new or changed since `before` is that of a
    /// position with at most `bound` empty cells.
    pub open spec fn touched_below(&self, before: Map<u128, Entry<G::Board>>, bound: nat) -> bool {
        forall|k: u128| #[trigger] self.table@.contains_key(k) && (!before.contains_key(k) || self.table@[k] != before[k])
            ==> self.game.moves_left(self.table@[k].board) <= bound
    }

    /// The visits and wins stored for key `k`, or zero when absent.
    pub open spec fn stats_of(&self, k: u128) -> (int, int) {
        if self.table@.contains_key(k) {
            (self.table@[k].visits as int, self.table@[k].wins as int)
        } else {
            (0, 0)
        }
    }

    /// Plays one playout from `root_state` and records it: every position
    /// of the finished playout gets one visit and the game's value
    /// (`outcome_value`), undiscounted. At each ply a move that wins at once
    /// for the side to move is taken; else one is drawn uniformly from the
    /// moves that do not hand the opponent a win, or from all moves when
    /// none is left. Whatever is drawn, the root gains exactly one visit and
    /// its wins move by at most `VALUE_SCALE`; a finished root gains its own
    /// value and nothing else changes.
    pub fn playout(&mut self, root_state: G::Board)
        requires
            old(self).wf(),
            old(self).game.wf(root_state),
        ensures
            final(self).wf(),
            final(self).same_setup(old(self)),
            old(self).table@.dom().subset_of(final(self).table@.dom()),
            grew_from(final(self).table@, old(self).table@),
            final(self).touched_below(old(self).table@, old(self).game.moves_left(root_state)),
            old(self).game.outcome_of(root_state) == GameOutcome::Ongoing && (exists|m: u8| wins_at_once(&old(self).game,
                root_state, m)) ==> final(self).only_win_keys(old(self).table@, root_state),
            ({
                let k = old(self).game.key_of(root_state);
                let (v0, w0) = old(self).stats_of(k);
                let (v1, w1) = final(self).stats_of(k);
                &&& final(self).table@.contains_key(k)
                &&& v1 == sat_u64(v0 + 1)
                &&& w0 - VALUE_SCALE <= w1 <= w0 + VALUE_SCALE
                &&& old(self).game.outcome_of(root_state) != GameOutcome::Ongoing ==> {
                    &&& w1 == sat_i64(w0 + outcome_value(old(self).game.outcome_of(root_state)))
                    &&& final(self).table@.dom() == old(self).table@.dom().insert(k)
                    &&& forall|q: u128| q != k && #[trigger] old(self).table@.contains_key(q)
                        ==> final(self).table@[q] == old(self).table@[q]
                }
            }),
    {
        proof {
            self.game.lemma_moves_left(root_state, root_state);
        }
        let ghost root_left = self.game.moves_left(root_state);
        let ghost win_exists = self.game.outcome_of(root_state) == GameOutcome::Ongoing && exists|m: u8|
            wins_at_once(&old(self).game, root_state, m);
        let mut states: Vec<G::Board> = Vec::new();
        states.push(root_state);
        let mut value: i64 = 0;
        let mut done = false;
        let mut ply: usize = 0;
        while ply < MAX_PLIES && !done
            invariant
                self.wf(),
                self.same_setup(old(self)),
                self.table@ == old(self).table@,
                root_left == self.game.moves_left(root_state),
                root_left <= 64,
                states@.len() > 0,
                states@[0] == root_state,
                forall|j: int| 0 <= j < states@.len() ==> self.game.wf(#[trigger] states@[j]),
                forall|j: int| 1 <= j < states@.len() ==> self.game.moves_left(#[trigger] states@[j]) < root_left,
                states@.len() + self.game.moves_left(states@.last()) <= root_left + 1,
                !done ==> states@.len() == ply + 1,
                done ==> -(VALUE_SCALE as int) <= value <= VALUE_SCALE,
                self.game.outcome_of(root_state) != GameOutcome::Ongoing ==> states@.len() == 1 && (ply > 0 ==> done)
                    && (done ==> value == outcome_value(self.game.outcome_of(root_state))),
                win_exists == (self.game.outcome_of(root_state) == GameOutcome::Ongoing && exists|m: u8|
                    wins_at_once(&old(self).game, root_state, m)),
                win_exists ==> states@.len() <= 2,
                win_exists && states@.len() == 2 ==> exists|m: u8| wins_at_once(&old(self).game, root_state, m)
                    && states@[1] == self.game.after(root_state, m),
            decreases MAX_PLIES - ply,
        {
            let state = states[states.len() - 1];
            match self.game.outcome(state) {
                GameOutcome::Ongoing => {
                    let next = self.game.afterstates(state);
                    let mover = self.game.whose_turn(state);
                    let outs = outcomes_of(&self.game, &next);
                    let candidates = playout_candidates(&outs, mover);
                    let roll = random_index(candidates.len());
                    let i = playout_pick(&outs, mover, &candidates, roll);
                    proof {
                        lemma_first_win_in_range(outs@, mover, 0);
                        if win_exists {
                            assert(states@.len() == 1) by {
                                if states@.len() == 2 {
                                    let m = choose|m: u8| wins_at_once(&old(self).game, root_state, m)
                                        && states@[1] == self.game.after(root_state, m);
                                }
                            }
                            let m = choose|m: u8| wins_at_once(&old(self).game, root_state, m);
                            let q = choose|q: int| 0 <= q < next@.len() && self.game.key_of(#[trigger] next@[q])
                                == self.game.key_of(self.game.after(root_state, m));
                            self.game.lemma_moves_left(next@[q], self.game.after(root_state, m));
                            assert(outs@[q] == GameOutcome::Winner(mover));
                            lemma_first_win_found(outs@, mover, 0, q);
                            assert(states@[0] == root_state && state == root_state);
                            assert(self.game.is_afterstate(state, next@[i as int]));
                            self.game.lemma_is_afterstate(state, next@[i as int]);
                            assert(exists|m2: u8| self.game.is_legal(state, m2) && next@[i as int] == self.game.after(state, m2));
                            let m2 = choose|m2: u8| self.game.is_legal(state, m2) && next@[i as int] == self.game.after(state, m2);
                            assert(wins_at_once(&old(self).game, root_state, m2));
                        }
                    }
                    states.push(next[i]);
                },
                GameOutcome::Winner(Player::P0) => {
                    value = VALUE_SCALE as i64;
                    done = true;
                },
                GameOutcome::Winner(Player::P1) => {
                    value = -(VALUE_SCALE as i64);
                    done = true;
                },
                _ => {
                    value = 0;
                    done = true;
                },
            }
            ply = ply + 1;
        }
        proof {
            if !done {
                assert(states@.len() == MAX_PLIES + 1);
            }
        }
        let ghost k = self.game.key_of(root_state);
        let ghost s0 = old(self).stats_of(k);
        proof {
            lemma_grew_refl(self.table@);
        }
        let mut j: usize = 0;
        while j < states.len()
            invariant
                self.wf(),
                self.same_setup(old(self)),
                k == self.game.key_of(root_state),
                s0 == old(self).stats_of(k),
                root_left == self.game.moves_left(root_state),
                states@.len() > 0,
                states@[0] == root_state,
                forall|q: int| 1 <= q < states@.len() ==> self.game.moves_left(#[trigger] states@[q]) < root_left,
                -(VALUE_SCALE as int) <= value <= VALUE_SCALE,
                j <= states@.len(),
                old(self).table@.dom().subset_of(self.table@.dom()),
                j == 0 ==> self.table@ == old(self).table@,
                j > 0 ==> self.table@.contains_key(k) && self.stats_of(k) == (sat_u64(s0.0 + 1), sat_i64(s0.1 + value)),
                j > 0 ==> self.table@.dom() == old(self).table@.dom().insert(k) || states@.len() > 1,
                j > 0 && states@.len() == 1 ==> forall|q: u128| q != k && #[trigger] old(self).table@.contains_key(q)
                    ==> self.table@[q] == old(self).table@[q],
                self.game.outcome_of(root_state) != GameOutcome::Ongoing ==> states@.len() == 1
                    && value == outcome_value(self.game.outcome_of(root_state)),
                grew_from(self.table@, old(self).table@),
                self.touched_below(old(self).table@, root_left),
                forall|q: u128| #[trigger] self.table@.contains_key(q) ==> old(self).table@.contains_key(q) || exists|i: int|
                    0 <= i < j && q == self.game.key_of(states@[i]),
                win_exists ==> states@.len() <= 2,
                win_exists && states@.len() == 2 ==> exists|m: u8| wins_at_once(&old(self).game, root_state, m)
                    && states@[1] == self.game.after(root_state, m),
            decreases states@.len() - j,
        {
            proof {
                if j > 0 {
                    self.game.lemma_moves_left(states@[j as int], root_state);
                }
                if j == 0 {
                    lemma_grew_refl(self.table@);
                }
            }
            let ghost mid = self.table@;
            self.record(states[j], value);
            proof {
                let q = self.game.key_of(states@[j as int]);
                if mid.contains_key(q) {
                    self.game.lemma_moves_left(mid[q].board, states@[j as int]);
                }
                self.game.lemma_moves_left(states@[j as int], root_state);
                lemma_grew_record(old(self).table@, mid, self.table@, self.game.key_of(states@[j as int]), value as int);
                assert forall|q: u128| #[trigger] self.table@.contains_key(q) implies old(self).table@.contains_key(q)
                    || exists|i: int| 0 <= i < j + 1 && q == self.game.key_of(states@[i]) by {
                    if q != self.game.key_of(states@[j as int]) {
                        assert(mid.contains_key(q));
                    }
                }
            }
            j = j + 1;
        }
        proof {
            if win_exists {
                assert forall|q: u128| #[trigger] self.table@.contains_key(q) implies old(self).table@.contains_key(q)
                    || q == self.game.key_of(root_state) || exists|m: u8| wins_at_once(&old(self).game, root_state, m)
                    && q == self.game.key_of(self.game.after(root_state, m)) by {
                    if !old(self).table@.contains_key(q) {
                        let i = choose|i: int| 0 <= i < states@.len() && q == self.game.key_of(states@[i]);
                        if i == 1 {
                            let m = choose|m: u8| wins_at_once(&old(self).game, root_state, m) && states@[1] == self.game.after(root_state, m);
                        }
                    }
                }
            }
        }
    }

    /// Plays `n` playouts from `root_state` (see `playout`). Whatever is
    /// drawn, the root gains exactly `n` visits (saturating) and its wins
    /// move by at most `n * VALUE_SCALE`; every entry only gains visits,
    /// with its wins moving by at most `VALUE_SCALE` per visit; when the
    /// side to move can win at once, the only positions recorded are the
    /// root and such winning afterstates; a finished root gains `n` times
    /// its value (saturating at each step) and no other entry changes.
    pub fn do_random_rollouts(&mut self, root_state: G::Board, n: u32)
        requires
            old(self).wf(),
            old(self).game.wf(root_state),
        ensures
            final(self).wf(),
            final(self).same_setup(old(self)),
            old(self).table@.dom().subset_of(final(self).table@.dom()),
            grew_from(final(self).table@, old(self).table@),
            final(self).touched_below(old(self).table@, old(self).game.moves_left(root_state)),
            n == 0 ==> final(self).table@ == old(self).table@,
            old(self).game.outcome_of(root_state) == GameOutcome::Ongoing && (exists|m: u8| wins_at_once(&old(self).game,
                root_state, m)) ==> final(self).only_win_keys(old(self).table@, root_state),
            ({
                let k = old(self).game.key_of(root_state);
                let (v0, w0) = old(self).stats_of(k);
                let (v1, w1) = final(self).stats_of(k);
                &&& n > 0 ==> final(self).table@.contains_key(k)
                &&& v1 == sat_u64(v0 + n)
                &&& w0 - n * VALUE_SCALE <= w1 <= w0 + n * VALUE_SCALE
                &&& old(self).game.outcome_of(root_state) != GameOutcome::Ongoing ==> {
                    &&& w1 == sat_repeat(w0, outcome_value(old(self).game.outcome_of(root_state)), n as nat)
                    &&& n > 0 ==> final(self).table@.dom() == old(self).table@.dom().insert(k)
                    &&& forall|q: u128| q != k && #[trigger] old(self).table@.contains_key(q)
                        ==> final(self).table@[q] == old(self).table@[q]
                }
            }),
    {
        let ghost k = self.game.key_of(root_state);
        let ghost s0 = self.stats_of(k);
        proof {
            lemma_grew_refl(self.table@);
        }
        let mut r: u32 = 0;
        while r < n
            invariant
                self.wf(),
                self.same_setup(old(self)),
                self.game.wf(root_state),
                k == self.game.key_of(root_state),
                s0 == old(self).stats_of(k),
                r <= n,
                old(self).table@.dom().subset_of(self.table@.dom()),
                grew_from(self.table@, old(self).table@),
                self.touched_below(old(self).table@, old(self).game.moves_left(root_state)),
                r == 0 ==> self.table@ == old(self).table@,
                self.game.outcome_of(root_state) == GameOutcome::Ongoing && (exists|m: u8| wins_at_once(&old(self).game,
                    root_state, m)) ==> self.only_win_keys(old(self).table@, root_state),
                r > 0 ==> self.table@.contains_key(k),
                self.stats_of(k).0 == sat_u64(s0.0 + r),
                s0.1 - r * VALUE_SCALE <= self.stats_of(k).1 <= s0.1 + r * VALUE_SCALE,
                self.game.outcome_of(root_state) != GameOutcome::Ongoing ==> {
                    &&& self.stats_of(k).1 == sat_repeat(s0.1, outcome_value(self.game.outcome_of(root_state)), r as nat)
                    &&& r > 0 ==> self.table@.dom() == old(self).table@.dom().insert(k)
                    &&& r == 0 ==> self.table@ == old(self).table@
                    &&& forall|q: u128| q != k && #[trigger] old(self).table@.contains_key(q)
                        ==> self.table@[q] == old(self).table@[q]
                },
            decreases n - r,
        {
            let ghost before = self.table@;
            self.playout(root_state);
            proof {
                lemma_grew_trans(old(self).table@, before, self.table@);
                assert forall|q: u128| #[trigger] self.table@.contains_key(q) && (!old(self).table@.contains_key(q)
                    || self.table@[q] != old(self).table@[q]) implies self.game.moves_left(self.table@[q].board)
                    <= old(self).game.moves_left(root_state) by {
                    if before.contains_key(q) && self.table@[q] == before[q] {
                        assert(before.contains_key(q) && (!old(self).table@.contains_key(q) || before[q] != old(self).table@[q]));
                    }
                }
                if self.game.outcome_of(root_state) != GameOutcome::Ongoing {
                    assert(self.table@.dom() =~= old(self).table@.dom().insert(k));
                }
            }
            r = r + 1;
        }
    }

    /// Drops the statistics of every position that `root_state` conflicts
    /// with (`Game::conflict`); the others stay as they are.
    pub fn clean_table(&mut self, root_state: G::Board)
        requires
            old(self).wf(),
        ensures
            final(self).wf(),
            final(self).same_setup(old(self)),
            forall|k: u128| #[trigger] final(self).table@.contains_key(k) <==> old(self).table@.contains_key(k)
                && !old(self).game.conflict(old(self).table@[k].board, root_state),
            forall|k: u128| #[trigger] final(self).table@.contains_key(k) ==> final(self).table@[k] == old(self).table@[k],
    {
        let mut old_keys: Vec<u128> = Vec::new();
        std::mem::swap(&mut old_keys, &mut self.keys);
        let ghost t0 = self.table@;
        proof {
            assert forall|k: u128| self.table@.contains_key(k) <==> (t0.contains_key(k) && (self.keys@.contains(k)
                || pending(old_keys@, 0, k))) by {
                if t0.contains_key(k) {
                    assert(old_keys@.contains(k));
                }
            }
        }
        let mut i: usize = 0;
        while i < old_keys.len()
            invariant
                self.same_setup(old(self)),
                self.game.valid(),
                t0 == old(self).table@,
                old_keys@ == old(self).keys@,
                old_keys@.no_duplicates(),
                forall|k: u128| t0.contains_key(k) <==> old_keys@.contains(k),
                i <= old_keys@.len(),
                self.keys@.no_duplicates(),
                forall|k: u128| #[trigger] self.keys@.contains(k) ==> exists|j: int| 0 <= j < i && old_keys@[j] == k,
                forall|k: u128| #![trigger self.table@.contains_key(k)] self.table@.contains_key(k) <==> (t0.contains_key(k) && (self.keys@.contains(k)
                    || pending(old_keys@, i as int, k))),
                forall|k: u128| #[trigger] self.table@.contains_key(k) ==> self.table@[k] == t0[k],
                forall|j: int| 0 <= j < i ==> (self.keys@.contains(#[trigger] old_keys@[j]) <==> !self.game.conflict(
                    t0[old_keys@[j]].board, root_state)),
            decreases old_keys@.len() - i,
        {
            let k = old_keys[i];
            let ghost keys_before = self.keys@;
            let ghost table_before = self.table@;
            proof {
                assert(t0.contains_key(k)) by {
                    assert(old_keys@[i as int] == k);
                    assert(old_keys@.contains(k));
                }
                assert(table_before.contains_key(k));
            }
            let drop = match self.table.get(&k) {
                Some(e) => self.game.unreachable_from(e.board, root_state),
                None => false,
            };
            if drop {
                self.table.remove(&k);
            } else {
                self.keys.push(k);
            }
            proof {
                assert(old_keys@.contains(k));
                assert(!keys_before.contains(k)) by {
                    if keys_before.contains(k) {
                        let j = choose|j: int| 0 <= j < i && old_keys@[j] == k;
                        assert(old_keys@[j] == old_keys@[i as int]);
                    }
                }
                assert forall|q: u128| self.keys@.contains(q) <==> (keys_before.contains(q) || (q == k && !drop)) by {
                    if !drop {
                        lemma_push_contains(keys_before, k, q);
                    }
                }
                assert(drop == self.game.conflict(t0[k].board, root_state));
                assert(drop ==> self.table@ == table_before.remove(k));
                assert(!drop ==> self.table@ == table_before);
                assert forall|q: u128| #[trigger] self.keys@.contains(q) implies exists|j: int| 0 <= j < i + 1 && old_keys@[j] == q by {
                    if q != k {
                        assert(keys_before.contains(q));
                    }
                }
                assert forall|j: int| 0 <= j < i + 1 implies (self.keys@.contains(#[trigger] old_keys@[j]) <==> !self.game.conflict(
                    t0[old_keys@[j]].board, root_state)) by {
                    if j < i {
                        assert(old_keys@[j] != old_keys@[i as int]);
                    }
                }
                assert forall|q: u128| #![trigger self.table@.contains_key(q)] self.table@.contains_key(q) <==> (t0.contains_key(q) && (self.keys@.contains(q)
                    || pending(old_keys@, i + 1, q))) by {
                    assert(table_before.contains_key(q) <==> (t0.contains_key(q) && (keys_before.contains(q)
                        || pending(old_keys@, i as int, q))));
                    if q != k {
                        assert(self.table@.contains_key(q) == table_before.contains_key(q));
                        assert(self.keys@.contains(q) == keys_before.contains(q));
                        if pending(old_keys@, i as int, q) {
                            let j = choose|j: int| i <= j < old_keys@.len() && old_keys@[j] == q;
                            assert(j != i);
                            assert(i + 1 <= j < old_keys@.len() && old_keys@[j] == q);
                        }
                    } else {
                        if pending(old_keys@, i + 1, q) {
                            let j = choose|j: int| i + 1 <= j < old_keys@.len() && old_keys@[j] == q;
                            assert(old_keys@[j] == old_keys@[i as int]);
                            assert(false);
                        }
                        if drop {
                            assert(!self.table@.contains_key(k));
                            assert(!self.keys@.contains(k));
                        } else {
                            assert(self.table@.contains_key(k));
                            assert(self.keys@.contains(k));
                        }
                    }
                }
            }
            i = i + 1;
        }
        proof {
            assert forall|k: u128| self.table@.contains_key(k) <==> self.keys@.contains(k) by {
                assert(self.table@.contains_key(k) <==> (t0.contains_key(k) && (self.keys@.contains(k)
                    || pending(old_keys@, i as int, k))));
                if self.keys@.contains(k) {
                    let j = choose|j: int| 0 <= j < i && old_keys@[j] == k;
                    assert(old_keys@.contains(k));
                    assert(t0.contains_key(k));
                }
            }
            assert forall|k: u128| #[trigger] self.table@.contains_key(k) <==> old(self).table@.contains_key(k)
                && !old(self).game.conflict(old(self).table@[k].board, root_state) by {
                if t0.contains_key(k) {
                    assert(old_keys@.contains(k));
                    let j = choose|j: int| 0 <= j < old_keys@.len() && old_keys@[j] == k;
                    assert(self.keys@.contains(old_keys@[j]) <==> !self.game.conflict(t0[old_keys@[j]].board, root_state));
                }
            }
        }
    }

    /// The legal move of `root_state` whose position has the most visits
    /// (a position without statistics counts -1); of equal counts the last
    /// in move order.
    pub fn best_by_visits(&self, root_state: G::Board) -> (r: u8)
        requires
            self.wf(),
            self.game.wf(root_state),
            self.game.outcome_of(root_state) == GameOutcome::Ongoing,
        ensures
            self.game.is_legal(root_state, r),
            forall|m: u8| self.game.is_legal(root_state, m) ==> #[trigger] self.visits_of(self.game.after(root_state, m))
                <= self.visits_of(self.game.after(root_state, r)),
            forall|m: u8| self.game.is_legal(root_state, m) && m > r ==> #[trigger] self.visits_of(self.game.after(root_state, m))
                < self.visits_of(self.game.after(root_state, r)),
    {
        let moves = self.game.legal_moves(root_state);
        let mut best: u8 = moves[0];
        let mut best_score: i128 = -2;
        let ghost mut bi: int = 0;
        let mut i: usize = 0;
        while i < moves.len()
            invariant
                self.wf(),
                self.game.wf(root_state),
                self.game.outcome_of(root_state) == GameOutcome::Ongoing,
                i <= moves@.len(),
                forall|j: int| 0 <= j < moves@.len() ==> self.game.is_legal(root_state, #[trigger] moves@[j]),
                forall|m: u8| self.game.is_legal(root_state, m) ==> moves@.contains(m),
                self.game.is_legal(root_state, best),
                i > 0 ==> best_score == self.visits_of(self.game.after(root_state, best)),
                i == 0 ==> best_score == -2 && best == moves@[0],
                forall|j: int| 0 <= j < i ==> #[trigger] self.visits_of(self.game.after(root_state, moves@[j])) <= best_score,
                forall|p: int, q: int| 0 <= p < q < moves@.len() ==> moves@[p] < moves@[q],
                i > 0 ==> 0 <= bi < i && moves@[bi] == best,
                forall|j: int| bi < j < i ==> #[trigger] self.visits_of(self.game.after(root_state, moves@[j])) < best_score,
            decreases moves@.len() - i,
        {
            let m = moves[i];
            let child = self.game.apply_move(root_state, m);
            let ck = self.game.key(child);
            let score: i128 = match self.table.get(&ck) {
                Some(e) => e.visits as i128,
                None => -1,
            };
            if score >= best_score {
                best = m;
                best_score = score;
                proof {
                    bi = i as int;
                }
            }
            i = i + 1;
        }
        proof {
            assert forall|m: u8| self.game.is_legal(root_state, m) && m > best implies #[trigger] self.visits_of(self.game.after(root_state, m))
                < self.visits_of(self.game.after(root_state, best)) by {
                assert(moves@.contains(m));
                let j = choose|j: int| 0 <= j < moves@.len() && moves@[j] == m;
                if j <= bi {
                    if j < bi {
                        assert(moves@[j] < moves@[bi]);
                    }
                }
            }
            assert forall|m: u8| self.game.is_legal(root_state, m) implies #[trigger] self.visits_of(self.game.after(root_state, m))
                <= self.visits_of(self.game.after(root_state, best)) by {
                assert(moves@.contains(m));
                let j = choose|j: int| 0 <= j < moves@.len() && moves@[j] == m;
                assert(0 <= j < i);
                assert(self.visits_of(self.game.after(root_state, moves@[j])) <= best_score);
            }
        }
        best
    }

    /// Searches from `root_state` and returns the move to play.
    ///
    /// The table is first cleaned against `root_state`. Then, until the
    /// rollout budget is spent or `terminate` (polled before each rollout)
    /// answers true, one rollout descends from the root: at a position
    /// whose afterstates all have statistics, the move of highest selection
    /// score (`ucb_choice`) is played; at any other ongoing position every
    /// afterstate first gets one playout (`do_random_rollouts`). When the
    /// descent reaches a finished game, each position of its path at depth
    /// `d` gets one visit and the game's value (`outcome_value`) weighted by
    /// 0.975 per level (the weight is rounded down at each level). The move
    /// chosen is the legal move whose position has the most visits. Every
    /// rollout reaches a finished game, so when `terminate` never answers
    /// true the root gains exactly `n_rollouts` visits.
    pub fn choose_move<F: Fn() -> bool>(&mut self, root_state: G::Board, terminate: &F) -> (r: u8)
        requires
            old(self).wf(),
            old(self).game.wf(root_state),
            old(self).game.outcome_of(root_state) == GameOutcome::Ongoing,
            terminate.requires(()),
        ensures
            final(self).wf(),
            final(self).same_setup(old(self)),
            final(self).game.is_legal(root_state, r),
            forall|m: u8| final(self).game.is_legal(root_state, m) ==> #[trigger] final(self).visits_of(
                final(self).game.after(root_state, m)) <= final(self).visits_of(final(self).game.after(root_state, r)),
            forall|k: u128| #[trigger] old(self).table@.contains_key(k) && !old(self).game.conflict(
                old(self).table@[k].board, root_state) ==> final(self).table@.contains_key(k),
            (forall|b: bool| terminate.ensures((), b) ==> !b) ==> ({
                let rk = old(self).game.key_of(root_state);
                let v0 = if old(self).table@.contains_key(rk) && !old(self).game.conflict(old(self).table@[rk].board, root_state) {
                    old(self).table@[rk].visits as int
                } else {
                    0
                };
                final(self).stats_of(rk).0 == sat_u64(v0 + old(self).n_rollouts)
            }),
            (old(self).n_rollouts == 0 || forall|b: bool| terminate.ensures((), b) ==> b) ==> {
                &&& forall|k: u128| #[trigger] final(self).table@.contains_key(k) <==> old(self).table@.contains_key(k)
                    && !old(self).game.conflict(old(self).table@[k].board, root_state)
                &&& forall|k: u128| #[trigger] final(self).table@.contains_key(k) ==> final(self).table@[k]
                    == old(self).table@[k]
            },
    {
        self.clean_table(root_state);
        let ghost cleaned = self.table@;
        let ghost rk = self.game.key_of(root_state);
        let ghost rl = self.game.moves_left(root_state);
        let ghost vc = stats_in(cleaned, rk).0;
        proof {
            self.game.lemma_moves_left(root_state, root_state);
        }
        let mut rollout: u32 = 0;
        while rollout < self.n_rollouts
            invariant
                self.wf(),
                self.same_setup(old(self)),
                self.game.wf(root_state),
                self.game.outcome_of(root_state) == GameOutcome::Ongoing,
                terminate.requires(()),
                cleaned.dom().subset_of(self.table@.dom()),
                rollout <= self.n_rollouts,
                rollout == 0 ==> self.table@ == cleaned,
                rollout > 0 ==> !(forall|b: bool| terminate.ensures((), b) ==> b),
                rk == self.game.key_of(root_state),
                rl == self.game.moves_left(root_state),
                rl <= 64,
                vc == stats_in(cleaned, rk).0,
                self.stats_of(rk).0 == sat_u64(vc + rollout),
            ensures
                self.wf(),
                self.same_setup(old(self)),
                cleaned.dom().subset_of(self.table@.dom()),
                self.table@ == cleaned || !(forall|b: bool| terminate.ensures((), b) ==> b),
                self.table@ == cleaned || self.n_rollouts > 0,
                (forall|b: bool| terminate.ensures((), b) ==> !b) ==> self.stats_of(rk).0 == sat_u64(vc + self.n_rollouts),
            decreases self.n_rollouts - rollout,
        {
            let stop = terminate();
            if stop {
                break;
            }
            let ghost rs = self.stats_of(rk);
            let mut states: Vec<G::Board> = Vec::new();
            states.push(root_state);
            let mut sign: i64 = 0;
            let mut done = false;
            let mut steps: usize = 0;
            while steps < MAX_PLIES && !done
                invariant
                    self.wf(),
                    self.same_setup(old(self)),
                    self.game.wf(root_state),
                    cleaned.dom().subset_of(self.table@.dom()),
                    rollout > 0 || !stop,
                    states@.len() > 0,
                    states@.len() <= steps + 1,
                    forall|j: int| 0 <= j < states@.len() ==> self.game.wf(#[trigger] states@[j]),
                    -1 <= sign <= 1,
                    rk == self.game.key_of(root_state),
                    rl == self.game.moves_left(root_state),
                    rl <= 64,
                    self.stats_of(rk) == rs,
                    states@[0] == root_state,
                    forall|j: int| 1 <= j < states@.len() ==> self.game.moves_left(#[trigger] states@[j]) < rl,
                    states@.len() + self.game.moves_left(states@.last()) <= rl + 1,
                    !done ==> steps <= 2 * (states@.len() - 1) + (if self.expanded_spec(states@.last()) { 1int } else { 0int }),
                decreases MAX_PLIES - steps,
            {
                let state = states[states.len() - 1];
                match self.game.outcome(state) {
                    GameOutcome::Ongoing => {
                        if self.is_expanded(state) {
                            let m = self.ucb_choice(state);
                            let next = self.game.apply_move(state, m);
                            states.push(next);
                        } else {
                            let next = self.game.afterstates(state);
                            let mut i: usize = 0;
                            while i < next.len()
                                invariant
                                    self.wf(),
                                    self.same_setup(old(self)),
                                    cleaned.dom().subset_of(self.table@.dom()),
                                    forall|j: int| 0 <= j < next@.len() ==> self.game.wf(#[trigger] next@[j])
                                        && self.game.moves_left(next@[j]) < self.game.moves_left(state),
                                    self.game.moves_left(state) <= rl,
                                    rk == self.game.key_of(root_state),
                                    rl == self.game.moves_left(root_state),
                                    self.stats_of(rk) == rs,
                                    i <= next@.len(),
                                    forall|j: int| 0 <= j < i ==> self.table@.contains_key(self.game.key_of(#[trigger] next@[j])),
                                decreases next@.len() - i,
                            {
                                let ghost before = self.table@;
                                self.do_random_rollouts(next[i], 1);
                                proof {
                                    if self.table@.contains_key(rk) && (!before.contains_key(rk) || self.table@[rk] != before[rk]) {
                                        self.game.lemma_moves_left(self.table@[rk].board, root_state);
                                    }
                                    assert forall|j: int| 0 <= j < i + 1 implies self.table@.contains_key(self.game.key_of(#[trigger] next@[j])) by {
                                        if j < i {
                                            assert(before.contains_key(self.game.key_of(next@[j])));
                                        }
                                    }
                                }
                                i = i + 1;
                            }
                            proof {
                                assert forall|m: u8| self.game.is_legal(state, m) implies self.table@.contains_key(
                                    self.game.key_of(#[trigger] self.game.after(state, m))) by {
                                    let q = choose|q: int| 0 <= q < next@.len() && self.game.key_of(#[trigger] next@[q])
                                        == self.game.key_of(self.game.after(state, m));
                                }
                                assert(self.expanded_spec(state));
                            }
                        }
                    },
                    GameOutcome::Winner(Player::P0) => {
                        sign = 1;
                        done = true;
                    },
                    GameOutcome::Winner(Player::P1) => {
                        sign = -1;
                        done = true;
                    },
                    _ => {
                        sign = 0;
                        done = true;
                    },
                }
                steps = steps + 1;
            }
            proof {
                if !done {
                    assert(states@.len() <= 65);
                }
            }
            if done {
                let mut weight: u64 = VALUE_SCALE;
                let mut depth: usize = 0;
                while depth < states.len()
                    invariant
                        self.wf(),
                        self.same_setup(old(self)),
                        self.game.wf(root_state),
                        weight <= VALUE_SCALE,
                        -1 <= sign <= 1,
                        cleaned.dom().subset_of(self.table@.dom()),
                        rk == self.game.key_of(root_state),
                        rl == self.game.moves_left(root_state),
                        states@.len() > 0,
                        states@[0] == root_state,
                        forall|j: int| 1 <= j < states@.len() ==> self.game.moves_left(#[trigger] states@[j]) < rl,
                        depth <= states@.len(),
                        depth == 0 ==> self.stats_of(rk) == rs,
                        depth > 0 ==> self.stats_of(rk).0 == sat_u64(rs.0 + 1),
                    decreases states@.len() - depth,
                {
                    let w = weight as i64;
                    assert(-1048576 <= sign * w <= 1048576) by (nonlinear_arith)
                        requires
                            -1 <= sign <= 1,
                            0 <= w <= 1048576,
                    ;
                    proof {
                        if depth > 0 {
                            self.game.lemma_moves_left(states@[depth as int], root_state);
                        }
                    }
                    self.record(states[depth], sign * w);
                    weight = discount(weight);
                    depth = depth + 1;
                }
            }
            rollout = rollout + 1;
        }
        self.best_by_visits(root_state)
    }
}

/// `k` is among `keys[i..]`.
pub open spec fn pending(keys: Seq<u128>, i: int, k: u128) -> bool {
    exists|j: int| i <= j < keys.len() && keys[j] == k
}

proof fn lemma_push_contains(s: Seq<u128>, x: u128, q: u128)
    ensures
        s.push(x).contains(q) <==> (s.contains(q) || q == x),
{
    if s.push(x).contains(q) {
        let j = choose|j: int| 0 <= j < s.len() + 1 && s.push(x)[j] == q;
        if j < s.len() {
            assert(s[j] == q);
        }
    }
    if s.contains(q) {
        let j = choose|j: int| 0 <= j < s.len() && s[j] == q;
        assert(s.push(x)[j] == q);
    }
    if q == x {
        assert(s.push(x)[s.len() as int] == x);
    }
}

proof fn lemma_first_win_found(outs: Seq<GameOutcome>, mover: Player, k: nat, i: int)
    requires
        outs.len() <= usize::MAX,
        k <= i < outs.len(),
        outs[i] == GameOutcome::Winner(mover),
    ensures
        crate::playout::first_win_from(outs, mover, k) matches Some(w) && outs[w as int] == GameOutcome::Winner(mover),
    decreases outs.len() - k,
{
    if k < i && outs[k as int] != GameOutcome::Winner(mover) {
        lemma_first_win_found(outs, mover, k + 1, i);
    }
}

proof fn lemma_first_win_in_range(outs: Seq<GameOutcome>, mover: Player, k: nat)
    requires
        outs.len() <= usize::MAX,
    ensures
        crate::playout::first_win_from(outs, mover, k) matches Some(w) ==> k <= w < outs.len(),
    decreases outs.len() - k,
{
    if k < outs.len() {
        lemma_first_win_in_range(outs, mover, k + 1);
    }
}

} // verus!
