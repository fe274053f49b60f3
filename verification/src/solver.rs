//! The move-recommendation engine: one-ply adversarial search whose leaf
//! positions are scored by Monte Carlo random rollouts.
//!
//! Rollout scores are counted in whole rollouts: a position evaluated with
//! `n` trials scores between 0 and `n` won rollouts, the empirical win
//! probability times `n`. All candidate scores share one trial count, so
//! comparing counts compares probabilities.

use crate::board::cell_of;
use crate::board::count_empty;
use crate::board::gravity;
use crate::board::has_four;
use crate::board::is_landing;
use crate::board::legal_step;
use crate::board::lemma_landing_unique;
use crate::board::lemma_move_keeps_gravity;
use crate::board::lemma_move_keeps_no_four;
use crate::board::lemma_move_keeps_pieces;
use crate::board::lemma_count_empty_le_len;
use crate::board::lemma_winning_move_wins;
use crate::board::playout_step;
use crate::board::playout_trace;
use crate::board::lemma_not_winning_move;
use crate::board::lemma_playout_trace_step;
use crate::board::move_applied;
use crate::board::Entity;
use crate::board::Game;
use crate::board::GameError;
use crate::board::Move;
use crate::rng::draw_uniform_index;
use vstd::prelude::*;

verus! {

/// How many rollouts score one leaf position of the search.
pub const NUM_TRIALS: usize = 200;

/// The move-recommendation engine.
pub struct Solver {
    /// Whether a caller wants diagnostic output; the recommended move never
    /// depends on it.
    pub verbose: bool,
}

impl Solver {
    pub fn new(verbose: bool) -> (r: Solver)
        ensures
            r.verbose == verbose,
    {
        Solver { verbose }
    }

    /// All legal moves of `game`: the columns whose top cell is empty, in
    /// ascending column order.
    pub fn choices(&self, game: &Game) -> (r: Vec<Move>)
        requires
            game.wf(),
        ensures
            forall|k: int| 0 <= k < r@.len() ==> game.legal_col((#[trigger] r@[k]).col as int),
            forall|c: int|
                #[trigger] game.legal_col(c) ==> exists|k: int|
                    0 <= k < r@.len() && (#[trigger] r@[k]).col as int == c,
            forall|k1: int, k2: int| 0 <= k1 < k2 < r@.len() ==> r@[k1].col < r@[k2].col,
    {
        let mut r: Vec<Move> = Vec::new();
        let mut c: usize = 0;
        while c < game.width
            invariant
                game.wf(),
                c <= game.width,
                forall|k: int|
                    0 <= k < r@.len() ==> game.legal_col((#[trigger] r@[k]).col as int)
                        && r@[k].col < c,
                forall|c0: int|
                    0 <= c0 < c && #[trigger] game.legal_col(c0) ==> exists|k: int|
                        0 <= k < r@.len() && (#[trigger] r@[k]).col as int == c0,
                forall|k1: int, k2: int| 0 <= k1 < k2 < r@.len() ==> r@[k1].col < r@[k2].col,
            decreases game.width - c,
        {
            let ghost r0 = r@;
            if game.get(0, c) == Entity::Empty {
                let m = Move::new(c);
                r.push(m);
                proof {
                    assert(r@[r@.len() - 1] == m);
                }
            }
            proof {
                assert forall|c0: int| 0 <= c0 < c + 1 && #[trigger] game.legal_col(c0)
                    implies exists|k: int|
                    0 <= k < r@.len() && (#[trigger] r@[k]).col as int == c0 by {
                    if c0 == c as int {
                        if game.cell(0, c as int) == Entity::Empty {
                            assert(r@[r@.len() - 1].col as int == c0);
                        } else {
                            assert(!game.legal_col(c0));
                        }
                    } else {
                        let k0 = choose|k: int|
                            0 <= k < r0.len() && (#[trigger] r0[k]).col as int == c0;
                        assert(r@[k0].col as int == c0);
                    }
                }
            }
            c = c + 1;
        }
        r
    }

    /// Plays one uniformly random legal move in place; every legal move is
    /// equally likely. Fails with `NoLegalMove`, leaving the board
    /// untouched, exactly when the board is full.
    pub fn random_play_mut(&self, game: &mut Game) -> (r: Result<(), GameError>)
        requires
            old(game).wf(),
        ensures
            final(game).wf(),
            match r {
                Ok(()) => exists|c: int|
                    old(game).legal_col(c) && #[trigger] move_applied(*old(game), *final(game), c),
                Err(e) => {
                    &&& e == GameError::NoLegalMove
                    &&& old(game).is_full()
                    &&& *final(game) == *old(game)
                },
            },
    {
        let mvs = self.choices(&*game);
        if mvs.len() == 0 {
            proof {
                assert forall|c: int| 0 <= c < old(game).w() implies old(game).cell(0, c)
                    != Entity::Empty by {
                    if old(game).legal_col(c) {
                        assert(false);
                    }
                }
            }
            return Err(GameError::NoLegalMove);
        }
        let idx = draw_uniform_index(mvs.len());
        let mv = mvs[idx];
        proof {
            assert(old(game).legal_col(mv.col as int));
            assert(cell_of(old(game).grid@, old(game).w(), 0, mv.col as int) == Entity::Empty);
            assert(old(game).col_has_empty(mv.col as int));
        }
        match game.play_mut(mv) {
            Ok(()) => {
                proof {
                    assert(move_applied(*old(game), *game, mv.col as int));
                }
                Ok(())
            },
            Err(_) => {
                proof {
                    assert(false);
                }
                Err(GameError::NoLegalMove)
            },
        }
    }

    /// Plays uniformly random legal moves in place until the game is
    /// decided, and returns the winner; returns `Empty` only once the board
    /// has filled with no winner. An already-decided board is returned at
    /// once, unchanged. Pieces are only added, never moved or removed; the
    /// final board is reached by a playout of at most as many legal moves as
    /// there were empty cells — at most `height * width` of them.
    #[verifier::rlimit(100)]
    pub fn rollplay_random_mut(&self, game: &mut Game) -> (r: Entity)
        requires
            old(game).wf(),
        ensures
            final(game).wf(),
            final(game).height == old(game).height,
            final(game).width == old(game).width,
            r == Entity::O ==> final(game).has_four(Entity::O),
            r == Entity::X ==> final(game).has_four(Entity::X),
            r == Entity::Empty ==> {
                &&& !final(game).has_four(Entity::O)
                &&& !final(game).has_four(Entity::X)
                &&& final(game).is_full()
            },
            (old(game).has_four(Entity::O) || old(game).has_four(Entity::X)) ==> *final(game)
                == *old(game),
            !(old(game).has_four(Entity::O) && old(game).has_four(Entity::X))
                ==> !(final(game).has_four(Entity::O) && final(game).has_four(Entity::X)),
            forall|k: int|
                0 <= k < old(game).grid@.len() && old(game).grid@[k] != Entity::Empty
                    ==> final(game).grid@[k] == old(game).grid@[k],
            gravity(old(game).grid@, old(game).h(), old(game).w()) ==> gravity(
                final(game).grid@,
                final(game).h(),
                final(game).w(),
            ),
            exists|s: Seq<Game>|
                #[trigger] playout_trace(s) && s.len() >= 1 && s.len() - 1 <= count_empty(
                    old(game).grid@,
                ) && s.len() - 1 <= old(game).h() * old(game).w() && s[0] == *old(game) && s.last()
                    == *final(game),
    {
        let ghost mut trace: Seq<Game> = seq![*old(game)];
        proof {
            lemma_count_empty_le_len(old(game).grid@);
        }
        loop
            invariant
                old(game).wf(),
                count_empty(old(game).grid@) <= old(game).h() * old(game).w(),
                game.wf(),
                game.height == old(game).height,
                game.width == old(game).width,
                (old(game).has_four(Entity::O) || old(game).has_four(Entity::X)) ==> *game
                    == *old(game),
                !(old(game).has_four(Entity::O) && old(game).has_four(Entity::X)) ==> !(
                game.has_four(Entity::O) && game.has_four(Entity::X)),
                forall|k: int|
                    0 <= k < old(game).grid@.len() && old(game).grid@[k] != Entity::Empty
                        ==> game.grid@[k] == old(game).grid@[k],
                gravity(old(game).grid@, old(game).h(), old(game).w()) ==> gravity(
                    game.grid@,
                    game.h(),
                    game.w(),
                ),
                playout_trace(trace),
                trace.len() >= 1,
                trace[0] == *old(game),
                trace.last() == *game,
                trace.len() - 1 + count_empty(game.grid@) == count_empty(old(game).grid@),
            decreases count_empty(game.grid@),
        {
            let j = game.judge();
            if j == Entity::O {
                return Entity::O;
            }
            if j == Entity::X {
                return Entity::X;
            }
            let ghost pre = *game;
            match self.random_play_mut(game) {
                Ok(()) => {
                    proof {
                        let c = choose|c: int|
                            pre.legal_col(c) && #[trigger] move_applied(pre, *game, c);
                        lemma_move_keeps_no_four(pre, *game, c, pre.next.flip());
                        lemma_move_keeps_pieces(pre, *game, c);
                        if gravity(old(game).grid@, old(game).h(), old(game).w()) {
                            lemma_move_keeps_gravity(pre, *game, c);
                        }
                        assert forall|k: int|
                            0 <= k < old(game).grid@.len() && old(game).grid@[k] != Entity::Empty
                                implies game.grid@[k] == old(game).grid@[k] by {
                            assert(pre.grid@[k] == old(game).grid@[k]);
                        }
                        assert(legal_step(pre, *game));
                        let ghost trace0 = trace;
                        trace = trace.push(*game);
                        assert(trace.last() == *game);
                        assert forall|i: int| 0 <= i < trace.len() - 1 implies #[trigger] playout_step(
                            trace,
                            i,
                        ) by {
                            if i == trace.len() - 2 {
                                assert(trace[i] == pre);
                                assert(trace[i + 1] == *game);
                            } else {
                                assert(playout_step(trace0, i));
                                assert(trace[i] == trace0[i]);
                                assert(trace[i + 1] == trace0[i + 1]);
                            }
                        }
                    }
                },
                Err(_) => {
                    return Entity::Empty;
                },
            }
        }
    }

    /// Estimates how often the side to move at `game` wins from here: plays
    /// `num_try` independent random rollouts on copies of `game` and returns
    /// how many of them that side won, a count between 0 and `num_try`. A
    /// board already decided for its mover counts every trial; one decided
    /// against the mover counts none; and an undecided board whose single
    /// legal column wins at once for the mover — a forced win the opponent
    /// cannot interfere with — also counts every trial.
    #[verifier::rlimit(100)]
    pub fn estimate_prob_win(&self, game: &Game, num_try: usize) -> (r: usize)
        requires
            game.wf(),
        ensures
            r <= num_try,
            game.has_four(game.next) && !game.has_four(game.next.flip()) ==> r == num_try,
            game.has_four(game.next.flip()) && !game.has_four(game.next) ==> r == 0,
            !game.has_four(Entity::O) && !game.has_four(Entity::X) && (exists|c: int|
                #[trigger] game.wins_immediately(c) && forall|c2: int|
                    #[trigger] game.legal_col(c2) ==> c2 == c) ==> r == num_try,
    {
        let mut win: usize = 0;
        let mut t: usize = 0;
        while t < num_try
            invariant
                game.wf(),
                t <= num_try,
                win <= t,
                game.has_four(game.next) && !game.has_four(game.next.flip()) ==> win == t,
                game.has_four(game.next.flip()) && !game.has_four(game.next) ==> win == 0,
                !game.has_four(Entity::O) && !game.has_four(Entity::X) && (exists|c: int|
                    #[trigger] game.wins_immediately(c) && forall|c2: int|
                        #[trigger] game.legal_col(c2) ==> c2 == c) ==> win == t,
            decreases num_try - t,
        {
            let mut g = game.duplicate();
            proof {
                assert(g.wf());
                assert(g.has_four(game.next) == game.has_four(game.next));
                assert(g.has_four(game.next.flip()) == game.has_four(game.next.flip()));
            }
            let ghost start = g;
            let winner = self.rollplay_random_mut(&mut g);
            proof {
                if game.has_four(game.next) && !game.has_four(game.next.flip()) {
                    // decided for the mover: the rollout returns it unchanged,
                    // and only the mover shows four on it
                    assert(g == start);
                    assert(winner != Entity::Empty);
                    if winner == game.next.flip() {
                        assert(g.has_four(game.next.flip()));
                        assert(false);
                    }
                    assert(winner == game.next);
                }
                if game.has_four(game.next.flip()) && !game.has_four(game.next) {
                    assert(g == start);
                    if winner == game.next {
                        assert(g.has_four(game.next));
                        assert(false);
                    }
                    assert(winner != game.next);
                }
                if !game.has_four(Entity::O) && !game.has_four(Entity::X) && (exists|c: int|
                    #[trigger] game.wins_immediately(c) && forall|c2: int|
                        #[trigger] game.legal_col(c2) ==> c2 == c) {
                    // the forced win: the single legal move decides the game
                    // at once, so the playout is that one move and the mover
                    // is the winner
                    let c0 = choose|c: int|
                        #[trigger] game.wins_immediately(c) && forall|c2: int|
                            #[trigger] game.legal_col(c2) ==> c2 == c;
                    assert(start.wins_immediately(c0)) by {
                        assert(start.legal_col(c0));
                        assert forall|i: int|
                            is_landing(start.grid@, start.h(), start.w(), c0, i) implies has_four(
                            #[trigger] start.grid@.update(i * start.w() + c0, start.next),
                            start.h(),
                            start.w(),
                            start.next,
                        ) by {
                            assert(is_landing(game.grid@, game.h(), game.w(), c0, i));
                        }
                    }
                    let s = choose|s: Seq<Game>|
                        #[trigger] playout_trace(s) && s.len() >= 1 && s.len() - 1 <= count_empty(
                            start.grid@,
                        ) && s.len() - 1 <= start.h() * start.w() && s[0] == start && s.last() == g;
                    assert(s[0] == start && s.last() == g && playout_trace(s));
                    if s.len() == 1 {
                        // the playout made no move, yet the board is not full
                        // and not decided: the rollout cannot stop there
                        assert(g == start);
                        assert(start.legal_col(c0));
                        if winner == Entity::Empty {
                            assert(g.is_full());
                            assert(g.cell(0, c0) != Entity::Empty);
                            assert(false);
                        }
                        assert(g.has_four(winner));
                        assert(false);
                    }
                    lemma_playout_trace_step(s, 0);
                    assert(legal_step(s[0], s[1]));
                    let cm = choose|c: int|
                        s[0].legal_col(c) && #[trigger] move_applied(s[0], s[1], c);
                    assert(start.legal_col(cm));
                    assert(game.legal_col(cm));
                    assert(cm == c0);
                    lemma_winning_move_wins(s[0], s[1], cm);
                    assert(s[1].has_four(start.next));
                    lemma_move_keeps_no_four(s[0], s[1], cm, start.next.flip());
                    assert(!s[1].has_four(start.next.flip()));
                    if s.len() > 2 {
                        // the playout cannot move on from a decided board
                        lemma_playout_trace_step(s, 1);
                        assert(!s[1].has_four(Entity::O) && !s[1].has_four(Entity::X));
                        assert(start.next == Entity::O || start.next == Entity::X);
                        assert(false);
                    }
                    assert(g == s[1]);
                    assert(g.has_four(game.next));
                    assert(!g.has_four(game.next.flip()));
                    if winner == Entity::Empty {
                        assert(false);
                    }
                    if winner == game.next.flip() {
                        assert(g.has_four(game.next.flip()));
                        assert(false);
                    }
                    assert(winner == game.next);
                }
            }
            if winner == game.next {
                win = win + 1;
            }
            t = t + 1;
        }
        win
    }

    /// The one-ply adversarial search. For each own candidate move, in
    /// ascending column order: an immediately winning candidate is returned
    /// at once; otherwise every opponent reply is scored by rollouts and the
    /// candidate is valued at its worst reply. The candidate with the
    /// strictly greatest worst-case value wins; ties keep the earlier
    /// column. Fails with `NoLegalMove` when no candidate was selected —
    /// in particular on a full board.
    pub fn play_wise(&self, game: &Game) -> (r: Result<Game, GameError>)
        requires
            game.wf(),
            !game.has_four(Entity::O),
            !game.has_four(Entity::X),
        ensures
            match r {
                Ok(g) => {
                    &&& g.wf()
                    &&& exists|c: int|
                        game.legal_col(c) && #[trigger] move_applied(*game, g, c)
                    &&& !g.has_four(game.next.flip())
                    &&& (exists|c: int| #[trigger] game.wins_immediately(c)) ==> g.has_four(
                        game.next,
                    )
                    &&& forall|c: int|
                        #[trigger] game.wins_immediately(c) && (forall|c2: int|
                            0 <= c2 < c ==> !(#[trigger] game.wins_immediately(c2)))
                            ==> move_applied(*game, g, c)
                    &&& g.has_four(game.next) || (forall|c: int|
                        !(#[trigger] g.wins_immediately(c)))
                },
                Err(e) => {
                    &&& e == GameError::NoLegalMove
                    &&& forall|c: int| !(#[trigger] game.wins_immediately(c))
                },
            },
    {
        let mvs = self.choices(game);
        let mut goodgame: Option<Game> = None;
        let mut maxp: usize = 0;
        let mut t: usize = 0;
        while t < mvs.len()
            invariant
                game.wf(),
                !game.has_four(Entity::O),
                !game.has_four(Entity::X),
                t <= mvs@.len(),
                forall|k: int|
                    0 <= k < mvs@.len() ==> game.legal_col((#[trigger] mvs@[k]).col as int),
                forall|c: int|
                    #[trigger] game.legal_col(c) ==> exists|k: int|
                        0 <= k < mvs@.len() && (#[trigger] mvs@[k]).col as int == c,
                forall|k1: int, k2: int| 0 <= k1 < k2 < mvs@.len() ==> mvs@[k1].col < mvs@[k2].col,
                forall|k: int|
                    0 <= k < t ==> !game.wins_immediately((#[trigger] mvs@[k]).col as int),
                match goodgame {
                    Some(gg) => {
                        &&& gg.wf()
                        &&& exists|c: int|
                            game.legal_col(c) && #[trigger] move_applied(*game, gg, c)
                        &&& !gg.has_four(Entity::O)
                        &&& !gg.has_four(Entity::X)
                        &&& forall|c: int| !(#[trigger] gg.wins_immediately(c))
                    },
                    None => true,
                },
            decreases mvs@.len() - t,
        {
            let mv = mvs[t];
            proof {
                assert(game.legal_col(mv.col as int));
                assert(cell_of(game.grid@, game.w(), 0, mv.col as int) == Entity::Empty);
                assert(game.col_has_empty(mv.col as int));
            }
            let g = match game.play(mv) {
                Ok(g) => g,
                Err(_) => {
                    proof {
                        assert(false);
                    }
                    return Err(GameError::NoLegalMove);
                },
            };
            let jg = g.judge();
            if jg == game.next {
                proof {
                    lemma_move_keeps_no_four(*game, g, mv.col as int, game.next.flip());
                    assert(g.has_four(game.next));
                    // this candidate is the lowest immediately winning column:
                    // every lower legal column was already found not to win
                    let gw = game.w();
                    let gh = game.h();
                    let col = mv.col as int;
                    let i_star = choose|i: int|
                        #[trigger] is_landing(game.grid@, gh, gw, col, i) && g.grid@
                            == game.grid@.update(i * gw + col, game.next);
                    assert(is_landing(game.grid@, gh, gw, col, i_star) && g.grid@
                        == game.grid@.update(i_star * gw + col, game.next));
                    assert forall|i: int| is_landing(game.grid@, gh, gw, col, i) implies has_four(
                        game.grid@.update(i * gw + col, game.next),
                        gh,
                        gw,
                        game.next,
                    ) by {
                        lemma_landing_unique(game.grid@, gh, gw, col, i, i_star);
                    }
                    assert(game.wins_immediately(col));
                    assert forall|c: int|
                        game.wins_immediately(c) && (forall|c2: int|
                            0 <= c2 < c ==> !(#[trigger] game.wins_immediately(c2)))
                            implies move_applied(*game, g, c) by {
                        if c < col {
                            assert(game.legal_col(c));
                            let k = choose|k: int|
                                0 <= k < mvs@.len() && (#[trigger] mvs@[k]).col as int == c;
                            if k > t as int {
                                assert(mvs@[t as int].col < mvs@[k].col);
                            }
                            if k < t as int {
                                assert(!game.wins_immediately((mvs@[k]).col as int));
                            }
                            assert(false);
                        } else if c > col {
                            assert(!game.wins_immediately(col));
                            assert(false);
                        }
                    }
                }
                return Ok(g);
            }
            proof {
                lemma_move_keeps_no_four(*game, g, mv.col as int, game.next.flip());
                assert(!g.has_four(game.next.flip()));
                assert(jg == Entity::Empty);
                lemma_not_winning_move(*game, g, mv.col as int);
                assert(!game.wins_immediately(mv.col as int));
            }
            let mut minp: usize = NUM_TRIALS;
            let reps = self.choices(&g);
            let mut u: usize = 0;
            while u < reps.len()
                invariant
                    g.wf(),
                    !g.has_four(Entity::O),
                    !g.has_four(Entity::X),
                    u <= reps@.len(),
                    forall|k: int|
                        0 <= k < reps@.len() ==> g.legal_col((#[trigger] reps@[k]).col as int),
                    forall|c: int|
                        #[trigger] g.legal_col(c) ==> exists|k: int|
                            0 <= k < reps@.len() && (#[trigger] reps@[k]).col as int == c,
                    forall|k: int|
                        0 <= k < u ==> (g.wins_immediately((#[trigger] reps@[k]).col as int)
                            ==> minp == 0),
                decreases reps@.len() - u,
            {
                let mv2 = reps[u];
                proof {
                    assert(g.legal_col(mv2.col as int));
                    assert(cell_of(g.grid@, g.w(), 0, mv2.col as int) == Entity::Empty);
                    assert(g.col_has_empty(mv2.col as int));
                }
                let gh = match g.play(mv2) {
                    Ok(gh) => gh,
                    Err(_) => {
                        proof {
                            assert(false);
                        }
                        return Err(GameError::NoLegalMove);
                    },
                };
                let p = self.estimate_prob_win(&gh, NUM_TRIALS);
                proof {
                    if g.wins_immediately(mv2.col as int) {
                        // a reply that wins for g's mover at once is scored
                        // zero: the board it reaches is decided against the
                        // side the estimator counts for
                        lemma_winning_move_wins(g, gh, mv2.col as int);
                        lemma_move_keeps_no_four(g, gh, mv2.col as int, g.next.flip());
                        assert(g.next == Entity::O || g.next == Entity::X);
                        assert(gh.next.flip() == g.next);
                        assert(gh.has_four(gh.next.flip()));
                        assert(!gh.has_four(gh.next));
                        assert(p == 0);
                    }
                }
                if minp > p {
                    minp = p;
                }
                proof {
                    assert forall|k: int| 0 <= k < u + 1 implies (g.wins_immediately(
                        (#[trigger] reps@[k]).col as int,
                    ) ==> minp == 0) by {
                        if k == u as int {
                        }
                    }
                }
                u = u + 1;
            }
            if maxp < minp {
                proof {
                    assert(minp >= 1);
                    assert forall|c: int| !(#[trigger] g.wins_immediately(c)) by {
                        if g.wins_immediately(c) {
                            assert(g.legal_col(c));
                            let k = choose|k: int|
                                0 <= k < reps@.len() && (#[trigger] reps@[k]).col as int == c;
                            assert(g.wins_immediately((reps@[k]).col as int));
                            assert(false);
                        }
                    }
                }
                maxp = minp;
                goodgame = Some(g);
            }
            proof {
                assert forall|k: int| 0 <= k < t + 1 implies !game.wins_immediately(
                    (#[trigger] mvs@[k]).col as int,
                ) by {
                    if k == t as int {
                    }
                }
            }
            t = t + 1;
        }
        proof {
            assert forall|c: int| !(#[trigger] game.wins_immediately(c)) by {
                if game.wins_immediately(c) {
                    assert(game.legal_col(c));
                    let k = choose|k: int|
                        0 <= k < mvs@.len() && (#[trigger] mvs@[k]).col as int == c;
                    assert(!game.wins_immediately((mvs@[k]).col as int));
                    assert(false);
                }
            }
        }
        match goodgame {
            Some(g) => Ok(g),
            None => Err(GameError::NoLegalMove),
        }
    }

    /// Recommends a move for the side to move at `game`.
    ///
    /// Fails with `GameAlreadyDecided` when the board already shows a
    /// winner. Otherwise runs the one-ply search: the returned board is
    /// `game` after one legal move of its mover, it never shows four for the
    /// opponent, and whenever an immediately winning move exists the
    /// returned board shows four for the mover. Fails with `NoLegalMove`
    /// when the search selected no candidate — in particular on a full
    /// board.
    pub fn solve(&self, game: &Game) -> (r: Result<Game, GameError>)
        requires
            game.wf(),
        ensures
            match r {
                Ok(g) => {
                    &&& g.wf()
                    &&& !game.has_four(Entity::O)
                    &&& !game.has_four(Entity::X)
                    &&& exists|c: int|
                        game.legal_col(c) && #[trigger] move_applied(*game, g, c)
                    &&& !g.has_four(game.next.flip())
                    &&& (exists|c: int| #[trigger] game.wins_immediately(c)) ==> g.has_four(
                        game.next,
                    )
                    &&& forall|c: int|
                        #[trigger] game.wins_immediately(c) && (forall|c2: int|
                            0 <= c2 < c ==> !(#[trigger] game.wins_immediately(c2)))
                            ==> move_applied(*game, g, c)
                    &&& g.has_four(game.next) || (forall|c: int|
                        !(#[trigger] g.wins_immediately(c)))
                },
                Err(e) => {
                    ||| {
                        &&& e == GameError::GameAlreadyDecided
                        &&& (game.has_four(Entity::O) || game.has_four(Entity::X))
                    }
                    ||| {
                        &&& e == GameError::NoLegalMove
                        &&& !game.has_four(Entity::O)
                        &&& !game.has_four(Entity::X)
                        &&& forall|c: int| !(#[trigger] game.wins_immediately(c))
                    }
                },
            },
            game.is_full() && !game.has_four(Entity::O) && !game.has_four(Entity::X) ==> r
                == Err::<Game, GameError>(GameError::NoLegalMove),
    {
        let j = game.judge();
        if j == Entity::O || j == Entity::X {
            return Err(GameError::GameAlreadyDecided);
        }
        let r = self.play_wise(game);
        proof {
            if game.is_full() {
                if r is Ok {
                    let g = r->Ok_0;
                    let c = choose|c: int|
                        game.legal_col(c) && #[trigger] move_applied(*game, g, c);
                    assert(game.cell(0, c) != Entity::Empty);
                    assert(false);
                }
            }
        }
        r
    }
}

} // verus!
