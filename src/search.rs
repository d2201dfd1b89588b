use vstd::prelude::*;
use std::time::{Duration, Instant};
use crate::game::{
    Game,
    GameView,
    Snake,
    apply_moves,
    first_pass,
    lemma_apply_wf,
    lemma_undo_exact,
    lemma_cells_bound,
    lemma_first_pass,
    lemma_first_pass_stable,
};
use crate::eval::{
    MAX_AGENTS,
    evaluation,
    opponents_alive,
    win_score,
    eval,
    score_scale_of,
    any_opponent_alive,
    lemma_evaluation_range,
    lemma_win_score_range,
};
use crate::legal::{explored, explored_moves, lemma_some_explored, move_allowed, any_move_allowed};

verus! {

#[verifier::external_type_specification]
#[verifier::external_body]
pub struct ExInstant(Instant);

/// Relies on `Instant::now`: the current reading of the monotonic clock.
#[verifier::external_body]
fn now() -> Instant {
    Instant::now()
}

/// Relies on `Instant::elapsed`: the time since `start`.
#[verifier::external_body]
fn elapsed(start: &Instant) -> Duration {
    start.elapsed()
}

/// Relies on `Duration::as_millis`: the whole milliseconds in `d`.
#[verifier::external_body]
fn as_millis(d: &Duration) -> u128 {
    d.as_millis()
}

/// What is left of a budget of `search_time` milliseconds once
/// `elapsed_ms` of them are spent: the difference, or a negative value when
/// more than the budget is spent.
pub fn budget_left(search_time: i128, elapsed_ms: u128) -> (r: i128)
    requires
        search_time >= 0,
    ensures
        elapsed_ms <= search_time ==> r == search_time - elapsed_ms,
        elapsed_ms > search_time ==> r < 0,
{
    if elapsed_ms > search_time as u128 {
        -1
    } else {
        search_time - elapsed_ms as i128
    }
}

/// Below every score: the open lower end of a search window.
pub open spec fn neg_inf() -> int {
    i64::MIN as int
}

/// Above every score: the open upper end of a search window.
pub open spec fn pos_inf() -> int {
    i64::MAX as int
}

/// Bound on the size of every score that a search can meet.
pub open spec fn score_bound() -> int {
    0x4000_0000_0000_0000
}

pub open spec fn max_int(a: int, b: int) -> int {
    if a >= b {
        a
    } else {
        b
    }
}

pub open spec fn min_int(a: int, b: int) -> int {
    if a <= b {
        a
    } else {
        b
    }
}

/// `v` brought into the window `[alpha, beta]`: what a fail-hard
/// alpha-beta search returns for a node of value `v`.
pub open spec fn clamp(v: int, alpha: int, beta: int) -> int {
    min_int(max_int(v, alpha), beta)
}

/// What a window search owes for a node of value `v` under `(alpha, beta)`:
/// the exact value inside the window, and a bound on the right side of it
/// outside.
pub open spec fn within_window(r: int, v: int, alpha: int, beta: int) -> bool {
    &&& v <= alpha ==> r <= alpha
    &&& v >= beta ==> r >= beta
    &&& alpha < v < beta ==> r == v
}

/// Full minimax value, without pruning, of a position where the controlled
/// agent is to move with `depth` plies left.
pub open spec fn max_value(g: GameView, depth: nat) -> int
    decreases depth, 3int, 0int, 0int,
{
    if !g.snakes[0].alive() {
        -win_score(g)
    } else if depth == 0 {
        evaluation(g)
    } else {
        best_from(g, 0, depth)
    }
}

/// Best value over the controlled agent's explored directions `d..4`.
pub open spec fn best_from(g: GameView, d: int, depth: nat) -> int
    decreases depth, 2int, 0int, 4 - d,
{
    if d < 0 || d >= 4 {
        neg_inf()
    } else {
        let rest = best_from(g, d + 1, depth);
        if explored(g.snakes[0], d as u8, g.width as int, g.height as int) {
            max_int(min_value(g, d as u8, depth), rest)
        } else {
            rest
        }
    }
}

/// Full minimax value once the controlled agent has chosen `own`, with the
/// opponents to answer jointly.
pub open spec fn min_value(g: GameView, own: u8, depth: nat) -> int
    decreases depth, 1int, 0int, 0int,
{
    if !opponents_alive(g) {
        win_score(g)
    } else if depth == 0 {
        evaluation(g)
    } else {
        joint_value(g, seq![own], depth)
    }
}

/// Value of a partly chosen joint move `mv`: the opponents not yet in it
/// choose, in index order, what is worst for the controlled agent; a complete
/// one is applied and the controlled agent moves next, a ply deeper.
pub open spec fn joint_value(g: GameView, mv: Seq<u8>, depth: nat) -> int
    decreases depth, 0int, g.snakes.len() - mv.len(), 5int,
{
    if mv.len() >= g.snakes.len() {
        if depth == 0 {
            evaluation(g)
        } else {
            max_value(apply_moves(g, mv).0, (depth - 1) as nat)
        }
    } else {
        worst_from(g, mv, 0, depth)
    }
}

/// Worst value over the next agent's explored directions `d..4`.
pub open spec fn worst_from(g: GameView, mv: Seq<u8>, d: int, depth: nat) -> int
    decreases depth, 0int, g.snakes.len() - mv.len(), 4 - d,
{
    if d < 0 || d >= 4 || mv.len() >= g.snakes.len() {
        pos_inf()
    } else {
        let rest = worst_from(g, mv, d + 1, depth);
        if explored(g.snakes[mv.len() as int], d as u8, g.width as int, g.height as int) {
            min_int(joint_value(g, mv.push(d as u8), depth), rest)
        } else {
            rest
        }
    }
}

/// A board on which the search may run.
pub open spec fn searchable(g: GameView) -> bool {
    &&& g.wf()
    &&& 1 <= g.snakes.len() <= MAX_AGENTS
}

pub open spec fn in_bound(v: int) -> bool {
    -score_bound() <= v <= score_bound()
}

proof fn lemma_max_range(g: GameView, depth: nat)
    requires
        searchable(g),
    ensures
        in_bound(max_value(g, depth)),
    decreases depth, 3int, 0int, 0int,
{
    lemma_win_score_range(g);
    if !g.snakes[0].alive() {
    } else if depth == 0 {
        lemma_evaluation_range(g);
    } else {
        lemma_some_explored(g.snakes[0], g.width as int, g.height as int);
        lemma_best_range(g, 0, depth);
    }
}

proof fn lemma_best_range(g: GameView, d: int, depth: nat)
    requires
        searchable(g),
        0 <= d <= 4,
    ensures
        best_from(g, d, depth) == neg_inf() || in_bound(best_from(g, d, depth)),
        (exists|e: u8|
            d <= e < 4 && explored(g.snakes[0], e, g.width as int, g.height as int)) ==> in_bound(
            best_from(g, d, depth),
        ),
    decreases depth, 2int, 0int, 4 - d,
{
    if d < 4 {
        lemma_best_range(g, d + 1, depth);
        if explored(g.snakes[0], d as u8, g.width as int, g.height as int) {
            lemma_min_range(g, d as u8, depth);
        } else {
            if exists|e: u8| d <= e < 4 && explored(g.snakes[0], e, g.width as int, g.height as int) {
                let e = choose|e: u8| d <= e < 4 && explored(g.snakes[0], e, g.width as int, g.height as int);
                assert(e != d);
            }
        }
    }
}

proof fn lemma_min_range(g: GameView, own: u8, depth: nat)
    requires
        searchable(g),
        own < 4,
    ensures
        in_bound(min_value(g, own, depth)),
    decreases depth, 1int, 0int, 0int,
{
    lemma_win_score_range(g);
    if !opponents_alive(g) {
    } else if depth == 0 {
        lemma_evaluation_range(g);
    } else {
        lemma_joint_range(g, seq![own], depth);
    }
}

proof fn lemma_joint_range(g: GameView, mv: Seq<u8>, depth: nat)
    requires
        searchable(g),
        mv.len() <= g.snakes.len(),
        forall|i: int| 0 <= i < mv.len() ==> #[trigger] mv[i] < 4,
    ensures
        in_bound(joint_value(g, mv, depth)),
    decreases depth, 0int, g.snakes.len() - mv.len(), 5int,
{
    if mv.len() >= g.snakes.len() {
        if depth == 0 {
            lemma_evaluation_range(g);
        } else {
            lemma_apply_wf(g, mv);
            lemma_max_range(apply_moves(g, mv).0, (depth - 1) as nat);
        }
    } else {
        let s = g.snakes[mv.len() as int];
        lemma_some_explored(s, g.width as int, g.height as int);
        lemma_worst_range(g, mv, 0, depth);
    }
}

proof fn lemma_worst_range(g: GameView, mv: Seq<u8>, d: int, depth: nat)
    requires
        searchable(g),
        mv.len() < g.snakes.len(),
        forall|i: int| 0 <= i < mv.len() ==> #[trigger] mv[i] < 4,
        0 <= d <= 4,
    ensures
        worst_from(g, mv, d, depth) == pos_inf() || in_bound(worst_from(g, mv, d, depth)),
        (exists|e: u8|
            d <= e < 4 && explored(
                g.snakes[mv.len() as int],
                e,
                g.width as int,
                g.height as int,
            )) ==> in_bound(worst_from(g, mv, d, depth)),
    decreases depth, 0int, g.snakes.len() - mv.len(), 4 - d,
{
    let s = g.snakes[mv.len() as int];
    if d < 4 {
        lemma_worst_range(g, mv, d + 1, depth);
        if explored(s, d as u8, g.width as int, g.height as int) {
            let next = mv.push(d as u8);
            assert forall|i: int| 0 <= i < next.len() implies #[trigger] next[i] < 4 by {
                if i < mv.len() {
                    assert(next[i] == mv[i]);
                }
            }
            lemma_joint_range(g, next, depth);
        } else {
            if exists|e: u8| d <= e < 4 && explored(s, e, g.width as int, g.height as int) {
                let e = choose|e: u8| d <= e < 4 && explored(s, e, g.width as int, g.height as int);
                assert(e != d);
            }
        }
    }
}


/// The controlled agent's ply: alpha-beta over its explored directions,
/// within the window `(alpha, beta)`: the sentinel of a dead controlled
/// agent, the evaluation at depth 0, and otherwise the minimax value brought
/// into the window. Gives no result once the budget of `search_time`
/// milliseconds is no longer positive, and leaves the board as it found it.
pub fn max(game: &mut Game, alpha: i64, beta: i64, depth: u8, search_time: i128) -> (r: Option<i64>)
    requires
        searchable(old(game)@),
        alpha < beta,
    ensures
        final(game)@ == old(game)@,
        search_time <= 0 ==> r is None,
        search_time > 0 && !old(game)@.snakes[0].alive() ==> r == Some((0 - win_score(old(game)@)) as i64),
        search_time > 0 && old(game)@.snakes[0].alive() && depth == 0 ==> r == Some(evaluation(old(game)@) as i64),
        old(game)@.snakes[0].alive() && depth >= 1 ==> (r matches Some(v) ==> v == clamp(
            max_value(old(game)@, depth as nat),
            alpha as int,
            beta as int,
        )),
        r matches Some(v) ==> within_window(v as int, max_value(old(game)@, depth as nat), alpha as int, beta as int),
    decreases depth, 3int, 0int, 0int,
{
    let ghost g0 = game@;
    let start = now();
    if search_time <= 0 {
        return None;
    }
    assert(game.snakes@[0]@ == g0.snakes[0]);
    if game.snakes[0].health == 0 {
        let scale = score_scale_of(game);
        proof {
            lemma_win_score_range(g0);
        }
        return Some(0 - 10000 * scale);
    }
    if depth == 0 {
        return Some(eval(game));
    }
    assert(g0.snakes[0].wf(g0.cells()));
    let opts = explored_moves(&game.snakes[0], game.width, game.height);
    let mut a = alpha;
    let mut result: Option<i64> = None;
    let mut done = false;
    let mut d: u8 = 0;
    assert(max_value(g0, depth as nat) == best_from(g0, 0, depth as nat));
    while d < 4 && !done
        invariant
            game@ == g0,
            search_time > 0,
            searchable(g0),
            g0.snakes[0].alive(),
            depth >= 1,
            max_value(g0, depth as nat) == best_from(g0, 0, depth as nat),
            alpha <= a < beta,
            d <= 4,
            forall|e: u8| e < 4 ==> opts[e as int] == explored(g0.snakes[0], e, g0.width as int, g0.height as int),
            !done ==> max_int(alpha as int, best_from(g0, 0, depth as nat)) == max_int(a as int, best_from(g0, d as int, depth as nat)),
            !done ==> result is None,
            done ==> (result matches Some(v) ==> v == clamp(max_value(g0, depth as nat), alpha as int, beta as int)),
        decreases 4 - d + (if done { 0int } else { 1int }),
    {
        if opts[d as usize] {
            let left = budget_left(search_time, as_millis(&elapsed(&start)));
            let r = min(game, d, a, beta, depth, left);
            assert(best_from(g0, d as int, depth as nat) == max_int(
                min_value(g0, d, depth as nat),
                best_from(g0, d as int + 1, depth as nat),
            ));
            match r {
                None => {
                    done = true;
                },
                Some(score) => {
                    if score >= beta {
                        assert(min_value(g0, d, depth as nat) >= beta);
                        assert(best_from(g0, 0, depth as nat) >= beta);
                        result = Some(beta);
                        done = true;
                    } else if score > a {
                        a = score;
                    }
                },
            }
        }
        if !done {
            d += 1;
        }
    }
    if done {
        result
    } else {
        Some(a)
    }
}

/// The opponents' ply once the controlled agent has chosen
/// `own_snake_move`, within the window `(alpha, beta)`.
pub fn min(game: &mut Game, own_snake_move: u8, alpha: i64, beta: i64, depth: u8, search_time: i128) -> (r: Option<i64>)
    requires
        searchable(old(game)@),
        alpha < beta,
        own_snake_move < 4,
    ensures
        final(game)@ == old(game)@,
        search_time <= 0 ==> r is None,
        search_time > 0 && !opponents_alive(old(game)@) ==> r == Some(win_score(old(game)@) as i64),
        search_time > 0 && opponents_alive(old(game)@) && depth == 0 ==> r == Some(evaluation(old(game)@) as i64),
        opponents_alive(old(game)@) && depth >= 1 ==> (r matches Some(v) ==> v == clamp(
            min_value(old(game)@, own_snake_move, depth as nat),
            alpha as int,
            beta as int,
        )),
        r matches Some(v) ==> within_window(
            v as int,
            min_value(old(game)@, own_snake_move, depth as nat),
            alpha as int,
            beta as int,
        ),
    decreases depth, 2int, 0int, 0int,
{
    let start = now();
    if search_time <= 0 {
        return None;
    }
    if !any_opponent_alive(game) {
        let scale = score_scale_of(game);
        proof {
            lemma_win_score_range(game@);
        }
        return Some(10000 * scale);
    }
    if depth == 0 {
        return Some(eval(game));
    }
    let mut moves: Vec<u8> = vec![own_snake_move];
    assert(moves@ =~= seq![own_snake_move]);
    let left = budget_left(search_time, as_millis(&elapsed(&start)));
    min_rec(game, &mut moves, alpha, beta, depth, left, Ghost(game@.snakes.len() - 1))
}

/// One opponent's choice within the opponents' ply: `moves` holds the
/// directions chosen so far, the controlled agent's first; once it holds one
/// per agent the joint move is applied, searched a ply deeper and taken back.
fn min_rec(
    game: &mut Game,
    moves: &mut Vec<u8>,
    alpha: i64,
    beta: i64,
    depth: u8,
    search_time: i128,
    Ghost(undecided): Ghost<int>,
) -> (r: Option<i64>)
    requires
        undecided == old(game)@.snakes.len() - old(moves)@.len(),
        searchable(old(game)@),
        alpha < beta,
        depth >= 1,
        1 <= old(moves)@.len() <= old(game)@.snakes.len(),
        forall|i: int| 0 <= i < old(moves)@.len() ==> #[trigger] old(moves)@[i] < 4,
    ensures
        final(game)@ == old(game)@,
        final(moves)@ == old(moves)@,
        search_time <= 0 ==> r is None,
        r matches Some(v) ==> v == clamp(
            joint_value(old(game)@, old(moves)@, depth as nat),
            alpha as int,
            beta as int,
        ),
    decreases depth, 1int, undecided, 0int,
{
    let ghost g0 = game@;
    let ghost mv0 = moves@;
    let start = now();
    if search_time <= 0 {
        return None;
    }
    let n = game.snakes.len();
    if moves.len() == n {
        proof {
            lemma_apply_wf(g0, mv0);
            lemma_undo_exact(g0, mv0);
        }
        let prev = game.move_snakes(moves);
        let left = budget_left(search_time, as_millis(&elapsed(&start)));
        let score = max(game, alpha, beta, depth - 1, left);
        game.unmove_snake(&prev);
        return match score {
            None => None,
            Some(score) => if score <= alpha {
                Some(alpha)
            } else if score < beta {
                Some(score)
            } else {
                Some(beta)
            },
        };
    }
    let i = moves.len();
    assert(game.snakes@[i as int]@ == g0.snakes[i as int]);
    assert(g0.snakes[i as int].wf(g0.cells()));
    let opts = explored_moves(&game.snakes[i], game.width, game.height);
    let mut b = beta;
    let mut result: Option<i64> = None;
    let mut done = false;
    let mut d: u8 = 0;
    assert(joint_value(g0, mv0, depth as nat) == worst_from(g0, mv0, 0, depth as nat));
    while d < 4 && !done
        invariant
            game@ == g0,
            moves@ == mv0,
            search_time > 0,
            searchable(g0),
            depth >= 1,
            i == mv0.len(),
            1 <= i < g0.snakes.len(),
            undecided == g0.snakes.len() - mv0.len(),
            forall|j: int| 0 <= j < mv0.len() ==> #[trigger] mv0[j] < 4,
            joint_value(g0, mv0, depth as nat) == worst_from(g0, mv0, 0, depth as nat),
            alpha < b <= beta,
            d <= 4,
            forall|e: u8| e < 4 ==> opts[e as int] == explored(g0.snakes[i as int], e, g0.width as int, g0.height as int),
            !done ==> min_int(beta as int, worst_from(g0, mv0, 0, depth as nat)) == min_int(b as int, worst_from(g0, mv0, d as int, depth as nat)),
            !done ==> result is None,
            done ==> (result matches Some(v) ==> v == clamp(joint_value(g0, mv0, depth as nat), alpha as int, beta as int)),
        decreases 4 - d + (if done { 0int } else { 1int }),
    {
        if opts[d as usize] {
            moves.push(d);
            proof {
                assert forall|j: int| 0 <= j < moves@.len() implies #[trigger] moves@[j] < 4 by {
                    if j < mv0.len() {
                        assert(moves@[j] == mv0[j]);
                    }
                }
            }
            let left = budget_left(search_time, as_millis(&elapsed(&start)));
            assert(game.snakes@.len() == g0.snakes.len());
            assert(moves@.len() == mv0.len() + 1);
            let r = min_rec(game, moves, alpha, b, depth, left, Ghost(undecided - 1));
            assert(worst_from(g0, mv0, d as int, depth as nat) == min_int(
                joint_value(g0, mv0.push(d), depth as nat),
                worst_from(g0, mv0, d as int + 1, depth as nat),
            ));
            moves.pop();
            assert(moves@ =~= mv0);
            match r {
                None => {
                    done = true;
                },
                Some(score) => {
                    if score <= alpha {
                        assert(joint_value(g0, mv0.push(d), depth as nat) <= alpha);
                        assert(worst_from(g0, mv0, 0, depth as nat) <= alpha);
                        result = Some(alpha);
                        done = true;
                    } else if score < b {
                        b = score;
                    }
                },
            }
        }
        if !done {
            d += 1;
        }
    }
    if done {
        result
    } else {
        Some(b)
    }
}

/// The root of the search: the controlled agent's explored directions are
/// tried in order, each searched `depth` plies deep with a window that opens
/// at the best score found so far. Gives the first direction of highest
/// value and that value, or no result if the budget of `search_time`
/// milliseconds is no longer positive; the board is left as it was.
pub fn best_move(game: &mut Game, depth: u8, search_time: i128) -> (r: Option<(u8, i64)>)
    requires
        searchable(old(game)@),
    ensures
        final(game)@ == old(game)@,
        search_time <= 0 ==> r is None,
        r matches Some((dir, score)) ==> {
            let g = old(game)@;
            let (w, h) = (g.width as int, g.height as int);
            &&& dir < 4
            &&& explored(g.snakes[0], dir, w, h)
            &&& score == best_from(g, 0, depth as nat)
            &&& score == min_value(g, dir, depth as nat)
            &&& forall|e: u8| e < dir && explored(g.snakes[0], e, w, h) ==> min_value(g, e, depth as nat) < score
        },
{
    let ghost g0 = game@;
    let ghost (w, h) = (g0.width as int, g0.height as int);
    let start = now();
    if search_time <= 0 {
        return None;
    }
    assert(game.snakes@[0]@ == g0.snakes[0]);
    assert(g0.snakes[0].wf(g0.cells()));
    let opts = explored_moves(&game.snakes[0], game.width, game.height);
    proof {
        lemma_some_explored(g0.snakes[0], w, h);
        lemma_best_range(g0, 0, depth as nat);
    }
    let mut best_dir: u8 = 0;
    let mut best: i64 = i64::MIN;
    let mut timed_out = false;
    let mut d: u8 = 0;
    while d < 4 && !timed_out
        invariant
            game@ == g0,
            search_time > 0,
            searchable(g0),
            d <= 4,
            w == g0.width,
            h == g0.height,
            forall|e: u8| e < 4 ==> opts[e as int] == explored(g0.snakes[0], e, w, h),
            in_bound(best_from(g0, 0, depth as nat)),
            best_from(g0, 0, depth as nat) == max_int(best as int, best_from(g0, d as int, depth as nat)),
            best == i64::MIN ==> forall|e: u8| e < d ==> !explored(g0.snakes[0], e, w, h),
            forall|e: u8| e < d && explored(g0.snakes[0], e, w, h) ==> min_value(g0, e, depth as nat) <= best,
            best != i64::MIN ==> {
                &&& best_dir < d
                &&& explored(g0.snakes[0], best_dir, w, h)
                &&& best == min_value(g0, best_dir, depth as nat)
                &&& forall|e: u8| e < best_dir && explored(g0.snakes[0], e, w, h) ==> min_value(g0, e, depth as nat) < best
            },
        decreases 4 - d + (if timed_out { 0int } else { 1int }),
    {
        if opts[d as usize] {
            proof {
                lemma_min_range(g0, d, depth as nat);
                lemma_best_range(g0, d as int + 1, depth as nat);
            }
            let left = budget_left(search_time, as_millis(&elapsed(&start)));
            let r = min(game, d, best, i64::MAX, depth, left);
            match r {
                None => {
                    timed_out = true;
                },
                Some(score) => {
                    if score > best {
                        best_dir = d;
                        best = score;
                    }
                },
            }
        }
        if !timed_out {
            d += 1;
        }
    }
    if timed_out {
        None
    } else {
        Some((best_dir, best))
    }
}


/// Alpha-beta with pruning agrees with plain minimax: a result that meets
/// the window contract of `max` or `min` for the full window is the exact
/// minimax value, at every depth and for every explored root direction.
pub proof fn lemma_full_window_exact(g: GameView, depth: nat, own: u8, r: int, s: int)
    requires
        searchable(g),
        own < 4,
        within_window(r, max_value(g, depth), neg_inf(), pos_inf()),
        within_window(s, min_value(g, own, depth), neg_inf(), pos_inf()),
    ensures
        r == max_value(g, depth),
        s == min_value(g, own, depth),
{
    lemma_max_range(g, depth);
    lemma_min_range(g, own, depth);
}


/// Whether `s` is a well-formed agent on a board of `cells` cells.
fn snake_well_formed(s: &Snake, cells: usize) -> (r: bool)
    requires
        cells <= 65025,
    ensures
        r == s@.wf(cells as int),
{
    let len = s.positions.len();
    if len == 0 || s.snake_arr.len() != cells || s.health > 100 {
        return false;
    }
    let mut i: usize = 0;
    while i < len
        invariant
            len == s.positions.len(),
            s.snake_arr.len() == cells,
            0 <= i <= len,
            forall|k: int| 0 <= k < i ==> (#[trigger] s.positions@[k]) < cells && s.snake_arr@[s.positions@[k] as int],
            forall|a: int, b: int| 0 <= a < b < i ==> s.positions@[a] != s.positions@[b],
        decreases len - i,
    {
        let p = s.positions[i];
        if p as usize >= cells {
            return false;
        }
        if !s.snake_arr[p as usize] {
            proof {
                assert(s@.positions.contains(p));
            }
            return false;
        }
        let mut j: usize = 0;
        while j < i
            invariant
                0 <= j <= i < len,
                len == s.positions.len(),
                p == s.positions@[i as int],
                forall|k: int| 0 <= k < j ==> s.positions@[k] != p,
            decreases i - j,
        {
            if s.positions[j] == p {
                proof {
                    assert(!s@.positions.no_duplicates());
                }
                return false;
            }
            j += 1;
        }
        i += 1;
    }
    let mut c: usize = 0;
    while c < cells
        invariant
            len == s.positions.len(),
            s.snake_arr.len() == cells,
            cells <= 65025,
            0 <= c <= cells,
            len >= 1,
            forall|k: int| 0 <= k < len ==> (#[trigger] s.positions@[k]) < cells && s.snake_arr@[s.positions@[k] as int],
            forall|a: int, b: int| 0 <= a < b < len ==> s.positions@[a] != s.positions@[b],
            forall|d: int| 0 <= d < c ==> (#[trigger] s.snake_arr@[d]) ==> s@.positions.contains(d as u16),
        decreases cells - c,
    {
        if s.snake_arr[c] {
            if !s.occupies_prefix(c as u16, len) {
                proof {
                    assert(!s@.positions.contains(c as u16)) by {
                        if s@.positions.contains(c as u16) {
                            let k = choose|k: int| 0 <= k < len && s.positions@[k] == c as u16;
                            assert(s.positions@[k] < cells);
                        }
                    }
                }
                return false;
            }
        }
        c += 1;
    }
    proof {
        assert forall|d: int| 0 <= d < cells implies (#[trigger] s@.body[d] <==> s@.positions.contains(d as u16)) by {
            if s@.positions.contains(d as u16) {
                let k = choose|k: int| 0 <= k < len && s.positions@[k] == d as u16;
                assert(s.snake_arr@[s.positions@[k] as int]);
            }
        }
    }
    true
}

impl Game {
    /// Whether the search may run on this board: its dimensions, its food
    /// map and every agent well formed, and between one and `MAX_AGENTS`
    /// agents.
    pub fn is_searchable(&self) -> (r: bool)
        ensures
            r == searchable(self@),
    {
        let ghost g = self@;
        let n = self.snakes.len();
        if self.width == 0 || self.height == 0 || n == 0 || n > MAX_AGENTS {
            return false;
        }
        proof {
            lemma_cells_bound(self.width, self.height);
        }
        let cells = self.width as usize * self.height as usize;
        if self.apples.len() < cells {
            return false;
        }
        let mut i: usize = 0;
        while i < n
            invariant
                g == self@,
                n == g.snakes.len(),
                cells == g.cells(),
                cells <= 65025,
                0 <= i <= n,
                forall|k: int| 0 <= k < i ==> (#[trigger] g.snakes[k]).wf(g.cells()),
            decreases n - i,
        {
            assert(self.snakes@[i as int]@ == g.snakes[i as int]);
            if !snake_well_formed(&self.snakes[i], cells) {
                return false;
            }
            i += 1;
        }
        true
    }
}


/// A controlled agent with no allowed move that is sent up anyway is
/// eliminated by the joint move, on a board of the same sentinel.
proof fn lemma_boxed_agent_dies(g: GameView, mv: Seq<u8>)
    requires
        searchable(g),
        g.valid_moves(mv),
        mv[0] == 0,
        g.snakes[0].alive(),
        !move_allowed(g.snakes[0], 0, g.width as int, g.height as int),
    ensures
        !apply_moves(g, mv).0.snakes[0].alive(),
        searchable(apply_moves(g, mv).0),
        win_score(apply_moves(g, mv).0) == win_score(g),
{
    let n = g.snakes.len();
    lemma_apply_wf(g, mv);
    lemma_first_pass(g, mv, n);
    lemma_first_pass(g, mv, 0);
    lemma_first_pass_stable(g, mv, 0, n);
}

proof fn lemma_boxed_joint(g: GameView, mv: Seq<u8>, depth: nat)
    requires
        searchable(g),
        depth >= 1,
        g.snakes[0].alive(),
        !any_move_allowed(g.snakes[0], g.width as int, g.height as int),
        1 <= mv.len() <= g.snakes.len(),
        mv[0] == 0,
        forall|i: int| 0 <= i < mv.len() ==> #[trigger] mv[i] < 4,
    ensures
        joint_value(g, mv, depth) == -win_score(g),
    decreases g.snakes.len() - mv.len(), 5int,
{
    if mv.len() >= g.snakes.len() {
        assert(!move_allowed(g.snakes[0], 0, g.width as int, g.height as int));
        lemma_boxed_agent_dies(g, mv);
    } else {
        let s = g.snakes[mv.len() as int];
        lemma_some_explored(s, g.width as int, g.height as int);
        lemma_boxed_worst(g, mv, 0, depth);
    }
}

proof fn lemma_boxed_worst(g: GameView, mv: Seq<u8>, d: int, depth: nat)
    requires
        searchable(g),
        depth >= 1,
        g.snakes[0].alive(),
        !any_move_allowed(g.snakes[0], g.width as int, g.height as int),
        1 <= mv.len() < g.snakes.len(),
        mv[0] == 0,
        forall|i: int| 0 <= i < mv.len() ==> #[trigger] mv[i] < 4,
        0 <= d <= 4,
    ensures
        (exists|e: u8|
            d <= e < 4 && explored(
                g.snakes[mv.len() as int],
                e,
                g.width as int,
                g.height as int,
            )) ==> worst_from(g, mv, d, depth) == -win_score(g),
        !(exists|e: u8|
            d <= e < 4 && explored(
                g.snakes[mv.len() as int],
                e,
                g.width as int,
                g.height as int,
            )) ==> worst_from(g, mv, d, depth) == pos_inf(),
    decreases g.snakes.len() - mv.len(), 4 - d,
{
    lemma_win_score_range(g);
    let s = g.snakes[mv.len() as int];
    if d < 4 {
        lemma_boxed_worst(g, mv, d + 1, depth);
        if explored(s, d as u8, g.width as int, g.height as int) {
            let next = mv.push(d as u8);
            assert forall|i: int| 0 <= i < next.len() implies #[trigger] next[i] < 4 by {
                if i < mv.len() {
                    assert(next[i] == mv[i]);
                }
            }
            assert(next[0] == 0);
            lemma_boxed_joint(g, next, depth);
        } else {
            if exists|e: u8| d <= e < 4 && explored(s, e, g.width as int, g.height as int) {
                let e = choose|e: u8| d <= e < 4 && explored(s, e, g.width as int, g.height as int);
                assert(e != d);
                assert(d + 1 <= e);
            }
        }
    }
}

/// A controlled agent boxed in by its own body and the walls, with a live
/// opponent left and at least one ply to search, scores the losing sentinel:
/// every explored line has it die on the first move.
pub proof fn lemma_boxed_in_loses(g: GameView, depth: nat)
    requires
        searchable(g),
        depth >= 1,
        g.snakes[0].alive(),
        !any_move_allowed(g.snakes[0], g.width as int, g.height as int),
        opponents_alive(g),
    ensures
        best_from(g, 0, depth) == -win_score(g),
        max_value(g, depth) == -win_score(g),
        min_value(g, 0, depth) == -win_score(g),
{
    lemma_win_score_range(g);
    let (w, h) = (g.width as int, g.height as int);
    let s = g.snakes[0];
    assert(explored(s, 0, w, h));
    assert(!explored(s, 1, w, h) && !explored(s, 2, w, h) && !explored(s, 3, w, h));
    lemma_boxed_joint(g, seq![0u8], depth);
    assert(best_from(g, 4, depth) == neg_inf());
    assert(best_from(g, 3, depth) == neg_inf());
    assert(best_from(g, 2, depth) == neg_inf());
    assert(best_from(g, 1, depth) == neg_inf());
    assert(min_value(g, 0, depth) == joint_value(g, seq![0u8], depth));
    assert(best_from(g, 0, depth) == max_int(min_value(g, 0, depth), best_from(g, 1, depth)));
}

} // verus!
