use vstd::prelude::*;
use vstd::set_lib::{set_int_range, lemma_int_range, lemma_len_subset};
use vstd::arithmetic::div_mod::{lemma_fundamental_div_mod, lemma_mod_bound};
use crate::game::{Game, GameView, Snake, SnakeView, lemma_cells_bound};

verus! {

/// Most agents a board may hold for its scores to stay within `i64`.
pub const MAX_AGENTS: usize = 1000000;

/// Factor by which every score is scaled so that it stays integral: the
/// open-space term of an agent is divided by `width + height`, its health
/// term by 5, and the opponents' total by their number.
pub open spec fn score_scale(g: GameView) -> int {
    5 * (g.width + g.height) * (if g.snakes.len() > 1 {
        g.snakes.len() - 1
    } else {
        1
    })
}

/// The sentinel of a won position (its negation: a lost one), 10000 points.
pub open spec fn win_score(g: GameView) -> int {
    10000 * score_scale(g)
}

/// Some agent, alive or not, occupies cell `c`.
pub open spec fn blocked(g: GameView, c: int) -> bool {
    exists|i: int| 0 <= i < g.snakes.len() && #[trigger] g.snakes[i].body[c]
}

/// One step from column `x`, row `y` in direction `dir`.
pub open spec fn step_xy(x: int, y: int, dir: u8) -> (int, int) {
    if dir == 0 {
        (x, y + 1)
    } else if dir == 1 {
        (x + 1, y)
    } else if dir == 2 {
        (x, y - 1)
    } else {
        (x - 1, y)
    }
}

/// Number of steps from column `x`, row `y` in direction `dir` before the edge.
pub open spec fn edge_distance(x: int, y: int, dir: u8, width: int, height: int) -> int {
    if dir == 0 {
        height - 1 - y
    } else if dir == 1 {
        width - 1 - x
    } else if dir == 2 {
        y
    } else {
        x
    }
}

/// Free cells met in a row when walking at most `k` steps from `(x, y)`.
pub open spec fn free_run(g: GameView, x: int, y: int, dir: u8, k: nat) -> nat
    decreases k,
{
    if k == 0 {
        0
    } else {
        let n = step_xy(x, y, dir);
        if blocked(g, n.1 * g.width + n.0) {
            0
        } else {
            1 + free_run(g, n.0, n.1, dir, (k - 1) as nat)
        }
    }
}

/// Free cells in a row from cell `c` in direction `dir`, up to the edge.
pub open spec fn ray(g: GameView, c: int, dir: u8) -> nat {
    let x = c % g.width as int;
    let y = c / g.width as int;
    free_run(g, x, y, dir, edge_distance(x, y, dir, g.width as int, g.height as int) as nat)
}

/// The four rays from cell `c` together.
pub open spec fn open_space(g: GameView, c: int) -> nat {
    ray(g, c, 0) + ray(g, c, 1) + ray(g, c, 2) + ray(g, c, 3)
}

/// An agent's standing, scaled by `5 * (width + height)`: length plus
/// pending growth, open space over `width + height`, and `(health - 50) / 5`.
pub open spec fn composite(g: GameView, s: SnakeView) -> int {
    let wh = g.width + g.height;
    5 * wh * (s.positions.len() + s.queued) + 5 * open_space(g, s.head() as int) + wh * (s.health
        - 50)
}

pub open spec fn opponents_alive(g: GameView) -> bool {
    exists|i: int| 1 <= i < g.snakes.len() && #[trigger] g.snakes[i].alive()
}

/// Sum of the standings of the live opponents among agents `1..k`.
pub open spec fn opponents_total(g: GameView, k: int) -> int
    decreases k,
{
    if k <= 1 {
        0
    } else {
        opponents_total(g, k - 1) + if g.snakes[k - 1].alive() {
            composite(g, g.snakes[k - 1])
        } else {
            0
        }
    }
}

/// The static score of a position, scaled by `score_scale`: draw when every
/// agent is dead, the sentinels when only one side is, and otherwise the
/// controlled agent's standing minus the average standing of the live
/// opponents, counted over all opponents.
pub open spec fn evaluation(g: GameView) -> int {
    let self_dead = !g.snakes[0].alive();
    if self_dead && !opponents_alive(g) {
        0
    } else if self_dead {
        -win_score(g)
    } else if !opponents_alive(g) {
        win_score(g)
    } else {
        (g.snakes.len() - 1) * composite(g, g.snakes[0]) - opponents_total(g, g.snakes.len() as int)
    }
}

/// An agent's distinct cells of the grid are no more than the grid has.
pub proof fn lemma_length_bound(s: SnakeView, cells: int)
    requires
        cells >= 0,
        s.wf(cells),
    ensures
        s.positions.len() <= cells,
{
    let ps = s.positions.map_values(|p: u16| p as int);
    assert(ps.no_duplicates()) by {
        assert forall|i: int, j: int| 0 <= i < j < ps.len() implies ps[i] != ps[j] by {
            assert(s.positions[i] != s.positions[j]);
        }
    }
    ps.unique_seq_to_set();
    lemma_int_range(0, cells);
    assert forall|v: int| ps.to_set().contains(v) implies set_int_range(0, cells).contains(v) by {
        let i = choose|i: int| 0 <= i < ps.len() && ps[i] == v;
        assert(s.positions[i] < cells);
    }
    lemma_len_subset(ps.to_set(), set_int_range(0, cells));
}

/// A walk of at most `k` steps meets at most `k` free cells.
pub proof fn lemma_free_run_bound(g: GameView, x: int, y: int, dir: u8, k: nat)
    ensures
        free_run(g, x, y, dir, k) <= k,
    decreases k,
{
    if k > 0 {
        let n = step_xy(x, y, dir);
        lemma_free_run_bound(g, n.0, n.1, dir, (k - 1) as nat);
    }
}

proof fn lemma_cell_in_grid(x: int, y: int, w: int, h: int)
    requires
        0 <= x < w,
        0 <= y < h,
    ensures
        0 <= y * w + x < w * h,
{
    assert(0 <= y * w + x < w * h) by (nonlinear_arith)
        requires
            0 <= x < w,
            0 <= y < h,
    ;
}

proof fn lemma_coords(c: int, w: int, h: int)
    requires
        0 <= c < w * h,
        w >= 1,
    ensures
        0 <= c % w < w,
        0 <= c / w < h,
{
    lemma_fundamental_div_mod(c, w);
    lemma_mod_bound(c, w);
    let q = c / w;
    let r = c % w;
    assert(0 <= q < h) by (nonlinear_arith)
        requires
            c == w * q + r,
            0 <= r < w,
            0 <= c < w * h,
            w >= 1,
    ;
}

/// Cell by cell, whether some agent occupies it.
fn blockers(game: &Game) -> (r: Vec<bool>)
    requires
        game@.wf(),
    ensures
        r@.len() == game@.cells(),
        forall|c: int| 0 <= c < game@.cells() ==> r@[c] == blocked(game@, c),
{
    proof {
        lemma_cells_bound(game.width, game.height);
    }
    let cells = game.width as usize * game.height as usize;
    let mut r: Vec<bool> = Vec::new();
    let mut c: usize = 0;
    while c < cells
        invariant
            game@.wf(),
            cells == game@.cells(),
            0 <= c <= cells,
            r@.len() == c,
            forall|d: int| 0 <= d < c ==> r@[d] == blocked(game@, d),
        decreases cells - c,
    {
        let mut any = false;
        let mut i: usize = 0;
        while i < game.snakes.len()
            invariant
                game@.wf(),
                cells == game@.cells(),
                0 <= c < cells,
                0 <= i <= game.snakes.len(),
                any == exists|j: int| 0 <= j < i && #[trigger] game@.snakes[j].body[c as int],
            decreases game.snakes.len() - i,
        {
            proof {
                assert(game@.snakes[i as int].wf(game@.cells()));
                assert(game.snakes@[i as int]@ == game@.snakes[i as int]);
            }
            if game.snakes[i].snake_arr[c] {
                any = true;
            }
            i += 1;
        }
        r.push(any);
        c += 1;
    }
    r
}

/// Length of the ray from `(x0, y0)` in direction `dir`.
fn ray_length(game: &Game, blocks: &Vec<bool>, x0: u32, y0: u32, dir: u8) -> (r: u32)
    requires
        game@.wf(),
        blocks@.len() == game@.cells(),
        forall|c: int| 0 <= c < game@.cells() ==> blocks@[c] == blocked(game@, c),
        x0 < game.width,
        y0 < game.height,
        dir < 4,
    ensures
        r == free_run(
            game@,
            x0 as int,
            y0 as int,
            dir,
            edge_distance(x0 as int, y0 as int, dir, game.width as int, game.height as int) as nat,
        ),
        r <= 255,
{
    let w = game.width as u32;
    let h = game.height as u32;
    let k0: u32 = if dir == 0 {
        h - 1 - y0
    } else if dir == 1 {
        w - 1 - x0
    } else if dir == 2 {
        y0
    } else {
        x0
    };
    let ghost full = free_run(game@, x0 as int, y0 as int, dir, k0 as nat);
    let mut x = x0;
    let mut y = y0;
    let mut rem = k0;
    let mut total: u32 = 0;
    let mut stop = false;
    while !stop && rem > 0
        invariant
            game@.wf(),
            w == game.width,
            h == game.height,
            blocks@.len() == game@.cells(),
            forall|c: int| 0 <= c < game@.cells() ==> blocks@[c] == blocked(game@, c),
            dir < 4,
            k0 <= 255,
            x < w,
            y < h,
            rem == edge_distance(x as int, y as int, dir, w as int, h as int),
            total + rem <= k0,
            full == free_run(game@, x0 as int, y0 as int, dir, k0 as nat),
            stop ==> total == full,
            !stop ==> total + free_run(game@, x as int, y as int, dir, rem as nat) == full,
        decreases rem + (if stop { 0int } else { 1int }),
    {
        let nx = if dir == 1 {
            x + 1
        } else if dir == 3 {
            x - 1
        } else {
            x
        };
        let ny = if dir == 0 {
            y + 1
        } else if dir == 2 {
            y - 1
        } else {
            y
        };
        proof {
            lemma_cell_in_grid(nx as int, ny as int, w as int, h as int);
            lemma_cells_bound(game.width, game.height);
        }
        let idx = ny * w + nx;
        if blocks[idx as usize] {
            stop = true;
        } else {
            total = total + 1;
            x = nx;
            y = ny;
            rem = rem - 1;
        }
    }
    total
}

/// An agent's standing, scaled as `composite` is.
fn standing(game: &Game, blocks: &Vec<bool>, s: &Snake) -> (r: i64)
    requires
        game@.wf(),
        blocks@.len() == game@.cells(),
        forall|c: int| 0 <= c < game@.cells() ==> blocks@[c] == blocked(game@, c),
        s@.wf(game@.cells()),
    ensures
        r == composite(game@, s@),
        -30000 <= r <= 200000000,
{
    let ghost g = game@;
    proof {
        lemma_cells_bound(game.width, game.height);
        lemma_length_bound(s@, g.cells());
        lemma_coords(s@.head() as int, g.width as int, g.height as int);
    }
    let w = game.width as u32;
    let head = s.positions[0] as u32;
    let x = head % w;
    let y = head / w;
    let space = ray_length(game, blocks, x, y, 0) + ray_length(game, blocks, x, y, 1) + ray_length(
        game,
        blocks,
        x,
        y,
        2,
    ) + ray_length(game, blocks, x, y, 3);
    let wh = game.width as i64 + game.height as i64;
    let size = s.positions.len() as i64 + s.queued as i64;
    assert(0 <= size <= 65280);
    assert(0 <= 5 * wh * size <= 5 * 510 * 65280) by (nonlinear_arith)
        requires
            0 <= wh <= 510,
            0 <= size <= 65280,
    ;
    assert(-50 * 510 <= wh * (s.health as i64 - 50) <= 50 * 510) by (nonlinear_arith)
        requires
            0 <= wh <= 510,
            -50 <= s.health - 50 <= 50,
    ;
    5 * wh * size + 5 * space as i64 + wh * (s.health as i64 - 50)
}

/// The static score of `game`, scaled by `score_scale`.
pub fn eval(game: &Game) -> (r: i64)
    requires
        game@.wf(),
        1 <= game@.snakes.len() <= MAX_AGENTS,
    ensures
        r == evaluation(game@),
{
    let ghost g = game@;
    let n = game.snakes.len();
    assert(game.snakes@[0]@ == g.snakes[0]);
    let self_dead = game.snakes[0].health == 0;
    let others_dead = !any_opponent_alive(game);
    let scale = score_scale_of(game);
    assert(0 <= scale <= 2550000000);
    let win = 10000 * scale;
    if self_dead && others_dead {
        return 0;
    } else if self_dead {
        return 0 - win;
    } else if others_dead {
        return win;
    }
    let blocks = blockers(game);
    assert(g.snakes[0].wf(g.cells()));
    let own = standing(game, &blocks, &game.snakes[0]);
    let mut total: i64 = 0;
    let mut k: usize = 1;
    while k < n
        invariant
            g == game@,
            g.wf(),
            n == g.snakes.len(),
            n <= MAX_AGENTS,
            1 <= k <= n,
            blocks@.len() == g.cells(),
            forall|c: int| 0 <= c < g.cells() ==> blocks@[c] == blocked(g, c),
            total == opponents_total(g, k as int),
            -30000 * k <= total <= 200000000 * k,
        decreases n - k,
    {
        assert(game.snakes@[k as int]@ == g.snakes[k as int]);
        assert(g.snakes[k as int].wf(g.cells()));
        if game.snakes[k].health != 0 {
            let c = standing(game, &blocks, &game.snakes[k]);
            total = total + c;
        }
        k += 1;
    }
    let m = (n - 1) as i64;
    assert(-30000 * m <= m * own <= 200000000 * m) by (nonlinear_arith)
        requires
            0 <= m <= MAX_AGENTS,
            -30000 <= own <= 200000000,
    ;
    m * own - total
}

/// Whether some agent other than the controlled one is alive.
pub fn any_opponent_alive(game: &Game) -> (r: bool)
    ensures
        r == opponents_alive(game@),
{
    let ghost g = game@;
    let n = game.snakes.len();
    let mut i: usize = 1;
    while i < n
        invariant
            g == game@,
            n == g.snakes.len(),
            1 <= i,
            forall|j: int| 1 <= j < i && j < n ==> !(#[trigger] g.snakes[j].alive()),
        decreases n - i,
    {
        assert(game.snakes@[i as int]@ == g.snakes[i as int]);
        if game.snakes[i].health != 0 {
            assert(g.snakes[i as int].alive());
            return true;
        }
        i += 1;
    }
    false
}

/// Every agent's standing stays within a fixed range.
pub proof fn lemma_composite_range(g: GameView, s: SnakeView)
    requires
        g.wf(),
        s.wf(g.cells()),
    ensures
        -30000 <= composite(g, s) <= 200000000,
{
    lemma_cells_bound(g.width, g.height);
    lemma_length_bound(s, g.cells());
    let c = s.head() as int;
    lemma_coords(c, g.width as int, g.height as int);
    let x = c % g.width as int;
    let y = c / g.width as int;
    let (w, h) = (g.width as int, g.height as int);
    lemma_free_run_bound(g, x, y, 0, edge_distance(x, y, 0, w, h) as nat);
    lemma_free_run_bound(g, x, y, 1, edge_distance(x, y, 1, w, h) as nat);
    lemma_free_run_bound(g, x, y, 2, edge_distance(x, y, 2, w, h) as nat);
    lemma_free_run_bound(g, x, y, 3, edge_distance(x, y, 3, w, h) as nat);
    let wh = g.width + g.height;
    let size = s.positions.len() + s.queued;
    assert(0 <= 5 * wh * size <= 5 * 510 * 65280) by (nonlinear_arith)
        requires
            0 <= wh <= 510,
            0 <= size <= 65280,
    ;
    assert(-50 * 510 <= wh * (s.health - 50) <= 50 * 510) by (nonlinear_arith)
        requires
            0 <= wh <= 510,
            -50 <= s.health - 50 <= 50,
    ;
}

proof fn lemma_opponents_total_range(g: GameView, k: int)
    requires
        g.wf(),
        1 <= k <= g.snakes.len(),
    ensures
        -30000 * k <= opponents_total(g, k) <= 200000000 * k,
    decreases k,
{
    if k > 1 {
        lemma_opponents_total_range(g, k - 1);
        assert(g.snakes[k - 1].wf(g.cells()));
        lemma_composite_range(g, g.snakes[k - 1]);
    }
}

/// The sentinel stays far inside the range of `i64`.
pub proof fn lemma_win_score_range(g: GameView)
    requires
        g.snakes.len() <= MAX_AGENTS,
    ensures
        0 <= win_score(g) <= 0x4000_0000_0000_0000,
{
    let n = g.snakes.len() as int;
    assert(0 <= score_scale(g) <= 5 * 510 * MAX_AGENTS) by (nonlinear_arith)
        requires
            score_scale(g) == 5 * (g.width + g.height) * (if n > 1 {
                n - 1
            } else {
                1
            }),
            0 <= g.width + g.height <= 510,
            0 <= n <= MAX_AGENTS,
    ;
}

/// The static score stays far inside the range of `i64`.
pub proof fn lemma_evaluation_range(g: GameView)
    requires
        g.wf(),
        1 <= g.snakes.len() <= MAX_AGENTS,
    ensures
        -0x4000_0000_0000_0000 <= evaluation(g) <= 0x4000_0000_0000_0000,
{
    let n = g.snakes.len() as int;
    let m = n - 1;
    lemma_win_score_range(g);
    assert(g.snakes[0].wf(g.cells()));
    lemma_composite_range(g, g.snakes[0]);
    lemma_opponents_total_range(g, n);
    let own = composite(g, g.snakes[0]);
    assert(-30000 * m <= m * own <= 200000000 * m) by (nonlinear_arith)
        requires
            0 <= m <= MAX_AGENTS,
            -30000 <= own <= 200000000,
    ;
}

/// The factor by which scores of `game` are scaled; see `score_scale`.
pub fn score_scale_of(game: &Game) -> (r: i64)
    requires
        game@.snakes.len() <= MAX_AGENTS,
    ensures
        r == score_scale(game@),
        0 <= r <= 5 * 510 * MAX_AGENTS,
{
    let n = game.snakes.len();
    let m: i64 = if n > 1 {
        (n - 1) as i64
    } else {
        1
    };
    let wh = game.width as i64 + game.height as i64;
    assert(0 <= 5 * wh * m <= 5 * 510 * MAX_AGENTS) by (nonlinear_arith)
        requires
            0 <= wh <= 510,
            0 <= m <= MAX_AGENTS,
    ;
    5 * wh * m
}


/// Terminal overrides: with every agent dead the score is a draw, with only
/// the controlled agent dead it is the losing sentinel, and with only the
/// opponents dead the winning one, whatever the lengths, health, growth and
/// open space of the agents.
pub proof fn lemma_terminal_overrides(g: GameView)
    requires
        g.snakes.len() >= 1,
    ensures
        !g.snakes[0].alive() && !opponents_alive(g) ==> evaluation(g) == 0,
        !g.snakes[0].alive() && opponents_alive(g) ==> evaluation(g) == -win_score(g),
        g.snakes[0].alive() && !opponents_alive(g) ==> evaluation(g) == win_score(g),
        win_score(g) == 10000 * score_scale(g),
{
}

} // verus!
