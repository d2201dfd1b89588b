use vstd::prelude::*;

verus! {

/// Cell reached from `head` by moving one step in direction `dir`
/// (0: +width, 1: +1, 2: -width, 3: -1), before any bounds check.
pub open spec fn target_cell(head: int, dir: u8, width: int) -> int {
    if dir == 0 {
        head + width
    } else if dir == 1 {
        head + 1
    } else if dir == 2 {
        head - width
    } else {
        head - 1
    }
}

/// Moving from `head` in `dir` leaves the grid: off the top or bottom, or
/// across a row boundary (right from the last column, left from the first).
pub open spec fn leaves_board(head: int, dir: u8, width: int, height: int) -> bool {
    let t = target_cell(head, dir, width);
    ||| t < 0
    ||| t >= width * height
    ||| (dir == 1 && head % width == width - 1)
    ||| (dir == 3 && head % width == 0)
}

pub struct SnakeView {
    pub positions: Seq<u16>,
    pub body: Seq<bool>,
    pub health: u8,
    pub queued: u8,
}

#[derive(Clone, Debug, Eq, PartialEq)]
pub struct Snake {
    pub positions: Vec<u16>,
    pub snake_arr: Vec<bool>,
    pub health: u8,
    pub queued: u8,
}

impl View for Snake {
    type V = SnakeView;

    open spec fn view(&self) -> SnakeView {
        SnakeView {
            positions: self.positions@,
            body: self.snake_arr@,
            health: self.health,
            queued: self.queued,
        }
    }
}

impl SnakeView {
    pub open spec fn head(self) -> u16 {
        self.positions[0]
    }

    pub open spec fn tail(self) -> u16 {
        self.positions.last()
    }

    pub open spec fn alive(self) -> bool {
        self.health != 0
    }

    /// Number of leading segments that stay in place during a move: all of
    /// them while growth is pending, all but the tail otherwise.
    pub open spec fn kept_len(self) -> int {
        if self.queued > 0 {
            self.positions.len() as int
        } else {
            self.positions.len() - 1
        }
    }

    /// A move onto `t` runs into a segment of this agent that does not vacate.
    pub open spec fn hits_self(self, t: int) -> bool {
        exists|i: int| 0 <= i < self.kept_len() && self.positions[i] as int == t
    }

    /// Positions are distinct cells of the grid, at least one, and the body
    /// bitmap marks exactly those cells.
    pub open spec fn wf(self, cells: int) -> bool {
        &&& self.positions.len() >= 1
        &&& self.positions.no_duplicates()
        &&& self.body.len() == cells
        &&& forall|i: int| 0 <= i < self.positions.len() ==> (#[trigger] self.positions[i]) < cells
        &&& forall|c: int| 0 <= c < cells ==> (#[trigger] self.body[c] <==> self.positions.contains(c as u16))
        &&& self.health <= 100
    }

    pub open spec fn with_health(self, health: u8) -> SnakeView {
        SnakeView { health, ..self }
    }
}

/// What one agent's move changed, enough to take the move back.
#[derive(Clone, Copy, Debug, Eq, PartialEq)]
pub struct AgentChange {
    pub prev_health: u8,
    pub tail: u16,
    pub hit_inaccessible: bool,
    pub was_queued: bool,
    pub ate: bool,
}

/// The undo record of one joint move: one entry per agent.
#[derive(Clone, Debug, Eq, PartialEq)]
pub struct ChangedState {
    changes: Vec<AgentChange>,
}

impl View for ChangedState {
    type V = Seq<AgentChange>;

    closed spec fn view(&self) -> Seq<AgentChange> {
        self.changes@
    }
}

pub struct GameView {
    pub snakes: Seq<SnakeView>,
    pub apples: Seq<bool>,
    pub width: u8,
    pub height: u8,
}

#[derive(Clone, Debug, Eq, PartialEq)]
pub struct Game {
    pub snakes: Vec<Snake>,
    pub apples: Vec<bool>,
    pub width: u8,
    pub height: u8,
}

impl View for Game {
    type V = GameView;

    open spec fn view(&self) -> GameView {
        GameView {
            snakes: self.snakes@.map_values(|s: Snake| s@),
            apples: self.apples@,
            width: self.width,
            height: self.height,
        }
    }
}

impl GameView {
    pub open spec fn cells(self) -> int {
        self.width as int * self.height as int
    }

    pub open spec fn wf(self) -> bool {
        &&& self.width >= 1
        &&& self.height >= 1
        &&& self.apples.len() >= self.cells()
        &&& forall|i: int| 0 <= i < self.snakes.len() ==> (#[trigger] self.snakes[i]).wf(self.cells())
    }

    /// Every agent gets a direction, and every direction is one of the four.
    pub open spec fn valid_moves(self, dirs: Seq<u8>) -> bool {
        &&& dirs.len() == self.snakes.len()
        &&& forall|i: int| 0 <= i < dirs.len() ==> #[trigger] dirs[i] < 4
    }
}


/// One agent's share of the first pass of a joint move, given the food as
/// the agents before it left it: the agent after the move, the food after
/// the move, and the undo entry.
pub open spec fn step_snake(s: SnakeView, dir: u8, width: int, height: int, apples: Seq<bool>) -> (
    SnakeView,
    Seq<bool>,
    AgentChange,
) {
    let rec = AgentChange {
        prev_health: s.health,
        tail: s.tail(),
        hit_inaccessible: false,
        was_queued: s.queued > 0,
        ate: false,
    };
    let t = target_cell(s.head() as int, dir, width);
    if !s.alive() {
        (s, apples, rec)
    } else if leaves_board(s.head() as int, dir, width, height) || s.hits_self(t) {
        (s.with_health(0), apples, AgentChange { hit_inaccessible: true, ..rec })
    } else {
        let moved = SnakeView {
            positions: seq![t as u16] + s.positions.take(s.kept_len()),
            body: if s.queued > 0 {
                s.body.update(t, true)
            } else {
                s.body.update(s.tail() as int, false).update(t, true)
            },
            health: (s.health - 1) as u8,
            queued: if s.queued > 0 {
                (s.queued - 1) as u8
            } else {
                0
            },
        };
        if apples[t] {
            (
                SnakeView { health: 100, queued: (moved.queued + 1) as u8, ..moved },
                apples.update(t, false),
                AgentChange { ate: true, ..rec },
            )
        } else {
            (moved, apples, rec)
        }
    }
}

/// The first pass over agents `0..k`: each agent moves on its own, in index
/// order, and the food it eats is gone for the agents after it.
pub open spec fn first_pass(g: GameView, dirs: Seq<u8>, k: nat) -> (
    Seq<SnakeView>,
    Seq<bool>,
    Seq<AgentChange>,
)
    decreases k,
{
    if k == 0 {
        (g.snakes, g.apples, seq![])
    } else {
        let p = first_pass(g, dirs, (k - 1) as nat);
        let i = k - 1;
        let st = step_snake(p.0[i], dirs[i], g.width as int, g.height as int, p.1);
        (p.0.update(i, st.0), st.1, p.2.push(st.2))
    }
}

/// Agent `a` loses against agent `b`: heads meet and `a` is not longer, or
/// the head of `a` lies on the body of `b` behind its head.
pub open spec fn collides(a: SnakeView, b: SnakeView) -> bool {
    if a.head() == b.head() {
        a.positions.len() <= b.positions.len()
    } else {
        b.positions.skip(1).contains(a.head())
    }
}

/// After the first pass, agent `i` is alive and loses against another live agent.
pub open spec fn eliminated(ss: Seq<SnakeView>, i: int) -> bool {
    &&& ss[i].alive()
    &&& exists|j: int| 0 <= j < ss.len() && j != i && ss[j].alive() && collides(ss[i], ss[j])
}

/// The second pass: every collision is judged on the positions that the
/// first pass left, all at once, so the order of the agents plays no part.
pub open spec fn second_pass(ss: Seq<SnakeView>) -> Seq<SnakeView> {
    Seq::new(ss.len(), |i: int| if eliminated(ss, i) { ss[i].with_health(0) } else { ss[i] })
}

/// The board after a joint move, and the undo record of that move.
pub open spec fn apply_moves(g: GameView, dirs: Seq<u8>) -> (GameView, Seq<AgentChange>) {
    let p = first_pass(g, dirs, g.snakes.len());
    (GameView { snakes: second_pass(p.0), apples: p.1, ..g }, p.2)
}

/// A board of `u8` dimensions has at most 65025 cells, so every cell index
/// fits in a `u16`.
pub proof fn lemma_cells_bound(w: u8, h: u8)
    ensures
        0 <= w as int * h as int <= 65025,
{
    assert(0 <= w as int * h as int <= 65025) by (nonlinear_arith)
        requires
            w <= 255,
            h <= 255,
    ;
}

pub(crate) fn leaves(head: u16, dir: u8, width: u8, height: u8) -> (r: bool)
    requires
        width >= 1,
    ensures
        r == leaves_board(head as int, dir, width as int, height as int),
{
    proof {
        lemma_cells_bound(width, height);
    }
    let w = width as i32;
    let cells = w * height as i32;
    let hd = head as i32;
    let t = if dir == 0 {
        hd + w
    } else if dir == 1 {
        hd + 1
    } else if dir == 2 {
        hd - w
    } else {
        hd - 1
    };
    t < 0 || t >= cells || (dir == 1 && hd % w == w - 1) || (dir == 3 && hd % w == 0)
}

impl Snake {
    /// Whether `t` is among the first `k` positions.
    pub(crate) fn occupies_prefix(&self, t: u16, k: usize) -> (r: bool)
        requires
            k <= self.positions.len(),
        ensures
            r == exists|i: int| 0 <= i < k && self.positions@[i] == t,
    {
        let mut i: usize = 0;
        while i < k
            invariant
                k <= self.positions.len(),
                0 <= i <= k,
                forall|j: int| 0 <= j < i ==> self.positions@[j] != t,
            decreases k - i,
        {
            if self.positions[i] == t {
                return true;
            }
            i += 1;
        }
        false
    }

    fn step(&mut self, dir: u8, width: u8, height: u8, apples: &mut Vec<bool>) -> (r: AgentChange)
        requires
            width >= 1,
            height >= 1,
            dir < 4,
            old(self)@.wf(width as int * height as int),
            old(apples)@.len() >= width as int * height as int,
        ensures
            (final(self)@, final(apples)@, r) == step_snake(
                old(self)@,
                dir,
                width as int,
                height as int,
                old(apples)@,
            ),
    {
        let ghost s0 = self@;
        let ghost cells = width as int * height as int;
        proof {
            lemma_cells_bound(width, height);
        }
        let len = self.positions.len();
        let tail = self.positions[len - 1];
        let rec = AgentChange {
            prev_health: self.health,
            tail,
            hit_inaccessible: false,
            was_queued: self.queued > 0,
            ate: false,
        };
        if self.health == 0 {
            return rec;
        }
        let head = self.positions[0];
        if leaves(head, dir, width, height) {
            self.health = 0;
            return AgentChange { hit_inaccessible: true, ..rec };
        }
        let t: u16 = if dir == 0 {
            head + width as u16
        } else if dir == 1 {
            head + 1
        } else if dir == 2 {
            head - width as u16
        } else {
            head - 1
        };
        let kept = if self.queued > 0 {
            len
        } else {
            len - 1
        };
        if self.occupies_prefix(t, kept) {
            self.health = 0;
            return AgentChange { hit_inaccessible: true, ..rec };
        }
        if self.queued == 0 {
            self.positions.pop();
            self.snake_arr[tail as usize] = false;
        } else {
            self.queued = self.queued - 1;
        }
        self.positions.insert(0, t);
        self.snake_arr[t as usize] = true;
        self.health = self.health - 1;
        assert(self.positions@ =~= seq![t] + s0.positions.take(s0.kept_len()));
        if apples[t as usize] {
            self.health = 100;
            self.queued = self.queued + 1;
            apples[t as usize] = false;
            return AgentChange { ate: true, ..rec };
        }
        rec
    }
}


/// What one agent's step does to the food, and that it keeps the agent
/// well formed.
pub proof fn lemma_step(s: SnakeView, dir: u8, w: u8, h: u8, apples: Seq<bool>)
    requires
        w >= 1,
        h >= 1,
        dir < 4,
        s.wf(w as int * h as int),
        apples.len() >= w as int * h as int,
    ensures
        ({
            let width = w as int;
            let height = h as int;
            let st = step_snake(s, dir, width, height, apples);
            &&& st.0.wf(width * height)
            &&& st.1.len() == apples.len()
            &&& st.0.positions.len() >= 1
            &&& st.2.ate ==> apples[st.0.head() as int] && st.0.head() < width * height
            &&& forall|c: int|
                0 <= c < apples.len() ==> #[trigger] st.1[c] == (apples[c] && !(st.2.ate && c
                    == st.0.head()))
        }),
{
    let width = w as int;
    let height = h as int;
    lemma_cells_bound(w, h);
    let cells = width * height;
    let st = step_snake(s, dir, width, height, apples);
    let t = target_cell(s.head() as int, dir, width);
    if s.alive() && !(leaves_board(s.head() as int, dir, width, height) || s.hits_self(t)) {
        let kept = s.positions.take(s.kept_len());
        let np = seq![t as u16] + kept;
        assert(0 <= t < cells);
        assert(kept.len() == s.kept_len());
        assert forall|i: int| 0 < i < np.len() implies np[i] == s.positions[i - 1] by {
            assert(np[i] == kept[i - 1]);
        }
        assert(np[0] == t as u16);
        assert forall|i: int| 0 <= i < np.len() implies (#[trigger] np[i]) < cells by {
            if i > 0 {
                assert(np[i] == s.positions[i - 1]);
            }
        }
        assert forall|i: int, j: int| 0 <= i < j < np.len() implies np[i] != np[j] by {
            if i == 0 {
                assert(np[j] == s.positions[j - 1]);
                assert(!s.hits_self(t));
            } else {
                assert(np[i] == s.positions[i - 1]);
                assert(np[j] == s.positions[j - 1]);
            }
        }
        assert(np.no_duplicates());
        assert forall|c: int| 0 <= c < cells implies (#[trigger] st.0.body[c] <==> st.0.positions.contains(
            c as u16,
        )) by {
            if c == t {
                assert(np[0] == c as u16);
            } else if s.queued == 0 && c == s.tail() as int {
                if np.contains(c as u16) {
                    let i = choose|i: int| 0 <= i < np.len() && np[i] == c as u16;
                    assert(np[i] == s.positions[i - 1]);
                    assert(s.positions[s.positions.len() - 1] == c as u16);
                }
            } else {
                if s.positions.contains(c as u16) {
                    let i = choose|i: int| 0 <= i < s.positions.len() && s.positions[i] == c as u16;
                    if s.queued == 0 {
                        assert(i != s.positions.len() - 1);
                    }
                    assert(np[i + 1] == c as u16);
                }
                if np.contains(c as u16) {
                    let i = choose|i: int| 0 <= i < np.len() && np[i] == c as u16;
                    assert(np[i] == s.positions[i - 1]);
                }
            }
        }
    }
}

/// The first pass keeps the number of agents, keeps every agent well formed,
/// leaves the agents from `k` on untouched, and clears exactly the food that
/// was eaten.
pub proof fn lemma_first_pass(g: GameView, dirs: Seq<u8>, k: nat)
    requires
        g.wf(),
        g.valid_moves(dirs),
        k <= g.snakes.len(),
    ensures
        ({
            let p = first_pass(g, dirs, k);
            &&& p.0.len() == g.snakes.len()
            &&& p.1.len() == g.apples.len()
            &&& p.2.len() == k
            &&& forall|j: int| k <= j < g.snakes.len() ==> p.0[j] == g.snakes[j]
            &&& forall|j: int| 0 <= j < g.snakes.len() ==> (#[trigger] p.0[j]).wf(g.cells())
            &&& forall|j: int|
                0 <= j < k ==> (#[trigger] p.2[j]).ate ==> g.apples[p.0[j].head() as int]
                    && p.0[j].head() < g.cells()
            &&& forall|c: int|
                0 <= c < g.apples.len() ==> #[trigger] p.1[c] == (g.apples[c] && !exists|j: int|
                    0 <= j < k && p.2[j].ate && p.0[j].head() == c)
        }),
    decreases k,
{
    if k > 0 {
        let i = k - 1;
        lemma_first_pass(g, dirs, (k - 1) as nat);
        let p = first_pass(g, dirs, (k - 1) as nat);
        lemma_step(p.0[i], dirs[i], g.width, g.height, p.1);
        let q = first_pass(g, dirs, k);
        assert forall|c: int| 0 <= c < g.apples.len() implies #[trigger] q.1[c] == (g.apples[c]
            && !exists|j: int| 0 <= j < k && q.2[j].ate && q.0[j].head() == c) by {
            assert forall|j: int| 0 <= j < i implies q.2[j] == p.2[j] && q.0[j] == p.0[j] by {}
            let st = step_snake(p.0[i], dirs[i], g.width as int, g.height as int, p.1);
            assert(q.0[i] == st.0 && q.2[i] == st.2);
            assert(q.1[c] == (p.1[c] && !(st.2.ate && c == st.0.head())));
            if exists|j: int| 0 <= j < k && q.2[j].ate && q.0[j].head() == c {
                let j = choose|j: int| 0 <= j < k && q.2[j].ate && q.0[j].head() == c;
                if j < i {
                    assert(p.2[j].ate && p.0[j].head() == c);
                }
            }
            if exists|j: int| 0 <= j < i && p.2[j].ate && p.0[j].head() == c {
                let j = choose|j: int| 0 <= j < i && p.2[j].ate && p.0[j].head() == c;
                assert(q.2[j].ate && q.0[j].head() == c);
            }
        }
        assert forall|j: int| 0 <= j < k implies (#[trigger] q.2[j]).ate ==> g.apples[q.0[j].head() as int]
            && q.0[j].head() < g.cells() by {
            if j < i {
                assert(q.2[j] == p.2[j] && q.0[j] == p.0[j]);
            } else {
                if q.2[j].ate {
                    assert(p.1[q.0[j].head() as int]);
                }
            }
        }
    }
}

impl Snake {
    /// Whether the head of `self` lies on the body of `other` behind its head.
    fn head_on_body_of(&self, other: &Snake) -> (r: bool)
        requires
            self.positions.len() >= 1,
            other.positions.len() >= 1,
        ensures
            r == other.positions@.skip(1).contains(self.positions@[0]),
    {
        let h = self.positions[0];
        let mut i: usize = 1;
        while i < other.positions.len()
            invariant
                1 <= i <= other.positions.len(),
                h == self.positions@[0],
                forall|j: int| 1 <= j < i ==> other.positions@[j] != h,
            decreases other.positions.len() - i,
        {
            if other.positions[i] == h {
                assert(other.positions@.skip(1)[i - 1] == h);
                assert(other.positions@.skip(1).contains(h));
                return true;
            }
            i += 1;
        }
        proof {
            if other.positions@.skip(1).contains(h) {
                let j = choose|j: int| 0 <= j < other.positions@.skip(1).len() && other.positions@.skip(1)[j] == h;
                assert(other.positions@[j + 1] == h);
            }
        }
        false
    }

    /// Whether `self` loses a collision against `other`.
    fn loses_to(&self, other: &Snake) -> (r: bool)
        requires
            self.positions.len() >= 1,
            other.positions.len() >= 1,
        ensures
            r == collides(self@, other@),
    {
        if self.positions[0] == other.positions[0] {
            self.positions.len() <= other.positions.len()
        } else {
            self.head_on_body_of(other)
        }
    }
}

impl Game {
    /// Apply one joint move, `directions[i]` for agent `i`, and return what is
    /// needed to take it back.
    pub fn move_snakes(&mut self, directions: &Vec<u8>) -> (r: ChangedState)
        requires
            old(self)@.wf(),
            old(self)@.valid_moves(directions@),
        ensures
            final(self)@ == apply_moves(old(self)@, directions@).0,
            r@ == apply_moves(old(self)@, directions@).1,
    {
        let ghost g0 = self@;
        let n = self.snakes.len();
        let mut changes: Vec<AgentChange> = Vec::new();
        let mut i: usize = 0;
        while i < n
            invariant
                g0.wf(),
                g0.valid_moves(directions@),
                n == g0.snakes.len(),
                self.snakes.len() == n,
                self.width == g0.width,
                self.height == g0.height,
                0 <= i <= n,
                self@.snakes == first_pass(g0, directions@, i as nat).0,
                self@.apples == first_pass(g0, directions@, i as nat).1,
                changes@ == first_pass(g0, directions@, i as nat).2,
            decreases n - i,
        {
            proof {
                lemma_first_pass(g0, directions@, i as nat);
                assert(self@.snakes[i as int] == g0.snakes[i as int]);
                assert(self.snakes@[i as int]@ == self@.snakes[i as int]);
            }
            let ghost before = self.snakes@;
            let width = self.width;
            let height = self.height;
            let c = self.snakes[i].step(directions[i], width, height, &mut self.apples);
            changes.push(c);
            proof {
                assert(self@.snakes =~= first_pass(g0, directions@, (i + 1) as nat).0);
            }
            i += 1;
        }
        let ghost ss1 = self@.snakes;
        proof {
            lemma_first_pass(g0, directions@, n as nat);
            assert forall|k: int| 0 <= k < n implies (#[trigger] ss1[k]).positions.len() >= 1 by {
                assert(ss1[k].wf(g0.cells()));
            }
        }
        let mut losers: Vec<bool> = Vec::new();
        let mut a: usize = 0;
        while a < n
            invariant
                n == self.snakes.len(),
                self@.snakes == ss1,
                first_pass(g0, directions@, n as nat).0 == ss1,
                g0.wf(),
                0 <= a <= n,
                losers.len() == a,
                forall|k: int| 0 <= k < a ==> losers@[k] == eliminated(ss1, k),
                forall|k: int| 0 <= k < n ==> (#[trigger] ss1[k]).positions.len() >= 1,
            decreases n - a,
        {
            let mut lost = false;
            if self.snakes[a].health != 0 {
                let mut b: usize = 0;
                while b < n
                    invariant
                        n == self.snakes.len(),
                        self@.snakes == ss1,
                        0 <= a < n,
                        0 <= b <= n,
                        ss1[a as int].alive(),
                        forall|k: int| 0 <= k < n ==> (#[trigger] ss1[k]).positions.len() >= 1,
                        lost == exists|j: int| 0 <= j < b && j != a && ss1[j].alive() && collides(ss1[a as int], ss1[j]),
                    decreases n - b,
                {
                    proof {
                        assert(self.snakes@[a as int]@ == ss1[a as int]);
                        assert(self.snakes@[b as int]@ == ss1[b as int]);
                    }
                    if b != a && self.snakes[b].health != 0 && self.snakes[a].loses_to(&self.snakes[b]) {
                        lost = true;
                    }
                    b += 1;
                }
            }
            losers.push(lost);
            a += 1;
        }
        let mut k: usize = 0;
        while k < n
            invariant
                n == self.snakes.len(),
                losers.len() == n,
                ss1.len() == n,
                forall|j: int| 0 <= j < n ==> losers@[j] == eliminated(ss1, j),
                0 <= k <= n,
                self.width == g0.width,
                self.height == g0.height,
                self@.apples == first_pass(g0, directions@, n as nat).1,
                forall|j: int| 0 <= j < k ==> self@.snakes[j] == second_pass(ss1)[j],
                forall|j: int| k <= j < n ==> self@.snakes[j] == ss1[j],
            decreases n - k,
        {
            let ghost prev = self.snakes@;
            if losers[k] {
                self.snakes[k].health = 0;
                assert(self.snakes@[k as int]@ == prev[k as int]@.with_health(0));
            }
            proof {
                assert forall|j: int| 0 <= j < n && j != k implies self.snakes@[j] == prev[j] by {}
                assert(prev[k as int]@ == ss1[k as int]);
                assert(self.snakes@[k as int]@ == second_pass(ss1)[k as int]);
            }
            k += 1;
        }
        proof {
            assert(self@.snakes =~= second_pass(ss1));
        }
        ChangedState { changes }
    }
}


/// One agent taken back by its undo entry.
pub open spec fn revert_snake(s: SnakeView, r: AgentChange) -> SnakeView {
    if r.prev_health == 0 {
        s
    } else if r.hit_inaccessible {
        s.with_health(r.prev_health)
    } else {
        let rest = s.positions.skip(1);
        let q = if r.ate {
            s.queued - 1
        } else {
            s.queued as int
        };
        SnakeView {
            positions: if r.was_queued {
                rest
            } else {
                rest.push(r.tail)
            },
            body: s.body.update(s.head() as int, false).update(r.tail as int, true),
            health: r.prev_health,
            queued: (if r.was_queued {
                q + 1
            } else {
                q
            }) as u8,
        }
    }
}

/// Taking back the move of this agent puts food back under its head.
pub open spec fn restores_food(r: AgentChange) -> bool {
    r.prev_health != 0 && !r.hit_inaccessible && r.ate
}

/// The food map after the undo entries of agents `0..k` are taken back.
pub open spec fn revert_food(apples: Seq<bool>, ss: Seq<SnakeView>, rs: Seq<AgentChange>, k: nat) -> Seq<bool>
    decreases k,
{
    if k == 0 {
        apples
    } else {
        let a = revert_food(apples, ss, rs, (k - 1) as nat);
        if restores_food(rs[k - 1]) {
            a.update(ss[k - 1].head() as int, true)
        } else {
            a
        }
    }
}

/// The board with a joint move taken back.
pub open spec fn revert_moves(g: GameView, rs: Seq<AgentChange>) -> GameView {
    GameView {
        snakes: Seq::new(g.snakes.len(), |i: int| revert_snake(g.snakes[i], rs[i])),
        apples: revert_food(g.apples, g.snakes, rs, g.snakes.len()),
        ..g
    }
}

/// The undo entry `r` can be taken back on agent `s` without leaving its
/// bitmap or its counters.
pub open spec fn revertible_snake(s: SnakeView, r: AgentChange) -> bool {
    r.prev_health != 0 && !r.hit_inaccessible ==> {
        &&& s.positions.len() >= 1
        &&& s.head() < s.body.len()
        &&& r.tail < s.body.len()
        &&& r.ate ==> s.queued >= 1
        &&& r.was_queued ==> (if r.ate {
            s.queued - 1
        } else {
            s.queued as int
        }) < 255
    }
}

pub open spec fn revertible(g: GameView, rs: Seq<AgentChange>) -> bool {
    &&& rs.len() == g.snakes.len()
    &&& forall|i: int| 0 <= i < rs.len() ==> revertible_snake(#[trigger] g.snakes[i], rs[i])
    &&& forall|i: int|
        0 <= i < rs.len() && restores_food(#[trigger] rs[i]) ==> g.snakes[i].head() < g.apples.len()
}

pub proof fn lemma_revert_food(apples: Seq<bool>, ss: Seq<SnakeView>, rs: Seq<AgentChange>, k: nat)
    requires
        k <= ss.len(),
        k <= rs.len(),
        forall|i: int| 0 <= i < k && restores_food(#[trigger] rs[i]) ==> ss[i].head() < apples.len(),
    ensures
        revert_food(apples, ss, rs, k).len() == apples.len(),
        forall|c: int|
            0 <= c < apples.len() ==> #[trigger] revert_food(apples, ss, rs, k)[c] == (apples[c]
                || exists|j: int| 0 <= j < k && restores_food(rs[j]) && ss[j].head() == c),
    decreases k,
{
    if k > 0 {
        lemma_revert_food(apples, ss, rs, (k - 1) as nat);
        assert forall|c: int| 0 <= c < apples.len() implies #[trigger] revert_food(apples, ss, rs, k)[c]
            == (apples[c] || exists|j: int| 0 <= j < k && restores_food(rs[j]) && ss[j].head() == c) by {
            if exists|j: int| 0 <= j < k && restores_food(rs[j]) && ss[j].head() == c {
                let j = choose|j: int| 0 <= j < k && restores_food(rs[j]) && ss[j].head() == c;
                if j < k - 1 {
                    assert(revert_food(apples, ss, rs, (k - 1) as nat)[c]);
                }
            }
        }
    }
}

impl Snake {
    fn revert(&mut self, r: AgentChange)
        requires
            r.prev_health != 0,
            revertible_snake(old(self)@, r),
        ensures
            final(self)@ == revert_snake(old(self)@, r),
    {
        let ghost s0 = self@;
        self.health = r.prev_health;
        if r.hit_inaccessible {
            return;
        }
        let head = self.positions[0];
        self.snake_arr[head as usize] = false;
        self.snake_arr[r.tail as usize] = true;
        self.positions.remove(0);
        assert(self.positions@ =~= s0.positions.skip(1));
        if r.ate {
            self.queued = self.queued - 1;
        }
        if r.was_queued {
            self.queued = self.queued + 1;
        } else {
            self.positions.push(r.tail);
        }
    }
}

impl Game {
    /// Take back the joint move whose undo record is `prev_state`.
    pub fn unmove_snake(&mut self, prev_state: &ChangedState)
        requires
            revertible(old(self)@, prev_state@),
        ensures
            final(self)@ == revert_moves(old(self)@, prev_state@),
    {
        let ghost g0 = self@;
        let n = self.snakes.len();
        let mut i: usize = 0;
        while i < n
            invariant
                revertible(g0, prev_state@),
                n == g0.snakes.len(),
                self.snakes.len() == n,
                self.width == g0.width,
                self.height == g0.height,
                0 <= i <= n,
                forall|j: int| 0 <= j < i ==> self@.snakes[j] == revert_snake(g0.snakes[j], prev_state@[j]),
                forall|j: int| i <= j < n ==> self@.snakes[j] == g0.snakes[j],
                self@.apples == revert_food(g0.apples, g0.snakes, prev_state@, i as nat),
            decreases n - i,
        {
            proof {
                lemma_revert_food(g0.apples, g0.snakes, prev_state@, i as nat);
            }
            let c = prev_state.changes[i];
            let ghost prev = self.snakes@;
            let ghost prev_view = self@.snakes;
            proof {
                assert(self.snakes@[i as int]@ == g0.snakes[i as int]);
                assert(revertible_snake(g0.snakes[i as int], c));
            }
            if c.prev_health != 0 {
                if !c.hit_inaccessible && c.ate {
                    let head = self.snakes[i].positions[0];
                    self.snakes[i].revert(c);
                    self.apples[head as usize] = true;
                } else {
                    self.snakes[i].revert(c);
                }
            }
            proof {
                assert forall|j: int| 0 <= j < n && j != i implies self@.snakes[j] == prev_view[j] by {
                    assert(self.snakes@[j] == prev[j]);
                }
                assert(self@.snakes[i as int] == revert_snake(g0.snakes[i as int], prev_state@[i as int]));
                assert forall|j: int| 0 <= j <= i implies self@.snakes[j] == revert_snake(g0.snakes[j], prev_state@[j]) by {
                    if j < i {
                        assert(prev_view[j] == revert_snake(g0.snakes[j], prev_state@[j]));
                    }
                }
            }
            i += 1;
        }
        proof {
            assert(self@.snakes =~= revert_moves(g0, prev_state@).snakes);
        }
    }
}


/// Later steps of the first pass leave an agent's result and undo entry alone.
pub proof fn lemma_first_pass_stable(g: GameView, dirs: Seq<u8>, i: int, k: nat)
    requires
        g.wf(),
        g.valid_moves(dirs),
        0 <= i < k <= g.snakes.len(),
    ensures
        first_pass(g, dirs, k).0[i] == step_snake(
            g.snakes[i],
            dirs[i],
            g.width as int,
            g.height as int,
            first_pass(g, dirs, i as nat).1,
        ).0,
        first_pass(g, dirs, k).2[i] == step_snake(
            g.snakes[i],
            dirs[i],
            g.width as int,
            g.height as int,
            first_pass(g, dirs, i as nat).1,
        ).2,
    decreases k,
{
    lemma_first_pass(g, dirs, (k - 1) as nat);
    if k - 1 > i {
        lemma_first_pass_stable(g, dirs, i, (k - 1) as nat);
    }
}

/// One agent's step, possibly followed by its elimination in the second
/// pass, is taken back exactly by its undo entry.
pub proof fn lemma_revert_step(s: SnakeView, dir: u8, w: u8, h: u8, apples: Seq<bool>, killed: bool)
    requires
        w >= 1,
        h >= 1,
        dir < 4,
        s.wf(w as int * h as int),
        apples.len() >= w as int * h as int,
    ensures
        ({
            let st = step_snake(s, dir, w as int, h as int, apples);
            let f = if killed {
                st.0.with_health(0)
            } else {
                st.0
            };
            &&& revertible_snake(f, st.2)
            &&& revert_snake(f, st.2) == s
            &&& restores_food(st.2) == st.2.ate
        }),
{
    lemma_step(s, dir, w, h, apples);
    lemma_cells_bound(w, h);
    let cells = w as int * h as int;
    let st = step_snake(s, dir, w as int, h as int, apples);
    let f = if killed {
        st.0.with_health(0)
    } else {
        st.0
    };
    let t = target_cell(s.head() as int, dir, w as int);
    if s.alive() && !(leaves_board(s.head() as int, dir, w as int, h as int) || s.hits_self(t)) {
        let r = revert_snake(f, st.2);
        let kept = s.positions.take(s.kept_len());
        assert(f.positions.skip(1) =~= kept);
        if s.queued > 0 {
            assert(kept =~= s.positions);
        } else {
            assert(kept.push(s.tail()) =~= s.positions);
        }
        assert(r.positions == s.positions);
        assert(s.body[s.tail() as int]) by {
            assert(s.positions[s.positions.len() - 1] == s.tail());
        }
        if s.queued > 0 || t != s.tail() {
            if s.positions.contains(t as u16) {
                let i = choose|i: int| 0 <= i < s.positions.len() && s.positions[i] == t as u16;
                assert(s.hits_self(t));
            }
            assert(!s.body[t]);
        }
        assert(r.body =~= s.body);
    }
}

/// Applying a joint move keeps the board well formed, with the same agents
/// and dimensions.
pub proof fn lemma_apply_wf(g: GameView, dirs: Seq<u8>)
    requires
        g.wf(),
        g.valid_moves(dirs),
    ensures
        apply_moves(g, dirs).0.wf(),
        apply_moves(g, dirs).0.snakes.len() == g.snakes.len(),
        apply_moves(g, dirs).0.width == g.width,
        apply_moves(g, dirs).0.height == g.height,
        apply_moves(g, dirs).1.len() == g.snakes.len(),
{
    lemma_first_pass(g, dirs, g.snakes.len());
    let a = apply_moves(g, dirs).0;
    let ss = first_pass(g, dirs, g.snakes.len()).0;
    assert forall|i: int| 0 <= i < a.snakes.len() implies (#[trigger] a.snakes[i]).wf(g.cells()) by {
        assert(ss[i].wf(g.cells()));
    }
}

/// Undo exactness: taking a joint move back with the undo record it produced
/// gives, field for field and bitmaps included, the board it was applied to.
pub proof fn lemma_undo_exact(g: GameView, dirs: Seq<u8>)
    requires
        g.wf(),
        g.valid_moves(dirs),
    ensures
        revertible(apply_moves(g, dirs).0, apply_moves(g, dirs).1),
        revert_moves(apply_moves(g, dirs).0, apply_moves(g, dirs).1) == g,
{
    let n = g.snakes.len();
    lemma_first_pass(g, dirs, n);
    let p = first_pass(g, dirs, n);
    let a = apply_moves(g, dirs);
    let ss = a.0.snakes;
    let rs = a.1;
    assert forall|i: int| 0 <= i < n implies revertible_snake(#[trigger] ss[i], rs[i]) && revert_snake(
        ss[i],
        rs[i],
    ) == g.snakes[i] && restores_food(rs[i]) == rs[i].ate && ss[i].head() == p.0[i].head() by {
        lemma_first_pass(g, dirs, i as nat);
        lemma_first_pass_stable(g, dirs, i, n);
        lemma_revert_step(
            g.snakes[i],
            dirs[i],
            g.width,
            g.height,
            first_pass(g, dirs, i as nat).1,
            eliminated(p.0, i),
        );
    }
    assert forall|i: int| 0 <= i < n && restores_food(#[trigger] rs[i]) implies ss[i].head() < a.0.apples.len() by {
        assert(p.2[i].ate);
    }
    lemma_revert_food(a.0.apples, ss, rs, n);
    let r = revert_moves(a.0, rs);
    assert(r.snakes =~= g.snakes);
    assert forall|c: int| 0 <= c < g.apples.len() implies r.apples[c] == g.apples[c] by {
        if exists|j: int| 0 <= j < n && restores_food(rs[j]) && ss[j].head() == c {
            let j = choose|j: int| 0 <= j < n && restores_food(rs[j]) && ss[j].head() == c;
            assert(p.2[j].ate);
        }
        if exists|j: int| 0 <= j < n && p.2[j].ate && p.0[j].head() == c {
            let j = choose|j: int| 0 <= j < n && p.2[j].ate && p.0[j].head() == c;
            assert(revertible_snake(ss[j], rs[j]));
            assert(restores_food(rs[j]) && ss[j].head() == c);
        }
    }
    assert(r.apples =~= g.apples);
}


/// Wrap exclusion: a live agent that moves right from the last column, or
/// left from the first, is eliminated by the move and never wraps to the
/// next row.
pub proof fn lemma_wrap_eliminates(g: GameView, dirs: Seq<u8>, i: int)
    requires
        g.wf(),
        g.valid_moves(dirs),
        0 <= i < g.snakes.len(),
        g.snakes[i].alive(),
        (dirs[i] == 1 && g.snakes[i].head() as int % g.width as int == g.width - 1) || (dirs[i]
            == 3 && g.snakes[i].head() as int % g.width as int == 0),
    ensures
        apply_moves(g, dirs).0.snakes[i].health == 0,
        apply_moves(g, dirs).0.snakes[i].positions == g.snakes[i].positions,
        apply_moves(g, dirs).1[i].hit_inaccessible,
{
    lemma_first_pass(g, dirs, g.snakes.len());
    lemma_first_pass(g, dirs, i as nat);
    lemma_first_pass_stable(g, dirs, i, g.snakes.len());
}

/// Self-collision: a live agent whose new head lands on a segment of its own
/// that does not vacate this move is eliminated, with its positions and
/// bitmap as they were before the move.
pub proof fn lemma_self_collision(g: GameView, dirs: Seq<u8>, i: int)
    requires
        g.wf(),
        g.valid_moves(dirs),
        0 <= i < g.snakes.len(),
        g.snakes[i].alive(),
        g.snakes[i].hits_self(target_cell(g.snakes[i].head() as int, dirs[i], g.width as int)),
    ensures
        apply_moves(g, dirs).0.snakes[i].health == 0,
        apply_moves(g, dirs).0.snakes[i].positions == g.snakes[i].positions,
        apply_moves(g, dirs).0.snakes[i].body == g.snakes[i].body,
        apply_moves(g, dirs).0.snakes[i].queued == g.snakes[i].queued,
{
    lemma_first_pass(g, dirs, g.snakes.len());
    lemma_first_pass(g, dirs, i as nat);
    lemma_first_pass_stable(g, dirs, i, g.snakes.len());
}

/// Head-to-head resolution: when the heads of two agents that survived the
/// first pass meet, equal lengths eliminate both and otherwise the shorter
/// one is eliminated.
pub proof fn lemma_head_to_head(g: GameView, dirs: Seq<u8>, i: int, j: int)
    requires
        0 <= i < g.snakes.len(),
        0 <= j < g.snakes.len(),
        i != j,
        first_pass(g, dirs, g.snakes.len()).0.len() == g.snakes.len(),
        first_pass(g, dirs, g.snakes.len()).0[i].alive(),
        first_pass(g, dirs, g.snakes.len()).0[j].alive(),
        first_pass(g, dirs, g.snakes.len()).0[i].head() == first_pass(g, dirs, g.snakes.len()).0[j].head(),
    ensures
        ({
            let ss = first_pass(g, dirs, g.snakes.len()).0;
            let after = apply_moves(g, dirs).0.snakes;
            &&& ss[i].positions.len() <= ss[j].positions.len() ==> after[i].health == 0
            &&& ss[j].positions.len() <= ss[i].positions.len() ==> after[j].health == 0
        }),
{
    let ss = first_pass(g, dirs, g.snakes.len()).0;
    if ss[i].positions.len() <= ss[j].positions.len() {
        assert(collides(ss[i], ss[j]));
    }
    if ss[j].positions.len() <= ss[i].positions.len() {
        assert(collides(ss[j], ss[i]));
    }
}

/// With two agents, the longer one of a head-to-head meeting is not
/// eliminated by it.
pub proof fn lemma_head_to_head_longer_survives(g: GameView, dirs: Seq<u8>)
    requires
        g.snakes.len() == 2,
        first_pass(g, dirs, 2).0.len() == 2,
        first_pass(g, dirs, 2).0[0].alive(),
        first_pass(g, dirs, 2).0[1].alive(),
        first_pass(g, dirs, 2).0[0].head() == first_pass(g, dirs, 2).0[1].head(),
    ensures
        ({
            let ss = first_pass(g, dirs, 2).0;
            let after = apply_moves(g, dirs).0.snakes;
            &&& ss[0].positions.len() > ss[1].positions.len() ==> after[0].health != 0 && after[1].health
                == 0
            &&& ss[1].positions.len() > ss[0].positions.len() ==> after[1].health != 0 && after[0].health
                == 0
        }),
{
    let ss = first_pass(g, dirs, 2).0;
    if ss[0].positions.len() > ss[1].positions.len() {
        assert(!eliminated(ss, 0));
        assert(collides(ss[1], ss[0]));
    }
    if ss[1].positions.len() > ss[0].positions.len() {
        assert(!eliminated(ss, 1));
        assert(collides(ss[0], ss[1]));
    }
}

impl Game {
    /// An empty board of `width` by `height` cells without food.
    pub fn new(width: u8, height: u8) -> (r: Game)
        ensures
            r@.snakes.len() == 0,
            r@.width == width,
            r@.height == height,
            r@.apples == Seq::new((width as int * height as int) as nat, |c: int| false),
            width >= 1 && height >= 1 ==> r@.wf(),
    {
        proof {
            lemma_cells_bound(width, height);
        }
        let r = Game {
            snakes: Vec::new(),
            apples: vec![false; width as usize * height as usize],
            width,
            height,
        };
        assert(r@.apples =~= Seq::new((width as int * height as int) as nat, |c: int| false));
        r
    }

    /// Register an agent as given, after the ones already on the board.
    pub fn add_snake(&mut self, positions: Vec<u16>, snake_arr: Vec<bool>, health: u8, queued: u8)
        ensures
            final(self)@ == (GameView {
                snakes: old(self)@.snakes.push(
                    SnakeView { positions: positions@, body: snake_arr@, health, queued },
                ),
                ..old(self)@
            }),
    {
        let ghost g0 = self@;
        self.snakes.push(Snake { positions, snake_arr, health, queued });
        assert(self@.snakes =~= g0.snakes.push(
            SnakeView { positions: positions@, body: snake_arr@, health, queued },
        ));
    }

    /// Register a new one-cell agent on `position`, at full health and with
    /// two segments of growth pending.
    pub fn add_start_snake(&mut self, position: u16)
        requires
            (position as int) < old(self)@.cells(),
        ensures
            final(self)@ == (GameView {
                snakes: old(self)@.snakes.push(
                    SnakeView {
                        positions: seq![position],
                        body: Seq::new(old(self)@.cells() as nat, |c: int| c == position),
                        health: 100,
                        queued: 2,
                    },
                ),
                ..old(self)@
            }),
            old(self)@.wf() ==> final(self)@.wf(),
    {
        let ghost g0 = self@;
        proof {
            lemma_cells_bound(self.width, self.height);
        }
        let mut snake_arr = vec![false; self.width as usize * self.height as usize];
        snake_arr[position as usize] = true;
        let ghost body = Seq::new(g0.cells() as nat, |c: int| c == position);
        assert(snake_arr@ =~= body);
        let positions = vec![position];
        assert(positions@ =~= seq![position]);
        self.snakes.push(Snake { positions, snake_arr, health: 100, queued: 2 });
        let ghost ns = SnakeView { positions: seq![position], body, health: 100, queued: 2 };
        assert(self@.snakes =~= g0.snakes.push(ns));
        proof {
            assert forall|c: int| 0 <= c < g0.cells() implies (#[trigger] ns.body[c] <==> ns.positions.contains(
                c as u16,
            )) by {
                if c == position {
                    assert(ns.positions[0] == position);
                }
            }
            assert(ns.wf(g0.cells()));
            if g0.wf() {
                assert forall|i: int| 0 <= i < self@.snakes.len() implies (#[trigger] self@.snakes[i]).wf(
                    g0.cells(),
                ) by {
                    if i < g0.snakes.len() {
                        assert(self@.snakes[i] == g0.snakes[i]);
                    }
                }
            }
        }
    }
}

} // verus!
