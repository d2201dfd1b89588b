use vstd::prelude::*;
use crate::game::{Game, GameView, SnakeView, Snake, lemma_cells_bound};

verus! {

/// A cell given by column `x` and row `y`.
#[derive(Clone, Copy, Debug, PartialEq, Eq)]
pub struct Coord {
    pub x: u16,
    pub y: u16,
}

/// Row-major index of a cell on a board `width` cells wide.
pub open spec fn cell_index(c: Coord, width: int) -> int {
    c.y * width + c.x
}

pub open spec fn on_board(c: Coord, width: int, height: int) -> bool {
    c.x < width && c.y < height
}

/// Cell indices of a body given head first.
pub open spec fn body_cells(body: Seq<Coord>, width: int) -> Seq<u16> {
    body.map_values(|c: Coord| cell_index(c, width) as u16)
}

/// A body with repeated consecutive cells folded: the distinct run of cells,
/// and how many repeats were folded away (growth still to come).
pub open spec fn collapse(cells: Seq<u16>) -> (Seq<u16>, int)
    decreases cells.len(),
{
    if cells.len() == 0 {
        (seq![], 0)
    } else {
        let p = collapse(cells.drop_last());
        let c = cells.last();
        if p.0.len() > 0 && p.0.last() == c {
            (p.0, p.1 + 1)
        } else {
            (p.0.push(c), p.1)
        }
    }
}

/// Folding a longer prefix never folds fewer repeats.
pub proof fn lemma_collapse_prefix(cells: Seq<u16>, i: int, j: int)
    requires
        0 <= i <= j <= cells.len(),
    ensures
        collapse(cells.take(i)).1 <= collapse(cells.take(j)).1,
    decreases j,
{
    if i < j {
        lemma_collapse_prefix(cells, i, j - 1);
        assert(cells.take(j).drop_last() =~= cells.take(j - 1));
    }
}

impl Coord {
    /// Row-major index of this cell on a `width` by `height` board.
    pub fn cell(&self, width: u8, height: u8) -> (r: u16)
        requires
            on_board(*self, width as int, height as int),
        ensures
            r == cell_index(*self, width as int),
            (r as int) < width as int * height as int,
    {
        proof {
            lemma_cells_bound(width, height);
        }
        assert(0 <= self.y * width && self.y * width + self.x < width as int * height as int) by (nonlinear_arith)
            requires
                self.x < width,
                self.y < height,
        ;
        self.y * width as u16 + self.x
    }
}

impl Game {
    /// Put food on cell `c`.
    pub fn place_food(&mut self, c: &Coord)
        requires
            on_board(*c, old(self).width as int, old(self).height as int),
            old(self)@.apples.len() >= old(self)@.cells(),
        ensures
            final(self)@ == (GameView {
                apples: old(self)@.apples.update(cell_index(*c, old(self).width as int), true),
                ..old(self)@
            }),
    {
        let ghost g0 = self@;
        let i = c.cell(self.width, self.height);
        self.apples[i as usize] = true;
        assert(self@.snakes =~= g0.snakes);
    }

    /// Register an agent from its body given head first, as the cells it
    /// covers: a cell repeated right after itself is a segment still to grow,
    /// so it counts as pending growth rather than as a position. Nothing is
    /// added, and `false` returned, when a cell lies off the board or more
    /// repeats are folded than the growth counter holds.
    pub fn add_snake_from_body(&mut self, body: &Vec<Coord>, health: u8) -> (added: bool)
        ensures
            added == ((forall|i: int| 0 <= i < body@.len() ==> on_board(#[trigger] body@[i], old(self).width as int, old(self).height as int))
                && collapse(body_cells(body@, old(self).width as int)).1 <= 255),
            !added ==> final(self)@ == old(self)@,
            added ==> ({
                let p = collapse(body_cells(body@, old(self).width as int));
                final(self)@ == (GameView {
                    snakes: old(self)@.snakes.push(
                        SnakeView {
                            positions: p.0,
                            body: Seq::new(old(self)@.cells() as nat, |c: int| p.0.contains(c as u16)),
                            health,
                            queued: p.1 as u8,
                        },
                    ),
                    ..old(self)@
                })
            }),
    {
        let ghost g0 = self@;
        let ghost cells = body_cells(body@, self.width as int);
        proof {
            lemma_cells_bound(self.width, self.height);
        }
        let mut k: usize = 0;
        while k < body.len()
            invariant
                0 <= k <= body.len(),
                forall|j: int| 0 <= j < k ==> on_board(#[trigger] body@[j], self.width as int, self.height as int),
            decreases body.len() - k,
        {
            if body[k].x >= self.width as u16 || body[k].y >= self.height as u16 {
                return false;
            }
            k += 1;
        }
        let n = self.width as usize * self.height as usize;
        let mut positions: Vec<u16> = Vec::new();
        let mut snake_arr = vec![false; n];
        let mut queued: u8 = 0;
        assert(snake_arr@ =~= Seq::new(n as nat, |c: int| positions@.contains(c as u16)));
        let mut i: usize = 0;
        while i < body.len()
            invariant
                self@ == g0,
                n == g0.cells(),
                n <= 65025,
                cells == body_cells(body@, g0.width as int),
                forall|k: int| 0 <= k < body@.len() ==> on_board(#[trigger] body@[k], g0.width as int, g0.height as int),
                0 <= i <= body.len(),
                positions@ == collapse(cells.take(i as int)).0,
                queued == collapse(cells.take(i as int)).1,
                snake_arr@ == Seq::new(n as nat, |c: int| positions@.contains(c as u16)),
            decreases body.len() - i,
        {
            let pos = body[i].cell(self.width, self.height);
            proof {
                assert(cells.take(i + 1).drop_last() =~= cells.take(i as int));
                assert(cells.take(i + 1).last() == pos);
                lemma_collapse_prefix(cells, i + 1, cells.len() as int);
                assert(cells.take(cells.len() as int) =~= cells);
            }
            let len = positions.len();
            if len > 0 && positions[len - 1] == pos {
                if queued == 255 {
                    return false;
                }
                queued = queued + 1;
            } else {
                let ghost before = positions@;
                positions.push(pos);
                snake_arr[pos as usize] = true;
                proof {
                    assert forall|c: int| 0 <= c < n implies (#[trigger] snake_arr@[c]) == positions@.contains(c as u16) by {
                        if positions@.contains(c as u16) && c != pos {
                            let k = choose|k: int| 0 <= k < positions@.len() && positions@[k] == c as u16;
                            assert(before[k] == c as u16);
                        }
                        if before.contains(c as u16) {
                            let k = choose|k: int| 0 <= k < before.len() && before[k] == c as u16;
                            assert(positions@[k] == c as u16);
                        }
                        if c == pos {
                            assert(positions@[len as int] == pos);
                        }
                    }
                    assert(snake_arr@ =~= Seq::new(n as nat, |c: int| positions@.contains(c as u16)));
                }
            }
            i += 1;
        }
        proof {
            assert(cells.take(body@.len() as int) =~= cells);
        }
        self.snakes.push(Snake { positions, snake_arr, health, queued });
        let ghost ns = self.snakes@.last()@;
        assert(self@.snakes =~= g0.snakes.push(ns));
        true
    }
}

} // verus!
