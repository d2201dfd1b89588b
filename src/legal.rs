use vstd::prelude::*;
use crate::game::{Snake, SnakeView, leaves, leaves_board, target_cell, lemma_cells_bound};

verus! {

/// The filter's verdict on direction `dir` for agent `s`: not the excluded
/// reversal of a one-cell agent, not off the board, and not onto a segment of
/// its own that stays in place. Collisions with other agents are not judged.
pub open spec fn move_allowed(s: SnakeView, dir: u8, width: int, height: int) -> bool {
    &&& !(s.positions.len() == 1 && dir == 2)
    &&& !leaves_board(s.head() as int, dir, width, height)
    &&& !s.hits_self(target_cell(s.head() as int, dir, width))
}

pub open spec fn any_move_allowed(s: SnakeView, width: int, height: int) -> bool {
    exists|d: u8| d < 4 && move_allowed(s, d, width, height)
}

/// Direction `dir` is explored for agent `s`: a live agent with some allowed
/// move tries each allowed one; any other agent gets the placeholder `0`
/// alone, which the simulation then resolves.
pub open spec fn explored(s: SnakeView, dir: u8, width: int, height: int) -> bool {
    if s.alive() && any_move_allowed(s, width, height) {
        move_allowed(s, dir, width, height)
    } else {
        dir == 0
    }
}

/// Every agent has a direction that the search explores.
pub proof fn lemma_some_explored(s: SnakeView, width: int, height: int)
    ensures
        exists|d: u8| d < 4 && explored(s, d, width, height),
{
    if s.alive() && any_move_allowed(s, width, height) {
        let d = choose|d: u8| d < 4 && move_allowed(s, d, width, height);
        assert(explored(s, d, width, height));
    } else {
        assert(explored(s, 0, width, height));
    }
}

/// Whether direction `dir` passes the move filter for `snake`.
pub fn is_move_allowed(snake: &Snake, dir: u8, width: u8, height: u8) -> (r: bool)
    requires
        width >= 1,
        height >= 1,
        dir < 4,
        snake@.wf(width as int * height as int),
    ensures
        r == move_allowed(snake@, dir, width as int, height as int),
{
    proof {
        lemma_cells_bound(width, height);
    }
    let len = snake.positions.len();
    if len == 1 && dir == 2 {
        return false;
    }
    let head = snake.positions[0];
    if leaves(head, dir, width, height) {
        return false;
    }
    let t: u16 = if dir == 0 {
        head + width as u16
    } else if dir == 1 {
        head + 1
    } else if dir == 2 {
        head - width as u16
    } else {
        head - 1
    };
    let kept = if snake.queued > 0 {
        len
    } else {
        len - 1
    };
    !snake.occupies_prefix(t, kept)
}

/// For each direction, whether the search explores it for `snake`.
pub fn explored_moves(snake: &Snake, width: u8, height: u8) -> (r: [bool; 4])
    requires
        width >= 1,
        height >= 1,
        snake@.wf(width as int * height as int),
    ensures
        forall|d: u8| d < 4 ==> r[d as int] == explored(snake@, d, width as int, height as int),
        exists|d: u8| d < 4 && r[d as int],
{
    let ghost (w, h) = (width as int, height as int);
    let ok = [
        is_move_allowed(snake, 0, width, height),
        is_move_allowed(snake, 1, width, height),
        is_move_allowed(snake, 2, width, height),
        is_move_allowed(snake, 3, width, height),
    ];
    let any = ok[0] || ok[1] || ok[2] || ok[3];
    proof {
        if any_move_allowed(snake@, w, h) {
            let d = choose|d: u8| d < 4 && move_allowed(snake@, d, w, h);
            assert(ok[d as int]);
        }
        if any {
            if ok[0] {
                assert(move_allowed(snake@, 0, w, h));
            } else if ok[1] {
                assert(move_allowed(snake@, 1, w, h));
            } else if ok[2] {
                assert(move_allowed(snake@, 2, w, h));
            } else {
                assert(move_allowed(snake@, 3, w, h));
            }
        }
    }
    if snake.health != 0 && any {
        ok
    } else {
        [true, false, false, false]
    }
}

} // verus!
