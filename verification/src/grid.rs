//! Coordinate arithmetic on the fixed-size wrap-around grid: the single-cell
//! step with toroidal wrap, and the enumeration of free cells that the food
//! spawner draws from.

use vstd::prelude::*;
use crate::protocol::{Direction, Position, GRID_SIZE};
use crate::rng::random_below;

verus! {

/// Both coordinates lie on the grid.
pub open spec fn in_grid(p: Position) -> bool {
    p.x < GRID_SIZE && p.y < GRID_SIZE
}

/// One cell in `dir`, wrapping at the grid edges.
pub open spec fn pos_step(p: Position, dir: Direction) -> Position {
    match dir {
        Direction::Down => Position {
            x: p.x,
            y: if p.y == 0 { (GRID_SIZE - 1) as usize } else { (p.y - 1) as usize },
        },
        Direction::Left => Position {
            x: if p.x == 0 { (GRID_SIZE - 1) as usize } else { (p.x - 1) as usize },
            y: p.y,
        },
        Direction::Right => Position { x: ((p.x + 1) % (GRID_SIZE as int)) as usize, y: p.y },
        Direction::Up => Position { x: p.x, y: ((p.y + 1) % (GRID_SIZE as int)) as usize },
    }
}

/// Moves a position one cell with wrap-around.
pub fn wrap_step(p: Position, dir: Direction) -> (r: Position)
    requires
        in_grid(p),
    ensures
        r == pos_step(p, dir),
        in_grid(r),
{
    match dir {
        Direction::Down => Position {
            x: p.x,
            y: if p.y == 0 { GRID_SIZE - 1 } else { p.y - 1 },
        },
        Direction::Left => Position {
            x: if p.x == 0 { GRID_SIZE - 1 } else { p.x - 1 },
            y: p.y,
        },
        Direction::Right => Position { x: (p.x + 1) % GRID_SIZE, y: p.y },
        Direction::Up => Position { x: p.x, y: (p.y + 1) % GRID_SIZE },
    }
}

/// Whether `occupied` lists the cell `p`.
fn occupied_contains(occupied: &Vec<Position>, p: Position) -> (r: bool)
    ensures
        r == occupied@.contains(p),
{
    let mut i: usize = 0;
    while i < occupied.len()
        invariant
            i <= occupied@.len(),
            forall|k: int| 0 <= k < i ==> occupied@[k] != p,
        decreases occupied@.len() - i,
    {
        if occupied[i].x == p.x && occupied[i].y == p.y {
            assert(occupied@[i as int] == p);
            return true;
        }
        i += 1;
    }
    false
}

/// Orders cells column-major, the order in which `free_cells` walks the grid.
pub open spec fn cell_before(c: Position, x: usize, y: usize) -> bool {
    c.x < x || (c.x == x && c.y < y)
}

/// Every grid cell that `occupied` does not list, each exactly once.
pub fn free_cells(occupied: &Vec<Position>) -> (r: Vec<Position>)
    ensures
        forall|k: int| 0 <= k < r@.len() ==> in_grid(#[trigger] r@[k]) && !occupied@.contains(r@[k]),
        forall|c: Position| in_grid(c) && !occupied@.contains(c) ==> r@.contains(c),
        forall|k1: int, k2: int| 0 <= k1 < k2 < r@.len() ==> r@[k1] != r@[k2],
{
    let mut r: Vec<Position> = Vec::new();
    let mut x: usize = 0;
    while x < GRID_SIZE
        invariant
            x <= GRID_SIZE,
            forall|k: int| 0 <= k < r@.len()
                ==> in_grid(#[trigger] r@[k]) && !occupied@.contains(r@[k]),
            forall|k: int| 0 <= k < r@.len() ==> cell_before(#[trigger] r@[k], x, 0),
            forall|c: Position| in_grid(c) && !occupied@.contains(c) && cell_before(c, x, 0)
                ==> r@.contains(c),
            forall|k1: int, k2: int| 0 <= k1 < k2 < r@.len() ==> r@[k1] != r@[k2],
        decreases GRID_SIZE - x,
    {
        let mut y: usize = 0;
        while y < GRID_SIZE
            invariant
                x < GRID_SIZE,
                y <= GRID_SIZE,
                forall|k: int| 0 <= k < r@.len()
                    ==> in_grid(#[trigger] r@[k]) && !occupied@.contains(r@[k]),
                forall|k: int| 0 <= k < r@.len() ==> cell_before(#[trigger] r@[k], x, y),
                forall|c: Position| in_grid(c) && !occupied@.contains(c) && cell_before(c, x, y)
                    ==> r@.contains(c),
                forall|k1: int, k2: int| 0 <= k1 < k2 < r@.len() ==> r@[k1] != r@[k2],
            decreases GRID_SIZE - y,
        {
            let ghost r_prev = r@;
            let c = Position { x, y };
            let keep = !occupied_contains(occupied, c);
            if keep {
                r.push(c);
            }
            proof {
                assert forall|c2: Position| r_prev.contains(c2) implies r@.contains(c2) by {
                    let i = choose|i: int| 0 <= i < r_prev.len() && r_prev[i] == c2;
                    assert(r@[i] == c2);
                }
                if keep {
                    assert(r@[r@.len() - 1] == c);
                }
                assert(forall|c2: Position|
                    in_grid(c2) && !occupied@.contains(c2) && cell_before(c2, x, (y + 1) as usize)
                        ==> cell_before(c2, x, y) || c2 == (Position { x, y }));
            }
            y += 1;
        }
        assert(forall|c2: Position|
            cell_before(c2, (x + 1) as usize, 0) && in_grid(c2) ==> cell_before(c2, x, GRID_SIZE));
        x += 1;
    }
    assert(forall|c: Position| in_grid(c) ==> cell_before(c, GRID_SIZE, 0));
    r
}

/// Draws a random cell among those that `occupied` leaves free, and
/// declines — rather than searching forever — when the grid is saturated.
pub fn random_free_cell(occupied: &Vec<Position>) -> (r: Option<Position>)
    ensures
        r matches Some(c) ==> in_grid(c) && !occupied@.contains(c),
        r is None ==> forall|c: Position| in_grid(c) ==> occupied@.contains(c),
{
    let free = free_cells(occupied);
    if free.len() > 0 {
        let k = random_below(free.len());
        Some(free[k])
    } else {
        proof {
            assert forall|c: Position| in_grid(c) implies occupied@.contains(c) by {
                if !occupied@.contains(c) {
                    assert(free@.contains(c));
                }
            }
        }
        None
    }
}

} // verus!
