//! The food spawner: a single periodic timer that, when it fires and no
//! food exists, draws a random free cell and places one food item there —
//! and silently declines when every cell is occupied.

use vstd::prelude::*;
use crate::protocol::Position;
use crate::grid::{in_grid, random_free_cell};
use crate::sim::{inv, inv_player_ok, inv_segment_ok, SimModel, SimulationState, FOOD_SPAWN_MS};

verus! {

/// A cell some head or body segment occupies.
pub open spec fn cell_occupied(m: SimModel, c: Position) -> bool {
    (exists|i: int| 0 <= i < m.players.len() && (#[trigger] m.players[i]).pos == c) || (exists|
        k: int,
    | 0 <= k < m.segments.len() && (#[trigger] m.segments[k]).pos == c)
}

/// No cell of the grid is free.
pub open spec fn grid_full(m: SimModel) -> bool {
    forall|c: Position| in_grid(c) ==> cell_occupied(m, c)
}

/// The spawn timer's accumulated time after a tick of `delta` ms: the
/// remainder stays when the timer fires.
pub open spec fn food_timer_spec(elapsed: usize, delta: usize) -> usize {
    if elapsed + delta >= FOOD_SPAWN_MS {
        ((elapsed + delta) % (FOOD_SPAWN_MS as int)) as usize
    } else {
        (elapsed + delta) as usize
    }
}

/// Whether the spawn timer fires during a tick of `delta` ms.
pub open spec fn food_timer_fires(elapsed: usize, delta: usize) -> bool {
    elapsed + delta >= FOOD_SPAWN_MS
}

/// How the food phase relates the state before and after one tick. It is a
/// relation, not a function: the spawned cell is drawn at random, so only
/// its freedom is promised. Food appears exactly when the timer fires, no
/// food exists, and some cell is free; a saturated grid skips the spawn.
pub open spec fn foods_rel(m1: SimModel, m2: SimModel, delta: usize) -> bool {
    &&& m2.players == m1.players
    &&& m2.segments == m1.segments
    &&& m2.entries == m1.entries
    &&& m2.food_elapsed_ms == food_timer_spec(m1.food_elapsed_ms, delta)
    &&& if food_timer_fires(m1.food_elapsed_ms, delta) && m1.food is None && !grid_full(m1) {
        m2.food is Some && in_grid(m2.food->0) && !cell_occupied(m1, m2.food->0)
    } else {
        m2.food == m1.food
    }
}

impl SimulationState {
    /// The food phase of one tick, exactly as `foods_rel` allows: run the
    /// timer; on firing with no food present, spawn on a random free cell,
    /// or skip the spawn when the grid has none.
    #[verifier::loop_isolation(false)]
    pub fn update_foods(&mut self, delta_ms: usize)
        requires
            old(self).wf(),
            delta_ms <= usize::MAX - FOOD_SPAWN_MS,
        ensures
            final(self).wf(),
            foods_rel(old(self).model(), final(self).model(), delta_ms),
    {
        let ghost m0 = self.model();
        let e = self.food_elapsed_ms;
        if e + delta_ms >= FOOD_SPAWN_MS {
            self.food_elapsed_ms = (e + delta_ms) % FOOD_SPAWN_MS;
            if self.food.is_none() {
                let n_players = self.players.len();
                let n_segments = self.segments.len();
                let mut occupied: Vec<Position> = Vec::new();
                let mut i: usize = 0;
                while i < n_players
                    invariant
                        i <= n_players,
                        occupied@.len() == i,
                        forall|j: int| 0 <= j < i ==> occupied@[j] == m0.players[j].pos,
                    decreases n_players - i,
                {
                    occupied.push(self.players[i].pos);
                    i += 1;
                }
                let mut k: usize = 0;
                while k < n_segments
                    invariant
                        k <= n_segments,
                        occupied@.len() == n_players + k,
                        forall|j: int| 0 <= j < n_players ==> occupied@[j] == m0.players[j].pos,
                        forall|j: int|
                            0 <= j < k ==> occupied@[n_players + j] == m0.segments[j].pos,
                    decreases n_segments - k,
                {
                    occupied.push(self.segments[k].pos);
                    k += 1;
                }
                proof {
                    assert forall|c: Position| occupied@.contains(c) implies cell_occupied(
                        m0,
                        c,
                    ) by {
                        let j = choose|j: int| 0 <= j < occupied@.len() && occupied@[j] == c;
                        if j < n_players {
                            assert(m0.players[j].pos == c);
                        } else {
                            assert(m0.segments[j - n_players].pos == c);
                        }
                    }
                    assert forall|c: Position| cell_occupied(m0, c) implies occupied@.contains(
                        c,
                    ) by {
                        if exists|i2: int|
                            0 <= i2 < m0.players.len() && (#[trigger] m0.players[i2]).pos == c {
                            let i2 = choose|i2: int|
                                0 <= i2 < m0.players.len() && (#[trigger] m0.players[i2]).pos
                                    == c;
                            assert(occupied@[i2] == c);
                        } else {
                            let k2 = choose|k2: int|
                                0 <= k2 < m0.segments.len() && (#[trigger] m0.segments[k2]).pos
                                    == c;
                            assert(occupied@[n_players + k2] == c);
                        }
                    }
                }
                match random_free_cell(&occupied) {
                    Some(cell) => {
                        self.food = Some(cell);
                        proof {
                            assert(!grid_full(m0)) by {
                                assert(!cell_occupied(m0, cell));
                            }
                        }
                    },
                    None => {
                        proof {
                            assert forall|c: Position| in_grid(c) implies cell_occupied(
                                m0,
                                c,
                            ) by {
                                assert(occupied@.contains(c));
                            }
                        }
                    },
                }
            }
        } else {
            self.food_elapsed_ms = e + delta_ms;
        }
        proof {
            let m2 = self.model();
            assert(foods_rel(m0, m2, delta_ms));
            assert forall|k2: int| 0 <= k2 < m2.segments.len() implies #[trigger] inv_segment_ok(
                m2,
                k2,
            ) by {
                assert(inv_segment_ok(m0, k2));
            }
            assert forall|j2: int| 0 <= j2 < m2.players.len() implies #[trigger] inv_player_ok(
                m2,
                j2,
            ) by {
                assert(inv_player_ok(m0, j2));
            }
        }
    }
}

} // verus!
