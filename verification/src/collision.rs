//! The collision detector: after all movement of a tick, every vincible
//! head whose cell some other vincible entity occupies is eliminated — its
//! final score goes to the ranking engine under its display name, all its
//! entities are destroyed, and it is handed a terminal notice.

use vstd::prelude::*;
use crate::protocol::QuitCmd;
use crate::highscore::upsert;
use crate::sim::{
    inv, inv_player_ok, inv_segment_ok, own_count, sessions_unique, BodySegment, Player,
    SimModel, SimulationState,
};

verus! {

/// Whether this head, carrying the vincibility marker, shares its cell with
/// some other vincible entity: another session's vincible head, or any
/// vincible segment — its own included.
pub open spec fn collides(m: SimModel, p: Player) -> bool {
    p.vincible is Some && ((exists|j: int|
        0 <= j < m.players.len() && (#[trigger] m.players[j]).session != p.session
            && m.players[j].vincible is Some && m.players[j].pos == p.pos) || (exists|k: int|
        0 <= k < m.segments.len() && (#[trigger] m.segments[k]).vincible is Some
            && m.segments[k].pos == p.pos))
}

/// The players a collision phase keeps.
pub open spec fn survives(m: SimModel) -> spec_fn(Player) -> bool {
    |p: Player| !collides(m, p)
}

/// The players a collision phase eliminates.
pub open spec fn dies(m: SimModel) -> spec_fn(Player) -> bool {
    |p: Player| collides(m, p)
}

/// Whether the session's head is eliminated this phase.
pub open spec fn session_dies(m: SimModel, sid: usize) -> bool {
    exists|i: int|
        0 <= i < m.players.len() && (#[trigger] m.players[i]).session == sid && collides(
            m,
            m.players[i],
        )
}

/// The segments whose owner outlives the phase.
pub open spec fn owner_survives(m: SimModel) -> spec_fn(BodySegment) -> bool {
    |b: BodySegment| !session_dies(m, b.owner)
}

/// The eliminated players, in registry order.
pub open spec fn eliminated(m: SimModel) -> Seq<Player> {
    m.players.filter(dies(m))
}

/// One terminal record: session, display name, final score.
pub open spec fn elim_row() -> spec_fn(Player) -> (usize, String, usize) {
    |p: Player| (p.session, p.head.name, p.score.level)
}

/// The score listing after submitting every eliminated player's final
/// score, in registry order.
pub open spec fn insert_all(entries: Seq<(String, usize)>, items: Seq<Player>) -> Seq<
    (String, usize),
>
    decreases items.len(),
{
    if items.len() == 0 {
        entries
    } else {
        upsert(
            insert_all(entries, items.drop_last()),
            items.last().head.name,
            items.last().score.level,
        )
    }
}

/// The collision phase as a transition: colliding heads and their segments
/// leave both registries, and their final scores enter the listing.
pub open spec fn collisions_spec(m: SimModel) -> SimModel {
    SimModel {
        players: m.players.filter(survives(m)),
        segments: m.segments.filter(owner_survives(m)),
        entries: insert_all(m.entries, eliminated(m)),
        ..m
    }
}

/// Mapping commutes with appending.
proof fn lemma_map_push<A, B>(s: Seq<A>, f: spec_fn(A) -> B, x: A)
    ensures
        s.push(x).map_values(f) == s.map_values(f).push(f(x)),
{
    assert(s.push(x).map_values(f) =~= s.map_values(f).push(f(x)));
}

/// A session is eliminated exactly when a terminal record carries it.
proof fn lemma_session_dies_iff(m: SimModel, sid: usize)
    ensures
        session_dies(m, sid) <==> exists|t: int|
            0 <= t < eliminated(m).len() && (#[trigger] eliminated(m)[t]).session == sid,
{
    if session_dies(m, sid) {
        let i = choose|i: int|
            0 <= i < m.players.len() && (#[trigger] m.players[i]).session == sid && collides(
                m,
                m.players[i],
            );
        m.players.lemma_filter_contains(dies(m), i);
        assert(eliminated(m).contains(m.players[i]));
        let t = choose|t: int| 0 <= t < eliminated(m).len() && eliminated(m)[t] == m.players[i];
        assert(eliminated(m)[t].session == sid);
    }
    if exists|t: int| 0 <= t < eliminated(m).len() && (#[trigger] eliminated(m)[t]).session
        == sid {
        let t = choose|t: int|
            0 <= t < eliminated(m).len() && (#[trigger] eliminated(m)[t]).session == sid;
        crate::sim::lemma_filter_elems(m.players, dies(m));
        assert(m.players.contains(eliminated(m)[t]));
        let i = choose|i: int| 0 <= i < m.players.len() && m.players[i] == eliminated(m)[t];
        assert(m.players[i].session == sid && collides(m, m.players[i]));
    }
}

/// A filter that keeps every segment of a session leaves its count alone.
proof fn lemma_own_count_filter_keep(
    segs: Seq<BodySegment>,
    pred: spec_fn(BodySegment) -> bool,
    sid: usize,
)
    requires
        forall|k: int| 0 <= k < segs.len() && (#[trigger] segs[k]).owner == sid ==> pred(segs[k]),
    ensures
        own_count(segs.filter(pred), sid) == own_count(segs, sid),
    decreases segs.len(),
{
    reveal(Seq::filter);
    if segs.len() > 0 {
        lemma_own_count_filter_keep(segs.drop_last(), pred, sid);
        let sub = segs.drop_last().filter(pred);
        if pred(segs.last()) {
            assert(segs.filter(pred) == sub.push(segs.last()));
            assert(sub.push(segs.last()).drop_last() =~= sub);
        } else {
            assert(segs.last().owner != sid);
        }
    }
}

/// The collision phase preserves the state invariant.
proof fn lemma_collisions_wf(m: SimModel)
    requires
        inv(m),
    ensures
        inv(collisions_spec(m)),
{
    let m2 = collisions_spec(m);
    crate::sim::lemma_unique_filter(m.players, survives(m));
    crate::sim::lemma_filter_elems(m.players, survives(m));
    crate::sim::lemma_filter_elems(m.segments, owner_survives(m));
    assert forall|k: int| 0 <= k < m2.segments.len() implies #[trigger] inv_segment_ok(m2, k) by {
        let b = m2.segments[k];
        assert(m.segments.contains(b) && owner_survives(m)(b));
        let kk = choose|kk: int| 0 <= kk < m.segments.len() && m.segments[kk] == b;
        assert(inv_segment_ok(m, kk));
        let i = choose|i: int|
            0 <= i < m.players.len() && (#[trigger] m.players[i]).session == b.owner;
        assert(!collides(m, m.players[i]));
        m.players.lemma_filter_contains(survives(m), i);
        assert(m2.players.contains(m.players[i]));
        let j = choose|j: int| 0 <= j < m2.players.len() && m2.players[j] == m.players[i];
        assert(m2.players[j].session == b.owner);
    }
    assert forall|i: int| 0 <= i < m2.players.len() implies #[trigger] inv_player_ok(m2, i) by {
        let p = m2.players[i];
        assert(m.players.contains(p) && survives(m)(p));
        let ii = choose|ii: int| 0 <= ii < m.players.len() && m.players[ii] == p;
        assert(inv_player_ok(m, ii));
        assert forall|k: int|
            0 <= k < m.segments.len() && (#[trigger] m.segments[k]).owner == p.session
                implies owner_survives(m)(m.segments[k]) by {
            if session_dies(m, p.session) {
                let w = choose|w: int|
                    0 <= w < m.players.len() && (#[trigger] m.players[w]).session == p.session
                        && collides(m, m.players[w]);
                assert(m.players[w] == p || w != ii);
            }
        }
        lemma_own_count_filter_keep(m.segments, owner_survives(m), p.session);
    }
}

impl SimulationState {
    /// Whether the head at index `i` collides in the current state.
    #[verifier::loop_isolation(false)]
    fn check_collision(&self, i: usize) -> (r: bool)
        requires
            sessions_unique(self.players@),
            i < self.players@.len(),
        ensures
            r == collides(self.model(), self.players@[i as int]),
    {
        let p_pos = self.players[i].pos;
        let sid = self.players[i].session;
        if self.players[i].vincible.is_none() {
            return false;
        }
        let mut j: usize = 0;
        while j < self.players.len()
            invariant
                j <= self.players@.len(),
                forall|t: int|
                    0 <= t < j ==> !((#[trigger] self.players@[t]).session != sid
                        && self.players@[t].vincible is Some && self.players@[t].pos == p_pos),
            decreases self.players@.len() - j,
        {
            if j != i && self.players[j].vincible.is_some() && self.players[j].pos == p_pos {
                proof {
                    assert(self.players@[j as int].session != sid);
                }
                return true;
            }
            proof {
                if j == i {
                    assert(self.players@[j as int].session == sid);
                }
            }
            j += 1;
        }
        let mut k: usize = 0;
        while k < self.segments.len()
            invariant
                k <= self.segments@.len(),
                forall|t: int|
                    0 <= t < k ==> !((#[trigger] self.segments@[t]).vincible is Some
                        && self.segments@[t].pos == p_pos),
            decreases self.segments@.len() - k,
        {
            if self.segments[k].vincible.is_some() && self.segments[k].pos == p_pos {
                return true;
            }
            k += 1;
        }
        false
    }

    /// Resolves all collisions of the tick at once, against the state the
    /// movement phase left: every colliding head is eliminated — its final
    /// score recorded under its display name, its head and segments
    /// destroyed — and the eliminated sessions are returned, in registry
    /// order, each with its terminal notice.
    #[verifier::loop_isolation(false)]
    pub fn update_collisions(&mut self) -> (out: Vec<(usize, QuitCmd)>)
        requires
            old(self).wf(),
        ensures
            final(self).wf(),
            final(self).model() == collisions_spec(old(self).model()),
            out@.len() == eliminated(old(self).model()).len(),
            forall|t: int|
                0 <= t < out@.len() ==> (#[trigger] out@[t]).0 == eliminated(
                    old(self).model(),
                )[t].session,
    {
        let ghost m0 = self.model();
        let mut elim: Vec<(usize, String, usize)> = Vec::new();
        let mut ps: Vec<Player> = Vec::new();
        let n = self.players.len();
        let mut i: usize = 0;
        while i < n
            invariant
                self == old(self),
                n == self.players@.len(),
                i <= n,
                elim@ == m0.players.take(i as int).filter(dies(m0)).map_values(elim_row()),
                ps@ == m0.players.take(i as int).filter(survives(m0)),
            decreases n - i,
        {
            let ghost prefix = m0.players.take(i as int);
            proof {
                assert(m0.players.take(i as int + 1) =~= prefix.push(m0.players[i as int]));
                prefix.lemma_filter_push(m0.players[i as int], dies(m0));
                prefix.lemma_filter_push(m0.players[i as int], survives(m0));
                lemma_map_push(
                    prefix.filter(dies(m0)),
                    elim_row(),
                    m0.players[i as int],
                );
            }
            if self.check_collision(i) {
                let name = self.players[i].head.name.clone();
                elim.push((self.players[i].session, name, self.players[i].score.level));
            } else {
                ps.push(self.players[i].clone());
            }
            i += 1;
        }
        proof {
            assert(m0.players.take(n as int) =~= m0.players);
        }
        let mut sg: Vec<BodySegment> = Vec::new();
        let mut k: usize = 0;
        while k < self.segments.len()
            invariant
                self == old(self),
                k <= self.segments@.len(),
                elim@ == eliminated(m0).map_values(elim_row()),
                sg@ == m0.segments.take(k as int).filter(owner_survives(m0)),
            decreases self.segments@.len() - k,
        {
            let ghost prefix = m0.segments.take(k as int);
            proof {
                assert(m0.segments.take(k as int + 1) =~= prefix.push(m0.segments[k as int]));
                prefix.lemma_filter_push(m0.segments[k as int], owner_survives(m0));
                lemma_session_dies_iff(m0, m0.segments[k as int].owner);
            }
            let owner = self.segments[k].owner;
            let mut dead = false;
            let mut t: usize = 0;
            while t < elim.len()
                invariant
                    t <= elim@.len(),
                    dead == exists|u: int| 0 <= u < t && (#[trigger] elim@[u]).0 == owner,
                decreases elim@.len() - t,
            {
                if elim[t].0 == owner {
                    dead = true;
                }
                t += 1;
            }
            proof {
                assert(dead == exists|u: int|
                    0 <= u < elim@.len() && (#[trigger] elim@[u]).0 == owner);
                assert forall|u: int| 0 <= u < elim@.len() implies (#[trigger] elim@[u]).0
                    == eliminated(m0)[u].session by {
                    assert(elim@[u] == elim_row()(eliminated(m0)[u]));
                }
                if dead {
                    let u = choose|u: int| 0 <= u < elim@.len() && (#[trigger] elim@[u]).0
                        == owner;
                    assert(eliminated(m0)[u].session == owner);
                } else {
                    if session_dies(m0, owner) {
                        let w = choose|w: int|
                            0 <= w < eliminated(m0).len() && (#[trigger] eliminated(
                                m0,
                            )[w]).session == owner;
                        assert(elim@[w].0 == owner);
                        assert(false);
                    }
                }
                assert(dead == session_dies(m0, owner));
            }
            if !dead {
                sg.push(self.segments[k]);
            }
            k += 1;
        }
        proof {
            assert(m0.segments.take(self.segments@.len() as int) =~= m0.segments);
        }
        self.players = ps;
        self.segments = sg;
        let mut out: Vec<(usize, QuitCmd)> = Vec::new();
        let mut t: usize = 0;
        while t < elim.len()
            invariant
                t <= elim@.len(),
                elim@ == eliminated(m0).map_values(elim_row()),
                self.players@ == m0.players.filter(survives(m0)),
                self.segments@ == m0.segments.filter(owner_survives(m0)),
                self.food == m0.food,
                self.food_elapsed_ms == m0.food_elapsed_ms,
                self.scores.wf(),
                self.scores.entries@ == insert_all(m0.entries, eliminated(m0).take(t as int)),
                out@.len() == t,
                forall|u: int|
                    0 <= u < t ==> (#[trigger] out@[u]).0 == eliminated(m0)[u].session,
            decreases elim@.len() - t,
        {
            proof {
                assert(eliminated(m0).take(t as int + 1).drop_last() =~= eliminated(m0).take(
                    t as int,
                ));
                assert(elim@[t as int] == elim_row()(eliminated(m0)[t as int]));
            }
            let name = elim[t].1.clone();
            self.scores.insert(name, elim[t].2);
            out.push((elim[t].0, QuitCmd::new()));
            t += 1;
        }
        proof {
            assert(eliminated(m0).take(eliminated(m0).len() as int) =~= eliminated(m0));
            assert(self.model() =~= collisions_spec(m0));
            lemma_collisions_wf(m0);
        }
        out
    }
}

} // verus!
