//! The simulation state owned by the tick loop: one registry per entity
//! kind, keyed by opaque session identifiers, with the session operations
//! (join, direction change, quit and disconnect) and the state invariant
//! that every tick preserves.

use vstd::prelude::*;
use crate::protocol::{Direction, Head, Position, Score, Segment, Vincible};
use crate::grid::in_grid;
use crate::highscore::HighScoreList;

verus! {

/// Fixed spawn cell of every new head.
pub const STARTPOS_X: usize = 5;

pub const STARTPOS_Y: usize = 5;

/// Movement interval of a fresh snake, in milliseconds.
pub const HEAD_MOV_START_MS: usize = 500;

/// Floor under the movement interval: eating never accelerates past it.
pub const MIN_MOV_MS: usize = 10;

/// Period of the food spawn timer, in milliseconds.
pub const FOOD_SPAWN_MS: usize = 10000;

/// One live player: the head entity with its components and its per-player
/// movement timer.
pub struct Player {
    pub session: usize,
    pub head: Head,
    pub pos: Position,
    pub score: Score,
    pub vincible: Option<Vincible>,
    pub interval_ms: usize,
    pub elapsed_ms: usize,
}

impl Clone for Player {
    fn clone(&self) -> (r: Self)
        ensures
            r == *self,
    {
        Player {
            session: self.session,
            head: self.head.clone(),
            pos: self.pos,
            score: self.score,
            vincible: self.vincible,
            interval_ms: self.interval_ms,
            elapsed_ms: self.elapsed_ms,
        }
    }
}

/// One body segment in the global, append-ordered segment list.
#[derive(Clone, Copy)]
pub struct BodySegment {
    pub owner: usize,
    pub seg: Segment,
    pub pos: Position,
    pub vincible: Option<Vincible>,
}

/// The mathematical view of the whole simulation: the registries as
/// sequences, the food cell, the spawn timer, and the score listing.
#[verifier::ext_equal]
pub struct SimModel {
    pub players: Seq<Player>,
    pub segments: Seq<BodySegment>,
    pub food: Option<Position>,
    pub food_elapsed_ms: usize,
    pub entries: Seq<(String, usize)>,
}

/// Some player owns this session.
pub open spec fn has_player(players: Seq<Player>, sid: usize) -> bool {
    exists|i: int| 0 <= i < players.len() && (#[trigger] players[i]).session == sid
}

/// The index of the session's player; meaningful only when `has_player`
/// holds and unambiguous whenever sessions are unique.
pub open spec fn player_at(players: Seq<Player>, sid: usize) -> int {
    choose|i: int| 0 <= i < players.len() && (#[trigger] players[i]).session == sid
}

/// No session identifier owns two heads.
pub open spec fn sessions_unique(players: Seq<Player>) -> bool {
    forall|i: int, j: int|
        0 <= i < j < players.len() ==> (#[trigger] players[i]).session != (
        #[trigger] players[j]).session
}

/// How many listed segments the session owns.
pub open spec fn own_count(segments: Seq<BodySegment>, sid: usize) -> int
    decreases segments.len(),
{
    if segments.len() == 0 {
        0
    } else {
        own_count(segments.drop_last(), sid) + if segments.last().owner == sid {
            1int
        } else {
            0int
        }
    }
}

/// The per-player clauses of the invariant, bundled for proofs that touch
/// one player at a time.
pub open spec fn inv_player_ok(m: SimModel, i: int) -> bool
    recommends
        0 <= i < m.players.len(),
{
    &&& in_grid(m.players[i].pos)
    &&& m.players[i].score.level == own_count(m.segments, m.players[i].session)
    &&& MIN_MOV_MS <= m.players[i].interval_ms <= HEAD_MOV_START_MS
    &&& m.players[i].elapsed_ms < HEAD_MOV_START_MS
}

/// The per-segment clauses of the invariant: a live owner, on the grid.
pub open spec fn inv_segment_ok(m: SimModel, k: int) -> bool
    recommends
        0 <= k < m.segments.len(),
{
    &&& has_player(m.players, m.segments[k].owner)
    &&& in_grid(m.segments[k].pos)
}

/// The state invariant: unique sessions, every segment owned by a live
/// player, everything on the grid, each score equal to the owned segment
/// count, and both timers inside their bounds.
pub open spec fn inv(m: SimModel) -> bool {
    &&& sessions_unique(m.players)
    &&& forall|k: int| 0 <= k < m.segments.len() ==> #[trigger] inv_segment_ok(m, k)
    &&& forall|i: int| 0 <= i < m.players.len() ==> #[trigger] inv_player_ok(m, i)
    &&& (m.food is Some ==> in_grid(m.food->0))
    &&& m.food_elapsed_ms < FOOD_SPAWN_MS
}

/// The authoritative simulation state; all mutation goes through its
/// methods, driven by the tick loop.
pub struct SimulationState {
    pub players: Vec<Player>,
    pub segments: Vec<BodySegment>,
    pub food: Option<Position>,
    pub food_elapsed_ms: usize,
    pub scores: HighScoreList,
}

impl SimulationState {
    pub open spec fn model(self) -> SimModel {
        SimModel {
            players: self.players@,
            segments: self.segments@,
            food: self.food,
            food_elapsed_ms: self.food_elapsed_ms,
            entries: self.scores.entries@,
        }
    }

    pub open spec fn wf(self) -> bool {
        inv(self.model()) && self.scores.wf()
    }

    /// An empty world with a fresh score store.
    pub fn new() -> (r: SimulationState)
        ensures
            r.wf(),
            r.players@.len() == 0,
            r.segments@.len() == 0,
            r.food is None,
            r.food_elapsed_ms == 0,
            r.scores.entries@.len() == 0,
    {
        SimulationState {
            players: Vec::new(),
            segments: Vec::new(),
            food: None,
            food_elapsed_ms: 0,
            scores: HighScoreList::new(),
        }
    }

    /// Whether the session currently owns a head.
    #[verifier::loop_isolation(false)]
    pub fn has_session(&self, sid: usize) -> (r: bool)
        ensures
            r == has_player(self.players@, sid),
    {
        let mut i: usize = 0;
        while i < self.players.len()
            invariant
                i <= self.players@.len(),
                forall|k: int| 0 <= k < i ==> (#[trigger] self.players@[k]).session != sid,
            decreases self.players@.len() - i,
        {
            if self.players[i].session == sid {
                assert(self.players@[i as int].session == sid);
                return true;
            }
            i += 1;
        }
        false
    }
}

/// The head a joining player receives: at the fixed start cell, pointing up,
/// idle, score zero, in spawn grace, at the starting speed.
pub open spec fn new_player_spec(sid: usize, name: String) -> Player {
    Player {
        session: sid,
        head: (Head { dir: Direction::Up, name: name, running: false }),
        pos: (Position { x: STARTPOS_X, y: STARTPOS_Y }),
        score: (Score { level: 0 }),
        vincible: None,
        interval_ms: HEAD_MOV_START_MS,
        elapsed_ms: 0,
    }
}

/// A join spawns a head for a new session and leaves a known session alone.
pub open spec fn join_spec(m: SimModel, sid: usize, name: String) -> SimModel {
    if has_player(m.players, sid) {
        m
    } else {
        SimModel { players: m.players.push(new_player_spec(sid, name)), ..m }
    }
}

/// A direction command turns the head and starts an idle snake moving.
pub open spec fn direction_spec(m: SimModel, sid: usize, d: Direction) -> SimModel {
    if has_player(m.players, sid) {
        let i = player_at(m.players, sid);
        let p = m.players[i];
        SimModel {
            players: m.players.update(
                i,
                Player { head: (Head { dir: d, name: p.head.name, running: true }), ..p },
            ),
            ..m
        }
    } else {
        m
    }
}

/// The players that survive a teardown of `sid`.
pub open spec fn not_session(sid: usize) -> spec_fn(Player) -> bool {
    |p: Player| p.session != sid
}

/// The segments that survive a teardown of `sid`.
pub open spec fn not_owned_by(sid: usize) -> spec_fn(BodySegment) -> bool {
    |b: BodySegment| b.owner != sid
}

/// Teardown removes the session's head and every segment it owns, in one
/// atomic sweep of both registries.
pub open spec fn teardown_spec(m: SimModel, sid: usize) -> SimModel {
    SimModel {
        players: m.players.filter(not_session(sid)),
        segments: m.segments.filter(not_owned_by(sid)),
        ..m
    }
}

/// A session with no head owns no listed segments.
proof fn lemma_own_count_absent(segments: Seq<BodySegment>, sid: usize)
    requires
        forall|k: int| 0 <= k < segments.len() ==> (#[trigger] segments[k]).owner != sid,
    ensures
        own_count(segments, sid) == 0,
    decreases segments.len(),
{
    if segments.len() > 0 {
        lemma_own_count_absent(segments.drop_last(), sid);
    }
}

/// Removing one session's segments does not change what any other session
/// owns.
proof fn lemma_own_count_filter(segments: Seq<BodySegment>, sid: usize, other: usize)
    requires
        other != sid,
    ensures
        own_count(segments.filter(not_owned_by(sid)), other) == own_count(segments, other),
    decreases segments.len(),
{
    reveal(Seq::filter);
    let pred = not_owned_by(sid);
    if segments.len() > 0 {
        lemma_own_count_filter(segments.drop_last(), sid, other);
        let sub = segments.drop_last().filter(pred);
        if pred(segments.last()) {
            assert(segments.filter(pred) == sub.push(segments.last()));
            assert(sub.push(segments.last()).drop_last() =~= sub);
        } else {
            assert(segments.last().owner == sid);
        }
    }
}

/// A filtered sequence keeps only rows of the sequence it came from.
pub proof fn lemma_filter_elems<A>(s: Seq<A>, pred: spec_fn(A) -> bool)
    ensures
        forall|k: int|
            0 <= k < s.filter(pred).len() ==> s.contains(#[trigger] s.filter(pred)[k]) && pred(
                s.filter(pred)[k],
            ),
    decreases s.len(),
{
    reveal(Seq::filter);
    if s.len() > 0 {
        lemma_filter_elems(s.drop_last(), pred);
        assert forall|k: int| 0 <= k < s.filter(pred).len() implies s.contains(
            #[trigger] s.filter(pred)[k],
        ) && pred(s.filter(pred)[k]) by {
            if k < s.filter(pred).len() - 1 || !pred(s.last()) {
                assert(s.filter(pred)[k] == s.drop_last().filter(pred)[k]);
                let j = choose|j: int|
                    0 <= j < s.drop_last().len() && s.drop_last()[j] == s.filter(pred)[k];
                assert(s[j] == s.filter(pred)[k]);
            } else {
                assert(s[s.len() - 1] == s.filter(pred)[k]);
            }
        }
    }
}

/// Filtering keeps session uniqueness.
pub proof fn lemma_unique_filter(players: Seq<Player>, pred: spec_fn(Player) -> bool)
    requires
        sessions_unique(players),
    ensures
        sessions_unique(players.filter(pred)),
    decreases players.len(),
{
    reveal(Seq::filter);
    if players.len() > 0 {
        lemma_unique_filter(players.drop_last(), pred);
        lemma_filter_elems(players.drop_last(), pred);
        let f = players.filter(pred);
        assert forall|i: int, j: int| 0 <= i < j < f.len() implies (#[trigger] f[i]).session != (
        #[trigger] f[j]).session by {
            if pred(players.last()) && j == f.len() - 1 {
                assert(f[j] == players.last());
                assert(f[i] == players.drop_last().filter(pred)[i]);
                let k = choose|k: int|
                    0 <= k < players.drop_last().len() && players.drop_last()[k] == f[i];
                assert(players[k] == f[i]);
            } else {
                assert(f[i] == players.drop_last().filter(pred)[i]);
                assert(f[j] == players.drop_last().filter(pred)[j]);
            }
        }
    }
}

/// A sequence whose rows all satisfy the predicate filters to itself.
proof fn lemma_filter_all<A>(s: Seq<A>, pred: spec_fn(A) -> bool)
    requires
        forall|k: int| 0 <= k < s.len() ==> pred(#[trigger] s[k]),
    ensures
        s.filter(pred) == s,
    decreases s.len(),
{
    reveal(Seq::filter);
    if s.len() > 0 {
        lemma_filter_all(s.drop_last(), pred);
        assert(s.drop_last().filter(pred).push(s.last()) =~= s);
    }
}

/// Law: teardown is idempotent, so a quit followed by a disconnect and a
/// disconnect followed by a quit both leave the registries in the one clean
/// state that a single teardown produces.
pub proof fn lemma_teardown_idempotent(m: SimModel, sid: usize)
    ensures
        teardown_spec(teardown_spec(m, sid), sid) == teardown_spec(m, sid),
{
    let pp = not_session(sid);
    let sp = not_owned_by(sid);
    lemma_filter_elems(m.players, pp);
    lemma_filter_all(m.players.filter(pp), pp);
    lemma_filter_elems(m.segments, sp);
    lemma_filter_all(m.segments.filter(sp), sp);
    assert(teardown_spec(teardown_spec(m, sid), sid) =~= teardown_spec(m, sid));
}

impl SimulationState {
    /// Spawns a head for a joining session; a session that already owns a
    /// head keeps it unchanged.
    pub fn on_start(&mut self, sid: usize, name: String)
        requires
            old(self).wf(),
        ensures
            final(self).wf(),
            final(self).model() == join_spec(old(self).model(), sid, name),
    {
        if !self.has_session(sid) {
            proof {
                assert forall|k: int| 0 <= k < self.segments@.len() implies (
                #[trigger] self.segments@[k]).owner != sid by {
                    assert(inv_segment_ok(old(self).model(), k));
                    assert(has_player(self.players@, self.segments@[k].owner));
                }
                lemma_own_count_absent(self.segments@, sid);
            }
            let p = Player {
                session: sid,
                head: Head::new(name),
                pos: Position::new(STARTPOS_X, STARTPOS_Y),
                score: Score::new(),
                vincible: None,
                interval_ms: HEAD_MOV_START_MS,
                elapsed_ms: 0,
            };
            self.players.push(p);
            proof {
                let m0 = old(self).model();
                let m2 = self.model();
                assert(m2.players =~= m0.players.push(new_player_spec(sid, name)));
                assert(m2 =~= join_spec(m0, sid, name));
                let np = new_player_spec(sid, name);
                assert forall|i: int, j: int| 0 <= i < j < m2.players.len() implies (
                #[trigger] m2.players[i]).session != (#[trigger] m2.players[j]).session by {
                    if j == m2.players.len() - 1 {
                        assert(m2.players[i] == m0.players[i]);
                    }
                }
                assert forall|k: int| 0 <= k < m2.segments.len() implies #[trigger] inv_segment_ok(
                    m2,
                    k,
                ) by {
                    assert(inv_segment_ok(m0, k));
                    let o = m0.segments[k].owner;
                    let w = choose|w: int|
                        0 <= w < m0.players.len() && (#[trigger] m0.players[w]).session == o;
                    assert(m2.players[w].session == o);
                }
                assert forall|i: int| 0 <= i < m2.players.len() implies #[trigger] inv_player_ok(
                    m2,
                    i,
                ) by {
                    if i < m2.players.len() - 1 {
                        assert(m2.players[i] == m0.players[i]);
                        assert(inv_player_ok(m0, i));
                    } else {
                        assert(m2.players[i] == np);
                        assert(in_grid(np.pos));
                    }
                }
            }
        }
    }

    /// Applies a direction command: sets the head's direction and, on the
    /// first command, takes the snake from idle to moving.
    #[verifier::loop_isolation(false)]
    pub fn on_direction(&mut self, sid: usize, d: Direction)
        requires
            old(self).wf(),
        ensures
            final(self).wf(),
            final(self).model() == direction_spec(old(self).model(), sid, d),
    {
        let ghost m0 = self.model();
        let n = self.players.len();
        let mut i: usize = 0;
        while i < n
            invariant
                self == old(self),
                n == self.players@.len(),
                i <= n,
                forall|k: int| 0 <= k < i ==> (#[trigger] self.players@[k]).session != sid,
            decreases n - i,
        {
            if self.players[i].session == sid {
                proof {
                    assert(self.players@[i as int].session == sid);
                    assert(has_player(m0.players, sid));
                    let w = player_at(m0.players, sid);
                    assert(0 <= w < m0.players.len() && m0.players[w].session == sid);
                    assert(sessions_unique(m0.players));
                    assert(w == i);
                }
                self.players[i].head.dir = d;
                self.players[i].head.running = true;
                proof {
                    let m2 = self.model();
                    assert(m2 =~= direction_spec(m0, sid, d));
                    assert forall|k: int| 0 <= k < m2.segments.len() implies
                        #[trigger] inv_segment_ok(m2, k) by {
                        assert(inv_segment_ok(m0, k));
                        let o = m0.segments[k].owner;
                        let w = choose|w: int|
                            0 <= w < m0.players.len() && (#[trigger] m0.players[w]).session == o;
                        assert(m2.players[w].session == o);
                    }
                    assert forall|k: int| 0 <= k < m2.players.len() implies
                        #[trigger] inv_player_ok(m2, k) by {
                        assert(inv_player_ok(m0, k));
                        if k != i {
                            assert(m2.players[k] == m0.players[k]);
                        } else {
                            assert(m2.players[k].session == m0.players[k].session
                                && m2.players[k].score == m0.players[k].score
                                && m2.players[k].pos == m0.players[k].pos
                                && m2.players[k].interval_ms == m0.players[k].interval_ms
                                && m2.players[k].elapsed_ms == m0.players[k].elapsed_ms);
                        }
                    }
                }
                return ;
            }
            i += 1;
        }
        proof {
            assert(!has_player(m0.players, sid));
        }
    }

    /// Removes the session's head and all of its segments; both `on_quit`
    /// and `on_disconnect` come here, and running it again is a no-op.
    #[verifier::loop_isolation(false)]
    fn teardown(&mut self, sid: usize)
        requires
            old(self).wf(),
        ensures
            final(self).wf(),
            final(self).model() == teardown_spec(old(self).model(), sid),
    {
        let ghost m0 = self.model();
        let ghost pp = not_session(sid);
        let ghost sp = not_owned_by(sid);
        let mut ps: Vec<Player> = Vec::new();
        let mut i: usize = 0;
        while i < self.players.len()
            invariant
                self == old(self),
                i <= self.players@.len(),
                ps@ == self.players@.take(i as int).filter(pp),
            decreases self.players@.len() - i,
        {
            let ghost prefix = self.players@.take(i as int);
            proof {
                assert(self.players@.take(i as int + 1) =~= prefix.push(
                    self.players@[i as int],
                ));
                prefix.lemma_filter_push(self.players@[i as int], pp);
            }
            if self.players[i].session != sid {
                ps.push(self.players[i].clone());
            }
            i += 1;
        }
        let mut sg: Vec<BodySegment> = Vec::new();
        let mut k: usize = 0;
        while k < self.segments.len()
            invariant
                self == old(self),
                k <= self.segments@.len(),
                sg@ == self.segments@.take(k as int).filter(sp),
            decreases self.segments@.len() - k,
        {
            let ghost prefix = self.segments@.take(k as int);
            proof {
                assert(self.segments@.take(k as int + 1) =~= prefix.push(
                    self.segments@[k as int],
                ));
                prefix.lemma_filter_push(self.segments@[k as int], sp);
            }
            if self.segments[k].owner != sid {
                sg.push(self.segments[k]);
            }
            k += 1;
        }
        proof {
            assert(self.players@.take(self.players@.len() as int) =~= self.players@);
            assert(self.segments@.take(self.segments@.len() as int) =~= self.segments@);
        }
        self.players = ps;
        self.segments = sg;
        proof {
            assert(self.model() =~= teardown_spec(m0, sid));
            lemma_teardown_wf(m0, sid);
        }
    }

    /// A quit command: full teardown of the session.
    pub fn on_quit(&mut self, sid: usize)
        requires
            old(self).wf(),
        ensures
            final(self).wf(),
            final(self).model() == teardown_spec(old(self).model(), sid),
    {
        self.teardown(sid);
    }

    /// A disconnect: exactly the same teardown as a quit, so either order of
    /// the two leaves the registries unchanged after the first.
    pub fn on_disconnect(&mut self, sid: usize)
        requires
            old(self).wf(),
        ensures
            final(self).wf(),
            final(self).model() == teardown_spec(old(self).model(), sid),
    {
        self.teardown(sid);
    }
}

/// Teardown preserves the state invariant.
proof fn lemma_teardown_wf(m: SimModel, sid: usize)
    requires
        inv(m),
    ensures
        inv(teardown_spec(m, sid)),
{
    let pp = not_session(sid);
    let sp = not_owned_by(sid);
    let m2 = teardown_spec(m, sid);
    lemma_unique_filter(m.players, pp);
    lemma_filter_elems(m.players, pp);
    lemma_filter_elems(m.segments, sp);
    assert forall|k: int| 0 <= k < m2.segments.len() implies #[trigger] inv_segment_ok(m2, k) by {
        let b = m2.segments[k];
        assert(m.segments.contains(b) && sp(b));
        let kk = choose|kk: int| 0 <= kk < m.segments.len() && m.segments[kk] == b;
        assert(inv_segment_ok(m, kk));
        let i = choose|i: int|
            0 <= i < m.players.len() && (#[trigger] m.players[i]).session == b.owner;
        assert(pp(m.players[i]));
        m.players.lemma_filter_contains(pp, i);
        assert(m2.players.contains(m.players[i]));
        let j = choose|j: int| 0 <= j < m2.players.len() && m2.players[j] == m.players[i];
        assert(m2.players[j].session == b.owner);
    }
    assert forall|i: int| 0 <= i < m2.players.len() implies #[trigger] inv_player_ok(m2, i) by {
        let p = m2.players[i];
        assert(m.players.contains(p) && pp(p));
        let ii = choose|ii: int| 0 <= ii < m.players.len() && m.players[ii] == p;
        assert(inv_player_ok(m, ii));
        lemma_own_count_filter(m.segments, sid, p.session);
    }
}

} // verus!
