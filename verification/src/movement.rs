//! Snake movement and growth: the per-player movement step that advances the
//! head, propagates every body segment follow-the-leader along the global
//! segment order, and handles eating — plus the per-player timer gate and
//! the laws about trajectories, growth and the post-spawn grace period.

use vstd::prelude::*;
use crate::protocol::{Direction, Position, Score, Segment, Vincible};
use crate::grid::{in_grid, pos_step, wrap_step};
use crate::sim::{
    has_player, inv, inv_player_ok, inv_segment_ok, own_count, BodySegment, Player, SimModel,
    SimulationState, HEAD_MOV_START_MS, MIN_MOV_MS,
};

verus! {

/// The position that the nearest preceding segment of `sid` in the global
/// order held before the step — the head's old cell if there is none: the
/// accumulated "previous position" that the follow walk hands down.
pub open spec fn prev_own_pos(
    head_old: Position,
    segs: Seq<BodySegment>,
    sid: usize,
    j: int,
) -> Position
    decreases j,
{
    if j <= 0 {
        head_old
    } else if segs[j - 1].owner == sid {
        segs[j - 1].pos
    } else {
        prev_own_pos(head_old, segs, sid, j - 1)
    }
}

/// What the follow walk leaves at index `j`: a segment of `sid` takes the
/// position its predecessor held, is marked synced, and leaves grace; other
/// players' segments are untouched.
pub open spec fn follow_at(
    head_old: Position,
    segs: Seq<BodySegment>,
    sid: usize,
    j: int,
) -> BodySegment {
    if segs[j].owner == sid {
        BodySegment {
            owner: sid,
            seg: (Segment { synced: true }),
            pos: prev_own_pos(head_old, segs, sid, j),
            vincible: Some(Vincible),
        }
    } else {
        segs[j]
    }
}

/// The whole segment list after the follow walk of one player.
pub open spec fn follow_segments(
    head_old: Position,
    segs: Seq<BodySegment>,
    sid: usize,
) -> Seq<BodySegment> {
    Seq::new(segs.len(), |j: int| follow_at(head_old, segs, sid, j))
}

/// The segment appended when a snake eats: at the cell its tail vacated,
/// not yet synced, in spawn grace.
pub open spec fn new_tail_segment(sid: usize, pos: Position) -> BodySegment {
    BodySegment { owner: sid, seg: (Segment { synced: false }), pos, vincible: None }
}

/// The movement interval after eating: scaled by 95/100, never below the
/// floor.
pub open spec fn next_interval(iv: usize) -> usize {
    if iv * 95 / 100 >= MIN_MOV_MS {
        (iv * 95 / 100) as usize
    } else {
        MIN_MOV_MS
    }
}

/// Whether the step of player `i` lands its head on the food.
pub open spec fn eats(m: SimModel, i: int) -> bool {
    m.food is Some && m.food->0 == pos_step(m.players[i].pos, m.players[i].head.dir)
}

/// One full movement step of player `i`: leave grace, advance the head one
/// cell with wrap-around, hand each owned segment its predecessor's old
/// position in global order, and, if the head lands on food, despawn the
/// food, append a tail segment in grace, speed the player's timer up,
/// re-grant grace on the first food, and raise the score by one.
pub open spec fn move_step_spec(m: SimModel, i: int) -> SimModel {
    let p = m.players[i];
    let sid = p.session;
    let old_head = p.pos;
    let new_head = pos_step(old_head, p.head.dir);
    let moved = follow_segments(old_head, m.segments, sid);
    let tail = prev_own_pos(old_head, m.segments, sid, m.segments.len() as int);
    let p2 = Player {
        pos: new_head,
        vincible: if eats(m, i) && p.score.level == 0 {
            None
        } else {
            Some(Vincible)
        },
        score: if eats(m, i) {
            (Score { level: (p.score.level + 1) as usize })
        } else {
            p.score
        },
        interval_ms: if eats(m, i) {
            next_interval(p.interval_ms)
        } else {
            p.interval_ms
        },
        ..p
    };
    SimModel {
        players: m.players.update(i, p2),
        segments: if eats(m, i) {
            moved.push(new_tail_segment(sid, tail))
        } else {
            moved
        },
        food: if eats(m, i) {
            None
        } else {
            m.food
        },
        ..m
    }
}

/// The accumulated predecessor position is always a cell some entity held.
proof fn lemma_prev_own_pos_grid(head_old: Position, segs: Seq<BodySegment>, sid: usize, j: int)
    requires
        in_grid(head_old),
        forall|k: int| 0 <= k < segs.len() ==> in_grid((#[trigger] segs[k]).pos),
        j <= segs.len(),
    ensures
        in_grid(prev_own_pos(head_old, segs, sid, j)),
    decreases j,
{
    if j > 0 && segs[j - 1].owner != sid {
        lemma_prev_own_pos_grid(head_old, segs, sid, j - 1);
    }
}

/// Two segment lists with the same owners column give every session the same
/// count.
proof fn lemma_own_count_pointwise(s1: Seq<BodySegment>, s2: Seq<BodySegment>, sid: usize)
    requires
        s1.len() == s2.len(),
        forall|k: int| 0 <= k < s1.len() ==> (#[trigger] s1[k]).owner == (#[trigger] s2[k]).owner,
    ensures
        own_count(s1, sid) == own_count(s2, sid),
    decreases s1.len(),
{
    if s1.len() > 0 {
        lemma_own_count_pointwise(s1.drop_last(), s2.drop_last(), sid);
    }
}

/// A session owns no more segments than the list holds.
proof fn lemma_own_count_le(segs: Seq<BodySegment>, sid: usize)
    ensures
        0 <= own_count(segs, sid) <= segs.len(),
    decreases segs.len(),
{
    if segs.len() > 0 {
        lemma_own_count_le(segs.drop_last(), sid);
    }
}

/// Appending one segment raises exactly its owner's count.
proof fn lemma_own_count_push(segs: Seq<BodySegment>, b: BodySegment, sid: usize)
    ensures
        own_count(segs.push(b), sid) == own_count(segs, sid) + if b.owner == sid {
            1int
        } else {
            0int
        },
{
    assert(segs.push(b).drop_last() =~= segs);
}

impl SimulationState {
    /// One movement step of the running player at index `i`, exactly as the
    /// transition `move_step_spec` describes it.
    #[verifier::loop_isolation(false)]
    fn move_player(&mut self, i: usize)
        requires
            old(self).wf(),
            i < old(self).players@.len(),
        ensures
            final(self).wf(),
            final(self).model() == move_step_spec(old(self).model(), i as int),
    {
        let ghost m0 = self.model();
        let sid = self.players[i].session;
        let dir = self.players[i].head.dir;
        let old_head = self.players[i].pos;
        proof {
            assert(inv_player_ok(m0, i as int));
        }
        let new_head = wrap_step(old_head, dir);
        let mut acc = old_head;
        let mut k: usize = 0;
        while k < self.segments.len()
            invariant
                self.players == old(self).players,
                self.food == old(self).food,
                self.food_elapsed_ms == old(self).food_elapsed_ms,
                self.scores == old(self).scores,
                k <= self.segments@.len(),
                self.segments@.len() == m0.segments.len(),
                acc == prev_own_pos(old_head, m0.segments, sid, k as int),
                forall|j: int| k <= j < m0.segments.len() ==> self.segments@[j] == m0.segments[j],
                forall|j: int|
                    0 <= j < k ==> self.segments@[j] == follow_at(old_head, m0.segments, sid, j),
            decreases m0.segments.len() - k,
        {
            if self.segments[k].owner == sid {
                let b = self.segments[k];
                self.segments[k] = BodySegment {
                    owner: b.owner,
                    seg: Segment { synced: true },
                    pos: acc,
                    vincible: Some(Vincible),
                };
                acc = b.pos;
            }
            k += 1;
        }
        proof {
            assert(self.segments@ =~= follow_segments(old_head, m0.segments, sid));
        }
        self.players[i].pos = new_head;
        self.players[i].vincible = Some(Vincible);
        let ate = match self.food {
            Some(f) => f == new_head,
            None => false,
        };
        proof {
            assert(ate == eats(m0, i as int));
        }
        if ate {
            self.food = None;
            self.segments.push(BodySegment {
                owner: sid,
                seg: Segment::new(),
                pos: acc,
                vincible: None,
            });
            let iv = self.players[i].interval_ms;
            let shrunk = iv * 95 / 100;
            self.players[i].interval_ms = if shrunk >= MIN_MOV_MS {
                shrunk
            } else {
                MIN_MOV_MS
            };
            if self.players[i].score.level == 0 {
                self.players[i].vincible = None;
            }
            let lv = self.players[i].score.level;
            proof {
                lemma_own_count_le(m0.segments, sid);
                assert(lv == own_count(m0.segments, sid));
                assert(self.segments.len() == m0.segments.len() + 1);
                assert(lv < usize::MAX);
            }
            self.players[i].score.level = lv + 1;
        }
        proof {
            let m1 = move_step_spec(m0, i as int);
            assert(self.players@ =~= m1.players);
            assert(self.segments@ =~= m1.segments);
            assert(self.model() =~= m1);
            lemma_move_step_wf(m0, i as int);
        }
    }
}

/// The model with player `i`'s accumulated timer replaced.
pub open spec fn set_elapsed(m: SimModel, i: int, e: usize) -> SimModel {
    SimModel { players: m.players.update(i, Player { elapsed_ms: e, ..m.players[i] }), ..m }
}

/// The per-player timer gate: an idle snake's timer does not run; a running
/// snake accumulates the tick's elapsed time and, when its own interval has
/// passed, keeps the remainder and takes one movement step.
pub open spec fn step_if_due_spec(m: SimModel, i: int, delta: usize) -> SimModel {
    let p = m.players[i];
    if !p.head.running {
        m
    } else if p.elapsed_ms + delta >= p.interval_ms {
        move_step_spec(
            set_elapsed(m, i, ((p.elapsed_ms + delta) % (p.interval_ms as int)) as usize),
            i,
        )
    } else {
        set_elapsed(m, i, (p.elapsed_ms + delta) as usize)
    }
}

/// The movement phase of one tick: every player's gate, in registry order,
/// each seeing the segments, food and scores its predecessors left.
pub open spec fn heads_spec(m: SimModel, delta: usize, n: int) -> SimModel
    decreases n,
{
    if n <= 0 {
        m
    } else {
        step_if_due_spec(heads_spec(m, delta, n - 1), n - 1, delta)
    }
}

/// Replacing a timer value inside its bound preserves the invariant.
proof fn lemma_set_elapsed_wf(m: SimModel, i: int, e: usize)
    requires
        inv(m),
        0 <= i < m.players.len(),
        e < HEAD_MOV_START_MS,
    ensures
        inv(set_elapsed(m, i, e)),
{
    let m2 = set_elapsed(m, i, e);
    assert forall|i2: int, j2: int| 0 <= i2 < j2 < m2.players.len() implies (
    #[trigger] m2.players[i2]).session != (#[trigger] m2.players[j2]).session by {
        assert(m2.players[i2].session == m.players[i2].session);
        assert(m2.players[j2].session == m.players[j2].session);
    }
    assert forall|k: int| 0 <= k < m2.segments.len() implies #[trigger] inv_segment_ok(m2, k) by {
        assert(inv_segment_ok(m, k));
        let o = m.segments[k].owner;
        let w = choose|w: int| 0 <= w < m.players.len() && (#[trigger] m.players[w]).session == o;
        assert(m2.players[w].session == o);
    }
    assert forall|j: int| 0 <= j < m2.players.len() implies #[trigger] inv_player_ok(m2, j) by {
        assert(inv_player_ok(m, j));
        if j != i {
            assert(m2.players[j] == m.players[j]);
        }
    }
}

impl SimulationState {
    /// Advances every snake for one tick of `delta_ms` milliseconds: each
    /// running player's timer accumulates the delta and, where an interval
    /// has elapsed, that snake takes one movement step, in registry order.
    #[verifier::loop_isolation(false)]
    pub fn update_heads(&mut self, delta_ms: usize)
        requires
            old(self).wf(),
            delta_ms <= usize::MAX - HEAD_MOV_START_MS,
        ensures
            final(self).wf(),
            final(self).model() == heads_spec(
                old(self).model(),
                delta_ms,
                old(self).players@.len() as int,
            ),
    {
        let ghost m_init = self.model();
        let n = self.players.len();
        let mut i: usize = 0;
        while i < n
            invariant
                self.wf(),
                n == self.players@.len(),
                i <= n,
                self.model() == heads_spec(m_init, delta_ms, i as int),
            decreases n - i,
        {
            let ghost m_i = self.model();
            proof {
                assert(inv_player_ok(m_i, i as int));
            }
            let running = self.players[i].head.running;
            if running {
                let e = self.players[i].elapsed_ms;
                let iv = self.players[i].interval_ms;
                if e + delta_ms >= iv {
                    self.players[i].elapsed_ms = (e + delta_ms) % iv;
                    proof {
                        let m_mid = set_elapsed(m_i, i as int, ((e + delta_ms) % (
                        iv as int)) as usize);
                        assert(self.model() =~= m_mid);
                        lemma_set_elapsed_wf(m_i, i as int, self.players@[i as int].elapsed_ms);
                    }
                    self.move_player(i);
                } else {
                    self.players[i].elapsed_ms = e + delta_ms;
                    proof {
                        assert(self.model() =~= set_elapsed(
                            m_i,
                            i as int,
                            (e + delta_ms) as usize,
                        ));
                        lemma_set_elapsed_wf(m_i, i as int, (e + delta_ms) as usize);
                    }
                }
            }
            proof {
                assert(self.model() == step_if_due_spec(m_i, i as int, delta_ms));
            }
            i += 1;
        }
    }
}

/// A movement step preserves the state invariant.
proof fn lemma_move_step_wf(m: SimModel, i: int)
    requires
        inv(m),
        0 <= i < m.players.len(),
        eats(m, i) ==> m.segments.len() < usize::MAX,
    ensures
        inv(move_step_spec(m, i)),
{
    let p = m.players[i];
    let sid = p.session;
    let old_head = p.pos;
    let m1 = move_step_spec(m, i);
    let moved = follow_segments(old_head, m.segments, sid);
    assert(inv_player_ok(m, i));
    assert forall|k2: int| 0 <= k2 < m.segments.len() implies in_grid(
        (#[trigger] m.segments[k2]).pos,
    ) by {
        assert(inv_segment_ok(m, k2));
    }
    assert forall|i2: int, j2: int| 0 <= i2 < j2 < m1.players.len() implies (
    #[trigger] m1.players[i2]).session != (#[trigger] m1.players[j2]).session by {
        assert(m1.players[i2].session == m.players[i2].session);
        assert(m1.players[j2].session == m.players[j2].session);
    }
    assert forall|k: int| 0 <= k < moved.len() implies (#[trigger] moved[k]).owner
        == m.segments[k].owner && in_grid(moved[k].pos) by {
        assert(inv_segment_ok(m, k));
        if m.segments[k].owner == sid {
            lemma_prev_own_pos_grid(old_head, m.segments, sid, k);
        }
    }
    lemma_own_count_pointwise(m.segments, moved, sid);
    assert forall|k: int| 0 <= k < m1.segments.len() implies #[trigger] inv_segment_ok(m1, k) by {
        let o = if k < moved.len() {
            m.segments[k].owner
        } else {
            sid
        };
        assert(m1.segments[k].owner == o);
        if k < moved.len() {
            assert(inv_segment_ok(m, k));
        }
        assert(has_player(m.players, o));
        let w = choose|w: int| 0 <= w < m.players.len() && (#[trigger] m.players[w]).session == o;
        assert(m1.players[w].session == o);
        if k == moved.len() {
            lemma_prev_own_pos_grid(old_head, m.segments, sid, m.segments.len() as int);
        }
    }
    assert forall|j: int| 0 <= j < m1.players.len() implies #[trigger] inv_player_ok(m1, j) by {
        assert(inv_player_ok(m, j));
        lemma_own_count_pointwise(m.segments, moved, m.players[j].session);
        if eats(m, i) {
            lemma_own_count_push(
                moved,
                new_tail_segment(sid, prev_own_pos(old_head, m.segments, sid, m.segments.len() as int)),
                m.players[j].session,
            );
            lemma_own_count_le(m.segments, sid);
            if j != i {
                assert(m1.players[j] == m.players[j]);
                assert(m.players[j].session != sid);
            }
        } else {
            if j != i {
                assert(m1.players[j] == m.players[j]);
            }
        }
    }
}

/// The segments that a session owns.
pub open spec fn owned_by(sid: usize) -> spec_fn(BodySegment) -> bool {
    |b: BodySegment| b.owner == sid
}

/// A segment's cell.
pub open spec fn seg_pos() -> spec_fn(BodySegment) -> Position {
    |b: BodySegment| b.pos
}

/// The ordered chain of cells a session's segments occupy, in global
/// segment order.
pub open spec fn own_positions(segs: Seq<BodySegment>, sid: usize) -> Seq<Position> {
    segs.filter(owned_by(sid)).map_values(seg_pos())
}

/// One follow-the-leader shift of a chain: the head's old cell enters in
/// front, the tail's cell drops off the back.
pub open spec fn chain_shift(h: Position, s: Seq<Position>) -> Seq<Position> {
    if s.len() == 0 {
        s
    } else {
        seq![h] + s.drop_last()
    }
}

/// Mapping to positions commutes with appending a segment.
proof fn lemma_seg_pos_push(s: Seq<BodySegment>, x: BodySegment)
    ensures
        s.push(x).map_values(seg_pos()) == s.map_values(seg_pos()).push(x.pos),
{
    assert(s.push(x).map_values(seg_pos()) =~= s.map_values(seg_pos()).push(x.pos));
}

/// The accumulated predecessor position only reads the prefix before it.
proof fn lemma_prev_own_pos_prefix(
    h: Position,
    s1: Seq<BodySegment>,
    s2: Seq<BodySegment>,
    sid: usize,
    j: int,
)
    requires
        j <= s1.len(),
        j <= s2.len(),
        forall|k: int| 0 <= k < j ==> s1[k] == s2[k],
    ensures
        prev_own_pos(h, s1, sid, j) == prev_own_pos(h, s2, sid, j),
    decreases j,
{
    if j > 0 {
        lemma_prev_own_pos_prefix(h, s1, s2, sid, j - 1);
    }
}

/// The accumulated predecessor position is the last chain cell of the
/// prefix walked so far — the head's old cell while none has been passed.
proof fn lemma_prev_own_pos_take(h: Position, segs: Seq<BodySegment>, sid: usize, j: int)
    requires
        0 <= j <= segs.len(),
    ensures
        prev_own_pos(h, segs, sid, j) == if own_positions(segs.take(j), sid).len() == 0 {
            h
        } else {
            own_positions(segs.take(j), sid).last()
        },
    decreases j,
{
    reveal(Seq::filter);
    let pred = owned_by(sid);
    if j > 0 {
        lemma_prev_own_pos_take(h, segs, sid, j - 1);
        assert(segs.take(j).drop_last() =~= segs.take(j - 1));
        assert(segs.take(j).last() == segs[j - 1]);
        assert(segs.take(j).filter(pred) == if pred(segs[j - 1]) {
            segs.take(j - 1).filter(pred).push(segs[j - 1])
        } else {
            segs.take(j - 1).filter(pred)
        });
        if pred(segs[j - 1]) {
            lemma_seg_pos_push(segs.take(j - 1).filter(pred), segs[j - 1]);
        }
    } else {
        assert(segs.take(0) =~= Seq::<BodySegment>::empty());
    }
}

/// The follow walk shifts the owner's chain by the head's old cell and
/// leaves every other session's chain untouched.
proof fn lemma_follow_shifts(h: Position, segs: Seq<BodySegment>, sid: usize)
    ensures
        own_positions(follow_segments(h, segs, sid), sid) == chain_shift(
            h,
            own_positions(segs, sid),
        ),
    decreases segs.len(),
{
    reveal(Seq::filter);
    let pred = owned_by(sid);
    let f = follow_segments(h, segs, sid);
    let n = segs.len() as int;
    if n == 0 {
        assert(f =~= Seq::<BodySegment>::empty());
    } else {
        let dl = segs.drop_last();
        let f_dl = follow_segments(h, dl, sid);
        assert forall|j: int| 0 <= j < n - 1 implies f[j] == f_dl[j] by {
            lemma_prev_own_pos_prefix(h, segs, dl, sid, j);
        }
        assert(f.drop_last() =~= f_dl);
        assert(f == f_dl.push(f.last()));
        lemma_follow_shifts(h, dl, sid);
        lemma_prev_own_pos_take(h, segs, sid, n - 1);
        assert(segs.take(n - 1) =~= dl);
        if pred(segs.last()) {
            assert(f.last() == follow_at(h, segs, sid, n - 1));
            assert(f.last().owner == sid && f.last().pos == prev_own_pos(h, segs, sid, n - 1));
            assert(f.filter(pred) == f_dl.filter(pred).push(f.last()));
            lemma_seg_pos_push(f_dl.filter(pred), f.last());
            assert(segs.filter(pred) == dl.filter(pred).push(segs.last()));
            lemma_seg_pos_push(dl.filter(pred), segs.last());
            let s_dl = own_positions(dl, sid);
            assert(own_positions(segs, sid) == s_dl.push(segs.last().pos));
            assert(own_positions(f, sid) == chain_shift(h, s_dl).push(
                prev_own_pos(h, segs, sid, n - 1),
            ));
            if s_dl.len() == 0 {
                assert(prev_own_pos(h, segs, sid, n - 1) == h);
                assert(own_positions(f, sid) =~= chain_shift(h, own_positions(segs, sid)));
            } else {
                assert(prev_own_pos(h, segs, sid, n - 1) == s_dl.last());
                assert(own_positions(segs, sid).drop_last() =~= s_dl);
                assert(own_positions(f, sid) =~= chain_shift(h, own_positions(segs, sid)));
            }
        } else {
            assert(f.last() == segs.last());
            assert(f.filter(pred) == f_dl.filter(pred));
            assert(segs.filter(pred) == dl.filter(pred));
            assert(own_positions(f, sid) == own_positions(f_dl, sid));
            assert(own_positions(segs, sid) == own_positions(dl, sid));
        }
    }
}

/// Law: a movement step without eating keeps the owner's segment count and
/// list length, moves the head one cell in its direction, and shifts the
/// ordered chain of the owner's segment cells by the head's old cell —
/// follow-the-leader with no link between segments but their global order.
pub proof fn lemma_move_step_chain(m: SimModel, i: int)
    requires
        inv(m),
        0 <= i < m.players.len(),
        !eats(m, i),
    ensures
        move_step_spec(m, i).players[i as int].pos == pos_step(
            m.players[i].pos,
            m.players[i].head.dir,
        ),
        move_step_spec(m, i).segments.len() == m.segments.len(),
        own_count(move_step_spec(m, i).segments, m.players[i].session) == own_count(
            m.segments,
            m.players[i].session,
        ),
        own_positions(move_step_spec(m, i).segments, m.players[i].session) == chain_shift(
            m.players[i].pos,
            own_positions(m.segments, m.players[i].session),
        ),
        move_step_spec(m, i).players[i as int].score == m.players[i].score,
{
    let sid = m.players[i].session;
    lemma_follow_shifts(m.players[i].pos, m.segments, sid);
    lemma_own_count_pointwise(
        m.segments,
        follow_segments(m.players[i].pos, m.segments, sid),
        sid,
    );
}

/// The head's cell after `t` movement steps along the listed directions.
pub open spec fn head_after(h0: Position, ds: Seq<Direction>, t: int) -> Position
    decreases t,
{
    if t <= 0 {
        h0
    } else {
        pos_step(head_after(h0, ds, t - 1), ds[t - 1])
    }
}

/// The body chain after `t` movement steps without eating: one shift per
/// step, fed by the head's cell before that step.
pub open spec fn chain_after(h0: Position, s0: Seq<Position>, ds: Seq<Direction>, t: int) -> Seq<
    Position,
>
    decreases t,
{
    if t <= 0 {
        s0
    } else {
        chain_shift(head_after(h0, ds, t - 1), chain_after(h0, s0, ds, t - 1))
    }
}

/// Law: over any run of movement steps without eating, the body never
/// changes length, and segment `i` retraces the head's trajectory delayed
/// by `i + 1` steps — until its turn comes it still holds the cell that
/// started `t` places ahead of its own.
pub proof fn lemma_trajectory(
    h0: Position,
    s0: Seq<Position>,
    ds: Seq<Direction>,
    i: int,
    t: int,
)
    requires
        0 <= i < s0.len(),
        0 <= t <= ds.len(),
    ensures
        chain_after(h0, s0, ds, t).len() == s0.len(),
        i < t ==> chain_after(h0, s0, ds, t)[i] == head_after(h0, ds, t - i - 1),
        t <= i ==> chain_after(h0, s0, ds, t)[i] == s0[i - t],
    decreases t,
{
    if t > 0 {
        let prev = chain_after(h0, s0, ds, t - 1);
        lemma_trajectory(h0, s0, ds, if i > 0 { i - 1 } else { i }, t - 1);
        assert(prev.len() == s0.len());
        assert(chain_after(h0, s0, ds, t) == seq![head_after(h0, ds, t - 1)] + prev.drop_last());
        if i == 0 {
            assert(chain_after(h0, s0, ds, t)[0] == head_after(h0, ds, t - 1));
        } else {
            assert(chain_after(h0, s0, ds, t)[i] == prev[i - 1]);
        }
    }
}

/// The same direction at every step.
pub open spec fn const_dirs(d: Direction, t: int) -> Seq<Direction> {
    Seq::new(t as nat, |k: int| d)
}

/// The state after `t` consecutive movement steps of player `i` with no
/// commands in between.
pub open spec fn move_steps_spec(m: SimModel, i: int, t: int) -> SimModel
    decreases t,
{
    if t <= 0 {
        m
    } else {
        move_step_spec(move_steps_spec(m, i, t - 1), i)
    }
}

/// Law: over `t` movement steps in which player `i` eats nothing, the
/// concrete transition meets the abstract trajectory model: the head walks
/// its fixed direction step by step, and the ordered chain of the player's
/// segment cells is the start chain shifted once per step — so, with
/// `lemma_trajectory`, segment `j` retraces the head's path delayed by
/// `j + 1` steps.
pub proof fn lemma_moves_follow_chain(m: SimModel, i: int, t: int)
    requires
        inv(m),
        0 <= i < m.players.len(),
        0 <= t,
        forall|u: int| 0 <= u < t ==> !eats(#[trigger] move_steps_spec(m, i, u), i),
    ensures
        inv(move_steps_spec(m, i, t)),
        move_steps_spec(m, i, t).players.len() == m.players.len(),
        move_steps_spec(m, i, t).players[i].session == m.players[i].session,
        move_steps_spec(m, i, t).players[i].head.dir == m.players[i].head.dir,
        move_steps_spec(m, i, t).players[i].pos == head_after(
            m.players[i].pos,
            const_dirs(m.players[i].head.dir, t),
            t,
        ),
        own_positions(move_steps_spec(m, i, t).segments, m.players[i].session) == chain_after(
            m.players[i].pos,
            own_positions(m.segments, m.players[i].session),
            const_dirs(m.players[i].head.dir, t),
            t,
        ),
    decreases t,
{
    let sid = m.players[i].session;
    let d = m.players[i].head.dir;
    let h0 = m.players[i].pos;
    let s0 = own_positions(m.segments, sid);
    if t > 0 {
        lemma_moves_follow_chain(m, i, t - 1);
        let prev = move_steps_spec(m, i, t - 1);
        lemma_move_step_chain(prev, i);
        lemma_move_step_wf(prev, i);
        assert(head_after(h0, const_dirs(d, t), t) == pos_step(
            head_after(h0, const_dirs(d, t), t - 1),
            d,
        ));
        lemma_head_after_dirs(h0, const_dirs(d, t), const_dirs(d, t - 1), t - 1);
        lemma_chain_after_dirs(h0, s0, const_dirs(d, t), const_dirs(d, t - 1), t - 1);
    }
}

/// The head's path only reads the direction list up to its step count.
proof fn lemma_head_after_dirs(h0: Position, ds1: Seq<Direction>, ds2: Seq<Direction>, u: int)
    requires
        u <= ds1.len(),
        u <= ds2.len(),
        forall|k: int| 0 <= k < u ==> ds1[k] == ds2[k],
    ensures
        head_after(h0, ds1, u) == head_after(h0, ds2, u),
    decreases u,
{
    if u > 0 {
        lemma_head_after_dirs(h0, ds1, ds2, u - 1);
    }
}

/// The chain model only reads the direction list up to its step count.
proof fn lemma_chain_after_dirs(
    h0: Position,
    s0: Seq<Position>,
    ds1: Seq<Direction>,
    ds2: Seq<Direction>,
    u: int,
)
    requires
        u <= ds1.len(),
        u <= ds2.len(),
        forall|k: int| 0 <= k < u ==> ds1[k] == ds2[k],
    ensures
        chain_after(h0, s0, ds1, u) == chain_after(h0, s0, ds2, u),
    decreases u,
{
    if u > 0 {
        lemma_chain_after_dirs(h0, s0, ds1, ds2, u - 1);
        lemma_head_after_dirs(h0, ds1, ds2, u - 1);
    }
}

/// Law: eating raises the score by exactly one, grows the owner's body by
/// exactly one segment, despawns the food, and shortens the movement
/// interval — strictly while it is above its floor, and never below it.
pub proof fn lemma_eating_effects(m: SimModel, i: int)
    requires
        inv(m),
        0 <= i < m.players.len(),
        eats(m, i),
        m.segments.len() < usize::MAX,
    ensures
        move_step_spec(m, i).players[i as int].score.level == m.players[i].score.level + 1,
        move_step_spec(m, i).segments.len() == m.segments.len() + 1,
        own_count(move_step_spec(m, i).segments, m.players[i].session) == own_count(
            m.segments,
            m.players[i].session,
        ) + 1,
        move_step_spec(m, i).food is None,
        MIN_MOV_MS <= move_step_spec(m, i).players[i as int].interval_ms
            <= m.players[i].interval_ms,
        m.players[i].interval_ms > MIN_MOV_MS ==> move_step_spec(m, i).players[i as int].interval_ms
            < m.players[i].interval_ms,
{
    let sid = m.players[i].session;
    let old_head = m.players[i].pos;
    let moved = follow_segments(old_head, m.segments, sid);
    assert(inv_player_ok(m, i));
    lemma_own_count_le(m.segments, sid);
    lemma_own_count_pointwise(m.segments, moved, sid);
    lemma_own_count_push(
        moved,
        new_tail_segment(sid, prev_own_pos(old_head, m.segments, sid, m.segments.len() as int)),
        sid,
    );
    let iv = m.players[i].interval_ms;
    assert(iv >= MIN_MOV_MS);
    assert(iv * 95 / 100 <= iv);
    if iv > MIN_MOV_MS {
        assert(iv * 95 < iv * 100);
        assert(iv * 95 / 100 < iv);
    }
}

/// Law: what a movement step spawns is exempt from that tick's collision
/// check, and everything of this player that existed when its step began
/// leaves grace with it — so a fresh segment, or a head that just ate its
/// first food, sits out exactly one collision check and is promoted by its
/// owner's next movement step.
pub proof fn lemma_grace_period(m: SimModel, i: int)
    requires
        inv(m),
        0 <= i < m.players.len(),
    ensures
        eats(m, i) ==> move_step_spec(m, i).segments.last().vincible is None,
        forall|k: int|
            0 <= k < m.segments.len() && (#[trigger] m.segments[k]).owner == m.players[i].session
                ==> move_step_spec(m, i).segments[k].vincible is Some,
        eats(m, i) && m.players[i].score.level == 0 ==> move_step_spec(
            m,
            i,
        ).players[i as int].vincible is None,
        !(eats(m, i) && m.players[i].score.level == 0) ==> move_step_spec(
            m,
            i,
        ).players[i as int].vincible is Some,
{
}

/// A session's count equals the length of its filtered subsequence.
proof fn lemma_own_count_is_filter_len(segs: Seq<BodySegment>, sid: usize)
    ensures
        own_count(segs, sid) == segs.filter(owned_by(sid)).len(),
    decreases segs.len(),
{
    reveal(Seq::filter);
    if segs.len() > 0 {
        lemma_own_count_is_filter_len(segs.drop_last(), sid);
    }
}

/// Two lists that agree on owners and on every segment of a session filter
/// to the same subsequence for that session.
proof fn lemma_own_filter_pointwise(s1: Seq<BodySegment>, s2: Seq<BodySegment>, sid: usize)
    requires
        s1.len() == s2.len(),
        forall|k: int| 0 <= k < s1.len() ==> (#[trigger] s1[k]).owner == (#[trigger] s2[k]).owner,
        forall|k: int| 0 <= k < s1.len() && (#[trigger] s1[k]).owner == sid ==> s1[k] == s2[k],
    ensures
        s1.filter(owned_by(sid)) == s2.filter(owned_by(sid)),
    decreases s1.len(),
{
    reveal(Seq::filter);
    if s1.len() > 0 {
        lemma_own_filter_pointwise(s1.drop_last(), s2.drop_last(), sid);
        assert(s1[s1.len() - 1].owner == s2[s2.len() - 1].owner);
        if s1.last().owner == sid {
            assert(s1[s1.len() - 1] == s2[s2.len() - 1]);
        }
    }
}

/// One player's gate step leaves every other player's row and segment
/// subsequence untouched.
proof fn lemma_step_other(m: SimModel, delta: usize, u: int, i: int)
    requires
        inv(m),
        0 <= u < m.players.len(),
        0 <= i < m.players.len(),
        u != i,
    ensures
        step_if_due_spec(m, u, delta).players.len() == m.players.len(),
        step_if_due_spec(m, u, delta).players[i] == m.players[i],
        step_if_due_spec(m, u, delta).segments.filter(owned_by(m.players[i].session))
            == m.segments.filter(owned_by(m.players[i].session)),
{
    let sid = m.players[i].session;
    let pu = m.players[u];
    assert(pu.session != sid);
    if pu.head.running && pu.elapsed_ms + delta >= pu.interval_ms {
        let e2 = ((pu.elapsed_ms + delta) % (pu.interval_ms as int)) as usize;
        let ms = set_elapsed(m, u, e2);
        assert(ms.players[u].session == pu.session && ms.players[u].pos == pu.pos);
        let moved = follow_segments(ms.players[u].pos, ms.segments, pu.session);
        assert forall|k: int| 0 <= k < m.segments.len() implies (#[trigger] moved[k]).owner
            == m.segments[k].owner && (m.segments[k].owner == sid ==> moved[k]
            == m.segments[k]) by {
            assert(moved[k] == follow_at(ms.players[u].pos, ms.segments, pu.session, k));
        }
        lemma_own_filter_pointwise(m.segments, moved, sid);
        if eats(ms, u) {
            let tail = new_tail_segment(
                pu.session,
                prev_own_pos(ms.players[u].pos, ms.segments, pu.session, ms.segments.len() as int),
            );
            moved.lemma_filter_push(tail, owned_by(sid));
        }
    }
}

/// The movement fold preserves the invariant, the roster and every session,
/// and grows the segment list by at most one segment per gate.
proof fn lemma_heads_fold_facts(m: SimModel, delta: usize, t: int)
    requires
        inv(m),
        0 <= t <= m.players.len(),
        delta <= usize::MAX - HEAD_MOV_START_MS,
        m.segments.len() + m.players.len() <= usize::MAX,
    ensures
        inv(heads_spec(m, delta, t)),
        heads_spec(m, delta, t).players.len() == m.players.len(),
        forall|k: int|
            0 <= k < m.players.len() ==> (#[trigger] heads_spec(m, delta, t).players[k]).session
                == m.players[k].session,
        heads_spec(m, delta, t).segments.len() <= m.segments.len() + t,
    decreases t,
{
    if t > 0 {
        lemma_heads_fold_facts(m, delta, t - 1);
        let mp = heads_spec(m, delta, t - 1);
        let p = mp.players[t - 1];
        assert(inv_player_ok(mp, t - 1));
        if p.head.running {
            if p.elapsed_ms + delta >= p.interval_ms {
                let e2 = ((p.elapsed_ms + delta) % (p.interval_ms as int)) as usize;
                assert(e2 < p.interval_ms);
                lemma_set_elapsed_wf(mp, t - 1, e2);
                let ms = set_elapsed(mp, t - 1, e2);
                lemma_move_step_wf(ms, t - 1);
                let fin = move_step_spec(ms, t - 1);
                assert forall|k: int| 0 <= k < m.players.len() implies (
                #[trigger] fin.players[k]).session == m.players[k].session by {
                    if k != t - 1 {
                        assert(fin.players[k] == ms.players[k]);
                    }
                }
            } else {
                lemma_set_elapsed_wf(mp, t - 1, (p.elapsed_ms + delta) as usize);
            }
        }
    }
}

/// The fold stages outside a player's own gate pass its row and its segment
/// subsequence through unchanged.
proof fn lemma_fold_passthrough(m: SimModel, delta: usize, i: int, a: int, b: int)
    requires
        inv(m),
        0 <= i < m.players.len(),
        0 <= a <= b <= m.players.len(),
        i < a || b <= i,
        delta <= usize::MAX - HEAD_MOV_START_MS,
        m.segments.len() + m.players.len() <= usize::MAX,
    ensures
        heads_spec(m, delta, b).players[i] == heads_spec(m, delta, a).players[i],
        heads_spec(m, delta, b).segments.filter(owned_by(m.players[i].session)) == heads_spec(
            m,
            delta,
            a,
        ).segments.filter(owned_by(m.players[i].session)),
    decreases b - a,
{
    if b > a {
        lemma_fold_passthrough(m, delta, i, a, b - 1);
        lemma_heads_fold_facts(m, delta, b - 1);
        let mp = heads_spec(m, delta, b - 1);
        assert(mp.players[i].session == m.players[i].session);
        lemma_step_other(mp, delta, b - 1, i);
    }
}

/// The owner's segment subsequence after its own movement step: every
/// pre-existing segment promoted out of grace, synced, and, on eating, one
/// fresh unsynced segment in grace appended at the tail's vacated cell.
proof fn lemma_move_step_own_filter(m: SimModel, i: int)
    requires
        inv(m),
        0 <= i < m.players.len(),
        eats(m, i) ==> m.segments.len() < usize::MAX,
    ensures
        ({
            let p = m.players[i];
            let sid = p.session;
            let f2 = move_step_spec(m, i).segments.filter(owned_by(sid));
            let own = own_positions(m.segments, sid);
            &&& f2.len() == own_count(m.segments, sid) + if eats(m, i) {
                1int
            } else {
                0int
            }
            &&& forall|k: int|
                0 <= k < own_count(m.segments, sid) ==> (#[trigger] f2[k]).vincible is Some
                    && f2[k].seg.synced
            &&& eats(m, i) ==> f2.last() == new_tail_segment(
                sid,
                if own.len() == 0 {
                    p.pos
                } else {
                    own.last()
                },
            )
        }),
{
    let p = m.players[i];
    let sid = p.session;
    let moved = follow_segments(p.pos, m.segments, sid);
    let fm = moved.filter(owned_by(sid));
    lemma_own_count_is_filter_len(m.segments, sid);
    lemma_own_count_is_filter_len(moved, sid);
    lemma_own_count_pointwise(m.segments, moved, sid);
    crate::sim::lemma_filter_elems(moved, owned_by(sid));
    assert forall|k: int| 0 <= k < fm.len() implies (#[trigger] fm[k]).vincible is Some
        && fm[k].seg.synced by {
        assert(moved.contains(fm[k]) && owned_by(sid)(fm[k]));
        let j = choose|j: int| 0 <= j < moved.len() && moved[j] == fm[k];
        assert(moved[j] == follow_at(p.pos, m.segments, sid, j));
    }
    if eats(m, i) {
        let tail = new_tail_segment(
            sid,
            prev_own_pos(p.pos, m.segments, sid, m.segments.len() as int),
        );
        moved.lemma_filter_push(tail, owned_by(sid));
        lemma_prev_own_pos_take(p.pos, m.segments, sid, m.segments.len() as int);
        assert(m.segments.take(m.segments.len() as int) =~= m.segments);
        assert(move_step_spec(m, i).segments.filter(owned_by(sid)) == fm.push(tail));
    }
}

/// Law (the movement phase at its entry point, per player): the per-tick
/// fold touches a player's row and chain only through that player's own
/// gate. An idle or not-yet-due snake keeps its cell, score and chain
/// untouched; a due snake that eats nothing moves one cell, keeps score,
/// speed and segment count, and its chain shifts by its old head cell; a
/// due snake that eats moves one cell, gains exactly one score point and
/// exactly one segment — unsynced, in grace, appended behind the vacated
/// tail cell — and speeds up, strictly while above the interval floor. A
/// due player's pre-existing segments all leave grace; its head leaves
/// grace too unless this was its first food.
pub proof fn lemma_update_heads_per_player(m: SimModel, delta: usize, i: int)
    requires
        inv(m),
        0 <= i < m.players.len(),
        delta <= usize::MAX - HEAD_MOV_START_MS,
        m.segments.len() + m.players.len() <= usize::MAX,
    ensures
        ({
            let p = m.players[i];
            let sid = p.session;
            let fin = heads_spec(m, delta, m.players.len() as int);
            let mi = heads_spec(m, delta, i);
            let due = p.head.running && p.elapsed_ms + delta >= p.interval_ms;
            let own = own_positions(m.segments, sid);
            let fin_own = fin.segments.filter(owned_by(sid));
            &&& mi.players[i] == p
            &&& fin.players.len() == m.players.len()
            &&& !due ==> fin.players[i].pos == p.pos && fin.players[i].score == p.score
                && fin.players[i].interval_ms == p.interval_ms && fin.players[i].vincible
                == p.vincible && fin.players[i].head == p.head && fin_own == m.segments.filter(
                owned_by(sid),
            )
            &&& due ==> fin.players[i].pos == pos_step(p.pos, p.head.dir)
            &&& due && !eats(mi, i) ==> fin.players[i].score == p.score
                && fin.players[i].interval_ms == p.interval_ms && own_count(fin.segments, sid)
                == own_count(m.segments, sid) && own_positions(fin.segments, sid) == chain_shift(
                p.pos,
                own,
            )
            &&& due && eats(mi, i) ==> fin.players[i].score.level == p.score.level + 1
                && own_count(fin.segments, sid) == own_count(m.segments, sid) + 1
                && MIN_MOV_MS <= fin.players[i].interval_ms <= p.interval_ms && (p.interval_ms
                > MIN_MOV_MS ==> fin.players[i].interval_ms < p.interval_ms) && fin_own.last()
                == new_tail_segment(
                sid,
                if own.len() == 0 {
                    p.pos
                } else {
                    own.last()
                },
            )
            &&& due ==> (fin.players[i].vincible is Some <==> !(eats(mi, i) && p.score.level
                == 0))
            &&& due ==> forall|k: int|
                0 <= k < own_count(m.segments, sid) ==> (#[trigger] fin_own[k]).vincible is Some
                    && fin_own[k].seg.synced
        }),
{
    let p = m.players[i];
    let sid = p.session;
    let n = m.players.len() as int;
    let mi = heads_spec(m, delta, i);
    lemma_fold_passthrough(m, delta, i, 0, i);
    lemma_heads_fold_facts(m, delta, i);
    assert(mi.players[i] == p);
    assert(mi.segments.filter(owned_by(sid)) == m.segments.filter(owned_by(sid)));
    lemma_own_count_is_filter_len(m.segments, sid);
    lemma_own_count_is_filter_len(mi.segments, sid);
    let m_next = heads_spec(m, delta, i + 1);
    assert(m_next == step_if_due_spec(mi, i, delta));
    lemma_fold_passthrough(m, delta, i, i + 1, n);
    lemma_heads_fold_facts(m, delta, n);
    let fin = heads_spec(m, delta, n);
    assert(fin.players[i] == m_next.players[i]);
    assert(fin.segments.filter(owned_by(sid)) == m_next.segments.filter(owned_by(sid)));
    lemma_own_count_is_filter_len(fin.segments, sid);
    assert(own_positions(fin.segments, sid) == own_positions(m_next.segments, sid));
    let due = p.head.running && p.elapsed_ms + delta >= p.interval_ms;
    if !due {
        if p.head.running {
            assert(m_next == set_elapsed(mi, i, (p.elapsed_ms + delta) as usize));
            assert(m_next.players[i] == (Player {
                elapsed_ms: (p.elapsed_ms + delta) as usize,
                ..p
            }));
        } else {
            assert(m_next == mi);
        }
    } else {
        let e2 = ((p.elapsed_ms + delta) % (p.interval_ms as int)) as usize;
        let ms = set_elapsed(mi, i, e2);
        assert(m_next == move_step_spec(ms, i));
        assert(inv_player_ok(mi, i));
        assert(e2 < p.interval_ms);
        lemma_set_elapsed_wf(mi, i, e2);
        assert(ms.players[i] == (Player { elapsed_ms: e2, ..p }));
        assert(eats(ms, i) == eats(mi, i));
        assert(ms.segments == mi.segments);
        assert(ms.segments.filter(owned_by(sid)) == m.segments.filter(owned_by(sid)));
        lemma_own_count_is_filter_len(ms.segments, sid);
        assert(own_positions(ms.segments, sid) =~= own_positions(m.segments, sid));
        assert(ms.segments.len() < usize::MAX || !eats(ms, i)) by {
            if eats(ms, i) {
                assert(ms.segments.len() <= m.segments.len() + i);
            }
        }
        lemma_move_step_own_filter(ms, i);
        lemma_own_count_is_filter_len(m_next.segments, sid);
        if !eats(mi, i) {
            lemma_move_step_chain(ms, i);
            assert(own_positions(m_next.segments, sid) == chain_shift(
                p.pos,
                own_positions(m.segments, sid),
            ));
        } else {
            lemma_eating_effects(ms, i);
            assert(own_positions(ms.segments, sid).len() == own_positions(
                m.segments,
                sid,
            ).len());
        }
    }
}

} // verus!
