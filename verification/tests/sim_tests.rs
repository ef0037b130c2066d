use snake_sim::protocol::{Command, Direction, Position, Segment, Vincible};
use snake_sim::sim::{BodySegment, SimulationState, HEAD_MOV_START_MS, MIN_MOV_MS};

fn start_two(sim: &mut SimulationState) {
    sim.on_start(1, String::from("alice"));
    sim.on_start(2, String::from("bob"));
}

#[test]
fn join_spawns_an_idle_head_at_the_start_cell() {
    let mut sim = SimulationState::new();
    sim.on_start(7, String::from("alice"));
    assert_eq!(sim.players.len(), 1);
    let p = &sim.players[0];
    assert_eq!(p.session, 7);
    assert_eq!(p.pos, Position::new(5, 5));
    assert!(!p.head.running);
    assert_eq!(p.score.level, 0);
    assert!(p.vincible.is_none());
    assert_eq!(p.interval_ms, HEAD_MOV_START_MS);
}

#[test]
fn joining_twice_keeps_the_first_head() {
    let mut sim = SimulationState::new();
    sim.on_start(7, String::from("alice"));
    sim.on_direction(7, Direction::Left);
    sim.on_start(7, String::from("impostor"));
    assert_eq!(sim.players.len(), 1);
    assert_eq!(sim.players[0].head.name, "alice");
    assert!(sim.players[0].head.running);
}

#[test]
fn first_direction_command_starts_the_snake() {
    let mut sim = SimulationState::new();
    sim.on_start(1, String::from("alice"));
    assert!(!sim.players[0].head.running);
    sim.on_direction(1, Direction::Right);
    assert!(sim.players[0].head.running);
    assert!(matches!(sim.players[0].head.dir, Direction::Right));
    // a command for an unknown session changes nothing
    sim.on_direction(99, Direction::Up);
    assert_eq!(sim.players.len(), 1);
}

#[test]
fn idle_snakes_do_not_move() {
    let mut sim = SimulationState::new();
    sim.on_start(1, String::from("alice"));
    sim.update_heads(HEAD_MOV_START_MS * 3);
    assert_eq!(sim.players[0].pos, Position::new(5, 5));
}

#[test]
fn movement_waits_for_the_per_player_interval() {
    let mut sim = SimulationState::new();
    sim.on_start(1, String::from("alice"));
    sim.on_direction(1, Direction::Right);
    sim.update_heads(HEAD_MOV_START_MS - 1);
    assert_eq!(sim.players[0].pos, Position::new(5, 5));
    sim.update_heads(1);
    assert_eq!(sim.players[0].pos, Position::new(6, 5));
}

#[test]
fn teardown_is_idempotent_in_either_order() {
    let mut a = SimulationState::new();
    start_two(&mut a);
    a.segments.push(BodySegment {
        owner: 1,
        seg: Segment::new(),
        pos: Position::new(3, 3),
        vincible: None,
    });
    a.players[0].score.level = 1;
    let mut b = SimulationState::new();
    start_two(&mut b);
    b.segments.push(BodySegment {
        owner: 1,
        seg: Segment::new(),
        pos: Position::new(3, 3),
        vincible: None,
    });
    b.players[0].score.level = 1;

    // quit then disconnect, against disconnect then quit
    a.on_quit(1);
    a.on_disconnect(1);
    b.on_disconnect(1);
    b.on_quit(1);

    assert_eq!(a.players.len(), 1);
    assert_eq!(b.players.len(), 1);
    assert_eq!(a.players[0].session, 2);
    assert_eq!(b.players[0].session, 2);
    assert_eq!(a.segments.len(), 0);
    assert_eq!(b.segments.len(), 0);
}

#[test]
fn eating_grows_scores_and_accelerates() {
    let mut sim = SimulationState::new();
    sim.on_start(1, String::from("alice"));
    sim.on_direction(1, Direction::Up);
    sim.food = Some(Position::new(5, 6));
    sim.update_heads(HEAD_MOV_START_MS);
    let p = &sim.players[0];
    assert_eq!(p.pos, Position::new(5, 6));
    assert_eq!(p.score.level, 1);
    assert_eq!(p.interval_ms, HEAD_MOV_START_MS * 95 / 100);
    assert!(sim.food.is_none());
    assert_eq!(sim.segments.len(), 1);
    let s = &sim.segments[0];
    assert_eq!(s.owner, 1);
    assert_eq!(s.pos, Position::new(5, 5));
    assert!(!s.seg.synced);
    // grace: neither the new segment nor the first-food head is vincible yet
    assert!(s.vincible.is_none());
    assert!(p.vincible.is_none());
}

#[test]
fn the_interval_never_drops_below_its_floor() {
    let mut sim = SimulationState::new();
    sim.on_start(1, String::from("alice"));
    sim.on_direction(1, Direction::Right);
    for _ in 0..200 {
        let x = sim.players[0].pos.x;
        sim.food = Some(Position::new((x + 1) % 10, 5));
        let iv = sim.players[0].interval_ms;
        sim.update_heads(iv);
        assert!(sim.players[0].interval_ms >= MIN_MOV_MS);
        assert!(sim.players[0].interval_ms <= iv);
        if iv > MIN_MOV_MS {
            assert!(sim.players[0].interval_ms < iv);
        }
    }
    assert_eq!(sim.players[0].interval_ms, MIN_MOV_MS);
}

#[test]
fn a_fresh_segment_is_promoted_by_the_next_step() {
    let mut sim = SimulationState::new();
    sim.on_start(1, String::from("alice"));
    sim.on_direction(1, Direction::Up);
    sim.food = Some(Position::new(5, 6));
    sim.update_heads(HEAD_MOV_START_MS);
    assert!(sim.segments[0].vincible.is_none());
    assert!(sim.players[0].vincible.is_none());
    // one full movement cycle later both leave grace
    let iv = sim.players[0].interval_ms;
    sim.update_heads(iv);
    assert!(sim.segments[0].vincible.is_some());
    assert!(sim.segments[0].seg.synced);
    assert!(sim.players[0].vincible.is_some());
    // the segment took over the cell the head vacated
    assert_eq!(sim.segments[0].pos, Position::new(5, 6));
    assert_eq!(sim.players[0].pos, Position::new(5, 7));
}

#[test]
fn segments_retrace_the_heads_path_delayed() {
    let mut sim = SimulationState::new();
    sim.on_start(1, String::from("alice"));
    sim.on_direction(1, Direction::Right);
    // grow two segments by eating twice
    for _ in 0..2 {
        let x = sim.players[0].pos.x;
        sim.food = Some(Position::new(x + 1, 5));
        let iv = sim.players[0].interval_ms;
        sim.update_heads(iv);
    }
    assert_eq!(sim.segments.len(), 2);
    // now move without food and watch the chain follow
    let mut head_trail = vec![sim.players[0].pos];
    for _ in 0..4 {
        let iv = sim.players[0].interval_ms;
        sim.update_heads(iv);
        head_trail.push(sim.players[0].pos);
        let now = head_trail.len() - 1;
        // segment 0 sits where the head was one step ago, segment 1 two steps ago
        assert_eq!(sim.segments[0].pos, head_trail[now - 1]);
        if now >= 2 {
            assert_eq!(sim.segments[1].pos, head_trail[now - 2]);
        }
        assert_eq!(sim.segments.len(), 2);
        assert_eq!(sim.players[0].score.level, 2);
    }
}

#[test]
fn food_spawns_only_on_free_cells() {
    let mut sim = SimulationState::new();
    sim.on_start(1, String::from("alice"));
    for _ in 0..30 {
        sim.food = None;
        sim.food_elapsed_ms = 0;
        sim.update_foods(10000);
        let f = sim.food.expect("a free cell existed, so food must spawn");
        assert!(f.x < 10 && f.y < 10);
        assert_ne!(f, sim.players[0].pos);
    }
}

#[test]
fn a_full_grid_skips_the_spawn() {
    let mut sim = SimulationState::new();
    sim.on_start(1, String::from("alice"));
    // cover every cell: the head holds (5, 5), segments hold the rest
    for x in 0..10usize {
        for y in 0..10usize {
            if (x, y) != (5, 5) {
                sim.segments.push(BodySegment {
                    owner: 1,
                    seg: Segment { synced: true },
                    pos: Position::new(x, y),
                    vincible: Some(Vincible),
                });
            }
        }
    }
    sim.players[0].score.level = 99;
    sim.update_foods(10000);
    assert!(sim.food.is_none());
    // the timer was consumed, not left pending
    assert_eq!(sim.food_elapsed_ms, 0);
}

#[test]
fn colliding_into_anothers_body_is_fatal_for_the_mover_only() {
    // session 1 will step onto session 2's vincible segment
    let mut sim = SimulationState::new();
    start_two(&mut sim);
    sim.players[0].pos = Position::new(0, 0);
    sim.players[0].head.dir = Direction::Right;
    sim.players[0].head.running = true;
    sim.players[0].vincible = Some(Vincible);
    sim.players[1].pos = Position::new(9, 9);
    sim.players[1].vincible = Some(Vincible);
    sim.segments.push(BodySegment {
        owner: 2,
        seg: Segment { synced: true },
        pos: Position::new(1, 0),
        vincible: Some(Vincible),
    });
    sim.players[1].score.level = 1;

    let commands: Vec<(usize, Command)> = Vec::new();
    let out = sim.tick(HEAD_MOV_START_MS, &commands);

    // session 1 is gone and was notified; its score is on the board
    assert_eq!(out.len(), 1);
    assert_eq!(out[0].0, 1);
    assert_eq!(sim.players.len(), 1);
    assert_eq!(sim.players[0].session, 2);
    assert_eq!(sim.segments.len(), 1);
    assert_eq!(sim.segments[0].owner, 2);
    let mut recorded = None;
    for (n, s) in sim.scores.entries.iter() {
        if n == "alice" {
            recorded = Some(*s);
        }
    }
    assert_eq!(recorded, Some(0));
    // session 2 is untouched
    assert_eq!(sim.players[0].pos, Position::new(9, 9));
    assert_eq!(sim.players[0].score.level, 1);
}

#[test]
fn heads_in_grace_pass_through_each_other() {
    // both heads collocated, but session 2 still has spawn grace
    let mut sim = SimulationState::new();
    start_two(&mut sim);
    sim.players[0].pos = Position::new(0, 0);
    sim.players[0].head.dir = Direction::Right;
    sim.players[0].head.running = true;
    sim.players[0].vincible = Some(Vincible);
    sim.players[1].pos = Position::new(1, 0);
    sim.players[1].vincible = None;

    let commands: Vec<(usize, Command)> = Vec::new();
    let out = sim.tick(HEAD_MOV_START_MS, &commands);
    assert_eq!(out.len(), 0);
    assert_eq!(sim.players.len(), 2);
}

#[test]
fn commands_drain_in_arrival_order_before_movement() {
    let mut sim = SimulationState::new();
    let commands = vec![
        (1, Command::Start(String::from("alice"))),
        (1, Command::Dir(Direction::Right)),
        (2, Command::Start(String::from("bob"))),
        (2, Command::Quit),
    ];
    let out = sim.tick(HEAD_MOV_START_MS, &commands);
    assert_eq!(out.len(), 0);
    // bob joined and quit within the drain; alice moved this very tick
    assert_eq!(sim.players.len(), 1);
    assert_eq!(sim.players[0].head.name, "alice");
    assert_eq!(sim.players[0].pos, Position::new(6, 5));
}
