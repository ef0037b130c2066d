use snake_sim::grid::{free_cells, wrap_step};
use snake_sim::protocol::{Direction, Food, Position, QuitCmd, Vincible, GRID_SIZE};

#[test]
fn wrap_step_moves_one_cell() {
    let p = Position::new(4, 4);
    assert_eq!(wrap_step(p, Direction::Right), Position::new(5, 4));
    assert_eq!(wrap_step(p, Direction::Left), Position::new(3, 4));
    assert_eq!(wrap_step(p, Direction::Up), Position::new(4, 5));
    assert_eq!(wrap_step(p, Direction::Down), Position::new(4, 3));
}

#[test]
fn wrap_step_wraps_at_edges() {
    assert_eq!(wrap_step(Position::new(0, 0), Direction::Left), Position::new(GRID_SIZE - 1, 0));
    assert_eq!(wrap_step(Position::new(0, 0), Direction::Down), Position::new(0, GRID_SIZE - 1));
    assert_eq!(
        wrap_step(Position::new(GRID_SIZE - 1, 3), Direction::Right),
        Position::new(0, 3)
    );
    assert_eq!(wrap_step(Position::new(7, GRID_SIZE - 1), Direction::Up), Position::new(7, 0));
}

#[test]
fn rnd_stays_inside_the_grid() {
    for _ in 0..50 {
        let p = Position::rnd(GRID_SIZE);
        assert!(p.x < GRID_SIZE && p.y < GRID_SIZE);
    }
    // with a single cell the draw is forced
    let p = Position::rnd(1);
    assert_eq!(p, Position::new(0, 0));
}

#[test]
fn direction_flips() {
    assert!(Direction::Up.flip_x());
    assert!(!Direction::Down.flip_x());
    assert!(!Direction::Left.flip_x());
    assert!(!Direction::Right.flip_x());
    assert!(Direction::Right.flip_y());
    assert!(!Direction::Up.flip_y());
    assert!(!Direction::Down.flip_y());
    assert!(!Direction::Left.flip_y());
}

#[test]
fn free_cells_excludes_occupied() {
    let empty: Vec<Position> = Vec::new();
    assert_eq!(free_cells(&empty).len(), GRID_SIZE * GRID_SIZE);

    let occupied = vec![Position::new(0, 0), Position::new(9, 9)];
    let free = free_cells(&occupied);
    assert_eq!(free.len(), GRID_SIZE * GRID_SIZE - 2);
    assert!(!free.contains(&Position::new(0, 0)));
    assert!(!free.contains(&Position::new(9, 9)));
    assert!(free.contains(&Position::new(5, 5)));
}

#[test]
fn marker_components_construct() {
    let _f: Food = Food::new();
    let _v: Vincible = Vincible::new();
    let _q: QuitCmd = QuitCmd::new();
}
