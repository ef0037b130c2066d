//! The replicated component types of the simulation: the grid constant, the
//! movement directions, cell positions, and the per-entity components (head,
//! body segment, score, food, the vincibility marker) together with the
//! command and ranking rows that cross the replication boundary.

use vstd::prelude::*;
use crate::rng::random_below;

verus! {

/// Side length of the square wrap-around playing field.
pub const GRID_SIZE: usize = 10;

/// A movement direction of a snake head.
#[derive(Clone, Copy, PartialEq, Eq, Structural, Debug)]
pub enum Direction {
    Down,
    Left,
    Right,
    Up,
}

impl Direction {
    /// Whether a sprite facing this direction is mirrored along the x axis.
    pub fn flip_x(self) -> (r: bool)
        ensures
            r == (self is Up),
    {
        match self {
            Direction::Up => true,
            _ => false,
        }
    }

    /// Whether a sprite facing this direction is mirrored along the y axis.
    pub fn flip_y(self) -> (r: bool)
        ensures
            r == (self is Right),
    {
        match self {
            Direction::Right => true,
            _ => false,
        }
    }
}

/// A cell of the grid; coordinates are meant to lie in `[0, GRID_SIZE)`.
#[derive(Clone, Copy, PartialEq, Eq, Structural, Debug)]
pub struct Position {
    pub x: usize,
    pub y: usize,
}

impl Position {
    pub fn new(x: usize, y: usize) -> (r: Position)
        ensures
            r.x == x,
            r.y == y,
    {
        Position { x, y }
    }

    /// A random cell of a grid with the given side length.
    pub fn rnd(grid_size: usize) -> (r: Position)
        requires
            grid_size >= 1,
        ensures
            r.x < grid_size,
            r.y < grid_size,
    {
        Position::new(random_below(grid_size), random_below(grid_size))
    }
}

/// The head of one player's snake.
pub struct Head {
    pub dir: Direction,
    pub name: String,
    pub running: bool,
}

impl Head {
    /// A new head: pointing up and idle until the first direction command.
    pub fn new(name: String) -> (r: Head)
        ensures
            r.dir is Up,
            r.name == name,
            !r.running,
    {
        Head { dir: Direction::Up, name, running: false }
    }
}

impl Clone for Head {
    fn clone(&self) -> (r: Self)
        ensures
            r == *self,
    {
        Head { dir: self.dir, name: self.name.clone(), running: self.running }
    }
}

/// One body segment; `synced` becomes true after its first follow-move.
#[derive(Clone, Copy, PartialEq, Eq, Structural, Debug)]
pub struct Segment {
    pub synced: bool,
}

impl Segment {
    pub fn new() -> (r: Segment)
        ensures
            !r.synced,
    {
        Segment { synced: false }
    }
}

/// A player's score: the number of food items eaten while alive.
#[derive(Clone, Copy, PartialEq, Eq, Structural, Debug)]
pub struct Score {
    pub level: usize,
}

impl Score {
    pub fn new() -> (r: Score)
        ensures
            r.level == 0,
    {
        Score { level: 0 }
    }
}

/// The food marker component; the cell it occupies is held by the simulation.
#[derive(Clone, Copy, PartialEq, Eq, Structural, Debug)]
pub struct Food {}

impl Food {
    pub fn new() -> (r: Food)
    {
        Food {  }
    }
}

/// Marks an entity as currently subject to collision checks; its absence is
/// the post-spawn grace.
#[derive(Clone, Copy, PartialEq, Eq, Structural, Debug)]
pub struct Vincible;

impl Vincible {
    pub fn new() -> (r: Vincible)
    {
        Vincible
    }
}

/// The terminal notice sent to an eliminated or quitting player.
#[derive(Clone, Copy, PartialEq, Eq, Structural, Debug)]
pub struct QuitCmd;

impl QuitCmd {
    pub fn new() -> (r: QuitCmd)
    {
        QuitCmd
    }
}

/// One externally visible best-score row.
pub struct HighScore {
    pub name: String,
    pub score: usize,
}

impl HighScore {
    pub fn new(name: String, score: usize) -> (r: HighScore)
        ensures
            r.name == name,
            r.score == score,
    {
        HighScore { name, score }
    }
}

/// One externally visible rank-table row: the list position and dense rank.
#[derive(Clone, Copy, PartialEq, Eq, Structural, Debug)]
pub struct HighScoreRank {
    pub position: usize,
    pub rank: usize,
}

impl HighScoreRank {
    pub fn new(position: usize, rank: usize) -> (r: HighScoreRank)
        ensures
            r.position == position,
            r.rank == rank,
    {
        HighScoreRank { position, rank }
    }
}

/// An inbound player command, drained once per tick in arrival order.
pub enum Command {
    Dir(Direction),
    Start(String),
    Quit,
}

} // verus!
