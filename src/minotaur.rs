//! The monster that hunts in a maze, as the maze places it.

use vstd::prelude::*;
use crate::geometry::{Direction, Position, ViewMode};

verus! {

/// A monster: where it stands, where it looks, and its level-derived attributes.
/// Aggression is kept in tenths (`10` is the most aggressive).
pub struct Minotaur {
    pub name: String,
    pub maze_id: usize,
    pub position: Position,
    pub direction: Direction,
    pub view: ViewMode,
    pub speed: u64,
    pub vision: usize,
    pub aggression_tenths: u64,
}

impl Minotaur {
    /// A monster facing north that perceives all around it up to `vision` cells.
    pub fn new(
        name: String,
        maze_id: usize,
        position: Position,
        speed: u64,
        vision: usize,
        aggression_tenths: u64,
    ) -> (m: Minotaur)
        ensures
            m.name@ == name@,
            m.maze_id == maze_id,
            m.position == position,
            m.direction == Direction::North,
            m.view == (ViewMode::Circle { radius: vision }),
            m.speed == speed,
            m.vision == vision,
            m.aggression_tenths == aggression_tenths,
    {
        Minotaur {
            name,
            maze_id,
            position,
            direction: Direction::North,
            view: ViewMode::Circle { radius: vision },
            speed,
            vision,
            aggression_tenths,
        }
    }

    pub fn position(&self) -> (r: Position)
        ensures
            r == self.position,
    {
        self.position
    }

    pub fn direction(&self) -> (r: Direction)
        ensures
            r == self.direction,
    {
        self.direction
    }

    pub fn view(&self) -> (r: ViewMode)
        ensures
            r == self.view,
    {
        self.view
    }
}

} // verus!
