use crate::grid::{in_bounds, rows, valid_grid, walkable};
use crate::pathfinding::{Action, direction_of};
use crate::tile::{Tile, TileType};
use crate::MinerRobot;
use vstd::prelude::*;

verus! {

/// One of the four ways the miner can step.
#[derive(Debug, Clone, Copy, PartialEq, Eq, Structural)]
pub enum Direction {
    Up,
    Down,
    Left,
    Right,
}

/// By how much a step in `direction` changes `(row, col)`.
pub open spec fn offset_of(direction: Direction) -> (int, int) {
    match direction {
        Direction::Up => (-1, 0),
        Direction::Left => (0, -1),
        Direction::Down => (1, 0),
        Direction::Right => (0, 1),
    }
}

/// The step that a move of a route makes, for a miner at `coordinates`: the
/// direction of the move where the tile that way is a walkable tile of the
/// grid, and none otherwise.
pub open spec fn step_toward(g: Seq<Seq<Tile>>, coordinates: (usize, usize), action: Action) -> Option<
    Direction,
> {
    let direction = direction_of(action);
    let row = coordinates.0 + offset_of(direction).0;
    let col = coordinates.1 + offset_of(direction).1;
    if in_bounds(g, row, col) && walkable(g[row][col].tile_type) {
        Some(direction)
    } else {
        None
    }
}

impl MinerRobot {
    /// The step to make for one move of the route to the coordinates sought:
    /// the miner goes where the move says if the tile that way is a walkable
    /// tile of the map, and stays where it is otherwise.
    pub fn move_to_coords(&self, map: &Vec<Vec<Tile>>, action: &Action) -> (step: Option<Direction>)
        requires
            valid_grid(rows(map@)),
        ensures
            step == step_toward(rows(map@), self.coordinates, *action),
    {
        let (robot_row, robot_col) = self.get_coordinates();
        let direction = self.action_to_direction(action);
        let (row_offset, col_offset) = self.direction_to_offset(&direction);
        let target_row: i128 = robot_row as i128 + row_offset as i128;
        let target_col: i128 = robot_col as i128 + col_offset as i128;
        if 0 <= target_row && target_row < map.len() as i128 && 0 <= target_col && target_col
            < map[0].len() as i128 {
            assert(rows(map@)[target_row as int].len() == rows(map@)[0].len());
            if self.is_walkable(&map[target_row as usize][target_col as usize].tile_type) {
                return Some(direction);
            }
        }
        None
    }

    /// Whether the miner stands on the cell.
    pub fn stands_on(&self, cell: (i32, i32)) -> (res: bool)
        ensures
            res == (self.coordinates.0 == cell.0 && self.coordinates.1 == cell.1),
    {
        let (robot_row, robot_col) = self.get_coordinates();
        cell.0 >= 0 && cell.1 >= 0 && robot_row == cell.0 as usize && robot_col == cell.1 as usize
    }

    /// Whether the miner can stand on terrain of this kind: everything but
    /// deep water, lava and shallow water.
    pub fn is_walkable(&self, tile_type: &TileType) -> (res: bool)
        ensures
            res == walkable(*tile_type),
    {
        match tile_type {
            TileType::DeepWater => false,
            TileType::Lava => false,
            TileType::ShallowWater => false,
            _ => true,
        }
    }

    /// The change of `(row, col)` that one step in `direction` makes.
    pub fn direction_to_offset(&self, direction: &Direction) -> (offset: (i32, i32))
        ensures
            (offset.0 as int, offset.1 as int) == offset_of(*direction),
    {
        match direction {
            Direction::Up => (-1, 0),
            Direction::Left => (0, -1),
            Direction::Down => (1, 0),
            Direction::Right => (0, 1),
        }
    }

    /// Whether `(row, col)` names a cell of the map.
    pub fn is_in_bounds(&self, map: &Vec<Vec<Tile>>, row: i32, col: i32) -> (res: bool)
        requires
            map@.len() > 0,
        ensures
            res == in_bounds(rows(map@), row as int, col as int),
    {
        row >= 0 && col >= 0 && (row as usize) < map.len() && (col as usize) < map[0].len()
    }
}

} // verus!
