use crate::bridge::{
    bridge_cells, can_cross, cost_fits, cost_of, lemma_can_cross, paving_cost, paving_sound,
    tile_cost, PavingSound,
};
use crate::grid::{in_bounds, lemma_connected_walkable, rows, valid_grid, walkable};
use crate::movement::{Direction, offset_of};
use crate::target::{bridge_points, cell_at, is_bridge_target, on_land, on_other_island};
use crate::tile::Tile;
use crate::{MinerRobot, RobotState};
use vstd::math::abs;
use vstd::prelude::*;

verus! {

/// How often the target may move before the search for it is given up.
pub const MAX_ITERATIONS: usize = 10;

/// One straight stretch of a bridge: which way to go, and how many tiles to
/// step onto.
#[derive(Debug, Clone, Copy, PartialEq, Eq)]
pub struct Run {
    pub direction: Direction,
    pub steps: u128,
}

/// How a bridge is laid out: first along the rows, then along the columns.
/// A stretch is missing where the miner is already level with the target.
/// The stretch along the rows ends at the corner, in the row of the target;
/// the last stretch ends beside the target.
#[derive(Debug, Clone, Copy, PartialEq, Eq)]
pub struct BridgePlan {
    pub rows: Option<Run>,
    pub columns: Option<Run>,
}

/// What to do about the tile ahead while a stretch of bridge is built.
#[derive(Debug, Clone, Copy, PartialEq, Eq)]
pub enum BuildStep {
    /// The stretch is done: no tile of it is left to step onto.
    Finished,
    /// The tile ahead lies outside the map: there is nothing to pave and
    /// nowhere to go.
    Blocked,
    /// The tile ahead is walkable: step onto it, to the sound given.
    Advance { sound: PavingSound },
    /// Put `quantity` rocks on the tile ahead, to the sound given, then step
    /// onto it.
    Pave { quantity: usize, sound: PavingSound },
}

/// What to do next while a stretch of bridge is built, and how many tiles of
/// the stretch are left after that.
#[derive(Debug, Clone, Copy, PartialEq, Eq)]
pub struct BuildDecision {
    pub step: BuildStep,
    pub steps_left: u128,
}

/// Where the search for a bridge target that holds still stands.
#[derive(Debug, Clone, Copy, PartialEq, Eq)]
pub enum Convergence {
    /// A target is proposed. Its cost has yet to be held against the rocks
    /// collected.
    Searching { target: (i32, i32), start: (i32, i32), iterations: usize },
    /// The rocks are enough. The miner is to go to `start`, if it is not
    /// there yet, and the target is to be worked out again from there.
    Relocating { target: (i32, i32), start: (i32, i32), cost: usize, iterations: usize },
    /// The target held still. `cost` rocks are spent, and the bridge is to be
    /// built as `plan` says.
    Committed { target: (i32, i32), cost: usize, plan: BridgePlan },
    /// The target moved once too often: the episode is to end.
    Aborted,
    /// The rocks collected do not pay for the bridge: nothing is to be done.
    Idle,
}

/// What a step of the search goes by: the rocks the miner holds, where it
/// stands, the cost of the bridge proposed on the map as it is now, and the
/// end points worked out again as `(target, start)`.
pub struct Sighting {
    pub rocks: usize,
    pub coordinates: (usize, usize),
    pub cost: nat,
    pub recomputed: ((i32, i32), (i32, i32)),
}

impl Convergence {
    /// The count of iterations is within the limit.
    pub open spec fn well_formed(self) -> bool {
        match self {
            Convergence::Searching { iterations, .. } => iterations <= MAX_ITERATIONS,
            Convergence::Relocating { iterations, .. } => iterations < MAX_ITERATIONS,
            _ => true,
        }
    }

    /// The search is over.
    pub open spec fn is_final(self) -> bool {
        self is Committed || self is Aborted || self is Idle
    }

    /// How often the target has moved so far.
    pub open spec fn iterations_done(self) -> nat {
        match self {
            Convergence::Searching { iterations, .. } => iterations as nat,
            Convergence::Relocating { iterations, .. } => iterations as nat,
            _ => 0,
        }
    }

    /// The most steps that the search can still take.
    pub open spec fn steps_left(self) -> nat {
        match self {
            Convergence::Searching { iterations, .. } => (2 * (MAX_ITERATIONS - iterations)
                + 1) as nat,
            Convergence::Relocating { iterations, .. } => (2 * (MAX_ITERATIONS
                - iterations)) as nat,
            _ => 0,
        }
    }

    /// The search as it starts: the end points just worked out, as
    /// `(target, start)`, and no iteration made.
    pub fn new(points: ((i32, i32), (i32, i32))) -> (state: Self)
        ensures
            state == (Convergence::Searching { target: points.0, start: points.1, iterations: 0 }),
            state.well_formed(),
    {
        Convergence::Searching { target: points.0, start: points.1, iterations: 0 }
    }
}

/// The stretch from `from` to `to` on one axis, if they differ: `forward`
/// where `to` is the larger. It ends at `to`, or one tile short of it where
/// it is to stop beside its end.
pub open spec fn run_toward(
    from: int,
    to: int,
    forward: Direction,
    backward: Direction,
    stops_beside: bool,
) -> Option<Run> {
    let short: int = if stops_beside {
        1
    } else {
        0
    };
    if from < to {
        Some(Run { direction: forward, steps: (to - from - short) as u128 })
    } else if from > to {
        Some(Run { direction: backward, steps: (from - to - short) as u128 })
    } else {
        None
    }
}

/// The layout of a bridge from `coordinates` to the cell `(row, col)`. The
/// stretch along the rows goes all the way to the row of the target where a
/// stretch along the columns follows it, and stops beside the target where
/// none does. The stretch along the columns stops beside the target.
pub open spec fn bridge_plan(coordinates: (usize, usize), row: i32, col: i32) -> BridgePlan {
    BridgePlan {
        rows: run_toward(
            coordinates.0 as int,
            row as int,
            Direction::Down,
            Direction::Up,
            coordinates.1 == col,
        ),
        columns: run_toward(
            coordinates.1 as int,
            col as int,
            Direction::Right,
            Direction::Left,
            true,
        ),
    }
}

/// The place `k` tiles from `from` in a direction.
pub open spec fn moved(from: (int, int), direction: Direction, k: int) -> (int, int) {
    match direction {
        Direction::Up => (from.0 - k, from.1),
        Direction::Down => (from.0 + k, from.1),
        Direction::Left => (from.0, from.1 - k),
        Direction::Right => (from.0, from.1 + k),
    }
}

/// The tiles that a stretch steps onto when it starts at `from`, in their
/// order.
pub open spec fn stretch_cells(from: (int, int), run: Option<Run>) -> Seq<(int, int)> {
    match run {
        Some(run) => Seq::new(run.steps as nat, |i: int| moved(from, run.direction, i + 1)),
        None => Seq::empty(),
    }
}

/// Where a stretch that starts at `from` ends.
pub open spec fn stretch_end(from: (int, int), run: Option<Run>) -> (int, int) {
    match run {
        Some(run) => moved(from, run.direction, run.steps as int),
        None => from,
    }
}

/// The tiles that a bridge laid out as `plan` steps onto when it starts at
/// `from`, in their order.
pub open spec fn plan_cells(from: (int, int), plan: BridgePlan) -> Seq<(int, int)> {
    stretch_cells(from, plan.rows) + stretch_cells(stretch_end(from, plan.rows), plan.columns)
}

/// Where a bridge laid out as `plan` ends when it starts at `from`.
pub open spec fn plan_end(from: (int, int), plan: BridgePlan) -> (int, int) {
    stretch_end(stretch_end(from, plan.rows), plan.columns)
}

/// A bridge is built end to end: the tiles that its plan steps onto are the
/// cells that the bridge is made of, corner included, in the order of the
/// crossing. So the plan paves what the cost of the bridge charges for.
pub proof fn lemma_plan_follows_crossing(
    g: Seq<Seq<Tile>>,
    coordinates: (usize, usize),
    target: (i32, i32),
)
    requires
        coordinates.0 <= i32::MAX,
        coordinates.1 <= i32::MAX,
    ensures
        plan_cells(
            (coordinates.0 as int, coordinates.1 as int),
            bridge_plan(coordinates, target.0, target.1),
        ) == bridge_cells(cell_at(coordinates.0 as int, coordinates.1 as int), target),
        cost_of(
            g,
            plan_cells(
                (coordinates.0 as int, coordinates.1 as int),
                bridge_plan(coordinates, target.0, target.1),
            ),
        ) == paving_cost(g, cell_at(coordinates.0 as int, coordinates.1 as int), target),
{
    let from = (coordinates.0 as int, coordinates.1 as int);
    let plan = bridge_plan(coordinates, target.0, target.1);
    let start = cell_at(coordinates.0 as int, coordinates.1 as int);
    assert(plan_cells(from, plan) =~= bridge_cells(start, target));
}

/// A miner that stands on the start of the bridge pays for what it builds:
/// the tiles that its plan steps onto cost what the bridge from the start
/// to the target costs.
pub proof fn lemma_plan_costs_what_is_paid(
    g: Seq<Seq<Tile>>,
    coordinates: (usize, usize),
    start: (i32, i32),
    target: (i32, i32),
)
    requires
        coordinates.0 == start.0,
        coordinates.1 == start.1,
    ensures
        cost_of(
            g,
            plan_cells(
                (coordinates.0 as int, coordinates.1 as int),
                bridge_plan(coordinates, target.0, target.1),
            ),
        ) == paving_cost(g, start, target),
{
    lemma_plan_follows_crossing(g, coordinates, target);
}

/// A bridge ends beside its target: where the miner does not stand on the
/// target already, the last tile that the plan steps onto, or the miner's
/// own where it steps onto none, shares a side with the target.
pub proof fn lemma_plan_ends_beside_target(coordinates: (usize, usize), target: (i32, i32))
    requires
        coordinates.0 != target.0 || coordinates.1 != target.1,
    ensures
        ({
            let end = plan_end(
                (coordinates.0 as int, coordinates.1 as int),
                bridge_plan(coordinates, target.0, target.1),
            );
            abs(end.0 - target.0) + abs(end.1 - target.1) == 1
        }),
{
}

/// What to do about the tile ahead, for a miner at `coordinates` that builds
/// in `direction` and has `steps_left` tiles of the stretch left to step
/// onto.
pub open spec fn build_step(
    g: Seq<Seq<Tile>>,
    coordinates: (usize, usize),
    steps_left: u128,
    direction: Direction,
) -> BuildStep {
    let row = coordinates.0 + offset_of(direction).0;
    let col = coordinates.1 + offset_of(direction).1;
    if steps_left == 0 {
        BuildStep::Finished
    } else if !in_bounds(g, row, col) {
        BuildStep::Blocked
    } else if walkable(g[row][col].tile_type) {
        BuildStep::Advance { sound: paving_sound(g[row][col].tile_type) }
    } else {
        BuildStep::Pave {
            quantity: tile_cost(g[row][col].tile_type) as usize,
            sound: paving_sound(g[row][col].tile_type),
        }
    }
}

/// What to do about the tile ahead, and how many tiles of the stretch are
/// left after that: one less, whether or not the step can be made.
pub open spec fn build_decision(
    g: Seq<Seq<Tile>>,
    coordinates: (usize, usize),
    steps_left: u128,
    direction: Direction,
) -> BuildDecision {
    BuildDecision {
        step: build_step(g, coordinates, steps_left, direction),
        steps_left: if steps_left == 0 {
            0
        } else {
            (steps_left - 1) as u128
        },
    }
}

/// Where the miner is to go before the target is worked out again: to the
/// start of the bridge proposed, unless it stands there already. Nowhere
/// while no relocation is under way.
pub open spec fn relocation_of(coordinates: (usize, usize), state: Convergence) -> Option<
    (i32, i32),
> {
    match state {
        Convergence::Relocating { start, .. } => if coordinates.0 == start.0 && coordinates.1
            == start.1 {
            None
        } else {
            Some(start)
        },
        _ => None,
    }
}

/// What follows a proposal, for a miner with `rocks` rocks, when the bridge
/// proposed costs `cost`.
pub open spec fn after_search(
    target: (i32, i32),
    start: (i32, i32),
    iterations: usize,
    rocks: usize,
    cost: nat,
) -> Convergence {
    if iterations >= MAX_ITERATIONS {
        Convergence::Aborted
    } else if rocks < cost {
        Convergence::Idle
    } else {
        Convergence::Relocating { target, start, cost: cost as usize, iterations }
    }
}

/// What follows a relocation, when the end points worked out again are
/// `recomputed` and the miner stands at `coordinates`.
pub open spec fn after_relocation(
    target: (i32, i32),
    cost: usize,
    iterations: usize,
    recomputed: ((i32, i32), (i32, i32)),
    coordinates: (usize, usize),
) -> Convergence {
    if recomputed.0 == target {
        Convergence::Committed { target, cost, plan: bridge_plan(coordinates, target.0, target.1) }
    } else {
        Convergence::Searching {
            target: recomputed.0,
            start: recomputed.1,
            iterations: (iterations + 1) as usize,
        }
    }
}

/// One step of the search.
pub open spec fn step(state: Convergence, seen: Sighting) -> Convergence {
    match state {
        Convergence::Searching { target, start, iterations } => after_search(
            target,
            start,
            iterations,
            seen.rocks,
            seen.cost,
        ),
        Convergence::Relocating { target, start, cost, iterations } => after_relocation(
            target,
            cost,
            iterations,
            seen.recomputed,
            seen.coordinates,
        ),
        _ => state,
    }
}

/// The search after one step for each of the sightings, in their order.
pub open spec fn steps(state: Convergence, seen: Seq<Sighting>) -> Convergence
    decreases seen.len(),
{
    if seen.len() == 0 {
        state
    } else {
        step(steps(state, seen.drop_last()), seen.last())
    }
}

/// What a step of the search goes by, for a miner on a grid: the miner's
/// rocks and place, the cost of the bridge proposed, and the end points of
/// the bridge as they are worked out on this grid from where the miner
/// stands.
pub open spec fn sighting(g: Seq<Seq<Tile>>, robot: MinerRobot, state: Convergence) -> Sighting {
    Sighting {
        rocks: robot.rocks_collected,
        coordinates: robot.coordinates,
        cost: match state {
            Convergence::Searching { target, start, .. } => paving_cost(g, start, target),
            _ => 0,
        },
        recomputed: bridge_points(g, robot.coordinates.0 as int, robot.coordinates.1 as int),
    }
}

/// The bridge is built only toward a target that held still: where the
/// target worked out after the relocation differs from the one proposed
/// before it, the step does not commit, and the search goes on with the new
/// target. A step from a proposal never commits.
pub proof fn lemma_no_commit_on_moved_target(state: Convergence, seen: Sighting)
    ensures
        state is Searching ==> !(step(state, seen) is Committed),
        state matches Convergence::Relocating { target, .. } ==> (step(state, seen) is Committed
            <==> seen.recomputed.0 == target),
        state matches Convergence::Relocating { target, .. } && seen.recomputed.0 != target
            ==> step(state, seen) is Searching,
{
}

/// Each step of a search that is not over brings its end nearer, and never
/// takes the count of iterations over the limit. A search that is over stays
/// as it is.
pub proof fn lemma_step_makes_progress(state: Convergence, seen: Sighting)
    requires
        state.well_formed(),
    ensures
        step(state, seen).well_formed(),
        step(state, seen).iterations_done() <= MAX_ITERATIONS,
        !state.is_final() ==> step(state, seen).steps_left() < state.steps_left(),
        state.is_final() ==> step(state, seen) == state,
{
}

/// Whatever is sighted at each step, the search is over, or has used up one
/// of the steps it had left for each step taken.
pub proof fn lemma_steps_use_up_the_count(state: Convergence, seen: Seq<Sighting>)
    requires
        state.well_formed(),
    ensures
        steps(state, seen).well_formed(),
        steps(state, seen).is_final() || steps(state, seen).steps_left() + seen.len()
            <= state.steps_left(),
    decreases seen.len(),
{
    if seen.len() > 0 {
        lemma_steps_use_up_the_count(state, seen.drop_last());
        lemma_step_makes_progress(steps(state, seen.drop_last()), seen.last());
    }
}

/// The search ends: from its start, whatever is sighted, it is over after at
/// most `MAX_ITERATIONS` iterations, that is after two steps for each and
/// one more.
pub proof fn lemma_search_ends(points: ((i32, i32), (i32, i32)), seen: Seq<Sighting>)
    requires
        seen.len() >= 2 * MAX_ITERATIONS + 1,
    ensures
        steps(
            Convergence::Searching { target: points.0, start: points.1, iterations: 0 },
            seen,
        ).is_final(),
{
    let start = Convergence::Searching { target: points.0, start: points.1, iterations: 0 };
    lemma_steps_use_up_the_count(start, seen);
}

/// The end points of a bridge can be crossed: both lie in the grid, or both
/// are the origin.
pub proof fn lemma_bridge_target_can_be_crossed(
    g: Seq<Seq<Tile>>,
    row: int,
    col: int,
    target: (i32, i32),
    start: (i32, i32),
)
    requires
        valid_grid(g),
        is_bridge_target(g, row, col, target, start),
    ensures
        can_cross(g, start, target),
{
    if !on_land(g, row, col) {
    } else {
        lemma_connected_walkable(g, cell_at(row, col), start);
        if forall|cell: (i32, i32)| !#[trigger] on_other_island(g, row, col, cell) {
            assert(in_bounds(g, 0, 0));
        }
        lemma_can_cross(g, start, target);
    }
}

impl MinerRobot {
    /// How to lay out a bridge from where the miner stands to the cell
    /// `(row, col)`: down or up along the rows as far as the row of the
    /// target, then right or left along the columns, to end beside the
    /// target.
    pub fn build_along_row_and_col(&self, row: i32, col: i32) -> (plan: BridgePlan)
        ensures
            plan == bridge_plan(self.coordinates, row, col),
            self.coordinates.0 <= i32::MAX && self.coordinates.1 <= i32::MAX ==> plan_cells(
                (self.coordinates.0 as int, self.coordinates.1 as int),
                plan,
            ) == bridge_cells(
                cell_at(self.coordinates.0 as int, self.coordinates.1 as int),
                (row, col),
            ),
    {
        proof {
            if self.coordinates.0 <= i32::MAX && self.coordinates.1 <= i32::MAX {
                lemma_plan_follows_crossing(Seq::empty(), self.coordinates, (row, col));
            }
        }
        let (robot_row, robot_col) = self.get_coordinates();
        let row_distance: i128 = robot_row as i128 - row as i128;
        let col_distance: i128 = robot_col as i128 - col as i128;
        let short: i128 = if col_distance == 0 {
            1
        } else {
            0
        };
        let rows = if row_distance < 0 {
            Some(Run { direction: Direction::Down, steps: (-row_distance - short) as u128 })
        } else if row_distance > 0 {
            Some(Run { direction: Direction::Up, steps: (row_distance - short) as u128 })
        } else {
            None
        };
        let columns = if col_distance < 0 {
            Some(Run { direction: Direction::Right, steps: (-col_distance - 1) as u128 })
        } else if col_distance > 0 {
            Some(Run { direction: Direction::Left, steps: (col_distance - 1) as u128 })
        } else {
            None
        };
        BridgePlan { rows, columns }
    }

    /// Turns the miner to bridge building and lays out the bridge to
    /// `target`.
    pub fn start_building_bridge(&mut self, target: (i32, i32)) -> (plan: BridgePlan)
        ensures
            plan == bridge_plan(old(self).coordinates, target.0, target.1),
            *final(self) == (MinerRobot { state: RobotState::PavingBridge, ..*old(self) }),
    {
        self.state = RobotState::PavingBridge;
        self.build_along_row_and_col(target.0, target.1)
    }

    /// Where the miner is to go before the target is worked out again, if
    /// anywhere.
    pub fn relocation(&self, state: &Convergence) -> (start: Option<(i32, i32)>)
        ensures
            start == relocation_of(self.coordinates, *state),
    {
        match state {
            Convergence::Relocating { start, .. } => if self.stands_on(*start) {
                None
            } else {
                Some(*start)
            },
            _ => None,
        }
    }

    /// What to do about the tile ahead while a stretch of bridge is built in
    /// `direction`, with `steps_left` tiles left to step onto: a tile that is
    /// not walkable is paved at its cost before the miner steps onto it.
    /// With it comes the count of tiles left after this one.
    pub fn build_to_direction(
        &self,
        map: &Vec<Vec<Tile>>,
        steps_left: u128,
        direction: &Direction,
    ) -> (decision: BuildDecision)
        requires
            valid_grid(rows(map@)),
        ensures
            decision == build_decision(rows(map@), self.coordinates, steps_left, *direction),
    {
        if steps_left == 0 {
            return BuildDecision { step: BuildStep::Finished, steps_left: 0 };
        }
        let (row, col) = self.get_coordinates();
        let n_rows = map.len();
        let n_cols = map[0].len();
        let ahead: Option<(usize, usize)> = match direction {
            Direction::Up => if 0 < row && row <= n_rows && col < n_cols {
                Some((row - 1, col))
            } else {
                None
            },
            Direction::Down => if row < n_rows - 1 && col < n_cols {
                Some((row + 1, col))
            } else {
                None
            },
            Direction::Left => if row < n_rows && 0 < col && col <= n_cols {
                Some((row, col - 1))
            } else {
                None
            },
            Direction::Right => if row < n_rows && n_cols > 0 && col < n_cols - 1 {
                Some((row, col + 1))
            } else {
                None
            },
        };
        let step = match ahead {
            None => BuildStep::Blocked,
            Some((r, c)) => {
                assert(rows(map@)[r as int].len() == rows(map@)[0].len());
                let tile_type = &map[r][c].tile_type;
                let sound = self.play_sound_paving(tile_type);
                if self.is_walkable(tile_type) {
                    BuildStep::Advance { sound }
                } else {
                    BuildStep::Pave { quantity: self.get_tile_cost(tile_type), sound }
                }
            },
        };
        BuildDecision { step, steps_left: steps_left - 1 }
    }

    /// One step of the search for a bridge target that holds still.
    ///
    /// From `Searching`: the search is given up, and the end of the episode
    /// asked for, once the target has moved `MAX_ITERATIONS` times; it rests
    /// where the rocks collected do not pay for the bridge; otherwise the
    /// miner is sent to the start of the bridge. From `Relocating`, with the
    /// miner moved and the map read again: the end points are worked out
    /// anew; where the target is the one proposed, the rocks are spent and
    /// the bridge is laid out, and where it is not, the search goes on with
    /// the new proposal. A search that is over stays as it is.
    pub fn pave_bridge(&mut self, map: &Vec<Vec<Tile>>, state: Convergence) -> (next: Convergence)
        requires
            valid_grid(rows(map@)),
            cost_fits(rows(map@)),
            state.well_formed(),
            state matches Convergence::Searching { target, start, .. } ==> can_cross(
                rows(map@),
                start,
                target,
            ),
            state matches Convergence::Relocating { cost, .. } ==> old(self).rocks_collected >= cost,
        ensures
            next.well_formed(),
            next == step(state, sighting(rows(map@), *old(self), state)),
            next matches Convergence::Searching { target, start, .. } ==> can_cross(
                rows(map@),
                start,
                target,
            ),
            *final(self) == match (state, next) {
                (Convergence::Searching { .. }, Convergence::Aborted) => MinerRobot {
                    game_over: true,
                    ..*old(self)
                },
                (Convergence::Relocating { cost, .. }, Convergence::Committed { .. }) => MinerRobot {
                    state: RobotState::PavingBridge,
                    rocks_collected: (old(self).rocks_collected - cost) as usize,
                    ..*old(self)
                },
                _ => *old(self),
            },
    {
        match state {
            Convergence::Searching { target, start, iterations } => {
                if iterations >= MAX_ITERATIONS {
                    self.game_is_over();
                    return Convergence::Aborted;
                }
                let rocks_to_build_bridge = self.get_paving_cost(map, start, target);
                if self.rocks_collected < rocks_to_build_bridge {
                    return Convergence::Idle;
                }
                Convergence::Relocating { target, start, cost: rocks_to_build_bridge, iterations }
            },
            Convergence::Relocating { target, start, cost, iterations } => {
                let recomputed = self.calculate_bridge_points(map);
                proof {
                    lemma_bridge_target_can_be_crossed(
                        rows(map@),
                        self.coordinates.0 as int,
                        self.coordinates.1 as int,
                        recomputed.0,
                        recomputed.1,
                    );
                }
                if recomputed.0.0 == target.0 && recomputed.0.1 == target.1 {
                    let plan = self.start_building_bridge(target);
                    self.rocks_collected -= cost;
                    Convergence::Committed { target, cost, plan }
                } else {
                    Convergence::Searching {
                        target: recomputed.0,
                        start: recomputed.1,
                        iterations: iterations + 1,
                    }
                }
            },
            _ => state,
        }
    }
}

} // verus!
