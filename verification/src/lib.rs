use vstd::prelude::*;

pub mod tile;
pub mod grid;
pub mod movement;
pub mod island;
pub mod partition;
pub mod distance;
pub mod bridge;
pub mod target;
pub mod convergence;
pub mod pathfinding;
pub mod world;
pub mod goal;
pub mod discovery;
pub mod render;
pub mod debug;

verus! {

/// Quantity of rocks that a harvesting goal asks for.
pub const GOAL_QUANTITY: u32 = 5;

/// Energy that one discovery may spend.
pub const ENERGY_BUDGET: usize = 300;

/// Radius of the first discovery around the miner.
pub const SCAN_DISTANCE: usize = 10;

/// By how much the discovery radius grows after a stalled harvest.
pub const SCAN_INCREASE: usize = 10;

/// How often the discovery radius may grow before the miner gives up: one
/// stall more ends the episode.
pub const MAX_WIDENINGS: usize = 4;

/// Energy level under which the miner asks for a recharge.
pub const MIN_ENERGY: usize = 100;

/// What the miner is busy with during a tick.
#[derive(Debug, Clone, Copy, PartialEq, Eq, Structural)]
pub enum RobotState {
    CollectingRocks,
    PavingBridge,
}

/// What can go wrong with an action of the miner in the world.
#[derive(Debug, Clone, Copy, PartialEq, Eq, Structural)]
pub enum LibError {
    NotEnoughEnergy,
    OutOfBounds,
    NoContent,
    NotEnoughSpace(usize),
    CannotDestroy,
    NotCraftable,
    NoMoreDiscovery,
    Other,
}

/// What can go wrong while a road is paved.
#[derive(Debug, Clone, Copy, PartialEq, Eq, Structural)]
pub enum RpmError {
    NotEnoughEnergy,
    CannotPlaceHere,
    OutOfBounds,
    NotEnoughMaterial,
    NoRockHere,
    MustDestroyContentFirst,
    UndefinedError,
}

/// How the miner gets over a failed action.
#[derive(Debug, Clone, Copy, PartialEq, Eq, Structural)]
pub enum Recovery {
    /// Recharge, then go on.
    Recharge,
    /// Note the failure and go on.
    Report,
}

/// How the miner gets over a failure of this kind: a lack of energy calls
/// for a recharge, anything else is only reported.
pub open spec fn recovery_from(error: LibError) -> Recovery {
    if error is NotEnoughEnergy {
        Recovery::Recharge
    } else {
        Recovery::Report
    }
}

/// The miner: what it remembers from one tick to the next.
///
/// `coordinates` is the cell the miner stands on, as `(row, col)`; whoever
/// drives the miner refreshes it after every movement. `game_over` is the
/// request to end the episode; it is raised here and read by the run loop.
/// `widenings` counts how often a stalled harvest has made the discovery
/// radius grow.
pub struct MinerRobot {
    pub name: String,
    pub rocks_collected: usize,
    pub scan_distance: usize,
    pub widenings: usize,
    pub world_scanned: bool,
    pub state: RobotState,
    pub game_over: bool,
    pub coordinates: (usize, usize),
}

impl MinerRobot {
    /// A miner with the default name, standing at the origin, with no rocks.
    pub fn new() -> (robot: Self)
        ensures
            robot.name@ == "The default miner"@,
            robot.rocks_collected == 0,
            robot.scan_distance == SCAN_DISTANCE,
            robot.widenings == 0,
            !robot.world_scanned,
            robot.state == RobotState::CollectingRocks,
            !robot.game_over,
            robot.coordinates == (0usize, 0usize),
    {
        Self {
            name: "The default miner".to_owned(),
            rocks_collected: 0,
            scan_distance: SCAN_DISTANCE,
            widenings: 0,
            world_scanned: false,
            state: RobotState::CollectingRocks,
            game_over: false,
            coordinates: (0, 0),
        }
    }

    /// A miner called `name`, otherwise as `new` makes it.
    pub fn new_name(name: String) -> (robot: Self)
        ensures
            robot.name == name,
            robot.rocks_collected == 0,
            robot.scan_distance == SCAN_DISTANCE,
            robot.widenings == 0,
            !robot.world_scanned,
            robot.state == RobotState::CollectingRocks,
            !robot.game_over,
            robot.coordinates == (0usize, 0usize),
    {
        Self {
            name,
            rocks_collected: 0,
            scan_distance: SCAN_DISTANCE,
            widenings: 0,
            world_scanned: false,
            state: RobotState::CollectingRocks,
            game_over: false,
            coordinates: (0, 0),
        }
    }

    /// The cell the miner stands on, as `(row, col)`.
    pub fn get_coordinates(&self) -> (coordinates: (usize, usize))
        ensures
            coordinates == self.coordinates,
    {
        self.coordinates
    }

    /// Whether the miner is to recharge: its energy has fallen under
    /// `MIN_ENERGY`.
    pub fn manage_energy(&self, energy_level: usize) -> (recharge: bool)
        ensures
            recharge == (energy_level < MIN_ENERGY),
    {
        energy_level < MIN_ENERGY
    }

    /// Takes the count of rocks from the backpack, where the backpack has
    /// one.
    pub fn update_rock_count(&mut self, rocks_in_backpack: Option<usize>)
        ensures
            *final(self) == (MinerRobot {
                rocks_collected: match rocks_in_backpack {
                    Some(rocks_amount) => rocks_amount,
                    None => old(self).rocks_collected,
                },
                ..*old(self)
            }),
    {
        if let Some(rocks_amount) = rocks_in_backpack {
            self.rocks_collected = rocks_amount;
        }
    }

    /// How to get over a failed action: a lack of energy calls for a
    /// recharge, anything else is only reported.
    pub fn catch_lib_error(&self, error: LibError) -> (recovery: Recovery)
        ensures
            recovery == recovery_from(error),
    {
        match error {
            LibError::NotEnoughEnergy => Recovery::Recharge,
            _ => Recovery::Report,
        }
    }

    /// What to do about the outcome of a step, of a harvest or of a rock put
    /// down: nothing where it went well; where it failed, the failure is got
    /// over as `catch_lib_error` says, and the miner goes on with what comes
    /// next. A failure never stops the miner.
    pub fn after_move(&self, outcome: Result<(), LibError>) -> (recovery: Option<Recovery>)
        ensures
            recovery == match outcome {
                Ok(_) => None,
                Err(error) => Some(recovery_from(error)),
            },
    {
        match outcome {
            Ok(_) => None,
            Err(error) => Some(self.catch_lib_error(error)),
        }
    }

    /// How to get over a failure of the road paving: a lack of energy calls
    /// for a recharge, anything else is only reported.
    pub fn catch_rpm_error(&self, error: RpmError) -> (recovery: Recovery)
        ensures
            recovery == if error is NotEnoughEnergy {
                Recovery::Recharge
            } else {
                Recovery::Report
            },
    {
        match error {
            RpmError::NotEnoughEnergy => Recovery::Recharge,
            _ => Recovery::Report,
        }
    }

    /// Asks for the end of the episode. Nothing else changes.
    pub fn game_is_over(&mut self)
        ensures
            *final(self) == (MinerRobot { game_over: true, ..*old(self) }),
    {
        self.game_over = true;
    }
}

/// Runs the miner without a window. It does nothing: the miner runs in the
/// thread that the window starts.
pub fn run_bot() {
}

} // verus!
