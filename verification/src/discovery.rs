use crate::{ENERGY_BUDGET, MinerRobot};
use vstd::prelude::*;

verus! {

/// What a discovery of the world is to cover: its centre, how far from the
/// centre it reaches, the side of the world, and the energy it may spend.
#[derive(Debug, Clone, Copy, PartialEq, Eq, Structural)]
pub struct ScanRequest {
    pub row: usize,
    pub col: usize,
    pub distance: usize,
    pub world_dim: usize,
    pub energy_budget: usize,
}

impl MinerRobot {
    /// The discovery to make around the miner.
    pub fn create_spyglass(&self, distance: usize, world_dim: usize, energy_budget: usize) -> (request:
        ScanRequest)
        ensures
            request == (ScanRequest {
                row: self.coordinates.0,
                col: self.coordinates.1,
                distance,
                world_dim,
                energy_budget,
            }),
    {
        let (row, col) = self.get_coordinates();
        ScanRequest { row, col, distance, world_dim, energy_budget }
    }

    /// The discovery to make now, if any: the world is discovered once, up to
    /// `distance` around the miner, and not again until a stalled harvest
    /// asks for it.
    pub fn scan_world(&mut self, distance: usize, world_dim: usize) -> (request: Option<ScanRequest>)
        ensures
            old(self).world_scanned ==> request is None && *final(self) == *old(self),
            !old(self).world_scanned ==> request == Some(
                ScanRequest {
                    row: old(self).coordinates.0,
                    col: old(self).coordinates.1,
                    distance,
                    world_dim,
                    energy_budget: ENERGY_BUDGET,
                },
            ) && *final(self) == (MinerRobot { world_scanned: true, ..*old(self) }),
    {
        if !self.world_scanned {
            let request = self.create_spyglass(distance, world_dim, ENERGY_BUDGET);
            self.world_scanned = true;
            Some(request)
        } else {
            None
        }
    }
}

} // verus!
