use crate::movement::Direction;
use crate::{MinerRobot, RobotState, MAX_WIDENINGS, SCAN_INCREASE};
use vstd::prelude::*;

verus! {

/// How far around the miner everything is collected after a stalled harvest.
pub const RANGE: usize = 2;

/// The way the fallback collection paves after too many stalled harvests.
pub const DIRECTION: Direction = Direction::Up;

/// One move of a route, as the route oracle names it.
#[derive(Debug, Clone, Copy, PartialEq, Eq, Structural)]
pub enum Action {
    North,
    East,
    South,
    West,
    Teleport(usize, usize),
}

/// What one move of the route to a tile with rocks asks of the miner: where
/// to turn, and whether to harvest the tile ahead before stepping.
#[derive(Debug, Clone, Copy, PartialEq, Eq, Structural)]
pub struct HarvestStep {
    pub direction: Direction,
    pub destroy: bool,
}

/// What to do after an attempt to reach a tile and harvest it.
#[derive(Debug, Clone, Copy, PartialEq, Eq, Structural)]
pub enum StallResponse {
    /// The miner moved: nothing more to do.
    Progress,
    /// The miner did not move: collect whatever lies within `range`.
    CollectNearby { range: usize },
    /// As `CollectNearby`, then pave a road toward `direction` to pick up
    /// rocks on the way: the fallback collection.
    CollectNearbyAndPave { range: usize, direction: Direction },
    /// As `CollectNearby`; the end of the episode has been asked for.
    GiveUp { range: usize },
}

/// The direction that a move of a route stands for. A teleport counts as a
/// move up.
pub open spec fn direction_of(action: Action) -> Direction {
    match action {
        Action::North => Direction::Up,
        Action::East => Direction::Right,
        Action::South => Direction::Down,
        Action::West => Direction::Left,
        Action::Teleport(_, _) => Direction::Up,
    }
}

/// The order of the entries of a cost vector: by cost, then by row, then by
/// column.
pub open spec fn entry_le(a: (usize, (usize, usize)), b: (usize, (usize, usize))) -> bool {
    a.0 < b.0 || (a.0 == b.0 && (a.1.0 < b.1.0 || (a.1.0 == b.1.0 && a.1.1 <= b.1.1)))
}

/// The entries come in ascending order.
pub open spec fn sorted(entries: Seq<(usize, (usize, usize))>) -> bool {
    forall|i: int, j: int| 0 <= i <= j < entries.len() ==> entry_le(entries[i], entries[j])
}

/// The tiles worth going to, each with the cost of reaching it, in the order
/// in which they are known: those that can be reached and on which the miner
/// does not stand already.
pub open spec fn candidates(
    known: Seq<((usize, usize), Option<usize>)>,
    coordinates: (usize, usize),
) -> Seq<(usize, (usize, usize))>
    decreases known.len(),
{
    if known.len() == 0 {
        Seq::empty()
    } else {
        let rest = candidates(known.drop_last(), coordinates);
        match known.last().1 {
            Some(cost) => if known.last().0 != coordinates {
                rest.push((cost, known.last().0))
            } else {
                rest
            },
            None => rest,
        }
    }
}

/// What to do after an attempt at a harvest that began at `before` and left
/// the miner at `after`, when the discovery radius had grown `widenings`
/// times before. A miner that has not moved makes the radius grow once more.
/// Up to `MAX_WIDENINGS` times it collects what lies near, and the last of
/// these times it also tries the fallback collection; once the radius has
/// grown more often, the miner gives up.
pub open spec fn stall_response(
    before: (usize, usize),
    after: (usize, usize),
    widenings: usize,
) -> StallResponse {
    if before != after {
        StallResponse::Progress
    } else if widenings + 1 > MAX_WIDENINGS {
        StallResponse::GiveUp { range: RANGE }
    } else if widenings + 1 == MAX_WIDENINGS {
        StallResponse::CollectNearbyAndPave { range: RANGE, direction: DIRECTION }
    } else {
        StallResponse::CollectNearby { range: RANGE }
    }
}

/// Whether `a` comes before `b`, or is `b`.
fn entry_before_or_same(a: (usize, (usize, usize)), b: (usize, (usize, usize))) -> (res: bool)
    ensures
        res == entry_le(a, b),
{
    a.0 < b.0 || (a.0 == b.0 && (a.1.0 < b.1.0 || (a.1.0 == b.1.0 && a.1.1 <= b.1.1)))
}

/// The same entries in ascending order: by cost, then by row, then by column.
pub fn sort_by_cost(entries: &Vec<(usize, (usize, usize))>) -> (ordered: Vec<(usize, (usize, usize))>)
    ensures
        sorted(ordered@),
        ordered@.to_multiset() == entries@.to_multiset(),
{
    let mut ordered: Vec<(usize, (usize, usize))> = Vec::new();
    let mut i: usize = 0;
    assert(entries@.take(0) =~= Seq::empty());
    while i < entries.len()
        invariant
            i <= entries@.len(),
            sorted(ordered@),
            ordered@.to_multiset() == entries@.take(i as int).to_multiset(),
        decreases entries@.len() - i,
    {
        let entry = entries[i];
        let mut p: usize = 0;
        while p < ordered.len() && entry_before_or_same(ordered[p], entry)
            invariant
                p <= ordered@.len(),
                forall|q: int| 0 <= q < p ==> entry_le(#[trigger] ordered@[q], entry),
            decreases ordered@.len() - p,
        {
            p += 1;
        }
        let ghost so_far = ordered@;
        ordered.insert(p, entry);
        proof {
            assert(entries@.take(i + 1) =~= entries@.take(i as int).push(entry));
            vstd::seq_lib::to_multiset_build(entries@.take(i as int), entry);
            vstd::seq_lib::to_multiset_insert(so_far, p as int, entry);
            assert(ordered@ == so_far.insert(p as int, entry));
            assert forall|a: int, b: int| 0 <= a <= b < ordered@.len() implies entry_le(
                ordered@[a],
                ordered@[b],
            ) by {
                if b < p {
                    assert(entry_le(so_far[a], so_far[b]));
                } else if b == p {
                    if a < p {
                        assert(entry_le(so_far[a], entry));
                    }
                } else if a < p {
                    assert(entry_le(so_far[a], so_far[b - 1]));
                } else if a == p {
                    assert(entry_le(so_far[p as int], so_far[b - 1]));
                } else {
                    assert(entry_le(so_far[a - 1], so_far[b - 1]));
                }
            }
        }
        i += 1;
    }
    assert(entries@.take(i as int) =~= entries@);
    ordered
}

impl MinerRobot {
    /// The direction that a move of a route stands for.
    pub fn action_to_direction(&self, action: &Action) -> (direction: Direction)
        ensures
            direction == direction_of(*action),
    {
        match action {
            Action::North => Direction::Up,
            Action::East => Direction::Right,
            Action::South => Direction::Down,
            Action::West => Direction::Left,
            Action::Teleport(_x, _y) => Direction::Up,
        }
    }

    /// The cost vector: the tiles of `known` that can be reached and on which
    /// the miner does not stand, each after its cost, cheapest first.
    /// `known` lists the tiles that hold the content sought, each with what
    /// the route oracle says it costs to reach, if it can be reached.
    pub fn get_cost_vector_to_content(
        &self,
        known: &Vec<((usize, usize), Option<usize>)>,
    ) -> (cost_vector: Vec<(usize, (usize, usize))>)
        ensures
            sorted(cost_vector@),
            cost_vector@.to_multiset() == candidates(known@, self.coordinates).to_multiset(),
    {
        let (x, y) = self.get_coordinates();
        let mut cost_vector: Vec<(usize, (usize, usize))> = Vec::new();
        let mut i: usize = 0;
        assert(known@.take(0) =~= Seq::empty());
        while i < known.len()
            invariant
                i <= known@.len(),
                (x, y) == self.coordinates,
                cost_vector@ == candidates(known@.take(i as int), self.coordinates),
            decreases known@.len() - i,
        {
            let ((row, col), reach) = known[i];
            assert(known@.take(i + 1).drop_last() =~= known@.take(i as int));
            match reach {
                Some(cost) => {
                    if x != row || y != col {
                        cost_vector.push((cost, (row, col)));
                    }
                },
                None => {},
            }
            i += 1;
        }
        assert(known@.take(i as int) =~= known@);
        sort_by_cost(&cost_vector)
    }

    /// The tile to go to and harvest: the first of the cost vector, which is
    /// the cheapest when the vector is sorted. An empty vector offers none.
    pub fn move_to_tile_destroy_content(&self, vec: &Vec<(usize, (usize, usize))>) -> (target:
        Option<(usize, usize)>)
        ensures
            target == if vec@.len() > 0 {
                Some(vec@[0].1)
            } else {
                None
            },
    {
        if vec.len() > 0 {
            let (_cost, (x, y)) = vec[0];
            Some((x, y))
        } else {
            None
        }
    }

    /// What move `index` of a route of `route_len` moves asks of the miner:
    /// to turn where the move says, and, at the last move only, to harvest
    /// the tile ahead before stepping onto it.
    pub fn harvest_step(&self, index: usize, route_len: usize, action: &Action) -> (step:
        HarvestStep)
        ensures
            step.direction == direction_of(*action),
            step.destroy == (index + 1 == route_len),
    {
        HarvestStep {
            direction: self.action_to_direction(action),
            destroy: route_len > 0 && index == route_len - 1,
        }
    }

    /// Takes stock of an attempt to reach a tile and harvest it, which began
    /// with the miner at `before`. The miner is collecting rocks. Where it
    /// has not moved, the discovery radius grows by `SCAN_INCREASE`, the
    /// growth is counted, and the world is to be discovered again. Once the
    /// radius has grown more than `MAX_WIDENINGS` times the end of the
    /// episode is asked for; the time before, the fallback collection is
    /// tried.
    pub fn move_and_collect_content(&mut self, before: (usize, usize)) -> (response: StallResponse)
        requires
            before == old(self).coordinates ==> old(self).scan_distance + SCAN_INCREASE
                <= usize::MAX && old(self).widenings < usize::MAX,
        ensures
            response == stall_response(before, old(self).coordinates, old(self).widenings),
            *final(self) == if response is Progress {
                MinerRobot { state: RobotState::CollectingRocks, ..*old(self) }
            } else {
                MinerRobot {
                    state: RobotState::CollectingRocks,
                    scan_distance: (old(self).scan_distance + SCAN_INCREASE) as usize,
                    widenings: (old(self).widenings + 1) as usize,
                    world_scanned: false,
                    game_over: old(self).game_over || response is GiveUp,
                    ..*old(self)
                }
            },
    {
        self.state = RobotState::CollectingRocks;
        let (new_row, new_col) = self.get_coordinates();
        if before.0 != new_row || before.1 != new_col {
            return StallResponse::Progress;
        }
        self.scan_distance += SCAN_INCREASE;
        self.widenings += 1;
        self.world_scanned = false;
        if self.widenings > MAX_WIDENINGS {
            self.game_is_over();
            StallResponse::GiveUp { range: RANGE }
        } else if self.widenings == MAX_WIDENINGS {
            StallResponse::CollectNearbyAndPave { range: RANGE, direction: DIRECTION }
        } else {
            StallResponse::CollectNearby { range: RANGE }
        }
    }
}

} // verus!
