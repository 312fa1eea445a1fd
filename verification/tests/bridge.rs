use holy_crab_best_path::bridge::{is_cost_fitting, is_crossing_in_map, PavingSound};
use holy_crab_best_path::grid::is_valid_grid;
use holy_crab_best_path::convergence::{
    BridgePlan, BuildDecision, BuildStep, Convergence, Run, MAX_ITERATIONS,
};
use holy_crab_best_path::movement::Direction;
use holy_crab_best_path::tile::{Content, Tile, TileType};
use holy_crab_best_path::{MinerRobot, RobotState};

fn grid(rows: &[&str]) -> Vec<Vec<Tile>> {
    rows.iter()
        .map(|row| {
            row.chars()
                .map(|c| Tile {
                    tile_type: match c {
                        'g' => TileType::Grass,
                        'm' => TileType::Mountain,
                        's' => TileType::Sand,
                        'L' => TileType::Lava,
                        'D' => TileType::DeepWater,
                        'o' => TileType::ShallowWater,
                        other => panic!("unknown tile {}", other),
                    },
                    content: Content::Empty,
                    elevation: 0,
                })
                .collect()
        })
        .collect()
}

fn miner(row: usize, col: usize, rocks: usize) -> MinerRobot {
    let mut robot = MinerRobot::new();
    robot.coordinates = (row, col);
    robot.rocks_collected = rocks;
    robot
}

#[test]
fn each_kind_of_tile_has_its_cost() {
    let robot = MinerRobot::new();
    assert_eq!(robot.get_tile_cost(&TileType::DeepWater), 3);
    assert_eq!(robot.get_tile_cost(&TileType::Lava), 3);
    assert_eq!(robot.get_tile_cost(&TileType::ShallowWater), 2);
    assert_eq!(robot.get_tile_cost(&TileType::Mountain), 0);
    assert_eq!(robot.get_tile_cost(&TileType::Grass), 1);
    assert_eq!(robot.get_tile_cost(&TileType::Sand), 1);
    assert_eq!(robot.get_tile_cost(&TileType::Street), 1);
    assert_eq!(robot.get_tile_cost(&TileType::Hill), 1);
    assert_eq!(robot.get_tile_cost(&TileType::Snow), 1);
    assert_eq!(robot.get_tile_cost(&TileType::Wall), 1);
    assert_eq!(robot.get_tile_cost(&TileType::Teleport(false)), 1);
}

#[test]
fn three_tiles_of_lava_in_a_row_cost_nine() {
    let map = grid(&["gLLLg", "DDDDD", "DDDDD", "DDDDD", "DDDDD"]);
    let robot = miner(0, 0, 0);
    assert_eq!(robot.get_paving_cost(&map, (0, 0), (0, 4)), 9);
}

#[test]
fn a_bridge_to_where_one_stands_costs_nothing() {
    let map = grid(&["gLg", "LLL", "gLD"]);
    let robot = MinerRobot::new();
    for r in 0..3 {
        for c in 0..3 {
            assert_eq!(robot.get_paving_cost(&map, (r, c), (r, c)), 0);
        }
    }
}

#[test]
fn a_bridge_to_the_next_tile_costs_nothing() {
    let map = grid(&["LD", "oL"]);
    let robot = MinerRobot::new();
    assert_eq!(robot.get_paving_cost(&map, (0, 0), (0, 1)), 0);
    assert_eq!(robot.get_paving_cost(&map, (0, 0), (1, 0)), 0);
    assert_eq!(robot.get_paving_cost(&map, (1, 1), (0, 1)), 0);
}

#[test]
fn the_crossing_goes_along_the_rows_first() {
    let map = grid(&["gog", "LgD", "mgg"]);
    let robot = MinerRobot::new();
    // (0,0) -> (1,0) lava, (2,0) mountain, (2,1) grass, then the target.
    assert_eq!(robot.get_paving_cost(&map, (0, 0), (2, 2)), 3 + 0 + 1);
    // (2,2) -> (1,2) deep water, (0,2) grass, (0,1) shallow water, then the target.
    assert_eq!(robot.get_paving_cost(&map, (2, 2), (0, 0)), 3 + 1 + 2);
}

#[test]
fn along_one_line_a_bridge_costs_the_same_both_ways() {
    let map = grid(&["gLoDmg", "DDDDDD"]);
    let robot = MinerRobot::new();
    assert_eq!(robot.get_paving_cost(&map, (0, 0), (0, 5)), 3 + 2 + 3 + 0);
    assert_eq!(robot.get_paving_cost(&map, (0, 5), (0, 0)), 3 + 2 + 3 + 0);
}

#[test]
fn the_bridge_goes_to_the_nearest_cell_of_the_nearest_island() {
    let map = grid(&["gLLLg", "DDDDg", "DDDDD", "DDDDD", "gDDDD"]);
    let mut robot = miner(0, 0, 0);
    assert_eq!(robot.calculate_bridge_points(&map), ((0, 4), (0, 0)));
}

#[test]
fn the_bridge_starts_at_the_cell_of_the_miners_island_nearest_to_the_target() {
    let map = grid(&["ggLLg", "gDDDD", "gDDDD"]);
    let mut robot = miner(2, 0, 0);
    assert_eq!(robot.calculate_bridge_points(&map), ((0, 4), (0, 1)));
}

#[test]
fn a_miner_adrift_gets_the_origin_twice() {
    let map = grid(&["gLg", "LLL"]);
    let mut robot = miner(1, 1, 0);
    assert_eq!(robot.calculate_bridge_points(&map), ((0, 0), (0, 0)));
    let mut far = miner(40, 2, 0);
    assert_eq!(far.calculate_bridge_points(&map), ((0, 0), (0, 0)));
}

#[test]
fn with_no_other_island_the_origin_stands_in_for_the_target() {
    let map = grid(&["LLL", "Lgg", "Lgg"]);
    let mut robot = miner(2, 2, 0);
    assert_eq!(robot.calculate_bridge_points(&map), ((0, 0), (1, 1)));
}

#[test]
fn too_few_rocks_move_nothing() {
    let map = grid(&["gLog", "DDDD", "DDDD", "DDDD"]);
    let mut robot = miner(0, 0, 3);
    let points = robot.calculate_bridge_points(&map);
    assert_eq!(points, ((0, 3), (0, 0)));
    assert_eq!(robot.get_paving_cost(&map, points.1, points.0), 5);
    let next = robot.pave_bridge(&map, Convergence::new(points));
    assert_eq!(next, Convergence::Idle);
    assert_eq!(robot.rocks_collected, 3);
    assert_eq!(robot.state, RobotState::CollectingRocks);
    assert!(!robot.game_over);
    assert_eq!(robot.pave_bridge(&map, next), Convergence::Idle);
}

#[test]
fn enough_rocks_send_the_miner_to_the_start() {
    let map = grid(&["ggLog", "gDDDD"]);
    let mut robot = miner(1, 0, 5);
    let points = robot.calculate_bridge_points(&map);
    assert_eq!(points, ((0, 4), (0, 1)));
    let next = robot.pave_bridge(&map, Convergence::new(points));
    assert_eq!(
        next,
        Convergence::Relocating { target: (0, 4), start: (0, 1), cost: 5, iterations: 0 }
    );
    assert_eq!(robot.rocks_collected, 5);
    assert_eq!(robot.state, RobotState::CollectingRocks);
}

#[test]
fn a_target_that_holds_still_is_built_to() {
    let map = grid(&["ggLog", "gDDDD"]);
    let mut robot = miner(1, 0, 7);
    let points = robot.calculate_bridge_points(&map);
    let relocating = robot.pave_bridge(&map, Convergence::new(points));
    robot.coordinates = (0, 1);
    let committed = robot.pave_bridge(&map, relocating);
    assert_eq!(
        committed,
        Convergence::Committed {
            target: (0, 4),
            cost: 5,
            plan: BridgePlan {
                rows: None,
                columns: Some(Run { direction: Direction::Right, steps: 2 }),
            },
        }
    );
    assert_eq!(robot.rocks_collected, 2);
    assert_eq!(robot.state, RobotState::PavingBridge);
    assert!(!robot.game_over);
    assert_eq!(robot.pave_bridge(&map, committed), committed);
    assert_eq!(robot.rocks_collected, 2);
}

#[test]
fn a_target_that_moved_is_not_built_to() {
    let before = grid(&["gLLLg", "DDDDD", "DDDDD"]);
    let after = grid(&["gLLLg", "LDDDD", "gDDDD"]);
    let mut robot = miner(0, 0, 10);
    let points = robot.calculate_bridge_points(&before);
    assert_eq!(points, ((0, 4), (0, 0)));
    let relocating = robot.pave_bridge(&before, Convergence::new(points));
    assert_eq!(
        relocating,
        Convergence::Relocating { target: (0, 4), start: (0, 0), cost: 9, iterations: 0 }
    );
    let next = robot.pave_bridge(&after, relocating);
    assert_eq!(next, Convergence::Searching { target: (2, 0), start: (0, 0), iterations: 1 });
    assert_eq!(robot.rocks_collected, 10);
    assert_eq!(robot.state, RobotState::CollectingRocks);
    assert!(!robot.game_over);
}

#[test]
fn a_target_that_keeps_moving_ends_the_episode() {
    let near = grid(&["gLg", "DDD", "DDD"]);
    let far = grid(&["gLD", "DDD", "DDg"]);
    let mut robot = miner(0, 0, 100);
    let mut state = Convergence::new(robot.calculate_bridge_points(&near));
    let mut steps = 0;
    loop {
        let map = match state {
            Convergence::Searching { target, .. } | Convergence::Relocating { target, .. } => {
                let on_near = target == (0, 2);
                match state {
                    Convergence::Relocating { .. } => if on_near { &far } else { &near },
                    _ => if on_near { &near } else { &far },
                }
            }
            _ => break,
        };
        state = robot.pave_bridge(map, state);
        steps += 1;
        assert!(steps <= 2 * MAX_ITERATIONS + 1);
    }
    assert_eq!(state, Convergence::Aborted);
    assert_eq!(steps, 2 * MAX_ITERATIONS + 1);
    assert!(robot.game_over);
    assert_eq!(robot.rocks_collected, 100);
    assert_eq!(robot.state, RobotState::CollectingRocks);
}

#[test]
fn the_ninth_move_of_the_target_still_goes_on() {
    let map = grid(&["gLg"]);
    let mut robot = miner(0, 0, 100);
    let state = Convergence::Relocating { target: (5, 5), start: (0, 0), cost: 1, iterations: 9 };
    let next = robot.pave_bridge(&map, state);
    assert_eq!(next, Convergence::Searching { target: (0, 2), start: (0, 0), iterations: 10 });
    assert_eq!(robot.pave_bridge(&map, next), Convergence::Aborted);
    assert!(robot.game_over);
}

#[test]
fn the_plan_goes_along_the_rows_to_the_corner_then_along_the_columns() {
    let robot = miner(5, 5, 0);
    assert_eq!(
        robot.build_along_row_and_col(8, 1),
        BridgePlan {
            rows: Some(Run { direction: Direction::Down, steps: 3 }),
            columns: Some(Run { direction: Direction::Left, steps: 3 }),
        }
    );
    assert_eq!(
        robot.build_along_row_and_col(0, 9),
        BridgePlan {
            rows: Some(Run { direction: Direction::Up, steps: 5 }),
            columns: Some(Run { direction: Direction::Right, steps: 3 }),
        }
    );
    assert_eq!(
        robot.build_along_row_and_col(6, 6),
        BridgePlan {
            rows: Some(Run { direction: Direction::Down, steps: 1 }),
            columns: Some(Run { direction: Direction::Right, steps: 0 }),
        }
    );
}

#[test]
fn on_a_line_the_plan_stops_beside_the_target() {
    let robot = miner(5, 5, 0);
    assert_eq!(robot.build_along_row_and_col(5, 5), BridgePlan { rows: None, columns: None });
    assert_eq!(
        robot.build_along_row_and_col(-2, 5),
        BridgePlan { rows: Some(Run { direction: Direction::Up, steps: 6 }), columns: None }
    );
    assert_eq!(
        robot.build_along_row_and_col(5, 9),
        BridgePlan { rows: None, columns: Some(Run { direction: Direction::Right, steps: 3 }) }
    );
    assert_eq!(
        robot.build_along_row_and_col(6, 5),
        BridgePlan { rows: Some(Run { direction: Direction::Down, steps: 0 }), columns: None }
    );
    assert_eq!(
        robot.build_along_row_and_col(5, 4),
        BridgePlan { rows: None, columns: Some(Run { direction: Direction::Left, steps: 0 }) }
    );
}

#[test]
fn starting_to_build_turns_the_miner_to_paving() {
    let mut robot = miner(0, 0, 4);
    let plan = robot.start_building_bridge((0, 4));
    assert_eq!(
        plan,
        BridgePlan { rows: None, columns: Some(Run { direction: Direction::Right, steps: 3 }) }
    );
    assert_eq!(robot.state, RobotState::PavingBridge);
    assert_eq!(robot.rocks_collected, 4);
}

fn build(robot: &mut MinerRobot, map: &mut Vec<Vec<Tile>>, run: Option<Run>) -> (usize, Vec<(usize, usize)>) {
    let mut rocks = 0;
    let mut stepped = Vec::new();
    let Some(run) = run else { return (rocks, stepped) };
    let mut steps_left = run.steps;
    loop {
        let decision = robot.build_to_direction(map, steps_left, &run.direction);
        let (row, col) = robot.coordinates;
        let ahead = match run.direction {
            Direction::Up => (row.wrapping_sub(1), col),
            Direction::Down => (row + 1, col),
            Direction::Left => (row, col.wrapping_sub(1)),
            Direction::Right => (row, col + 1),
        };
        match decision.step {
            BuildStep::Finished => {
                assert_eq!(decision.steps_left, 0);
                return (rocks, stepped);
            }
            BuildStep::Blocked => {}
            BuildStep::Advance { .. } => {
                robot.coordinates = ahead;
                stepped.push(ahead);
            }
            BuildStep::Pave { quantity, .. } => {
                rocks += quantity;
                map[ahead.0][ahead.1].tile_type = TileType::Street;
                robot.coordinates = ahead;
                stepped.push(ahead);
            }
        }
        assert_eq!(decision.steps_left, steps_left - 1);
        steps_left = decision.steps_left;
    }
}

#[test]
fn a_bridge_is_built_end_to_end_around_the_corner() {
    let mut map = grid(&["gLLL", "LLLL", "LLLL", "LLLg"]);
    let mut robot = miner(0, 0, 20);
    let points = robot.calculate_bridge_points(&map);
    assert_eq!(points, ((3, 3), (0, 0)));
    let relocating = robot.pave_bridge(&map, Convergence::new(points));
    assert_eq!(robot.relocation(&relocating), None);
    let committed = robot.pave_bridge(&map, relocating);
    let Convergence::Committed { target, cost, plan } = committed else {
        panic!("the target held still");
    };
    assert_eq!(target, (3, 3));
    assert_eq!(cost, 15);
    assert_eq!(robot.rocks_collected, 5);
    let (rocks_down, down) = build(&mut robot, &mut map, plan.rows);
    assert_eq!(down, vec![(1, 0), (2, 0), (3, 0)]);
    let (rocks_right, right) = build(&mut robot, &mut map, plan.columns);
    assert_eq!(right, vec![(3, 1), (3, 2)]);
    assert_eq!(rocks_down + rocks_right, cost);
    assert_eq!(robot.coordinates, (3, 2));
    for (r, c) in [(1, 0), (2, 0), (3, 0), (3, 1), (3, 2)] {
        assert!(robot.is_walkable(&map[r][c].tile_type));
    }
    assert_eq!(robot.get_islands(&map).len(), 1);
}

#[test]
fn a_straight_bridge_is_built_up_to_the_target() {
    let mut map = grid(&["gLoDg"]);
    let mut robot = miner(0, 0, 0);
    let plan = robot.build_along_row_and_col(0, 4);
    assert_eq!(build(&mut robot, &mut map, plan.rows), (0, vec![]));
    assert_eq!(build(&mut robot, &mut map, plan.columns), (8, vec![(0, 1), (0, 2), (0, 3)]));
    assert_eq!(robot.coordinates, (0, 3));
    assert_eq!(robot.get_islands(&map).len(), 1);
}

#[test]
fn the_miner_is_sent_to_the_start_unless_it_stands_there() {
    let state = Convergence::Relocating { target: (0, 4), start: (0, 1), cost: 5, iterations: 0 };
    assert_eq!(miner(1, 0, 0).relocation(&state), Some((0, 1)));
    assert_eq!(miner(0, 1, 0).relocation(&state), None);
    let searching = Convergence::Searching { target: (0, 4), start: (0, 1), iterations: 0 };
    assert_eq!(miner(1, 0, 0).relocation(&searching), None);
    assert_eq!(miner(1, 0, 0).relocation(&Convergence::Idle), None);
    assert_eq!(miner(1, 0, 0).relocation(&Convergence::Aborted), None);
}

fn step_at(robot: &MinerRobot, map: &Vec<Vec<Tile>>, steps_left: u128, direction: Direction) -> BuildStep {
    robot.build_to_direction(map, steps_left, &direction).step
}

#[test]
fn the_tile_ahead_is_paved_at_its_cost() {
    let map = grid(&["gLog", "DmDD"]);
    let robot = miner(0, 0, 0);
    assert_eq!(
        robot.build_to_direction(&map, 3, &Direction::Right),
        BuildDecision {
            step: BuildStep::Pave { quantity: 3, sound: PavingSound::Lava },
            steps_left: 2
        }
    );
    assert_eq!(
        step_at(&robot, &map, 1, Direction::Down),
        BuildStep::Pave { quantity: 3, sound: PavingSound::Water }
    );
    let next = miner(0, 1, 0);
    assert_eq!(
        step_at(&next, &map, 2, Direction::Right),
        BuildStep::Pave { quantity: 2, sound: PavingSound::Water }
    );
    let onward = BuildStep::Advance { sound: PavingSound::Ground };
    assert_eq!(step_at(&next, &map, 2, Direction::Down), onward);
    assert_eq!(step_at(&next, &map, 1, Direction::Left), onward);
}

#[test]
fn deep_water_ahead_takes_three_rocks_and_sounds_of_water() {
    let map = grid(&["gD"]);
    assert_eq!(
        step_at(&miner(0, 0, 0), &map, 2, Direction::Right),
        BuildStep::Pave { quantity: 3, sound: PavingSound::Water }
    );
}

#[test]
fn the_miner_stands_on_its_own_cell_only() {
    let robot = miner(3, 4, 0);
    assert!(robot.stands_on((3, 4)));
    assert!(!robot.stands_on((4, 3)));
    assert!(!robot.stands_on((3, 5)));
    assert!(!robot.stands_on((-3, 4)));
    assert!(!miner(0, 0, 0).stands_on((-1, 0)));
    assert!(miner(0, 0, 0).stands_on((0, 0)));
}

#[test]
fn a_stretch_with_no_tile_left_is_finished() {
    let map = grid(&["gLog", "DmDD"]);
    let robot = miner(0, 2, 0);
    assert_eq!(
        robot.build_to_direction(&map, 0, &Direction::Right),
        BuildDecision { step: BuildStep::Finished, steps_left: 0 }
    );
    assert_eq!(step_at(&robot, &map, 0, Direction::Left), BuildStep::Finished);
    assert_eq!(
        robot.build_to_direction(&map, 1, &Direction::Left),
        BuildDecision {
            step: BuildStep::Pave { quantity: 3, sound: PavingSound::Lava },
            steps_left: 0
        }
    );
}

#[test]
fn nothing_is_built_off_the_map() {
    let map = grid(&["gLog", "DmDD"]);
    assert_eq!(step_at(&miner(0, 0, 0), &map, 5, Direction::Up), BuildStep::Blocked);
    assert_eq!(step_at(&miner(0, 0, 0), &map, 5, Direction::Left), BuildStep::Blocked);
    assert_eq!(step_at(&miner(1, 3, 0), &map, 5, Direction::Down), BuildStep::Blocked);
    assert_eq!(step_at(&miner(1, 3, 0), &map, 5, Direction::Right), BuildStep::Blocked);
    assert_eq!(step_at(&miner(9, 9, 0), &map, 5, Direction::Up), BuildStep::Blocked);
    assert_eq!(
        miner(0, 0, 0).build_to_direction(&map, 5, &Direction::Up),
        BuildDecision { step: BuildStep::Blocked, steps_left: 4 }
    );
    assert_eq!(
        step_at(&miner(2, 1, 0), &map, 5, Direction::Up),
        BuildStep::Advance { sound: PavingSound::Ground }
    );
}

#[test]
fn a_map_must_have_a_row_and_rows_of_one_length() {
    assert!(is_valid_grid(&grid(&["gLg", "LLL"])));
    assert!(is_valid_grid(&grid(&["g"])));
    assert!(is_valid_grid(&vec![vec![], vec![]]));
    assert!(!is_valid_grid(&Vec::new()));
    assert!(!is_valid_grid(&grid(&["gLg", "LL"])));
    assert!(!is_valid_grid(&grid(&["gL", "LLg"])));
    assert!(is_cost_fitting(&grid(&["gLg", "LLL"])));
}

#[test]
fn a_crossing_must_stay_on_the_map() {
    let map = grid(&["gLg", "LLL"]);
    assert!(is_crossing_in_map(&map, (0, 0), (1, 2)));
    assert!(is_crossing_in_map(&map, (1, 2), (0, 0)));
    assert!(is_crossing_in_map(&map, (0, 0), (0, 0)));
    assert!(is_crossing_in_map(&map, (7, 7), (7, 7)));
    assert!(is_crossing_in_map(&map, (-1, 0), (1, 0)));
    assert!(is_crossing_in_map(&map, (0, 3), (0, 0)));
    assert!(!is_crossing_in_map(&map, (0, 0), (2, 0)));
    assert!(!is_crossing_in_map(&map, (0, 0), (0, 3)));
    assert!(!is_crossing_in_map(&map, (0, 3), (1, 0)));
    assert!(!is_crossing_in_map(&map, (-2, 0), (1, 0)));
    assert!(!is_crossing_in_map(&map, (0, 0), (-1, 0)));
}

#[test]
fn off_a_line_the_two_ways_turn_at_opposite_corners() {
    let robot = MinerRobot::new();
    let uneven = grid(&["gg", "Lg"]);
    assert_eq!(robot.get_paving_cost(&uneven, (0, 0), (1, 1)), 3);
    assert_eq!(robot.get_paving_cost(&uneven, (1, 1), (0, 0)), 1);
    let even = grid(&["go", "og"]);
    assert_eq!(robot.get_paving_cost(&even, (0, 0), (1, 1)), 2);
    assert_eq!(robot.get_paving_cost(&even, (1, 1), (0, 0)), 2);
}
