use holy_crab_best_path::discovery::ScanRequest;
use holy_crab_best_path::goal::{GoalAction, GoalType};
use holy_crab_best_path::movement::Direction;
use holy_crab_best_path::pathfinding::{sort_by_cost, Action, HarvestStep, StallResponse};
use holy_crab_best_path::render::{choose_image, scroll, vary_tiles, TileImage, VARIATIONS};
use holy_crab_best_path::tile::{Content, Tile, TileType};
use holy_crab_best_path::{
    run_bot, LibError, MinerRobot, Recovery, RobotState, RpmError, ENERGY_BUDGET, GOAL_QUANTITY,
    MAX_WIDENINGS, MIN_ENERGY, SCAN_DISTANCE, SCAN_INCREASE,
};

fn land(tile_type: TileType, content: Content) -> Tile {
    Tile { tile_type, content, elevation: 0 }
}

#[test]
fn a_new_miner_collects_rocks_at_the_origin() {
    let robot = MinerRobot::new();
    assert_eq!(robot.name, "The default miner");
    assert_eq!(robot.rocks_collected, 0);
    assert_eq!(robot.scan_distance, SCAN_DISTANCE);
    assert_eq!(robot.widenings, 0);
    assert!(!robot.world_scanned);
    assert_eq!(robot.state, RobotState::CollectingRocks);
    assert!(!robot.game_over);
    assert_eq!(robot.get_coordinates(), (0, 0));
    let named = MinerRobot::new_name(String::from("Digger"));
    assert_eq!(named.name, "Digger");
    assert_eq!(named.scan_distance, 10);
    assert_eq!(named.get_coordinates(), (0, 0));
}

#[test]
fn the_resource_list_is_sorted_by_cost() {
    let entries = vec![(5, (1, 1)), (2, (3, 3)), (8, (0, 0))];
    let sorted = sort_by_cost(&entries);
    assert_eq!(sorted, vec![(2, (3, 3)), (5, (1, 1)), (8, (0, 0))]);
    let robot = MinerRobot::new();
    assert_eq!(robot.move_to_tile_destroy_content(&sorted), Some((3, 3)));
}

#[test]
fn equal_costs_are_sorted_by_row_then_by_column() {
    let entries = vec![(4, (2, 0)), (4, (1, 9)), (1, (7, 7)), (4, (1, 3)), (4, (1, 3))];
    assert_eq!(
        sort_by_cost(&entries),
        vec![(1, (7, 7)), (4, (1, 3)), (4, (1, 3)), (4, (1, 9)), (4, (2, 0))]
    );
    assert_eq!(sort_by_cost(&Vec::new()), Vec::new());
}

#[test]
fn the_cost_vector_leaves_out_what_cannot_be_reached_and_where_the_miner_stands() {
    let mut robot = MinerRobot::new();
    robot.coordinates = (1, 1);
    let known = vec![
        ((4, 4), Some(12)),
        ((1, 1), Some(0)),
        ((0, 3), None),
        ((2, 1), Some(3)),
        ((1, 2), Some(3)),
    ];
    assert_eq!(
        robot.get_cost_vector_to_content(&known),
        vec![(3, (1, 2)), (3, (2, 1)), (12, (4, 4))]
    );
    assert_eq!(robot.get_cost_vector_to_content(&vec![((1, 1), Some(5)), ((0, 0), None)]), vec![]);
}

#[test]
fn an_empty_cost_vector_offers_no_tile() {
    let robot = MinerRobot::new();
    assert_eq!(robot.move_to_tile_destroy_content(&Vec::new()), None);
}

#[test]
fn the_moves_of_a_route_stand_for_directions() {
    let robot = MinerRobot::new();
    assert_eq!(robot.action_to_direction(&Action::North), Direction::Up);
    assert_eq!(robot.action_to_direction(&Action::East), Direction::Right);
    assert_eq!(robot.action_to_direction(&Action::South), Direction::Down);
    assert_eq!(robot.action_to_direction(&Action::West), Direction::Left);
    assert_eq!(robot.action_to_direction(&Action::Teleport(3, 4)), Direction::Up);
}

#[test]
fn directions_have_their_offsets() {
    let robot = MinerRobot::new();
    assert_eq!(robot.direction_to_offset(&Direction::Up), (-1, 0));
    assert_eq!(robot.direction_to_offset(&Direction::Left), (0, -1));
    assert_eq!(robot.direction_to_offset(&Direction::Down), (1, 0));
    assert_eq!(robot.direction_to_offset(&Direction::Right), (0, 1));
}

#[test]
fn only_the_last_move_of_a_route_harvests() {
    let robot = MinerRobot::new();
    assert_eq!(
        robot.harvest_step(0, 3, &Action::East),
        HarvestStep { direction: Direction::Right, destroy: false }
    );
    assert_eq!(
        robot.harvest_step(2, 3, &Action::South),
        HarvestStep { direction: Direction::Down, destroy: true }
    );
    assert_eq!(
        robot.harvest_step(0, 1, &Action::West),
        HarvestStep { direction: Direction::Left, destroy: true }
    );
    assert_eq!(
        robot.harvest_step(0, 0, &Action::North),
        HarvestStep { direction: Direction::Up, destroy: false }
    );
}

#[test]
fn a_step_is_made_only_onto_a_walkable_tile_of_the_map() {
    let map = vec![
        vec![land(TileType::Grass, Content::Empty), land(TileType::Lava, Content::Empty)],
        vec![land(TileType::Sand, Content::Empty), land(TileType::Grass, Content::Empty)],
    ];
    let mut robot = MinerRobot::new();
    assert_eq!(robot.move_to_coords(&map, &Action::South), Some(Direction::Down));
    assert_eq!(robot.move_to_coords(&map, &Action::East), None);
    assert_eq!(robot.move_to_coords(&map, &Action::North), None);
    assert_eq!(robot.move_to_coords(&map, &Action::West), None);
    assert_eq!(robot.move_to_coords(&map, &Action::Teleport(1, 1)), None);
    robot.coordinates = (1, 1);
    assert_eq!(robot.move_to_coords(&map, &Action::West), Some(Direction::Left));
    assert_eq!(robot.move_to_coords(&map, &Action::North), None);
    assert_eq!(robot.move_to_coords(&map, &Action::South), None);
    assert_eq!(robot.move_to_coords(&map, &Action::Teleport(0, 0)), None);
}

#[test]
fn a_miner_that_moved_has_made_progress() {
    let mut robot = MinerRobot::new();
    robot.coordinates = (2, 3);
    robot.state = RobotState::PavingBridge;
    robot.world_scanned = true;
    assert_eq!(robot.move_and_collect_content((2, 2)), StallResponse::Progress);
    assert_eq!(robot.state, RobotState::CollectingRocks);
    assert_eq!(robot.scan_distance, SCAN_DISTANCE);
    assert!(robot.world_scanned);
    assert!(!robot.game_over);
}

#[test]
fn each_stall_widens_the_discovery_until_the_miner_gives_up() {
    let mut robot = MinerRobot::new();
    robot.coordinates = (2, 3);
    robot.world_scanned = true;
    assert_eq!(robot.widenings, 0);
    for n in 1..=3 {
        assert_eq!(
            robot.move_and_collect_content((2, 3)),
            StallResponse::CollectNearby { range: 2 }
        );
        assert_eq!(robot.widenings, n);
        assert_eq!(robot.scan_distance, SCAN_DISTANCE + n * SCAN_INCREASE);
        assert!(!robot.world_scanned);
        assert!(!robot.game_over);
    }
    assert_eq!(robot.scan_distance, 40);
    assert_eq!(
        robot.move_and_collect_content((2, 3)),
        StallResponse::CollectNearbyAndPave { range: 2, direction: Direction::Up }
    );
    assert_eq!(robot.widenings, 4);
    assert_eq!(robot.widenings, MAX_WIDENINGS);
    assert_eq!(robot.scan_distance, 50);
    assert!(!robot.game_over);
    assert_eq!(robot.move_and_collect_content((2, 3)), StallResponse::GiveUp { range: 2 });
    assert_eq!(robot.widenings, 5);
    assert_eq!(robot.scan_distance, 60);
    assert!(robot.game_over);
    assert_eq!(robot.state, RobotState::CollectingRocks);
}

#[test]
fn a_miner_that_moved_needs_no_room_to_widen() {
    let mut robot = MinerRobot::new();
    robot.coordinates = (2, 3);
    robot.scan_distance = usize::MAX;
    robot.widenings = usize::MAX;
    assert_eq!(robot.move_and_collect_content((0, 0)), StallResponse::Progress);
    assert_eq!(robot.scan_distance, usize::MAX);
    assert_eq!(robot.widenings, usize::MAX);
    assert!(!robot.game_over);
}

#[test]
fn a_failed_step_is_got_over() {
    let robot = MinerRobot::new();
    assert_eq!(robot.after_move(Ok(())), None);
    assert_eq!(robot.after_move(Err(LibError::NotEnoughEnergy)), Some(Recovery::Recharge));
    for error in [
        LibError::OutOfBounds,
        LibError::NoContent,
        LibError::NotEnoughSpace(1),
        LibError::CannotDestroy,
        LibError::NotCraftable,
        LibError::NoMoreDiscovery,
        LibError::Other,
    ] {
        assert_eq!(robot.after_move(Err(error)), Some(Recovery::Report));
    }
}

#[test]
fn the_world_is_discovered_once() {
    let mut robot = MinerRobot::new();
    robot.coordinates = (4, 6);
    assert_eq!(
        robot.scan_world(10, 64),
        Some(ScanRequest { row: 4, col: 6, distance: 10, world_dim: 64, energy_budget: 300 })
    );
    assert!(robot.world_scanned);
    assert_eq!(robot.scan_world(10, 64), None);
    assert_eq!(
        robot.create_spyglass(7, 9, ENERGY_BUDGET),
        ScanRequest { row: 4, col: 6, distance: 7, world_dim: 9, energy_budget: 300 }
    );
}

#[test]
fn an_empty_tracker_gets_the_goal_of_collecting_rocks() {
    let robot = MinerRobot::new();
    match robot.handle_goals(0) {
        GoalAction::SetGoal(goal) => {
            assert_eq!(goal.name, "Looking for Rocks");
            assert_eq!(goal.description, "Collecting Rocks");
            assert_eq!(goal.goal_type, GoalType::GetItems);
            assert_eq!(goal.item, Some(Content::Rock(1)));
            assert_eq!(goal.goal_quantity, GOAL_QUANTITY);
            assert_eq!(goal.goal_quantity, 5);
        }
        GoalAction::CleanCompleted => panic!("the tracker was empty"),
    }
    assert_eq!(robot.handle_goals(2), GoalAction::CleanCompleted);
}

#[test]
fn goals_are_named_after_their_content() {
    let names = [
        (Content::Bank(0, 1), "Looking for Bank", "Going to the Bank"),
        (Content::Bin(0, 1), "Looking for Bin", "Using the bin"),
        (Content::Building, "Looking for Building", "Building?"),
        (Content::Bush(1), "Looking for Bush", "Hiding in the bush"),
        (Content::Crate(0, 1), "Looking for Crate", "Crate!"),
        (Content::Coin(1), "Looking for Coin", "Making money"),
        (Content::Fire, "Looking for Fire", "Looking for fire"),
        (Content::Fish(1), "Looking for Fish", "Fishing"),
        (Content::Garbage(1), "Looking for Garbage", "Garbage collecting"),
        (Content::JollyBlock(1), "Looking for JollyBlock", "JollyBlocking"),
        (Content::Market(1), "Looking for Market", "Going to the market"),
        (Content::Rock(1), "Looking for Rocks", "Collecting Rocks"),
        (Content::Scarecrow, "Looking for Scarecrow", "Scarecrowing"),
        (Content::Tree(1), "Looking for Tree", "Looking for a forest"),
        (Content::Water(1), "Looking for Water", "In need of Water"),
        (Content::Empty, "Looking for None", "None"),
    ];
    for (content, name, description) in names {
        assert_eq!(MinerRobot::get_goal_name_by_content(&content), name);
        assert_eq!(MinerRobot::get_goal_description_by_content(&content), description);
    }
    let robot = MinerRobot::new();
    let goal = robot.set_goal_by_content(GoalType::GetItems, Content::Tree(3), 9);
    assert_eq!(goal.name, "Looking for Tree");
    assert_eq!(goal.description, "Looking for a forest");
    assert_eq!(goal.item, Some(Content::Tree(3)));
    assert_eq!(goal.goal_quantity, 9);
}

#[test]
fn only_a_lack_of_energy_calls_for_a_recharge() {
    let robot = MinerRobot::new();
    assert_eq!(robot.catch_lib_error(LibError::NotEnoughEnergy), Recovery::Recharge);
    for error in [
        LibError::OutOfBounds,
        LibError::NoContent,
        LibError::NotEnoughSpace(3),
        LibError::CannotDestroy,
        LibError::NotCraftable,
        LibError::NoMoreDiscovery,
        LibError::Other,
    ] {
        assert_eq!(robot.catch_lib_error(error), Recovery::Report);
    }
    assert_eq!(robot.catch_rpm_error(RpmError::NotEnoughEnergy), Recovery::Recharge);
    for error in [
        RpmError::CannotPlaceHere,
        RpmError::OutOfBounds,
        RpmError::NotEnoughMaterial,
        RpmError::NoRockHere,
        RpmError::MustDestroyContentFirst,
        RpmError::UndefinedError,
    ] {
        assert_eq!(robot.catch_rpm_error(error), Recovery::Report);
    }
}

#[test]
fn the_miner_recharges_under_the_floor() {
    let robot = MinerRobot::new();
    assert!(robot.manage_energy(0));
    assert!(robot.manage_energy(MIN_ENERGY - 1));
    assert!(!robot.manage_energy(MIN_ENERGY));
    assert!(!robot.manage_energy(100));
    assert!(!robot.manage_energy(1000));
}

#[test]
fn the_rock_count_follows_the_backpack() {
    let mut robot = MinerRobot::new();
    robot.update_rock_count(Some(7));
    assert_eq!(robot.rocks_collected, 7);
    robot.update_rock_count(None);
    assert_eq!(robot.rocks_collected, 7);
    robot.update_rock_count(Some(0));
    assert_eq!(robot.rocks_collected, 0);
}

#[test]
fn asking_for_the_end_changes_nothing_else() {
    let mut robot = MinerRobot::new_name(String::from("Digger"));
    robot.coordinates = (3, 4);
    robot.rocks_collected = 6;
    robot.game_is_over();
    assert!(robot.game_over);
    assert_eq!(robot.name, "Digger");
    assert_eq!(robot.coordinates, (3, 4));
    assert_eq!(robot.rocks_collected, 6);
    assert_eq!(robot.state, RobotState::CollectingRocks);
    run_bot();
}

#[test]
fn unknown_tiles_become_deep_water() {
    let grass = land(TileType::Grass, Content::Rock(2));
    let sand = land(TileType::Sand, Content::Empty);
    let deep = land(TileType::DeepWater, Content::Empty);
    let robot_map = vec![vec![Some(grass), None], vec![None, Some(sand)]];
    let robot = MinerRobot::new();
    assert_eq!(robot.get_map(&robot_map), vec![vec![grass, deep], vec![deep, sand]]);
    assert_eq!(
        robot.get_map_option(&robot_map),
        vec![vec![Some(grass), Some(deep)], vec![Some(deep), Some(sand)]]
    );
    let ragged = vec![vec![Some(grass)], vec![]];
    assert_eq!(robot.get_map(&ragged), vec![vec![grass, deep], vec![deep, deep]]);
    assert_eq!(robot.get_map(&Vec::new()), Vec::<Vec<Tile>>::new());
}

#[test]
fn tiles_are_found_by_the_kind_of_their_content() {
    let robot_map = vec![
        vec![Some(land(TileType::Grass, Content::Rock(2))), None, None],
        vec![
            Some(land(TileType::Grass, Content::Tree(1))),
            Some(land(TileType::Hill, Content::Rock(9))),
            Some(land(TileType::Hill, Content::Empty)),
        ],
        vec![None, Some(land(TileType::Sand, Content::Rock(0)))],
    ];
    let robot = MinerRobot::new();
    assert_eq!(robot.get_tiles_by_content(&robot_map, Content::Rock(1)), vec![(0, 0), (1, 1), (2, 1)]);
    assert_eq!(robot.get_tiles_by_content(&robot_map, Content::Tree(7)), vec![(1, 0)]);
    assert_eq!(robot.get_tiles_by_content(&robot_map, Content::Empty), vec![(1, 2)]);
    assert_eq!(robot.get_tiles_by_content(&robot_map, Content::Fire), vec![]);
    assert!(Content::Bin(0, 3).is_same_kind(&Content::Bin(2, 9)));
    assert!(!Content::Bin(0, 3).is_same_kind(&Content::Crate(0, 3)));
}

#[test]
fn sand_by_the_water_and_hills_by_the_grass_have_their_own_picture() {
    let t = |tile_type: TileType, n: usize| (land(tile_type, Content::Empty), n);
    let map = vec![
        vec![t(TileType::Sand, 0), t(TileType::ShallowWater, 0), t(TileType::Sand, 9)],
        vec![t(TileType::Hill, 9), t(TileType::Grass, 0), t(TileType::Hill, 9)],
        vec![t(TileType::Hill, 8), t(TileType::Hill, 3), t(TileType::Hill, 8)],
        vec![t(TileType::Teleport(true), 0), t(TileType::Sand, 0), t(TileType::Lava, 0)],
        vec![t(TileType::Snow, 0), t(TileType::DeepWater, 0), t(TileType::Mountain, 0)],
        vec![t(TileType::Wall, 0), t(TileType::Street, 0), t(TileType::Grass, 0)],
    ];
    assert_eq!(choose_image(&map, (0, 0)), TileImage::SandWater);
    assert_eq!(choose_image(&map, (0, 1)), TileImage::Water);
    assert_eq!(choose_image(&map, (0, 2)), TileImage::Sand);
    assert_eq!(choose_image(&map, (1, 0)), TileImage::DownHill);
    assert_eq!(choose_image(&map, (1, 1)), TileImage::Grass);
    assert_eq!(choose_image(&map, (1, 2)), TileImage::Hill1);
    assert_eq!(choose_image(&map, (2, 0)), TileImage::Hill2);
    assert_eq!(choose_image(&map, (2, 1)), TileImage::Hill2);
    assert_eq!(choose_image(&map, (2, 2)), TileImage::Hill2);
    assert_eq!(choose_image(&map, (3, 0)), TileImage::Grass);
    assert_eq!(choose_image(&map, (3, 1)), TileImage::Sand);
    assert_eq!(choose_image(&map, (3, 2)), TileImage::Lava);
    assert_eq!(choose_image(&map, (4, 0)), TileImage::Snow);
    assert_eq!(choose_image(&map, (4, 1)), TileImage::DeepWater);
    assert_eq!(choose_image(&map, (4, 2)), TileImage::Mountain);
    assert_eq!(choose_image(&map, (5, 0)), TileImage::Wall);
    assert_eq!(choose_image(&map, (5, 1)), TileImage::Street);
    assert_eq!(choose_image(&map, (5, 2)), TileImage::Grass);
}

#[test]
fn each_tile_gets_a_variation_under_the_limit() {
    let grass = land(TileType::Grass, Content::Empty);
    let hill = land(TileType::Hill, Content::Rock(1));
    let map = vec![vec![grass, hill, grass], vec![hill], vec![]];
    let varied = vary_tiles(&map);
    assert_eq!(varied.len(), 3);
    assert_eq!(varied[0].len(), 3);
    assert_eq!(varied[1].len(), 1);
    assert_eq!(varied[2].len(), 0);
    assert_eq!(varied[0][0].0, grass);
    assert_eq!(varied[0][1].0, hill);
    assert_eq!(varied[0][2].0, grass);
    assert_eq!(varied[1][0].0, hill);
    for row in &varied {
        for (_, n) in row {
            assert!(*n < VARIATIONS as usize);
        }
    }
    assert_eq!(VARIATIONS, 10);
}

#[test]
fn the_variations_are_not_all_the_same() {
    let grass = land(TileType::Grass, Content::Empty);
    let map: Vec<Vec<Tile>> = (0..40).map(|_| vec![grass; 40]).collect();
    let varied = vary_tiles(&map);
    let first = varied[0][0].1;
    assert!(varied.iter().flatten().all(|(_, n)| *n < 10));
    assert!(varied.iter().flatten().any(|(_, n)| *n != first));
    assert!(varied.iter().flatten().any(|(_, n)| *n > 8));
    assert!(varied.iter().flatten().any(|(_, n)| *n == 0));
}

#[test]
fn the_view_moves_by_one_tile_and_stops_at_the_edge() {
    assert_eq!(scroll((0, 0), Direction::Down, 30, 25), (0, 1));
    assert_eq!(scroll((0, 4), Direction::Down, 30, 25), (0, 5));
    assert_eq!(scroll((0, 5), Direction::Down, 30, 25), (0, 5));
    assert_eq!(scroll((0, 5), Direction::Up, 30, 25), (0, 4));
    assert_eq!(scroll((3, 0), Direction::Up, 30, 25), (3, 0));
    assert_eq!(scroll((3, 0), Direction::Left, 30, 25), (2, 0));
    assert_eq!(scroll((0, 2), Direction::Left, 30, 25), (0, 2));
    assert_eq!(scroll((4, 2), Direction::Right, 30, 25), (5, 2));
    assert_eq!(scroll((5, 2), Direction::Right, 30, 25), (5, 2));
    assert_eq!(scroll((0, 0), Direction::Right, 30, 30), (0, 0));
}
