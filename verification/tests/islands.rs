use holy_crab_best_path::tile::{Content, Tile, TileType};
use holy_crab_best_path::MinerRobot;

fn tile(tile_type: TileType) -> Tile {
    Tile { tile_type, content: Content::Empty, elevation: 0 }
}

fn map_of(rows: &[&str]) -> Vec<Vec<Tile>> {
    rows.iter()
        .map(|row| {
            row.chars()
                .map(|c| {
                    tile(match c {
                        'g' => TileType::Grass,
                        's' => TileType::Sand,
                        'h' => TileType::Hill,
                        'm' => TileType::Mountain,
                        'n' => TileType::Snow,
                        'r' => TileType::Street,
                        'w' => TileType::Wall,
                        't' => TileType::Teleport(false),
                        'L' => TileType::Lava,
                        'D' => TileType::DeepWater,
                        'o' => TileType::ShallowWater,
                        other => panic!("unknown tile {}", other),
                    })
                })
                .collect()
        })
        .collect()
}

fn robot_at(row: usize, col: usize) -> MinerRobot {
    let mut robot = MinerRobot::new();
    robot.coordinates = (row, col);
    robot
}

#[test]
fn two_corners_split_by_a_cross_of_lava_are_two_islands() {
    let map = map_of(&["ggLDD", "ggLDD", "LLLLL", "DDLgg", "DDLgg"]);
    let robot = MinerRobot::new();
    let islands = robot.get_islands(&map);
    assert_eq!(islands.len(), 2);
    assert_eq!(islands[0].len(), 4);
    assert_eq!(islands[1].len(), 4);
}

#[test]
fn islands_list_their_cells_in_the_order_of_the_fill() {
    let map = map_of(&["ggLDD", "ggLDD", "LLLLL", "DDLgg", "DDLgg"]);
    let robot = MinerRobot::new();
    let islands = robot.get_islands(&map);
    assert_eq!(islands[0], vec![(0, 0), (0, 1), (1, 1), (1, 0)]);
    assert_eq!(islands[1], vec![(3, 3), (3, 4), (4, 4), (4, 3)]);
}

#[test]
fn every_walkable_cell_lies_on_exactly_one_island() {
    let map = map_of(&["gLgsg", "gLLLh", "gggLm", "LLgLn", "rwgLt"]);
    let robot = MinerRobot::new();
    let islands = robot.get_islands(&map);
    for (r, row) in map.iter().enumerate() {
        for (c, t) in row.iter().enumerate() {
            let count: usize = islands
                .iter()
                .map(|island| island.iter().filter(|cell| **cell == (r as i32, c as i32)).count())
                .sum();
            let expected = if robot.is_walkable(&t.tile_type) { 1 } else { 0 };
            assert_eq!(count, expected, "cell ({}, {})", r, c);
        }
    }
    assert_eq!(islands.len(), 2);
    assert_eq!(islands[0].len(), 9);
    assert_eq!(islands[1].len(), 7);
}

#[test]
fn a_map_without_walkable_cells_has_no_island() {
    let map = map_of(&["DLo", "oDL", "LoD"]);
    let robot = MinerRobot::new();
    assert_eq!(robot.get_islands(&map), Vec::<Vec<(i32, i32)>>::new());
}

#[test]
fn a_winding_island_is_found_whole() {
    let map = map_of(&["gggg", "LLLg", "gggg", "gLLL", "gggg"]);
    let robot = MinerRobot::new();
    let islands = robot.get_islands(&map);
    assert_eq!(islands.len(), 1);
    assert_eq!(islands[0].len(), 14);
    assert_eq!(islands[0][0], (0, 0));
}

#[test]
fn cells_that_touch_only_at_a_corner_are_on_different_islands() {
    let map = map_of(&["gL", "Lg"]);
    let robot = MinerRobot::new();
    assert_eq!(robot.get_islands(&map), vec![vec![(0, 0)], vec![(1, 1)]]);
}

#[test]
fn the_walkable_kinds_are_all_but_water_and_lava() {
    let robot = MinerRobot::new();
    assert!(!robot.is_walkable(&TileType::DeepWater));
    assert!(!robot.is_walkable(&TileType::Lava));
    assert!(!robot.is_walkable(&TileType::ShallowWater));
    assert!(robot.is_walkable(&TileType::Sand));
    assert!(robot.is_walkable(&TileType::Grass));
    assert!(robot.is_walkable(&TileType::Street));
    assert!(robot.is_walkable(&TileType::Hill));
    assert!(robot.is_walkable(&TileType::Mountain));
    assert!(robot.is_walkable(&TileType::Snow));
    assert!(robot.is_walkable(&TileType::Teleport(true)));
    assert!(robot.is_walkable(&TileType::Wall));
}

#[test]
fn bounds_are_those_of_the_map() {
    let map = map_of(&["ggg", "ggg"]);
    let robot = MinerRobot::new();
    assert!(robot.is_in_bounds(&map, 0, 0));
    assert!(robot.is_in_bounds(&map, 1, 2));
    assert!(!robot.is_in_bounds(&map, 2, 0));
    assert!(!robot.is_in_bounds(&map, 0, 3));
    assert!(!robot.is_in_bounds(&map, -1, 0));
    assert!(!robot.is_in_bounds(&map, 0, -1));
}

#[test]
fn the_miners_island_is_the_one_that_lists_its_cell() {
    let map = map_of(&["ggLDD", "ggLDD", "LLLLL", "DDLgg", "DDLgg"]);
    let mut robot = robot_at(4, 3);
    let islands = robot.get_islands(&map);
    assert_eq!(robot.get_robot_island(&islands), Some(vec![(3, 3), (3, 4), (4, 4), (4, 3)]));
    let mut adrift = robot_at(2, 2);
    assert_eq!(adrift.get_robot_island(&islands), None);
}

#[test]
fn the_closest_island_is_the_nearest_of_the_others() {
    let mut robot = robot_at(0, 0);
    let mut islands =
        vec![vec![(0, 0), (0, 1)], vec![(5, 5), (9, 9)], vec![(0, 4), (0, 5)], vec![(3, 0)]];
    let closest = robot.get_closest_island_to_robot(&mut islands);
    assert_eq!(closest, Some(vec![(3, 0)]));
    assert_eq!(islands, vec![vec![(5, 5), (9, 9)], vec![(0, 4), (0, 5)], vec![(3, 0)]]);
}

#[test]
fn of_islands_equally_near_the_first_is_the_closest() {
    let mut robot = robot_at(2, 2);
    let mut islands = vec![vec![(2, 5)], vec![(2, 2)], vec![(5, 2)], vec![(2, 0), (0, 0)]];
    let closest = robot.get_closest_island_to_robot(&mut islands);
    assert_eq!(closest, Some(vec![(2, 0), (0, 0)]));
    let mut tied = vec![vec![(2, 5)], vec![(2, 2)], vec![(5, 2)]];
    assert_eq!(robot.get_closest_island_to_robot(&mut tied), Some(vec![(2, 5)]));
}

#[test]
fn a_miner_alone_or_adrift_has_no_closest_island() {
    let mut robot = robot_at(0, 0);
    let mut alone = vec![vec![(0, 0), (0, 1)]];
    assert_eq!(robot.get_closest_island_to_robot(&mut alone), None);
    assert_eq!(alone, Vec::<Vec<(i32, i32)>>::new());
    let mut adrift = robot_at(7, 7);
    let mut islands = vec![vec![(0, 0), (0, 1)], vec![(3, 3)]];
    assert_eq!(adrift.get_closest_island_to_robot(&mut islands), None);
    assert_eq!(islands, vec![vec![(0, 0), (0, 1)], vec![(3, 3)]]);
    let mut none: Vec<Vec<(i32, i32)>> = Vec::new();
    assert_eq!(adrift.get_closest_island_to_robot(&mut none), None);
}

#[test]
fn the_closest_points_are_the_nearest_pair() {
    let map = map_of(&["ggLLg", "gLLLg", "LLLLg"]);
    let robot = MinerRobot::new();
    let own = vec![(0, 0), (0, 1), (1, 0)];
    let target = vec![(0, 4), (1, 4), (2, 4)];
    assert_eq!(robot.get_closest_points(&map, own, target), Some(((0, 4), (0, 1))));
}

#[test]
fn of_pairs_equally_close_the_first_met_wins() {
    let map = map_of(&["gLg", "gLg"]);
    let robot = MinerRobot::new();
    let own = vec![(1, 0), (0, 0)];
    let target = vec![(1, 2), (0, 2)];
    assert_eq!(robot.get_closest_points(&map, own, target), Some(((1, 2), (1, 0))));
}

#[test]
fn cells_off_the_map_or_not_walkable_cannot_start_a_bridge() {
    let map = map_of(&["gLg", "LLg"]);
    let robot = MinerRobot::new();
    let own = vec![(1, 0), (-1, 0), (0, 7), (0, 0)];
    let target = vec![(1, 2)];
    assert_eq!(robot.get_closest_points(&map, own, target), Some(((1, 2), (0, 0))));
    assert_eq!(robot.get_closest_points(&map, vec![(1, 1), (5, 5)], vec![(1, 2)]), None);
    assert_eq!(robot.get_closest_points(&map, vec![], vec![(1, 2)]), None);
    assert_eq!(robot.get_closest_points(&map, vec![(0, 0)], vec![]), None);
}

#[test]
fn the_target_may_lie_off_the_map() {
    let map = map_of(&["gg"]);
    let robot = MinerRobot::new();
    let found = robot.get_closest_points(&map, vec![(0, 0), (0, 1)], vec![(-3, 1), (9, 9)]);
    assert_eq!(found, Some(((-3, 1), (0, 1))));
}
