use holy_crab_best_path::bridge::PavingSound;
use holy_crab_best_path::convergence::Convergence;
use holy_crab_best_path::debug::{Glyph, Tint};
use holy_crab_best_path::distance::{distance_between, distance_to, island_distance};
use holy_crab_best_path::tile::{Content, Tile, TileType};
use holy_crab_best_path::MinerRobot;

fn known(tile_type: TileType, content: Content) -> Option<Tile> {
    Some(Tile { tile_type, content, elevation: 0 })
}

#[test]
fn the_distance_to_a_point_is_taken_along_rows_and_columns() {
    assert_eq!(distance_to((0, 0), 0, 0), 0);
    assert_eq!(distance_to((3, 4), 0, 0), 7);
    assert_eq!(distance_to((0, 0), 3, 4), 7);
    assert_eq!(distance_to((-2, 5), 1, 1), 7);
    assert_eq!(distance_to((i32::MIN, i32::MAX), 0, 0), 4294967295);
    assert_eq!(
        distance_to((i32::MIN, 0), usize::MAX, 0),
        usize::MAX as i128 + 2147483648
    );
}

#[test]
fn the_distance_between_two_cells_is_the_same_both_ways() {
    assert_eq!(distance_between((1, 1), (1, 1)), 0);
    assert_eq!(distance_between((0, 4), (0, 1)), 3);
    assert_eq!(distance_between((0, 1), (0, 4)), 3);
    assert_eq!(distance_between((-3, 1), (0, 1)), 3);
    assert_eq!(distance_between((i32::MIN, i32::MIN), (i32::MAX, i32::MAX)), 8589934590);
    assert_eq!(distance_between((i32::MAX, i32::MAX), (i32::MIN, i32::MIN)), 8589934590);
}

#[test]
fn an_island_is_as_far_as_its_nearest_cell() {
    assert_eq!(island_distance(&vec![(5, 5)], 0, 0), 10);
    assert_eq!(island_distance(&vec![(5, 5), (2, 1), (9, 0)], 0, 0), 3);
    assert_eq!(island_distance(&vec![(5, 5), (2, 1), (9, 0)], 9, 1), 1);
    assert_eq!(island_distance(&vec![(2, 2), (2, 2)], 2, 2), 0);
}

#[test]
fn a_search_starts_with_the_points_proposed() {
    assert_eq!(
        Convergence::new(((3, 4), (1, 2))),
        Convergence::Searching { target: (3, 4), start: (1, 2), iterations: 0 }
    );
}

#[test]
fn a_rock_sounds_different_on_water_on_lava_and_on_the_ground() {
    let robot = MinerRobot::new();
    assert_eq!(robot.play_sound_paving(&TileType::DeepWater), PavingSound::Water);
    assert_eq!(robot.play_sound_paving(&TileType::ShallowWater), PavingSound::Water);
    assert_eq!(robot.play_sound_paving(&TileType::Lava), PavingSound::Lava);
    assert_eq!(robot.play_sound_paving(&TileType::Grass), PavingSound::Ground);
    assert_eq!(robot.play_sound_paving(&TileType::Hill), PavingSound::Ground);
    assert_eq!(robot.play_sound_paving(&TileType::Sand), PavingSound::Ground);
    assert_eq!(robot.play_sound_paving(&TileType::Snow), PavingSound::Ground);
    assert_eq!(robot.play_sound_paving(&TileType::Mountain), PavingSound::Ground);
}

#[test]
fn the_view_of_the_content_has_a_head_line_and_a_line_for_each_row() {
    let robot_map = vec![
        vec![known(TileType::Grass, Content::Rock(2)), None, known(TileType::Sand, Content::Empty)],
        vec![None, known(TileType::Hill, Content::Tree(1)), None],
        vec![],
    ];
    let mut robot = MinerRobot::new();
    robot.coordinates = (1, 1);
    assert_eq!(
        robot.print_discovered_tiles_content(&robot_map),
        vec![
            vec![Glyph::Corner, Glyph::Index(0), Glyph::Index(1), Glyph::Index(2)],
            vec![
                Glyph::Index(0),
                Glyph::Content(Content::Rock(2)),
                Glyph::Unknown,
                Glyph::Content(Content::Empty)
            ],
            vec![Glyph::Index(1), Glyph::Unknown, Glyph::Robot, Glyph::Unknown],
            vec![],
        ]
    );
    assert_eq!(
        robot.print_discovered_tiles_content(&Vec::new()),
        vec![vec![Glyph::Corner]]
    );
}

#[test]
fn row_numbers_show_their_last_digit() {
    let robot_map: Vec<Vec<Option<Tile>>> = (0..12).map(|_| vec![None]).collect();
    let mut robot = MinerRobot::new();
    robot.coordinates = (11, 0);
    let lines = robot.print_discovered_tiles_content(&robot_map);
    assert_eq!(lines.len(), 13);
    assert_eq!(lines[0][10], Glyph::Index(9));
    assert_eq!(lines[0][11], Glyph::Index(0));
    assert_eq!(lines[0][12], Glyph::Index(1));
    assert_eq!(lines[10], vec![Glyph::Index(9), Glyph::Unknown]);
    assert_eq!(lines[11], vec![Glyph::Index(0), Glyph::Unknown]);
    assert_eq!(lines[12], vec![Glyph::Index(1), Glyph::Robot]);
}

#[test]
fn a_small_world_is_shown_in_pictures() {
    let robot_map = vec![
        vec![known(TileType::Grass, Content::Rock(2)), None],
        vec![known(TileType::Lava, Content::Empty), known(TileType::Street, Content::Fire)],
    ];
    let robot = MinerRobot::new();
    let view = robot.print_discovered_tiles_tile_type(&robot_map);
    assert!(view.unicode);
    assert_eq!(
        view.lines,
        vec![
            vec![Glyph::Corner, Glyph::Index(0), Glyph::Index(1)],
            vec![Glyph::Index(0), Glyph::Robot, Glyph::Unknown],
            vec![
                Glyph::Index(1),
                Glyph::Terrain(TileType::Lava),
                Glyph::Terrain(TileType::Street)
            ],
        ]
    );
    let wide: Vec<Vec<Option<Tile>>> = (0..30).map(|_| Vec::new()).collect();
    let large = robot.print_discovered_tiles_tile_type(&wide);
    assert!(!large.unicode);
    assert_eq!(large.lines.len(), 31);
    let narrow: Vec<Vec<Option<Tile>>> = (0..29).map(|_| Vec::new()).collect();
    assert!(robot.print_discovered_tiles_tile_type(&narrow).unicode);
}

#[test]
fn each_content_has_its_letter() {
    let letters = [
        (Content::Bank(0, 1), "A "),
        (Content::Bin(0, 1), "I "),
        (Content::Building, "B "),
        (Content::Bush(1), "H "),
        (Content::Crate(0, 1), "C "),
        (Content::Coin(1), "O "),
        (Content::Fire, "F "),
        (Content::Fish(1), "P "),
        (Content::Garbage(1), "G "),
        (Content::JollyBlock(1), "J "),
        (Content::Market(1), "M "),
        (Content::Rock(1), "R "),
        (Content::Scarecrow, "S "),
        (Content::Tree(1), "T "),
        (Content::Water(1), "W "),
        (Content::Empty, "+ "),
    ];
    for (content, letter) in letters {
        assert_eq!(MinerRobot::print_content(content), letter);
        let tint = if letter == "R " { Tint::Green } else { Tint::Yellow };
        assert_eq!(MinerRobot::content_tint(content), tint);
    }
}

#[test]
fn each_terrain_has_its_letter_and_its_picture() {
    let marks = [
        (TileType::DeepWater, "D ", "\u{1F30A}", Tint::Blue),
        (TileType::Grass, "G ", "\u{1F33F}", Tint::Green),
        (TileType::Hill, "H ", "\u{26F0}", Tint::Green),
        (TileType::Lava, "L ", "\u{1F30B}", Tint::Green),
        (TileType::Mountain, "M ", "\u{1F3D4}", Tint::Green),
        (TileType::Sand, "S ", "\u{1F3D6}", Tint::Green),
        (TileType::ShallowWater, "o ", "o ", Tint::Blue),
        (TileType::Snow, "N ", "\u{2744}", Tint::Green),
        (TileType::Street, "R ", "\u{1F309}", Tint::Red),
        (TileType::Teleport(false), "T ", "\u{1F504}", Tint::Green),
        (TileType::Wall, "W ", "\u{1F6A1}", Tint::Green),
    ];
    for (tile_type, letter, picture, tint) in marks {
        assert_eq!(MinerRobot::print_tile_type(tile_type), letter);
        assert_eq!(MinerRobot::print_tile_type_unicode(tile_type), picture);
        assert_eq!(MinerRobot::tile_type_tint(tile_type), tint);
    }
}
