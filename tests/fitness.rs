use carcassone::algorithm::Algorithm;
use carcassone::carcassone::{
    cluster_penalty, count_non_matching_tiles, count_towns, count_unclosed_town_parts,
    evaluate_algorithm, evaluate_board, fill_board, fill_board_on, get_neighboring_cell,
    get_struct, xor,
};
use carcassone::model::{Card, CardSide, Cell, Pos, Struct, TerrainType};

fn card(structs: Vec<(TerrainType, Vec<CardSide>)>) -> Card {
    Card {
        structs: structs
            .into_iter()
            .map(|(terrain, sides)| Struct { terrain, sides, value: 1 })
            .collect(),
        monastery: false,
        pic: "tile.png".to_string(),
    }
}

fn at(x: usize, y: usize, card: Card, side: CardSide) -> Cell {
    Cell { pos: Pos { x, y }, card, card_side: side }
}

fn plain(x: usize, y: usize) -> Cell {
    at(x, y, card(vec![]), CardSide::LEFT)
}

#[test]
fn single_blank_tile_scores_zero() {
    let board = fill_board_on(1, 1, &vec![plain(0, 0)]);
    assert_eq!(cluster_penalty(&board), 0);
    assert_eq!(count_non_matching_tiles(&board), 0);
    assert_eq!(count_unclosed_town_parts(&board), 0);
    assert_eq!(count_towns(&board), 0);
    assert_eq!(evaluate_board(&board), 0);
}

#[test]
fn facing_mismatch_costs_one_more_than_match() {
    let town_left = card(vec![(TerrainType::TOWN, vec![CardSide::LEFT])]);
    // the town side of the right tile faces the blank left tile
    let mismatched = fill_board_on(2, 1, &vec![plain(0, 0), at(1, 0, town_left.clone(), CardSide::LEFT)]);
    // the same tile turned half-way: field faces field, the town faces the border
    let matched = fill_board_on(2, 1, &vec![plain(0, 0), at(1, 0, town_left, CardSide::RIGHT)]);
    assert_eq!(count_non_matching_tiles(&mismatched), 1);
    assert_eq!(count_non_matching_tiles(&matched), 0);
    assert_eq!(evaluate_board(&mismatched), 3);
    assert_eq!(evaluate_board(&matched), 2);
    assert_eq!(evaluate_board(&mismatched), evaluate_board(&matched) + 1);
}

#[test]
fn border_town_against_matched_town() {
    let a = at(0, 0, card(vec![(TerrainType::TOWN, vec![CardSide::RIGHT])]), CardSide::LEFT);
    let town_left = card(vec![(TerrainType::TOWN, vec![CardSide::LEFT])]);
    // town edge of the right tile on the border; its field side faces the left tile's town
    let on_border = fill_board_on(2, 1, &vec![a.clone(), at(1, 0, town_left.clone(), CardSide::RIGHT)]);
    // turned to face the left tile's town edge
    let facing = fill_board_on(2, 1, &vec![a, at(1, 0, town_left, CardSide::LEFT)]);
    assert_eq!(count_unclosed_town_parts(&on_border), 2);
    assert_eq!(count_unclosed_town_parts(&facing), 0);
}

#[test]
fn unclosed_town_on_each_border() {
    let all_town = card(vec![(
        TerrainType::TOWN,
        vec![CardSide::LEFT, CardSide::TOP, CardSide::RIGHT, CardSide::BOTTOM],
    )]);
    let board = fill_board_on(1, 1, &vec![at(0, 0, all_town.clone(), CardSide::LEFT)]);
    assert_eq!(count_unclosed_town_parts(&board), 4);
    // a town side facing an empty place is open too
    let board = fill_board_on(2, 1, &vec![at(0, 0, all_town, CardSide::LEFT)]);
    assert_eq!(count_unclosed_town_parts(&board), 4);
}

#[test]
fn mismatches_counted_once_per_pair() {
    let road_right = card(vec![(TerrainType::ROAD, vec![CardSide::RIGHT, CardSide::BOTTOM])]);
    let cells = vec![
        at(0, 0, road_right, CardSide::LEFT),
        plain(1, 0),
        plain(0, 1),
        plain(1, 1),
    ];
    let board = fill_board_on(2, 2, &cells);
    assert_eq!(count_non_matching_tiles(&board), 2);
}

#[test]
fn matching_board_has_no_mismatch_until_one_tile_turns() {
    let road_lr = card(vec![(TerrainType::ROAD, vec![CardSide::LEFT, CardSide::RIGHT])]);
    let mut cells: Vec<Cell> = (0..3).map(|x| at(x, 0, road_lr.clone(), CardSide::LEFT)).collect();
    let board = fill_board_on(3, 1, &cells);
    assert_eq!(count_non_matching_tiles(&board), 0);
    // turning the middle tile a quarter makes both its borders mismatch
    cells[1].card_side = CardSide::TOP;
    let board = fill_board_on(3, 1, &cells);
    assert_eq!(count_non_matching_tiles(&board), 2);
    // turning an end tile touches one border only
    cells[1].card_side = CardSide::LEFT;
    cells[2].card_side = CardSide::TOP;
    let board = fill_board_on(3, 1, &cells);
    assert_eq!(count_non_matching_tiles(&board), 1);
}

#[test]
fn clusters_of_tiles() {
    let joined = fill_board_on(3, 3, &vec![plain(0, 0), plain(1, 0), plain(1, 1), plain(1, 2)]);
    assert_eq!(cluster_penalty(&joined), 0);
    let diagonal = fill_board_on(3, 3, &vec![plain(0, 0), plain(1, 1)]);
    assert_eq!(cluster_penalty(&diagonal), 1);
    let three = fill_board_on(3, 3, &vec![plain(0, 0), plain(2, 0), plain(0, 2), plain(2, 2), plain(1, 2)]);
    assert_eq!(cluster_penalty(&three), 2);
}

#[test]
fn towns_join_across_borders() {
    let town_right = card(vec![(TerrainType::TOWN, vec![CardSide::RIGHT])]);
    let town_left = card(vec![(TerrainType::TOWN, vec![CardSide::LEFT])]);
    let joined = fill_board_on(2, 1, &vec![
        at(0, 0, town_right.clone(), CardSide::LEFT),
        at(1, 0, town_left.clone(), CardSide::LEFT),
    ]);
    assert_eq!(count_towns(&joined), 1);
    let apart = fill_board_on(3, 1, &vec![
        at(0, 0, town_right, CardSide::LEFT),
        at(2, 0, town_left, CardSide::LEFT),
    ]);
    assert_eq!(count_towns(&apart), 2);
    // two distinct town structures on one tile are two towns
    let two = card(vec![
        (TerrainType::TOWN, vec![CardSide::LEFT]),
        (TerrainType::TOWN, vec![CardSide::RIGHT]),
    ]);
    let board = fill_board_on(1, 1, &vec![at(0, 0, two, CardSide::LEFT)]);
    assert_eq!(count_towns(&board), 2);
}

#[test]
fn towns_follow_rotation() {
    // the left tile's town is on its template top; turned by BOTTOM it faces right
    let town_top = card(vec![(TerrainType::TOWN, vec![CardSide::TOP])]);
    let town_left = card(vec![(TerrainType::TOWN, vec![CardSide::LEFT])]);
    let board = fill_board_on(2, 1, &vec![
        at(0, 0, town_top, CardSide::BOTTOM),
        at(1, 0, town_left, CardSide::LEFT),
    ]);
    assert_eq!(board.cells[0][0].as_ref().unwrap().right(), TerrainType::TOWN);
    assert_eq!(count_towns(&board), 1);
    assert_eq!(count_unclosed_town_parts(&board), 0);
}

#[test]
fn later_placement_replaces_earlier() {
    let town = card(vec![(TerrainType::TOWN, vec![CardSide::LEFT])]);
    let board = fill_board_on(2, 2, &vec![plain(1, 1), at(1, 1, town.clone(), CardSide::LEFT)]);
    assert_eq!(board.cells[1][1].as_ref().unwrap().card, town);
    let big = fill_board(&vec![plain(14, 14)]);
    assert_eq!(big.width, 15);
    assert!(big.cells[14][14].is_some());
}

#[test]
fn neighbours_and_structures() {
    let town = card(vec![
        (TerrainType::ROAD, vec![CardSide::TOP]),
        (TerrainType::TOWN, vec![CardSide::LEFT, CardSide::TOP]),
    ]);
    let board = fill_board_on(2, 2, &vec![plain(0, 0), at(1, 0, town.clone(), CardSide::LEFT)]);
    let n = get_neighboring_cell(&board, Pos { x: 0, y: 0 }, &CardSide::RIGHT);
    assert_eq!(n.map(|c| c.pos), Some(Pos { x: 1, y: 0 }));
    assert!(get_neighboring_cell(&board, Pos { x: 0, y: 0 }, &CardSide::LEFT).is_none());
    assert!(get_neighboring_cell(&board, Pos { x: 0, y: 0 }, &CardSide::BOTTOM).is_none());
    let c = at(1, 0, town, CardSide::LEFT);
    assert_eq!(get_struct(&c, &CardSide::LEFT), Some(1));
    assert_eq!(get_struct(&c, &CardSide::TOP), Some(0));
    assert_eq!(get_struct(&c, &CardSide::RIGHT), None);
    let turned = Cell { card_side: CardSide::TOP, ..c };
    // turned by TOP, the template's left shows at the bottom
    assert_eq!(get_struct(&turned, &CardSide::BOTTOM), Some(1));
}

#[test]
fn xor_truth_table() {
    assert!(!xor(false, false));
    assert!(xor(true, false));
    assert!(xor(false, true));
    assert!(!xor(true, true));
}

#[test]
fn algorithm_score_matches_board_score() {
    let town_left = card(vec![(TerrainType::TOWN, vec![CardSide::LEFT])]);
    let alg = Algorithm::new_on(vec![plain(0, 0), at(1, 0, town_left, CardSide::LEFT)], 2, 1);
    assert_eq!(evaluate_algorithm(&alg), 3);
    let single = Algorithm::new_on(vec![plain(0, 0)], 1, 1);
    assert_eq!(evaluate_algorithm(&single), 0);
}
