use carcassone::carcassone::get_geom_side;
use carcassone::model::{
    bottom_side, left_side, right_side, top_side, Board, Card, CardSide, Cell, Pos, Struct,
    TerrainType,
};

fn card(structs: Vec<(TerrainType, Vec<CardSide>)>) -> Card {
    Card {
        structs: structs
            .into_iter()
            .map(|(terrain, sides)| Struct { terrain, sides, value: 1 })
            .collect(),
        monastery: false,
        pic: "tile.png".to_string(),
    }
}

fn cell(card: Card, side: CardSide) -> Cell {
    Cell { pos: Pos { x: 0, y: 0 }, card, card_side: side }
}

const ALL: [CardSide; 4] = [CardSide::LEFT, CardSide::TOP, CardSide::RIGHT, CardSide::BOTTOM];

fn next(s: CardSide) -> CardSide {
    match s {
        CardSide::LEFT => CardSide::TOP,
        CardSide::TOP => CardSide::RIGHT,
        CardSide::RIGHT => CardSide::BOTTOM,
        CardSide::BOTTOM => CardSide::LEFT,
    }
}

fn sample_card() -> Card {
    card(vec![
        (TerrainType::TOWN, vec![CardSide::LEFT]),
        (TerrainType::ROAD, vec![CardSide::TOP, CardSide::BOTTOM]),
    ])
}

#[test]
fn unclaimed_side_is_field() {
    let c = card(vec![]);
    assert_eq!(c.left(), TerrainType::FIELD);
    assert_eq!(c.top(), TerrainType::FIELD);
    assert_eq!(c.right(), TerrainType::FIELD);
    assert_eq!(c.bottom(), TerrainType::FIELD);
}

#[test]
fn template_sides_follow_structures() {
    let c = sample_card();
    assert_eq!(c.left(), TerrainType::TOWN);
    assert_eq!(c.top(), TerrainType::ROAD);
    assert_eq!(c.right(), TerrainType::FIELD);
    assert_eq!(c.bottom(), TerrainType::ROAD);
    assert_eq!(c.get_terrain(CardSide::RIGHT), TerrainType::FIELD);
}

#[test]
fn first_claiming_structure_wins() {
    let c = card(vec![
        (TerrainType::ROAD, vec![CardSide::LEFT]),
        (TerrainType::TOWN, vec![CardSide::LEFT, CardSide::TOP]),
    ]);
    assert_eq!(c.left(), TerrainType::ROAD);
    assert_eq!(c.top(), TerrainType::TOWN);
}

#[test]
fn rotated_cell_sides() {
    // orientation TOP: the board's left shows the template's top
    let c = cell(sample_card(), CardSide::TOP);
    assert_eq!(c.left(), TerrainType::ROAD);
    assert_eq!(c.top(), TerrainType::FIELD);
    assert_eq!(c.right(), TerrainType::ROAD);
    assert_eq!(c.bottom(), TerrainType::TOWN);
    let c = cell(sample_card(), CardSide::RIGHT);
    assert_eq!(c.left(), TerrainType::FIELD);
    assert_eq!(c.right(), TerrainType::TOWN);
    let c = cell(sample_card(), CardSide::BOTTOM);
    assert_eq!(c.top(), TerrainType::TOWN);
    assert_eq!(c.get_side(&CardSide::LEFT), TerrainType::ROAD);
}

#[test]
fn rotation_shifts_sides_by_one_step() {
    let c = sample_card();
    for o in ALL {
        for s in ALL {
            let turned = cell(c.clone(), next(o));
            let plain = cell(c.clone(), o);
            assert_eq!(turned.get_side(&s), plain.get_side(&next(s)));
        }
    }
}

#[test]
fn full_rotation_cycle_is_identity() {
    let c = sample_card();
    for o in ALL {
        for s in ALL {
            let mut o4 = o;
            let mut s4 = s;
            for _ in 0..4 {
                o4 = next(o4);
                s4 = next(s4);
            }
            assert_eq!(cell(c.clone(), o4).get_side(&s4), cell(c.clone(), o).get_side(&s));
        }
    }
}

#[test]
fn opposite_sides() {
    assert_eq!(CardSide::LEFT.get_opposite(), CardSide::RIGHT);
    assert_eq!(CardSide::TOP.get_opposite(), CardSide::BOTTOM);
    assert_eq!(CardSide::RIGHT.get_opposite(), CardSide::LEFT);
    assert_eq!(CardSide::BOTTOM.get_opposite(), CardSide::TOP);
}

#[test]
fn geom_side_inverts_cell_lookup() {
    // a structure on tile-local side s shows on board side g: looking up g gives s's terrain
    for o in ALL {
        for s in ALL {
            let c = cell(card(vec![(TerrainType::TOWN, vec![s])]), o);
            let g = get_geom_side(&s, &o);
            assert_eq!(c.get_side(&g), TerrainType::TOWN);
        }
    }
    assert_eq!(get_geom_side(&CardSide::LEFT, &CardSide::TOP), CardSide::BOTTOM);
    assert_eq!(get_geom_side(&CardSide::TOP, &CardSide::RIGHT), CardSide::BOTTOM);
}

#[test]
fn empty_place_shows_field() {
    let empty: Option<Cell> = None;
    assert_eq!(left_side(&empty), TerrainType::FIELD);
    assert_eq!(top_side(&empty), TerrainType::FIELD);
    assert_eq!(right_side(&empty), TerrainType::FIELD);
    assert_eq!(bottom_side(&empty), TerrainType::FIELD);
    let full = Some(cell(sample_card(), CardSide::LEFT));
    assert_eq!(left_side(&full), TerrainType::TOWN);
    assert_eq!(top_side(&full), TerrainType::ROAD);
    assert_eq!(right_side(&full), TerrainType::FIELD);
    assert_eq!(bottom_side(&full), TerrainType::ROAD);
}

#[test]
fn board_place_and_new() {
    let mut b = Board::new(3, 2);
    assert_eq!(b.width, 3);
    assert_eq!(b.height, 2);
    assert!(b.cells.iter().all(|col| col.len() == 2 && col.iter().all(|c| c.is_none())));
    let mut c = cell(sample_card(), CardSide::LEFT);
    c.pos = Pos { x: 2, y: 1 };
    b.place(c.clone());
    assert_eq!(b.cells[2][1], Some(c));
    assert!(b.cells[0][0].is_none());
}

#[test]
fn clone_keeps_cell() {
    let c = cell(sample_card(), CardSide::BOTTOM);
    assert_eq!(c.clone(), c);
}

#[test]
fn terrain_names() {
    assert_eq!(TerrainType::TOWN.name(), "town");
    assert_eq!(TerrainType::ROAD.name(), "road");
    assert_eq!(TerrainType::FIELD.name(), "field");
}
