use std::collections::HashSet;

use carcassone::algorithm::{find_closest_free_pos, get_free_cell, get_halo, rearrange_overlaps, Algorithm};
use carcassone::carcassone::fill_board_on;
use carcassone::evolution::create_empty_board;
use carcassone::model::{Board, Card, CardSide, Cell, Pos};

fn blank(x: usize, y: usize, pic: &str, side: CardSide) -> Cell {
    Cell {
        pos: Pos { x, y },
        card: Card { structs: vec![], monastery: false, pic: pic.to_string() },
        card_side: side,
    }
}

#[test]
fn halo_scans_rows_then_columns() {
    let board = Board::new(5, 5);
    let ring = get_halo(&board, &Pos { x: 2, y: 2 }, 1);
    let expected = vec![
        (1, 1), (1, 3), (2, 1), (2, 3), (3, 1), (3, 3),
        (1, 1), (3, 1), (1, 2), (3, 2),
    ];
    let got: Vec<(usize, usize)> = ring.iter().map(|p| (p.x, p.y)).collect();
    assert_eq!(got, expected);
}

#[test]
fn halo_is_clipped_to_the_board() {
    let board = Board::new(3, 3);
    let ring = get_halo(&board, &Pos { x: 0, y: 0 }, 1);
    let got: Vec<(usize, usize)> = ring.iter().map(|p| (p.x, p.y)).collect();
    assert_eq!(got, vec![(0, 1), (1, 1), (1, 0)]);
    let far = get_halo(&board, &Pos { x: 0, y: 0 }, 5);
    assert!(far.is_empty());
}

#[test]
fn first_free_position() {
    let board = fill_board_on(3, 1, &vec![blank(0, 0, "a", CardSide::LEFT)]);
    let list = vec![Pos { x: 0, y: 0 }, Pos { x: 2, y: 0 }, Pos { x: 1, y: 0 }];
    assert_eq!(get_free_cell(&board, &list), Some(Pos { x: 2, y: 0 }));
    assert_eq!(get_free_cell(&board, &vec![Pos { x: 0, y: 0 }]), None);
}

#[test]
fn closest_free_reaches_the_far_corner() {
    // every place but the lower right corner is taken
    let cells = vec![
        blank(0, 0, "a", CardSide::LEFT),
        blank(1, 0, "b", CardSide::LEFT),
        blank(0, 1, "c", CardSide::LEFT),
    ];
    let board = fill_board_on(2, 2, &cells);
    assert_eq!(find_closest_free_pos(&board, &Pos { x: 0, y: 0 }), Pos { x: 1, y: 1 });
}

#[test]
fn closest_free_prefers_nearer_ring() {
    let cells = vec![blank(2, 2, "a", CardSide::LEFT), blank(1, 1, "b", CardSide::LEFT)];
    let board = fill_board_on(5, 5, &cells);
    // (1, 1) is taken; (1, 3) comes next in the ring at distance 1
    assert_eq!(find_closest_free_pos(&board, &Pos { x: 2, y: 2 }), Pos { x: 1, y: 3 });
}

#[test]
fn free_target_is_kept() {
    let cells = vec![blank(0, 0, "a", CardSide::LEFT), blank(1, 1, "b", CardSide::TOP)];
    let r = rearrange_overlaps(&cells, 3, 3);
    assert_eq!(r, cells);
}

#[test]
fn collisions_are_moved_apart() {
    let cells: Vec<Cell> = (0..9)
        .map(|i| blank(1, 1, &format!("t{}", i), if i % 2 == 0 { CardSide::LEFT } else { CardSide::RIGHT }))
        .collect();
    let r = rearrange_overlaps(&cells, 3, 3);
    assert_eq!(r.len(), 9);
    let places: HashSet<(usize, usize)> = r.iter().map(|c| (c.pos.x, c.pos.y)).collect();
    assert_eq!(places.len(), 9);
    for (a, b) in r.iter().zip(cells.iter()) {
        assert_eq!(a.card, b.card);
        assert_eq!(a.card_side, b.card_side);
    }
    assert_eq!(r[0].pos, Pos { x: 1, y: 1 });
    assert_eq!(r[1].pos, Pos { x: 0, y: 0 });
    assert_eq!(r[2].pos, Pos { x: 0, y: 2 });
}

#[test]
fn earlier_genes_take_priority() {
    let cells = vec![blank(0, 0, "a", CardSide::LEFT), blank(0, 0, "b", CardSide::LEFT)];
    let r = rearrange_overlaps(&cells, 2, 1);
    assert_eq!(r[0].card.pic, "a");
    assert_eq!(r[0].pos, Pos { x: 0, y: 0 });
    assert_eq!(r[1].pos, Pos { x: 1, y: 0 });
}

#[test]
fn algorithm_keeps_genome_and_resolves() {
    let cells = vec![blank(3, 3, "a", CardSide::LEFT), blank(3, 3, "b", CardSide::BOTTOM)];
    let alg = Algorithm::new(cells.clone());
    assert_eq!(alg.cells, cells);
    assert_eq!(alg.width, 15);
    assert_ne!(alg.arranged_cells[0].pos, alg.arranged_cells[1].pos);
    let empty = create_empty_board();
    assert_eq!(empty.width, 15);
    assert_eq!(empty.height, 15);
}
