use rand::rngs::StdRng;
use rand::SeedableRng;

use carcassone::carcassone::evaluate_algorithm;
use carcassone::evolution::{
    crossover, evolve_generation, initial_population, mutate_with, next_generation,
    rank_index, rank_index_except, rank_population, side_of_draw, EvolutionConfig, RANK_DRAWS,
};
use carcassone::model::{Card, CardSide, Cell, Pos};

fn blank_card(pic: &str) -> Card {
    Card { structs: vec![], monastery: false, pic: pic.to_string() }
}

fn gene(x: usize, y: usize, pic: &str) -> Cell {
    Cell { pos: Pos { x, y }, card: blank_card(pic), card_side: CardSide::LEFT }
}

fn small_config() -> EvolutionConfig {
    EvolutionConfig { population_size: 6, width: 3, height: 3, mutation_per_mille: 500 }
}

#[test]
fn rank_index_follows_the_formula() {
    assert_eq!(rank_index(0, 50), 0);
    assert_eq!(rank_index(RANK_DRAWS - 1, 50), 49);
    // 1 - sqrt(1 - 1/2) = 0.2928..., times 50 is 14.6...
    assert_eq!(rank_index(RANK_DRAWS / 2, 50), 14);
    assert_eq!(rank_index(RANK_DRAWS / 2, 1), 0);
}

#[test]
fn rank_zero_is_drawn_most_often() {
    let n = 10;
    let mut counts = vec![0u64; n];
    let steps: u64 = 100_000;
    for i in 0..steps {
        let u = i * (RANK_DRAWS / steps);
        counts[rank_index(u, n)] += 1;
    }
    for k in 0..n - 1 {
        assert!(counts[k] > counts[k + 1], "rank {} drawn {} times, rank {} {}", k, counts[k], k + 1, counts[k + 1]);
    }
    assert!(counts[0] > counts[n - 1]);
}

#[test]
fn second_parent_differs_from_first() {
    assert_eq!(rank_index_except(0, 2, 0), 1);
    assert_eq!(rank_index_except(0, 2, 1), 0);
    for first in 0..5 {
        for i in 0..200u64 {
            let u = i * (RANK_DRAWS / 1000);
            assert_ne!(rank_index_except(u, 5, first), first);
        }
    }
}

#[test]
fn ranking_is_stable() {
    let scores = vec![3, 1, 3, 0, 1];
    assert_eq!(rank_population(&scores), vec![3, 1, 4, 0, 2]);
    assert_eq!(rank_population(&vec![]), Vec::<usize>::new());
}

#[test]
fn crossover_splits_at_cut() {
    let a = vec![gene(0, 0, "a0"), gene(1, 0, "a1"), gene(2, 0, "a2")];
    let b = vec![gene(0, 1, "b0"), gene(1, 1, "b1"), gene(2, 1, "b2")];
    let c = crossover(&a, &b, 2);
    assert_eq!(c, vec![a[0].clone(), a[1].clone(), b[2].clone()]);
    assert_eq!(crossover(&a, &b, 0), b);
}

#[test]
fn mutation_moves_one_gene() {
    let before = vec![gene(0, 0, "a"), gene(1, 0, "b")];
    let mut cells = before.clone();
    mutate_with(&mut cells, 10, 500, 1, Pos { x: 2, y: 2 }, CardSide::BOTTOM);
    assert_eq!(cells[0], before[0]);
    assert_eq!(cells[1].pos, Pos { x: 2, y: 2 });
    assert_eq!(cells[1].card_side, CardSide::BOTTOM);
    assert_eq!(cells[1].card.pic, "b");
    let mut kept = before.clone();
    mutate_with(&mut kept, 600, 500, 1, Pos { x: 2, y: 2 }, CardSide::BOTTOM);
    assert_eq!(kept, before);
}

#[test]
fn draws_map_to_sides() {
    assert_eq!(side_of_draw(0), CardSide::LEFT);
    assert_eq!(side_of_draw(1), CardSide::TOP);
    assert_eq!(side_of_draw(2), CardSide::RIGHT);
    assert_eq!(side_of_draw(3), CardSide::BOTTOM);
}

#[test]
fn standard_config() {
    let c = EvolutionConfig::standard();
    assert_eq!(c.population_size, 50);
    assert_eq!(c.width, 15);
    assert_eq!(c.height, 15);
    assert_eq!(c.mutation_per_mille, 500);
}

#[test]
fn initial_population_places_every_card_on_the_board() {
    let cards: Vec<Card> = (0..5).map(|i| blank_card(&format!("c{}", i))).collect();
    let config = small_config();
    let mut rng = StdRng::seed_from_u64(7);
    let population = initial_population(&cards, &config, &mut rng);
    assert_eq!(population.len(), 6);
    for alg in &population {
        assert_eq!(alg.cells.len(), 5);
        for (cell, card) in alg.cells.iter().zip(cards.iter()) {
            assert_eq!(&cell.card, card);
            assert!(cell.pos.x < 3 && cell.pos.y < 3);
        }
        let mut seen = std::collections::HashSet::new();
        for cell in &alg.arranged_cells {
            assert!(seen.insert((cell.pos.x, cell.pos.y)));
        }
    }
}

#[test]
fn generation_reports_the_best_score() {
    let cards: Vec<Card> = (0..4).map(|i| blank_card(&format!("c{}", i))).collect();
    let config = small_config();
    let mut rng = StdRng::seed_from_u64(11);
    let population = initial_population(&cards, &config, &mut rng);
    let scores: Vec<usize> = population.iter().map(evaluate_algorithm).collect();
    let (rated, next) = evolve_generation(&cards, &population, &config, &mut rng);
    assert_eq!(rated.score, *scores.iter().min().unwrap());
    let best = scores.iter().position(|s| *s == rated.score).unwrap();
    for x in 0..3 {
        for y in 0..3 {
            let expected = population[best].arranged_cells.iter().find(|c| c.pos == Pos { x, y });
            assert_eq!(rated.board.cells[x][y].as_ref(), expected);
        }
    }
    assert_eq!(next.len(), 6);
    for alg in &next {
        assert_eq!(alg.cells.len(), 4);
        for (cell, card) in alg.cells.iter().zip(cards.iter()) {
            assert_eq!(&cell.card, card);
        }
    }
    let again = next_generation(&cards, &next, &config, &mut rng);
    assert_eq!(again.len(), 6);
}

#[test]
fn search_joins_blank_tiles() {
    let cards: Vec<Card> = (0..3).map(|i| blank_card(&format!("c{}", i))).collect();
    let config = EvolutionConfig { population_size: 10, width: 3, height: 3, mutation_per_mille: 500 };
    let mut rng = StdRng::seed_from_u64(3);
    let mut population = initial_population(&cards, &config, &mut rng);
    let mut best = usize::MAX;
    for _ in 0..300 {
        let (rated, next) = evolve_generation(&cards, &population, &config, &mut rng);
        best = rated.score;
        if best == 0 {
            break;
        }
        population = next;
    }
    assert_eq!(best, 0);
}
