use vstd::prelude::*;
use vstd::set_lib::{lemma_int_range, set_int_range};
use vstd::arithmetic::div_mod::{lemma_fundamental_div_mod, lemma_mod_pos_bound};
use crate::algorithm::Algorithm;
use crate::carcassone::{board_score, capped, evaluate_algorithm, fill_board_on};
use crate::model::{
    all_within, cell_views, filled_view, side_index, Board, Card, CardSide, CardView, Cell,
    CellView, Pos,
};
use rand::rngs::StdRng;
use rand::Rng;

verus! {

/// Width and height of the default board.
pub const FIELD_SIZE: usize = 15;

/// Number of candidates in each generation, by default.
pub const POPULATION_SIZE: usize = 50;

/// Chance, in thousandths, that an offspring is mutated, by default.
pub const MUTATION_PER_MILLE: u64 = 500;

/// Number of equally likely draws behind one rank selection.
pub const RANK_DRAWS: u64 = 4294967296;

/// rand's `rngs::StdRng`, the seedable generator behind every random choice
/// of the search; its state stays opaque.
#[verifier::external_type_specification]
#[verifier::external_body]
pub struct ExStdRng(StdRng);

/// Relies on rand's `Rng::gen_range(low, high)`: a value in [low, high); it
/// panics when low >= high.
#[verifier::external_body]
fn random_below(rng: &mut StdRng, bound: u64) -> (r: u64)
    requires
        bound > 0,
    ensures
        r < bound,
{
    rng.gen_range(0, bound)
}

// ---------------------------------------------------------------- rank selection

/// The smallest draw that selects rank k or a later one among n ranks: the
/// least u with u / RANK_DRAWS >= 1 - (1 - k / n)^2, i.e. the ceiling of
/// RANK_DRAWS * k * (2n - k) / n^2.
pub open spec fn rank_threshold(k: int, n: int) -> int {
    (RANK_DRAWS * k * (2 * n - k) + n * n - 1) / (n * n)
}

/// The draws that select rank k among n ranks.
pub open spec fn rank_draws(n: int, k: int) -> Set<int> {
    Set::new(|u: int| 0 <= u < RANK_DRAWS && rank_threshold(k, n) <= u < rank_threshold(k + 1, n))
}

proof fn lemma_ceil_div(a: int, d: int)
    requires
        a >= 0,
        d > 0,
    ensures
        ((a + d - 1) / d) * d >= a,
        ((a + d - 1) / d) * d < a + d,
        (a + d - 1) / d >= 0,
{
    lemma_fundamental_div_mod(a + d - 1, d);
    lemma_mod_pos_bound(a + d - 1, d);
    let q = (a + d - 1) / d;
    assert(q * d == d * q) by (nonlinear_arith);
    assert(q >= 0) by (nonlinear_arith)
        requires
            d * q + (a + d - 1) % d == a + d - 1,
            0 <= (a + d - 1) % d < d,
            a >= 0,
            d > 0,
    ;
}

/// Facts on the thresholds: they start at 0, end at RANK_DRAWS, never fall,
/// and bracket the exact quotient.
proof fn lemma_threshold(k: int, n: int)
    requires
        1 <= n,
        0 <= k <= n,
    ensures
        rank_threshold(k, n) * (n * n) >= RANK_DRAWS * k * (2 * n - k),
        rank_threshold(k, n) * (n * n) < RANK_DRAWS * k * (2 * n - k) + n * n,
        0 <= rank_threshold(k, n) <= RANK_DRAWS,
        k == 0 ==> rank_threshold(k, n) == 0,
        k == n ==> rank_threshold(k, n) == RANK_DRAWS,
{
    let m = RANK_DRAWS as int;
    let d = n * n;
    let a = m * k * (2 * n - k);
    assert(d > 0) by (nonlinear_arith)
        requires
            n >= 1,
            d == n * n,
    ;
    assert(0 <= a <= m * d) by (nonlinear_arith)
        requires
            0 <= k <= n,
            m >= 0,
            a == m * k * (2 * n - k),
            d == n * n,
    ;
    lemma_ceil_div(a, d);
    let q = rank_threshold(k, n);
    assert(q <= m) by (nonlinear_arith)
        requires
            q * d < a + d,
            a <= m * d,
            d > 0,
    ;
    if k == 0 {
        assert(a == 0) by (nonlinear_arith)
            requires
                k == 0,
                a == m * k * (2 * n - k),
        ;
        assert(q == 0) by (nonlinear_arith)
            requires
                q * d < d,
                q >= 0,
                d > 0,
        ;
    }
    if k == n {
        assert(a == m * d) by (nonlinear_arith)
            requires
                k == n,
                a == m * k * (2 * n - k),
                d == n * n,
        ;
        assert(q >= m) by (nonlinear_arith)
            requires
                q * d >= m * d,
                d > 0,
        ;
    }
}

proof fn lemma_threshold_monotone(k: int, n: int)
    requires
        1 <= n,
        0 <= k < n,
    ensures
        rank_threshold(k, n) <= rank_threshold(k + 1, n),
{
    lemma_threshold(k, n);
    lemma_threshold(k + 1, n);
    let m = RANK_DRAWS as int;
    let d = n * n;
    let a0 = m * k * (2 * n - k);
    let a1 = m * (k + 1) * (2 * n - (k + 1));
    assert(a1 - a0 == m * (2 * n - 2 * k - 1)) by (nonlinear_arith)
        requires
            a0 == m * k * (2 * n - k),
            a1 == m * (k + 1) * (2 * n - (k + 1)),
    ;
    assert(a1 >= a0) by (nonlinear_arith)
        requires
            a1 - a0 == m * (2 * n - 2 * k - 1),
            k < n,
            m >= 0,
    ;
    let q0 = rank_threshold(k, n);
    let q1 = rank_threshold(k + 1, n);
    assert(q0 <= q1) by (nonlinear_arith)
        requires
            q1 * d >= a1,
            q0 * d < a0 + d,
            a1 >= a0,
            d > 0,
    ;
}

proof fn lemma_threshold_ordered(j: int, k: int, n: int)
    requires
        1 <= n,
        0 <= j <= k <= n,
    ensures
        rank_threshold(j, n) <= rank_threshold(k, n),
    decreases k - j,
{
    if j < k {
        lemma_threshold_monotone(j, n);
        lemma_threshold_ordered(j + 1, k, n);
    }
}

/// The draws that select rank k are those from its threshold to the next.
proof fn lemma_rank_draws(n: int, k: int)
    requires
        1 <= n,
        0 <= k < n,
    ensures
        rank_draws(n, k) == set_int_range(rank_threshold(k, n), rank_threshold(k + 1, n)),
        rank_draws(n, k).finite(),
        rank_draws(n, k).len() == rank_threshold(k + 1, n) - rank_threshold(k, n),
{
    lemma_threshold(k, n);
    lemma_threshold(k + 1, n);
    lemma_threshold_monotone(k, n);
    assert(rank_draws(n, k) =~= set_int_range(rank_threshold(k, n), rank_threshold(k + 1, n)));
    lemma_int_range(rank_threshold(k, n), rank_threshold(k + 1, n));
}

/// Rank selection favours the better ranks: over a population of n ranked
/// best first (with n * n no more than RANK_DRAWS), each rank is selected by
/// strictly more of the equally likely draws than the rank after it, so rank
/// 0 is the likeliest and rank n - 1 the least likely.
pub proof fn lemma_rank_bias(n: int, k: int)
    requires
        2 <= n,
        n * n <= RANK_DRAWS,
        0 <= k,
        k + 2 <= n,
    ensures
        rank_draws(n, k).finite(),
        rank_draws(n, k + 1).finite(),
        rank_draws(n, k).len() > rank_draws(n, k + 1).len(),
{
    lemma_rank_draws(n, k);
    lemma_rank_draws(n, k + 1);
    lemma_threshold(k, n);
    lemma_threshold(k + 1, n);
    lemma_threshold(k + 2, n);
    let m = RANK_DRAWS as int;
    let d = n * n;
    let a0 = m * k * (2 * n - k);
    let a1 = m * (k + 1) * (2 * n - (k + 1));
    let a2 = m * (k + 2) * (2 * n - (k + 2));
    assert(2 * a1 - a0 - a2 == 2 * m) by (nonlinear_arith)
        requires
            a0 == m * k * (2 * n - k),
            a1 == m * (k + 1) * (2 * n - (k + 1)),
            a2 == m * (k + 2) * (2 * n - (k + 2)),
    ;
    let t0 = rank_threshold(k, n);
    let t1 = rank_threshold(k + 1, n);
    let t2 = rank_threshold(k + 2, n);
    assert((2 * t1 - t0 - t2) * d > 2 * m - 2 * d) by (nonlinear_arith)
        requires
            t1 * d >= a1,
            t0 * d < a0 + d,
            t2 * d < a2 + d,
            2 * a1 - a0 - a2 == 2 * m,
    ;
    assert(2 * t1 - t0 - t2 > 0) by (nonlinear_arith)
        requires
            (2 * t1 - t0 - t2) * d > 2 * m - 2 * d,
            d <= m,
            d > 0,
    ;
}

/// rank_threshold(k, n), computed.
fn threshold(k: u64, n: u64) -> (r: u64)
    requires
        1 <= n <= 4294967296,
        k <= n,
    ensures
        r == rank_threshold(k as int, n as int),
{
    proof {
        lemma_threshold(k as int, n as int);
    }
    let m = RANK_DRAWS as u128;
    let k2 = k as u128;
    let n2 = n as u128;
    assert(k2 * (2 * n2 - k2) <= 2 * 4294967296u128 * 4294967296u128) by (nonlinear_arith)
        requires
            k2 <= n2,
            n2 <= 4294967296,
    ;
    assert(m * (k2 * (2 * n2 - k2)) <= 4294967296u128 * (2 * 4294967296u128 * 4294967296u128)) by (nonlinear_arith)
        requires
            m == 4294967296,
            k2 * (2 * n2 - k2) <= 2 * 4294967296u128 * 4294967296u128,
    ;
    assert(n2 * n2 <= 4294967296u128 * 4294967296u128) by (nonlinear_arith)
        requires
            n2 <= 4294967296,
    ;
    assert(n2 * n2 >= 1) by (nonlinear_arith)
        requires
            n2 >= 1,
    ;
    let a = m * (k2 * (2 * n2 - k2));
    assert(a == RANK_DRAWS * k * (2 * n - k)) by (nonlinear_arith)
        requires
            a == m * (k2 * (2 * n2 - k2)),
            m == RANK_DRAWS,
            k2 == k,
            n2 == n,
    ;
    let d = n2 * n2;
    let q = (a + d - 1) / d;
    q as u64
}

/// The rank that a draw u selects among n ranks: the largest k with
/// u / RANK_DRAWS >= 1 - (1 - k / n)^2, that is floor((1 - sqrt(1 - u / RANK_DRAWS)) * n).
pub fn rank_index(u: u64, n: usize) -> (r: usize)
    requires
        1 <= n <= 4294967296,
        u < RANK_DRAWS,
    ensures
        r < n,
        rank_threshold(r as int, n as int) <= u < rank_threshold(r + 1, n as int),
{
    proof {
        lemma_threshold(0, n as int);
        lemma_threshold(n as int, n as int);
    }
    let mut k: usize = 0;
    while k + 1 < n && threshold((k + 1) as u64, n as u64) <= u
        invariant
            1 <= n <= 4294967296,
            u < RANK_DRAWS,
            k < n,
            rank_threshold(k as int, n as int) <= u,
            rank_threshold(n as int, n as int) == RANK_DRAWS,
        decreases n - k,
    {
        k += 1;
    }
    k
}

/// A rank among n, drawn so that better ranks come more often.
fn select_index(rng: &mut StdRng, n: usize) -> (r: usize)
    requires
        1 <= n <= 4294967296,
    ensures
        r < n,
{
    let u = random_below(rng, RANK_DRAWS);
    rank_index(u, n)
}

/// The rank that a draw u selects among n ranks once rank `first` is left out:
/// u counts the draws of the other ranks only, so that every rank but `first`
/// keeps its share.
pub fn rank_index_except(u: u64, n: usize, first: usize) -> (r: usize)
    requires
        2 <= n <= 4294967296,
        first < n,
        u < RANK_DRAWS - (rank_threshold(first + 1, n as int) - rank_threshold(first as int, n as int)),
    ensures
        r < n,
        r != first,
        ({
            let skip = rank_threshold(first + 1, n as int) - rank_threshold(first as int, n as int);
            let v = if u < rank_threshold(first as int, n as int) { u as int } else { u + skip };
            rank_threshold(r as int, n as int) <= v < rank_threshold(r + 1, n as int)
        }),
{
    proof {
        lemma_threshold(first as int, n as int);
        lemma_threshold(first + 1, n as int);
        lemma_threshold_monotone(first as int, n as int);
    }
    let lo = threshold(first as u64, n as u64);
    let hi = threshold((first + 1) as u64, n as u64);
    let v = if u < lo {
        u
    } else {
        u + (hi - lo)
    };
    let r = rank_index(v, n);
    proof {
        if r == first {
            assert(lo <= v < hi);
        }
    }
    r
}

/// A rank among n other than `first`, drawn as `select_index` draws, with
/// draws that select `first` drawn again.
fn select_other_index(rng: &mut StdRng, n: usize, first: usize) -> (r: usize)
    requires
        2 <= n <= 65536,
        first < n,
    ensures
        r < n,
        r != first,
{
    proof {
        lemma_threshold(first as int, n as int);
        lemma_threshold(first + 1, n as int);
        lemma_threshold(1, n as int);
        lemma_threshold_monotone(first as int, n as int);
        let m = RANK_DRAWS as int;
        let d = n * n;
        assert(d <= m) by (nonlinear_arith)
            requires
                n <= 65536,
                d == n * n,
                m == 4294967296,
        ;
        // the first rank leaves room for the others, and any later rank
        // leaves the first rank's draws
        if first == 0 {
            let a1 = m * 1 * (2 * n - 1);
            let t1 = rank_threshold(1, n as int);
            assert(t1 < m) by (nonlinear_arith)
                requires
                    t1 * d < a1 + d,
                    a1 == m * 1 * (2 * n - 1),
                    d == n * n,
                    d <= m,
                    n >= 2,
            ;
        } else {
            lemma_threshold_ordered(1, first as int, n as int);
            let a1 = m * 1 * (2 * n - 1);
            let t1 = rank_threshold(1, n as int);
            assert(a1 > 0) by (nonlinear_arith)
                requires
                    a1 == m * 1 * (2 * n - 1),
                    n >= 2,
                    m > 0,
            ;
            assert(d > 0) by (nonlinear_arith)
                requires
                    d == n * n,
                    n >= 2,
            ;
            assert(t1 > 0) by (nonlinear_arith)
                requires
                    t1 * d >= a1,
                    a1 > 0,
                    d > 0,
            ;
        }
    }
    let lo = threshold(first as u64, n as u64);
    let hi = threshold((first + 1) as u64, n as u64);
    let u = random_below(rng, RANK_DRAWS - (hi - lo));
    rank_index_except(u, n, first)
}

// ---------------------------------------------------------------- the search

/// Settings of a search.
pub struct EvolutionConfig {
    pub population_size: usize,
    pub width: usize,
    pub height: usize,
    /// Chance, in thousandths, that an offspring is mutated.
    pub mutation_per_mille: u64,
}

impl EvolutionConfig {
    pub open spec fn wf(&self) -> bool {
        &&& 2 <= self.population_size <= 65536
        &&& self.width >= 1
        &&& self.height >= 1
        &&& self.width * self.height <= usize::MAX / 16
        &&& self.mutation_per_mille <= 1000
    }

    /// The settings used by default.
    pub fn standard() -> (r: EvolutionConfig)
        ensures
            r.wf(),
            r.population_size == POPULATION_SIZE,
            r.width == FIELD_SIZE,
            r.height == FIELD_SIZE,
            r.mutation_per_mille == MUTATION_PER_MILLE,
    {
        EvolutionConfig {
            population_size: POPULATION_SIZE,
            width: FIELD_SIZE,
            height: FIELD_SIZE,
            mutation_per_mille: MUTATION_PER_MILLE,
        }
    }
}

/// An empty board of the default size.
pub fn create_empty_board() -> (r: Board)
    ensures
        r@ == filled_view(FIELD_SIZE as int, FIELD_SIZE as int, Seq::empty()),
        r@.wf(),
{
    Board::new(FIELD_SIZE, FIELD_SIZE)
}

/// The best score of a generation and the board of its best candidate.
pub struct RatedBoard {
    pub score: usize,
    pub board: Board,
}

pub open spec fn card_views(cards: Seq<Card>) -> Seq<CardView> {
    cards.map_values(|c: Card| c@)
}

/// `alg` is a candidate for the catalogue `cards` under `config`: one gene per
/// card, in catalogue order, resolved on the configured board.
pub open spec fn fits(alg: Algorithm, cards: Seq<CardView>, config: EvolutionConfig) -> bool {
    &&& alg.wf()
    &&& alg.width == config.width
    &&& alg.height == config.height
    &&& alg.cells@.len() == cards.len()
    &&& forall|i: int| 0 <= i < cards.len() ==> (#[trigger] alg.cells@[i])@.card == cards[i]
}

/// `a` and `b` agree everywhere except perhaps at index m.
pub open spec fn same_except(a: Seq<CellView>, b: Seq<CellView>, m: int) -> bool {
    &&& a.len() == b.len()
    &&& forall|i: int| 0 <= i < a.len() && i != m ==> #[trigger] a[i] == b[i]
}

/// Single-point crossover of two genomes: the genes before `cut` from the
/// first, the others from the second.
pub open spec fn crossed_at(first: Seq<CellView>, second: Seq<CellView>, cut: int) -> Seq<CellView> {
    Seq::new(first.len(), |i: int| if i < cut { first[i] } else { second[i] })
}

/// The side that a draw in 0 .. 4 stands for.
pub fn side_of_draw(d: u64) -> (r: CardSide)
    requires
        d < 4,
    ensures
        side_index(r) == d,
{
    if d == 0 {
        CardSide::LEFT
    } else if d == 1 {
        CardSide::TOP
    } else if d == 2 {
        CardSide::RIGHT
    } else {
        CardSide::BOTTOM
    }
}

fn random_side(rng: &mut StdRng) -> CardSide {
    let d = random_below(rng, 4);
    side_of_draw(d)
}

fn random_pos(rng: &mut StdRng, width: usize, height: usize) -> (r: Pos)
    requires
        width >= 1,
        height >= 1,
    ensures
        r.x < width,
        r.y < height,
{
    let x = random_below(rng, width as u64);
    let y = random_below(rng, height as u64);
    Pos { x: x as usize, y: y as usize }
}

/// A random candidate: each card at a random place with a random orientation.
fn generate_algorithm(cards: &Vec<Card>, config: &EvolutionConfig, rng: &mut StdRng) -> (r: Algorithm)
    requires
        config.wf(),
        cards@.len() <= config.width * config.height,
    ensures
        fits(r, card_views(cards@), *config),
{
    let mut cells: Vec<Cell> = Vec::new();
    for card_id in 0..cards.len()
        invariant
            config.wf(),
            cells@.len() == card_id,
            all_within(cell_views(cells@), config.width as int, config.height as int),
            forall|i: int| 0 <= i < card_id ==> (#[trigger] cells@[i])@.card == cards@[i]@,
    {
        let pos = random_pos(rng, config.width, config.height);
        let card_side = random_side(rng);
        let cell = Cell { pos, card: cards[card_id].clone(), card_side };
        let ghost before = cells@;
        cells.push(cell);
        proof {
            assert forall|i: int| 0 <= i < cells@.len() implies (#[trigger] cell_views(cells@)[i]).pos.x < config.width
                && cell_views(cells@)[i].pos.y < config.height by {
                assert(cell_views(cells@)[i] == cells@[i]@);
                if i < card_id {
                    assert(cells@[i] == before[i]);
                    assert(cell_views(before)[i] == before[i]@);
                } else {
                    assert(cells@[i]@.pos == pos);
                }
            }
            assert forall|i: int| 0 <= i < card_id + 1 implies (#[trigger] cells@[i])@.card == cards@[i]@ by {
                if i < card_id {
                    assert(cells@[i] == before[i]);
                }
            }
        }
    }
    let r = Algorithm::new_on(cells, config.width, config.height);
    proof {
        assert forall|i: int| 0 <= i < cards@.len() implies (#[trigger] r.cells@[i])@.card == card_views(cards@)[i] by {}
    }
    r
}

/// Single-point crossover: the genes before `cut` from `first`, the rest from `second`.
pub fn crossover(first: &Vec<Cell>, second: &Vec<Cell>, cut: usize) -> (r: Vec<Cell>)
    requires
        first@.len() == second@.len(),
        cut <= first@.len(),
    ensures
        r@.len() == first@.len(),
        forall|i: int| 0 <= i < r@.len() ==> (#[trigger] r@[i])@ == if i < cut { first@[i]@ } else { second@[i]@ },
{
    let mut r: Vec<Cell> = Vec::new();
    for i in 0..first.len()
        invariant
            first@.len() == second@.len(),
            cut <= first@.len(),
            r@.len() == i,
            forall|j: int| 0 <= j < i ==> (#[trigger] r@[j])@ == if j < cut { first@[j]@ } else { second@[j]@ },
    {
        if i < cut {
            r.push(first[i].clone());
        } else {
            r.push(second[i].clone());
        }
    }
    r
}

/// Mutation with its random values given: when `draw` falls below
/// `mutation_per_mille`, gene `index` moves to `pos` and turns to `side`,
/// keeping its card; otherwise nothing changes.
pub fn mutate_with(cells: &mut Vec<Cell>, draw: u64, mutation_per_mille: u64, index: usize, pos: Pos, side: CardSide)
    requires
        index < old(cells)@.len(),
    ensures
        final(cells)@.len() == old(cells)@.len(),
        forall|i: int|
            0 <= i < final(cells)@.len() ==> (#[trigger] final(cells)@[i])@ == if draw < mutation_per_mille && i == index {
                CellView { pos, card: old(cells)@[i]@.card, card_side: side }
            } else {
                old(cells)@[i]@
            },
{
    if draw < mutation_per_mille {
        let card = cells[index].card.clone();
        cells.set(index, Cell { pos, card, card_side: side });
    }
}

/// With the configured chance, moves one random gene to a random place and
/// orientation.
fn mutate(rng: &mut StdRng, cells: &mut Vec<Cell>, config: &EvolutionConfig)
    requires
        config.wf(),
        old(cells)@.len() >= 1,
        all_within(cell_views(old(cells)@), config.width as int, config.height as int),
    ensures
        final(cells)@.len() == old(cells)@.len(),
        all_within(cell_views(final(cells)@), config.width as int, config.height as int),
        forall|i: int| 0 <= i < final(cells)@.len() ==> (#[trigger] final(cells)@[i])@.card == old(cells)@[i]@.card,
        exists|m: int| #[trigger] same_except(cell_views(final(cells)@), cell_views(old(cells)@), m),
{
    let draw = random_below(rng, 1000);
    if draw < config.mutation_per_mille {
        let index = random_below(rng, cells.len() as u64) as usize;
        let pos = random_pos(rng, config.width, config.height);
        let side = random_side(rng);
        let ghost before = cells@;
        mutate_with(cells, draw, config.mutation_per_mille, index, pos, side);
        proof {
            assert(same_except(cell_views(cells@), cell_views(before), index as int));
            assert forall|i: int| 0 <= i < cells@.len() implies (#[trigger] cell_views(cells@)[i]).pos.x < config.width
                && cell_views(cells@)[i].pos.y < config.height by {
                assert(cell_views(before)[i] == before[i]@);
                assert(cell_views(cells@)[i] == cells@[i]@);
                assert(before[i]@.pos.x < config.width && before[i]@.pos.y < config.height);
                if i != index {
                    assert(cells@[i]@ == before[i]@);
                } else {
                    assert(cells@[i]@.pos == pos);
                }
            }
        }
    } else {
        assert(same_except(cell_views(cells@), cell_views(cells@), 0));
    }
}

/// An offspring of two candidates: crossover at a random cut, then mutation.
fn breed(cards: &Vec<Card>, algorithm1: &Algorithm, algorithm2: &Algorithm, config: &EvolutionConfig, rng: &mut StdRng) -> (r: Algorithm)
    requires
        config.wf(),
        cards@.len() >= 1,
        fits(*algorithm1, card_views(cards@), *config),
        fits(*algorithm2, card_views(cards@), *config),
    ensures
        fits(r, card_views(cards@), *config),
        exists|cut: int, m: int|
            0 <= cut < cards@.len() && #[trigger] same_except(
                cell_views(r.cells@),
                crossed_at(cell_views(algorithm1.cells@), cell_views(algorithm2.cells@), cut),
                m,
            ),
{
    let index = random_below(rng, cards.len() as u64) as usize;
    let mut cells = crossover(&algorithm1.cells, &algorithm2.cells, index);
    proof {
        assert forall|i: int| 0 <= i < cells@.len() implies (#[trigger] cell_views(cells@)[i]).pos.x < config.width
            && cell_views(cells@)[i].pos.y < config.height by {
            assert(cell_views(cells@)[i] == cells@[i]@);
            assert(cell_views(algorithm1.cells@)[i] == algorithm1.cells@[i]@);
            assert(cell_views(algorithm2.cells@)[i] == algorithm2.cells@[i]@);
        }
    }
    let ghost crossed = cells@;
    mutate(rng, &mut cells, config);
    let r = Algorithm::new_on(cells, config.width, config.height);
    proof {
        assert forall|i: int| 0 <= i < cards@.len() implies (#[trigger] r.cells@[i])@.card == card_views(cards@)[i] by {
            assert(crossed[i]@.card == card_views(cards@)[i]);
        }
        let m = choose|m: int| #[trigger] same_except(cell_views(r.cells@), cell_views(crossed), m);
        let target = crossed_at(cell_views(algorithm1.cells@), cell_views(algorithm2.cells@), index as int);
        assert(cell_views(crossed) =~= target);
        assert(same_except(cell_views(r.cells@), target, m));
    }
    r
}

/// The next generation: each offspring bred from two distinct parents drawn
/// by rank from `rated_algorithms`, which is ranked best first.
pub fn next_generation(cards: &Vec<Card>, rated_algorithms: &Vec<Algorithm>, config: &EvolutionConfig, rng: &mut StdRng) -> (r: Vec<Algorithm>)
    requires
        config.wf(),
        cards@.len() >= 1,
        rated_algorithms@.len() == config.population_size,
        forall|i: int| 0 <= i < rated_algorithms@.len() ==> fits(#[trigger] rated_algorithms@[i], card_views(cards@), *config),
    ensures
        r@.len() == config.population_size,
        forall|i: int| 0 <= i < r@.len() ==> fits(#[trigger] r@[i], card_views(cards@), *config),
{
    let n = config.population_size;
    let mut result: Vec<Algorithm> = Vec::new();
    for k in 0..n
        invariant
            config.wf(),
            n == config.population_size,
            cards@.len() >= 1,
            rated_algorithms@.len() == n,
            forall|i: int| 0 <= i < rated_algorithms@.len() ==> fits(#[trigger] rated_algorithms@[i], card_views(cards@), *config),
            result@.len() == k,
            forall|i: int| 0 <= i < result@.len() ==> fits(#[trigger] result@[i], card_views(cards@), *config),
    {
        let index1 = select_index(rng, n);
        let index2 = select_other_index(rng, n, index1);
        let child = breed(cards, &rated_algorithms[index1], &rated_algorithms[index2], config, rng);
        result.push(child);
    }
    result
}

/// `a` ranks before `b` by score, ties kept in index order.
pub open spec fn ranks_before(scores: Seq<usize>, a: usize, b: usize) -> bool {
    scores[a as int] < scores[b as int] || (scores[a as int] == scores[b as int] && a < b)
}

/// The indices of `scores` ordered by ascending score; equal scores keep their order.
pub fn rank_population(scores: &Vec<usize>) -> (r: Vec<usize>)
    ensures
        r@.len() == scores@.len(),
        forall|k: int| 0 <= k < r@.len() ==> #[trigger] r@[k] < scores@.len(),
        forall|k: int, j: int| 0 <= k < j < r@.len() ==> ranks_before(scores@, #[trigger] r@[k], #[trigger] r@[j]),
        forall|v: usize| v < scores@.len() ==> #[trigger] r@.contains(v),
{
    let n = scores.len();
    let mut used: Vec<bool> = Vec::new();
    for i in 0..n
        invariant
            used@.len() == i,
            forall|j: int| 0 <= j < i ==> !used@[j],
    {
        used.push(false);
    }
    let mut r: Vec<usize> = Vec::new();
    for k in 0..n
        invariant
            n == scores@.len(),
            used@.len() == n,
            r@.len() == k,
            forall|t: int| 0 <= t < r@.len() ==> #[trigger] r@[t] < n,
            forall|t: int| 0 <= t < r@.len() ==> used@[#[trigger] r@[t] as int],
            forall|v: usize| v < n && used@[v as int] ==> r@.contains(v),
            forall|t: int, j: int| 0 <= t < j < r@.len() ==> ranks_before(scores@, #[trigger] r@[t], #[trigger] r@[j]),
            forall|t: int, v: usize| 0 <= t < r@.len() && v < n && !used@[v as int] ==> #[trigger] ranks_before(scores@, r@[t], v),
    {
        // the unused index that ranks first
        let mut best: usize = n;
        for v in 0..n
            invariant
                n == scores@.len(),
                used@.len() == n,
                best == n || (best < v && !used@[best as int]),
                forall|w: usize| w < v && !used@[w as int] ==> best < n && (w == best || ranks_before(scores@, best, w)),
                r@.len() < n,
                forall|t: int| 0 <= t < r@.len() ==> #[trigger] r@[t] < n,
                forall|t: int| 0 <= t < r@.len() ==> used@[#[trigger] r@[t] as int],
                forall|v: usize| v < n && used@[v as int] ==> r@.contains(v),
                k == r@.len(),
        {
            if !used[v] {
                if best == n || scores[v] < scores[best] {
                    best = v;
                }
            }
        }
        proof {
            // fewer than n indices are used, so an unused one exists
            lemma_some_unused(r@, n);
            let w = choose|w: usize| w < n && !r@.contains(w);
            assert(!used@[w as int]);
        }
        let ghost before = r@;
        used.set(best, true);
        r.push(best);
        proof {
            assert forall|v: usize| v < n && used@[v as int] implies r@.contains(v) by {
                if v == best {
                    assert(r@[k as int] == best);
                } else {
                    assert(before.contains(v));
                    let t = choose|t: int| 0 <= t < before.len() && before[t] == v;
                    assert(r@[t] == v);
                }
            }
            assert forall|t: int| 0 <= t < r@.len() implies used@[#[trigger] r@[t] as int] by {
                if t < k {
                    assert(r@[t] == before[t]);
                }
            }
            assert forall|t: int, j: int| 0 <= t < j < r@.len() implies ranks_before(scores@, #[trigger] r@[t], #[trigger] r@[j]) by {
                if j == k {
                    assert(r@[t] == before[t]);
                } else {
                    assert(r@[t] == before[t] && r@[j] == before[j]);
                }
            }
            assert forall|t: int, v: usize| 0 <= t < r@.len() && v < n && !used@[v as int] implies #[trigger] ranks_before(scores@, r@[t], v) by {
                if t < k {
                    assert(r@[t] == before[t]);
                }
            }
        }
    }
    proof {
        assert forall|t: int, j: int| 0 <= t < r@.len() && 0 <= j < r@.len() && t != j implies r@[t] != r@[j] by {
            if t < j {
                assert(ranks_before(scores@, r@[t], r@[j]));
            } else {
                assert(ranks_before(scores@, r@[j], r@[t]));
            }
        }
        lemma_distinct_full(r@, n);
    }
    r
}

/// n distinct entries below n hold every index below n.
proof fn lemma_distinct_full(r: Seq<usize>, n: usize)
    requires
        r.len() == n,
        forall|t: int| 0 <= t < r.len() ==> #[trigger] r[t] < n,
        r.no_duplicates(),
    ensures
        forall|v: usize| v < n ==> #[trigger] r.contains(v),
{
    assert forall|v: usize| v < n implies #[trigger] r.contains(v) by {
        if !r.contains(v) {
            let rest = Set::new(|w: usize| w < n && w != v);
            lemma_usize_range_len(n);
            assert(rest =~= Set::new(|w: usize| w < n).remove(v));
            assert(r.to_set().subset_of(rest)) by {
                assert forall|w: usize| r.to_set().contains(w) implies rest.contains(w) by {
                    let t = choose|t: int| 0 <= t < r.len() && r[t] == w;
                }
            }
            r.unique_seq_to_set();
            vstd::set_lib::lemma_len_subset(r.to_set(), rest);
        }
    }
}

/// Fewer than n entries leave some index below n out.
proof fn lemma_some_unused(r: Seq<usize>, n: usize)
    requires
        r.len() < n,
    ensures
        exists|v: usize| v < n && !r.contains(v),
{
    if forall|v: usize| v < n ==> r.contains(v) {
        let s = Set::new(|v: usize| v < n);
        let img = r.to_set();
        assert(s.subset_of(img)) by {
            assert forall|v: usize| s.contains(v) implies img.contains(v) by {
                assert(r.contains(v));
            }
        }
        r.lemma_cardinality_of_set();
        lemma_usize_range_len(n);
        vstd::set_lib::lemma_len_subset(s, img);
    }
}

proof fn lemma_usize_range_len(n: usize)
    ensures
        Set::new(|v: usize| v < n).finite(),
        Set::new(|v: usize| v < n).len() == n,
    decreases n,
{
    if n == 0 {
        assert(Set::new(|v: usize| v < n) =~= Set::empty());
    } else {
        let m = (n - 1) as usize;
        lemma_usize_range_len(m);
        assert(Set::new(|v: usize| v < n) =~= Set::new(|v: usize| v < m).insert(m));
    }
}

impl Clone for Algorithm {
    fn clone(&self) -> (r: Self)
        ensures
            cell_views(r.cells@) == cell_views(self.cells@),
            cell_views(r.arranged_cells@) == cell_views(self.arranged_cells@),
            r.width == self.width,
            r.height == self.height,
    {
        let cells = self.cells.clone();
        let arranged_cells = self.arranged_cells.clone();
        proof {
            assert forall|i: int| 0 <= i < cells@.len() implies cells@[i]@ == self.cells@[i]@ by {
                assert(cloned::<Cell>(self.cells[i], cells[i]));
            }
            assert forall|i: int| 0 <= i < arranged_cells@.len() implies arranged_cells@[i]@
                == self.arranged_cells@[i]@ by {
                assert(cloned::<Cell>(self.arranged_cells[i], arranged_cells[i]));
            }
            assert(cell_views(cells@) =~= cell_views(self.cells@));
            assert(cell_views(arranged_cells@) =~= cell_views(self.arranged_cells@));
        }
        Algorithm { cells, arranged_cells, width: self.width, height: self.height }
    }
}

/// The score of a candidate, as `evaluate_algorithm` computes it.
pub open spec fn score_of(alg: Algorithm) -> int {
    capped(board_score(filled_view(alg.width as int, alg.height as int, cell_views(alg.arranged_cells@))))
}

/// A first generation of random candidates.
pub fn initial_population(cards: &Vec<Card>, config: &EvolutionConfig, rng: &mut StdRng) -> (r: Vec<Algorithm>)
    requires
        config.wf(),
        cards@.len() <= config.width * config.height,
    ensures
        r@.len() == config.population_size,
        forall|i: int| 0 <= i < r@.len() ==> fits(#[trigger] r@[i], card_views(cards@), *config),
{
    let mut population: Vec<Algorithm> = Vec::new();
    for k in 0..config.population_size
        invariant
            config.wf(),
            cards@.len() <= config.width * config.height,
            population@.len() == k,
            forall|i: int| 0 <= i < population@.len() ==> fits(#[trigger] population@[i], card_views(cards@), *config),
    {
        population.push(generate_algorithm(cards, config, rng));
    }
    population
}

/// One generation: scores every candidate, ranks them best first (equal
/// scores keep their order), reports the best score with the best board, and
/// breeds the next generation from the ranking.
pub fn evolve_generation(cards: &Vec<Card>, population: &Vec<Algorithm>, config: &EvolutionConfig, rng: &mut StdRng) -> (r: (RatedBoard, Vec<Algorithm>))
    requires
        config.wf(),
        1 <= cards@.len() <= config.width * config.height,
        population@.len() == config.population_size,
        forall|i: int| 0 <= i < population@.len() ==> fits(#[trigger] population@[i], card_views(cards@), *config),
    ensures
        exists|best: int| {
            &&& 0 <= best < population@.len()
            &&& r.0.score == score_of(population@[best])
            &&& r.0.board@ == filled_view(config.width as int, config.height as int, cell_views(population@[best].arranged_cells@))
            &&& forall|j: int| 0 <= j < population@.len() ==> r.0.score <= #[trigger] score_of(population@[j])
            &&& forall|j: int| 0 <= j < best ==> r.0.score < #[trigger] score_of(population@[j])
        },
        r.1@.len() == config.population_size,
        forall|i: int| 0 <= i < r.1@.len() ==> fits(#[trigger] r.1@[i], card_views(cards@), *config),
{
    let n = population.len();
    let mut scores: Vec<usize> = Vec::new();
    for i in 0..n
        invariant
            n == population@.len(),
            config.wf(),
            1 <= cards@.len(),
            forall|i: int| 0 <= i < population@.len() ==> fits(#[trigger] population@[i], card_views(cards@), *config),
            scores@.len() == i,
            forall|j: int| 0 <= j < i ==> scores@[j] == #[trigger] score_of(population@[j]),
    {
        assert(fits(population@[i as int], card_views(cards@), *config));
        scores.push(evaluate_algorithm(&population[i]));
    }
    let order = rank_population(&scores);
    let mut ranked: Vec<Algorithm> = Vec::new();
    for k in 0..n
        invariant
            n == population@.len(),
            n == config.population_size,
            order@.len() == n,
            forall|t: int| 0 <= t < order@.len() ==> #[trigger] order@[t] < n,
            forall|i: int| 0 <= i < population@.len() ==> fits(#[trigger] population@[i], card_views(cards@), *config),
            ranked@.len() == k,
            forall|i: int| 0 <= i < ranked@.len() ==> fits(#[trigger] ranked@[i], card_views(cards@), *config),
    {
        let a = population[order[k]].clone();
        proof {
            let src = population@[order@[k as int] as int];
            assert(fits(src, card_views(cards@), *config));
            assert forall|i: int| 0 <= i < cards@.len() implies (#[trigger] a.cells@[i])@.card == card_views(cards@)[i] by {
                assert(cell_views(a.cells@)[i] == a.cells@[i]@);
                assert(cell_views(src.cells@)[i] == src.cells@[i]@);
            }
        }
        ranked.push(a);
    }
    let best = order[0];
    let board = fill_board_on(config.width, config.height, &population[best].arranged_cells);
    let next = next_generation(cards, &ranked, config, rng);
    proof {
        let b = best as int;
        assert forall|j: int| 0 <= j < population@.len() implies scores@[b] <= #[trigger] score_of(population@[j]) by {
            let ju = j as usize;
            assert(order@.contains(ju));
            let t = choose|t: int| 0 <= t < order@.len() && order@[t] == ju;
            if t > 0 {
                assert(ranks_before(scores@, order@[0], order@[t]));
            }
            assert(scores@[j] == score_of(population@[j]));
        }
        assert forall|j: int| 0 <= j < b implies scores@[b] < #[trigger] score_of(population@[j]) by {
            let ju = j as usize;
            assert(order@.contains(ju));
            let t = choose|t: int| 0 <= t < order@.len() && order@[t] == ju;
            if t > 0 {
                assert(ranks_before(scores@, order@[0], order@[t]));
            }
            assert(scores@[j] == score_of(population@[j]));
        }
        assert(scores@[b] == score_of(population@[b]));
    }
    (RatedBoard { score: scores[best], board }, next)
}

} // verus!
