use vstd::prelude::*;
use crate::flood::{
    all_connected, cluster_count, flood_clusters, in_first, lemma_cluster_count,
    lemma_one_cluster_iff_connected, valid_clustering, vec_views,
};
use crate::algorithm::Algorithm;
use crate::evolution::FIELD_SIZE;
use crate::model::{
    all_within, bottom_side, cell_terrain, cell_views, filled_view, first_claim, geom_side,
    last_at, left_side, lemma_first_claim_prefix, lemma_local_geom_inverse, local_side,
    opposite_side, opt_view, place_terrain, right_side, top_side, Board, BoardView, CardSide,
    Cell, CellView, Pos, TerrainType,
};

verus! {

// ---------------------------------------------------------------- sums

/// f(x, 0) + ... + f(x, n - 1)
pub open spec fn sum_col(f: spec_fn(int, int) -> nat, x: int, n: int) -> nat
    decreases n,
{
    if n <= 0 {
        0
    } else {
        sum_col(f, x, n - 1) + f(x, n - 1)
    }
}

/// The sum of f over the columns 0 .. m of a grid of height h.
pub open spec fn sum_grid(f: spec_fn(int, int) -> nat, m: int, h: int) -> nat
    decreases m,
{
    if m <= 0 {
        0
    } else {
        sum_grid(f, m - 1, h) + sum_col(f, m - 1, h)
    }
}

/// f(0) + ... + f(n - 1)
pub open spec fn sum_line(f: spec_fn(int) -> nat, n: int) -> nat
    decreases n,
{
    if n <= 0 {
        0
    } else {
        sum_line(f, n - 1) + f(n - 1)
    }
}

proof fn lemma_sum_col_bound(f: spec_fn(int, int) -> nat, x: int, n: int, k: nat)
    requires
        n >= 0,
        forall|a: int, b: int| #[trigger] f(a, b) <= k,
    ensures
        sum_col(f, x, n) <= k * n,
    decreases n,
{
    if n > 0 {
        lemma_sum_col_bound(f, x, n - 1, k);
        assert(k * (n - 1) + k == k * n) by (nonlinear_arith);
    }
}

proof fn lemma_sum_grid_bound(f: spec_fn(int, int) -> nat, m: int, h: int, k: nat)
    requires
        m >= 0,
        h >= 0,
        forall|a: int, b: int| #[trigger] f(a, b) <= k,
    ensures
        sum_grid(f, m, h) <= k * (m * h),
    decreases m,
{
    if m > 0 {
        lemma_sum_grid_bound(f, m - 1, h, k);
        lemma_sum_col_bound(f, m - 1, h, k);
        assert(k * ((m - 1) * h) + k * h == k * (m * h)) by (nonlinear_arith);
    }
}

/// Where the loops over a grid stand: all of the columns before x, and the
/// places before y in column x, are no more than the whole grid.
proof fn lemma_progress_bound(x: int, y: int, w: int, h: int)
    requires
        0 <= x < w,
        0 <= y < h,
    ensures
        x * h + y + 1 <= w * h,
{
    assert(x * h + h <= w * h) by (nonlinear_arith)
        requires
            x < w,
            h >= 0,
    ;
}

proof fn lemma_partial_bound(f: spec_fn(int, int) -> nat, x: int, y: int, w: int, h: int, k: nat)
    requires
        0 <= x < w,
        0 <= y < h,
        forall|a: int, b: int| #[trigger] f(a, b) <= k,
    ensures
        sum_grid(f, x, h) + sum_col(f, x, y) + k <= k * (w * h),
{
    lemma_sum_grid_bound(f, x, h, k);
    lemma_sum_col_bound(f, x, y, k);
    lemma_progress_bound(x, y, w, h);
    assert(k * (x * h) + k * y + k <= k * (w * h)) by (nonlinear_arith)
        requires
            x * h + y + 1 <= w * h,
    ;
}

// ---------------------------------------------------------------- board

/// The board of the given size holding `cells`; a later placement at a
/// position replaces an earlier one.
pub fn fill_board_on(width: usize, height: usize, cells: &Vec<Cell>) -> (r: Board)
    requires
        width >= 1,
        height >= 1,
        width * height <= usize::MAX / 16,
        all_within(cell_views(cells@), width as int, height as int),
    ensures
        r@ == filled_view(width as int, height as int, cell_views(cells@)),
        r@.wf(),
{
    let mut board = Board::new(width, height);
    let ghost cv = cell_views(cells@);
    for i in 0..cells.len()
        invariant
            cv == cell_views(cells@),
            all_within(cv, width as int, height as int),
            board@.wf(),
            board@.width == width,
            board@.height == height,
            forall|x: int, y: int|
                #[trigger] board@.at(x, y) == filled_view(
                    width as int,
                    height as int,
                    cv.subrange(0, i as int),
                ).at(x, y),
    {
        let cell = cells[i].clone();
        assert(cv[i as int] == cells@[i as int]@);
        let ghost before = board@;
        board.place(cell);
        proof {
            let pre = cv.subrange(0, i + 1);
            assert(pre.drop_last() =~= cv.subrange(0, i as int));
            assert(pre.last() == cv[i as int]);
            assert forall|x: int, y: int|
                #[trigger] board@.at(x, y) == filled_view(width as int, height as int, pre).at(x, y) by {
                assert(before.at(x, y) == filled_view(
                    width as int,
                    height as int,
                    cv.subrange(0, i as int),
                ).at(x, y));
            }
        }
    }
    proof {
        assert(cv.subrange(0, cv.len() as int) =~= cv);
        lemma_view_from_at(board@, filled_view(width as int, height as int, cv));
    }
    board
}

/// Two boards of one shape that hold the same at every place are equal.
pub proof fn lemma_view_from_at(a: BoardView, b: BoardView)
    requires
        a.width == b.width,
        a.height == b.height,
        a.cells.len() == a.width,
        b.cells.len() == b.width,
        forall|x: int| 0 <= x < a.width ==> #[trigger] a.cells[x].len() == a.height,
        forall|x: int| 0 <= x < b.width ==> #[trigger] b.cells[x].len() == b.height,
        forall|x: int, y: int| #[trigger] a.at(x, y) == b.at(x, y),
    ensures
        a == b,
{
    assert forall|x: int| 0 <= x < a.width implies #[trigger] a.cells[x] == b.cells[x] by {
        assert forall|y: int| 0 <= y < a.height implies #[trigger] a.cells[x][y] == b.cells[x][y] by {
            assert(a.at(x, y) == b.at(x, y));
        }
        assert(a.cells[x] =~= b.cells[x]);
    }
    assert(a.cells =~= b.cells);
}

/// What stands at (x, y) of `board`, as seen through its view.
fn cell_at(board: &Board, x: usize, y: usize) -> (r: &Option<Cell>)
    requires
        board@.wf(),
        x < board@.width,
        y < board@.height,
    ensures
        opt_view(*r) == board@.at(x as int, y as int),
{
    assert(board.cells@[x as int]@.len() == board@.cells[x as int].len());
    &board.cells[x][y]
}

// ---------------------------------------------------------------- edges

/// 1 where the tiles at (x, y) and (x + 1, y) both stand and their facing sides differ.
pub open spec fn h_mismatch(b: BoardView) -> spec_fn(int, int) -> nat {
    |x: int, y: int|
        if b.occupied(x, y) && b.occupied(x + 1, y) && place_terrain(b.at(x, y), CardSide::RIGHT)
            != place_terrain(b.at(x + 1, y), CardSide::LEFT) {
            1nat
        } else {
            0nat
        }
}

/// 1 where the tiles at (x, y) and (x, y + 1) both stand and their facing sides differ.
pub open spec fn v_mismatch(b: BoardView) -> spec_fn(int, int) -> nat {
    |x: int, y: int|
        if b.occupied(x, y) && b.occupied(x, y + 1) && place_terrain(b.at(x, y), CardSide::BOTTOM)
            != place_terrain(b.at(x, y + 1), CardSide::TOP) {
            1nat
        } else {
            0nat
        }
}

/// Adjacent pairs of tiles whose facing sides show different terrain, each pair once.
pub open spec fn mismatch_count(b: BoardView) -> nat {
    sum_grid(h_mismatch(b), b.width, b.height) + sum_grid(v_mismatch(b), b.width, b.height)
}

/// Counts over the grid the places where `horizontal` (else: vertical)
/// neighbours are both present and show different terrain on their facing sides.
fn count_mismatch_pass(board: &Board, horizontal: bool) -> (r: usize)
    requires
        board@.wf(),
    ensures
        r == sum_grid(
            if horizontal {
                h_mismatch(board@)
            } else {
                v_mismatch(board@)
            },
            board@.width,
            board@.height,
        ),
        r <= board@.width * board@.height,
{
    let ghost b = board@;
    let ghost f = if horizontal {
        h_mismatch(b)
    } else {
        v_mismatch(b)
    };
    let w = board.width;
    let h = board.height;
    let mut result: usize = 0;
    for x in 0..w
        invariant
            b == board@,
            b.wf(),
            w == b.width,
            h == b.height,
            f == if horizontal {
                h_mismatch(b)
            } else {
                v_mismatch(b)
            },
            result == sum_grid(f, x as int, h as int),
            result <= x * h,
    {
        let ghost start = result;
        for y in 0..h
            invariant
                b == board@,
                b.wf(),
                w == b.width,
                h == b.height,
                x < w,
                f == if horizontal {
                    h_mismatch(b)
                } else {
                    v_mismatch(b)
                },
                start == sum_grid(f, x as int, h as int),
                start <= x * h,
                result == start + sum_col(f, x as int, y as int),
        {
            proof {
                assert forall|a: int, c: int| #[trigger] f(a, c) <= 1 by {}
                lemma_partial_bound(f, x as int, y as int, w as int, h as int, 1);
            }
            let c1 = cell_at(board, x, y);
            if horizontal {
                if x + 1 < w {
                    let c2 = cell_at(board, x + 1, y);
                    if let (Some(a), Some(n)) = (c1, c2) {
                        if a.right() != n.left() {
                            result += 1;
                        }
                    }
                }
            } else {
                if y + 1 < h {
                    let c2 = cell_at(board, x, y + 1);
                    if let (Some(a), Some(n)) = (c1, c2) {
                        if a.bottom() != n.top() {
                            result += 1;
                        }
                    }
                }
            }
        }
        proof {
            assert forall|a: int, c: int| #[trigger] f(a, c) <= 1 by {}
            lemma_sum_grid_bound(f, x + 1, h as int, 1);
        }
    }
    result
}

pub fn count_non_matching_tiles(board: &Board) -> (r: usize)
    requires
        board@.wf(),
    ensures
        r == mismatch_count(board@),
{
    let a = count_mismatch_pass(board, true);
    let b = count_mismatch_pass(board, false);
    a + b
}

// ---------------------------------------------------------------- town edges

pub open spec fn is_town(t: TerrainType) -> bool {
    t == TerrainType::TOWN
}

pub open spec fn one_if(b: bool) -> nat {
    if b {
        1
    } else {
        0
    }
}

/// Town sides of column x that face the top or the bottom border.
pub open spec fn border_x(b: BoardView) -> spec_fn(int) -> nat {
    |x: int|
        one_if(is_town(place_terrain(b.at(x, 0), CardSide::TOP))) + one_if(
            is_town(place_terrain(b.at(x, b.height - 1), CardSide::BOTTOM)),
        )
}

/// Town sides of row y that face the left or the right border.
pub open spec fn border_y(b: BoardView) -> spec_fn(int) -> nat {
    |y: int|
        one_if(is_town(place_terrain(b.at(0, y), CardSide::LEFT))) + one_if(
            is_town(place_terrain(b.at(b.width - 1, y), CardSide::RIGHT)),
        )
}

/// 1 where exactly one of the sides shared by (x, y) and (x + 1, y) is town.
pub open spec fn h_open(b: BoardView) -> spec_fn(int, int) -> nat {
    |x: int, y: int|
        one_if(
            x + 1 < b.width && is_town(place_terrain(b.at(x, y), CardSide::RIGHT)) != is_town(
                place_terrain(b.at(x + 1, y), CardSide::LEFT),
            ),
        )
}

/// 1 where exactly one of the sides shared by (x, y) and (x, y + 1) is town.
pub open spec fn v_open(b: BoardView) -> spec_fn(int, int) -> nat {
    |x: int, y: int|
        one_if(
            y + 1 < b.height && is_town(place_terrain(b.at(x, y), CardSide::BOTTOM)) != is_town(
                place_terrain(b.at(x, y + 1), CardSide::TOP),
            ),
        )
}

/// Town sides that meet the border or a side that is not town, each once.
pub open spec fn unclosed_count(b: BoardView) -> nat {
    sum_line(border_x(b), b.width) + sum_line(border_y(b), b.height) + sum_grid(
        h_open(b),
        b.width,
        b.height,
    ) + sum_grid(v_open(b), b.width, b.height)
}

pub fn xor(a: bool, b: bool) -> (r: bool)
    ensures
        r == (a != b),
{
    (a && !b) || (b && !a)
}

/// Town sides facing the top and bottom border (`across`), else the left and right border.
fn count_border_pass(board: &Board, across: bool) -> (r: usize)
    requires
        board@.wf(),
    ensures
        r == sum_line(
            if across {
                border_x(board@)
            } else {
                border_y(board@)
            },
            if across {
                board@.width
            } else {
                board@.height
            },
        ),
        r <= 2 * (board@.width * board@.height),
{
    let ghost b = board@;
    let ghost f = if across {
        border_x(b)
    } else {
        border_y(b)
    };
    let w = board.width;
    let h = board.height;
    let n = if across {
        w
    } else {
        h
    };
    proof {
        assert(w <= w * h && h <= w * h) by (nonlinear_arith)
            requires
                w >= 1,
                h >= 1,
        ;
    }
    let mut result: usize = 0;
    for i in 0..n
        invariant
            b == board@,
            b.wf(),
            w == b.width,
            h == b.height,
            n <= w * h,
            n == if across {
                w
            } else {
                h
            },
            f == if across {
                border_x(b)
            } else {
                border_y(b)
            },
            result == sum_line(f, i as int),
            result <= 2 * i,
    {
        if across {
            if top_side_town(board, i, 0) {
                result += 1;
            }
            if bottom_side_town(board, i, h - 1) {
                result += 1;
            }
        } else {
            if left_side_town(board, 0, i) {
                result += 1;
            }
            if right_side_town(board, w - 1, i) {
                result += 1;
            }
        }
    }
    result
}

fn top_side_town(board: &Board, x: usize, y: usize) -> (r: bool)
    requires
        board@.wf(),
        x < board@.width,
        y < board@.height,
    ensures
        r == is_town(place_terrain(board@.at(x as int, y as int), CardSide::TOP)),
{
    top_side(cell_at(board, x, y)) == TerrainType::TOWN
}

fn bottom_side_town(board: &Board, x: usize, y: usize) -> (r: bool)
    requires
        board@.wf(),
        x < board@.width,
        y < board@.height,
    ensures
        r == is_town(place_terrain(board@.at(x as int, y as int), CardSide::BOTTOM)),
{
    bottom_side(cell_at(board, x, y)) == TerrainType::TOWN
}

fn left_side_town(board: &Board, x: usize, y: usize) -> (r: bool)
    requires
        board@.wf(),
        x < board@.width,
        y < board@.height,
    ensures
        r == is_town(place_terrain(board@.at(x as int, y as int), CardSide::LEFT)),
{
    left_side(cell_at(board, x, y)) == TerrainType::TOWN
}

fn right_side_town(board: &Board, x: usize, y: usize) -> (r: bool)
    requires
        board@.wf(),
        x < board@.width,
        y < board@.height,
    ensures
        r == is_town(place_terrain(board@.at(x as int, y as int), CardSide::RIGHT)),
{
    right_side(cell_at(board, x, y)) == TerrainType::TOWN
}

/// Shared sides where exactly one side is town: between horizontal neighbours
/// when `horizontal`, else between vertical ones.
fn count_open_pass(board: &Board, horizontal: bool) -> (r: usize)
    requires
        board@.wf(),
    ensures
        r == sum_grid(
            if horizontal {
                h_open(board@)
            } else {
                v_open(board@)
            },
            board@.width,
            board@.height,
        ),
        r <= board@.width * board@.height,
{
    let ghost b = board@;
    let ghost f = if horizontal {
        h_open(b)
    } else {
        v_open(b)
    };
    let w = board.width;
    let h = board.height;
    let mut result: usize = 0;
    for x in 0..w
        invariant
            b == board@,
            b.wf(),
            w == b.width,
            h == b.height,
            f == if horizontal {
                h_open(b)
            } else {
                v_open(b)
            },
            result == sum_grid(f, x as int, h as int),
            result <= x * h,
    {
        let ghost start = result;
        for y in 0..h
            invariant
                b == board@,
                b.wf(),
                w == b.width,
                h == b.height,
                x < w,
                f == if horizontal {
                    h_open(b)
                } else {
                    v_open(b)
                },
                start == sum_grid(f, x as int, h as int),
                start <= x * h,
                result == start + sum_col(f, x as int, y as int),
        {
            proof {
                assert forall|a: int, c: int| #[trigger] f(a, c) <= 1 by {}
                lemma_partial_bound(f, x as int, y as int, w as int, h as int, 1);
            }
            if horizontal {
                if x + 1 < w {
                    if xor(right_side_town(board, x, y), left_side_town(board, x + 1, y)) {
                        result += 1;
                    }
                }
            } else {
                if y + 1 < h {
                    if xor(bottom_side_town(board, x, y), top_side_town(board, x, y + 1)) {
                        result += 1;
                    }
                }
            }
        }
        proof {
            assert forall|a: int, c: int| #[trigger] f(a, c) <= 1 by {}
            lemma_sum_grid_bound(f, x + 1, h as int, 1);
        }
    }
    result
}

pub fn count_unclosed_town_parts(board: &Board) -> (r: usize)
    requires
        board@.wf(),
    ensures
        r == unclosed_count(board@),
{
    let a = count_border_pass(board, true);
    let b = count_border_pass(board, false);
    let c = count_open_pass(board, true);
    let d = count_open_pass(board, false);
    a + b + c + d
}

// ---------------------------------------------------------------- clusters of tiles

/// Occupied places (x, y) with y < n, in scan order.
pub open spec fn col_nodes(b: BoardView, x: int, n: int) -> Seq<Pos>
    decreases n,
{
    if n <= 0 {
        seq![]
    } else {
        col_nodes(b, x, n - 1) + if b.occupied(x, n - 1) {
            seq![Pos { x: x as usize, y: (n - 1) as usize }]
        } else {
            seq![]
        }
    }
}

/// Occupied places of the columns before m, in scan order (x outer, y inner).
pub open spec fn grid_nodes(b: BoardView, m: int) -> Seq<Pos>
    decreases m,
{
    if m <= 0 {
        seq![]
    } else {
        grid_nodes(b, m - 1) + col_nodes(b, m - 1, b.height)
    }
}

/// All occupied places of the board, in scan order.
pub open spec fn occupied_nodes(b: BoardView) -> Seq<Pos> {
    grid_nodes(b, b.width)
}

/// Two places share a side.
pub open spec fn adjacent(p: Pos, q: Pos) -> bool {
    ||| p.x == q.x && (p.y + 1 == q.y || q.y + 1 == p.y)
    ||| p.y == q.y && (p.x + 1 == q.x || q.x + 1 == p.x)
}

/// The tiles numbered i and j in scan order share a side.
pub open spec fn cell_edge(b: BoardView) -> spec_fn(usize, usize) -> bool {
    |i: usize, j: usize|
        i < occupied_nodes(b).len() && j < occupied_nodes(b).len() && adjacent(
            occupied_nodes(b)[i as int],
            occupied_nodes(b)[j as int],
        )
}

/// The number of maximal groups of tiles joined through shared sides.
pub open spec fn cell_cluster_count(b: BoardView) -> nat {
    cluster_count(occupied_nodes(b).len() as int, cell_edge(b))
}

proof fn lemma_col_nodes(b: BoardView, x: int, n: int)
    requires
        0 <= x,
        n <= b.height,
        b.height <= usize::MAX,
        x <= usize::MAX,
    ensures
        forall|i: int|
            0 <= i < col_nodes(b, x, n).len() ==> (#[trigger] col_nodes(b, x, n)[i]).x == x
                && col_nodes(b, x, n)[i].y < n && b.occupied(x, col_nodes(b, x, n)[i].y as int),
        forall|y: int|
            0 <= y < n && #[trigger] b.occupied(x, y) ==> col_nodes(b, x, n).contains(
                Pos { x: x as usize, y: y as usize },
            ),
        col_nodes(b, x, n).len() <= if n < 0 { 0 } else { n },
    decreases n,
{
    if n > 0 {
        lemma_col_nodes(b, x, n - 1);
        let prev = col_nodes(b, x, n - 1);
        let cur = col_nodes(b, x, n);
        assert forall|y: int| 0 <= y < n && #[trigger] b.occupied(x, y) implies cur.contains(
            Pos { x: x as usize, y: y as usize },
        ) by {
            if y < n - 1 {
                let k = choose|k: int| 0 <= k < prev.len() && prev[k] == Pos { x: x as usize, y: y as usize };
                assert(cur[k] == prev[k]);
            } else {
                assert(cur[prev.len() as int] == Pos { x: x as usize, y: y as usize });
            }
        }
        assert forall|i: int| 0 <= i < cur.len() implies (#[trigger] cur[i]).x == x && cur[i].y < n
            && b.occupied(x, cur[i].y as int) by {
            if i < prev.len() {
                assert(cur[i] == prev[i]);
            }
        }
    }
}

proof fn lemma_grid_nodes(b: BoardView, m: int)
    requires
        b.wf(),
        0 <= m <= b.width,
    ensures
        forall|i: int|
            0 <= i < grid_nodes(b, m).len() ==> (#[trigger] grid_nodes(b, m)[i]).x < m
                && b.occupied(grid_nodes(b, m)[i].x as int, grid_nodes(b, m)[i].y as int),
        forall|x: int, y: int|
            0 <= x < m && 0 <= y < b.height && #[trigger] b.occupied(x, y) ==> grid_nodes(
                b,
                m,
            ).contains(Pos { x: x as usize, y: y as usize }),
        grid_nodes(b, m).len() <= m * b.height,
    decreases m,
{
    if m > 0 {
        lemma_grid_nodes(b, m - 1);
        assert(b.height <= b.width * b.height && b.width <= b.width * b.height) by (nonlinear_arith)
            requires
                b.width >= 1,
                b.height >= 1,
        ;
        lemma_col_nodes(b, m - 1, b.height);
        let prev = grid_nodes(b, m - 1);
        let col = col_nodes(b, m - 1, b.height);
        let cur = grid_nodes(b, m);
        assert(cur == prev + col);
        assert((m - 1) * b.height + b.height == m * b.height) by (nonlinear_arith);
        assert forall|i: int| 0 <= i < cur.len() implies (#[trigger] cur[i]).x < m && b.occupied(
            cur[i].x as int,
            cur[i].y as int,
        ) by {
            if i < prev.len() {
                assert(cur[i] == prev[i]);
            } else {
                assert(cur[i] == col[i - prev.len()]);
            }
        }
        assert forall|x: int, y: int|
            0 <= x < m && 0 <= y < b.height && #[trigger] b.occupied(x, y) implies cur.contains(
                Pos { x: x as usize, y: y as usize },
            ) by {
            let p = Pos { x: x as usize, y: y as usize };
            if x < m - 1 {
                let k = choose|k: int| 0 <= k < prev.len() && prev[k] == p;
                assert(cur[k] == prev[k]);
            } else {
                assert(col.contains(p));
                let k = choose|k: int| 0 <= k < col.len() && col[k] == p;
                assert(cur[prev.len() + k] == col[k]);
            }
        }
    }
}

/// The nodes of the tile graph are exactly the occupied places.
pub proof fn lemma_occupied_nodes(b: BoardView)
    requires
        b.wf(),
    ensures
        forall|i: int|
            0 <= i < occupied_nodes(b).len() ==> b.occupied(
                (#[trigger] occupied_nodes(b)[i]).x as int,
                occupied_nodes(b)[i].y as int,
            ),
        forall|x: int, y: int|
            #[trigger] b.occupied(x, y) ==> occupied_nodes(b).contains(
                Pos { x: x as usize, y: y as usize },
            ),
        occupied_nodes(b).len() <= b.width * b.height,
{
    lemma_grid_nodes(b, b.width);
}

/// The occupied places of the board, in scan order.
fn occupied_positions(board: &Board) -> (r: Vec<Pos>)
    requires
        board@.wf(),
    ensures
        r@ == occupied_nodes(board@),
{
    let ghost b = board@;
    let mut r: Vec<Pos> = Vec::new();
    for x in 0..board.width
        invariant
            b == board@,
            b.wf(),
            r@ == grid_nodes(b, x as int),
    {
        for y in 0..board.height
            invariant
                b == board@,
                b.wf(),
                x < b.width,
                r@ == grid_nodes(b, x as int) + col_nodes(b, x as int, y as int),
        {
            let ghost before = r@;
            if cell_at(board, x, y).is_some() {
                r.push(Pos { x, y });
            }
            assert(r@ =~= grid_nodes(b, x as int) + col_nodes(b, x as int, y + 1));
        }
        assert(grid_nodes(b, x + 1) == grid_nodes(b, x as int) + col_nodes(b, x as int, b.height));
    }
    r
}

proof fn lemma_push_keeps<A>(s: Seq<A>, a: A)
    ensures
        forall|q: A| #[trigger] s.push(a).contains(q) <==> s.contains(q) || q == a,
{
    assert forall|q: A| #[trigger] s.push(a).contains(q) <==> s.contains(q) || q == a by {
        if s.contains(q) {
            let k = choose|k: int| 0 <= k < s.len() && s[k] == q;
            assert(s.push(a)[k] == q);
        }
        if q == a {
            assert(s.push(a)[s.len() as int] == a);
        }
        if s.push(a).contains(q) && q != a {
            let k = choose|k: int| 0 <= k < s.len() + 1 && s.push(a)[k] == q;
            assert(s[k] == q);
        }
    }
}

/// The occupied places that share a side with `pos`.
fn get_neighbours(board: &Board, pos: Pos) -> (r: Vec<Pos>)
    requires
        board@.wf(),
    ensures
        forall|q: Pos| #[trigger] r@.contains(q) <==> adjacent(pos, q) && board@.occupied(q.x as int, q.y as int),
{
    let ghost b = board@;
    let mut r: Vec<Pos> = Vec::new();
    let x = pos.x;
    let y = pos.y;
    let ghost left = Pos { x: (x - 1) as usize, y };
    let ghost right = Pos { x: (x + 1) as usize, y };
    let ghost up = Pos { x, y: (y - 1) as usize };
    let ghost down = Pos { x, y: (y + 1) as usize };
    let c1 = x > 0 && x - 1 < board.width && y < board.height && cell_at(board, x - 1, y).is_some();
    if c1 {
        proof { lemma_push_keeps(r@, left); }
        r.push(Pos { x: x - 1, y });
    }
    let c2 = x < board.width - 1 && y < board.height && cell_at(board, x + 1, y).is_some();
    if c2 {
        proof { lemma_push_keeps(r@, right); }
        r.push(Pos { x: x + 1, y });
    }
    let c3 = y > 0 && y - 1 < board.height && x < board.width && cell_at(board, x, y - 1).is_some();
    if c3 {
        proof { lemma_push_keeps(r@, up); }
        r.push(Pos { x, y: y - 1 });
    }
    let c4 = y < board.height - 1 && x < board.width && cell_at(board, x, y + 1).is_some();
    if c4 {
        proof { lemma_push_keeps(r@, down); }
        r.push(Pos { x, y: y + 1 });
    }
    proof {
        assert forall|q: Pos| #[trigger] r@.contains(q) <==> (c1 && q == left) || (c2 && q == right) || (c3 && q == up) || (c4 && q == down) by {}
    }
    r
}

/// The indices j with `nodes[j]` among `targets`, in increasing order.
fn indices_of(nodes: &Vec<Pos>, targets: &Vec<Pos>) -> (r: Vec<usize>)
    ensures
        forall|t: int| 0 <= t < r@.len() ==> #[trigger] r@[t] < nodes@.len(),
        forall|j: usize| #[trigger] r@.contains(j) <==> j < nodes@.len() && targets@.contains(nodes@[j as int]),
{
    let mut r: Vec<usize> = Vec::new();
    for j in 0..nodes.len()
        invariant
            forall|t: int| 0 <= t < r@.len() ==> #[trigger] r@[t] < j,
            forall|k: usize| #[trigger] r@.contains(k) <==> k < j && targets@.contains(nodes@[k as int]),
    {
        let mut found = false;
        for t in 0..targets.len()
            invariant
                j < nodes@.len(),
                found <==> exists|u: int| 0 <= u < t && targets@[u] == nodes@[j as int],
        {
            if targets[t] == nodes[j] {
                found = true;
            }
        }
        if found {
            proof {
                lemma_push_keeps(r@, j);
            }
            r.push(j);
        }
        proof {
            if found {
                let u = choose|u: int| 0 <= u < targets@.len() && targets@[u] == nodes@[j as int];
                assert(targets@.contains(nodes@[j as int]));
            }
            if targets@.contains(nodes@[j as int]) {
                let u = choose|u: int| 0 <= u < targets@.len() && targets@[u] == nodes@[j as int];
                assert(found);
            }
        }
    }
    r
}

/// Clusters of tiles joined through shared sides, as lists of tile numbers in scan order.
pub fn extract_clusters(board: &Board) -> (r: Vec<Vec<usize>>)
    requires
        board@.wf(),
    ensures
        valid_clustering(occupied_nodes(board@).len() as int, cell_edge(board@), vec_views(r@)),
{
    let ghost b = board@;
    let nodes = occupied_positions(board);
    proof {
        lemma_occupied_nodes(b);
    }
    let mut adj: Vec<Vec<usize>> = Vec::new();
    for i in 0..nodes.len()
        invariant
            b == board@,
            b.wf(),
            nodes@ == occupied_nodes(b),
            adj@.len() == i,
            forall|a: int, t: int| 0 <= a < adj@.len() && 0 <= t < adj@[a]@.len() ==> #[trigger] adj@[a]@[t] < nodes@.len(),
            forall|u: usize, v: usize|
                u < i && v < nodes@.len() ==> (#[trigger] cell_edge(b)(u, v) <==> adj@[u as int]@.contains(v)),
    {
        let near = get_neighbours(board, nodes[i]);
        let idx = indices_of(&nodes, &near);
        let ghost before = adj@;
        adj.push(idx);
        proof {
            lemma_occupied_nodes(b);
            assert forall|u: usize, v: usize|
                u < i + 1 && v < nodes@.len() implies (#[trigger] cell_edge(b)(u, v) <==> adj@[u as int]@.contains(v)) by {
                if u < i {
                    assert(adj@[u as int] == before[u as int]);
                } else {
                    assert(b.occupied(nodes@[v as int].x as int, nodes@[v as int].y as int));
                }
            }
        }
    }
    flood_clusters(&adj, Ghost(cell_edge(b)))
}

/// Number of clusters of tiles, less one: 0 exactly when all tiles hang together.
pub fn cluster_penalty(board: &Board) -> (r: usize)
    requires
        board@.wf(),
        exists|x: int, y: int| board@.occupied(x, y),
    ensures
        r == cell_cluster_count(board@) - 1,
{
    let clusters = extract_clusters(board);
    proof {
        let b = board@;
        lemma_occupied_nodes(b);
        let (x, y) = choose|x: int, y: int| b.occupied(x, y);
        assert(b.occupied(x, y));
        assert(occupied_nodes(b).len() >= 1);
        assert(in_first(vec_views(clusters@), clusters@.len() as int, 0));
        lemma_cluster_count(occupied_nodes(b).len() as int, cell_edge(b), vec_views(clusters@));
    }
    clusters.len() - 1
}

/// The tiles of a board form a single cluster exactly when every occupied
/// place is joined to every other through occupied places sharing sides.
pub proof fn lemma_one_cluster_iff_all_joined(b: BoardView, cl: Seq<Seq<usize>>)
    requires
        b.wf(),
        occupied_nodes(b).len() >= 1,
        valid_clustering(occupied_nodes(b).len() as int, cell_edge(b), cl),
    ensures
        cell_cluster_count(b) == 1 <==> all_connected(occupied_nodes(b).len() as int, cell_edge(b)),
{
    lemma_cluster_count(occupied_nodes(b).len() as int, cell_edge(b), cl);
    lemma_one_cluster_iff_connected(occupied_nodes(b).len() as int, cell_edge(b), cl);
}

// ---------------------------------------------------------------- towns

/// A town structure on the board: structure `i` of the tile at (x, y).
#[derive(Clone, Copy, Debug, PartialEq, Eq, Structural, Hash)]
pub struct TownTile {
    pub x: usize,
    pub y: usize,
    pub i: usize,
}

/// Number of structures of the tile at (x, y); 0 on an empty place.
pub open spec fn struct_count_at(b: BoardView, x: int, y: int) -> int {
    if b.occupied(x, y) {
        b.at(x, y)->0.card.structs.len() as int
    } else {
        0
    }
}

/// `t` names a town structure of a tile on the board.
pub open spec fn is_town_tile(b: BoardView, t: TownTile) -> bool {
    &&& b.occupied(t.x as int, t.y as int)
    &&& t.i < b.at(t.x as int, t.y as int)->0.card.structs.len()
    &&& b.at(t.x as int, t.y as int)->0.card.structs[t.i as int].terrain == TerrainType::TOWN
}

/// Town structures of the tile at (x, y) with index below k.
pub open spec fn cell_towns(b: BoardView, x: int, y: int, k: int) -> Seq<TownTile>
    decreases k,
{
    if k <= 0 {
        seq![]
    } else {
        let t = TownTile { x: x as usize, y: y as usize, i: (k - 1) as usize };
        cell_towns(b, x, y, k - 1) + if k - 1 < struct_count_at(b, x, y) && is_town_tile(b, t) {
            seq![t]
        } else {
            seq![]
        }
    }
}

/// Town structures of the places (x, y) with y < n, in scan order.
pub open spec fn col_towns(b: BoardView, x: int, n: int) -> Seq<TownTile>
    decreases n,
{
    if n <= 0 {
        seq![]
    } else {
        col_towns(b, x, n - 1) + cell_towns(b, x, n - 1, struct_count_at(b, x, n - 1))
    }
}

/// Town structures of the columns before m, in scan order.
pub open spec fn grid_towns(b: BoardView, m: int) -> Seq<TownTile>
    decreases m,
{
    if m <= 0 {
        seq![]
    } else {
        grid_towns(b, m - 1) + col_towns(b, m - 1, b.height)
    }
}

/// All town structures of the board, in scan order (x, then y, then structure).
pub open spec fn town_nodes(b: BoardView) -> Seq<TownTile> {
    grid_towns(b, b.width)
}

/// The place one step from (x, y) toward `side`.
pub open spec fn step(x: int, y: int, side: CardSide) -> (int, int) {
    match side {
        CardSide::LEFT => (x - 1, y),
        CardSide::TOP => (x, y - 1),
        CardSide::RIGHT => (x + 1, y),
        CardSide::BOTTOM => (x, y + 1),
    }
}

/// Through its tile-local side `s`, the town structure `a` meets the town
/// structure `t` of the neighbouring tile: that tile shows town on the facing
/// side, and `t` is the first of its structures to claim that side.
pub open spec fn town_link_via(b: BoardView, a: TownTile, s: CardSide, t: TownTile) -> bool {
    let g = geom_side(s, b.at(a.x as int, a.y as int)->0.card_side);
    let (nx, ny) = step(a.x as int, a.y as int, g);
    let opp = opposite_side(g);
    &&& b.occupied(nx, ny)
    &&& cell_terrain(b.at(nx, ny)->0, opp) == TerrainType::TOWN
    &&& t.x == nx && t.y == ny
    &&& first_claim(b.at(nx, ny)->0.card.structs, local_side(opp, b.at(nx, ny)->0.card_side))
        == Some(t.i as int)
}

pub open spec fn town_link(b: BoardView, a: TownTile, t: TownTile) -> bool {
    &&& is_town_tile(b, a)
    &&& exists|s: CardSide|
        b.at(a.x as int, a.y as int)->0.card.structs[a.i as int].sides.contains(s) && #[trigger] town_link_via(b, a, s, t)
}

/// Town structures numbered u and v in scan order meet across a tile border.
pub open spec fn town_edge(b: BoardView) -> spec_fn(usize, usize) -> bool {
    |u: usize, v: usize|
        u < town_nodes(b).len() && v < town_nodes(b).len() && town_link(
            b,
            town_nodes(b)[u as int],
            town_nodes(b)[v as int],
        )
}

/// The number of towns: maximal groups of town structures met across borders.
pub open spec fn town_cluster_count(b: BoardView) -> nat {
    cluster_count(town_nodes(b).len() as int, town_edge(b))
}

proof fn lemma_cell_towns(b: BoardView, x: int, y: int, k: int)
    requires
        0 <= x,
        0 <= y,
        x <= usize::MAX,
        y <= usize::MAX,
    ensures
        forall|j: int| 0 <= j < cell_towns(b, x, y, k).len() ==> is_town_tile(b, #[trigger] cell_towns(b, x, y, k)[j]),
    decreases k,
{
    if k > 0 {
        lemma_cell_towns(b, x, y, k - 1);
        let prev = cell_towns(b, x, y, k - 1);
        let cur = cell_towns(b, x, y, k);
        assert forall|j: int| 0 <= j < cur.len() implies is_town_tile(b, #[trigger] cur[j]) by {
            if j < prev.len() {
                assert(cur[j] == prev[j]);
            }
        }
    }
}

proof fn lemma_col_towns(b: BoardView, x: int, n: int)
    requires
        b.wf(),
        0 <= x < b.width,
        n <= b.height,
    ensures
        forall|j: int| 0 <= j < col_towns(b, x, n).len() ==> is_town_tile(b, #[trigger] col_towns(b, x, n)[j]),
    decreases n,
{
    if n > 0 {
        lemma_col_towns(b, x, n - 1);
        assert(b.height <= b.width * b.height && b.width <= b.width * b.height) by (nonlinear_arith)
            requires
                b.width >= 1,
                b.height >= 1,
        ;
        lemma_cell_towns(b, x, n - 1, struct_count_at(b, x, n - 1));
        let prev = col_towns(b, x, n - 1);
        let add = cell_towns(b, x, n - 1, struct_count_at(b, x, n - 1));
        let cur = col_towns(b, x, n);
        assert forall|j: int| 0 <= j < cur.len() implies is_town_tile(b, #[trigger] cur[j]) by {
            if j < prev.len() {
                assert(cur[j] == prev[j]);
            } else {
                assert(cur[j] == add[j - prev.len()]);
            }
        }
    }
}

proof fn lemma_grid_towns(b: BoardView, m: int)
    requires
        b.wf(),
        m <= b.width,
    ensures
        forall|j: int| 0 <= j < grid_towns(b, m).len() ==> is_town_tile(b, #[trigger] grid_towns(b, m)[j]),
    decreases m,
{
    if m > 0 {
        lemma_grid_towns(b, m - 1);
        lemma_col_towns(b, m - 1, b.height);
        let prev = grid_towns(b, m - 1);
        let add = col_towns(b, m - 1, b.height);
        let cur = grid_towns(b, m);
        assert forall|j: int| 0 <= j < cur.len() implies is_town_tile(b, #[trigger] cur[j]) by {
            if j < prev.len() {
                assert(cur[j] == prev[j]);
            } else {
                assert(cur[j] == add[j - prev.len()]);
            }
        }
    }
}

/// Every node of the town graph is a town structure of a tile on the board.
pub proof fn lemma_town_nodes(b: BoardView)
    requires
        b.wf(),
    ensures
        forall|j: int| 0 <= j < town_nodes(b).len() ==> is_town_tile(b, #[trigger] town_nodes(b)[j]),
{
    lemma_grid_towns(b, b.width);
}

/// The town structures of the board, in scan order.
fn town_tiles(board: &Board) -> (r: Vec<TownTile>)
    requires
        board@.wf(),
    ensures
        r@ == town_nodes(board@),
{
    let ghost b = board@;
    let mut r: Vec<TownTile> = Vec::new();
    for x in 0..board.width
        invariant
            b == board@,
            b.wf(),
            r@ == grid_towns(b, x as int),
    {
        for y in 0..board.height
            invariant
                b == board@,
                b.wf(),
                x < b.width,
                r@ == grid_towns(b, x as int) + col_towns(b, x as int, y as int),
        {
            let ghost base = r@;
            match cell_at(board, x, y) {
                Some(cell) => {
                    let n = cell.card.structs.len();
                    assert(struct_count_at(b, x as int, y as int) == n);
                    for i in 0..n
                        invariant
                            b == board@,
                            b.wf(),
                            x < b.width,
                            y < b.height,
                            b.at(x as int, y as int) == Some(cell@),
                            n == cell.card.structs@.len(),
                            r@ == base + cell_towns(b, x as int, y as int, i as int),
                    {
                        assert(cell@.card.structs[i as int] == cell.card.structs@[i as int]@);
                        if cell.card.structs[i].terrain == TerrainType::TOWN {
                            r.push(TownTile { x, y, i });
                        }
                        assert(r@ =~= base + cell_towns(b, x as int, y as int, i + 1));
                    }
                },
                None => {
                    assert(cell_towns(b, x as int, y as int, 0) =~= seq![]);
                },
            }
            assert(r@ =~= grid_towns(b, x as int) + col_towns(b, x as int, y + 1));
        }
        assert(grid_towns(b, x + 1) == grid_towns(b, x as int) + col_towns(b, x as int, b.height));
    }
    r
}

pub fn get_geom_side(side: &CardSide, tile_side: &CardSide) -> (r: CardSide)
    ensures
        r == geom_side(*side, *tile_side),
{
    match side {
        CardSide::LEFT => {
            match tile_side {
                CardSide::LEFT => CardSide::LEFT,
                CardSide::TOP => CardSide::BOTTOM,
                CardSide::RIGHT => CardSide::RIGHT,
                CardSide::BOTTOM => CardSide::TOP,
            }
        },
        CardSide::TOP => {
            match tile_side {
                CardSide::LEFT => CardSide::TOP,
                CardSide::TOP => CardSide::LEFT,
                CardSide::RIGHT => CardSide::BOTTOM,
                CardSide::BOTTOM => CardSide::RIGHT,
            }
        },
        CardSide::RIGHT => {
            match tile_side {
                CardSide::LEFT => CardSide::RIGHT,
                CardSide::TOP => CardSide::TOP,
                CardSide::RIGHT => CardSide::LEFT,
                CardSide::BOTTOM => CardSide::BOTTOM,
            }
        },
        CardSide::BOTTOM => {
            match tile_side {
                CardSide::LEFT => CardSide::BOTTOM,
                CardSide::TOP => CardSide::RIGHT,
                CardSide::RIGHT => CardSide::TOP,
                CardSide::BOTTOM => CardSide::LEFT,
            }
        },
    }
}

/// The tile one step from `pos` toward `side`, if that place is on the board and occupied.
pub fn get_neighboring_cell<'a>(board: &'a Board, pos: Pos, side: &CardSide) -> (r: Option<&'a Cell>)
    requires
        board@.wf(),
    ensures
        r matches Some(c) ==> board@.at(step(pos.x as int, pos.y as int, *side).0, step(pos.x as int, pos.y as int, *side).1) == Some(c@),
        r is None ==> board@.at(step(pos.x as int, pos.y as int, *side).0, step(pos.x as int, pos.y as int, *side).1) is None,
{
    let (x, y) = match side {
        CardSide::LEFT => {
            if pos.x > 0 && pos.x - 1 < board.width && pos.y < board.height {
                (pos.x - 1, pos.y)
            } else {
                return None;
            }
        },
        CardSide::TOP => {
            if pos.y > 0 && pos.y - 1 < board.height && pos.x < board.width {
                (pos.x, pos.y - 1)
            } else {
                return None;
            }
        },
        CardSide::RIGHT => {
            if pos.x < board.width - 1 && pos.y < board.height {
                (pos.x + 1, pos.y)
            } else {
                return None;
            }
        },
        CardSide::BOTTOM => {
            if pos.y < board.height - 1 && pos.x < board.width {
                (pos.x, pos.y + 1)
            } else {
                return None;
            }
        },
    };
    match cell_at(board, x, y) {
        Some(c) => Some(c),
        None => None,
    }
}

/// Index of the first structure of `cell` that lies on the board side `cell_side`.
pub fn get_struct(cell: &Cell, cell_side: &CardSide) -> (r: Option<usize>)
    ensures
        r matches Some(i) ==> i < cell@.card.structs.len() && first_claim(
            cell@.card.structs,
            local_side(*cell_side, cell.card_side),
        ) == Some(i as int),
        r is None ==> first_claim(cell@.card.structs, local_side(*cell_side, cell.card_side)) is None,
{
    let ghost want = local_side(*cell_side, cell.card_side);
    let ghost structs = cell@.card.structs;
    let mut i: usize = 0;
    while i < cell.card.structs.len()
        invariant
            structs == cell@.card.structs,
            want == local_side(*cell_side, cell.card_side),
            i <= structs.len(),
            first_claim(structs.subrange(0, i as int), want) is None,
        decreases structs.len() - i,
    {
        let st = &cell.card.structs[i];
        assert(structs[i as int] == st@);
        let mut j: usize = 0;
        let mut found = false;
        while j < st.sides.len()
            invariant
                want == local_side(*cell_side, cell.card_side),
                j <= st.sides@.len(),
                found <==> exists|k: int| 0 <= k < j && st.sides@[k] == want,
            decreases st.sides@.len() - j,
        {
            proof {
                lemma_local_geom_inverse(st.sides@[j as int], cell.card_side);
                lemma_local_geom_inverse(*cell_side, cell.card_side);
            }
            if get_geom_side(&st.sides[j], &cell.card_side) == *cell_side {
                found = true;
            }
            j += 1;
        }
        let ghost pre = structs.subrange(0, i + 1);
        assert(pre.drop_last() =~= structs.subrange(0, i as int));
        assert(pre.last() == st@);
        if found {
            assert(st.sides@.contains(want)) by {
                let k = choose|k: int| 0 <= k < j && st.sides@[k] == want;
                assert(st.sides@[k] == want);
            }
            proof {
                lemma_first_claim_prefix(structs, i + 1, want);
            }
            return Some(i);
        }
        assert(!st.sides@.contains(want));
        i += 1;
    }
    assert(structs.subrange(0, i as int) =~= structs);
    None
}

/// The town structures that `tile` meets across the borders of its tile.
fn find_town_leaves(board: &Board, tile: TownTile) -> (r: Vec<TownTile>)
    requires
        board@.wf(),
        is_town_tile(board@, tile),
    ensures
        forall|t: TownTile| #[trigger] r@.contains(t) <==> town_link(board@, tile, t),
{
    let ghost b = board@;
    let cell = match cell_at(board, tile.x, tile.y) {
        Some(c) => c,
        None => {
            return Vec::new();
        },
    };
    let pos = Pos { x: tile.x, y: tile.y };
    let st = &cell.card.structs[tile.i];
    assert(b.at(tile.x as int, tile.y as int)->0.card.structs[tile.i as int] == st@);
    let mut r: Vec<TownTile> = Vec::new();
    for k in 0..st.sides.len()
        invariant
            b == board@,
            b.wf(),
            is_town_tile(b, tile),
            b.at(tile.x as int, tile.y as int) == Some(cell@),
            pos.x == tile.x && pos.y == tile.y,
            b.at(tile.x as int, tile.y as int)->0.card.structs[tile.i as int] == st@,
            forall|t: TownTile| #[trigger] r@.contains(t) <==> exists|s: CardSide|
                (exists|q: int| 0 <= q < k && st.sides@[q] == s) && town_link_via(b, tile, s, t),
    {
        let side = st.sides[k];
        let g = get_geom_side(&side, &cell.card_side);
        let ghost before = r@;
        let ghost mut found: Option<TownTile> = None;
        let ghost (nx, ny) = step(tile.x as int, tile.y as int, g);
        assert(g == geom_side(side, b.at(tile.x as int, tile.y as int)->0.card_side));
        match get_neighboring_cell(board, pos, &g) {
            Some(nc) => {
                assert(b.occupied(nx, ny));
                assert(nc.pos == Pos { x: nx as usize, y: ny as usize });
                let opp = g.get_opposite();
                if nc.get_side(&opp) == TerrainType::TOWN {
                    match get_struct(nc, &opp) {
                        Some(j) => {
                            let t = TownTile { x: nc.pos.x, y: nc.pos.y, i: j };
                            proof {
                                lemma_push_keeps(r@, t);
                                found = Some(t);
                                assert(town_link_via(b, tile, side, t));
                            }
                            r.push(t);
                        },
                        None => {},
                    }
                }
            },
            None => {},
        }
        proof {
            assert forall|t: TownTile| town_link_via(b, tile, side, t) <==> found == Some(t) by {}
            assert forall|t: TownTile| #[trigger] r@.contains(t) <==> exists|s: CardSide|
                (exists|q: int| 0 <= q < k + 1 && st.sides@[q] == s) && town_link_via(b, tile, s, t) by {
                if r@.contains(t) {
                    if before.contains(t) {
                        let s = choose|s: CardSide| (exists|q: int| 0 <= q < k && st.sides@[q] == s) && town_link_via(b, tile, s, t);
                        let q = choose|q: int| 0 <= q < k && st.sides@[q] == s;
                        assert(0 <= q < k + 1 && st.sides@[q] == s);
                    } else {
                        assert(st.sides@[k as int] == side);
                        assert(town_link_via(b, tile, side, t));
                    }
                }
                if exists|s: CardSide| (exists|q: int| 0 <= q < k + 1 && st.sides@[q] == s) && town_link_via(b, tile, s, t) {
                    let s = choose|s: CardSide| (exists|q: int| 0 <= q < k + 1 && st.sides@[q] == s) && town_link_via(b, tile, s, t);
                    let q = choose|q: int| 0 <= q < k + 1 && st.sides@[q] == s;
                    if q < k {
                        assert(before.contains(t));
                    } else {
                        assert(s == side);
                    }
                }
            }
        }
    }
    proof {
        assert forall|t: TownTile| #[trigger] r@.contains(t) <==> town_link(b, tile, t) by {
            if r@.contains(t) {
                let s = choose|s: CardSide| (exists|q: int| 0 <= q < st.sides@.len() && st.sides@[q] == s) && town_link_via(b, tile, s, t);
                let q = choose|q: int| 0 <= q < st.sides@.len() && st.sides@[q] == s;
                assert(st.sides@.contains(s));
            }
            if town_link(b, tile, t) {
                let s = choose|s: CardSide| b.at(tile.x as int, tile.y as int)->0.card.structs[tile.i as int].sides.contains(s) && #[trigger] town_link_via(b, tile, s, t);
                let q = choose|q: int| 0 <= q < st.sides@.len() && st.sides@[q] == s;
            }
        }
    }
    r
}

/// The indices j with `nodes[j]` among `targets`, in increasing order.
fn town_indices_of(nodes: &Vec<TownTile>, targets: &Vec<TownTile>) -> (r: Vec<usize>)
    ensures
        forall|t: int| 0 <= t < r@.len() ==> #[trigger] r@[t] < nodes@.len(),
        forall|j: usize| #[trigger] r@.contains(j) <==> j < nodes@.len() && targets@.contains(nodes@[j as int]),
{
    let mut r: Vec<usize> = Vec::new();
    for j in 0..nodes.len()
        invariant
            forall|t: int| 0 <= t < r@.len() ==> #[trigger] r@[t] < j,
            forall|k: usize| #[trigger] r@.contains(k) <==> k < j && targets@.contains(nodes@[k as int]),
    {
        let mut found = false;
        for t in 0..targets.len()
            invariant
                j < nodes@.len(),
                found <==> exists|u: int| 0 <= u < t && targets@[u] == nodes@[j as int],
        {
            if targets[t] == nodes[j] {
                found = true;
            }
        }
        if found {
            proof {
                lemma_push_keeps(r@, j);
            }
            r.push(j);
        }
        proof {
            if found {
                let u = choose|u: int| 0 <= u < targets@.len() && targets@[u] == nodes@[j as int];
                assert(targets@.contains(nodes@[j as int]));
            }
            if targets@.contains(nodes@[j as int]) {
                let u = choose|u: int| 0 <= u < targets@.len() && targets@[u] == nodes@[j as int];
                assert(found);
            }
        }
    }
    r
}

/// Towns: groups of town structures met across tile borders, as lists of
/// town-structure numbers in scan order.
pub fn extract_towns(board: &Board) -> (r: Vec<Vec<usize>>)
    requires
        board@.wf(),
    ensures
        valid_clustering(town_nodes(board@).len() as int, town_edge(board@), vec_views(r@)),
{
    let ghost b = board@;
    let nodes = town_tiles(board);
    let mut adj: Vec<Vec<usize>> = Vec::new();
    for i in 0..nodes.len()
        invariant
            b == board@,
            b.wf(),
            nodes@ == town_nodes(b),
            adj@.len() == i,
            forall|a: int, t: int| 0 <= a < adj@.len() && 0 <= t < adj@[a]@.len() ==> #[trigger] adj@[a]@[t] < nodes@.len(),
            forall|u: usize, v: usize|
                u < i && v < nodes@.len() ==> (#[trigger] town_edge(b)(u, v) <==> adj@[u as int]@.contains(v)),
    {
        proof {
            lemma_town_nodes(b);
        }
        let leaves = find_town_leaves(board, nodes[i]);
        let idx = town_indices_of(&nodes, &leaves);
        let ghost before = adj@;
        adj.push(idx);
        proof {
            assert forall|u: usize, v: usize|
                u < i + 1 && v < nodes@.len() implies (#[trigger] town_edge(b)(u, v) <==> adj@[u as int]@.contains(v)) by {
                if u < i {
                    assert(adj@[u as int] == before[u as int]);
                }
            }
        }
    }
    flood_clusters(&adj, Ghost(town_edge(b)))
}

/// The number of towns on the board.
pub fn count_towns(board: &Board) -> (r: usize)
    requires
        board@.wf(),
    ensures
        r == town_cluster_count(board@),
{
    let towns = extract_towns(board);
    proof {
        lemma_cluster_count(town_nodes(board@).len() as int, town_edge(board@), vec_views(towns@));
    }
    towns.len()
}

// ---------------------------------------------------------------- score

/// The fitness score of a board: clusters of tiles beyond the first, facing
/// sides that do not match, town sides left open, and towns.
pub open spec fn board_score(b: BoardView) -> int {
    (cell_cluster_count(b) - 1) + mismatch_count(b) + unclosed_count(b) + town_cluster_count(b)
}

/// `n`, or the largest `usize` where `n` does not fit.
pub open spec fn capped(n: int) -> int {
    if n <= usize::MAX {
        n
    } else {
        usize::MAX as int
    }
}

/// Scores a board that holds at least one tile; a score too large for `usize`
/// comes out as `usize::MAX`.
pub fn evaluate_board(board: &Board) -> (r: usize)
    requires
        board@.wf(),
        exists|x: int, y: int| board@.occupied(x, y),
    ensures
        r == capped(board_score(board@)),
{
    let clusters = cluster_penalty(board);
    let unclosed = count_unclosed_town_parts(board);
    let mismatched = count_non_matching_tiles(board);
    let towns = count_towns(board);
    if unclosed > usize::MAX - clusters {
        return usize::MAX;
    }
    let total = clusters + unclosed;
    if mismatched > usize::MAX - total {
        return usize::MAX;
    }
    let total = total + mismatched;
    if towns > usize::MAX - total {
        return usize::MAX;
    }
    total + towns
}

/// The default-size board holding `cells`, a later one replacing an earlier
/// one at the same position.
pub fn fill_board(cells: &Vec<Cell>) -> (r: Board)
    requires
        all_within(cell_views(cells@), FIELD_SIZE as int, FIELD_SIZE as int),
    ensures
        r@ == filled_view(FIELD_SIZE as int, FIELD_SIZE as int, cell_views(cells@)),
        r@.wf(),
{
    fill_board_on(FIELD_SIZE, FIELD_SIZE, cells)
}

pub proof fn lemma_last_at_some(cells: Seq<CellView>, i: int)
    requires
        0 <= i < cells.len(),
    ensures
        last_at(cells, cells[i].pos.x as int, cells[i].pos.y as int) is Some,
    decreases cells.len(),
{
    if i < cells.len() - 1 {
        let last = cells.last();
        if !(last.pos.x == cells[i].pos.x && last.pos.y == cells[i].pos.y) {
            assert(cells.drop_last()[i] == cells[i]);
            lemma_last_at_some(cells.drop_last(), i);
        }
    }
}

/// The score of a candidate: that of its resolved layout on its board.
pub fn evaluate_algorithm(algorithm: &Algorithm) -> (r: usize)
    requires
        algorithm.wf(),
        algorithm.cells@.len() >= 1,
    ensures
        r == capped(board_score(filled_view(algorithm.width as int, algorithm.height as int, cell_views(algorithm.arranged_cells@)))),
{
    let board = fill_board_on(algorithm.width, algorithm.height, &algorithm.arranged_cells);
    proof {
        let cells = cell_views(algorithm.arranged_cells@);
        lemma_last_at_some(cells, 0);
        let x = cells[0].pos.x as int;
        let y = cells[0].pos.y as int;
        assert(board@.at(x, y) == last_at(cells, x, y));
        assert(board@.occupied(x, y));
    }
    evaluate_board(&board)
}

// ---------------------------------------------------------------- laws on edges

/// `f` with its value at (px, py) set to 0.
pub open spec fn zero_at(f: spec_fn(int, int) -> nat, px: int, py: int) -> spec_fn(int, int) -> nat {
    |x: int, y: int|
        if x == px && y == py {
            0nat
        } else {
            f(x, y)
        }
}

proof fn lemma_sum_col_zero_at(f: spec_fn(int, int) -> nat, x: int, n: int, px: int, py: int)
    ensures
        sum_col(f, x, n) == sum_col(zero_at(f, px, py), x, n) + if x == px && 0 <= py < n { f(px, py) as int } else { 0int },
    decreases n,
{
    if n > 0 {
        lemma_sum_col_zero_at(f, x, n - 1, px, py);
    }
}

proof fn lemma_sum_grid_zero_at(f: spec_fn(int, int) -> nat, m: int, h: int, px: int, py: int)
    ensures
        sum_grid(f, m, h) == sum_grid(zero_at(f, px, py), m, h) + if 0 <= px < m && 0 <= py < h {
            f(px, py) as int
        } else {
            0int
        },
    decreases m,
{
    if m > 0 {
        lemma_sum_grid_zero_at(f, m - 1, h, px, py);
        lemma_sum_col_zero_at(f, m - 1, h, px, py);
    }
}

/// Every pair of neighbouring tiles shows the same terrain on its facing sides.
pub open spec fn all_edges_match(b: BoardView) -> bool {
    &&& forall|x: int, y: int|
        b.occupied(x, y) && b.occupied(x + 1, y) ==> #[trigger] place_terrain(b.at(x, y), CardSide::RIGHT)
            == place_terrain(b.at(x + 1, y), CardSide::LEFT)
    &&& forall|x: int, y: int|
        b.occupied(x, y) && b.occupied(x, y + 1) ==> #[trigger] place_terrain(b.at(x, y), CardSide::BOTTOM)
            == place_terrain(b.at(x, y + 1), CardSide::TOP)
}

/// The mismatched borders that the tile at (px, py) shares with its neighbours.
pub open spec fn mismatches_at(b: BoardView, px: int, py: int) -> nat {
    h_mismatch(b)(px - 1, py) + h_mismatch(b)(px, py) + v_mismatch(b)(px, py - 1) + v_mismatch(b)(px, py)
}

/// A board on which every pair of neighbouring tiles matches has no mismatched edge.
pub proof fn lemma_matching_board_has_no_mismatch(b: BoardView)
    requires
        b.wf(),
        all_edges_match(b),
    ensures
        mismatch_count(b) == 0,
{
    assert forall|x: int, y: int| #[trigger] h_mismatch(b)(x, y) <= 0 by {
        if b.occupied(x, y) && b.occupied(x + 1, y) {
            assert(place_terrain(b.at(x, y), CardSide::RIGHT) == place_terrain(b.at(x + 1, y), CardSide::LEFT));
        }
    }
    assert forall|x: int, y: int| #[trigger] v_mismatch(b)(x, y) <= 0 by {
        if b.occupied(x, y) && b.occupied(x, y + 1) {
            assert(place_terrain(b.at(x, y), CardSide::BOTTOM) == place_terrain(b.at(x, y + 1), CardSide::TOP));
        }
    }
    lemma_sum_grid_bound(h_mismatch(b), b.width, b.height, 0);
    lemma_sum_grid_bound(v_mismatch(b), b.width, b.height, 0);
}

/// Changing the tile at one place of a board on which all neighbours matched
/// (turning it, or putting another there) leaves exactly the mismatched
/// borders of that tile with its neighbours.
pub proof fn lemma_one_changed_tile(b: BoardView, b2: BoardView, px: int, py: int)
    requires
        b.wf(),
        b2.wf(),
        b2.width == b.width,
        b2.height == b.height,
        all_edges_match(b),
        b.in_bounds(px, py),
        forall|x: int, y: int| !(x == px && y == py) ==> #[trigger] b2.at(x, y) == b.at(x, y),
    ensures
        mismatch_count(b2) == mismatches_at(b2, px, py),
{
    let w = b.width;
    let h = b.height;
    let fh = h_mismatch(b2);
    let fv = v_mismatch(b2);
    let fh2 = zero_at(zero_at(fh, px, py), px - 1, py);
    let fv2 = zero_at(zero_at(fv, px, py), px, py - 1);
    assert forall|x: int, y: int| #[trigger] fh2(x, y) <= 0 by {
        if !(x == px && y == py) && !(x == px - 1 && y == py) {
            assert(b2.at(x, y) == b.at(x, y));
            assert(b2.at(x + 1, y) == b.at(x + 1, y));
            if b.occupied(x, y) && b.occupied(x + 1, y) {
                assert(place_terrain(b.at(x, y), CardSide::RIGHT) == place_terrain(b.at(x + 1, y), CardSide::LEFT));
            }
        }
    }
    assert forall|x: int, y: int| #[trigger] fv2(x, y) <= 0 by {
        if !(x == px && y == py) && !(x == px && y == py - 1) {
            assert(b2.at(x, y) == b.at(x, y));
            assert(b2.at(x, y + 1) == b.at(x, y + 1));
            if b.occupied(x, y) && b.occupied(x, y + 1) {
                assert(place_terrain(b.at(x, y), CardSide::BOTTOM) == place_terrain(b.at(x, y + 1), CardSide::TOP));
            }
        }
    }
    lemma_sum_grid_bound(fh2, w, h, 0);
    lemma_sum_grid_bound(fv2, w, h, 0);
    lemma_sum_grid_zero_at(fh, w, h, px, py);
    lemma_sum_grid_zero_at(zero_at(fh, px, py), w, h, px - 1, py);
    lemma_sum_grid_zero_at(fv, w, h, px, py);
    lemma_sum_grid_zero_at(zero_at(fv, px, py), w, h, px, py - 1);
    // a place off the board has no tile, so nothing is counted there
    assert(px - 1 < 0 ==> fh(px - 1, py) == 0);
    assert(py - 1 < 0 ==> fv(px, py - 1) == 0);
    assert(zero_at(fh, px, py)(px - 1, py) == fh(px - 1, py));
    assert(zero_at(fv, px, py)(px, py - 1) == fv(px, py - 1));
}

} // verus!
