use vstd::prelude::*;
use crate::carcassone::{sum_col, sum_grid};
use crate::evolution::FIELD_SIZE;
use crate::model::{all_within, cell_views, Board, BoardView, Cell, CellView, Pos};

verus! {

/// Distance between two places, counted in rings: the larger of the two
/// coordinate differences.
pub open spec fn ring_distance(x1: int, y1: int, x2: int, y2: int) -> int {
    let dx = if x1 >= x2 { x1 - x2 } else { x2 - x1 };
    let dy = if y1 >= y2 { y1 - y2 } else { y2 - y1 };
    if dx >= dy { dx } else { dy }
}

/// The place (x, y), if it lies on a width × height board.
pub open spec fn keep(w: int, h: int, x: int, y: int) -> Seq<Pos> {
    if 0 <= x < w && 0 <= y < h {
        seq![Pos { x: x as usize, y: y as usize }]
    } else {
        seq![]
    }
}

/// The first n steps of the horizontal sweep of the ring at distance d around
/// (px, py): for each x from px - d on, the place in the ring's top row, then
/// the one in its bottom row.
pub open spec fn halo_rows(w: int, h: int, px: int, py: int, d: int, n: int) -> Seq<Pos>
    decreases n,
{
    if n <= 0 {
        seq![]
    } else {
        halo_rows(w, h, px, py, d, n - 1) + keep(w, h, px - d + n - 1, py - d) + keep(
            w,
            h,
            px - d + n - 1,
            py + d,
        )
    }
}

/// The first n steps of the vertical sweep: for each y from py - d on, the
/// place in the ring's left column, then the one in its right column.
pub open spec fn halo_cols(w: int, h: int, px: int, py: int, d: int, n: int) -> Seq<Pos>
    decreases n,
{
    if n <= 0 {
        seq![]
    } else {
        halo_cols(w, h, px, py, d, n - 1) + keep(w, h, px - d, py - d + n - 1) + keep(
            w,
            h,
            px + d,
            py - d + n - 1,
        )
    }
}

/// The places of the ring at distance d around (px, py) that lie on the
/// board, in scan order. The rows span the whole width of the ring, corners
/// included, so that every place of the ring is scanned.
pub open spec fn halo(w: int, h: int, px: int, py: int, d: int) -> Seq<Pos> {
    halo_rows(w, h, px, py, d, 2 * d + 1) + halo_cols(w, h, px, py, d, 2 * d)
}

proof fn lemma_halo_rows(w: int, h: int, px: int, py: int, d: int, n: int)
    requires
        d >= 1,
        0 <= n <= 2 * d + 1,
        0 <= w <= usize::MAX,
        0 <= h <= usize::MAX,
    ensures
        forall|k: int|
            0 <= k < halo_rows(w, h, px, py, d, n).len() ==> {
                let q = #[trigger] halo_rows(w, h, px, py, d, n)[k];
                &&& q.x < w && q.y < h
                &&& ring_distance(q.x as int, q.y as int, px, py) == d
            },
        forall|x: int, y: int|
            0 <= x < w && 0 <= y < h && px - d <= x < px - d + n && (y == py - d || y == py + d)
                ==> #[trigger] halo_rows(w, h, px, py, d, n).contains(Pos { x: x as usize, y: y as usize }),
    decreases n,
{
    if n > 0 {
        lemma_halo_rows(w, h, px, py, d, n - 1);
        let prev = halo_rows(w, h, px, py, d, n - 1);
        let a = keep(w, h, px - d + n - 1, py - d);
        let b = keep(w, h, px - d + n - 1, py + d);
        let cur = halo_rows(w, h, px, py, d, n);
        assert(cur == prev + a + b);
        assert forall|k: int| 0 <= k < cur.len() implies {
            let q = #[trigger] cur[k];
            &&& q.x < w && q.y < h
            &&& ring_distance(q.x as int, q.y as int, px, py) == d
        } by {
            if k < prev.len() {
                assert(cur[k] == prev[k]);
            } else if k < prev.len() + a.len() {
                assert(cur[k] == a[k - prev.len()]);
            } else {
                assert(cur[k] == b[k - prev.len() - a.len()]);
            }
        }
        assert forall|x: int, y: int|
            0 <= x < w && 0 <= y < h && px - d <= x < px - d + n && (y == py - d || y == py + d)
                implies #[trigger] cur.contains(Pos { x: x as usize, y: y as usize }) by {
            let p = Pos { x: x as usize, y: y as usize };
            if x < px - d + n - 1 {
                assert(prev.contains(p));
                let k = choose|k: int| 0 <= k < prev.len() && prev[k] == p;
                assert(cur[k] == p);
            } else if y == py - d {
                assert(cur[prev.len() as int] == p);
            } else {
                assert(cur[(prev.len() + a.len()) as int] == p);
            }
        }
    }
}

proof fn lemma_halo_cols(w: int, h: int, px: int, py: int, d: int, n: int)
    requires
        d >= 1,
        0 <= n <= 2 * d,
        0 <= w <= usize::MAX,
        0 <= h <= usize::MAX,
    ensures
        forall|k: int|
            0 <= k < halo_cols(w, h, px, py, d, n).len() ==> {
                let q = #[trigger] halo_cols(w, h, px, py, d, n)[k];
                &&& q.x < w && q.y < h
                &&& ring_distance(q.x as int, q.y as int, px, py) == d
            },
        forall|x: int, y: int|
            0 <= x < w && 0 <= y < h && py - d <= y < py - d + n && (x == px - d || x == px + d)
                ==> #[trigger] halo_cols(w, h, px, py, d, n).contains(Pos { x: x as usize, y: y as usize }),
    decreases n,
{
    if n > 0 {
        lemma_halo_cols(w, h, px, py, d, n - 1);
        let prev = halo_cols(w, h, px, py, d, n - 1);
        let a = keep(w, h, px - d, py - d + n - 1);
        let b = keep(w, h, px + d, py - d + n - 1);
        let cur = halo_cols(w, h, px, py, d, n);
        assert(cur == prev + a + b);
        assert forall|k: int| 0 <= k < cur.len() implies {
            let q = #[trigger] cur[k];
            &&& q.x < w && q.y < h
            &&& ring_distance(q.x as int, q.y as int, px, py) == d
        } by {
            if k < prev.len() {
                assert(cur[k] == prev[k]);
            } else if k < prev.len() + a.len() {
                assert(cur[k] == a[k - prev.len()]);
            } else {
                assert(cur[k] == b[k - prev.len() - a.len()]);
            }
        }
        assert forall|x: int, y: int|
            0 <= x < w && 0 <= y < h && py - d <= y < py - d + n && (x == px - d || x == px + d)
                implies #[trigger] cur.contains(Pos { x: x as usize, y: y as usize }) by {
            let p = Pos { x: x as usize, y: y as usize };
            if y < py - d + n - 1 {
                assert(prev.contains(p));
                let k = choose|k: int| 0 <= k < prev.len() && prev[k] == p;
                assert(cur[k] == p);
            } else if x == px - d {
                assert(cur[prev.len() as int] == p);
            } else {
                assert(cur[(prev.len() + a.len()) as int] == p);
            }
        }
    }
}

/// The ring at distance d holds exactly the places of the board at that distance.
pub proof fn lemma_halo(w: int, h: int, px: int, py: int, d: int)
    requires
        d >= 1,
        0 <= w <= usize::MAX,
        0 <= h <= usize::MAX,
    ensures
        forall|k: int|
            0 <= k < halo(w, h, px, py, d).len() ==> {
                let q = #[trigger] halo(w, h, px, py, d)[k];
                &&& q.x < w && q.y < h
                &&& ring_distance(q.x as int, q.y as int, px, py) == d
            },
        forall|x: int, y: int|
            0 <= x < w && 0 <= y < h && ring_distance(x, y, px, py) == d ==> #[trigger] halo(
                w,
                h,
                px,
                py,
                d,
            ).contains(Pos { x: x as usize, y: y as usize }),
{
    lemma_halo_rows(w, h, px, py, d, 2 * d + 1);
    lemma_halo_cols(w, h, px, py, d, 2 * d);
    let rows = halo_rows(w, h, px, py, d, 2 * d + 1);
    let cols = halo_cols(w, h, px, py, d, 2 * d);
    let all = halo(w, h, px, py, d);
    assert forall|k: int| 0 <= k < all.len() implies {
        let q = #[trigger] all[k];
        &&& q.x < w && q.y < h
        &&& ring_distance(q.x as int, q.y as int, px, py) == d
    } by {
        if k < rows.len() {
            assert(all[k] == rows[k]);
        } else {
            assert(all[k] == cols[k - rows.len()]);
        }
    }
    assert forall|x: int, y: int|
        0 <= x < w && 0 <= y < h && ring_distance(x, y, px, py) == d implies #[trigger] all.contains(
            Pos { x: x as usize, y: y as usize },
        ) by {
        let p = Pos { x: x as usize, y: y as usize };
        if y == py - d || y == py + d {
            assert(rows.contains(p));
            let k = choose|k: int| 0 <= k < rows.len() && rows[k] == p;
            assert(all[k] == p);
        } else {
            assert(cols.contains(p));
            let k = choose|k: int| 0 <= k < cols.len() && cols[k] == p;
            assert(all[rows.len() as int + k] == p);
        }
    }
}

/// Appends (x, y) to `out` if it lies on the board.
fn push_if_on_board(out: &mut Vec<Pos>, w: usize, h: usize, x: i128, y: i128)
    ensures
        final(out)@ == old(out)@ + keep(w as int, h as int, x as int, y as int),
{
    if 0 <= x && x < w as i128 && 0 <= y && y < h as i128 {
        out.push(Pos { x: x as usize, y: y as usize });
    }
    proof {
        if 0 <= x && x < w && 0 <= y && y < h {
            assert(final(out)@ =~= old(out)@ + keep(w as int, h as int, x as int, y as int));
        } else {
            assert(final(out)@ =~= old(out)@ + keep(w as int, h as int, x as int, y as int));
        }
    }
}

/// The places of the ring at `distance` around `pos` that lie on the board,
/// in the order in which they are tried.
pub fn get_halo(board: &Board, pos: &Pos, distance: usize) -> (r: Vec<Pos>)
    ensures
        r@ == halo(board@.width, board@.height, pos.x as int, pos.y as int, distance as int),
{
    let ghost w = board@.width;
    let ghost h = board@.height;
    let px = pos.x as i128;
    let py = pos.y as i128;
    let d = distance as i128;
    let mut result: Vec<Pos> = Vec::new();
    let mut i: i128 = 0;
    while i < 2 * d + 1
        invariant
            w == board.width,
            h == board.height,
            px == pos.x,
            py == pos.y,
            d == distance,
            0 <= i <= 2 * d + 1,
            result@ == halo_rows(w, h, px as int, py as int, d as int, i as int),
        decreases 2 * d + 1 - i,
    {
        let x = px - d + i;
        push_if_on_board(&mut result, board.width, board.height, x, py - d);
        push_if_on_board(&mut result, board.width, board.height, x, py + d);
        i += 1;
    }
    let ghost rows = result@;
    let mut j: i128 = 0;
    while j < 2 * d
        invariant
            w == board.width,
            h == board.height,
            px == pos.x,
            py == pos.y,
            d == distance,
            0 <= j <= 2 * d,
            rows == halo_rows(w, h, px as int, py as int, d as int, 2 * d + 1),
            result@ == rows + halo_cols(w, h, px as int, py as int, d as int, j as int),
        decreases 2 * d - j,
    {
        let y = py - d + j;
        push_if_on_board(&mut result, board.width, board.height, px - d, y);
        push_if_on_board(&mut result, board.width, board.height, px + d, y);
        proof {
            assert(result@ =~= rows + halo_cols(w, h, px as int, py as int, d as int, j + 1));
        }
        j += 1;
    }
    result
}

/// The first place of `s` that `occ` leaves free.
pub open spec fn first_free(occ: spec_fn(int, int) -> bool, s: Seq<Pos>) -> Option<Pos>
    decreases s.len(),
{
    if s.len() == 0 {
        None
    } else if !occ(s[0].x as int, s[0].y as int) {
        Some(s[0])
    } else {
        first_free(occ, s.drop_first())
    }
}

pub open spec fn occupancy(b: BoardView) -> spec_fn(int, int) -> bool {
    |x: int, y: int| b.occupied(x, y)
}

proof fn lemma_first_free(occ: spec_fn(int, int) -> bool, s: Seq<Pos>)
    ensures
        first_free(occ, s) matches Some(p) ==> s.contains(p) && !occ(p.x as int, p.y as int),
        first_free(occ, s) is None ==> forall|k: int| 0 <= k < s.len() ==> #[trigger] occ(s[k].x as int, s[k].y as int),
    decreases s.len(),
{
    if s.len() > 0 {
        lemma_first_free(occ, s.drop_first());
        if first_free(occ, s) is None {
            assert forall|k: int| 0 <= k < s.len() implies #[trigger] occ(s[k].x as int, s[k].y as int) by {
                if k > 0 {
                    assert(s[k] == s.drop_first()[k - 1]);
                }
            }
        }
        if let Some(p) = first_free(occ, s.drop_first()) {
            if occ(s[0].x as int, s[0].y as int) {
                let k = choose|k: int| 0 <= k < s.drop_first().len() && s.drop_first()[k] == p;
                assert(s[k + 1] == p);
            }
        }
    }
}

/// The first of `positions` that is free on the board.
pub fn get_free_cell(board: &Board, positions: &Vec<Pos>) -> (r: Option<Pos>)
    requires
        board@.wf(),
    ensures
        r == first_free(occupancy(board@), positions@),
{
    let ghost occ = occupancy(board@);
    let mut k: usize = 0;
    assert(positions@.subrange(0, positions@.len() as int) =~= positions@);
    while k < positions.len()
        invariant
            occ == occupancy(board@),
            board@.wf(),
            k <= positions@.len(),
            first_free(occ, positions@) == first_free(occ, positions@.subrange(k as int, positions@.len() as int)),
        decreases positions@.len() - k,
    {
        let p = positions[k];
        let ghost rest = positions@.subrange(k as int, positions@.len() as int);
        assert(rest[0] == p);
        assert(rest.drop_first() =~= positions@.subrange(k + 1, positions@.len() as int));
        let free = if p.x < board.width && p.y < board.height {
            assert(board.cells@[p.x as int]@.len() == board@.cells[p.x as int].len());
            board.cells[p.x][p.y].is_none()
        } else {
            true
        };
        if free {
            return Some(p);
        }
        k += 1;
    }
    None
}

/// The closest free place to `pos`: the first free place, in scan order, of
/// the nearest ring around `pos` that has one.
pub fn find_closest_free_pos(board: &Board, pos: &Pos) -> (r: Pos)
    requires
        board@.wf(),
        pos.x < board@.width,
        pos.y < board@.height,
        board@.occupied(pos.x as int, pos.y as int),
        exists|x: int, y: int| board@.in_bounds(x, y) && !board@.occupied(x, y),
    ensures
        ({
            let d = ring_distance(r.x as int, r.y as int, pos.x as int, pos.y as int);
            &&& d >= 1
            &&& forall|x: int, y: int|
                board@.in_bounds(x, y) && ring_distance(x, y, pos.x as int, pos.y as int) < d
                    ==> #[trigger] board@.occupied(x, y)
            &&& first_free(occupancy(board@), halo(board@.width, board@.height, pos.x as int, pos.y as int, d)) == Some(r)
        }),
{
    let ghost b = board@;
    let ghost (fx, fy) = choose|x: int, y: int| b.in_bounds(x, y) && !b.occupied(x, y);
    proof {
        assert(b.width + b.height <= 2 * (b.width * b.height)) by (nonlinear_arith)
            requires
                b.width >= 1,
                b.height >= 1,
        ;
    }
    let mut distance: usize = 1;
    loop
        invariant
            b == board@,
            b.wf(),
            pos.x < b.width,
            pos.y < b.height,
            b.in_bounds(fx, fy) && !b.occupied(fx, fy),
            b.occupied(pos.x as int, pos.y as int),
            b.width + b.height <= 2 * (b.width * b.height),
            1 <= distance,
            distance <= ring_distance(fx, fy, pos.x as int, pos.y as int),
            forall|x: int, y: int|
                b.in_bounds(x, y) && ring_distance(x, y, pos.x as int, pos.y as int) < distance
                    ==> #[trigger] b.occupied(x, y),
        decreases ring_distance(fx, fy, pos.x as int, pos.y as int) - distance,
    {
        let ring = get_halo(board, pos, distance);
        proof {
            lemma_halo(b.width, b.height, pos.x as int, pos.y as int, distance as int);
            lemma_first_free(occupancy(b), ring@);
        }
        match get_free_cell(board, &ring) {
            Some(p) => {
                proof {
                    let k = choose|k: int| 0 <= k < ring@.len() && ring@[k] == p;
                    assert(ring_distance(ring@[k].x as int, ring@[k].y as int, pos.x as int, pos.y as int) == distance);
                }
                return p;
            },
            None => {
                proof {
                    assert forall|x: int, y: int|
                        b.in_bounds(x, y) && ring_distance(x, y, pos.x as int, pos.y as int) < distance + 1
                            implies #[trigger] b.occupied(x, y) by {
                        if ring_distance(x, y, pos.x as int, pos.y as int) == distance {
                            let q = Pos { x: x as usize, y: y as usize };
                            assert(ring@.contains(q));
                            let k = choose|k: int| 0 <= k < ring@.len() && ring@[k] == q;
                            assert(occupancy(b)(ring@[k].x as int, ring@[k].y as int));
                        }
                    }
                    assert(ring_distance(fx, fy, pos.x as int, pos.y as int) > distance);
                    assert(ring_distance(fx, fy, pos.x as int, pos.y as int) < b.width + b.height);
                }
            },
        }
        distance += 1;
    }
}

// ---------------------------------------------------------------- free places

/// 1 on each free place of the board.
pub open spec fn free_ind(b: BoardView) -> spec_fn(int, int) -> nat {
    |x: int, y: int|
        if b.in_bounds(x, y) && !b.occupied(x, y) {
            1nat
        } else {
            0nat
        }
}

proof fn lemma_sum_col_point(f: spec_fn(int, int) -> nat, g: spec_fn(int, int) -> nat, x: int, px: int, py: int, n: int)
    requires
        forall|a: int, c: int| !(a == px && c == py) ==> #[trigger] f(a, c) == g(a, c),
        f(px, py) == g(px, py) + 1,
    ensures
        sum_col(f, x, n) == sum_col(g, x, n) + if x == px && 0 <= py < n { 1int } else { 0int },
    decreases n,
{
    if n > 0 {
        lemma_sum_col_point(f, g, x, px, py, n - 1);
        assert(f(x, n - 1) == g(x, n - 1) + if x == px && py == n - 1 { 1int } else { 0int });
    }
}

proof fn lemma_sum_grid_point(f: spec_fn(int, int) -> nat, g: spec_fn(int, int) -> nat, px: int, py: int, m: int, h: int)
    requires
        forall|a: int, c: int| !(a == px && c == py) ==> #[trigger] f(a, c) == g(a, c),
        f(px, py) == g(px, py) + 1,
        0 <= py < h,
    ensures
        sum_grid(f, m, h) == sum_grid(g, m, h) + if 0 <= px < m { 1int } else { 0int },
    decreases m,
{
    if m > 0 {
        lemma_sum_grid_point(f, g, px, py, m - 1, h);
        lemma_sum_col_point(f, g, m - 1, px, py, h);
    }
}

proof fn lemma_sum_col_positive(f: spec_fn(int, int) -> nat, x: int, n: int)
    requires
        sum_col(f, x, n) > 0,
    ensures
        exists|y: int| 0 <= y < n && #[trigger] f(x, y) > 0,
    decreases n,
{
    if n > 0 && f(x, n - 1) == 0 {
        lemma_sum_col_positive(f, x, n - 1);
        let y = choose|y: int| 0 <= y < n - 1 && #[trigger] f(x, y) > 0;
    }
}

proof fn lemma_sum_grid_positive(f: spec_fn(int, int) -> nat, m: int, h: int)
    requires
        sum_grid(f, m, h) > 0,
    ensures
        exists|x: int, y: int| 0 <= x < m && 0 <= y < h && #[trigger] f(x, y) > 0,
    decreases m,
{
    if m > 0 {
        if sum_col(f, m - 1, h) > 0 {
            lemma_sum_col_positive(f, m - 1, h);
            let y = choose|y: int| 0 <= y < h && #[trigger] f(m - 1, y) > 0;
        } else {
            lemma_sum_grid_positive(f, m - 1, h);
            let (x, y) = choose|x: int, y: int| 0 <= x < m - 1 && 0 <= y < h && #[trigger] f(x, y) > 0;
        }
    }
}

proof fn lemma_sum_col_ones(f: spec_fn(int, int) -> nat, x: int, n: int)
    requires
        n >= 0,
        forall|c: int| 0 <= c < n ==> #[trigger] f(x, c) == 1,
    ensures
        sum_col(f, x, n) == n,
    decreases n,
{
    if n > 0 {
        lemma_sum_col_ones(f, x, n - 1);
    }
}

proof fn lemma_sum_grid_ones(f: spec_fn(int, int) -> nat, m: int, h: int)
    requires
        m >= 0,
        h >= 0,
        forall|a: int, c: int| 0 <= a < m && 0 <= c < h ==> #[trigger] f(a, c) == 1,
    ensures
        sum_grid(f, m, h) == m * h,
    decreases m,
{
    if m > 0 {
        lemma_sum_grid_ones(f, m - 1, h);
        lemma_sum_col_ones(f, m - 1, h);
        assert((m - 1) * h + h == m * h) by (nonlinear_arith);
    } else {
        assert(m * h == 0) by (nonlinear_arith)
            requires
                m == 0,
        ;
    }
}

// ---------------------------------------------------------------- resolving overlaps

/// Some of `placed` stands at (x, y).
pub open spec fn taken(placed: Seq<CellView>, x: int, y: int) -> bool {
    exists|j: int| 0 <= j < placed.len() && #[trigger] placed[j].pos.x == x && placed[j].pos.y == y
}

pub open spec fn taken_by(placed: Seq<CellView>) -> spec_fn(int, int) -> bool {
    |x: int, y: int| taken(placed, x, y)
}

/// `got` is where a placement aimed at `target` goes once `placed` stand on a
/// width × height board: the target itself if it is free, else the closest
/// free place.
#[verifier::opaque]
pub open spec fn resolved_pos(w: int, h: int, placed: Seq<CellView>, target: Pos, got: Pos) -> bool {
    if !taken(placed, target.x as int, target.y as int) {
        got == target
    } else {
        let d = ring_distance(got.x as int, got.y as int, target.x as int, target.y as int);
        &&& d >= 1
        &&& forall|x: int, y: int|
            0 <= x < w && 0 <= y < h && ring_distance(x, y, target.x as int, target.y as int) < d
                ==> #[trigger] taken(placed, x, y)
        &&& first_free(taken_by(placed), halo(w, h, target.x as int, target.y as int, d)) == Some(got)
    }
}

/// `arranged` is `genome` with its overlaps resolved on a width × height
/// board: same tiles and orientations in the same order, each placed where
/// the resolver puts it given the ones before it, no two at one place.
pub open spec fn resolved(w: int, h: int, genome: Seq<CellView>, arranged: Seq<CellView>) -> bool {
    &&& arranged.len() == genome.len()
    &&& all_within(arranged, w, h)
    &&& forall|i: int|
        0 <= i < arranged.len() ==> (#[trigger] arranged[i]).card == genome[i].card
            && arranged[i].card_side == genome[i].card_side
    &&& forall|i: int|
        0 <= i < arranged.len() ==> resolved_pos(w, h, arranged.subrange(0, i), genome[i].pos, #[trigger] arranged[i].pos)
    &&& forall|i: int, j: int| 0 <= i < j < arranged.len() ==> #[trigger] arranged[i].pos != #[trigger] arranged[j].pos
}

/// What holds after the first rv.len() tiles of `genome` were placed as `rv`
/// on the board `b`.
pub open spec fn placing(w: int, h: int, genome: Seq<CellView>, rv: Seq<CellView>, b: BoardView) -> bool {
    &&& b.wf()
    &&& b.width == w
    &&& b.height == h
    &&& rv.len() <= genome.len()
    &&& forall|x: int, y: int| #[trigger] b.occupied(x, y) <==> taken(rv, x, y)
    &&& sum_grid(free_ind(b), w, h) == w * h - rv.len()
    &&& all_within(rv, w, h)
    &&& forall|i: int|
        0 <= i < rv.len() ==> (#[trigger] rv[i]).card == genome[i].card && rv[i].card_side == genome[i].card_side
    &&& forall|i: int| 0 <= i < rv.len() ==> resolved_pos(w, h, rv.subrange(0, i), genome[i].pos, #[trigger] rv[i].pos)
    &&& forall|i: int, j: int| 0 <= i < j < rv.len() ==> #[trigger] rv[i].pos != #[trigger] rv[j].pos
}

/// A free place exists while fewer tiles than places stand on the board.
proof fn lemma_free_place(w: int, h: int, genome: Seq<CellView>, rv: Seq<CellView>, b: BoardView)
    requires
        placing(w, h, genome, rv, b),
        rv.len() < w * h,
    ensures
        exists|x: int, y: int| b.in_bounds(x, y) && !b.occupied(x, y),
{
    lemma_sum_grid_positive(free_ind(b), w, h);
    let (x, y) = choose|x: int, y: int| 0 <= x < w && 0 <= y < h && #[trigger] free_ind(b)(x, y) > 0;
    assert(b.in_bounds(x, y) && !b.occupied(x, y));
}

/// The place that the board search found is the one the resolver owes.
proof fn lemma_found_is_resolved(w: int, h: int, genome: Seq<CellView>, rv: Seq<CellView>, b: BoardView, target: Pos, got: Pos)
    requires
        placing(w, h, genome, rv, b),
        w <= usize::MAX,
        h <= usize::MAX,
        target.x < w,
        target.y < h,
        b.occupied(target.x as int, target.y as int) ==> ({
            let d = ring_distance(got.x as int, got.y as int, target.x as int, target.y as int);
            &&& d >= 1
            &&& forall|x: int, y: int|
                b.in_bounds(x, y) && ring_distance(x, y, target.x as int, target.y as int) < d
                    ==> #[trigger] b.occupied(x, y)
            &&& first_free(occupancy(b), halo(w, h, target.x as int, target.y as int, d)) == Some(got)
        }),
        !b.occupied(target.x as int, target.y as int) ==> got == target,
    ensures
        resolved_pos(w, h, rv, target, got),
        got.x < w && got.y < h,
        !b.occupied(got.x as int, got.y as int),
{
    reveal(resolved_pos);
    assert(occupancy(b) =~= taken_by(rv));
    if b.occupied(target.x as int, target.y as int) {
        let d = ring_distance(got.x as int, got.y as int, target.x as int, target.y as int);
        lemma_halo(w, h, target.x as int, target.y as int, d);
        lemma_first_free(occupancy(b), halo(w, h, target.x as int, target.y as int, d));
        let k = choose|k: int| 0 <= k < halo(w, h, target.x as int, target.y as int, d).len()
            && halo(w, h, target.x as int, target.y as int, d)[k] == got;
        assert(got.x < w && got.y < h);
        assert forall|x: int, y: int|
            0 <= x < w && 0 <= y < h && ring_distance(x, y, target.x as int, target.y as int) < d
                implies #[trigger] taken(rv, x, y) by {
            assert(b.occupied(x, y));
        }
    }
}

/// Placing one more tile at a free place keeps what `placing` states.
proof fn lemma_place_one(w: int, h: int, genome: Seq<CellView>, rv: Seq<CellView>, b: BoardView, b2: BoardView, placed: CellView)
    requires
        placing(w, h, genome, rv, b),
        rv.len() < genome.len(),
        b2.wf(),
        b2.width == w,
        b2.height == h,
        forall|x: int, y: int|
            #[trigger] b2.at(x, y) == if x == placed.pos.x && y == placed.pos.y {
                Some(placed)
            } else {
                b.at(x, y)
            },
        placed.pos.x < w && placed.pos.y < h,
        !b.occupied(placed.pos.x as int, placed.pos.y as int),
        placed.card == genome[rv.len() as int].card,
        placed.card_side == genome[rv.len() as int].card_side,
        resolved_pos(w, h, rv, genome[rv.len() as int].pos, placed.pos),
    ensures
        placing(w, h, genome, rv.push(placed), b2),
{
    let rv2 = rv.push(placed);
    let index = rv.len() as int;
    assert(rv2.subrange(0, index) =~= rv);
    assert forall|i: int| 0 <= i < rv2.len() implies resolved_pos(w, h, rv2.subrange(0, i), genome[i].pos, #[trigger] rv2[i].pos) by {
        if i < index {
            assert(rv2.subrange(0, i) =~= rv.subrange(0, i));
            assert(rv2[i] == rv[i]);
        }
    }
    assert forall|x: int, y: int| #[trigger] b2.occupied(x, y) <==> taken(rv2, x, y) by {
        assert(b2.at(x, y) == if x == placed.pos.x && y == placed.pos.y {
            Some(placed)
        } else {
            b.at(x, y)
        });
        assert(b.occupied(x, y) <==> taken(rv, x, y));
        if taken(rv, x, y) {
            let j = choose|j: int| 0 <= j < rv.len() && #[trigger] rv[j].pos.x == x && rv[j].pos.y == y;
            assert(rv2[j] == rv[j]);
        }
        if taken(rv2, x, y) {
            let j = choose|j: int| 0 <= j < rv2.len() && #[trigger] rv2[j].pos.x == x && rv2[j].pos.y == y;
            if j < index {
                assert(rv2[j] == rv[j]);
            }
        }
        if x == placed.pos.x && y == placed.pos.y {
            assert(rv2[index].pos == placed.pos);
        }
    }
    assert forall|i: int, j: int| 0 <= i < j < rv2.len() implies #[trigger] rv2[i].pos != #[trigger] rv2[j].pos by {
        if j == index {
            assert(rv2[i] == rv[i]);
            assert(taken(rv, rv[i].pos.x as int, rv[i].pos.y as int));
        } else {
            assert(rv2[i] == rv[i] && rv2[j] == rv[j]);
        }
    }
    assert forall|i: int| 0 <= i < rv2.len() implies (#[trigger] rv2[i]).card == genome[i].card && rv2[i].card_side == genome[i].card_side by {
        if i < index {
            assert(rv2[i] == rv[i]);
        }
    }
    assert forall|i: int| 0 <= i < rv2.len() implies (#[trigger] rv2[i]).pos.x < w && rv2[i].pos.y < h by {
        if i < index {
            assert(rv2[i] == rv[i]);
        }
    }
    assert forall|a: int, c: int| !(a == placed.pos.x && c == placed.pos.y) implies #[trigger] free_ind(b)(a, c) == free_ind(b2)(a, c) by {
        assert(b2.at(a, c) == b.at(a, c));
    }
    assert(b2.at(placed.pos.x as int, placed.pos.y as int) == Some(placed));
    lemma_sum_grid_point(free_ind(b), free_ind(b2), placed.pos.x as int, placed.pos.y as int, w, h);
}

/// Places the tiles of `cells` in order on a width × height board; one whose
/// place is taken goes to the closest free place instead.
pub fn rearrange_overlaps(cells: &Vec<Cell>, width: usize, height: usize) -> (r: Vec<Cell>)
    requires
        width >= 1,
        height >= 1,
        width * height <= usize::MAX / 16,
        all_within(cell_views(cells@), width as int, height as int),
        cells@.len() <= width * height,
    ensures
        resolved(width as int, height as int, cell_views(cells@), cell_views(r@)),
{
    let ghost w = width as int;
    let ghost h = height as int;
    let ghost genome = cell_views(cells@);
    let mut board = Board::new(width, height);
    let mut result: Vec<Cell> = Vec::new();
    proof {
        lemma_sum_grid_ones(free_ind(board@), w, h);
        assert(cell_views(result@) =~= Seq::empty());
    }
    for index in 0..cells.len()
        invariant
            w == width,
            h == height,
            genome == cell_views(cells@),
            all_within(genome, w, h),
            cells@.len() <= w * h,
            result@.len() == index,
            placing(w, h, genome, cell_views(result@), board@),
    {
        let ghost rv = cell_views(result@);
        let ghost before = board@;
        let cell = &cells[index];
        assert(genome[index as int] == cell@);
        let target = cell.pos;
        let new_pos = if cell_at_is_some(&board, target.x, target.y) {
            proof {
                lemma_free_place(w, h, genome, rv, before);
            }
            find_closest_free_pos(&board, &target)
        } else {
            target
        };
        proof {
            lemma_found_is_resolved(w, h, genome, rv, before, target, new_pos);
        }
        let placed = Cell { pos: new_pos, card: cell.card.clone(), card_side: cell.card_side };
        board.place(placed.clone());
        result.push(placed);
        proof {
            assert(cell_views(result@) =~= rv.push(placed@));
            lemma_place_one(w, h, genome, rv, before, board@, placed@);
        }
    }
    result
}

/// Whether a tile stands at (x, y).
fn cell_at_is_some(board: &Board, x: usize, y: usize) -> (r: bool)
    requires
        board@.wf(),
        x < board@.width,
        y < board@.height,
    ensures
        r == board@.occupied(x as int, y as int),
{
    assert(board.cells@[x as int]@.len() == board@.cells[x as int].len());
    board.cells[x][y].is_some()
}

/// A candidate layout: the genome as drawn and its placement with overlaps resolved.
pub struct Algorithm {
    pub cells: Vec<Cell>,
    pub arranged_cells: Vec<Cell>,
    pub width: usize,
    pub height: usize,
}

impl Algorithm {
    pub open spec fn wf(&self) -> bool {
        &&& self.width >= 1
        &&& self.height >= 1
        &&& self.width * self.height <= usize::MAX / 16
        &&& self.cells@.len() <= self.width * self.height
        &&& all_within(cell_views(self.cells@), self.width as int, self.height as int)
        &&& resolved(self.width as int, self.height as int, cell_views(self.cells@), cell_views(self.arranged_cells@))
    }

    /// The genome `cells` resolved on the default board.
    pub fn new(cells: Vec<Cell>) -> (r: Algorithm)
        requires
            all_within(cell_views(cells@), FIELD_SIZE as int, FIELD_SIZE as int),
            cells@.len() <= FIELD_SIZE * FIELD_SIZE,
        ensures
            r.wf(),
            r.cells@ == cells@,
            r.width == FIELD_SIZE,
            r.height == FIELD_SIZE,
    {
        Algorithm::new_on(cells, FIELD_SIZE, FIELD_SIZE)
    }

    /// The genome `cells` resolved on a width × height board.
    pub fn new_on(cells: Vec<Cell>, width: usize, height: usize) -> (r: Algorithm)
        requires
            width >= 1,
            height >= 1,
            width * height <= usize::MAX / 16,
            all_within(cell_views(cells@), width as int, height as int),
            cells@.len() <= width * height,
        ensures
            r.wf(),
            r.cells@ == cells@,
            r.width == width,
            r.height == height,
    {
        let arranged_cells = rearrange_overlaps(&cells, width, height);
        Algorithm { cells, arranged_cells, width, height }
    }
}

} // verus!
