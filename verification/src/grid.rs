//! Square grids of cells and the counting facts the board logic relies on.
use vstd::prelude::*;

verus! {

/// A grid of rows of cells, read row by row.
pub open spec fn grid_of(rows: Seq<Vec<u8>>) -> Seq<Seq<u8>> {
    rows.map_values(|r: Vec<u8>| r@)
}

/// `g` has `n` rows of `n` cells each.
pub open spec fn is_square(g: Seq<Seq<u8>>, n: nat) -> bool {
    &&& g.len() == n
    &&& forall|y: int| 0 <= y < n ==> #[trigger] g[y].len() == n
}

/// The cell (x, y) lies on an n-by-n grid.
pub open spec fn in_bounds(n: int, x: int, y: int) -> bool {
    0 <= x < n && 0 <= y < n
}

/// How many cells of a row hold `v`.
pub open spec fn row_count(r: Seq<u8>, v: u8) -> nat
    decreases r.len(),
{
    if r.len() == 0 {
        0
    } else {
        row_count(r.drop_last(), v) + if r.last() == v { 1nat } else { 0nat }
    }
}

/// How many cells of a grid hold `v`.
pub open spec fn grid_count(g: Seq<Seq<u8>>, v: u8) -> nat
    decreases g.len(),
{
    if g.len() == 0 {
        0
    } else {
        grid_count(g.drop_last(), v) + row_count(g.last(), v)
    }
}

/// Counting one more cell of a row adds that cell.
pub proof fn lemma_row_count_take_succ(r: Seq<u8>, v: u8, i: int)
    requires
        0 <= i < r.len(),
    ensures
        row_count(r.take(i + 1), v) == row_count(r.take(i), v) + if r[i] == v { 1nat } else { 0nat },
{
    assert(r.take(i + 1).drop_last() =~= r.take(i));
}

/// Counting one more row of a grid adds that row.
pub proof fn lemma_grid_count_take_succ(g: Seq<Seq<u8>>, v: u8, i: int)
    requires
        0 <= i < g.len(),
    ensures
        grid_count(g.take(i + 1), v) == grid_count(g.take(i), v) + row_count(g[i], v),
{
    assert(g.take(i + 1).drop_last() =~= g.take(i));
}

/// A row holds no more cells of a value than it has cells.
pub proof fn lemma_row_count_bound(r: Seq<u8>, v: u8)
    ensures
        row_count(r, v) <= r.len(),
    decreases r.len(),
{
    if r.len() > 0 {
        lemma_row_count_bound(r.drop_last(), v);
    }
}

/// Replacing one cell of a row changes its count of `v` by at most that cell.
pub proof fn lemma_row_count_update(r: Seq<u8>, v: u8, i: int, w: u8)
    requires
        0 <= i < r.len(),
    ensures
        row_count(r.update(i, w), v) + (if r[i] == v { 1nat } else { 0nat })
            == row_count(r, v) + (if w == v { 1nat } else { 0nat }),
    decreases r.len(),
{
    if i == r.len() - 1 {
        assert(r.update(i, w).drop_last() =~= r.drop_last());
    } else {
        lemma_row_count_update(r.drop_last(), v, i, w);
        assert(r.update(i, w).drop_last() =~= r.drop_last().update(i, w));
    }
}

/// Replacing one cell of a grid changes its count of `v` by at most that cell.
pub proof fn lemma_grid_count_update(g: Seq<Seq<u8>>, v: u8, y: int, x: int, w: u8)
    requires
        0 <= y < g.len(),
        0 <= x < g[y].len(),
    ensures
        grid_count(g.update(y, g[y].update(x, w)), v) + (if g[y][x] == v { 1nat } else { 0nat })
            == grid_count(g, v) + (if w == v { 1nat } else { 0nat }),
    decreases g.len(),
{
    let g2 = g.update(y, g[y].update(x, w));
    if y == g.len() - 1 {
        assert(g2.drop_last() =~= g.drop_last());
        lemma_row_count_update(g[y], v, x, w);
    } else {
        lemma_grid_count_update(g.drop_last(), v, y, x, w);
        assert(g2.drop_last() =~= g.drop_last().update(y, g[y].update(x, w)));
    }
}

/// A row whose cells hold `v` only where another row's do has no larger count.
pub proof fn lemma_row_count_mono(a: Seq<u8>, b: Seq<u8>, v: u8)
    requires
        a.len() == b.len(),
        forall|i: int| 0 <= i < a.len() && #[trigger] a[i] == v ==> b[i] == v,
    ensures
        row_count(a, v) <= row_count(b, v),
    decreases a.len(),
{
    if a.len() > 0 {
        lemma_row_count_mono(a.drop_last(), b.drop_last(), v);
    }
}

/// A grid whose cells hold `v` only where another grid's do has no larger count.
pub proof fn lemma_grid_count_mono(a: Seq<Seq<u8>>, b: Seq<Seq<u8>>, v: u8)
    requires
        a.len() == b.len(),
        forall|y: int| 0 <= y < a.len() ==> #[trigger] a[y].len() == b[y].len(),
        forall|y: int, x: int|
            0 <= y < a.len() && 0 <= x < a[y].len() && #[trigger] a[y][x] == v ==> b[y][x] == v,
    ensures
        grid_count(a, v) <= grid_count(b, v),
    decreases a.len(),
{
    if a.len() > 0 {
        let y = a.len() - 1;
        assert forall|i: int| 0 <= i < a[y].len() && #[trigger] a[y][i] == v implies b[y][i] == v by {}
        lemma_row_count_mono(a[y], b[y], v);
        lemma_grid_count_mono(a.drop_last(), b.drop_last(), v);
    }
}

/// A grid of rows of `n` zeros holds rows * n zeros and no cell of any other value.
pub proof fn lemma_zero_grid_counts(g: Seq<Seq<u8>>, n: nat, v: u8)
    requires
        forall|y: int| 0 <= y < g.len() ==> #[trigger] g[y].len() == n,
        forall|y: int, x: int| 0 <= y < g.len() && 0 <= x < n ==> #[trigger] g[y][x] == 0,
    ensures
        grid_count(g, 0) == g.len() * n,
        v != 0 ==> grid_count(g, v) == 0,
    decreases g.len(),
{
    if g.len() > 0 {
        let m = g.len() - 1;
        lemma_zero_grid_counts(g.drop_last(), n, v);
        assert forall|x: int| 0 <= x < g[m].len() implies #[trigger] g[m][x] == 0 by {}
        lemma_zero_row_counts(g[m], v);
        assert((m + 1) * n == m * n + n) by (nonlinear_arith);
    }
}

/// An n-by-n grid holds at most n * n cells of any value.
pub proof fn lemma_grid_cells_bound(g: Seq<Seq<u8>>, n: nat)
    requires
        is_square(g, n),
    ensures
        forall|v: u8| #[trigger] grid_count(g, v) <= n * n,
{
    assert forall|v: u8| #[trigger] grid_count(g, v) <= n * n by {
        lemma_grid_count_rows_bound(g, n, v);
    }
}

/// A grid whose rows have n cells each holds at most rows * n cells of any value.
proof fn lemma_grid_count_rows_bound(g: Seq<Seq<u8>>, n: nat, v: u8)
    requires
        forall|y: int| 0 <= y < g.len() ==> #[trigger] g[y].len() == n,
    ensures
        grid_count(g, v) <= g.len() * n,
    decreases g.len(),
{
    if g.len() > 0 {
        let m = g.len() - 1;
        lemma_grid_count_rows_bound(g.drop_last(), n, v);
        lemma_row_count_bound(g[m], v);
        assert((m + 1) * n == m * n + n) by (nonlinear_arith);
    }
}

/// A row of zeros holds only zeros.
pub proof fn lemma_zero_row_counts(r: Seq<u8>, v: u8)
    requires
        forall|x: int| 0 <= x < r.len() ==> #[trigger] r[x] == 0,
    ensures
        row_count(r, 0) == r.len(),
        v != 0 ==> row_count(r, v) == 0,
    decreases r.len(),
{
    if r.len() > 0 {
        lemma_zero_row_counts(r.drop_last(), v);
    }
}


/// The rank of cell (x, y) among the free cells (those holding 0) of `g`, counting
/// row by row from the top left.
pub open spec fn free_rank(g: Seq<Seq<u8>>, x: int, y: int) -> nat {
    grid_count(g.take(y), 0) + row_count(g[y].take(x), 0)
}

/// Counting more cells of a row never counts fewer.
pub proof fn lemma_row_prefix_mono(r: Seq<u8>, v: u8, i: int, j: int)
    requires
        0 <= i <= j <= r.len(),
    ensures
        row_count(r.take(i), v) <= row_count(r.take(j), v),
    decreases j - i,
{
    if i < j {
        lemma_row_prefix_mono(r, v, i, j - 1);
        lemma_row_count_take_succ(r, v, j - 1);
    }
}

/// Counting more rows of a grid never counts fewer.
pub proof fn lemma_grid_prefix_mono(g: Seq<Seq<u8>>, v: u8, i: int, j: int)
    requires
        0 <= i <= j <= g.len(),
    ensures
        grid_count(g.take(i), v) <= grid_count(g.take(j), v),
    decreases j - i,
{
    if i < j {
        lemma_grid_prefix_mono(g, v, i, j - 1);
        lemma_grid_count_take_succ(g, v, j - 1);
    }
}

/// A free cell that comes before another cell, row by row, has a smaller rank.
pub proof fn lemma_free_rank_before(g: Seq<Seq<u8>>, n: nat, x1: int, y1: int, x2: int, y2: int)
    requires
        is_square(g, n),
        in_bounds(n as int, x1, y1),
        in_bounds(n as int, x2, y2),
        g[y1][x1] == 0,
        y1 < y2 || (y1 == y2 && x1 < x2),
    ensures
        free_rank(g, x1, y1) < free_rank(g, x2, y2),
{
    lemma_row_count_take_succ(g[y1], 0, x1);
    if y1 == y2 {
        lemma_row_prefix_mono(g[y1], 0, x1 + 1, x2);
    } else {
        lemma_row_prefix_mono(g[y1], 0, x1 + 1, n as int);
        assert(g[y1].take(n as int) =~= g[y1]);
        lemma_grid_count_take_succ(g, 0, y1);
        lemma_grid_prefix_mono(g, 0, y1 + 1, y2);
    }
}

/// Two free cells of the same rank are the same cell.
pub proof fn lemma_free_rank_unique(g: Seq<Seq<u8>>, n: nat, x1: int, y1: int, x2: int, y2: int)
    requires
        is_square(g, n),
        in_bounds(n as int, x1, y1),
        in_bounds(n as int, x2, y2),
        g[y1][x1] == 0,
        g[y2][x2] == 0,
        free_rank(g, x1, y1) == free_rank(g, x2, y2),
    ensures
        x1 == x2,
        y1 == y2,
{
    if y1 < y2 || (y1 == y2 && x1 < x2) {
        lemma_free_rank_before(g, n, x1, y1, x2, y2);
    } else if y2 < y1 || (y1 == y2 && x2 < x1) {
        lemma_free_rank_before(g, n, x2, y2, x1, y1);
    }
}

/// Within row `r`, from cell `x` on, the free cell of rank `k` among the row's free
/// cells.
proof fn lemma_find_in_row(r: Seq<u8>, k: nat, x: int) -> (c: int)
    requires
        0 <= x <= r.len(),
        row_count(r.take(x), 0) <= k < row_count(r, 0),
    ensures
        0 <= c < r.len(),
        r[c] == 0,
        row_count(r.take(c), 0) == k,
    decreases r.len() - x,
{
    if x == r.len() {
        assert(r.take(x) =~= r);
        0
    } else {
        lemma_row_count_take_succ(r, 0, x);
        if r[x] == 0 && row_count(r.take(x), 0) == k {
            x
        } else {
            lemma_find_in_row(r, k, x + 1)
        }
    }
}

/// From row `y` on, the free cell of rank `k`.
proof fn lemma_find_free(g: Seq<Seq<u8>>, n: nat, k: nat, y: int) -> (p: (int, int))
    requires
        is_square(g, n),
        0 <= y <= n,
        grid_count(g.take(y), 0) <= k < grid_count(g, 0),
    ensures
        in_bounds(n as int, p.0, p.1),
        g[p.1][p.0] == 0,
        free_rank(g, p.0, p.1) == k,
    decreases n - y,
{
    if y == n {
        assert(g.take(y) =~= g);
        (0, 0)
    } else {
        lemma_grid_count_take_succ(g, 0, y);
        if k < grid_count(g.take(y + 1), 0) {
            let base = grid_count(g.take(y), 0);
            assert(g[y].take(0) =~= Seq::<u8>::empty());
            let c = lemma_find_in_row(g[y], (k - base) as nat, 0);
            (c, y)
        } else {
            lemma_find_free(g, n, k, y + 1)
        }
    }
}

/// A square grid with more than `k` free cells has a free cell of rank `k`.
pub proof fn lemma_free_cell_exists(g: Seq<Seq<u8>>, n: nat, k: nat)
    requires
        is_square(g, n),
        k < grid_count(g, 0),
    ensures
        exists|x: int, y: int| in_bounds(n as int, x, y) && g[y][x] == 0 && #[trigger] free_rank(g, x, y) == k,
{
    assert(g.take(0) =~= Seq::<Seq<u8>>::empty());
    let p = lemma_find_free(g, n, k, 0);
    assert(free_rank(g, p.0, p.1) == k);
}

} // verus!
