use vstd::prelude::*;

verus! {

/// The value of an empty cell.
pub const EMPTY: u8 = 9;

/// Cells are numbered 0 to 80 in row-major order: cell `9 * y + x` lies in
/// column `x` and row `y`.
pub open spec fn cell_index(x: int, y: int) -> int {
    9 * y + x
}

/// The row of cell `i`.
pub open spec fn row_of(i: int) -> int {
    i / 9
}

/// The column of cell `i`.
pub open spec fn col_of(i: int) -> int {
    i % 9
}

/// Two cells lie in the same 3x3 box.
pub open spec fn same_box(i: int, j: int) -> bool {
    row_of(i) / 3 == row_of(j) / 3 && col_of(i) / 3 == col_of(j) / 3
}

/// Two cells share a row, a column or a box (a cell is related to itself).
pub open spec fn related(i: int, j: int) -> bool {
    row_of(i) == row_of(j) || col_of(i) == col_of(j) || same_box(i, j)
}

/// Two distinct cells that share a row, a column or a box.
pub open spec fn peers(i: int, j: int) -> bool {
    i != j && related(i, j)
}

/// `i` numbers a cell.
pub open spec fn on_grid(i: int) -> bool {
    0 <= i < 81
}

/// 81 cells, each a value 0 to 8 or `EMPTY`.
pub open spec fn grid_ok(g: Seq<u8>) -> bool {
    g.len() == 81 && forall|i: int| on_grid(i) ==> #[trigger] g[i] <= EMPTY
}

/// Value `v` may still be placed at cell `i`: no related cell holds it.
pub open spec fn open_at(g: Seq<u8>, i: int, v: int) -> bool {
    forall|j: int| on_grid(j) && related(i, j) ==> #[trigger] g[j] != v
}

/// No two peers hold the same value.
pub open spec fn conflict_free(g: Seq<u8>) -> bool {
    forall|i: int, j: int|
        on_grid(i) && on_grid(j) && peers(i, j) && g[i] != EMPTY ==> #[trigger] g[i] != #[trigger] g[j]
}

/// Every cell holds a value.
pub open spec fn complete(g: Seq<u8>) -> bool {
    forall|i: int| on_grid(i) ==> #[trigger] g[i] < EMPTY
}

/// `s` agrees with every filled cell of `g`.
pub open spec fn extends(s: Seq<u8>, g: Seq<u8>) -> bool {
    forall|i: int| on_grid(i) && g[i] != EMPTY ==> #[trigger] s[i] == g[i]
}

/// `s` is a solved grid that keeps the givens of `g`.
pub open spec fn is_solution_of(s: Seq<u8>, g: Seq<u8>) -> bool {
    grid_ok(s) && complete(s) && conflict_free(s) && extends(s, g)
}

/// `g` keeps the filled cells of `e`, and any two peers of `g` with the same
/// value were both filled in `e` already.
pub open spec fn sound_fill(e: Seq<u8>, g: Seq<u8>) -> bool {
    &&& extends(g, e)
    &&& forall|i: int, j: int|
        on_grid(i) && on_grid(j) && peers(i, j) && g[i] != EMPTY && #[trigger] g[i] == #[trigger] g[j]
            ==> e[i] != EMPTY && e[j] != EMPTY
}

/// The first `k` cells of `g`, the others empty.
pub open spec fn prefix_grid(g: Seq<u8>, k: int) -> Seq<u8> {
    Seq::new(81, |i: int| if i < k { g[i] } else { EMPTY })
}

/// The first `k + 1` cells: the first `k` with cell `k` filled in.
pub proof fn lemma_prefix_step(g: Seq<u8>, k: int)
    requires
        g.len() == 81,
        0 <= k < 81,
    ensures
        prefix_grid(g, k)[k] == EMPTY,
        g[k] == EMPTY ==> prefix_grid(g, k + 1) == prefix_grid(g, k),
        prefix_grid(g, k + 1) == prefix_grid(g, k).update(k, g[k]),
{
    assert(prefix_grid(g, k + 1) =~= prefix_grid(g, k).update(k, g[k]));
    if g[k] == EMPTY {
        assert(prefix_grid(g, k + 1) =~= prefix_grid(g, k));
    }
}

/// Filling cell `k` of a conflict-free prefix with a value still open there
/// keeps it conflict-free.
pub proof fn lemma_conflict_free_step(g: Seq<u8>, k: int)
    requires
        g.len() == 81,
        0 <= k < 81,
        conflict_free(prefix_grid(g, k)),
        g[k] != EMPTY ==> open_at(prefix_grid(g, k), k, g[k] as int),
    ensures
        conflict_free(prefix_grid(g, k + 1)),
{
    let p = prefix_grid(g, k);
    let q = prefix_grid(g, k + 1);
    assert forall|i: int, j: int|
        on_grid(i) && on_grid(j) && peers(i, j) && q[i] != EMPTY implies #[trigger] q[i] != #[trigger] q[j] by {
        if i == k {
            assert(p[j] != g[k]);
        } else if j == k {
            assert(related(k, i));
            assert(p[i] != g[k]);
        } else {
            assert(p[i] != p[j]);
        }
    }
}

/// In a conflict-free grid, the value of filled cell `k` is still open there
/// once only the cells before it are placed.
pub proof fn lemma_conflict_free_open(g: Seq<u8>, k: int)
    requires
        g.len() == 81,
        0 <= k < 81,
        conflict_free(g),
        g[k] != EMPTY,
    ensures
        open_at(prefix_grid(g, k), k, g[k] as int),
{
    let p = prefix_grid(g, k);
    assert forall|j: int| on_grid(j) && related(k, j) implies #[trigger] p[j] != g[k] by {
        if j < k {
            assert(peers(k, j));
            assert(g[k] != g[j]);
        }
    }
}

/// A value at cell `k` that an earlier related cell already holds is a conflict.
pub proof fn lemma_conflict_found(g: Seq<u8>, k: int)
    requires
        g.len() == 81,
        0 <= k < 81,
        g[k] != EMPTY,
        !open_at(prefix_grid(g, k), k, g[k] as int),
    ensures
        !conflict_free(g),
{
    let p = prefix_grid(g, k);
    let j = choose|j: int| on_grid(j) && related(k, j) && #[trigger] p[j] == g[k];
    assert(j < k);
    assert(peers(j, k) && g[j] != EMPTY && g[j] == g[k]);
}

/// A value that a solution of `g` puts in an empty cell of `g` is still open
/// there.
pub proof fn lemma_solution_value_open(s: Seq<u8>, g: Seq<u8>, c: int)
    requires
        is_solution_of(s, g),
        g.len() == 81,
        on_grid(c),
        g[c] == EMPTY,
    ensures
        open_at(g, c, s[c] as int),
{
    assert forall|j: int| on_grid(j) && related(c, j) implies #[trigger] g[j] != s[c] by {
        if j != c && g[j] != EMPTY {
            assert(peers(c, j));
            assert(s[c] != s[j]);
        }
    }
}

/// A value open at an empty cell is not in that cell.
pub proof fn lemma_open_at_self(g: Seq<u8>, c: int, v: int)
    requires
        open_at(g, c, v),
        on_grid(c),
    ensures
        g[c] != v,
{
    assert(related(c, c));
}

/// Placing a value that is open at an empty cell keeps a sound fill sound.
pub proof fn lemma_sound_fill_step(e: Seq<u8>, g: Seq<u8>, c: int, v: int)
    requires
        sound_fill(e, g),
        g.len() == 81,
        on_grid(c),
        g[c] == EMPTY,
        0 <= v < 9,
        open_at(g, c, v),
    ensures
        sound_fill(e, g.update(c, v as u8)),
{
    let h = g.update(c, v as u8);
    assert forall|i: int, j: int|
        on_grid(i) && on_grid(j) && peers(i, j) && h[i] != EMPTY && #[trigger] h[i] == #[trigger] h[j] implies e[i]
        != EMPTY && e[j] != EMPTY by {
        if i == c {
            assert(g[j] == v);
        } else if j == c {
            assert(related(c, i));
            assert(g[i] == v);
        } else {
            assert(g[i] == g[j]);
        }
    }
    assert forall|i: int| on_grid(i) && e[i] != EMPTY implies #[trigger] h[i] == e[i] by {
        assert(g[i] == e[i]);
    }
}

/// Sound fills compose.
pub proof fn lemma_sound_fill_trans(a: Seq<u8>, b: Seq<u8>, c: Seq<u8>)
    requires
        sound_fill(a, b),
        sound_fill(b, c),
    ensures
        sound_fill(a, c),
{
    assert forall|i: int, j: int|
        on_grid(i) && on_grid(j) && peers(i, j) && c[i] != EMPTY && #[trigger] c[i] == #[trigger] c[j] implies a[i]
        != EMPTY && a[j] != EMPTY by {
        assert(b[i] != EMPTY && b[j] != EMPTY);
        assert(b[i] == c[i] && b[j] == c[j]);
    }
    assert forall|i: int| on_grid(i) && a[i] != EMPTY implies #[trigger] c[i] == a[i] by {
        assert(b[i] == a[i]);
    }
}

/// Cell `k` (0 to 8) of group `gi`: rows 0 to 8, then columns 9 to 17, then
/// boxes 18 to 26, each read in row-major order.
pub open spec fn group_cell(gi: int, k: int) -> int {
    if gi < 9 {
        cell_index(k, gi)
    } else if gi < 18 {
        cell_index(gi - 9, k)
    } else {
        cell_index(3 * ((gi - 18) % 3) + k % 3, 3 * ((gi - 18) / 3) + k / 3)
    }
}

/// The column of cell `k` of group `gi`.
pub open spec fn group_x(gi: int, k: int) -> int {
    if gi < 9 {
        k
    } else if gi < 18 {
        gi - 9
    } else {
        3 * ((gi - 18) % 3) + k % 3
    }
}

/// The row of cell `k` of group `gi`.
pub open spec fn group_y(gi: int, k: int) -> int {
    if gi < 9 {
        gi
    } else if gi < 18 {
        k
    } else {
        3 * ((gi - 18) / 3) + k / 3
    }
}

/// Where cell `k` of group `gi` lies.
pub proof fn lemma_group_cell(gi: int, k: int)
    requires
        0 <= gi < 27,
        0 <= k < 9,
    ensures
        0 <= group_x(gi, k) < 9,
        0 <= group_y(gi, k) < 9,
        group_cell(gi, k) == cell_index(group_x(gi, k), group_y(gi, k)),
        on_grid(group_cell(gi, k)),
        row_of(group_cell(gi, k)) == group_y(gi, k),
        col_of(group_cell(gi, k)) == group_x(gi, k),
{
    if gi >= 18 {
        let b = gi - 18;
        lemma_box_cell(3 * (b % 3), 3 * (b / 3), k);
    }
    lemma_cell_coords(group_x(gi, k), group_y(gi, k));
}

/// Two cells of one group are peers.
pub proof fn lemma_group_peers(gi: int, k1: int, k2: int)
    requires
        0 <= gi < 27,
        0 <= k1 < 9,
        0 <= k2 < 9,
        k1 != k2,
    ensures
        peers(group_cell(gi, k1), group_cell(gi, k2)),
{
    lemma_group_cell(gi, k1);
    lemma_group_cell(gi, k2);
    if gi >= 18 {
        let b = gi - 18;
        lemma_box_cell(3 * (b % 3), 3 * (b / 3), k1);
        lemma_box_cell(3 * (b % 3), 3 * (b / 3), k2);
        vstd::arithmetic::div_mod::lemma_fundamental_div_mod(k1, 3);
        vstd::arithmetic::div_mod::lemma_fundamental_div_mod(k2, 3);
    }
}

/// Every value appears in every group of a solved, conflict-free grid.
pub proof fn lemma_group_has_value(s: Seq<u8>, gi: int, n: int) -> (k: int)
    requires
        grid_ok(s),
        complete(s),
        conflict_free(s),
        0 <= gi < 27,
        0 <= n < 9,
    ensures
        0 <= k < 9,
        s[group_cell(gi, k)] == n,
{
    let f = |k: int| s[group_cell(gi, k)] as int;
    let dom = vstd::set_lib::set_int_range(0, 9);
    vstd::set_lib::lemma_int_range(0, 9);
    assert(vstd::relations::injective_on(f, dom)) by {
        assert forall|a: int, b: int| dom.contains(a) && dom.contains(b) && #[trigger] f(a) == #[trigger] f(b) implies a
            == b by {
            if a != b {
                lemma_group_peers(gi, a, b);
                lemma_group_cell(gi, a);
                lemma_group_cell(gi, b);
                assert(s[group_cell(gi, a)] != s[group_cell(gi, b)]);
            }
        }
    }
    let vals = dom.map(f);
    vstd::set_lib::lemma_map_size(dom, vals, f);
    assert(vals.subset_of(dom)) by {
        assert forall|v: int| vals.contains(v) implies dom.contains(v) by {
            let a = choose|a: int| dom.contains(a) && f(a) == v;
            lemma_group_cell(gi, a);
            assert(s[group_cell(gi, a)] < 9);
        }
    }
    vstd::set_lib::lemma_subset_equality(vals, dom);
    assert(dom.contains(n));
    assert(vals.contains(n));
    let k = choose|k: int| dom.contains(k) && f(k) == n;
    k
}

/// A solution of `g` has no clash among the givens of `g`, so `g` is
/// conflict-free.
pub proof fn lemma_solvable_conflict_free(s: Seq<u8>, g: Seq<u8>)
    requires
        is_solution_of(s, g),
    ensures
        conflict_free(g),
{
    assert forall|i: int, j: int| on_grid(i) && on_grid(j) && peers(i, j) && g[i] != EMPTY implies #[trigger] g[i]
        != #[trigger] g[j] by {
        if g[j] != EMPTY {
            assert(s[i] == g[i] && s[j] == g[j]);
            assert(s[i] != s[j]);
        }
    }
}

/// A complete sound fill of a conflict-free grid is one of its solutions.
pub proof fn lemma_sound_fill_solution(g: Seq<u8>, s: Seq<u8>)
    requires
        conflict_free(g),
        sound_fill(g, s),
        grid_ok(s),
        complete(s),
    ensures
        is_solution_of(s, g),
{
    assert forall|i: int, j: int| on_grid(i) && on_grid(j) && peers(i, j) && s[i] != EMPTY implies #[trigger] s[i]
        != #[trigger] s[j] by {
        if s[i] == s[j] {
            assert(g[i] != EMPTY && g[j] != EMPTY);
            assert(g[i] == s[i] && g[j] == s[j]);
        }
    }
}

/// A grid with no filled cell has no conflict.
pub proof fn lemma_empty_grid_conflict_free(g: Seq<u8>)
    requires
        forall|i: int| on_grid(i) ==> #[trigger] g[i] == EMPTY,
    ensures
        conflict_free(g),
{
}

/// Number of empty cells among the first `n`.
pub open spec fn count_empty(g: Seq<u8>, n: int) -> nat
    decreases n,
{
    if n <= 0 {
        0
    } else {
        count_empty(g, n - 1) + if g[n - 1] == EMPTY { 1nat } else { 0nat }
    }
}

/// Number of empty cells.
pub open spec fn empties(g: Seq<u8>) -> nat {
    count_empty(g, 81)
}

/// The row and the column of cell (`x`, `y`).
pub proof fn lemma_cell_coords(x: int, y: int)
    requires
        0 <= x < 9,
        0 <= y < 9,
    ensures
        row_of(cell_index(x, y)) == y,
        col_of(cell_index(x, y)) == x,
        on_grid(cell_index(x, y)),
{
    vstd::arithmetic::div_mod::lemma_fundamental_div_mod_converse(9 * y + x, 9, y, x);
}

/// Cell `k` (0 to 8, row-major) of the box whose top-left corner is (`bx`, `by`).
pub proof fn lemma_box_cell(bx: int, by: int, k: int)
    requires
        0 <= bx < 9,
        0 <= by < 9,
        bx % 3 == 0,
        by % 3 == 0,
        0 <= k < 9,
    ensures
        (by + k / 3) / 3 == by / 3,
        (bx + k % 3) / 3 == bx / 3,
        (by + k / 3) % 3 == k / 3,
        (bx + k % 3) % 3 == k % 3,
        0 <= by + k / 3 < 9,
        0 <= bx + k % 3 < 9,
{
    vstd::arithmetic::div_mod::lemma_fundamental_div_mod_converse(by + k / 3, 3, by / 3, k / 3);
    vstd::arithmetic::div_mod::lemma_fundamental_div_mod_converse(bx + k % 3, 3, bx / 3, k % 3);
}

/// At most `n` of the first `n` cells are empty.
pub proof fn lemma_count_empty_bound(g: Seq<u8>, n: int)
    requires
        0 <= n,
    ensures
        count_empty(g, n) <= n,
    decreases n,
{
    if n > 0 {
        lemma_count_empty_bound(g, n - 1);
    }
}

/// Changing one cell moves the number of empty cells by the change of that cell.
pub proof fn lemma_count_empty_update(g: Seq<u8>, c: int, v: u8, n: int)
    requires
        0 <= c < g.len(),
        0 <= n <= g.len(),
    ensures
        count_empty(g.update(c, v), n) + (if c < n && g[c] == EMPTY { 1int } else { 0int }) == count_empty(g, n)
            + (if c < n && v == EMPTY { 1int } else { 0int }),
    decreases n,
{
    if n > 0 {
        lemma_count_empty_update(g, c, v, n - 1);
    }
}

/// No empty cell among the first `n` exactly when the count is zero.
pub proof fn lemma_count_empty_zero(g: Seq<u8>, n: int)
    requires
        0 <= n <= g.len(),
    ensures
        (count_empty(g, n) == 0) == (forall|i: int| 0 <= i < n ==> #[trigger] g[i] != EMPTY),
    decreases n,
{
    if n > 0 {
        lemma_count_empty_zero(g, n - 1);
    }
}

} // verus!
