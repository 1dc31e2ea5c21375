use vstd::prelude::*;
use crate::board::{
    eliminated, holds, lemma_eliminated_reflects, lemma_clear_bit, lemma_no_candidate,
    lemma_single_candidate, reflects, Possibilities,
};
use crate::rules::{
    cell_index, complete, empties, extends, grid_ok, group_cell, group_x, group_y, is_solution_of,
    lemma_cell_coords, lemma_count_empty_bound, lemma_count_empty_zero, lemma_group_cell,
    lemma_group_has_value, lemma_open_at_self, lemma_solution_value_open, lemma_sound_fill_step,
    lemma_sound_fill_trans, on_grid, open_at, sound_fill, EMPTY, conflict_free, peers,
    lemma_solvable_conflict_free, lemma_sound_fill_solution,
};
use crate::solution::{log_cell, log_entries, log_on_grid, log_push, logged, new_log, Solution, UndoLog};

verus! {

/// What one search step owns: every cell `log` names was empty in the grid
/// `e` the step started from, every other cell is still as in `e`, and the
/// log holds one entry per cell filled since.
pub open spec fn frame(e: Seq<u8>, g: Seq<u8>, log: Seq<(u8, u8)>) -> bool {
    &&& log_on_grid(log)
    &&& log.len() + empties(g) == empties(e)
    &&& forall|i: int| on_grid(i) && #[trigger] logged(log, 0, i) ==> e[i] == EMPTY
    &&& forall|i: int| on_grid(i) && !logged(log, 0, i) ==> #[trigger] g[i] == e[i]
}

/// Every solution of `e` is a solution of `g`: what `g` adds to `e` is forced.
pub open spec fn forced(e: Seq<u8>, g: Seq<u8>) -> bool {
    forall|s: Seq<u8>| #[trigger] is_solution_of(s, e) ==> is_solution_of(s, g)
}

/// A pushed entry adds its cell to the logged ones.
proof fn lemma_logged_push(entries: Seq<(u8, u8)>, pushed: Seq<(u8, u8)>, x: u8, y: u8)
    requires
        pushed == entries.push((x, y)),
        log_on_grid(entries),
        x < 9,
        y < 9,
    ensures
        log_on_grid(pushed),
        forall|i: int|
            on_grid(i) ==> #[trigger] logged(pushed, 0, i) == (logged(entries, 0, i) || i == cell_index(
                x as int,
                y as int,
            )),
{
    let c = cell_index(x as int, y as int);
    assert(pushed[pushed.len() - 1] == (x, y));
    assert forall|i: int| on_grid(i) implies #[trigger] logged(pushed, 0, i) == (logged(entries, 0, i) || i == c) by {
        if logged(pushed, 0, i) {
            let t = choose|t: int| 0 <= t < pushed.len() && #[trigger] log_cell(pushed[t]) == i;
            if t < entries.len() {
                assert(pushed[t] == entries[t]);
                assert(logged(entries, 0, i));
            }
        }
        if logged(entries, 0, i) {
            let t = choose|t: int| 0 <= t < entries.len() && #[trigger] log_cell(entries[t]) == i;
            assert(pushed[t] == entries[t]);
            assert(logged(pushed, 0, i));
        }
        if i == c {
            assert(log_cell(pushed[pushed.len() - 1]) == c);
            assert(logged(pushed, 0, i));
        }
    }
    assert forall|t: int| 0 <= t < pushed.len() implies (#[trigger] pushed[t]).0 < 9 && pushed[t].1 < 9 by {
        if t < entries.len() {
            assert(pushed[t] == entries[t]);
        }
    }
}

/// Places `val` in the empty cell (`x`, `y`), removes it from the related
/// masks and records the cell in the log.
fn commit(
    solution: &mut Solution,
    possibilities: &mut Possibilities,
    log: &mut UndoLog,
    x: usize,
    y: usize,
    val: u8,
    Ghost(e): Ghost<Seq<u8>>,
)
    requires
        x < 9,
        y < 9,
        val < 9,
        grid_ok(e),
        grid_ok(old(solution)@),
        old(solution)@[cell_index(x as int, y as int)] == EMPTY,
        holds(old(possibilities)@[cell_index(x as int, y as int)], val as int),
        reflects(old(possibilities)@, old(solution)@),
        frame(e, old(solution)@, log_entries(*old(log))),
        sound_fill(e, old(solution)@),
    ensures
        final(solution)@ == old(solution)@.update(cell_index(x as int, y as int), val),
        final(possibilities)@ == eliminated(old(possibilities)@, cell_index(x as int, y as int), val as int),
        grid_ok(final(solution)@),
        reflects(final(possibilities)@, final(solution)@),
        frame(e, final(solution)@, log_entries(*final(log))),
        sound_fill(e, final(solution)@),
        empties(final(solution)@) + 1 == empties(old(solution)@),
{
    let ghost c = cell_index(x as int, y as int);
    let ghost g = solution@;
    let ghost entries = log_entries(*log);
    proof {
        lemma_cell_coords(x as int, y as int);
        lemma_eliminated_reflects(possibilities@, g, c, val as int);
        lemma_sound_fill_step(e, g, c, val as int);
        lemma_count_empty_zero(g, 81);
        lemma_count_empty_bound(e, 81);
    }
    solution.set(x, y, val);
    possibilities.update_found(x, y, val);
    log_push(log, (x as u8, y as u8));
    proof {
        lemma_logged_push(entries, log_entries(*log), x as u8, y as u8);
        if !logged(entries, 0, c) {
            assert(g[c] == e[c]);
        }
    }
}

/// Cell `c` of `g` holds `n`, or is empty with `n` among its candidates.
pub open spec fn offers(g: Seq<u8>, p: Seq<u16>, c: int, n: int) -> bool {
    g[c] == n || (g[c] == EMPTY && holds(p[c], n))
}

/// What a scan of the first `k0` cells of group `gi` knows of value `n`:
/// `EMPTY` when none of them offers it, a position when exactly that one
/// offers it (an empty cell), anything above when it is known not to be a
/// hidden single.
pub open spec fn scan_ok(g: Seq<u8>, p: Seq<u16>, gi: int, found: u8, n: int, k0: int) -> bool {
    &&& found <= 10
    &&& found == 9 ==> forall|k: int| 0 <= k < k0 ==> !#[trigger] offers(g, p, group_cell(gi, k), n)
    &&& found < 9 ==> {
        &&& found < k0
        &&& g[group_cell(gi, found as int)] == EMPTY
        &&& holds(p[group_cell(gi, found as int)], n)
        &&& forall|k: int| 0 <= k < k0 && k != found ==> !#[trigger] offers(g, p, group_cell(gi, k), n)
    }
}

/// The column and the row of cell `k` of group `gi`.
fn group_xy(gi: usize, k: usize) -> (r: (usize, usize))
    requires
        gi < 27,
        k < 9,
    ensures
        r.0 == group_x(gi as int, k as int),
        r.1 == group_y(gi as int, k as int),
        r.0 < 9,
        r.1 < 9,
{
    proof {
        lemma_group_cell(gi as int, k as int);
    }
    if gi < 9 {
        (k, gi)
    } else if gi < 18 {
        (gi - 9, k)
    } else {
        let b = gi - 18;
        (3 * (b % 3) + k % 3, 3 * (b / 3) + k / 3)
    }
}

/// When only cell `found` of group `gi` offers `n` after a full scan, every
/// solution puts `n` there.
proof fn lemma_hidden_forced(g: Seq<u8>, p: Seq<u16>, gi: int, found: u8, n: int, s: Seq<u8>)
    requires
        grid_ok(g),
        reflects(p, g),
        0 <= gi < 27,
        0 <= n < 9,
        found < 9,
        scan_ok(g, p, gi, found, n, 9),
        is_solution_of(s, g),
    ensures
        s[group_cell(gi, found as int)] == n,
{
    let k = lemma_group_has_value(s, gi, n);
    lemma_group_cell(gi, k);
    let c = group_cell(gi, k);
    if k != found {
        assert(!offers(g, p, c, n));
        if g[c] == EMPTY {
            lemma_solution_value_open(s, g, c);
            assert(holds(p[c], s[c] as int));
        } else {
            assert(s[c] == g[c]);
        }
    }
}

/// Places every value that exactly one cell of group `gi` (a row, a column or
/// a box) can take and that no cell of it holds yet. `None` when such a cell
/// was filled meanwhile, which leaves the grid without solution; otherwise
/// whether anything was placed.
#[verifier::rlimit(40)]
fn hidden_singles(
    gi: usize,
    solution: &mut Solution,
    possibilities: &mut Possibilities,
    log: &mut UndoLog,
    Ghost(e): Ghost<Seq<u8>>,
) -> (r: Option<bool>)
    requires
        gi < 27,
        grid_ok(e),
        grid_ok(old(solution)@),
        reflects(old(possibilities)@, old(solution)@),
        frame(e, old(solution)@, log_entries(*old(log))),
        sound_fill(e, old(solution)@),
    ensures
        grid_ok(final(solution)@),
        reflects(final(possibilities)@, final(solution)@),
        frame(e, final(solution)@, log_entries(*final(log))),
        sound_fill(e, final(solution)@),
        extends(final(solution)@, old(solution)@),
        forced(old(solution)@, final(solution)@),
        r is None ==> forall|s: Seq<u8>| !is_solution_of(s, old(solution)@),
        r == Some(false) ==> final(solution)@ == old(solution)@,
        r == Some(true) ==> empties(final(solution)@) < empties(old(solution)@),
{
    let ghost g0 = solution@;
    let ghost scanned = possibilities@;
    let mut found: [u8; 9] = [9u8; 9];
    let mut k: usize = 0;
    while k < 9
        invariant
            gi < 27,
            k <= 9,
            g0 == solution@,
            scanned == possibilities@,
            grid_ok(g0),
            forall|n: int| 0 <= n < 9 ==> scan_ok(g0, scanned, gi as int, #[trigger] found@[n], n, k as int),
        decreases 9 - k,
    {
        let (x, y) = group_xy(gi, k);
        proof {
            lemma_group_cell(gi as int, k as int);
        }
        let ghost c = group_cell(gi as int, k as int);
        let sg = solution.get(x, y);
        if sg != EMPTY {
            found[sg as usize] = 10;
            proof {
                assert forall|n: int| 0 <= n < 9 implies scan_ok(g0, scanned, gi as int, #[trigger] found@[n], n, k + 1) by {
                    if n != sg {
                        assert(!offers(g0, scanned, c, n));
                    }
                }
            }
        } else {
            let cell = possibilities.get(x, y);
            let mut n: u8 = 0;
            while n < 9
                invariant
                    gi < 27,
                    k < 9,
                    n <= 9,
                    g0 == solution@,
                    scanned == possibilities@,
                    grid_ok(g0),
                    c == group_cell(gi as int, k as int),
                    on_grid(c),
                    g0[c] == EMPTY,
                    cell@ == scanned[c],
                    forall|m: int|
                        0 <= m < 9 ==> scan_ok(g0, scanned, gi as int, #[trigger] found@[m], m, if m < n { k + 1 } else { k as int }),
                decreases 9 - n,
            {
                if cell.has(n) {
                    if found[n as usize] == 9 {
                        found[n as usize] = k as u8;
                    } else {
                        found[n as usize] = 10;
                    }
                }
                proof {
                    assert forall|m: int| 0 <= m < 9 implies scan_ok(g0, scanned, gi as int, #[trigger] found@[m], m, if m < n + 1 { k + 1 } else { k as int }) by {
                        if m == n {
                            if !holds(scanned[c], m) {
                                assert(!offers(g0, scanned, c, m));
                            }
                        }
                    }
                }
                n = n + 1;
            }
        }
        k = k + 1;
    }
    proof {
        assert forall|n: int, s: Seq<u8>| 0 <= n < 9 && found@[n] < 9 && #[trigger] is_solution_of(s, g0) implies s[group_cell(gi as int, #[trigger] found@[n] as int)] == n by {
            lemma_hidden_forced(g0, scanned, gi as int, found@[n], n, s);
        }
    }
    let mut changed = false;
    let mut n: u8 = 0;
    while n < 9
        invariant
            gi < 27,
            n <= 9,
            grid_ok(e),
            grid_ok(g0),
            grid_ok(solution@),
            reflects(possibilities@, solution@),
            frame(e, solution@, log_entries(*log)),
            sound_fill(e, solution@),
            extends(solution@, g0),
            forced(g0, solution@),
            g0 == old(solution)@,
            !changed ==> solution@ == g0,
            changed ==> empties(solution@) < empties(g0),
            forall|m: int| n <= m < 9 && found@[m] < 9 ==> holds(possibilities@[group_cell(gi as int, found@[m] as int)], m),
            forall|m: int, s: Seq<u8>| 0 <= m < 9 && found@[m] < 9 && #[trigger] is_solution_of(s, g0) ==> s[group_cell(gi as int, #[trigger] found@[m] as int)] == m,
        decreases 9 - n,
    {
        let f = found[n as usize];
        if f <= 8 {
            let (x, y) = group_xy(gi, f as usize);
            proof {
                lemma_group_cell(gi as int, f as int);
            }
            let ghost c = group_cell(gi as int, f as int);
            if solution.get(x, y) != EMPTY {
                proof {
                    assert forall|s: Seq<u8>| !is_solution_of(s, g0) by {
                        if is_solution_of(s, g0) {
                            assert(is_solution_of(s, solution@));
                            assert(s[c] == n);
                            lemma_open_at_self(solution@, c, n as int);
                        }
                    }
                }
                return None;
            }
            let ghost g1 = solution@;
            let ghost masks_before = possibilities@;
            commit(solution, possibilities, log, x, y, n, Ghost(e));
            proof {
                lemma_cell_coords(x as int, y as int);
                assert forall|m: int| n + 1 <= m < 9 && found@[m] < 9 implies holds(possibilities@[group_cell(gi as int, found@[m] as int)], m) by {
                    lemma_group_cell(gi as int, found@[m] as int);
                    lemma_clear_bit(masks_before[group_cell(gi as int, found@[m] as int)], n as u16, m as u16);
                }
                assert forall|s: Seq<u8>| #[trigger] is_solution_of(s, g0) implies is_solution_of(s, solution@) by {
                    assert(is_solution_of(s, g1));
                    assert(s[c] == n);
                }
                assert forall|i: int| on_grid(i) && g0[i] != EMPTY implies #[trigger] solution@[i] == g0[i] by {
                    assert(g1[i] == g0[i]);
                }
            }
            changed = true;
        }
        n = n + 1;
    }
    Some(changed)
}

/// Where a search step may branch: an empty cell, or no cell at all when the
/// grid is complete.
pub open spec fn branch_cell_ok(pos: Option<(usize, usize)>, g: Seq<u8>) -> bool {
    match pos {
        Some((x, y)) => x < 9 && y < 9 && g[cell_index(x as int, y as int)] == EMPTY,
        None => complete(g),
    }
}

/// Empties every cell the log names; the grid is then the one the step
/// started from.
fn restore(solution: &mut Solution, log: &mut UndoLog, Ghost(e): Ghost<Seq<u8>>)
    requires
        grid_ok(e),
        log_on_grid(log_entries(*old(log))),
        forall|i: int| on_grid(i) && #[trigger] logged(log_entries(*old(log)), 0, i) ==> e[i] == EMPTY,
        forall|i: int| on_grid(i) && !logged(log_entries(*old(log)), 0, i) ==> #[trigger] old(solution)@[i] == e[i],
    ensures
        final(solution)@ == e,
{
    let ghost g = solution@;
    let ghost entries = log_entries(*log);
    solution.undo(log, 0);
    proof {
        assert forall|i: int| 0 <= i < 81 implies #[trigger] solution@[i] == e[i] by {
            if !logged(entries, 0, i) {
                assert(g[i] == e[i]);
            }
        }
        assert(solution@ =~= e);
    }
}

/// Every grid is a sound fill of itself.
proof fn lemma_sound_fill_refl(g: Seq<u8>)
    ensures
        sound_fill(g, g),
{
}

/// One step of the search. Fills cells forced by single candidates and
/// hidden singles until nothing changes, then tries each candidate of the
/// empty cell with the fewest, in ascending order, one recursive step each.
/// Leaves the grid solved, or as it found it when no solution exists.
#[verifier::rlimit(40)]
pub fn recursively_attempt(possibilities: Possibilities, solution: &mut Solution)
    requires
        reflects(possibilities@, old(solution)@),
    ensures
        grid_ok(final(solution)@),
        sound_fill(old(solution)@, final(solution)@),
        complete(old(solution)@) ==> final(solution)@ == old(solution)@,
        !complete(final(solution)@) ==> final(solution)@ == old(solution)@,
        forall|s: Seq<u8>| is_solution_of(s, old(solution)@) ==> complete(final(solution)@),
    decreases empties(old(solution)@),
{
    let mut possibilities = possibilities;
    if solution.solved() {
        return;
    }
    let ghost e = solution@;
    let mut log = new_log();
    proof {
        let l = log_entries(log);
        assert forall|i: int| on_grid(i) implies !#[trigger] logged(l, 0, i) by {}
        lemma_sound_fill_refl(e);
    }
    let mut change = true;
    let mut first_pass = true;
    let mut lowest_pos: Option<(usize, usize)> = None;
    while change
        invariant
            grid_ok(e),
            e == old(solution)@,
            !complete(e),
            grid_ok(solution@),
            reflects(possibilities@, solution@),
            frame(e, solution@, log_entries(log)),
            sound_fill(e, solution@),
            forced(e, solution@),
            !change ==> branch_cell_ok(lowest_pos, solution@),
        decreases empties(solution@) + if change { 1int } else { 0int },
    {
        if solution.solved() {
            return;
        }
        change = false;
        let mut lowest: u8 = 10;
        lowest_pos = None;
        let ghost start = solution@;
        let mut y: usize = 0;
        while y < 9
            invariant
                y <= 9,
                grid_ok(e),
                e == old(solution)@,
                !complete(e),
                grid_ok(solution@),
                reflects(possibilities@, solution@),
                frame(e, solution@, log_entries(log)),
                sound_fill(e, solution@),
                forced(e, solution@),
                extends(solution@, start),
                !change ==> solution@ == start,
                change ==> empties(solution@) < empties(start),
                lowest_pos matches Some((lx, ly)) ==> lx < 9 && ly < 9 && start[cell_index(lx as int, ly as int)] == EMPTY,
                lowest_pos is None ==> forall|i: int| 0 <= i < 9 * y ==> #[trigger] solution@[i] != EMPTY,
                lowest_pos is None ==> lowest == 10,
                grid_ok(start),
            decreases 9 - y,
        {
            let mut x: usize = 0;
            while x < 9
                invariant
                    x <= 9,
                    y < 9,
                    grid_ok(e),
                    e == old(solution)@,
                    !complete(e),
                    grid_ok(solution@),
                    reflects(possibilities@, solution@),
                    frame(e, solution@, log_entries(log)),
                    sound_fill(e, solution@),
                    forced(e, solution@),
                    extends(solution@, start),
                    !change ==> solution@ == start,
                    change ==> empties(solution@) < empties(start),
                    lowest_pos matches Some((lx, ly)) ==> lx < 9 && ly < 9 && start[cell_index(lx as int, ly as int)] == EMPTY,
                    lowest_pos is None ==> forall|i: int| 0 <= i < 9 * y + x ==> #[trigger] solution@[i] != EMPTY,
                    lowest_pos is None ==> lowest == 10,
                    grid_ok(start),
                decreases 9 - x,
            {
                proof {
                    lemma_cell_coords(x as int, y as int);
                }
                let ghost c = cell_index(x as int, y as int);
                let sg = solution.get(x, y);
                if sg == EMPTY {
                    let cell = possibilities.get(x, y);
                    let count = cell.bits_set();
                    proof {
                        crate::board::lemma_count_bound(cell@, 9);
                    }
                    if count == 0 {
                        proof {
                            assert forall|s: Seq<u8>| !is_solution_of(s, e) by {
                                if is_solution_of(s, e) {
                                    assert(is_solution_of(s, solution@));
                                    lemma_solution_value_open(s, solution@, c);
                                    lemma_no_candidate(cell@, s[c] as int);
                                }
                            }
                        }
                        restore(solution, &mut log, Ghost(e));
                        return;
                    }
                    if count == 1 {
                        let val = cell.find_single_bit();
                        let ghost g1 = solution@;
                        commit(solution, &mut possibilities, &mut log, x, y, val, Ghost(e));
                        proof {
                            assert forall|s: Seq<u8>| #[trigger] is_solution_of(s, e) implies is_solution_of(s, solution@) by {
                                assert(is_solution_of(s, g1));
                                lemma_solution_value_open(s, g1, c);
                                lemma_single_candidate(cell@, s[c] as int, val as int);
                            }
                            assert forall|i: int| on_grid(i) && start[i] != EMPTY implies #[trigger] solution@[i] == start[i] by {
                                assert(g1[i] == start[i]);
                            }
                        }
                        change = true;
                    } else if count < lowest {
                        lowest = count;
                        lowest_pos = Some((x, y));
                        proof {
                            if start[c] != EMPTY {
                                assert(solution@[c] == start[c]);
                            }
                        }
                    }
                }
                x = x + 1;
            }
            if first_pass {
                let ghost g1 = solution@;
                match hidden_singles(y, solution, &mut possibilities, &mut log, Ghost(e)) {
                    None => {
                        proof {
                            assert forall|s: Seq<u8>| !is_solution_of(s, e) by {
                                if is_solution_of(s, e) {
                                    assert(is_solution_of(s, g1));
                                }
                            }
                        }
                        restore(solution, &mut log, Ghost(e));
                        return;
                    },
                    Some(placed) => {
                        proof {
                            assert forall|s: Seq<u8>| #[trigger] is_solution_of(s, e) implies is_solution_of(s, solution@) by {
                                assert(is_solution_of(s, g1));
                            }
                            assert forall|i: int| on_grid(i) && start[i] != EMPTY implies #[trigger] solution@[i] == start[i] by {
                                assert(g1[i] == start[i]);
                            }
                        }
                        if placed {
                            change = true;
                        }
                    },
                }
            }
            y = y + 1;
        }
        if first_pass {
            first_pass = false;
            let mut gi: usize = 9;
            while gi < 27
                invariant
                    9 <= gi <= 27,
                    grid_ok(e),
                    e == old(solution)@,
                    !complete(e),
                    grid_ok(solution@),
                    reflects(possibilities@, solution@),
                    frame(e, solution@, log_entries(log)),
                    sound_fill(e, solution@),
                    forced(e, solution@),
                    extends(solution@, start),
                    !change ==> solution@ == start,
                    change ==> empties(solution@) < empties(start),
                    !change ==> branch_cell_ok(lowest_pos, solution@),
                    grid_ok(start),
                decreases 27 - gi,
            {
                let ghost g1 = solution@;
                match hidden_singles(gi, solution, &mut possibilities, &mut log, Ghost(e)) {
                    None => {
                        proof {
                            assert forall|s: Seq<u8>| !is_solution_of(s, e) by {
                                if is_solution_of(s, e) {
                                    assert(is_solution_of(s, g1));
                                }
                            }
                        }
                        restore(solution, &mut log, Ghost(e));
                        return;
                    },
                    Some(placed) => {
                        proof {
                            assert forall|s: Seq<u8>| #[trigger] is_solution_of(s, e) implies is_solution_of(s, solution@) by {
                                assert(is_solution_of(s, g1));
                            }
                            assert forall|i: int| on_grid(i) && start[i] != EMPTY implies #[trigger] solution@[i] == start[i] by {
                                assert(g1[i] == start[i]);
                            }
                        }
                        if placed {
                            change = true;
                        }
                    },
                }
                gi = gi + 1;
            }
        }
    }
    if solution.solved() {
        return;
    }
    let (x, y) = match lowest_pos {
        Some(pos) => pos,
        None => {
            restore(solution, &mut log, Ghost(e));
            return;
        },
    };
    proof {
        lemma_cell_coords(x as int, y as int);
        lemma_count_empty_zero(solution@, 81);
        lemma_count_empty_bound(e, 81);
    }
    let ghost c = cell_index(x as int, y as int);
    let ghost pre = solution@;
    let ghost before_push = log_entries(log);
    log_push(&mut log, (x as u8, y as u8));
    proof {
        lemma_logged_push(before_push, log_entries(log), x as u8, y as u8);
        if !logged(before_push, 0, c) {
            assert(pre[c] == e[c]);
        }
    }
    let cell = possibilities.get(x, y);
    let ghost mut last: u8 = EMPTY;
    let mut n: u8 = 0;
    while n < 9
        invariant
            x < 9,
            y < 9,
            n <= 9,
            c == cell_index(x as int, y as int),
            on_grid(c),
            grid_ok(e),
            e == old(solution)@,
            !complete(e),
            grid_ok(pre),
            pre[c] == EMPTY,
            reflects(possibilities@, pre),
            cell@ == possibilities@[c],
            frame(e, pre, before_push),
            sound_fill(e, pre),
            forced(e, pre),
            last <= EMPTY,
            solution@ == pre.update(c, last),
            grid_ok(solution@),
            log_on_grid(log_entries(log)),
            forall|i: int| on_grid(i) ==> #[trigger] logged(log_entries(log), 0, i) == (logged(before_push, 0, i) || i == c),
            e[c] == EMPTY,
            forall|s: Seq<u8>| #[trigger] is_solution_of(s, pre) ==> s[c] >= n,
        decreases 9 - n,
    {
        if cell.has(n) {
            proof {
                lemma_count_empty_zero(pre, 81);
                crate::rules::lemma_count_empty_update(pre, c, n, 81);
                assert(open_at(pre, c, n as int));
                lemma_eliminated_reflects(possibilities@, pre, c, n as int);
                lemma_sound_fill_step(e, pre, c, n as int);
                assert(pre.update(c, last).update(c, n) =~= pre.update(c, n));
            }
            solution.set(x, y, n);
            let mut next = possibilities.clone();
            next.update_found(x, y, n);
            let ghost child = solution@;
            recursively_attempt(next, solution);
            if solution.solved() {
                proof {
                    lemma_sound_fill_trans(e, child, solution@);
                }
                return;
            }
            proof {
                assert forall|s: Seq<u8>| #[trigger] is_solution_of(s, pre) implies s[c] >= n + 1 by {
                    if s[c] == n {
                        assert(is_solution_of(s, child));
                    }
                }
                last = n;
            }
        } else {
            proof {
                assert forall|s: Seq<u8>| #[trigger] is_solution_of(s, pre) implies s[c] >= n + 1 by {
                    if s[c] == n {
                        lemma_solution_value_open(s, pre, c);
                    }
                }
            }
        }
        n = n + 1;
    }
    proof {
        assert forall|s: Seq<u8>| !is_solution_of(s, e) by {
            if is_solution_of(s, e) {
                assert(is_solution_of(s, pre));
            }
        }
        assert forall|i: int| on_grid(i) && !logged(log_entries(log), 0, i) implies #[trigger] solution@[i] == e[i] by {
            assert(pre[i] == e[i]);
        }
    }
    restore(solution, &mut log, Ghost(e));
}

/// A solve's result as a grid.
pub open spec fn grid_of(r: Option<Solution>) -> Option<Seq<u8>> {
    match r {
        Some(s) => Some(s@),
        None => None,
    }
}

/// What a solve of puzzle `p` returns: one of its solutions, or `None`
/// exactly when it has none; a complete, conflict-free puzzle comes back as it
/// is. Which solution comes back when there are several is the first one the
/// fixed search order meets; this contract leaves that choice open.
pub open spec fn solve_outcome(p: Seq<u8>, r: Option<Seq<u8>>) -> bool {
    &&& match r {
        Some(s) => is_solution_of(s, p),
        None => forall|s: Seq<u8>| !is_solution_of(s, p),
    }
    &&& complete(p) && conflict_free(p) ==> r == Some(p)
}

/// Solves the puzzle: a puzzle whose givens clash has no solution; otherwise
/// the masks of its givens, then the search.
pub fn solve_backtracking(solution: Solution) -> (r: Option<Solution>)
    ensures
        solve_outcome(solution@, grid_of(r)),
{
    if !solution.is_valid() {
        proof {
            let g = solution@;
            assert forall|s: Seq<u8>| !is_solution_of(s, g) by {
                if is_solution_of(s, g) {
                    lemma_solvable_conflict_free(s, g);
                }
            }
        }
        return None;
    }
    let mut solution = solution;
    let possibilities = Possibilities::from_solution(&solution);
    let ghost p = solution@;
    recursively_attempt(possibilities, &mut solution);
    if solution.solved() {
        proof {
            lemma_sound_fill_solution(p, solution@);
        }
        Some(solution)
    } else {
        None
    }
}

/// Every grid a solve returns is free of conflicts.
pub proof fn lemma_solved_grid_conflict_free(p: Seq<u8>, s: Seq<u8>)
    requires
        solve_outcome(p, Some(s)),
    ensures
        conflict_free(s),
        complete(s),
{
}

/// Solving the grid a solve returned gives that grid back.
pub proof fn lemma_solve_idempotent(p: Seq<u8>, s: Seq<u8>, t: Option<Seq<u8>>)
    requires
        solve_outcome(p, Some(s)),
        solve_outcome(s, t),
    ensures
        t == Some(s),
{
}

/// A puzzle with exactly one solution solves to that solution.
pub proof fn lemma_unique_solution(p: Seq<u8>, r: Option<Seq<u8>>, u: Seq<u8>)
    requires
        solve_outcome(p, r),
        is_solution_of(u, p),
        forall|t: Seq<u8>| #[trigger] is_solution_of(t, p) ==> t == u,
    ensures
        r == Some(u),
{
}

/// A puzzle without solution solves to `None`.
pub proof fn lemma_unsolvable(p: Seq<u8>, r: Option<Seq<u8>>)
    requires
        solve_outcome(p, r),
        forall|t: Seq<u8>| !#[trigger] is_solution_of(t, p),
    ensures
        r is None,
{
}

/// A puzzle with the same digit given in two cells of one row, column or box
/// solves to `None`.
pub proof fn lemma_clashing_givens(p: Seq<u8>, r: Option<Seq<u8>>, i: int, j: int)
    requires
        solve_outcome(p, r),
        on_grid(i),
        on_grid(j),
        peers(i, j),
        p[i] != EMPTY,
        p[i] == p[j],
    ensures
        r is None,
{
    if let Some(s) = r {
        assert(s[i] == p[i] && s[j] == p[j]);
    }
}

} // verus!
