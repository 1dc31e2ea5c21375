use vstd::prelude::*;
use crate::rules::{
    cell_index, col_of, grid_ok, lemma_box_cell, lemma_cell_coords, lemma_prefix_step, on_grid,
    open_at, prefix_grid, related, row_of, same_box, EMPTY, conflict_free, lemma_conflict_free_open,
};
use crate::solution::Solution;

verus! {

/// Whether value `v` (0 to 8) is a candidate in the mask `m`.
pub open spec fn holds(m: u16, v: int) -> bool {
    0 <= v < 9 && (m >> (v as u16)) & 1u16 == 1u16
}

/// 1 when `v` is a candidate in `m`, else 0.
pub open spec fn bit_of(m: u16, v: int) -> int {
    if holds(m, v) { 1 } else { 0 }
}

/// Number of candidates of `m` among the values below `n`.
pub open spec fn count_below(m: u16, n: int) -> int
    decreases n,
{
    if n <= 0 {
        0
    } else {
        count_below(m, n - 1) + bit_of(m, n - 1)
    }
}

/// Number of candidates of `m`.
pub open spec fn count9(m: u16) -> int {
    count_below(m, 9)
}

/// The mask with every value 0 to 8 a candidate.
pub open spec fn full_mask() -> u16 {
    0x1ffu16
}

/// A shifted bit is 0 or 1.
proof fn lemma_shift_bit(m: u16, k: u16)
    requires
        k < 16,
    ensures
        (m >> k) & 1u16 <= 1u16,
{
    assert((m >> k) & 1u16 <= 1u16) by (bit_vector);
}

/// Counting further never counts fewer.
proof fn lemma_count_below_mono(m: u16, i: int, j: int)
    requires
        0 <= i <= j,
    ensures
        count_below(m, i) <= count_below(m, j),
    decreases j - i,
{
    if i < j {
        lemma_count_below_mono(m, i, j - 1);
    }
}

/// A mask with some candidate below `n` holds a value below `n`.
proof fn lemma_some_candidate(m: u16, n: int) -> (a: int)
    requires
        count_below(m, n) > 0,
    ensures
        0 <= a < n,
        holds(m, a),
    decreases n,
{
    if n <= 0 {
        0
    } else if holds(m, n - 1) {
        n - 1
    } else {
        lemma_some_candidate(m, n - 1)
    }
}

/// Two candidates below `n` make at least two.
proof fn lemma_count_two(m: u16, a: int, b: int, n: int)
    requires
        0 <= a < b < n,
        holds(m, a),
        holds(m, b),
    ensures
        count_below(m, n) >= 2,
{
    lemma_count_below_mono(m, a + 1, b);
    lemma_count_below_mono(m, b + 1, n);
    lemma_count_below_mono(m, 0, a);
}

/// A mask has at most `n` candidates below `n`.
pub proof fn lemma_count_bound(m: u16, n: int)
    requires
        0 <= n,
    ensures
        0 <= count_below(m, n) <= n,
    decreases n,
{
    if n > 0 {
        lemma_count_bound(m, n - 1);
    }
}

/// A mask with one candidate holds no other value.
pub proof fn lemma_single_candidate(m: u16, a: int, b: int)
    requires
        count9(m) == 1,
        holds(m, a),
        holds(m, b),
    ensures
        a == b,
{
    if a < b {
        lemma_count_two(m, a, b, 9);
    } else if b < a {
        lemma_count_two(m, b, a, 9);
    }
}

/// A mask with no candidate holds no value.
pub proof fn lemma_no_candidate(m: u16, a: int)
    requires
        count9(m) == 0,
    ensures
        !holds(m, a),
{
    if holds(m, a) {
        lemma_count_below_mono(m, a + 1, 9);
        lemma_count_below_mono(m, 0, a);
    }
}

/// Clearing the bit of `v` removes exactly the candidate `v`.
pub proof fn lemma_clear_bit(m: u16, v: u16, w: u16)
    requires
        v < 9,
        w < 9,
    ensures
        holds(m & !(1u16 << v), w as int) == (holds(m, w as int) && w != v),
{
    assert(((m & !(1u16 << v)) >> w) & 1u16 == 1u16 <==> ((m >> w) & 1u16 == 1u16 && w != v))
        by (bit_vector)
        requires
            v < 9,
            w < 9,
    ;
}

/// Masking twice is masking once.
proof fn lemma_and_twice(a: u16, m: u16)
    ensures
        (a & m) & m == a & m,
{
    assert((a & m) & m == a & m) by (bit_vector);
}

/// Every value 0 to 8 is a candidate in the full mask.
pub proof fn lemma_full_mask(w: u16)
    requires
        w < 9,
    ensures
        holds(full_mask(), w as int),
{
    assert((0x1ffu16 >> w) & 1u16 == 1u16) by (bit_vector)
        requires
            w < 9,
    ;
}

/// The candidate values 0 to 8 of one cell, as a nine-bit mask.
#[derive(Clone, Copy)]
pub struct SudokuPossibility(u16);

impl View for SudokuPossibility {
    type V = u16;

    closed spec fn view(&self) -> u16 {
        self.0
    }
}

impl SudokuPossibility {
    /// The raw mask.
    pub fn mask(self) -> (r: u16)
        ensures
            r == self@,
    {
        self.0
    }

    /// Number of candidates.
    pub fn bits_set(self) -> (r: u8)
        ensures
            r == count9(self@),
    {
        let m = self.0;
        proof {
            lemma_shift_bit(m, 0);
            lemma_shift_bit(m, 1);
            lemma_shift_bit(m, 2);
            lemma_shift_bit(m, 3);
            lemma_shift_bit(m, 4);
            lemma_shift_bit(m, 5);
            lemma_shift_bit(m, 6);
            lemma_shift_bit(m, 7);
            lemma_shift_bit(m, 8);
            reveal_with_fuel(count_below, 10);
            assert(m & 1u16 == (m >> 0u16) & 1u16) by (bit_vector);
        }
        let r = (m & 1) + ((m >> 1u16) & 1) + ((m >> 2u16) & 1) + ((m >> 3u16) & 1) + ((m >> 4u16)
            & 1) + ((m >> 5u16) & 1) + ((m >> 6u16) & 1) + ((m >> 7u16) & 1) + ((m >> 8u16) & 1);
        r as u8
    }

    /// The only candidate of a mask with exactly one.
    pub fn find_single_bit(self) -> (r: u8)
        requires
            count9(self@) == 1,
        ensures
            r < 9,
            holds(self@, r as int),
    {
        let m = self.0;
        proof {
            broadcast use vstd::std_specs::bits::axiom_u16_trailing_zeros;
            let a = lemma_some_candidate(m, 9);
            assert((m >> (a as u16)) & 1u16 == 1u16);
            assert(m.trailing_zeros() <= a);
        }
        m.trailing_zeros() as u8
    }

    /// Every value is a candidate.
    pub fn new() -> (r: SudokuPossibility)
        ensures
            r@ == full_mask(),
    {
        SudokuPossibility(0x1ff)
    }

    /// `val` alone is a candidate.
    pub fn new_val(val: u8) -> (r: SudokuPossibility)
        requires
            val < 9,
        ensures
            r@ == 1u16 << (val as u16),
    {
        SudokuPossibility(1u16 << (val as u16))
    }

    /// Whether no bit of the mask is set.
    pub fn is_empty(self) -> (r: bool)
        ensures
            r == (self@ == 0),
    {
        self.0 == 0
    }

    /// Whether `val` is a candidate.
    pub fn has(self, val: u8) -> (r: bool)
        requires
            val < 9,
        ensures
            r == holds(self@, val as int),
    {
        let m = self.0;
        let v = val as u16;
        assert((m & (1u16 << v) != 0u16) == ((m >> v) & 1u16 == 1u16)) by (bit_vector)
            requires
                v < 9,
        ;
        m & (1u16 << v) != 0
    }

    /// The intersection with `mask`.
    pub fn and_mask(self, mask: u16) -> (r: SudokuPossibility)
        ensures
            r@ == self@ & mask,
    {
        SudokuPossibility(self.0 & mask)
    }

    /// Intersects with `mask` in place.
    pub fn and_mask_inplace(&mut self, mask: u16)
        ensures
            final(self)@ == old(self)@ & mask,
    {
        self.0 = self.0 & mask;
    }

    /// The only candidate, found by a scan of the nine values, or `None` when
    /// there is none or more than one.
    pub fn slow_find(self) -> (r: Option<u8>)
        ensures
            r is Some <==> count9(self@) == 1,
            r matches Some(v) ==> v < 9 && holds(self@, v as int),
    {
        let mut found: u8 = 9;
        let mut i: u8 = 0;
        while i < 9
            invariant
                i <= 9,
                found == 9 ==> count_below(self@, i as int) == 0,
                found < 9 ==> found < i && holds(self@, found as int) && count_below(self@, i as int)
                    == 1,
                found <= 9,
            decreases 9 - i,
        {
            if self.has(i) {
                if found != 9 {
                    proof {
                        lemma_count_two(self@, found as int, i as int, 9);
                    }
                    return None;
                } else {
                    found = i;
                }
            }
            i = i + 1;
        }
        if found != 9 {
            Some(found)
        } else {
            None
        }
    }
}

/// `p` with the candidate `v` removed from every cell related to cell `c`.
pub open spec fn eliminated(p: Seq<u16>, c: int, v: int) -> Seq<u16> {
    Seq::new(81, |i: int| if related(i, c) { p[i] & !(1u16 << (v as u16)) } else { p[i] })
}

/// The masks `p` hold, at each cell, exactly the values that no related
/// filled cell of `g` holds.
pub open spec fn reflects(p: Seq<u16>, g: Seq<u8>) -> bool {
    &&& p.len() == 81
    &&& forall|i: int| on_grid(i) ==> #[trigger] p[i] <= full_mask()
    &&& forall|i: int, v: int| on_grid(i) && 0 <= v < 9 ==> #[trigger] holds(p[i], v) == open_at(g, i, v)
}

/// Two nine-bit masks with the same candidates are equal.
proof fn lemma_same_candidates(a: u16, b: u16)
    requires
        a <= full_mask(),
        b <= full_mask(),
        forall|v: int| 0 <= v < 9 ==> #[trigger] holds(a, v) == holds(b, v),
    ensures
        a == b,
{
    assert(holds(a, 0) == holds(b, 0));
    assert(holds(a, 1) == holds(b, 1));
    assert(holds(a, 2) == holds(b, 2));
    assert(holds(a, 3) == holds(b, 3));
    assert(holds(a, 4) == holds(b, 4));
    assert(holds(a, 5) == holds(b, 5));
    assert(holds(a, 6) == holds(b, 6));
    assert(holds(a, 7) == holds(b, 7));
    assert(holds(a, 8) == holds(b, 8));
    assert(a == b) by (bit_vector)
        requires
            a <= 0x1ffu16,
            b <= 0x1ffu16,
            ((a >> 0u16) & 1u16 == 1u16) == ((b >> 0u16) & 1u16 == 1u16),
            ((a >> 1u16) & 1u16 == 1u16) == ((b >> 1u16) & 1u16 == 1u16),
            ((a >> 2u16) & 1u16 == 1u16) == ((b >> 2u16) & 1u16 == 1u16),
            ((a >> 3u16) & 1u16 == 1u16) == ((b >> 3u16) & 1u16 == 1u16),
            ((a >> 4u16) & 1u16 == 1u16) == ((b >> 4u16) & 1u16 == 1u16),
            ((a >> 5u16) & 1u16 == 1u16) == ((b >> 5u16) & 1u16 == 1u16),
            ((a >> 6u16) & 1u16 == 1u16) == ((b >> 6u16) & 1u16 == 1u16),
            ((a >> 7u16) & 1u16 == 1u16) == ((b >> 7u16) & 1u16 == 1u16),
            ((a >> 8u16) & 1u16 == 1u16) == ((b >> 8u16) & 1u16 == 1u16),
    ;
}

/// The masks of a grid are fixed by the grid: any two sets of masks in step
/// with the same grid are equal.
pub proof fn lemma_reflects_unique(p: Seq<u16>, q: Seq<u16>, g: Seq<u8>)
    requires
        reflects(p, g),
        reflects(q, g),
    ensures
        p == q,
{
    assert forall|i: int| 0 <= i < 81 implies p[i] == q[i] by {
        assert forall|v: int| 0 <= v < 9 implies #[trigger] holds(p[i], v) == holds(q[i], v) by {
            assert(holds(p[i], v) == open_at(g, i, v));
            assert(holds(q[i], v) == open_at(g, i, v));
        }
        lemma_same_candidates(p[i], q[i]);
    }
    assert(p =~= q);
}

/// After a value is placed in an empty cell and removed from the related
/// masks, the masks are exactly those of the new grid.
pub proof fn lemma_placement_in_step(p: Seq<u16>, g: Seq<u8>, c: int, v: int, q: Seq<u16>)
    requires
        reflects(p, g),
        g.len() == 81,
        on_grid(c),
        g[c] == EMPTY,
        0 <= v < 9,
        reflects(q, g.update(c, v as u8)),
    ensures
        eliminated(p, c, v) == q,
{
    lemma_eliminated_reflects(p, g, c, v);
    lemma_reflects_unique(eliminated(p, c, v), q, g.update(c, v as u8));
}

/// The masks of the empty grid have every value a candidate.
pub proof fn lemma_reflects_empty(p: Seq<u16>, g: Seq<u8>)
    requires
        reflects(p, g),
        g.len() == 81,
        forall|i: int| on_grid(i) ==> #[trigger] g[i] == EMPTY,
    ensures
        p == Seq::new(81, |i: int| full_mask()),
{
    lemma_prefix_full(g);
    assert(prefix_grid(g, 0) =~= g);
    lemma_reflects_unique(p, Seq::new(81, |i: int| full_mask()), g);
}

/// Placing `v` in the empty cell `c` and removing it from the related cells
/// keeps the masks in step with the grid.
pub proof fn lemma_eliminated_reflects(p: Seq<u16>, g: Seq<u8>, c: int, v: int)
    requires
        reflects(p, g),
        g.len() == 81,
        on_grid(c),
        g[c] == crate::rules::EMPTY,
        0 <= v < 9,
    ensures
        reflects(eliminated(p, c, v), g.update(c, v as u8)),
{
    let q = eliminated(p, c, v);
    let h = g.update(c, v as u8);
    assert forall|i: int| on_grid(i) implies #[trigger] q[i] <= full_mask() by {
        let a = p[i];
        let m = !(1u16 << (v as u16));
        assert(a & m <= a) by (bit_vector);
    }
    assert forall|i: int, w: int| on_grid(i) && 0 <= w < 9 implies #[trigger] holds(q[i], w) == open_at(h, i, w) by {
        assert(holds(p[i], w) == open_at(g, i, w));
        if related(i, c) {
            lemma_clear_bit(p[i], v as u16, w as u16);
            assert(q[i] == p[i] & !(1u16 << (v as u16)));
        } else {
            assert(q[i] == p[i]);
        }
        if related(i, c) && w == v {
            assert(h[c] == w);
            assert(!open_at(h, i, w));
        } else {
            if open_at(g, i, w) {
                assert forall|j: int| on_grid(j) && related(i, j) implies #[trigger] h[j] != w by {
                    if j != c {
                        assert(g[j] != w);
                    }
                }
            }
            if open_at(h, i, w) {
                assert forall|j: int| on_grid(j) && related(i, j) implies #[trigger] g[j] != w by {
                    if j != c {
                        assert(h[j] != w);
                    }
                }
            }
        }
    }
}

/// The full masks are those of the empty grid.
pub proof fn lemma_prefix_full(g: Seq<u8>)
    ensures
        reflects(Seq::new(81, |i: int| full_mask()), prefix_grid(g, 0)),
{
    let p = Seq::new(81, |i: int| full_mask());
    assert forall|i: int| on_grid(i) implies #[trigger] p[i] <= full_mask() by {}
    assert forall|i: int, v: int| on_grid(i) && 0 <= v < 9 implies #[trigger] holds(p[i], v) == open_at(
        prefix_grid(g, 0),
        i,
        v,
    ) by {
        lemma_full_mask(v as u16);
    }
}

/// Cell `j` lies in the box of cell `c` and comes before position `k` of
/// that box in row-major order.
pub open spec fn box_before(j: int, c: int, k: int) -> bool {
    same_box(j, c) && 3 * (row_of(j) % 3) + col_of(j) % 3 < k
}

/// Position `k` of the box of cell (`x`, `y`) is the cell after the first `k`.
proof fn lemma_box_before_step(x: int, y: int, k: int)
    requires
        0 <= x < 9,
        0 <= y < 9,
        0 <= k < 9,
    ensures
        ({
            let i = cell_index((x / 3) * 3 + k % 3, (y / 3) * 3 + k / 3);
            &&& on_grid(i)
            &&& forall|j: int|
                on_grid(j) ==> #[trigger] box_before(j, cell_index(x, y), k + 1) == (box_before(
                    j,
                    cell_index(x, y),
                    k,
                ) || j == i)
        }),
{
    let bx = (x / 3) * 3;
    let by = (y / 3) * 3;
    let c = cell_index(x, y);
    let i = cell_index(bx + k % 3, by + k / 3);
    lemma_box_cell(bx, by, k);
    lemma_cell_coords(bx + k % 3, by + k / 3);
    lemma_cell_coords(x, y);
    assert forall|j: int| on_grid(j) implies #[trigger] box_before(j, c, k + 1) == (box_before(j, c, k) || j
        == i) by {
        let r = row_of(j);
        let q = col_of(j);
        vstd::arithmetic::div_mod::lemma_fundamental_div_mod(r, 3);
        vstd::arithmetic::div_mod::lemma_fundamental_div_mod(q, 3);
        vstd::arithmetic::div_mod::lemma_fundamental_div_mod(k, 3);
    }
}

/// `cur` is `start` with `m` applied to the first `k` cells of the box of `c`.
pub open spec fn box_masked(cur: Seq<u16>, start: Seq<u16>, c: int, k: int, m: u16) -> bool {
    &&& cur.len() == 81
    &&& forall|j: int|
        #![trigger cur[j]]
        on_grid(j) ==> cur[j] == if box_before(j, c, k) {
            start[j] & m
        } else {
            start[j]
        }
}

/// Masking position `k` of the box extends the masked part by one cell.
proof fn lemma_box_masked_step(cur: Seq<u16>, start: Seq<u16>, x: int, y: int, k: int, m: u16)
    requires
        0 <= x < 9,
        0 <= y < 9,
        0 <= k < 9,
        start.len() == 81,
        box_masked(cur, start, cell_index(x, y), k, m),
    ensures
        on_grid(cell_index((x / 3) * 3 + k % 3, (y / 3) * 3 + k / 3)),
        box_masked(
            cur.update(
                cell_index((x / 3) * 3 + k % 3, (y / 3) * 3 + k / 3),
                cur[cell_index((x / 3) * 3 + k % 3, (y / 3) * 3 + k / 3)] & m,
            ),
            start,
            cell_index(x, y),
            k + 1,
            m,
        ),
{
    let i = cell_index((x / 3) * 3 + k % 3, (y / 3) * 3 + k / 3);
    lemma_box_before_step(x, y, k);
    lemma_and_twice(start[i], m);
}

/// Candidate masks of the 81 cells, in row-major order.
#[derive(Clone, Copy)]
pub struct Possibilities([SudokuPossibility; 81]);

impl View for Possibilities {
    type V = Seq<u16>;

    closed spec fn view(&self) -> Seq<u16> {
        Seq::new(81, |i: int| self.0@[i]@)
    }
}

impl Possibilities {
    /// Every value a candidate in every cell.
    pub fn new_full() -> (r: Possibilities)
        ensures
            r@ == Seq::new(81, |i: int| full_mask()),
            forall|i: int| 0 <= i < 81 ==> #[trigger] r@[i] <= full_mask(),
    {
        let r = Possibilities([SudokuPossibility::new(); 81]);
        assert(r@ =~= Seq::new(81, |i: int| full_mask()));
        r
    }

    /// The masks of a grid: every value a candidate, then each filled cell,
    /// in row-major order, removed from the cells related to it.
    pub fn from_solution(solution: &Solution) -> (r: Possibilities)
        requires
            conflict_free(solution@),
        ensures
            reflects(r@, solution@),
            forall|i: int| 0 <= i < 81 ==> #[trigger] r@[i] <= full_mask(),
    {
        let mut b = Possibilities::new_full();
        let ghost g = solution@;
        // Any query on the grid brings its well-formedness into the proof.
        let _ = solution.solved();
        proof {
            lemma_prefix_full(g);
        }
        let mut i: usize = 0;
        while i < 81
            invariant
                i <= 81,
                g == solution@,
                grid_ok(g),
                conflict_free(g),
                reflects(b@, prefix_grid(g, i as int)),
            decreases 81 - i,
        {
            let x = i % 9;
            let y = i / 9;
            proof {
                lemma_cell_coords(x as int, y as int);
                lemma_prefix_step(g, i as int);
            }
            let val = solution.get(x, y);
            if val != EMPTY {
                proof {
                    lemma_conflict_free_open(g, i as int);
                    lemma_eliminated_reflects(b@, prefix_grid(g, i as int), i as int, val as int);
                }
                b.update_found(x, y, val);
            }
            i = i + 1;
        }
        proof {
            assert(prefix_grid(g, 81) =~= g);
        }
        b
    }

    /// Removes `val` from the candidates of every cell that shares the box,
    /// the row or the column of cell (`x`, `y`), that cell included.
    #[verifier::rlimit(40)]
    pub fn update_found(&mut self, x: usize, y: usize, val: u8)
        requires
            x < 9,
            y < 9,
            val < 9,
            holds(old(self)@[cell_index(x as int, y as int)], val as int),
        ensures
            final(self)@ == eliminated(old(self)@, cell_index(x as int, y as int), val as int),
    {
        let ghost c = cell_index(x as int, y as int);
        let ghost start = self@;
        let mask: u16 = !(1u16 << (val as u16));
        let bx: usize = (x / 3) * 3;
        let by: usize = (y / 3) * 3;
        let mut k: usize = 0;
        while k < 9
            invariant
                x < 9,
                y < 9,
                c == cell_index(x as int, y as int),
                start.len() == 81,
                bx == (x / 3) * 3,
                by == (y / 3) * 3,
                k <= 9,
                box_masked(self@, start, c, k as int, mask),
            decreases 9 - k,
        {
            let i = (by + k / 3) * 9 + bx + k % 3;
            proof {
                lemma_box_masked_step(self@, start, x as int, y as int, k as int, mask);
            }
            let ghost before = self@;
            self.0[i].and_mask_inplace(mask);
            proof {
                assert(self@ =~= before.update(i as int, before[i as int] & mask));
            }
            k = k + 1;
        }
        let mut xx: usize = 0;
        while xx < 9
            invariant
                x < 9,
                y < 9,
                c == cell_index(x as int, y as int),
                start.len() == 81,
                xx <= 9,
                forall|j: int|
                    #![trigger self@[j]]
                    on_grid(j) ==> self@[j] == if same_box(j, c) || (row_of(j) == y && col_of(j) < xx) {
                        start[j] & mask
                    } else {
                        start[j]
                    },
            decreases 9 - xx,
        {
            let i = y * 9 + xx;
            proof {
                lemma_cell_coords(xx as int, y as int);
                lemma_and_twice(start[i as int], mask);
            }
            let ghost before = self@;
            self.0[i].and_mask_inplace(mask);
            proof {
                assert forall|j: int| on_grid(j) && j != i implies self@[j] == before[j] by {}
                assert(self@[i as int] == before[i as int] & mask);
            }
            xx = xx + 1;
        }
        let mut yy: usize = 0;
        while yy < 9
            invariant
                x < 9,
                y < 9,
                c == cell_index(x as int, y as int),
                start.len() == 81,
                yy <= 9,
                forall|j: int|
                    #![trigger self@[j]]
                    on_grid(j) ==> self@[j] == if same_box(j, c) || row_of(j) == y || (col_of(j) == x
                        && row_of(j) < yy) {
                        start[j] & mask
                    } else {
                        start[j]
                    },
            decreases 9 - yy,
        {
            let i = yy * 9 + x;
            proof {
                lemma_cell_coords(x as int, yy as int);
                lemma_and_twice(start[i as int], mask);
            }
            let ghost before = self@;
            self.0[i].and_mask_inplace(mask);
            proof {
                assert forall|j: int| on_grid(j) && j != i implies self@[j] == before[j] by {}
                assert(self@[i as int] == before[i as int] & mask);
            }
            yy = yy + 1;
        }
        proof {
            lemma_cell_coords(x as int, y as int);
            assert(self@ =~= eliminated(start, c, val as int));
        }
    }

    /// The candidates of cell (`x`, `y`).
    pub fn get(&self, x: usize, y: usize) -> (r: SudokuPossibility)
        requires
            x < 9,
            y < 9,
        ensures
            r@ == self@[cell_index(x as int, y as int)],
    {
        self.0[9 * y + x]
    }
}

} // verus!
