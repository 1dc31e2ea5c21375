use vstd::prelude::*;
use arrayvec::ArrayVec;
use vstd::std_specs::iter::IteratorSpec;
use crate::board::{lemma_eliminated_reflects, lemma_prefix_full, reflects, Possibilities};
use crate::rules::{
    cell_index, complete, conflict_free, count_empty, empties, grid_ok, lemma_cell_coords,
    lemma_conflict_found, lemma_conflict_free_step, lemma_count_empty_update, lemma_count_empty_zero,
    lemma_prefix_step, on_grid, peers, prefix_grid, EMPTY,
};

verus! {

/// `arrayvec::ArrayVec`, a vector stored inline with a fixed capacity; its
/// contents are seen only through `log_entries`.
#[verifier::external_type_specification]
#[verifier::external_body]
#[verifier::reject_recursive_types(T)]
pub struct ExArrayVec<T, const CAP: usize>(ArrayVec<T, CAP>);

/// Largest number of entries an undo log holds: one per cell.
pub const LOG_CAPACITY: usize = 81;

/// An undo log: the (column, row) of each cell set, oldest first.
pub type UndoLog = ArrayVec<(u8, u8), 81>;

/// The entries of an undo log, oldest first.
pub uninterp spec fn log_entries(v: ArrayVec<(u8, u8), 81>) -> Seq<(u8, u8)>;

/// Relies on `ArrayVec::new`: the new vector holds nothing.
#[verifier::external_body]
pub(crate) fn new_log() -> (r: UndoLog)
    ensures
        log_entries(r) == Seq::<(u8, u8)>::empty(),
{
    ArrayVec::new()
}

/// Relies on `ArrayVec::len`: the number of entries, never above the capacity.
#[verifier::external_body]
pub(crate) fn log_len(v: &UndoLog) -> (r: usize)
    ensures
        r == log_entries(*v).len(),
        r <= LOG_CAPACITY,
{
    v.len()
}

/// Relies on `ArrayVec::push`: appends the entry; it panics only when full.
#[verifier::external_body]
pub(crate) fn log_push(v: &mut UndoLog, e: (u8, u8))
    requires
        log_entries(*old(v)).len() < LOG_CAPACITY,
    ensures
        log_entries(*final(v)) == log_entries(*old(v)).push(e),
{
    v.push(e)
}

/// Relies on `ArrayVec::pop`: removes and returns the last entry, or `None`
/// when empty.
#[verifier::external_body]
fn log_pop(v: &mut UndoLog) -> (r: Option<(u8, u8)>)
    ensures
        log_entries(*old(v)).len() == 0 ==> r is None && log_entries(*final(v)) == log_entries(*old(v)),
        log_entries(*old(v)).len() > 0 ==> r == Some(log_entries(*old(v)).last()) && log_entries(*final(v))
            == log_entries(*old(v)).drop_last(),
{
    v.pop()
}

/// The cell an undo-log entry names.
pub open spec fn log_cell(e: (u8, u8)) -> int {
    cell_index(e.0 as int, e.1 as int)
}

/// Every entry names a cell of the grid.
pub open spec fn log_on_grid(log: Seq<(u8, u8)>) -> bool {
    forall|t: int| 0 <= t < log.len() ==> (#[trigger] log[t]).0 < 9 && log[t].1 < 9
}

/// Some entry of `log` at position `k` or later names cell `i`.
pub open spec fn logged(log: Seq<(u8, u8)>, k: int, i: int) -> bool {
    exists|t: int| k <= t < log.len() && #[trigger] log_cell(log[t]) == i
}

/// `g` with every cell named at position `k` or later of `log` emptied.
pub open spec fn undone(g: Seq<u8>, log: Seq<(u8, u8)>, k: int) -> Seq<u8> {
    Seq::new(81, |i: int| if logged(log, k, i) { EMPTY } else { g[i] })
}

/// `h` with each cell named in `entries`, in order, set back to its value in
/// `g`: the grid that `set(e.0, e.1, v)` produces for each entry `e`, `v` the
/// cell's value in `g`, since each such call updates exactly that cell.
pub open spec fn reapplied(h: Seq<u8>, entries: Seq<(u8, u8)>, g: Seq<u8>) -> Seq<u8>
    decreases entries.len(),
{
    if entries.len() == 0 {
        h
    } else {
        let e = entries.last();
        reapplied(h, entries.drop_last(), g).update(log_cell(e), g[log_cell(e)])
    }
}

/// Setting the logged cells back gives `g` on every logged cell and leaves
/// the others as in `h`.
proof fn lemma_reapplied_cells(h: Seq<u8>, entries: Seq<(u8, u8)>, g: Seq<u8>)
    requires
        h.len() == 81,
        g.len() == 81,
        log_on_grid(entries),
    ensures
        reapplied(h, entries, g).len() == 81,
        forall|i: int|
            on_grid(i) ==> #[trigger] reapplied(h, entries, g)[i] == if logged(entries, 0, i) {
                g[i]
            } else {
                h[i]
            },
    decreases entries.len(),
{
    if entries.len() > 0 {
        let rest = entries.drop_last();
        let e = entries.last();
        assert(log_on_grid(rest)) by {
            assert forall|t: int| 0 <= t < rest.len() implies (#[trigger] rest[t]).0 < 9 && rest[t].1 < 9 by {
                assert(rest[t] == entries[t]);
            }
        }
        lemma_reapplied_cells(h, rest, g);
        assert(entries[entries.len() - 1] == e);
        lemma_cell_coords(e.0 as int, e.1 as int);
        assert forall|i: int| on_grid(i) implies logged(entries, 0, i) == (logged(rest, 0, i) || log_cell(e) == i) by {
            if logged(entries, 0, i) {
                let t = choose|t: int| 0 <= t < entries.len() && #[trigger] log_cell(entries[t]) == i;
                if t < rest.len() {
                    assert(rest[t] == entries[t]);
                    assert(logged(rest, 0, i));
                }
            }
            if logged(rest, 0, i) {
                let t = choose|t: int| 0 <= t < rest.len() && #[trigger] log_cell(rest[t]) == i;
                assert(rest[t] == entries[t]);
                assert(logged(entries, 0, i));
            }
            if log_cell(e) == i {
                assert(logged(entries, 0, i));
            }
        }
    }
}

/// Emptying the cells that `log` names from position `k` on and then setting
/// each of them back, in log order, to its former value restores the grid.
pub proof fn lemma_undo_then_reapply(g: Seq<u8>, log: Seq<(u8, u8)>, k: int)
    requires
        grid_ok(g),
        log_on_grid(log),
        0 <= k <= log.len(),
    ensures
        reapplied(undone(g, log, k), log.subrange(k, log.len() as int), g) == g,
{
    let tail = log.subrange(k, log.len() as int);
    assert(log_on_grid(tail)) by {
        assert forall|t: int| 0 <= t < tail.len() implies (#[trigger] tail[t]).0 < 9 && tail[t].1 < 9 by {
            assert(tail[t] == log[t + k]);
        }
    }
    lemma_reapplied_cells(undone(g, log, k), tail, g);
    let r = reapplied(undone(g, log, k), tail, g);
    assert forall|i: int| 0 <= i < 81 implies r[i] == g[i] by {
        if logged(tail, 0, i) {
        } else {
            if logged(log, k, i) {
                let t = choose|t: int| k <= t < log.len() && #[trigger] log_cell(log[t]) == i;
                assert(tail[t - k] == log[t]);
                assert(logged(tail, 0, i));
            }
        }
    }
    assert(r =~= g);
}

/// Why a puzzle text was refused.
#[derive(Debug, Clone, Copy, PartialEq, Eq, Structural)]
pub enum ParseError {
    /// A non-blank line after the ninth.
    TooManyLines,
    /// A tenth character on one of the first nine lines.
    LineTooLong,
    /// A character other than `0`, `_` or `1` to `9` on one of the first nine lines.
    InvalidChar(char),
}

/// Unicode white space (the `White_Space` property).
pub open spec fn is_blank(c: char) -> bool {
    let u = c as u32;
    (9 <= u <= 13) || u == 0x20 || u == 0x85 || u == 0xa0 || u == 0x1680 || (0x2000 <= u <= 0x200a) || u
        == 0x2028 || u == 0x2029 || u == 0x202f || u == 0x205f || u == 0x3000
}

/// The value a digit `1` to `9` stands for: 0 to 8.
pub open spec fn digit_value(c: char) -> u8 {
    (c as u32 - '1' as u32) as u8
}

/// Character `k` ends a line: a `\n`, or a `\r` right before one.
pub open spec fn is_break(s: Seq<char>, k: int) -> bool {
    s[k] == '\n' || (s[k] == '\r' && k + 1 < s.len() && s[k + 1] == '\n')
}

/// The line (from 0) that character `k` of `s` is on.
pub open spec fn line_at(s: Seq<char>, k: int) -> int
    decreases k,
{
    if k <= 0 {
        0
    } else {
        line_at(s, k - 1) + if s[k - 1] == '\n' { 1int } else { 0int }
    }
}

/// The column (from 0) of character `k` of `s` within its line; line ends
/// take no column.
pub open spec fn col_at(s: Seq<char>, k: int) -> int
    decreases k,
{
    if k <= 0 {
        0
    } else if s[k - 1] == '\n' {
        0
    } else if is_break(s, k - 1) {
        col_at(s, k - 1)
    } else {
        col_at(s, k - 1) + 1
    }
}

pub open spec fn is_digit(c: char) -> bool {
    '1' <= c && c <= '9'
}

/// What is wrong with character `k` of a puzzle text, if anything: on the
/// first nine lines (the rows) only nine cells, each `0`, `_` or a digit
/// `1` to `9`; later lines blank.
pub open spec fn fault(s: Seq<char>, k: int) -> Option<ParseError> {
    if is_break(s, k) {
        None
    } else if line_at(s, k) >= 9 {
        if is_blank(s[k]) {
            None
        } else {
            Some(ParseError::TooManyLines)
        }
    } else if col_at(s, k) >= 9 {
        Some(ParseError::LineTooLong)
    } else if s[k] == '0' || s[k] == '_' || is_digit(s[k]) {
        None
    } else {
        Some(ParseError::InvalidChar(s[k]))
    }
}

/// The fault of the first faulty character among the first `n`.
pub open spec fn first_fault(s: Seq<char>, n: int) -> Option<ParseError>
    decreases n,
{
    if n <= 0 {
        None
    } else {
        match first_fault(s, n - 1) {
            Some(e) => Some(e),
            None => fault(s, n - 1),
        }
    }
}

/// Character `k` is a digit on one of the first nine lines.
pub open spec fn gives_digit(s: Seq<char>, k: int) -> bool {
    !is_break(s, k) && line_at(s, k) < 9 && is_digit(s[k])
}

/// The cell a character names: its column, on the row of its line.
pub open spec fn char_cell(s: Seq<char>, k: int) -> int {
    cell_index(col_at(s, k), line_at(s, k))
}

/// `g` is the grid the first `n` characters of `s` describe: the digit in
/// column `x` of line `y` sets cell (`x`, `y`), and every cell no digit names
/// is empty.
pub open spec fn describes(s: Seq<char>, n: int, g: Seq<u8>) -> bool {
    &&& g.len() == 81
    &&& forall|k: int| 0 <= k < n && gives_digit(s, k) ==> g[#[trigger] char_cell(s, k)] == digit_value(s[k])
    &&& forall|j: int|
        on_grid(j) && #[trigger] g[j] != EMPTY ==> exists|k: int| 0 <= k < n && gives_digit(s, k) && char_cell(s, k) == j
}

/// Lines and columns count from 0.
proof fn lemma_position_nonneg(s: Seq<char>, k: int)
    ensures
        line_at(s, k) >= 0,
        col_at(s, k) >= 0,
    decreases k,
{
    if k > 0 {
        lemma_position_nonneg(s, k - 1);
    }
}

/// A fault stands for the rest of the text.
proof fn lemma_fault_stays(s: Seq<char>, n: int, m: int)
    requires
        0 <= n <= m,
        first_fault(s, n) is Some,
    ensures
        first_fault(s, m) == first_fault(s, n),
    decreases m - n,
{
    if n < m {
        lemma_fault_stays(s, n, m - 1);
    }
}

/// The characters of `text`, in order.
fn chars_of(text: &str) -> (r: Vec<char>)
    ensures
        r@ == text@,
{
    broadcast use vstd::string::axiom_spec_iter, vstd::string::next_postcondition;

    let mut it = text.chars();
    let mut r: Vec<char> = Vec::new();
    loop
        invariant
            it.obeys_prophetic_iter_laws(),
            r@ + it.remaining() == text@,
            it.decrease() is Some,
        ensures
            r@ == text@,
        decreases it.decrease()->0,
    {
        match it.next() {
            Some(c) => {
                r.push(c);
            },
            None => {
                proof {
                    assert(r@ + it.remaining() =~= r@);
                }
                break;
            },
        }
    }
    r
}

/// Whether `c` is white space.
fn is_blank_char(c: char) -> (r: bool)
    ensures
        r == is_blank(c),
{
    let u = c as u32;
    (9 <= u && u <= 13) || u == 0x20 || u == 0x85 || u == 0xa0 || u == 0x1680 || (0x2000 <= u && u
        <= 0x200a) || u == 0x2028 || u == 0x2029 || u == 0x202f || u == 0x205f || u == 0x3000
}

/// A 9x9 grid of values 0 to 8 or `EMPTY`, with the number of empty cells.
#[derive(Clone, Copy, Debug)]
pub struct Solution {
    inner: [u8; 81],
    remaining: u8,
}

impl View for Solution {
    type V = Seq<u8>;

    closed spec fn view(&self) -> Seq<u8> {
        self.inner@
    }
}

impl Solution {
    #[verifier::type_invariant]
    closed spec fn inv(&self) -> bool {
        grid_ok(self.inner@) && self.remaining as nat == empties(self.inner@)
    }

    /// Writes `val` (a value or `EMPTY`) into cell (`x`, `y`) and keeps the
    /// count of empty cells.
    pub fn set(&mut self, x: usize, y: usize, val: u8)
        requires
            x < 9,
            y < 9,
            val <= EMPTY,
        ensures
            final(self)@ == old(self)@.update(cell_index(x as int, y as int), val),
            grid_ok(final(self)@),
            old(self)@[cell_index(x as int, y as int)] == EMPTY && val == EMPTY ==> empties(final(self)@)
                == empties(old(self)@),
            old(self)@[cell_index(x as int, y as int)] != EMPTY && val != EMPTY ==> empties(final(self)@)
                == empties(old(self)@),
            old(self)@[cell_index(x as int, y as int)] == EMPTY && val != EMPTY ==> empties(final(self)@)
                + 1 == empties(old(self)@),
            old(self)@[cell_index(x as int, y as int)] != EMPTY && val == EMPTY ==> empties(final(self)@)
                == empties(old(self)@) + 1,
    {
        proof {
            use_type_invariant(&*self);
            lemma_cell_coords(x as int, y as int);
            lemma_count_empty_update(self.inner@, cell_index(x as int, y as int), val, 81);
            crate::rules::lemma_count_empty_bound(self.inner@.update(cell_index(x as int, y as int), val), 81);
        }
        let i = 9 * y + x;
        let cur = self.inner[i];
        let mut remaining = self.remaining;
        if cur != EMPTY && val == EMPTY {
            remaining = remaining + 1;
        } else if cur == EMPTY && val != EMPTY {
            remaining = remaining - 1;
        }
        let mut inner = self.inner;
        inner[i] = val;
        *self = Solution { inner, remaining };
    }

    /// Reads a puzzle: up to nine lines of up to nine cells each, `0` or `_`
    /// for an empty cell and `1` to `9` for a value; later lines must be
    /// blank. Refused with the fault of the first faulty character.
    #[verifier::rlimit(60)]
    pub fn load_string(contents: String) -> (r: Result<Solution, ParseError>)
        ensures
            r is Ok <==> first_fault(contents@, contents@.len() as int) is None,
            r matches Err(e) ==> first_fault(contents@, contents@.len() as int) == Some(e),
            r matches Ok(sol) ==> describes(contents@, contents@.len() as int, sol@),
    {
        let text = chars_of(contents.as_str());
        let ghost s = contents@;
        let len = text.len();
        let mut board: [u8; 81] = [EMPTY; 81];
        let mut line: usize = 0;
        let mut col: usize = 0;
        let mut i: usize = 0;
        while i < len
            invariant
                s == text@,
                s == contents@,
                len == s.len(),
                i <= len,
                line <= i,
                col <= i,
                line == line_at(s, i as int),
                col == col_at(s, i as int),
                first_fault(s, i as int) is None,
                describes(s, i as int, board@),
                forall|j: int| 0 <= j < 81 ==> #[trigger] board@[j] <= EMPTY,
                forall|k: int| 0 <= k < i ==> #[trigger] line_at(s, k) <= line_at(s, i as int),
                forall|k: int|
                    0 <= k < i && !is_break(s, k) && line_at(s, k) == line_at(s, i as int) ==> #[trigger] col_at(s, k)
                        < col_at(s, i as int),
                forall|k: int| 0 <= k < i && #[trigger] gives_digit(s, k) ==> col_at(s, k) < 9,
            decreases len - i,
        {
            let ch = text[i];
            let ghost n = i as int;
            proof {
                assert(first_fault(s, n + 1) == fault(s, n));
                assert(line_at(s, n + 1) == line_at(s, n) + if ch == '\n' { 1int } else { 0int });
            }
            if ch == '\n' {
                line = line + 1;
                col = 0;
            } else if ch == '\r' && i + 1 < len && text[i + 1] == '\n' {
            } else if line >= 9 {
                if !is_blank_char(ch) {
                    proof {
                        lemma_fault_stays(s, n + 1, s.len() as int);
                    }
                    return Err(ParseError::TooManyLines);
                }
                col = col + 1;
            } else if col >= 9 {
                proof {
                    lemma_fault_stays(s, n + 1, s.len() as int);
                }
                return Err(ParseError::LineTooLong);
            } else if ch == '0' || ch == '_' {
                col = col + 1;
            } else if '1' <= ch && ch <= '9' {
                let ghost before = board@;
                board[9 * line + col] = (ch as u32 - '1' as u32) as u8;
                proof {
                    let c = char_cell(s, n);
                    assert(c == 9 * line + col);
                    assert(board@ == before.update(c, digit_value(ch)));
                    assert forall|k: int| 0 <= k < n + 1 && gives_digit(s, k) implies board@[#[trigger] char_cell(
                        s,
                        k,
                    )] == digit_value(s[k]) by {
                        lemma_position_nonneg(s, k);
                        if k == n {
                            assert(s[k] == ch);
                            assert(board@[c] == digit_value(ch));
                        } else {
                            assert(col_at(s, k) < 9);
                            if line_at(s, k) == line_at(s, n) {
                                assert(col_at(s, k) < col_at(s, n));
                            }
                            assert(char_cell(s, k) != c);
                            assert(before[char_cell(s, k)] == digit_value(s[k]));
                        }
                    }
                    assert forall|j: int| on_grid(j) && #[trigger] board@[j] != EMPTY implies exists|k: int|
                        0 <= k < n + 1 && gives_digit(s, k) && char_cell(s, k) == j by {
                        if j != c {
                            assert(before[j] != EMPTY);
                            let k = choose|k: int| 0 <= k < n && gives_digit(s, k) && char_cell(s, k) == j;
                            assert(0 <= k < n + 1 && gives_digit(s, k) && char_cell(s, k) == j);
                        } else {
                            assert(0 <= n < n + 1 && gives_digit(s, n) && char_cell(s, n) == j);
                        }
                    }
                }
                col = col + 1;
            } else {
                proof {
                    lemma_fault_stays(s, n + 1, s.len() as int);
                }
                return Err(ParseError::InvalidChar(ch));
            }
            proof {
                assert forall|k: int| 0 <= k < n + 1 && #[trigger] gives_digit(s, k) implies col_at(s, k) < 9 by {}
                assert forall|k: int| 0 <= k < n + 1 implies #[trigger] line_at(s, k) <= line_at(s, n + 1) by {}
                assert forall|j: int| on_grid(j) && #[trigger] board@[j] != EMPTY implies exists|k: int|
                    0 <= k < n + 1 && gives_digit(s, k) && char_cell(s, k) == j by {
                    let k = choose|k: int| 0 <= k < n + 1 && gives_digit(s, k) && char_cell(s, k) == j;
                }
            }
            i = i + 1;
        }
        let mut remaining: u8 = 0;
        let mut k: usize = 0;
        while k < 81
            invariant
                k <= 81,
                remaining as nat == count_empty(board@, k as int),
                remaining <= k,
            decreases 81 - k,
        {
            if board[k] == EMPTY {
                remaining = remaining + 1;
            }
            k = k + 1;
        }
        Ok(Solution { inner: board, remaining })
    }

    /// Pops every entry of `revert` past the first `prev_size`, newest first,
    /// emptying the cell each names.
    pub fn undo(&mut self, revert: &mut UndoLog, prev_size: usize)
        requires
            prev_size <= log_entries(*old(revert)).len(),
            log_on_grid(log_entries(*old(revert))),
        ensures
            log_entries(*final(revert)) == log_entries(*old(revert)).take(prev_size as int),
            final(self)@ == undone(old(self)@, log_entries(*old(revert)), prev_size as int),
            grid_ok(final(self)@),
    {
        let ghost entries = log_entries(*revert);
        let ghost start = self@;
        proof {
            use_type_invariant(&*self);
            assert(self@ =~= undone(start, entries, entries.len() as int));
            assert(entries.take(entries.len() as int) =~= entries);
        }
        let mut n = log_len(revert);
        while n > prev_size
            invariant
                prev_size <= n <= entries.len(),
                n == log_entries(*revert).len(),
                log_entries(*revert) == entries.take(n as int),
                log_on_grid(entries),
                start.len() == 81,
                self@ == undone(start, entries, n as int),
                grid_ok(self@),
            decreases n,
        {
            let e = log_pop(revert);
            match e {
                Some((x, y)) => {
                    proof {
                        assert(entries.take(n as int).last() == entries[n - 1]);
                        assert(entries[n - 1].0 < 9 && entries[n - 1].1 < 9);
                    }
                    let ghost before = self@;
                    self.set(x as usize, y as usize, EMPTY);
                    proof {
                        assert forall|i: int| 0 <= i < 81 implies logged(entries, n - 1, i) == (logged(
                            entries,
                            n as int,
                            i,
                        ) || log_cell(entries[n - 1]) == i) by {
                            if logged(entries, n - 1, i) {
                                let t = choose|t: int| n - 1 <= t < entries.len() && #[trigger] log_cell(entries[t]) == i;
                                if t != n - 1 {
                                    assert(logged(entries, n as int, i));
                                }
                            }
                            if log_cell(entries[n - 1]) == i {
                                assert(logged(entries, n - 1, i));
                            }
                            if logged(entries, n as int, i) {
                                let t = choose|t: int| n <= t < entries.len() && #[trigger] log_cell(entries[t]) == i;
                                assert(logged(entries, n - 1, i));
                            }
                        }
                        assert(self@ =~= undone(start, entries, n - 1));
                        assert(entries.take(n as int).drop_last() =~= entries.take(n - 1));
                    }
                },
                None => {},
            }
            n = n - 1;
        }
    }

    /// Whether no two cells that share a row, a column or a box hold the same
    /// value: the cells are placed in row-major order on a fresh set of masks,
    /// and each value must still be a candidate where it is placed.
    pub fn is_valid(&self) -> (r: bool)
        ensures
            r == conflict_free(self@),
    {
        let mut possibilities = Possibilities::new_full();
        let ghost g = self@;
        proof {
            use_type_invariant(self);
            lemma_prefix_full(g);
            assert forall|i: int, j: int|
                on_grid(i) && on_grid(j) && peers(i, j) && prefix_grid(g, 0)[i] != EMPTY implies #[trigger] prefix_grid(g, 0)[i]
                != #[trigger] prefix_grid(g, 0)[j] by {}
        }
        let mut i: usize = 0;
        while i < 81
            invariant
                i <= 81,
                g == self@,
                grid_ok(g),
                reflects(possibilities@, prefix_grid(g, i as int)),
                conflict_free(prefix_grid(g, i as int)),
            decreases 81 - i,
        {
            let x = i % 9;
            let y = i / 9;
            proof {
                lemma_cell_coords(x as int, y as int);
                lemma_prefix_step(g, i as int);
            }
            let cell = self.inner[i];
            if cell != EMPTY {
                if !possibilities.get(x, y).has(cell) {
                    proof {
                        lemma_conflict_found(g, i as int);
                    }
                    return false;
                }
                proof {
                    lemma_eliminated_reflects(possibilities@, prefix_grid(g, i as int), i as int, cell as int);
                }
                possibilities.update_found(x, y, cell);
            }
            proof {
                lemma_conflict_free_step(g, i as int);
            }
            i = i + 1;
        }
        proof {
            assert(prefix_grid(g, 81) =~= g);
        }
        true
    }

    /// Whether every cell holds a value.
    pub fn solved(&self) -> (r: bool)
        ensures
            r == complete(self@),
            grid_ok(self@),
    {
        proof {
            use_type_invariant(self);
            lemma_count_empty_zero(self.inner@, 81);
        }
        self.remaining == 0
    }

    /// The value of cell (`x`, `y`), `EMPTY` when it holds none.
    pub fn get(&self, x: usize, y: usize) -> (r: u8)
        requires
            x < 9,
            y < 9,
        ensures
            r == self@[cell_index(x as int, y as int)],
            r <= EMPTY,
            grid_ok(self@),
    {
        proof {
            use_type_invariant(self);
            lemma_cell_coords(x as int, y as int);
        }
        self.inner[9 * y + x]
    }
}

impl PartialEq for Solution {
    /// Two grids are equal when their cells are.
    fn eq(&self, other: &Solution) -> (r: bool) {
        let mut i: usize = 0;
        while i < 81
            invariant
                i <= 81,
                forall|j: int| 0 <= j < i ==> #[trigger] self@[j] == other@[j],
            decreases 81 - i,
        {
            if self.inner[i] != other.inner[i] {
                return false;
            }
            i = i + 1;
        }
        proof {
            assert(self@ =~= other@);
        }
        true
    }
}

impl vstd::std_specs::cmp::PartialEqSpecImpl for Solution {
    open spec fn obeys_eq_spec() -> bool {
        true
    }

    open spec fn eq_spec(&self, other: &Solution) -> bool {
        self@ == other@
    }
}

} // verus!
