//! The board of the snake game: cells, and how a random number picks one.

use vstd::prelude::*;

verus! {

/// A cell by its column and row.
pub type Cell = (usize, usize);

/// Whether a cell is on a board.
pub open spec fn on_board(p: Cell, cols: int, rows: int) -> bool {
    p.0 < cols && p.1 < rows
}

/// The cell that a random number picks: the number gives the column, its upper
/// half the row.
pub open spec fn cell_of(r: u64, cols: int, rows: int) -> Cell {
    ((r as int % cols) as usize, (r as int / 0x1_0000_0000 % rows) as usize)
}

/// Whether some random number picks a cell that the body leaves free.
pub open spec fn can_land(body: Seq<Cell>, cols: int, rows: int) -> bool {
    exists|r: u64| !body.contains(#[trigger] cell_of(r, cols, rows))
}

/// The cell that a random number picks.
pub fn pick_cell(r: u64, cols: usize, rows: usize) -> (p: Cell)
    requires
        0 < cols,
        0 < rows,
    ensures
        p == cell_of(r, cols as int, rows as int),
        on_board(p, cols as int, rows as int),
{
    assert(r >> 32 == r / 0x1_0000_0000) by (bit_vector);
    ((r % cols as u64) as usize, ((r >> 32) % rows as u64) as usize)
}

/// Whether a body holds a cell.
pub fn holds(body: &Vec<Cell>, p: Cell) -> (held: bool)
    ensures
        held == body@.contains(p),
{
    let mut i: usize = 0;
    while i < body.len()
        invariant
            i <= body@.len(),
            forall|j: int| 0 <= j < i ==> body@[j] != p,
        decreases body@.len() - i,
    {
        let q = body[i];
        if q.0 == p.0 && q.1 == p.1 {
            assert(body@[i as int] == p);
            return true;
        }
        i = i + 1;
    }
    false
}

/// The cells of a board, row by row.
spec fn cell_number(p: Cell, cols: int) -> int {
    p.1 * cols + p.0
}

/// A sequence of fewer than `n` numbers misses one of the numbers below `n`.
proof fn lemma_number_left(s: Seq<int>, n: int) -> (free: int)
    requires
        s.len() < n,
    ensures
        0 <= free < n,
        !s.contains(free),
{
    let all = vstd::set_lib::set_int_range(0, n);
    vstd::set_lib::lemma_int_range(0, n);
    s.lemma_cardinality_of_set();
    if forall|i: int| 0 <= i < n ==> s.contains(i) {
        assert(all.subset_of(s.to_set()));
        vstd::set_lib::lemma_len_subset(all, s.to_set());
        assert(false);
    }
    choose|i: int| 0 <= i < n && !s.contains(i)
}

/// A body shorter than the board has cells leaves one free.
pub proof fn lemma_cell_left(body: Seq<Cell>, cols: int, rows: int) -> (p: Cell)
    requires
        1 <= cols <= usize::MAX,
        1 <= rows <= usize::MAX,
        body.len() < cols * rows,
    ensures
        on_board(p, cols, rows),
        !body.contains(p),
{
    let numbers = Seq::new(body.len(), |i: int| cell_number(body[i], cols));
    let free = lemma_number_left(numbers, cols * rows);
    vstd::arithmetic::div_mod::lemma_fundamental_div_mod(free, cols);
    vstd::arithmetic::div_mod::lemma_mod_bound(free, cols);
    let x = free % cols;
    let y = free / cols;
    assert(0 <= y < rows) by (nonlinear_arith)
        requires
            0 <= free < cols * rows,
            1 <= cols,
            y == free / cols,
    ;
    let p: Cell = (x as usize, y as usize);
    assert(cell_number(p, cols) == free) by (nonlinear_arith)
        requires
            p.0 == x,
            p.1 == y,
            free == cols * y + x,
            cell_number(p, cols) == p.1 * cols + p.0,
    ;
    if body.contains(p) {
        let i = choose|i: int| 0 <= i < body.len() && body[i] == p;
        assert(numbers[i] == free);
    }
    p
}

/// Every cell of a board of at most two to the power of 32 columns and rows is
/// picked by some random number.
pub proof fn lemma_cell_is_picked(p: Cell, cols: int, rows: int) -> (r: u64)
    requires
        1 <= cols <= 0x1_0000_0000,
        1 <= rows <= 0x1_0000_0000,
        on_board(p, cols, rows),
    ensures
        cell_of(r, cols, rows) == p,
{
    let high = p.1 * 0x1_0000_0000;
    let low = (p.0 - high) % cols;
    vstd::arithmetic::div_mod::lemma_mod_bound(p.0 - high, cols);
    vstd::arithmetic::div_mod::lemma_fundamental_div_mod(p.0 - high, cols);
    let k = (p.0 - high) / cols;
    let r = high + low;
    assert(r == p.0 + cols * (-k)) by (nonlinear_arith)
        requires
            p.0 - high == cols * k + low,
            r == high + low,
    ;
    vstd::arithmetic::div_mod::lemma_mod_multiples_vanish(-k, p.0 as int, cols);
    vstd::arithmetic::div_mod::lemma_small_mod(p.0 as nat, cols as nat);
    assert(r / 0x1_0000_0000 == p.1);
    vstd::arithmetic::div_mod::lemma_small_mod(p.1 as nat, rows as nat);
    r as u64
}

/// A body that does not fill the board leaves a cell that some random number
/// picks.
pub proof fn lemma_room_to_land(body: Seq<Cell>, cols: int, rows: int)
    requires
        1 <= cols <= 0x1_0000_0000,
        1 <= rows <= 0x1_0000_0000,
        cols <= usize::MAX,
        rows <= usize::MAX,
        body.len() < cols * rows,
    ensures
        can_land(body, cols, rows),
{
    let p = lemma_cell_left(body, cols, rows);
    let r = lemma_cell_is_picked(p, cols, rows);
    assert(!body.contains(cell_of(r, cols, rows)));
}

/// Different cells of a board have different numbers, all below the number of its
/// cells.
proof fn lemma_cell_numbers(p: Cell, q: Cell, cols: int, rows: int)
    requires
        on_board(p, cols, rows),
        on_board(q, cols, rows),
    ensures
        0 <= cell_number(p, cols) < cols * rows,
        cell_number(p, cols) == cell_number(q, cols) ==> p == q,
{
    assert(0 <= p.1 * cols + p.0 < cols * rows) by (nonlinear_arith)
        requires
            0 <= p.0 < cols,
            0 <= p.1 < rows,
    ;
    if p.1 * cols + p.0 == q.1 * cols + q.0 {
        vstd::arithmetic::div_mod::lemma_fundamental_div_mod_converse(
            p.1 * cols + p.0,
            cols,
            p.1 as int,
            p.0 as int,
        );
        vstd::arithmetic::div_mod::lemma_fundamental_div_mod_converse(
            q.1 * cols + q.0,
            cols,
            q.1 as int,
            q.0 as int,
        );
    }
}

/// A board holds no more different cells than it has.
pub proof fn lemma_board_capacity(body: Seq<Cell>, cols: int, rows: int)
    requires
        body.no_duplicates(),
        forall|i: int| 0 <= i < body.len() ==> on_board(#[trigger] body[i], cols, rows),
        body.len() > 0,
    ensures
        body.len() <= cols * rows,
{
    let numbers = Seq::new(body.len(), |i: int| cell_number(body[i], cols));
    assert forall|i: int, j: int|
        0 <= i < numbers.len() && 0 <= j < numbers.len() && i != j implies numbers[i]
        != numbers[j] by {
        lemma_cell_numbers(body[i], body[j], cols, rows);
    }
    numbers.unique_seq_to_set();
    let all = vstd::set_lib::set_int_range(0, cols * rows);
    lemma_cell_numbers(body[0], body[0], cols, rows);
    vstd::set_lib::lemma_int_range(0, cols * rows);
    assert forall|k: int| numbers.to_set().contains(k) implies all.contains(k) by {
        let i = choose|i: int| 0 <= i < numbers.len() && numbers[i] == k;
        lemma_cell_numbers(body[i], body[i], cols, rows);
    }
    vstd::set_lib::lemma_len_subset(numbers.to_set(), all);
}

/// Food can land beside a snake exactly as long as the snake does not fill the
/// board.
pub proof fn lemma_land_or_full(body: Seq<Cell>, cols: int, rows: int)
    requires
        1 <= cols <= 0x1_0000_0000,
        1 <= rows <= 0x1_0000_0000,
        cols <= usize::MAX,
        rows <= usize::MAX,
        body.no_duplicates(),
        forall|i: int| 0 <= i < body.len() ==> on_board(#[trigger] body[i], cols, rows),
    ensures
        can_land(body, cols, rows) <==> body.len() < cols * rows,
{
    if body.len() < cols * rows {
        lemma_room_to_land(body, cols, rows);
    } else if can_land(body, cols, rows) {
        let r = choose|r: u64| !body.contains(#[trigger] cell_of(r, cols, rows));
        vstd::arithmetic::div_mod::lemma_mod_bound(r as int, cols);
        vstd::arithmetic::div_mod::lemma_mod_bound(r as int / 0x1_0000_0000, rows);
        let more = body.push(cell_of(r, cols, rows));
        assert(more.no_duplicates());
        lemma_board_capacity(more, cols, rows);
    }
}

/// The column of a picked cell is congruent to the number modulo the columns, its
/// row to the number's upper 32 bits modulo the rows, and both are on the board.
pub proof fn lemma_picked_cell(r: u64, cols: int, rows: int)
    requires
        1 <= cols <= usize::MAX,
        1 <= rows <= usize::MAX,
    ensures
        cell_of(r, cols, rows).0 < cols,
        cell_of(r, cols, rows).1 < rows,
        (r - cell_of(r, cols, rows).0) % cols == 0,
        (r / 0x1_0000_0000 - cell_of(r, cols, rows).1) % rows == 0,
{
    let x = r as int;
    let y = r as int / 0x1_0000_0000;
    vstd::arithmetic::div_mod::lemma_mod_bound(x, cols);
    vstd::arithmetic::div_mod::lemma_mod_bound(y, rows);
    vstd::arithmetic::div_mod::lemma_fundamental_div_mod(x, cols);
    vstd::arithmetic::div_mod::lemma_fundamental_div_mod(y, rows);
    vstd::arithmetic::div_mod::lemma_mod_multiples_basic(x / cols, cols);
    vstd::arithmetic::div_mod::lemma_mod_multiples_basic(y / rows, rows);
    assert(x - x % cols == (x / cols) * cols) by (nonlinear_arith)
        requires
            x == cols * (x / cols) + x % cols,
    ;
    assert(y - y % rows == (y / rows) * rows) by (nonlinear_arith)
        requires
            y == rows * (y / rows) + y % rows,
    ;
}

/// A board has the columns from zero up to, but without, their number, and the same
/// of its rows.
pub proof fn lemma_edges_of_the_board(p: Cell, cols: int, rows: int)
    ensures
        on_board(p, cols, rows) <==> 0 <= p.0 <= cols - 1 && 0 <= p.1 <= rows - 1,
{
}

} // verus!
