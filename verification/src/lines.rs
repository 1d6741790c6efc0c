//! The mathematical model of a board: cells, runs of a player's pieces and
//! four-in-a-row lines.
use vstd::prelude::*;

verus! {

/// Number of columns on the board.
pub const COLUMNS: usize = 9;

/// The cell in column `x` and row `y`.
pub open spec fn cell(g: [[i8; 6]; 9], x: int, y: int) -> i8 {
    g[x][y]
}

/// Whether `(x, y)` names a cell of the board.
pub open spec fn in_board(x: int, y: int) -> bool {
    0 <= x < 9 && 0 <= y < 6
}

/// Whether `(x, y)` lies on the board and holds a piece of the player to move (`1`).
pub open spec fn is_own(g: [[i8; 6]; 9], x: int, y: int) -> bool {
    in_board(x, y) && cell(g, x, y) == 1
}

/// Whether `(x, y)` holds a piece of either player (`1` or `-1`).
pub open spec fn is_piece(g: [[i8; 6]; 9], x: int, y: int) -> bool {
    cell(g, x, y) == 1 || cell(g, x, y) == -1
}


/// Number of consecutive own pieces met when walking from `(x, y)` in steps of
/// `(dx, dy)`, looking at no more than `n` cells.
pub open spec fn run_within(g: [[i8; 6]; 9], x: int, y: int, dx: int, dy: int, n: nat) -> nat
    decreases n,
{
    if n == 0 {
        0
    } else if is_own(g, x, y) {
        1 + run_within(g, x + dx, y + dy, dx, dy, (n - 1) as nat)
    } else {
        0
    }
}

/// Number of consecutive own pieces from `(x, y)` in direction `(dx, dy)`.
/// No straight line of the board holds more than nine cells.
pub open spec fn run(g: [[i8; 6]; 9], x: int, y: int, dx: int, dy: int) -> nat {
    run_within(g, x, y, dx, dy, 9)
}

/// The own pieces counted on the line through `(x, y)` along `(dx, dy)`: the run
/// forward from `(x, y)` and the run backward from the cell before it.
pub open spec fn line_count(g: [[i8; 6]; 9], x: int, y: int, dx: int, dy: int) -> nat {
    run(g, x, y, dx, dy) + run(g, x - dx, y - dy, -dx, -dy)
}

/// Four own pieces at `(sx, sy)` and the three cells that follow it along `(dx, dy)`.
pub open spec fn four_from(g: [[i8; 6]; 9], sx: int, sy: int, dx: int, dy: int) -> bool {
    &&& is_own(g, sx, sy)
    &&& is_own(g, sx + dx, sy + dy)
    &&& is_own(g, sx + 2 * dx, sy + 2 * dy)
    &&& is_own(g, sx + 3 * dx, sy + 3 * dy)
}

/// Four own pieces in a row along `(dx, dy)`, one of which is `(x, y)`.
pub open spec fn four_through(g: [[i8; 6]; 9], x: int, y: int, dx: int, dy: int) -> bool {
    ||| four_from(g, x, y, dx, dy)
    ||| four_from(g, x - dx, y - dy, dx, dy)
    ||| four_from(g, x - 2 * dx, y - 2 * dy, dx, dy)
    ||| four_from(g, x - 3 * dx, y - 3 * dy, dx, dy)
}

/// Four own pieces in a row, vertical, horizontal or diagonal, one of which is `(x, y)`.
pub open spec fn connects_four(g: [[i8; 6]; 9], x: int, y: int) -> bool {
    ||| four_through(g, x, y, 0, 1)
    ||| four_through(g, x, y, 1, 0)
    ||| four_through(g, x, y, 1, -1)
    ||| four_through(g, x, y, 1, 1)
}

/// What the win test counts after a piece came to rest at `(x, y)`: the run
/// downward from it, and the lines through it horizontally and along both
/// diagonals, each of which must reach four.
pub open spec fn counts_four(g: [[i8; 6]; 9], x: int, y: int) -> bool {
    ||| run(g, x, y, 0, 1) >= 4
    ||| line_count(g, x, y, 1, 0) >= 4
    ||| line_count(g, x, y, 1, -1) >= 4
    ||| line_count(g, x, y, -1, -1) >= 4
}

/// A run of at least `k <= 4` cells, looking at no fewer than `k` cells,
/// is exactly `k` own cells in a row.
proof fn lemma_run_at_least(g: [[i8; 6]; 9], x: int, y: int, dx: int, dy: int, n: nat)
    requires
        n >= 4,
    ensures
        run_within(g, x, y, dx, dy, n) >= 1 <==> is_own(g, x, y),
        run_within(g, x, y, dx, dy, n) >= 2 <==> is_own(g, x, y) && is_own(g, x + dx, y + dy),
        run_within(g, x, y, dx, dy, n) >= 3 <==> is_own(g, x, y) && is_own(g, x + dx, y + dy)
            && is_own(g, x + 2 * dx, y + 2 * dy),
        run_within(g, x, y, dx, dy, n) >= 4 <==> four_from(g, x, y, dx, dy),
{
    reveal_with_fuel(run_within, 5);
}

/// The line count through an own cell reaches four exactly when four own
/// pieces in a row along that direction include the cell.
pub proof fn lemma_line_count_four(g: [[i8; 6]; 9], x: int, y: int, dx: int, dy: int)
    requires
        is_own(g, x, y),
    ensures
        line_count(g, x, y, dx, dy) >= 4 <==> four_through(g, x, y, dx, dy),
{
    lemma_run_at_least(g, x, y, dx, dy, 9);
    lemma_run_at_least(g, x - dx, y - dy, -dx, -dy, 9);
}

/// The two ways of walking the falling diagonal find the same lines.
pub proof fn lemma_falling_diagonal_reversed(g: [[i8; 6]; 9], x: int, y: int)
    ensures
        four_through(g, x, y, 1, 1) <==> four_through(g, x, y, -1, -1),
{
}

/// The horizontal lines through a cell are the same walked either way.
pub proof fn lemma_horizontal_reversed(g: [[i8; 6]; 9], x: int, y: int)
    ensures
        four_through(g, x, y, 1, 0) <==> four_through(g, x, y, -1, 0),
{
}

/// Walking a board with more own pieces never gives a shorter run.
proof fn lemma_run_monotone(a: [[i8; 6]; 9], b: [[i8; 6]; 9], x: int, y: int, dx: int, dy: int, n: nat)
    requires
        forall|i: int, j: int| #[trigger] is_own(a, i, j) ==> is_own(b, i, j),
    ensures
        run_within(a, x, y, dx, dy, n) <= run_within(b, x, y, dx, dy, n),
    decreases n,
{
    if n > 0 {
        lemma_run_monotone(a, b, x + dx, y + dy, dx, dy, (n - 1) as nat);
    }
}

/// Adding pieces of the player to move never takes away a four counted by the
/// win test: whatever counts four at `(x, y)` on `a` does so on `b` too.
pub proof fn lemma_counts_four_monotone(a: [[i8; 6]; 9], b: [[i8; 6]; 9], x: int, y: int)
    requires
        forall|i: int, j: int| #[trigger] is_own(a, i, j) ==> is_own(b, i, j),
    ensures
        counts_four(a, x, y) ==> counts_four(b, x, y),
{
    lemma_run_monotone(a, b, x, y, 0, 1, 9);
    lemma_run_monotone(a, b, x, y, 1, 0, 9);
    lemma_run_monotone(a, b, x - 1, y, -1, 0, 9);
    lemma_run_monotone(a, b, x, y, 1, -1, 9);
    lemma_run_monotone(a, b, x - 1, y + 1, -1, 1, 9);
    lemma_run_monotone(a, b, x, y, -1, -1, 9);
    lemma_run_monotone(a, b, x + 1, y + 1, 1, 1, 9);
}

/// The win test looks only at which cells hold a piece of the player to move:
/// the opponent's pieces, empty cells and any other value all count alike.
pub proof fn lemma_counts_four_own_cells_only(a: [[i8; 6]; 9], b: [[i8; 6]; 9], x: int, y: int)
    requires
        forall|i: int, j: int| in_board(i, j) ==> (#[trigger] cell(a, i, j) == 1 <==> cell(b, i, j) == 1),
    ensures
        counts_four(a, x, y) == counts_four(b, x, y),
{
    assert forall|i: int, j: int| #[trigger] is_own(a, i, j) implies is_own(b, i, j) by {
        assert(cell(a, i, j) == 1);
    }
    assert forall|i: int, j: int| #[trigger] is_own(b, i, j) implies is_own(a, i, j) by {
        assert(cell(a, i, j) == 1 <==> cell(b, i, j) == 1);
    }
    lemma_counts_four_monotone(a, b, x, y);
    lemma_counts_four_monotone(b, a, x, y);
}

/// `m` is `s` mirrored left to right.
pub open spec fn mirrored(s: [[i8; 6]; 9], m: [[i8; 6]; 9]) -> bool {
    forall|i: int, j: int| in_board(i, j) ==> #[trigger] cell(m, i, j) == cell(s, 8 - i, j)
}

/// A run on the mirrored board is the run on the board with the horizontal
/// step turned round.
proof fn lemma_run_mirrored(s: [[i8; 6]; 9], m: [[i8; 6]; 9], x: int, y: int, dx: int, dy: int, n: nat)
    requires
        mirrored(s, m),
    ensures
        run_within(m, 8 - x, y, dx, dy, n) == run_within(s, x, y, -dx, dy, n),
    decreases n,
{
    if n > 0 {
        lemma_run_mirrored(s, m, x - dx, y + dy, dx, dy, (n - 1) as nat);
        assert(is_own(m, 8 - x, y) <==> is_own(s, x, y)) by {
            if in_board(8 - x, y) {
                assert(cell(m, 8 - x, y) == cell(s, x, y));
            }
        }
        assert(8 - x + dx == 8 - (x - dx));
    }
}

/// The win test is symmetric under mirroring the board left to right: a
/// piece of the player to move at `(x, y)` counts four exactly when its
/// mirror image at `(8 - x, y)` does on the mirrored board.
pub proof fn lemma_counts_four_mirrored(s: [[i8; 6]; 9], m: [[i8; 6]; 9], x: int, y: int)
    requires
        mirrored(s, m),
        is_own(s, x, y),
    ensures
        counts_four(m, 8 - x, y) == counts_four(s, x, y),
{
    lemma_run_mirrored(s, m, x, y, 0, 1, 9);
    lemma_run_mirrored(s, m, x, y, 1, 0, 9);
    lemma_run_mirrored(s, m, x + 1, y, -1, 0, 9);
    lemma_run_mirrored(s, m, x, y, 1, -1, 9);
    lemma_run_mirrored(s, m, x + 1, y + 1, -1, 1, 9);
    lemma_run_mirrored(s, m, x, y, -1, -1, 9);
    lemma_run_mirrored(s, m, x - 1, y + 1, 1, 1, 9);
    assert(8 - x - 1 == 8 - (x + 1));
    assert(8 - x + 1 == 8 - (x - 1));
    lemma_line_count_four(s, x, y, 1, 0);
    lemma_line_count_four(s, x, y, -1, 0);
    lemma_horizontal_reversed(s, x, y);
}

/// The first row, from row `i` down to the bottom, whose cell in column `x`
/// holds a piece; `6` where none does.
pub open spec fn first_piece_from(g: [[i8; 6]; 9], x: int, i: int) -> int
    decreases 6 - i,
{
    if i >= 6 {
        6
    } else if is_piece(g, x, i) {
        i
    } else {
        first_piece_from(g, x, i + 1)
    }
}

/// The row where a piece dropped into column `x` comes to rest: just above the
/// first piece below the top row, or the bottom row when there is none.
pub open spec fn landing_row(g: [[i8; 6]; 9], x: int) -> int {
    first_piece_from(g, x, 1) - 1
}

/// `first_piece_from` finds the first piece at or below row `i`.
pub proof fn lemma_first_piece_from(g: [[i8; 6]; 9], x: int, i: int)
    requires
        1 <= i <= 6,
    ensures
        i <= first_piece_from(g, x, i) <= 6,
        first_piece_from(g, x, i) < 6 ==> is_piece(g, x, first_piece_from(g, x, i)),
        forall|j: int| i <= j < first_piece_from(g, x, i) ==> !is_piece(g, x, j),
    decreases 6 - i,
{
    if i < 6 && !is_piece(g, x, i) {
        lemma_first_piece_from(g, x, i + 1);
    }
}

/// Every cell holds `-1`, `0` or `1`.
pub open spec fn well_formed(g: [[i8; 6]; 9]) -> bool {
    forall|x: int, y: int| in_board(x, y) ==> -1 <= #[trigger] cell(g, x, y) <= 1
}

/// No empty cell lies below a piece: every column is filled from the bottom up.
pub open spec fn settled(g: [[i8; 6]; 9]) -> bool {
    forall|x: int, y: int, z: int|
        #![trigger cell(g, x, y), cell(g, x, z)]
        in_board(x, y) && in_board(x, z) && y < z && cell(g, x, y) != 0 ==> cell(g, x, z) != 0
}

/// Number of pieces, of either player or any other nonzero value, among the
/// first `n` cells taken column by column from the top: cell `k` is column
/// `k / 6`, row `k % 6`.
pub open spec fn count_pieces(g: [[i8; 6]; 9], n: nat) -> nat
    decreases n,
{
    if n == 0 {
        0
    } else {
        let k = n - 1;
        count_pieces(g, (n - 1) as nat) + if cell(g, k / 6, k % 6) != 0 {
            1nat
        } else {
            0nat
        }
    }
}

/// Number of nonzero cells of the board.
pub open spec fn pieces(g: [[i8; 6]; 9]) -> nat {
    count_pieces(g, 54)
}

} // verus!
