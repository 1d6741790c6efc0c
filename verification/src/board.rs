//! The board, dropping pieces and detecting a four in a row.
use vstd::prelude::*;
use crate::lines::{
    cell, connects_four, is_piece, counts_four, first_piece_from, in_board, is_own, landing_row,
    lemma_falling_diagonal_reversed, lemma_first_piece_from, lemma_line_count_four, run,
    run_within, settled, well_formed, count_pieces, pieces,
};

verus! {

/// What a move leads to, seen from the player who made it.
#[derive(Debug, Clone, Copy, PartialEq, Eq, Structural)]
pub enum GameState {
    Won,
    Lost,
    Unfinished,
}

/// How a cell is drawn: an empty cell, a piece of the player to move, a piece
/// of the opponent, or any other value as it stands.
#[derive(Debug, Clone, Copy, PartialEq, Eq, Structural)]
pub enum Glyph {
    Empty,
    Mine,
    Theirs,
    Other(i8),
}

/// The glyph that draws a cell holding `v`.
pub open spec fn glyph_of(v: i8) -> Glyph {
    if v == 0 {
        Glyph::Empty
    } else if v == 1 {
        Glyph::Mine
    } else if v == -1 {
        Glyph::Theirs
    } else {
        Glyph::Other(v)
    }
}

/// A board of nine columns of six cells. `space[x][y]` is column `x`, row `y`,
/// with row 0 at the top. `1` is a piece of the player to move, `-1` one of the
/// opponent and `0` an empty cell.
pub struct Four {
    pub space: [[i8; 6]; 9],
}

impl Four {
    /// An empty board.
    pub fn new() -> (f: Four)
        ensures
            forall|x: int, y: int| in_board(x, y) ==> #[trigger] cell(f.space, x, y) == 0,
            well_formed(f.space),
            settled(f.space),
    {
        let s: [[i8; 6]; 9] = [[0i8; 6]; 9];
        Four { space: s }
    }
}

/// No cell holds `-128`, the one value that cannot change sides.
pub open spec fn no_minimum(g: [[i8; 6]; 9]) -> bool {
    forall|x: int, y: int| in_board(x, y) ==> #[trigger] cell(g, x, y) != -128i8
}

/// `after` is `before` with every cell negated.
pub open spec fn negated(before: [[i8; 6]; 9], after: [[i8; 6]; 9]) -> bool {
    forall|x: int, y: int| in_board(x, y) ==> #[trigger] cell(after, x, y) == -cell(before, x, y)
}

/// What dropping a piece of the player to move into column `x` of `before`
/// gives: the move is lost, and nothing changes, when the top cell of the column
/// is taken; otherwise the piece comes to rest at the landing row, and the move
/// wins when it completes four in a row.
pub open spec fn drop_outcome(before: [[i8; 6]; 9], x: int, after: [[i8; 6]; 9], r: GameState) -> bool {
    if cell(before, x, 0) != 0 {
        r == GameState::Lost && after == before
    } else {
        let y = landing_row(before, x);
        &&& forall|i: int, j: int|
            in_board(i, j) ==> #[trigger] cell(after, i, j) == if i == x && j == y {
                1i8
            } else {
                cell(before, i, j)
            }
        &&& r == if connects_four(after, x, y) {
            GameState::Won
        } else {
            GameState::Unfinished
        }
    }
}

/// Number of consecutive pieces of the player to move from `(x, y)` in steps of `(dx, dy)`.
fn run_length(g: &[[i8; 6]; 9], x: isize, y: isize, dx: isize, dy: isize) -> (n: usize)
    requires
        -1 <= x <= 9,
        -1 <= y <= 6,
        -1 <= dx <= 1,
        -1 <= dy <= 1,
    ensures
        n <= 9,
        n == run(*g, x as int, y as int, dx as int, dy as int),
{
    let mut n: usize = 0;
    let mut cx: isize = x;
    let mut cy: isize = y;
    while n < 9 && 0 <= cx && cx < 9 && 0 <= cy && cy < 6 && g[cx as usize][cy as usize] == 1
        invariant
            n <= 9,
            -1 <= cx <= 9,
            -1 <= cy <= 6,
            -1 <= dx <= 1,
            -1 <= dy <= 1,
            run(*g, x as int, y as int, dx as int, dy as int) == n + run_within(
                *g,
                cx as int,
                cy as int,
                dx as int,
                dy as int,
                (9 - n) as nat,
            ),
        decreases 9 - n,
    {
        n = n + 1;
        cx = cx + dx;
        cy = cy + dy;
    }
    n
}

impl Four {
    /// Whether the piece at `(x, y)` gives the player to move four in a row:
    /// downward from it, or on the line through it horizontally or along
    /// either diagonal.
    fn win(&self, x: &usize, y: &usize) -> (r: GameState)
        requires
            *x < 9,
            *y < 6,
        ensures
            r == if counts_four(self.space, *x as int, *y as int) {
                GameState::Won
            } else {
                GameState::Unfinished
            },
    {
        let xi = *x as isize;
        let yi = *y as isize;
        if run_length(&self.space, xi, yi, 0, 1) >= 4 {
            return GameState::Won;
        }
        if run_length(&self.space, xi, yi, 1, 0) + run_length(&self.space, xi - 1, yi, -1, 0) >= 4 {
            return GameState::Won;
        }
        if run_length(&self.space, xi, yi, 1, -1) + run_length(&self.space, xi - 1, yi + 1, -1, 1) >= 4 {
            return GameState::Won;
        }
        if run_length(&self.space, xi, yi, -1, -1) + run_length(&self.space, xi + 1, yi + 1, 1, 1) >= 4 {
            return GameState::Won;
        }
        GameState::Unfinished
    }

    /// The board as it is drawn: six rows from the top, each of nine cells
    /// from the left.
    pub fn glyph_rows(&self) -> (rows: Vec<Vec<Glyph>>)
        ensures
            rows.len() == 6,
            forall|i: int| 0 <= i < 6 ==> #[trigger] rows[i].len() == 9,
            forall|i: int, j: int|
                0 <= i < 6 && 0 <= j < 9 ==> #[trigger] rows[i][j] == glyph_of(cell(self.space, j, i)),
    {
        let mut rows: Vec<Vec<Glyph>> = Vec::new();
        let mut i: usize = 0;
        while i < 6
            invariant
                i <= 6,
                rows.len() == i,
                forall|k: int| 0 <= k < i ==> #[trigger] rows[k].len() == 9,
                forall|k: int, j: int|
                    0 <= k < i && 0 <= j < 9 ==> #[trigger] rows[k][j] == glyph_of(cell(self.space, j, k)),
            decreases 6 - i,
        {
            let mut row: Vec<Glyph> = Vec::new();
            let mut j: usize = 0;
            while j < 9
                invariant
                    i < 6,
                    j <= 9,
                    row.len() == j,
                    forall|k: int| 0 <= k < j ==> #[trigger] row[k] == glyph_of(cell(self.space, k, i as int)),
                decreases 9 - j,
            {
                let v = self.space[j][i];
                let g = if v == 0 {
                    Glyph::Empty
                } else if v == 1 {
                    Glyph::Mine
                } else if v == -1 {
                    Glyph::Theirs
                } else {
                    Glyph::Other(v)
                };
                row.push(g);
                j = j + 1;
            }
            rows.push(row);
            i = i + 1;
        }
        rows
    }

    /// Turns the board round for the other player: every piece changes sides.
    pub fn invert_display(&mut self)
        requires
            no_minimum(old(self).space),
        ensures
            negated(old(self).space, final(self).space),
    {
        let ghost before = self.space;
        let mut x: usize = 0;
        while x < 9
            invariant
                x <= 9,
                no_minimum(before),
                forall|i: int, j: int|
                    0 <= i < x && 0 <= j < 6 ==> #[trigger] cell(self.space, i, j) == -cell(before, i, j),
                forall|i: int, j: int|
                    x <= i < 9 && 0 <= j < 6 ==> #[trigger] cell(self.space, i, j) == cell(before, i, j),
            decreases 9 - x,
        {
            let mut y: usize = 0;
            while y < 6
                invariant
                    x < 9,
                    y <= 6,
                    no_minimum(before),
                    forall|i: int, j: int|
                        0 <= i < x && 0 <= j < 6 ==> #[trigger] cell(self.space, i, j) == -cell(before, i, j),
                    forall|j: int| 0 <= j < y ==> #[trigger] cell(self.space, x as int, j) == -cell(before, x as int, j),
                    forall|i: int, j: int|
                        x <= i < 9 && 0 <= j < 6 && !(i == x && j < y) ==> #[trigger] cell(self.space, i, j) == cell(before, i, j),
                decreases 6 - y,
            {
                assert(in_board(x as int, y as int));
                assert(cell(self.space, x as int, y as int) == cell(before, x as int, y as int));
                let ghost prev = self.space;
                let v = self.space[x][y];
                self.space[x][y] = -v;
                assert forall|i: int, j: int|
                    in_board(i, j) && !(i == x && j == y) implies #[trigger] cell(self.space, i, j) == cell(prev, i, j)
                by {
                    if i != x {
                        assert(self.space@[i] == prev@[i]);
                    }
                }
                y = y + 1;
            }
            x = x + 1;
        }
    }

    /// The row where a piece dropped into column `x` comes to rest.
    fn landing(&self, x: usize) -> (y: usize)
        requires
            x < 9,
        ensures
            y as int == landing_row(self.space, x as int),
            y < 6,
            forall|j: int| 1 <= j <= y ==> !is_piece(self.space, x as int, j),
    {
        let mut i: usize = 1;
        while i < 6 && self.space[x][i] != -1 && self.space[x][i] != 1
            invariant
                1 <= i <= 6,
                x < 9,
                first_piece_from(self.space, x as int, 1) == first_piece_from(self.space, x as int, i as int),
            decreases 6 - i,
        {
            i = i + 1;
        }
        proof {
            lemma_first_piece_from(self.space, x as int, 1);
        }
        i - 1
    }

    /// Drops a piece of the player to move into column `spot`. Placing it on a
    /// full column loses at once; otherwise the piece falls onto the first piece
    /// below the top row, or to the bottom, and the move wins when it completes
    /// four in a row through the new piece.
    pub fn place(&mut self, spot: &usize) -> (r: GameState)
        requires
            *spot < 9,
        ensures
            drop_outcome(old(self).space, *spot as int, final(self).space, r),
    {
        let x = *spot;
        if self.space[x][0] != 0 {
            return GameState::Lost;
        }
        let empty_space_y = self.landing(x);
        let ghost before = self.space;
        self.space[x][empty_space_y] = 1i8;
        proof {
            let g = self.space;
            let xx = x as int;
            let yy = empty_space_y as int;
            assert(forall|i: int, j: int|
                in_board(i, j) ==> #[trigger] cell(g, i, j) == if i == xx && j == yy {
                    1i8
                } else {
                    cell(before, i, j)
                });
            if yy >= 1 {
                assert(cell(g, xx, yy - 1) == cell(before, xx, yy - 1));
                if yy >= 2 {
                    assert(!is_piece(before, xx, yy - 1));
                } else {
                    assert(cell(before, xx, 0) == 0);
                }
            }
            lemma_counts_iff_connects(g, xx, yy);
        }
        self.win(&x, &empty_space_y)
    }
}

/// Right after a piece came to rest at `(x, y)`, with no piece of the same
/// player above it, the counts of the win test reach four exactly when the
/// piece completes four in a row.
proof fn lemma_counts_iff_connects(g: [[i8; 6]; 9], x: int, y: int)
    requires
        is_own(g, x, y),
        !is_own(g, x, y - 1),
    ensures
        counts_four(g, x, y) <==> connects_four(g, x, y),
{
    assert(run(g, x, y - 1, 0, -1) == 0);
    lemma_line_count_four(g, x, y, 0, 1);
    lemma_line_count_four(g, x, y, 1, 0);
    lemma_line_count_four(g, x, y, 1, -1);
    lemma_line_count_four(g, x, y, -1, -1);
    lemma_falling_diagonal_reversed(g, x, y);
}

/// Column `x` has a piece in every row.
pub open spec fn column_full(g: [[i8; 6]; 9], x: int) -> bool {
    forall|y: int| 0 <= y < 6 ==> #[trigger] cell(g, x, y) != 0
}

/// Turning the board round twice gives back the board.
pub proof fn lemma_invert_twice(a: [[i8; 6]; 9], b: [[i8; 6]; 9], c: [[i8; 6]; 9])
    requires
        negated(a, b),
        negated(b, c),
    ensures
        c == a,
{
    assert forall|x: int| 0 <= x < 9 implies c[x] == a[x] by {
        assert forall|y: int| 0 <= y < 6 implies c[x][y] == a[x][y] by {
            assert(cell(b, x, y) == -cell(a, x, y));
            assert(cell(c, x, y) == -cell(b, x, y));
        }
        assert(c[x] =~= a[x]);
    }
    assert(c =~= a);
}

/// Turning a board round keeps its cells in `-1..=1`, keeps its columns filled
/// from the bottom up, and leaves a board that can be turned round again.
pub proof fn lemma_invert_keeps_shape(a: [[i8; 6]; 9], b: [[i8; 6]; 9])
    requires
        negated(a, b),
    ensures
        well_formed(a) ==> well_formed(b) && no_minimum(a) && no_minimum(b),
        settled(a) ==> settled(b),
{
    if well_formed(a) {
        assert forall|x: int, y: int| in_board(x, y) implies #[trigger] cell(a, x, y) != -128i8 by {}
        assert forall|x: int, y: int| in_board(x, y) implies #[trigger] cell(b, x, y) != -128i8 && -1 <= cell(b, x, y) <= 1 by {
            assert(cell(a, x, y) == -cell(b, x, y));
        }
    }
    if settled(a) {
        assert forall|x: int, y: int, z: int|
            #![trigger cell(b, x, y), cell(b, x, z)]
            in_board(x, y) && in_board(x, z) && y < z && cell(b, x, y) != 0 implies cell(b, x, z) != 0 by {
            assert(cell(a, x, y) != 0);
        }
    }
}

/// On a board whose cells are `-1`, `0` or `1` and whose columns are filled
/// from the bottom up, a drop keeps both properties; a move is lost exactly
/// when the column is full, and otherwise the piece fills the topmost empty
/// cell of the column, which was empty.
pub proof fn lemma_drop_keeps_shape(before: [[i8; 6]; 9], x: int, after: [[i8; 6]; 9], r: GameState)
    requires
        0 <= x < 9,
        well_formed(before),
        settled(before),
        drop_outcome(before, x, after, r),
    ensures
        well_formed(after),
        settled(after),
        r == GameState::Lost <==> column_full(before, x),
        r != GameState::Lost ==> {
            let y = landing_row(before, x);
            &&& cell(before, x, y) == 0
            &&& (y == 5 || cell(before, x, y + 1) != 0)
        },
{
    if cell(before, x, 0) != 0 {
        assert forall|y: int| 0 <= y < 6 implies #[trigger] cell(before, x, y) != 0 by {
            if y > 0 {
                assert(in_board(x, 0) && in_board(x, y));
            }
        }
    } else {
        let y = landing_row(before, x);
        lemma_first_piece_from(before, x, 1);
        assert(in_board(x, 0));
        assert(cell(before, x, y) == 0) by {
            if y > 0 {
                assert(!is_piece(before, x, y));
                assert(in_board(x, y));
            }
        }
        assert(!column_full(before, x));
        assert forall|i: int, j: int| in_board(i, j) implies -1 <= #[trigger] cell(after, i, j) <= 1 by {
        }
        assert forall|i: int, j: int, k: int|
            #![trigger cell(after, i, j), cell(after, i, k)]
            in_board(i, j) && in_board(i, k) && j < k && cell(after, i, j) != 0 implies cell(after, i, k) != 0 by {
            if i == x {
                if k != y {
                    if j < y {
                        // every cell above the landing row is empty
                        if j > 0 {
                            assert(!is_piece(before, x, j));
                        }
                        assert(cell(before, x, j) == 0);
                    } else if j == y {
                        assert(y + 1 < 6);
                        assert(is_piece(before, x, y + 1));
                        assert(in_board(x, y + 1));
                        if k > y + 1 {
                            assert(cell(before, x, k) != 0);
                        }
                    }
                }
            }
        }
        if y < 5 {
            assert(is_piece(before, x, y + 1));
        }
    }
}

/// Filling one empty cell and leaving the others alone adds one piece.
proof fn lemma_count_one_more(
    before: [[i8; 6]; 9],
    after: [[i8; 6]; 9],
    x: int,
    y: int,
    n: nat,
)
    requires
        in_board(x, y),
        n <= 54,
        cell(before, x, y) == 0,
        cell(after, x, y) != 0,
        forall|i: int, j: int|
            in_board(i, j) && !(i == x && j == y) ==> #[trigger] cell(after, i, j) == cell(before, i, j),
    ensures
        count_pieces(after, n) == count_pieces(before, n) + if 6 * x + y < n {
            1nat
        } else {
            0nat
        },
    decreases n,
{
    if n > 0 {
        lemma_count_one_more(before, after, x, y, (n - 1) as nat);
        let k = n - 1;
        assert(0 <= k / 6 < 9 && 0 <= k % 6 < 6 && k == 6 * (k / 6) + k % 6) by (nonlinear_arith)
            requires
                0 <= k < 54,
        ;
        assert((k / 6 == x && k % 6 == y) <==> k == 6 * x + y);
    }
}

/// Boards whose cells are nonzero at the same places count the same pieces.
proof fn lemma_count_same_places(a: [[i8; 6]; 9], b: [[i8; 6]; 9], n: nat)
    requires
        n <= 54,
        forall|i: int, j: int| in_board(i, j) ==> (#[trigger] cell(a, i, j) != 0 <==> cell(b, i, j) != 0),
    ensures
        count_pieces(a, n) == count_pieces(b, n),
    decreases n,
{
    if n > 0 {
        lemma_count_same_places(a, b, (n - 1) as nat);
        let k = n - 1;
        assert(0 <= k / 6 < 9 && 0 <= k % 6 < 6) by (nonlinear_arith)
            requires
                0 <= k < 54,
        ;
        assert(in_board(k / 6, k % 6));
    }
}

/// No more than `n` of the first `n` cells hold a piece; when all of them do,
/// none of them is empty.
proof fn lemma_count_at_most(g: [[i8; 6]; 9], n: nat)
    requires
        n <= 54,
    ensures
        count_pieces(g, n) <= n,
        count_pieces(g, n) == n ==> forall|k: int| 0 <= k < n ==> #[trigger] cell(g, k / 6, k % 6) != 0,
    decreases n,
{
    if n > 0 {
        lemma_count_at_most(g, (n - 1) as nat);
    }
}

/// Turning the board round keeps the number of pieces.
pub proof fn lemma_invert_keeps_pieces(a: [[i8; 6]; 9], b: [[i8; 6]; 9])
    requires
        negated(a, b),
    ensures
        pieces(a) == pieces(b),
{
    assert forall|i: int, j: int| in_board(i, j) implies (#[trigger] cell(a, i, j) != 0 <==> cell(b, i, j) != 0) by {
        assert(cell(b, i, j) == -cell(a, i, j));
    }
    lemma_count_same_places(a, b, 54);
}

/// On a board whose cells are `-1`, `0` or `1` and whose columns are filled from
/// the bottom up, a drop that is not lost adds exactly one piece, and no board
/// holds more than 54 pieces; a board with 54 has every column full, so every
/// drop into it is lost. A game thus ends by its 55th move.
pub proof fn lemma_drop_adds_a_piece(before: [[i8; 6]; 9], x: int, after: [[i8; 6]; 9], r: GameState)
    requires
        0 <= x < 9,
        well_formed(before),
        settled(before),
        drop_outcome(before, x, after, r),
    ensures
        pieces(before) <= 54,
        r != GameState::Lost ==> pieces(after) == pieces(before) + 1,
        pieces(before) == 54 ==> r == GameState::Lost,
{
    lemma_drop_keeps_shape(before, x, after, r);
    lemma_count_at_most(before, 54);
    if r != GameState::Lost {
        let y = landing_row(before, x);
        lemma_first_piece_from(before, x, 1);
        lemma_count_one_more(before, after, x, y, 54);
    }
    if pieces(before) == 54 {
        assert(column_full(before, x)) by {
            assert forall|y: int| 0 <= y < 6 implies #[trigger] cell(before, x, y) != 0 by {
                let k = 6 * x + y;
                assert(k / 6 == x && k % 6 == y) by (nonlinear_arith)
                    requires
                        k == 6 * x + y,
                        0 <= y < 6,
                ;
                assert(cell(before, k / 6, k % 6) != 0);
            }
        }
    }
}

} // verus!
