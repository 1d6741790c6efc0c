//! A game between two players on one board, each of whom sees the board from
//! their own side, and the pairing of players in a round of games.
use vstd::prelude::*;
use crate::board::{
    drop_outcome, lemma_drop_adds_a_piece, lemma_drop_keeps_shape, lemma_invert_keeps_pieces,
    lemma_invert_keeps_shape, negated, Four, GameState,
};
use crate::draw::{random_below, Drawn};
use crate::lines::{cell, in_board, pieces, settled, well_formed};

verus! {

/// The player whose move it is.
#[derive(Debug, Clone, Copy, PartialEq, Eq, Structural)]
pub enum Side {
    First,
    Second,
}

/// The player who moves after `s`.
pub open spec fn other(s: Side) -> Side {
    match s {
        Side::First => Side::Second,
        Side::Second => Side::First,
    }
}

/// The result of a game once a move by `turn` ended in `state`, as whether the
/// first player won: `None` while the game goes on. The player who made the
/// move wins by making four in a row and loses by choosing a full column,
/// whether the column was chosen by the player or drawn at random.
pub open spec fn verdict_of(turn: Side, state: GameState) -> Option<bool> {
    match state {
        GameState::Unfinished => None,
        GameState::Won => Some(turn == Side::First),
        GameState::Lost => Some(turn == Side::Second),
    }
}

/// The result of a game after a move by `turn` ended in `state`.
pub fn verdict(turn: Side, state: GameState) -> (r: Option<bool>)
    ensures
        r == verdict_of(turn, state),
{
    let mover_is_first = match turn {
        Side::First => true,
        Side::Second => false,
    };
    match state {
        GameState::Won => Some(mover_is_first),
        GameState::Lost => Some(!mover_is_first),
        GameState::Unfinished => None,
    }
}

/// One move of a game: the player `turn` drops a piece into `column` of
/// `before`. When that ends the game, `r` says whether the first player won and
/// the board stays as the move left it; otherwise the board is turned round for
/// the other player, who moves next.
pub open spec fn move_outcome(
    before: [[i8; 6]; 9],
    turn: Side,
    column: int,
    after: [[i8; 6]; 9],
    next: Side,
    r: Option<bool>,
) -> bool {
    exists|placed: [[i8; 6]; 9], state: GameState|
        {
            &&& #[trigger] drop_outcome(before, column, placed, state)
            &&& r == verdict_of(turn, state)
            &&& if r is None {
                negated(placed, after) && next == other(turn)
            } else {
                after == placed && next == turn
            }
        }
}

/// Every move that does not end a game adds one piece to the board, and a
/// board holds no more than 54: so the move onto a board of 54 pieces ends the
/// game, and no game lasts more than 55 moves.
pub proof fn lemma_move_progress(
    before: [[i8; 6]; 9],
    turn: Side,
    column: int,
    after: [[i8; 6]; 9],
    next: Side,
    r: Option<bool>,
)
    requires
        0 <= column < 9,
        well_formed(before),
        settled(before),
        move_outcome(before, turn, column, after, next, r),
    ensures
        pieces(before) <= 54,
        r is None ==> pieces(after) == pieces(before) + 1,
        pieces(before) == 54 ==> r is Some,
{
    let (placed, state) = choose|placed: [[i8; 6]; 9], state: GameState|
        {
            &&& #[trigger] drop_outcome(before, column, placed, state)
            &&& r == verdict_of(turn, state)
            &&& if r is None {
                negated(placed, after) && next == other(turn)
            } else {
                after == placed && next == turn
            }
        };
    lemma_drop_adds_a_piece(before, column, placed, state);
    if r is None {
        lemma_invert_keeps_pieces(placed, after);
    }
}

/// A game in progress: the board as the player to move sees it, and that player.
pub struct Match {
    board: Four,
    turn: Side,
    last_draw: Option<Drawn>,
}

impl Match {
    #[verifier::type_invariant]
    spec fn shaped(self) -> bool {
        well_formed(self.board.space) && settled(self.board.space)
    }

    /// The board as the player to move sees it.
    pub closed spec fn grid(self) -> [[i8; 6]; 9] {
        self.board.space
    }

    /// The player to move.
    pub closed spec fn to_move(self) -> Side {
        self.turn
    }

    /// The draw that chose the column of the last move, when that move was random.
    pub closed spec fn last_drawn(self) -> Option<Drawn> {
        self.last_draw
    }

    /// A game on an empty board, with the first player to move.
    pub fn new() -> (m: Match)
        ensures
            forall|x: int, y: int| in_board(x, y) ==> #[trigger] cell(m.grid(), x, y) == 0,
            m.to_move() == Side::First,
            m.last_drawn() is None,
    {
        Match { board: Four::new(), turn: Side::First, last_draw: None }
    }

    /// The board as the player to move sees it.
    pub fn board(&self) -> (b: &Four)
        ensures
            b.space == self.grid(),
            well_formed(b.space),
            settled(b.space),
    {
        proof {
            use_type_invariant(self);
        }
        &self.board
    }

    /// The player to move.
    pub fn turn(&self) -> (s: Side)
        ensures
            s == self.to_move(),
    {
        self.turn
    }

    /// The column drawn for the last move, when that move was random.
    pub fn last_draw(&self) -> (c: Option<usize>)
        ensures
            c == match self.last_drawn() {
                Some(d) => Some(d.drawn_value() as usize),
                None => None::<usize>,
            },
    {
        match &self.last_draw {
            Some(d) => Some(d.value()),
            None => None,
        }
    }

    /// The player to move drops a piece into the chosen `column`. Returns
    /// whether the first player won when the move ends the game, and `None`
    /// when it goes on.
    pub fn play_move(&mut self, column: usize) -> (r: Option<bool>)
        requires
            column < 9,
        ensures
            move_outcome(
                old(self).grid(),
                old(self).to_move(),
                column as int,
                final(self).grid(),
                final(self).to_move(),
                r,
            ),
            final(self).last_drawn() is None,
    {
        proof {
            use_type_invariant(&*self);
        }
        let ghost before = self.board.space;
        let mut board = Four::new();
        std::mem::swap(&mut board, &mut self.board);
        let state = board.place(&column);
        let ghost placed = board.space;
        proof {
            lemma_drop_keeps_shape(before, column as int, placed, state);
            assert(crate::board::no_minimum(placed));
        }
        let r = verdict(self.turn, state);
        if r.is_none() {
            board.invert_display();
            proof {
                lemma_invert_keeps_shape(placed, board.space);
            }
            self.turn = match self.turn {
                Side::First => Side::Second,
                Side::Second => Side::First,
            };
        }
        std::mem::swap(&mut board, &mut self.board);
        self.last_draw = None;
        proof {
            assert(drop_outcome(before, column as int, placed, state));
        }
        r
    }

    /// The player to move drops a piece into a column drawn at random, with
    /// every column of the board in the range of the draw. The draw is kept
    /// as the match's last draw.
    pub fn play_random_move(&mut self) -> (r: Option<bool>)
        ensures
            exists|column: int|
                0 <= column < 9 && #[trigger] move_outcome(
                    old(self).grid(),
                    old(self).to_move(),
                    column,
                    final(self).grid(),
                    final(self).to_move(),
                    r,
                ),
            final(self).last_drawn() is Some,
            random_move_outcome(
                old(self).grid(),
                old(self).to_move(),
                final(self).last_drawn()->0,
                final(self).grid(),
                final(self).to_move(),
                r,
            ),
    {
        let draw = random_below(9);
        let r = self.play_move(draw.value());
        proof {
            use_type_invariant(&*self);
        }
        self.last_draw = Some(draw);
        proof {
            assert(move_outcome(
                old(self).grid(),
                old(self).to_move(),
                draw.drawn_value() as int,
                self.grid(),
                self.to_move(),
                r,
            ));
        }
        r
    }
}

/// A random move: `draw` was drawn from the range `0..9` of all the columns,
/// and the piece went into the drawn column.
pub open spec fn random_move_outcome(
    before: [[i8; 6]; 9],
    turn: Side,
    draw: Drawn,
    after: [[i8; 6]; 9],
    next: Side,
    r: Option<bool>,
) -> bool {
    &&& draw.drawn_range() == 9
    &&& draw.drawn_value() < 9
    &&& move_outcome(before, turn, draw.drawn_value() as int, after, next, r)
}

/// A move into `column` touches no other column: each other column is the
/// same after it, turned round when the game goes on. A move that is not lost
/// changes column `column` in one cell, which becomes a piece of the mover.
pub proof fn lemma_move_stays_in_its_column(
    before: [[i8; 6]; 9],
    turn: Side,
    column: int,
    after: [[i8; 6]; 9],
    next: Side,
    r: Option<bool>,
)
    requires
        0 <= column < 9,
        move_outcome(before, turn, column, after, next, r),
    ensures
        forall|x: int, y: int|
            in_board(x, y) && x != column ==> #[trigger] cell(after, x, y) == if r is None {
                -cell(before, x, y)
            } else {
                cell(before, x, y) as int
            },
        cell(before, column, 0) == 0 ==> exists|y: int|
            0 <= y < 6 && cell(before, column, y) != 1 && #[trigger] cell(after, column, y) == (if r is None {
                -1int
            } else {
                1int
            }),
{
    let (placed, state) = choose|placed: [[i8; 6]; 9], state: GameState|
        {
            &&& #[trigger] drop_outcome(before, column, placed, state)
            &&& r == verdict_of(turn, state)
            &&& if r is None {
                negated(placed, after) && next == other(turn)
            } else {
                after == placed && next == turn
            }
        };
    assert forall|x: int, y: int| in_board(x, y) && x != column implies #[trigger] cell(after, x, y) == if r is None {
        -cell(before, x, y)
    } else {
        cell(before, x, y) as int
    } by {
        assert(cell(placed, x, y) == cell(before, x, y));
    }
    if cell(before, column, 0) == 0 {
        let y = crate::lines::landing_row(before, column);
        crate::lines::lemma_first_piece_from(before, column, 1);
        assert(cell(placed, column, y) == 1);
        assert(cell(before, column, y) != 1) by {
            if y > 0 {
                assert(!crate::lines::is_piece(before, column, y));
            }
        }
        assert(in_board(column, y));
        assert(cell(after, column, y) == (if r is None {
            -1int
        } else {
            1int
        }));
    }
}

/// Sorts the players of a round of games into winners and losers. Game `i`
/// is played by players `2 * i` and `2 * i + 1`, and `first_won[i]` tells
/// whether player `2 * i` won it. Both lists follow the order of the games.
pub fn divide_pairs(first_won: &Vec<bool>) -> (r: (Vec<usize>, Vec<usize>))
    requires
        2 * first_won.len() <= usize::MAX,
    ensures
        r.0.len() == first_won.len(),
        r.1.len() == first_won.len(),
        forall|i: int|
            0 <= i < first_won.len() ==> #[trigger] r.0[i] == if first_won[i] {
                2 * i
            } else {
                2 * i + 1
            },
        forall|i: int|
            0 <= i < first_won.len() ==> #[trigger] r.1[i] == if first_won[i] {
                2 * i + 1
            } else {
                2 * i
            },
{
    let mut winner: Vec<usize> = Vec::new();
    let mut loser: Vec<usize> = Vec::new();
    let mut set: usize = 0;
    while set < first_won.len()
        invariant
            set <= first_won.len(),
            2 * first_won.len() <= usize::MAX,
            winner.len() == set,
            loser.len() == set,
            forall|i: int|
                0 <= i < set ==> #[trigger] winner[i] == if first_won[i] {
                    2 * i
                } else {
                    2 * i + 1
                },
            forall|i: int|
                0 <= i < set ==> #[trigger] loser[i] == if first_won[i] {
                    2 * i + 1
                } else {
                    2 * i
                },
        decreases first_won.len() - set,
    {
        if first_won[set] {
            winner.push(2 * set);
            loser.push(2 * set + 1);
        } else {
            winner.push(2 * set + 1);
            loser.push(2 * set);
        }
        set = set + 1;
    }
    (winner, loser)
}

} // verus!
