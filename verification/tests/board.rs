use connect_four::board::Glyph;
use connect_four::{Four, GameState};

fn column(f: &Four, x: usize) -> [i8; 6] {
    f.space[x]
}

#[test]
fn new_board_is_empty() {
    let f = Four::new();
    for x in 0..9 {
        for y in 0..6 {
            assert_eq!(f.space[x][y], 0);
        }
    }
}

#[test]
fn piece_falls_to_the_bottom_then_stacks() {
    let mut f = Four::new();
    assert_eq!(f.place(&3), GameState::Unfinished);
    assert_eq!(column(&f, 3), [0, 0, 0, 0, 0, 1]);
    assert_eq!(f.place(&3), GameState::Unfinished);
    assert_eq!(column(&f, 3), [0, 0, 0, 0, 1, 1]);
    f.space[4][5] = -1;
    assert_eq!(f.place(&4), GameState::Unfinished);
    assert_eq!(column(&f, 4), [0, 0, 0, 0, 1, -1]);
}

#[test]
fn full_column_is_lost_and_board_unchanged() {
    let mut f = Four::new();
    f.space[2] = [-1, 1, -1, 1, -1, 1];
    let before = f.space;
    assert_eq!(f.place(&2), GameState::Lost);
    assert_eq!(f.space, before);
}

#[test]
fn taken_top_cell_is_lost_even_with_gaps() {
    let mut f = Four::new();
    f.space[0][0] = 1;
    let before = f.space;
    assert_eq!(f.place(&0), GameState::Lost);
    assert_eq!(f.space, before);
}

#[test]
fn last_free_cell_fills_the_top_row() {
    let mut f = Four::new();
    f.space[7] = [0, -1, 1, -1, 1, -1];
    assert_eq!(f.place(&7), GameState::Unfinished);
    assert_eq!(column(&f, 7), [1, -1, 1, -1, 1, -1]);
    assert_eq!(f.place(&7), GameState::Lost);
}

#[test]
fn other_values_do_not_stop_a_piece() {
    let mut f = Four::new();
    f.space[0][5] = 2;
    f.space[0][3] = 7;
    assert_eq!(f.place(&0), GameState::Unfinished);
    assert_eq!(column(&f, 0), [0, 0, 0, 7, 0, 1]);
}

#[test]
fn vertical_four_wins() {
    let mut f = Four::new();
    for _ in 0..3 {
        assert_eq!(f.place(&1), GameState::Unfinished);
    }
    assert_eq!(f.place(&1), GameState::Won);
    assert_eq!(column(&f, 1), [0, 0, 1, 1, 1, 1]);
}

#[test]
fn vertical_three_over_opponent_is_unfinished() {
    let mut f = Four::new();
    f.space[1][5] = -1;
    for _ in 0..3 {
        assert_eq!(f.place(&1), GameState::Unfinished);
    }
    assert_eq!(column(&f, 1), [0, 0, 1, 1, 1, -1]);
}

#[test]
fn horizontal_four_wins_from_the_middle() {
    let mut f = Four::new();
    assert_eq!(f.place(&2), GameState::Unfinished);
    assert_eq!(f.place(&3), GameState::Unfinished);
    assert_eq!(f.place(&5), GameState::Unfinished);
    assert_eq!(f.place(&4), GameState::Won);
}

#[test]
fn horizontal_gap_is_not_four() {
    let mut f = Four::new();
    for x in [0usize, 1, 2, 4, 5, 6] {
        assert_eq!(f.place(&x), GameState::Unfinished);
    }
    f.space[3][5] = -1;
    assert_eq!(f.place(&3), GameState::Unfinished);
}

#[test]
fn rising_diagonal_wins() {
    // pieces at (0,5), (1,4), (2,3) and the winning one at (3,2)
    let mut f = Four::new();
    f.space[0][5] = 1;
    f.space[1] = [0, 0, 0, 0, 1, -1];
    f.space[2] = [0, 0, 0, 1, -1, -1];
    f.space[3] = [0, 0, 0, -1, -1, -1];
    assert_eq!(f.place(&3), GameState::Won);
}

#[test]
fn rising_diagonal_wins_when_filled_in_the_middle() {
    // pieces at (0,5), (2,3), (3,2) and the winning one at (1,4)
    let mut f = Four::new();
    f.space[0][5] = 1;
    f.space[1] = [0, 0, 0, 0, 0, -1];
    f.space[2] = [0, 0, 0, 1, -1, -1];
    f.space[3] = [0, 0, 1, -1, -1, -1];
    assert_eq!(f.place(&1), GameState::Won);
}

#[test]
fn falling_diagonal_wins() {
    // pieces at (8,5), (7,4), (6,3) and the winning one at (5,2)
    let mut f = Four::new();
    f.space[8][5] = 1;
    f.space[7] = [0, 0, 0, 0, 1, -1];
    f.space[6] = [0, 0, 0, 1, -1, -1];
    f.space[5] = [0, 0, 0, -1, -1, -1];
    assert_eq!(f.place(&5), GameState::Won);
}

#[test]
fn falling_diagonal_wins_at_the_bottom() {
    // pieces at (2,2), (3,3), (4,4) and the winning one at (5,5)
    let mut f = Four::new();
    f.space[2] = [0, 0, 1, -1, -1, -1];
    f.space[3] = [0, 0, 0, 1, -1, -1];
    f.space[4] = [0, 0, 0, 0, 1, -1];
    assert_eq!(f.place(&5), GameState::Won);
}

#[test]
fn opponent_pieces_do_not_count() {
    let mut f = Four::new();
    f.space[0][5] = -1;
    f.space[1][5] = -1;
    f.space[2][5] = -1;
    assert_eq!(f.place(&3), GameState::Unfinished);
}

#[test]
fn invert_display_negates_every_cell() {
    let mut f = Four::new();
    f.space[0][5] = 1;
    f.space[1][5] = -1;
    f.space[8][0] = 5;
    f.invert_display();
    assert_eq!(f.space[0][5], -1);
    assert_eq!(f.space[1][5], 1);
    assert_eq!(f.space[8][0], -5);
    assert_eq!(f.space[4][4], 0);
}

#[test]
fn invert_display_twice_restores_the_board() {
    let mut f = Four::new();
    f.space[3] = [0, 0, 1, -1, 1, -1];
    f.space[6] = [0, 0, 0, 0, 1, 1];
    let before = f.space;
    f.invert_display();
    assert_ne!(f.space, before);
    f.invert_display();
    assert_eq!(f.space, before);
}

#[test]
fn glyph_rows_draws_rows_from_the_top() {
    let mut f = Four::new();
    f.space[0][5] = 1;
    f.space[8][5] = -1;
    f.space[4][0] = 3;
    let rows = f.glyph_rows();
    assert_eq!(rows.len(), 6);
    assert!(rows.iter().all(|r| r.len() == 9));
    assert_eq!(rows[5][0], Glyph::Mine);
    assert_eq!(rows[5][8], Glyph::Theirs);
    assert_eq!(rows[0][4], Glyph::Other(3));
    assert_eq!(rows[2][2], Glyph::Empty);
}

fn mirror(f: &Four) -> Four {
    let mut m = Four::new();
    for x in 0..9 {
        m.space[x] = f.space[8 - x];
    }
    m
}

#[test]
fn mirrored_board_gives_the_same_result() {
    // a rising diagonal on the left becomes a falling one on the right
    let mut f = Four::new();
    f.space[0][5] = 1;
    f.space[1] = [0, 0, 0, 0, 1, -1];
    f.space[2] = [0, 0, 0, 1, -1, -1];
    f.space[3] = [0, 0, 0, -1, -1, -1];
    let mut m = mirror(&f);
    assert_eq!(f.place(&3), GameState::Won);
    assert_eq!(m.place(&5), GameState::Won);
    let mut g = Four::new();
    g.space[1][5] = 1;
    g.space[2][5] = 1;
    let mut h = mirror(&g);
    assert_eq!(g.place(&3), GameState::Unfinished);
    assert_eq!(h.place(&5), GameState::Unfinished);
}

#[test]
fn more_own_pieces_keep_a_win() {
    let mut f = Four::new();
    f.space[0][5] = 1;
    f.space[1][5] = 1;
    f.space[2][5] = 1;
    let mut g = Four::new();
    g.space = f.space;
    g.space[5][5] = 1;
    g.space[8][5] = 1;
    assert_eq!(f.place(&3), GameState::Won);
    assert_eq!(g.place(&3), GameState::Won);
}

#[test]
fn opponent_pieces_count_as_empty_for_the_win_test() {
    let mut f = Four::new();
    f.space[0][5] = 1;
    f.space[1][5] = 1;
    f.space[2][5] = 1;
    f.space[4][5] = -1;
    f.space[5][5] = -1;
    let mut g = Four::new();
    g.space = f.space;
    g.space[4][5] = 0;
    g.space[5][5] = 0;
    assert_eq!(f.place(&3), GameState::Won);
    assert_eq!(g.place(&3), GameState::Won);
    f.space[2][5] = -1;
    g.space = f.space;
    g.space[2][5] = 0;
    g.space[3][5] = 0;
    f.space[3][5] = 0;
    assert_eq!(f.place(&3), GameState::Unfinished);
    assert_eq!(g.place(&3), GameState::Unfinished);
}
