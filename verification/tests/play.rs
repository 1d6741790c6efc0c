use connect_four::play::{divide_pairs, verdict, Match, Side};
use connect_four::GameState;

#[test]
fn verdict_for_the_first_player() {
    assert_eq!(verdict(Side::First, GameState::Won), Some(true));
    assert_eq!(verdict(Side::First, GameState::Lost), Some(false));
    assert_eq!(verdict(Side::First, GameState::Unfinished), None);
}

#[test]
fn verdict_for_the_second_player() {
    assert_eq!(verdict(Side::Second, GameState::Won), Some(false));
    assert_eq!(verdict(Side::Second, GameState::Lost), Some(true));
    assert_eq!(verdict(Side::Second, GameState::Unfinished), None);
}

#[test]
fn unfinished_move_turns_the_board_round() {
    let mut m = Match::new();
    assert_eq!(m.turn(), Side::First);
    assert_eq!(m.play_move(4), None);
    assert_eq!(m.turn(), Side::Second);
    assert_eq!(m.board().space[4][5], -1);
    assert_eq!(m.play_move(4), None);
    assert_eq!(m.turn(), Side::First);
    assert_eq!(m.board().space[4], [0, 0, 0, 0, -1, 1]);
}

#[test]
fn first_player_wins_with_a_vertical_four() {
    let mut m = Match::new();
    for _ in 0..3 {
        assert_eq!(m.play_move(0), None);
        assert_eq!(m.play_move(8), None);
    }
    assert_eq!(m.play_move(0), Some(true));
    // the board stays as the winning move left it
    assert_eq!(m.turn(), Side::First);
    assert_eq!(m.board().space[0], [0, 0, 1, 1, 1, 1]);
}

#[test]
fn second_player_wins_with_a_vertical_four() {
    let mut m = Match::new();
    for first_column in [2usize, 3, 2] {
        assert_eq!(m.play_move(first_column), None);
        assert_eq!(m.play_move(0), None);
    }
    assert_eq!(m.play_move(3), None);
    assert_eq!(m.play_move(0), Some(false));
    assert_eq!(m.turn(), Side::Second);
}

#[test]
fn second_player_loses_on_a_full_column() {
    let mut m = Match::new();
    for _ in 0..6 {
        assert_eq!(m.play_move(5), None);
    }
    assert_eq!(m.play_move(3), None);
    assert_eq!(m.turn(), Side::Second);
    assert_eq!(m.play_move(5), Some(true));
}

#[test]
fn random_move_drops_one_piece_into_some_column() {
    let mut m = Match::new();
    assert_eq!(m.play_random_move(), None);
    assert_eq!(m.turn(), Side::Second);
    let b = m.board();
    let mut pieces = 0;
    for x in 0..9 {
        for y in 0..6 {
            if b.space[x][y] != 0 {
                assert_eq!(y, 5);
                assert_eq!(b.space[x][y], -1);
                pieces += 1;
            }
        }
    }
    assert_eq!(pieces, 1);
}

#[test]
fn random_moves_fill_distinct_cells() {
    let mut m = Match::new();
    let mut moves = 0;
    while m.play_random_move().is_none() {
        moves += 1;
        assert!(moves <= 54);
    }
}

#[test]
fn divide_pairs_sorts_each_game() {
    let (winner, loser) = divide_pairs(&vec![true, false, false, true]);
    assert_eq!(winner, vec![0, 3, 5, 6]);
    assert_eq!(loser, vec![1, 2, 4, 7]);
    let (w, l) = divide_pairs(&vec![]);
    assert!(w.is_empty() && l.is_empty());
}
