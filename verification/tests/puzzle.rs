use puzzle15::GameState;
use puzzle15::Move;
use puzzle15::find_shortest_path;

#[test]
fn tet_size() {
    assert_eq!(1, std::mem::size_of::<u8>());
    assert_eq!(2, std::mem::size_of::<Option<u8>>());
    assert_eq!(4 * 4 * 2, std::mem::size_of::<GameState>())
}

#[test]
fn test_default_game_state() {
    let state = GameState::default();
    assert_eq!(state.get(0, 0), Some(1));
    assert_eq!(state.get(1, 0), Some(2));
    assert_eq!(state.get(2, 0), Some(3));
    assert_eq!(state.get(3, 0), Some(4));
    assert_eq!(state.get(0, 1), Some(5));
    assert_eq!(state.get(1, 1), Some(6));
    assert_eq!(state.get(2, 1), Some(7));
    assert_eq!(state.get(3, 1), Some(8));
    assert_eq!(state.get(0, 2), Some(9));
    assert_eq!(state.get(1, 2), Some(10));
    assert_eq!(state.get(2, 2), Some(11));
    assert_eq!(state.get(3, 2), Some(12));
    assert_eq!(state.get(0, 3), Some(13));
    assert_eq!(state.get(1, 3), Some(14));
    assert_eq!(state.get(2, 3), Some(15));
    assert_eq!(state.get(3, 3), None);
}

#[test]
fn test_set_game_state() {
    let mut state = GameState::default();
    state.set(0, 2, Some(3));
    assert_eq!(state.get(0, 2), Some(3));
    state.set(0, 1, Some(4));
    assert_eq!(state.get(0, 1), Some(4));
    // Value of 5 set to tile (0,3) and assert_ne checks if that value is not given to field (0,2)
    state.set(0, 3, Some(5));
    assert_ne!(state.get(0, 2), Some(5));
}

const DEFAULT_STATE_STR: &'static str = "\
|  1 |  2 |  3 |  4 |
|  5 |  6 |  7 |  8 |
|  9 | 10 | 11 | 12 |
| 13 | 14 | 15 |    |
";

#[test]
fn test_display_game_state() {
    let state: GameState = GameState::default();
    assert_eq!(DEFAULT_STATE_STR, state.to_text());
}

#[test]
fn test_validate_game_state() {
    let mut state = GameState::default();
    assert!(state.all_tiles_unique());
    state.set(3, 0, Some(1));
    assert!(!state.all_tiles_unique());
    state.set(0, 0, Some(4));
    assert!(state.all_tiles_unique());
    // Test that checks that when giving another tile value of 4, not all tiles are unique
    state.set(1, 1, Some(4));
    assert!(!state.all_tiles_unique());
}

#[test]
fn test_swap() {
    let mut state = GameState::default();
    assert_eq!(state.get(2, 3), Some(15));
    assert_eq!(state.get(3, 3), None);
    state.swap(2, 3, 3, 3);
    assert!(state.all_tiles_unique());
    assert_eq!(state.get(2, 3), None);
    assert_eq!(state.get(3, 3), Some(15));
    state.swap(0, 0, 2, 2);
    assert!(state.all_tiles_unique());
    assert_eq!(state.get(0, 0), Some(11));
    state.swap(3, 3, 1, 1);
    assert!(state.all_tiles_unique());
    assert_eq!(state.get(1, 1), Some(15));
    assert_eq!(state.get(3, 3), Some(6));
}

#[test]
fn test_perform_move() {
    let mut state = GameState::default();
    assert!(!state.perform_move(Move::RightToLeft));
    assert!(!state.perform_move(Move::BottomToTop));
    assert!(state.perform_move(Move::TopToBottom));
    assert!(state.all_tiles_unique());
    assert_eq!(state.get(3, 3), Some(12));
    assert_eq!(state.get(3, 2), None);
    assert!(state.perform_move(Move::LeftToRight));
    assert_eq!(state.get(3, 2), Some(11));
    assert_eq!(state.get(2, 2), None);
    assert!(state.perform_move(Move::RightToLeft));
    assert_eq!(state.get(3, 2), None);
    assert_eq!(state.get(2, 2), Some(11));
    assert!(state.perform_move(Move::TopToBottom));
    assert_eq!(state.get(3, 2), Some(8));
    assert_eq!(state.get(3, 1), None);
}

#[test]
fn test_game_state_equality() {
    let mut state = GameState::default();
    assert!(!state.perform_move(Move::BottomToTop));
    assert_eq!(state, GameState::default());
    assert!(state.perform_move(Move::TopToBottom));
    let mut state_2 = GameState::default();
    state_2.set(3, 3, Some(12));
    state_2.set(3, 2, None);
    assert_eq!(state, state_2);
    assert!(state.perform_move(Move::LeftToRight));
    state_2.set(2, 2, None);
    state_2.set(3, 2, Some(11));
    assert_eq!(state, state_2);
}

#[test]
fn test_perform_moves() {
    let mut state = GameState::default();
    assert_eq!(
        state.perform_moves(&[Move::RightToLeft, Move::BottomToTop, Move::TopToBottom]),
        1
    );

    let mut state = GameState::default();
    assert_eq!(
        state.perform_moves(&[Move::TopToBottom, Move::TopToBottom, Move::TopToBottom]),
        3
    );

    let expected = "\
|  1 |  2 |  3 |    |
|  5 |  6 |  7 |  4 |
|  9 | 10 | 11 |  8 |
| 13 | 14 | 15 | 12 |
";
    assert_eq!(expected, state.to_text());

    let mut state = GameState::default();
    assert_eq!(
        state.perform_moves(&[
            Move::BottomToTop,
            Move::RightToLeft,
            Move::BottomToTop,
            Move::RightToLeft,
            Move::LeftToRight,
            Move::LeftToRight,
            Move::LeftToRight
        ]),
        3
    );
    let expected = "\
|  1 |  2 |  3 |  4 |
|  5 |  6 |  7 |  8 |
|  9 | 10 | 11 | 12 |
|    | 13 | 14 | 15 |
";
    assert_eq!(expected, state.to_text());
}

#[test]
fn test_parse_state() {
    assert_eq!(
        GameState::from_str(DEFAULT_STATE_STR).unwrap(),
        GameState::default()
    );

    let wrong0 = "\
|  1 | 22 |  3 |    |
|  5 |  6 |  7 |  4 |
|  9 | 10 | 11 |  8 |
| 13 | 14 | 15 | 12 |
";
    let wrong1 = "\
|  1 |  2 ,  3 |    |
|  5 |  6 |  7 |  4 |
|  9 | 10 | 11 |  8 |
| 13 | 14 | 15 | 12 |
";
    let wrong2 = "\
|  1 |  2 |  3 |
|  5 |  6 |  7 |  4 |
|  9 | 10 | 11 |  8 |
| 13 | 14 | 15 | 12 |
";
    let wrong3 = "\
|  1 |  2 |  3 |    |
|  5 |  6 |  7 |  4 |
|  9 | 10 | 11 |  8 |
| 13 | 14 | 15 | 12 |
| 13 | 14 | 15 | 12 |
";
    let wrong4 = "\
|  1 |  2 |  3 |    | 1 |
|  5 |  6 |  7 |  4 | 1 |
|  9 | 10 | 11 |  8 | 1 |
| 13 | 14 | 15 | 12 | 1 |
";
    let wrong5 = "\
|  1 |  2 |  3 |    |
|  5 |  2 |  7 |  4 |
|  9 | 10 | 11 |  8 |
| 13 | 14 | 15 | 12 |
";
    let wrong6 = "\
|    |    |    |    |
|    |    |    |    |
|    |    |    |    |
|    |    |    |    |
";

    let wrong7 = "\
|  1 |  2 | 16 |    |
|  5 |  6 |  7 |  4 |
|  9 | 10 | 11 |  8 |
| 13 | 14 | 15 | 12 |
";

    assert!(GameState::from_str(wrong0).is_none());
    assert!(GameState::from_str(wrong1).is_none());
    assert!(GameState::from_str(wrong2).is_none());
    assert!(GameState::from_str(wrong3).is_none());
    assert!(GameState::from_str(wrong4).is_none());
    assert!(GameState::from_str(wrong5).is_none());
    assert!(GameState::from_str(wrong6).is_none()); //should still be wrong since none should be unique too...
    assert!(GameState::from_str(wrong7).is_none());
}

#[test]
fn test_find_shortest_path() {
    let expected_moves = [Move::TopToBottom, Move::TopToBottom, Move::TopToBottom];
    let mut state = GameState::default();
    assert_eq!(state.perform_moves(&expected_moves), 3);

    let actual_moves = find_shortest_path(GameState::default(), state);
    assert_eq!(actual_moves.len(), 3);
    assert_eq!(actual_moves, expected_moves);

    //this added test checks that shortest path will recognize that there is no need to do
    // last 4 moves as they cancel each other out.

    let mut state2 = GameState::default();
    let expected_moves2 = [
        Move::TopToBottom,
        Move::TopToBottom,
        Move::LeftToRight,
        Move::LeftToRight,
        Move::BottomToTop,
        Move::TopToBottom,
        Move::BottomToTop,
        Move::TopToBottom,
    ];
    assert_eq!(state2.perform_moves(&expected_moves2), 8);
    let actual_moves = find_shortest_path(GameState::default(), state2);
    assert_eq!(actual_moves.len(), 4);

    // this test is for finding path to the default state
    let state = GameState::default();
    let moves = find_shortest_path(state.clone(), state.clone());
    assert_eq!(moves.len(), 0);

    let mut state_invalid = GameState::default();
    state_invalid.set(0, 0, Some(16)); // Set an invalid tile so its impossible
    let moves = find_shortest_path(GameState::default(), state_invalid);
    assert!(moves.is_empty());

    let mut state3 = GameState::default();
    let expected_moves3 = [
        Move::TopToBottom,
        Move::LeftToRight,
        Move::TopToBottom,
        Move::RightToLeft,
    ];
    assert_eq!(state3.perform_moves(&expected_moves3), 4);
    let actual_moves3 = find_shortest_path(GameState::default(), state3);
    assert_eq!(actual_moves3.len(), 4);
    assert_eq!(actual_moves3, expected_moves3);
}

#[test]
fn test_move_codes() {
    assert_eq!(Move::LeftToRight.code(), 0);
    assert_eq!(Move::RightToLeft.code(), 1);
    assert_eq!(Move::TopToBottom.code(), 2);
    assert_eq!(Move::BottomToTop.code(), 3);
}

#[test]
fn test_text_round_trip() {
    // format then parse returns the same board, for a shuffled board too
    let mut state = GameState::default();
    state.perform_moves(&[
        Move::TopToBottom,
        Move::LeftToRight,
        Move::TopToBottom,
        Move::LeftToRight,
        Move::BottomToTop,
        Move::RightToLeft,
    ]);
    assert!(state.all_tiles_unique());
    let text = state.to_text();
    assert_eq!(GameState::from_str(&text).unwrap(), state);
    // parse then format reproduces a canonical text exactly
    assert_eq!(
        GameState::from_str(DEFAULT_STATE_STR).unwrap().to_text(),
        DEFAULT_STATE_STR
    );
}

#[test]
fn test_parse_is_lenient() {
    // extra whitespace and a plus sign are accepted; the outer fields are
    // boundary fillers and are not validated
    let messy = "

|1 |  2|  3 |  4 |
|  5 |  6 |  7 |  8 |\r
|  9 | +10 | 11 | 12 |
x| 13 | 14 | 15 |    |y
";
    let parsed = GameState::from_str(messy).unwrap();
    assert_eq!(parsed, GameState::default());
}

#[test]
fn test_parse_rejects_malformed_numbers() {
    // a field that is not a plain decimal number in range fails
    let zero = "\
|  0 |  2 |  3 |  4 |
|  5 |  6 |  7 |  8 |
|  9 | 10 | 11 | 12 |
| 13 | 14 | 15 |    |
";
    assert!(GameState::from_str(zero).is_none());
    let huge = "\
|  1 |  2 |  3 |  4 |
|  5 |  6 |  7 |  8 |
|  9 | 10 | 11 | 999999999999 |
| 13 | 14 | 15 |    |
";
    assert!(GameState::from_str(huge).is_none());
    let negative = "\
|  1 |  2 |  3 |  4 |
|  5 |  6 |  7 |  8 |
|  9 | 10 | 11 | -12 |
| 13 | 14 | 15 |    |
";
    assert!(GameState::from_str(negative).is_none());
    let two_blanks = "\
|  1 |  2 |  3 |  4 |
|  5 |  6 |  7 |    |
|  9 | 10 | 11 | 12 |
| 13 | 14 | 15 |    |
";
    assert!(GameState::from_str(two_blanks).is_none());
}

#[test]
fn test_blocked_moves_leave_state_unchanged() {
    // the empty slot of the default board sits in the rightmost column and
    // bottom row: the two moves across those boundaries fail and change
    // nothing
    let mut state = GameState::default();
    assert!(!state.perform_move(Move::RightToLeft));
    assert_eq!(state, GameState::default());
    assert!(!state.perform_move(Move::BottomToTop));
    assert_eq!(state, GameState::default());
}

#[test]
fn test_adjacent_target_found_in_one_move() {
    // a target one legal move away always yields a single-move path
    let mut one_away = GameState::default();
    assert!(one_away.perform_move(Move::TopToBottom));
    let path = find_shortest_path(GameState::default(), one_away);
    assert_eq!(path, vec![Move::TopToBottom]);

    let mut left = GameState::default();
    assert!(left.perform_move(Move::LeftToRight));
    let path = find_shortest_path(GameState::default(), left);
    assert_eq!(path, vec![Move::LeftToRight]);
}
