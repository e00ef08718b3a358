use game_of_life::{board_as_str, calculate_padding, mkboard, neighbors, tick, Padding};

fn test_board() -> &'static str {
    "
        -----
        --o--
        --o--
        --o--
        -----
    "
}

#[test]
fn mkboard_test() {
    let board = mkboard(test_board());
    assert_eq!(board.len(), 5);
    assert_eq!(board[0].len(), 5);
}

#[test]
fn board_as_str_test() {
    let board = mkboard(test_board());
    assert_eq!(
        board_as_str(&board, &Padding { top: 0, right: 0, bottom: 0, left: 0 }),
        "       0    0    0       "
    );
    assert_eq!(
        board_as_str(&board, &Padding { top: 1, right: 1, bottom: 1, left: 1 }),
        "                 0      0      0                 "
    );
    assert_eq!(
        board_as_str(&board, &Padding { top: -1, right: -1, bottom: -1, left: -1 }),
        " 0  0  0 "
    );
}

#[test]
fn neighbors_test() {
    // This is the board, getting the neighbors of the cell marked "x".
    //
    //     --
    //     -x
    assert_eq!(
        neighbors(1, 1, 2, 2),
        vec![(0, 0), (1, 0), (0, 0), (0, 1), (0, 1), (0, 0), (1, 0), (0, 0)]
    );

    // This is the board, getting the neighbors of the cell marked "x".
    //
    //     x-
    //     --
    assert_eq!(
        neighbors(0, 0, 2, 2),
        vec![(1, 1), (0, 1), (1, 1), (1, 0), (1, 0), (1, 1), (0, 1), (1, 1)]
    );

    // This is the board, getting the neighbors of the cell marked "x".
    //
    //     ---
    //     -x-
    //     ---
    assert_eq!(
        neighbors(1, 1, 3, 3),
        vec![(0, 0), (1, 0), (2, 0), (0, 1), (2, 1), (0, 2), (1, 2), (2, 2)]
    );
}

#[test]
fn tick_test() {
    let initial_state = vec![
        vec![false, false, false, false, false],
        vec![false, false, true, false, false],
        vec![false, false, true, false, false],
        vec![false, false, true, false, false],
        vec![false, false, false, false, false],
    ];

    let second_state = vec![
        vec![false, false, false, false, false],
        vec![false, false, false, false, false],
        vec![false, true, true, true, false],
        vec![false, false, false, false, false],
        vec![false, false, false, false, false],
    ];

    assert_eq!(tick(&initial_state), second_state);
    assert_eq!(tick(&second_state), initial_state);
}

#[test]
fn test_calculate_padding() {
    assert_eq!(
        Padding { top: 1, right: 1, bottom: 1, left: 1 },
        calculate_padding(3, 3, 1, 1)
    );

    assert_eq!(
        Padding { top: 1, right: 2, bottom: 2, left: 1 },
        calculate_padding(4, 4, 1, 1)
    );

    assert_eq!(
        Padding { top: -1, right: -1, bottom: -1, left: -1 },
        calculate_padding(1, 1, 3, 3)
    );

    assert_eq!(
        Padding { top: -2, right: -1, bottom: -1, left: -2 },
        calculate_padding(1, 1, 4, 4)
    );
}
