use game_of_life::{
    anchor_from_code, board_as_str, calculate_anchored_padding, mkboard, neighbors, tick, Anchor,
    Padding,
};

#[test]
fn tick_preserves_dimensions() {
    let board = vec![
        vec![true, false, true, false],
        vec![false, true, false, false],
        vec![true, true, true, false],
    ];
    let next = tick(&board);
    assert_eq!(next.len(), 3);
    for row in &next {
        assert_eq!(row.len(), 4);
    }
}

#[test]
fn isolated_cell_dies() {
    let board = vec![
        vec![false, false, false],
        vec![false, true, false],
        vec![false, false, false],
    ];
    let next = tick(&board);
    let all_dead = vec![
        vec![false, false, false],
        vec![false, false, false],
        vec![false, false, false],
    ];
    assert_eq!(next, all_dead);
}

#[test]
fn blinker_oscillates_with_period_two() {
    let initial = mkboard(
        "
        .....
        ..o..
        ..o..
        ..o..
        .....
    ",
    );
    let horizontal = mkboard(
        "
        .....
        .....
        .ooo.
        .....
        .....
    ",
    );
    assert_eq!(tick(&initial), horizontal);
    assert_eq!(tick(&tick(&initial)), initial);
}

#[test]
fn toroidal_wraparound_in_neighbors() {
    // A cell in column 0 has the last column among its neighbors, and vice
    // versa; likewise for the first and last rows.
    assert!(neighbors(0, 1, 4, 3).contains(&(3, 1)));
    assert!(neighbors(3, 1, 4, 3).contains(&(0, 1)));
    assert!(neighbors(1, 0, 3, 4).contains(&(1, 3)));
    assert!(neighbors(1, 3, 3, 4).contains(&(1, 0)));
}

#[test]
fn toroidal_wraparound_in_tick() {
    // A blinker standing in column 0 flips into a horizontal bar that wraps
    // around to the last column.
    let initial = vec![
        vec![false, false, false, false, false],
        vec![true, false, false, false, false],
        vec![true, false, false, false, false],
        vec![true, false, false, false, false],
        vec![false, false, false, false, false],
    ];
    let expected = vec![
        vec![false, false, false, false, false],
        vec![false, false, false, false, false],
        vec![true, true, false, false, true],
        vec![false, false, false, false, false],
        vec![false, false, false, false, false],
    ];
    assert_eq!(tick(&initial), expected);
}

#[test]
fn mkboard_exact_cells() {
    // A 5x5 block with a single centered column of three alive markers
    // parses to exactly those three cells true.
    let board = mkboard(
        "
        -----
        --o--
        --o--
        --o--
        -----
    ",
    );
    assert_eq!(board.len(), 5);
    for (y, row) in board.iter().enumerate() {
        assert_eq!(row.len(), 5);
        for (x, &cell) in row.iter().enumerate() {
            let expected = x == 2 && (1..=3).contains(&y);
            assert_eq!(cell, expected, "cell ({}, {})", x, y);
        }
    }
}

#[test]
fn mkboard_pads_short_rows_with_dead_cells() {
    let board = mkboard("o\noo");
    assert_eq!(board, vec![vec![true, false], vec![true, true]]);
}

#[test]
fn mkboard_whitespace_only_is_empty() {
    let board = mkboard("  \n\t  \n");
    assert_eq!(board.len(), 0);
}

#[test]
fn render_zero_padding_round_trip() {
    // With zero padding the frame has exactly width * height glyphs, row
    // major, '0' for alive and ' ' for dead.
    let board = vec![vec![true, false], vec![false, true], vec![true, true]];
    let frame = board_as_str(&board, &Padding { top: 0, right: 0, bottom: 0, left: 0 });
    assert_eq!(frame.chars().count(), 6);
    assert_eq!(frame, "0  000");
}

#[test]
fn anchor_codes_parse() {
    assert_eq!(anchor_from_code("tl"), Some(Anchor::TL));
    assert_eq!(anchor_from_code("tc"), Some(Anchor::TC));
    assert_eq!(anchor_from_code("tr"), Some(Anchor::TR));
    assert_eq!(anchor_from_code("cl"), Some(Anchor::CL));
    assert_eq!(anchor_from_code("cc"), Some(Anchor::CC));
    assert_eq!(anchor_from_code("cr"), Some(Anchor::CR));
    assert_eq!(anchor_from_code("bl"), Some(Anchor::BL));
    assert_eq!(anchor_from_code("bc"), Some(Anchor::BC));
    assert_eq!(anchor_from_code("br"), Some(Anchor::BR));
    assert_eq!(anchor_from_code("fouled"), None);
    assert_eq!(anchor_from_code(""), None);
    assert_eq!(anchor_from_code("xx"), None);
}

#[test]
fn anchored_padding_pins_to_corner() {
    assert_eq!(
        calculate_anchored_padding(Anchor::TL, 5, 5, 3, 3),
        Padding { top: 0, right: 2, bottom: 2, left: 0 }
    );
    assert_eq!(
        calculate_anchored_padding(Anchor::BR, 5, 5, 3, 3),
        Padding { top: 2, right: 0, bottom: 0, left: 2 }
    );
    assert_eq!(
        calculate_anchored_padding(Anchor::CC, 4, 4, 1, 1),
        Padding { top: 1, right: 2, bottom: 2, left: 1 }
    );
    assert_eq!(
        calculate_anchored_padding(Anchor::Unanchored, 4, 4, 1, 1),
        calculate_anchored_padding(Anchor::CC, 4, 4, 1, 1)
    );
}

#[test]
fn render_crops_with_negative_padding() {
    let board = vec![
        vec![true, true, true],
        vec![true, false, true],
        vec![true, true, true],
    ];
    let frame = board_as_str(&board, &Padding { top: -1, right: -1, bottom: -1, left: -1 });
    assert_eq!(frame, " ");
}
