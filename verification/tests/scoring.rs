use go_score::{checked_score_sums, guess_dead_stones, score_stones, score_sums};
use go_score::{Board, Color, Stone};

/// Reads a board from rows of characters: `.` is an empty point, `B` and
/// `W` are living stones, `b` and `w` are dead stones.
fn board_of(rows: &[&str]) -> Board {
    let height = rows.len();
    let width = if height == 0 { 0 } else { rows[0].len() };
    let mut stones = Vec::new();
    for row in rows {
        assert_eq!(row.len(), width);
        for ch in row.chars() {
            let mut stone = Stone::new();
            match ch {
                '.' => {}
                'B' => stone.set_color(Some(Color::Black)),
                'W' => stone.set_color(Some(Color::White)),
                'b' => {
                    stone.set_color(Some(Color::Black));
                    stone.set_dead(true);
                }
                'w' => {
                    stone.set_color(Some(Color::White));
                    stone.set_dead(true);
                }
                _ => panic!("unknown point {}", ch),
            }
            stones.push(stone);
        }
    }
    Board::new(stones, width, height).unwrap()
}

/// Writes the scores of a board as rows of characters: `B` and `W` for a
/// point of that player, `.` for a point of nobody.
fn scores_of(board: &Board) -> Vec<String> {
    let mut rows = Vec::new();
    for r in 0..board.height() {
        let mut row = String::new();
        for c in 0..board.width() {
            row.push(match board.stone(r * board.width() + c).score() {
                None => '.',
                Some(Color::Black) => 'B',
                Some(Color::White) => 'W',
            });
        }
        rows.push(row);
    }
    rows
}

fn scored(rows: &[&str]) -> Vec<String> {
    let mut board = board_of(rows);
    score_stones(&mut board);
    scores_of(&board)
}

#[test]
fn single_color_territory() {
    assert_eq!(scored(&["BBB", "B.B", "BBB"]), vec!["BBB", "BBB", "BBB"]);
    assert_eq!(scored(&["WWW", "W.W", "WWW"]), vec!["WWW", "WWW", "WWW"]);
    assert_eq!(
        scored(&["BBBB", "B..B", "B..B", "BBBB"]),
        vec!["BBBB", "BBBB", "BBBB", "BBBB"]
    );
}

#[test]
fn territory_against_the_edge_of_the_board() {
    assert_eq!(scored(&["..B", "..B", "BBB"]), vec!["BBB", "BBB", "BBB"]);
    assert_eq!(scored(&[".W.."]), vec!["WWWW"]);
}

#[test]
fn contested_territory() {
    assert_eq!(scored(&["B.W"]), vec!["B.W"]);
    assert_eq!(scored(&["B..", "...", "..W"]), vec!["B..", "...", "..W"]);
    assert_eq!(
        scored(&["BBBB", "B..W", "BBBB"]),
        vec!["BBBB", "B..W", "BBBB"]
    );
}

#[test]
fn separate_regions_are_settled_separately() {
    assert_eq!(
        scored(&[".B.W.", "BB.WW", ".B.W.", "BB.WW", ".B.W."]),
        vec!["BB.WW", "BB.WW", "BB.WW", "BB.WW", "BB.WW"]
    );
    assert_eq!(scored(&[".B.W.B."]), vec!["BB.W.BB"]);
}

#[test]
fn dead_stones_count_as_territory() {
    assert_eq!(scored(&["BBB", "BwB", "BBB"]), vec!["BBB", "BBB", "BBB"]);
    assert_eq!(scored(&["BBB", "BbB", "BBB"]), vec!["BBB", "BBB", "BBB"]);
    assert_eq!(scored(&["WWW", "WbW", "WWW"]), vec!["WWW", "WWW", "WWW"]);
    assert_eq!(
        scored(&["BBBBB", "B.w.B", "BBBBB"]),
        vec!["BBBBB", "BBBBB", "BBBBB"]
    );
}

#[test]
fn a_dead_stone_does_not_bound_a_region() {
    // The dead white stone joins the two empty points; the region touches
    // black on the left and white on the right.
    assert_eq!(scored(&["B.w.W"]), vec!["B...W"]);
    // Dead stones alone bound nothing.
    assert_eq!(scored(&["b.w"]), vec!["..."]);
    assert_eq!(scored(&["bW."]), vec!["WWW"]);
}

#[test]
fn fully_empty_board() {
    assert_eq!(scored(&["...", "...", "..."]), vec!["...", "...", "..."]);
    assert_eq!(scored(&["."]), vec!["."]);
}

#[test]
fn a_board_of_dead_stones_only_is_unowned() {
    assert_eq!(scored(&["bw", "wb"]), vec!["..", ".."]);
}

#[test]
fn living_stones_score_for_their_own_colour() {
    assert_eq!(scored(&["BW", "WB"]), vec!["BW", "WB"]);
    assert_eq!(scored(&["B"]), vec!["B"]);
    assert_eq!(scored(&["W"]), vec!["W"]);
}

#[test]
fn a_board_without_cells_is_left_alone() {
    let mut board = Board::new(vec![], 0, 0).unwrap();
    score_stones(&mut board);
    assert_eq!(board.len(), 0);
    guess_dead_stones(&mut board);
    assert_eq!(board.len(), 0);
    assert_eq!(score_sums(&board, 6), (0, 6, Color::White));

    let mut board = Board::new(vec![], 0, 3).unwrap();
    score_stones(&mut board);
    assert!(board.into_stones().is_empty());
}

#[test]
fn idempotent_reset() {
    let rows = [
        "..B.W..",
        ".BB.WW.",
        "BB.w.WW",
        "..B.W..",
        "bB...Ww",
        ".B.B.W.",
    ];
    let mut once = board_of(&rows);
    score_stones(&mut once);
    let mut twice = board_of(&rows);
    score_stones(&mut twice);
    score_stones(&mut twice);
    assert_eq!(once.stones(), twice.stones());
    assert_eq!(
        scores_of(&once),
        vec!["BBB.WWW", "BBB.WWW", "BB...WW", "BBB.WWW", "BB...WW", "BB.B.WW"]
    );
}

#[test]
fn old_scores_and_processed_flags_are_reset() {
    // Every point starts out as scored for White and processed.
    let stones = vec![
        Stone::from_bits(0x38 | 0x01),
        Stone::from_bits(0x38),
        Stone::from_bits(0x38),
    ];
    let mut board = Board::new(stones, 3, 1).unwrap();
    score_stones(&mut board);
    assert_eq!(scores_of(&board), vec!["BBB"]);
    for i in 0..3 {
        assert!(!board.stone(i).processed_bit());
    }

    let mut board = Board::new(vec![Stone::from_bits(0x38); 4], 2, 2).unwrap();
    score_stones(&mut board);
    assert_eq!(scores_of(&board), vec!["..", ".."]);
    for i in 0..4 {
        assert_eq!(board.stone(i).bits(), 0x10);
    }
}

#[test]
fn scoring_changes_nothing_but_the_score() {
    let rows = ["B.w", "bW.", "..B"];
    let before = board_of(&rows);
    let mut after = board_of(&rows);
    score_stones(&mut after);
    for i in 0..9 {
        assert_eq!(after.stone(i).is_present(), before.stone(i).is_present());
        assert_eq!(after.stone(i).color(), before.stone(i).color());
        assert_eq!(after.stone(i).is_dead(), before.stone(i).is_dead());
        assert_eq!(after.stone(i).bits() & 0xc7, before.stone(i).bits() & 0xc7);
        assert!(!after.stone(i).processed_bit());
    }
}

#[test]
fn exact_bytes_after_scoring() {
    // A living black stone, an empty point and a dead white stone, with the
    // two spare bits set on the empty point.
    let stones = vec![
        Stone::from_bits(0x01),
        Stone::from_bits(0xc0),
        Stone::from_bits(0x07),
    ];
    let mut board = Board::new(stones, 3, 1).unwrap();
    score_stones(&mut board);
    assert_eq!(board.stone(0).bits(), 0x09);
    assert_eq!(board.stone(1).bits(), 0xc8);
    assert_eq!(board.stone(2).bits(), 0x0f);
}

#[test]
fn guess_marks_every_stone_dead() {
    let mut board = board_of(&["B.w", ".W.", "b.B"]);
    let before = board.stones().clone();
    guess_dead_stones(&mut board);
    for i in 0..9 {
        let was = before[i];
        let now = board.stone(i);
        assert_eq!(now.is_present(), was.is_present());
        assert_eq!(now.color(), was.color());
        assert_eq!(now.score(), was.score());
        assert_eq!(now.is_dead(), was.is_present());
        if !was.is_present() {
            assert_eq!(now, was);
        }
    }
    score_stones(&mut board);
    assert_eq!(scores_of(&board), vec!["...", "...", "..."]);
}

fn board_with_scores(black: usize, white: usize, neutral: usize) -> Board {
    let mut stones = Vec::new();
    for _ in 0..black {
        let mut stone = Stone::new();
        stone.set_score(Some(Color::Black));
        stones.push(stone);
    }
    for _ in 0..neutral {
        stones.push(Stone::new());
    }
    for _ in 0..white {
        let mut stone = Stone::new();
        stone.set_score(Some(Color::White));
        stones.push(stone);
    }
    let count = stones.len();
    Board::new(stones, count, 1).unwrap()
}

#[test]
fn score_summation_example() {
    assert_eq!(score_sums(&board_with_scores(3, 2, 4), 6), (3, 8, Color::White));
    assert_eq!(score_sums(&board_with_scores(5, 3, 1), 0), (5, 3, Color::Black));
    assert_eq!(score_sums(&board_with_scores(4, 4, 0), 0), (4, 4, Color::White));
    assert_eq!(score_sums(&board_with_scores(4, 1, 2), 3), (4, 4, Color::White));
}

#[test]
fn black_needs_more_points_than_white() {
    assert_eq!(score_sums(&board_with_scores(5, 4, 0), 0), (5, 4, Color::Black));
    assert_eq!(score_sums(&board_with_scores(5, 4, 0), 1), (5, 5, Color::White));
    assert_eq!(score_sums(&board_with_scores(5, 4, 0), 2), (5, 6, Color::White));
    assert_eq!(score_sums(&board_with_scores(0, 0, 3), 0), (0, 0, Color::White));
    assert_eq!(score_sums(&board_with_scores(1, 0, 0), 0), (1, 0, Color::Black));
}

#[test]
fn sums_count_scores_not_stones() {
    // Unscored stones are worth nothing until the board is scored.
    let mut board = board_of(&["BBB", "B.B", "BBB"]);
    assert_eq!(score_sums(&board, 0), (0, 0, Color::White));
    score_stones(&mut board);
    assert_eq!(score_sums(&board, 6), (9, 6, Color::Black));
    assert_eq!(score_sums(&board, 9), (9, 9, Color::White));
}

#[test]
fn scoring_then_summing_a_game() {
    let mut board = board_of(&[
        ".B.W.",
        ".BwW.",
        "BB.WW",
        ".B.Wb",
        ".B.W.",
    ]);
    score_stones(&mut board);
    assert_eq!(
        scores_of(&board),
        vec!["BB.WW", "BB.WW", "BB.WW", "BB.WW", "BB.WW"]
    );
    assert_eq!(score_sums(&board, 0), (10, 10, Color::White));
    assert_eq!(checked_score_sums(&board, 6), Some((10, 16, Color::White)));
}

#[test]
fn sums_that_do_not_fit() {
    let board = board_with_scores(2, 1, 0);
    assert_eq!(
        checked_score_sums(&board, u32::MAX - 1),
        Some((2, u32::MAX, Color::White))
    );
    assert_eq!(checked_score_sums(&board, u32::MAX), None);
    let board = board_with_scores(2, 0, 1);
    assert_eq!(
        checked_score_sums(&board, u32::MAX),
        Some((2, u32::MAX, Color::White))
    );
    assert_eq!(score_sums(&board, u32::MAX), (2, u32::MAX, Color::White));
}
