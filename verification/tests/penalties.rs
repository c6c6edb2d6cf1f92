use qr_encoder::score::{adjacent_score, balance_score, block_score, finder_score, score};

fn rows(art: &[&str]) -> Vec<Vec<bool>> {
    art.iter().map(|row| row.bytes().map(|b| b == b'#').collect()).collect()
}

const ALL_DARK_6: [&str; 6] = [
    "######",
    "######",
    "######",
    "######",
    "######",
    "######",
];

const ALL_LIGHT_5: [&str; 5] = [
    ".....",
    ".....",
    ".....",
    ".....",
    ".....",
];

const CHESSBOARD_4: [&str; 4] = [
    ".#.#",
    "#.#.",
    ".#.#",
    "#.#.",
];

const CHESSBOARD_21: [&str; 21] = [
    "#.#.#.#.#.#.#.#.#.#.#",
    ".#.#.#.#.#.#.#.#.#.#.",
    "#.#.#.#.#.#.#.#.#.#.#",
    ".#.#.#.#.#.#.#.#.#.#.",
    "#.#.#.#.#.#.#.#.#.#.#",
    ".#.#.#.#.#.#.#.#.#.#.",
    "#.#.#.#.#.#.#.#.#.#.#",
    ".#.#.#.#.#.#.#.#.#.#.",
    "#.#.#.#.#.#.#.#.#.#.#",
    ".#.#.#.#.#.#.#.#.#.#.",
    "#.#.#.#.#.#.#.#.#.#.#",
    ".#.#.#.#.#.#.#.#.#.#.",
    "#.#.#.#.#.#.#.#.#.#.#",
    ".#.#.#.#.#.#.#.#.#.#.",
    "#.#.#.#.#.#.#.#.#.#.#",
    ".#.#.#.#.#.#.#.#.#.#.",
    "#.#.#.#.#.#.#.#.#.#.#",
    ".#.#.#.#.#.#.#.#.#.#.",
    "#.#.#.#.#.#.#.#.#.#.#",
    ".#.#.#.#.#.#.#.#.#.#.",
    "#.#.#.#.#.#.#.#.#.#.#",
];

const RUNS_7: [&str; 7] = [
    "#####..",
    ".#.#.#.",
    "######.",
    ".#.#.#.",
    "#######",
    ".#.#.#.",
    "#.#.#.#",
];

const FINDER_LIKE_12: [&str; 12] = [
    "#.###.#....#",
    ".#.#.#.#.#.#",
    "....#.###.#.",
    ".#.#.#.#.#.#",
    "#....#.###.#",
    ".#.#.#.#.#.#",
    ".#.###.#.#.#",
    "#.#.#.#.#.#.",
    "....#.###.#.",
    ".#.#.#.#.#.#",
    "#.#.#.#.#.#.",
    ".#.#.#.#.#.#",
];

const FINDER_BOTH_SIDES_15: [&str; 15] = [
    "....#.###.#....",
    "#.#.#.#.#.#.#.#",
    ".#.#.#.#.#.#.#.",
    "#.#.#.#.#.#.#.#",
    ".#.#.#.#.#.#.#.",
    "#.#.#.#.#.#.#.#",
    ".#.#.#.#.#.#.#.",
    "#.#.#.#.#.#.#.#",
    ".#.#.#.#.#.#.#.",
    "#.#.#.#.#.#.#.#",
    ".#.#.#.#.#.#.#.",
    "#.#.#.#.#.#.#.#",
    ".#.#.#.#.#.#.#.",
    "#.#.#.#.#.#.#.#",
    ".#.#.#.#.#.#.#.",
];

const BLOCKS_4: [&str; 4] = [
    "##..",
    "##..",
    "..##",
    "..##",
];

const SINGLE: [&str; 1] = [
    "#",
];

const HELLO_WORLD_Q_MASK_0: [&str; 21] = [
    "#######..#....#######",
    "#.....#....#..#.....#",
    "#.###.#....##.#.###.#",
    "#.###.#.......#.###.#",
    "#.###.#...#...#.###.#",
    "#.....#...#...#.....#",
    "#######.#.#.#.#######",
    ".....................",
    "......#.....#........",
    ".#......####....#...#",
    "..##.###.##...#.##...",
    ".##.##.#..##.#.#.###.",
    "#...#.#.#.###.###.#.#",
    "........##.#..#...#.#",
    "#######...#....#.##..",
    "#.....#..#.##.##.#...",
    "#.###.#...#...#######",
    "#.###.#..#.#.#.#...#.",
    "#.###.#....#.###.#..#",
    "#.....#...####...#.##",
    "#######....#.###....#",
];

const HELLO_WORLD_Q_MASK_1: [&str; 21] = [
    "#######....#..#######",
    "#.....#..#....#.....#",
    "#.###.#..#..#.#.###.#",
    "#.###.#..#.#..#.###.#",
    "#.###.#..###..#.###.#",
    "#.....#..###..#.....#",
    "#######.#.#.#.#######",
    ".........#.#.........",
    "......#..#.##........",
    "...#.#.##.#..#.###.##",
    ".##...#...##.####..#.",
    "..###....##.......#..",
    "##.########.###.#####",
    "........#....###.####",
    "#######..###.#....##.",
    "#.....#.....###....#.",
    "#.###.#..###.##.#.#.#",
    "#.###.#..........#...",
    "#.###.#..#....#....##",
    "#.....#..##.#..#....#",
    "#######..#....#..#.##",
];

const HELLO_WORLD_Q_MASK_2: [&str; 21] = [
    "#######...#...#######",
    "#.....#.....#.#.....#",
    "#.###.#..####.#.###.#",
    "#.###.#....##.#.###.#",
    "#.###.#..#....#.###.#",
    "#.....#...###.#.....#",
    "#######.#.#.#.#######",
    "...........##........",
    "......#..##.#........",
    "#....#.####.##..#####",
    "....#####......#.#..#",
    "#.#.#.....#.#..#.....",
    "#.##..#..#.##.....#..",
    "........##..###..#.##",
    "#######..#....#.###.#",
    "#.....#..#...###..##.",
    "#.###.#..#.......###.",
    "#.###.#..#..#..#.##..",
    "#.###.#..###.#..##...",
    "#.....#...#.......#.#",
    "#######..###.#..#....",
];

const HELLO_WORLD_Q_MASK_3: [&str; 21] = [
    "#######...#...#######",
    "#.....#..#.#..#.....#",
    "#.###.#....#..#.###.#",
    "#.###.#....##.#.###.#",
    "#.###.#....##.#.###.#",
    "#.....#..#.#..#.....#",
    "#######.#.#.#.#######",
    ".........#...........",
    "......#..............",
    "#....#.####.##..#####",
    "#.###.##.#.##.#...#..",
    ".###...#.#...#..#.##.",
    "#.##..#..#.##.....#..",
    "........#..#.#.#..##.",
    "#######...#.####.#.##",
    "#.....#..#...###..##.",
    "#.###.#....##.##...##",
    "#.###.#...#..#..##.#.",
    "#.###.#..###.#..##...",
    "#.....#..####.##.#...",
    "#######....##..#..##.",
];

const HELLO_WORLD_Q_MASK_4: [&str; 21] = [
    "#######..##...#######",
    "#.....#..#..#.#.....#",
    "#.###.#..#....#.###.#",
    "#.###.#...#...#.###.#",
    "#.###.#.......#.###.#",
    "#.....#..####.#.....#",
    "#######.#.#.#.#######",
    "..........#..........",
    "......#...#.#........",
    "####.#....#.#.#####..",
    "#.....###.###..##.#.#",
    "..#..#.....#...####..",
    "##....###..#####..###",
    "........#...#..#.#...",
    "#######..####.#.....#",
    "#.....#..#########.#.",
    "#.###.#......###.##.#",
    "#.###.#.....###..####",
    "#.###.#..#..##....#..",
    "#.....#....##...##..#",
    "#######...##..###..##",
];

const HELLO_WORLD_Q_MASK_5: [&str; 21] = [
    "#######....#..#######",
    "#.....#..#..#.#.....#",
    "#.###.#..####.#.###.#",
    "#.###.#..####.#.###.#",
    "#.###.#..#....#.###.#",
    "#.....#..####.#.....#",
    "#######.#.#.#.#######",
    ".........#.##........",
    "......#..##.#........",
    "#.####.#....####.###.",
    "....#####......#.#..#",
    "#.###....##.#........",
    "##.########.###.#####",
    "........#...####.#.##",
    "#######..#....#.###.#",
    "#.....#...#..#..#.###",
    "#.###.#..#.......###.",
    "#.###.#.....#....##..",
    "#.###.#..#....#....##",
    "#.....#..##....#..#.#",
    "#######..###.#..#....",
];

const HELLO_WORLD_Q_MASK_6: [&str; 21] = [
    "#######....#..#######",
    "#.....#..#..#.#.....#",
    "#.###.#..#.##.#.###.#",
    "#.###.#..####.#.###.#",
    "#.###.#..#.#..#.###.#",
    "#.....#..#..#.#.....#",
    "#######.#.#.#.#######",
    ".........#.##........",
    "......#..#..#........",
    "#.####.#....####.###.",
    "..#.#.##...#..##.....",
    "#.##.#...#.##...##...",
    "##.########.###.#####",
    "........#...#..#.#...",
    "#######..##..##..####",
    "#.....#...#..#..#.###",
    "#.###.#..#.#..#...###",
    "#.###.#...###...#.#..",
    "#.###.#..#....#....##",
    "#.....#..##..###..##.",
    "#######..#.#.......#.",
];

const HELLO_WORLD_Q_MASK_7: [&str; 21] = [
    "#######..#....#######",
    "#.....#...##..#.....#",
    "#.###.#.....#.#.###.#",
    "#.###.#.......#.###.#",
    "#.###.#.......#.###.#",
    "#.....#...##..#.....#",
    "#######.#.#.#.#######",
    "..........#..........",
    "......#....##........",
    ".#......####....#...#",
    ".######..#...##..#.#.",
    ".#..#..##.#..###..###",
    "#...#.#.#.###.###.#.#",
    "........####.##.#.###",
    "#######...##..##..#.#",
    "#.....#..#.##.##.#...",
    "#.###.#......###.##.#",
    "#.###.#..#...###.#.##",
    "#.###.#....#.###.#..#",
    "#.....#....##...##..#",
    "#######......#.#.#...",
];

#[test]
fn runs_of_like_modules() {
    assert_eq!(adjacent_score(&rows(&ALL_DARK_6)), 48);
    assert_eq!(adjacent_score(&rows(&ALL_LIGHT_5)), 30);
    assert_eq!(adjacent_score(&rows(&CHESSBOARD_4)), 0);
    assert_eq!(adjacent_score(&rows(&CHESSBOARD_21)), 0);
    assert_eq!(adjacent_score(&rows(&RUNS_7)), 23);
    assert_eq!(adjacent_score(&rows(&FINDER_LIKE_12)), 8);
    assert_eq!(adjacent_score(&rows(&FINDER_BOTH_SIDES_15)), 0);
    assert_eq!(adjacent_score(&rows(&BLOCKS_4)), 0);
    assert_eq!(adjacent_score(&rows(&SINGLE)), 0);
    assert_eq!(adjacent_score(&rows(&HELLO_WORLD_Q_MASK_0)), 200);
    assert_eq!(adjacent_score(&rows(&HELLO_WORLD_Q_MASK_1)), 192);
    assert_eq!(adjacent_score(&rows(&HELLO_WORLD_Q_MASK_2)), 220);
    assert_eq!(adjacent_score(&rows(&HELLO_WORLD_Q_MASK_3)), 189);
    assert_eq!(adjacent_score(&rows(&HELLO_WORLD_Q_MASK_4)), 219);
    assert_eq!(adjacent_score(&rows(&HELLO_WORLD_Q_MASK_5)), 209);
    assert_eq!(adjacent_score(&rows(&HELLO_WORLD_Q_MASK_6)), 196);
    assert_eq!(adjacent_score(&rows(&HELLO_WORLD_Q_MASK_7)), 220);
}

#[test]
fn run_of_five_costs_three_and_each_module_more_one() {
    for len in 1..=12usize {
        let mut mat: Vec<Vec<bool>> =
            (0..12).map(|r| (0..12).map(|c| (r + c) % 2 == 0).collect()).collect();
        for c in 0..12 {
            mat[3][c] = c < len || (c - len) % 2 == 1;
        }
        let expected = if len >= 5 { 3 + (len as u32 - 5) } else { 0 };
        assert_eq!(adjacent_score(&mat), expected, "run of {}", len);
    }
}

#[test]
fn blocks_of_like_modules() {
    assert_eq!(block_score(&rows(&ALL_DARK_6)), 75);
    assert_eq!(block_score(&rows(&ALL_LIGHT_5)), 48);
    assert_eq!(block_score(&rows(&CHESSBOARD_4)), 0);
    assert_eq!(block_score(&rows(&CHESSBOARD_21)), 0);
    assert_eq!(block_score(&rows(&RUNS_7)), 0);
    assert_eq!(block_score(&rows(&FINDER_LIKE_12)), 0);
    assert_eq!(block_score(&rows(&FINDER_BOTH_SIDES_15)), 0);
    assert_eq!(block_score(&rows(&BLOCKS_4)), 12);
    assert_eq!(block_score(&rows(&SINGLE)), 0);
    assert_eq!(block_score(&rows(&HELLO_WORLD_Q_MASK_0)), 204);
    assert_eq!(block_score(&rows(&HELLO_WORLD_Q_MASK_1)), 186);
    assert_eq!(block_score(&rows(&HELLO_WORLD_Q_MASK_2)), 198);
    assert_eq!(block_score(&rows(&HELLO_WORLD_Q_MASK_3)), 204);
    assert_eq!(block_score(&rows(&HELLO_WORLD_Q_MASK_4)), 216);
    assert_eq!(block_score(&rows(&HELLO_WORLD_Q_MASK_5)), 195);
    assert_eq!(block_score(&rows(&HELLO_WORLD_Q_MASK_6)), 156);
    assert_eq!(block_score(&rows(&HELLO_WORLD_Q_MASK_7)), 234);
}

#[test]
fn finder_like_patterns() {
    assert_eq!(finder_score(&rows(&ALL_DARK_6)), 0);
    assert_eq!(finder_score(&rows(&ALL_LIGHT_5)), 0);
    assert_eq!(finder_score(&rows(&CHESSBOARD_4)), 0);
    assert_eq!(finder_score(&rows(&CHESSBOARD_21)), 0);
    assert_eq!(finder_score(&rows(&RUNS_7)), 0);
    assert_eq!(finder_score(&rows(&FINDER_LIKE_12)), 160);
    assert_eq!(finder_score(&rows(&FINDER_BOTH_SIDES_15)), 40);
    assert_eq!(finder_score(&rows(&BLOCKS_4)), 0);
    assert_eq!(finder_score(&rows(&SINGLE)), 0);
    assert_eq!(finder_score(&rows(&HELLO_WORLD_Q_MASK_0)), 320);
    assert_eq!(finder_score(&rows(&HELLO_WORLD_Q_MASK_1)), 120);
    assert_eq!(finder_score(&rows(&HELLO_WORLD_Q_MASK_2)), 200);
    assert_eq!(finder_score(&rows(&HELLO_WORLD_Q_MASK_3)), 160);
    assert_eq!(finder_score(&rows(&HELLO_WORLD_Q_MASK_4)), 320);
    assert_eq!(finder_score(&rows(&HELLO_WORLD_Q_MASK_5)), 160);
    assert_eq!(finder_score(&rows(&HELLO_WORLD_Q_MASK_6)), 80);
    assert_eq!(finder_score(&rows(&HELLO_WORLD_Q_MASK_7)), 360);
}

#[test]
fn share_of_dark_modules() {
    assert_eq!(balance_score(&rows(&ALL_DARK_6)), 200);
    assert_eq!(balance_score(&rows(&ALL_LIGHT_5)), 200);
    assert_eq!(balance_score(&rows(&CHESSBOARD_4)), 0);
    assert_eq!(balance_score(&rows(&CHESSBOARD_21)), 0);
    assert_eq!(balance_score(&rows(&RUNS_7)), 60);
    assert_eq!(balance_score(&rows(&FINDER_LIKE_12)), 0);
    assert_eq!(balance_score(&rows(&FINDER_BOTH_SIDES_15)), 0);
    assert_eq!(balance_score(&rows(&BLOCKS_4)), 0);
    assert_eq!(balance_score(&rows(&SINGLE)), 200);
    assert_eq!(balance_score(&rows(&HELLO_WORLD_Q_MASK_0)), 20);
    assert_eq!(balance_score(&rows(&HELLO_WORLD_Q_MASK_1)), 20);
    assert_eq!(balance_score(&rows(&HELLO_WORLD_Q_MASK_2)), 20);
    assert_eq!(balance_score(&rows(&HELLO_WORLD_Q_MASK_3)), 20);
    assert_eq!(balance_score(&rows(&HELLO_WORLD_Q_MASK_4)), 20);
    assert_eq!(balance_score(&rows(&HELLO_WORLD_Q_MASK_5)), 0);
    assert_eq!(balance_score(&rows(&HELLO_WORLD_Q_MASK_6)), 0);
    assert_eq!(balance_score(&rows(&HELLO_WORLD_Q_MASK_7)), 20);
}

#[test]
fn share_of_dark_modules_by_count() {
    let with_dark = |dark: usize, size: usize| -> Vec<Vec<bool>> {
        (0..size).map(|r| (0..size).map(|c| r * size + c < dark).collect()).collect()
    };
    assert_eq!(balance_score(&with_dark(50, 10)), 0);
    assert_eq!(balance_score(&with_dark(45, 10)), 20);
    assert_eq!(balance_score(&with_dark(47, 10)), 20);
    assert_eq!(balance_score(&with_dark(48, 10)), 0);
    assert_eq!(balance_score(&with_dark(52, 10)), 0);
    assert_eq!(balance_score(&with_dark(53, 10)), 20);
    assert_eq!(balance_score(&with_dark(55, 10)), 20);
    assert_eq!(balance_score(&with_dark(0, 10)), 200);
    assert_eq!(balance_score(&with_dark(100, 10)), 200);
    assert_eq!(balance_score(&with_dark(5, 10)), 180);
    assert_eq!(balance_score(&with_dark(95, 10)), 180);
    assert_eq!(balance_score(&with_dark(19, 20)), 180);
    assert_eq!(balance_score(&with_dark(190, 20)), 0);
    assert_eq!(balance_score(&with_dark(189, 20)), 20);
    assert_eq!(balance_score(&with_dark(191, 20)), 0);
    assert_eq!(balance_score(&with_dark(210, 20)), 20);
    assert_eq!(balance_score(&with_dark(209, 20)), 0);
    assert_eq!(balance_score(&with_dark(211, 20)), 20);
    assert_eq!(balance_score(&with_dark(170, 20)), 20);
}

#[test]
fn total_is_the_sum_of_the_four() {
    assert_eq!(score(&rows(&ALL_DARK_6)), 323);
    assert_eq!(score(&rows(&ALL_LIGHT_5)), 278);
    assert_eq!(score(&rows(&CHESSBOARD_4)), 0);
    assert_eq!(score(&rows(&CHESSBOARD_21)), 0);
    assert_eq!(score(&rows(&RUNS_7)), 83);
    assert_eq!(score(&rows(&FINDER_LIKE_12)), 168);
    assert_eq!(score(&rows(&FINDER_BOTH_SIDES_15)), 40);
    assert_eq!(score(&rows(&BLOCKS_4)), 12);
    assert_eq!(score(&rows(&SINGLE)), 200);
    assert_eq!(score(&rows(&HELLO_WORLD_Q_MASK_0)), 744);
    assert_eq!(score(&rows(&HELLO_WORLD_Q_MASK_1)), 518);
    assert_eq!(score(&rows(&HELLO_WORLD_Q_MASK_2)), 638);
    assert_eq!(score(&rows(&HELLO_WORLD_Q_MASK_3)), 573);
    assert_eq!(score(&rows(&HELLO_WORLD_Q_MASK_4)), 775);
    assert_eq!(score(&rows(&HELLO_WORLD_Q_MASK_5)), 564);
    assert_eq!(score(&rows(&HELLO_WORLD_Q_MASK_6)), 432);
    assert_eq!(score(&rows(&HELLO_WORLD_Q_MASK_7)), 834);
}

#[test]
fn balanced_symbol_without_runs_blocks_or_finder_likes_scores_nothing() {
    let mat = rows(&CHESSBOARD_4);
    assert_eq!(adjacent_score(&mat), 0);
    assert_eq!(block_score(&mat), 0);
    assert_eq!(finder_score(&mat), 0);
    assert_eq!(balance_score(&mat), 0);
    assert_eq!(score(&mat), 0);
    for size in [2usize, 6, 10, 50, 176] {
        let board: Vec<Vec<bool>> =
            (0..size).map(|r| (0..size).map(|c| (r + c) % 2 == 0).collect()).collect();
        assert_eq!(score(&board), 0);
    }
}

#[test]
fn largest_symbol_all_dark() {
    let mat = vec![vec![true; 177]; 177];
    assert_eq!(adjacent_score(&mat), 2 * 177 * 175);
    assert_eq!(block_score(&mat), 3 * 176 * 176);
    assert_eq!(finder_score(&mat), 0);
    assert_eq!(balance_score(&mat), 200);
    assert_eq!(score(&mat), 2 * 177 * 175 + 3 * 176 * 176 + 200);
}
