use qr_encoder::default::{
    array_len_to_width, create_matrix_alignments, create_matrix_black_module,
    create_matrix_from_version, create_matrix_pattern, create_matrix_timing, default_full_matrix,
    default_matrix, non_available_matrix_from_version,
};

fn rows(art: &[&str]) -> Vec<Vec<bool>> {
    art.iter().map(|row| row.bytes().map(|b| b == b'#').collect()).collect()
}

fn blank(size: usize) -> Vec<Vec<bool>> {
    vec![vec![false; size]; size]
}

fn dark_count(mat: &[Vec<bool>]) -> usize {
    mat.iter().flatten().filter(|module| **module).count()
}

const PATTERNS_V1: [&str; 21] = [
    "#######.......#######",
    "#.....#.......#.....#",
    "#.###.#.......#.###.#",
    "#.###.#.......#.###.#",
    "#.###.#.......#.###.#",
    "#.....#.......#.....#",
    "#######.#.#.#.#######",
    ".....................",
    "......#..............",
    ".....................",
    "......#..............",
    ".....................",
    "......#..............",
    "........#............",
    "#######..............",
    "#.....#..............",
    "#.###.#..............",
    "#.###.#..............",
    "#.###.#..............",
    "#.....#..............",
    "#######..............",
];

const RESERVED_V1: [&str; 21] = [
    "#########....########",
    "#########....########",
    "#########....########",
    "#########....########",
    "#########....########",
    "#########....########",
    "#####################",
    "#########....########",
    "#########....########",
    "......#..............",
    "......#..............",
    "......#..............",
    "......#..............",
    "#########............",
    "#########............",
    "#########............",
    "#########............",
    "#########............",
    "#########............",
    "#########............",
    "#########............",
];

const PATTERNS_V2: [&str; 25] = [
    "#######...........#######",
    "#.....#...........#.....#",
    "#.###.#...........#.###.#",
    "#.###.#...........#.###.#",
    "#.###.#...........#.###.#",
    "#.....#...........#.....#",
    "#######.#.#.#.#.#.#######",
    ".........................",
    "......#..................",
    ".........................",
    "......#..................",
    ".........................",
    "......#..................",
    ".........................",
    "......#..................",
    ".........................",
    "......#.........#####....",
    "........#.......#...#....",
    "#######.........#.#.#....",
    "#.....#.........#...#....",
    "#.###.#.........#####....",
    "#.###.#..................",
    "#.###.#..................",
    "#.....#..................",
    "#######..................",
];

const RESERVED_V2: [&str; 25] = [
    "#########........########",
    "#########........########",
    "#########........########",
    "#########........########",
    "#########........########",
    "#########........########",
    "#########################",
    "#########........########",
    "#########........########",
    "......#..................",
    "......#..................",
    "......#..................",
    "......#..................",
    "......#..................",
    "......#..................",
    "......#..................",
    "......#.........#####....",
    "#########.......#####....",
    "#########.......#####....",
    "#########.......#####....",
    "#########.......#####....",
    "#########................",
    "#########................",
    "#########................",
    "#########................",
];

const PATTERNS_V7: [&str; 45] = [
    "#######...............................#######",
    "#.....#...............................#.....#",
    "#.###.#...............................#.###.#",
    "#.###.#...............................#.###.#",
    "#.###.#.............#####.............#.###.#",
    "#.....#.............#...#.............#.....#",
    "#######.#.#.#.#.#.#.#.#.#.#.#.#.#.#.#.#######",
    "....................#...#....................",
    "......#.............#####....................",
    ".............................................",
    "......#......................................",
    ".............................................",
    "......#......................................",
    ".............................................",
    "......#......................................",
    ".............................................",
    "......#......................................",
    ".............................................",
    "......#......................................",
    ".............................................",
    "....#####...........#####...........#####....",
    "....#...#...........#...#...........#...#....",
    "....#.#.#...........#.#.#...........#.#.#....",
    "....#...#...........#...#...........#...#....",
    "....#####...........#####...........#####....",
    ".............................................",
    "......#......................................",
    ".............................................",
    "......#......................................",
    ".............................................",
    "......#......................................",
    ".............................................",
    "......#......................................",
    ".............................................",
    "......#......................................",
    ".............................................",
    "......#.............#####...........#####....",
    "........#...........#...#...........#...#....",
    "#######.............#.#.#...........#.#.#....",
    "#.....#.............#...#...........#...#....",
    "#.###.#.............#####...........#####....",
    "#.###.#......................................",
    "#.###.#......................................",
    "#.....#......................................",
    "#######......................................",
];

const RESERVED_V7: [&str; 45] = [
    "#########.........................###########",
    "#########.........................###########",
    "#########.........................###########",
    "#########.........................###########",
    "#########...........#####.........###########",
    "#########...........#####.........###########",
    "#############################################",
    "#########...........#####............########",
    "#########...........#####............########",
    "......#......................................",
    "......#......................................",
    "......#......................................",
    "......#......................................",
    "......#......................................",
    "......#......................................",
    "......#......................................",
    "......#......................................",
    "......#......................................",
    "......#......................................",
    "......#......................................",
    "....#####...........#####...........#####....",
    "....#####...........#####...........#####....",
    "....#####...........#####...........#####....",
    "....#####...........#####...........#####....",
    "....#####...........#####...........#####....",
    "......#......................................",
    "......#......................................",
    "......#......................................",
    "......#......................................",
    "......#......................................",
    "......#......................................",
    "......#......................................",
    "......#......................................",
    "......#......................................",
    "#######......................................",
    "#######......................................",
    "#######.............#####...........#####....",
    "#########...........#####...........#####....",
    "#########...........#####...........#####....",
    "#########...........#####...........#####....",
    "#########...........#####...........#####....",
    "#########....................................",
    "#########....................................",
    "#########....................................",
    "#########....................................",
];

#[test]
fn function_patterns_of_version_1() {
    assert_eq!(create_matrix_from_version(1), rows(&PATTERNS_V1));
}

#[test]
fn function_patterns_of_version_2() {
    assert_eq!(create_matrix_from_version(2), rows(&PATTERNS_V2));
}

#[test]
fn function_patterns_of_version_7() {
    assert_eq!(create_matrix_from_version(7), rows(&PATTERNS_V7));
}

#[test]
fn reserved_modules_of_version_1() {
    assert_eq!(non_available_matrix_from_version(1), rows(&RESERVED_V1));
}

#[test]
fn reserved_modules_of_version_2() {
    assert_eq!(non_available_matrix_from_version(2), rows(&RESERVED_V2));
}

#[test]
fn reserved_modules_of_version_7() {
    assert_eq!(non_available_matrix_from_version(7), rows(&RESERVED_V7));
}

#[test]
fn patterns_count_by_version() {
    assert_eq!(dark_count(&create_matrix_from_version(1)), 106);
    assert_eq!(dark_count(&non_available_matrix_from_version(1)), 233);
    assert_eq!(dark_count(&create_matrix_from_version(2)), 127);
    assert_eq!(dark_count(&non_available_matrix_from_version(2)), 266);
    assert_eq!(dark_count(&create_matrix_from_version(6)), 143);
    assert_eq!(dark_count(&non_available_matrix_from_version(6)), 298);
    assert_eq!(dark_count(&create_matrix_from_version(7)), 226);
    assert_eq!(dark_count(&non_available_matrix_from_version(7)), 457);
    assert_eq!(dark_count(&create_matrix_from_version(14)), 367);
    assert_eq!(dark_count(&non_available_matrix_from_version(14)), 678);
    assert_eq!(dark_count(&create_matrix_from_version(21)), 542);
    assert_eq!(dark_count(&non_available_matrix_from_version(21)), 949);
    assert_eq!(dark_count(&create_matrix_from_version(40)), 1014);
    assert_eq!(dark_count(&non_available_matrix_from_version(40)), 1681);
}

#[test]
fn every_function_pattern_module_is_reserved() {
    for version in 1..=40usize {
        let size = 17 + 4 * version;
        let patterns = create_matrix_from_version(version);
        let taken = non_available_matrix_from_version(version);
        assert_eq!(patterns.len(), size);
        assert_eq!(taken.len(), size);
        for r in 0..size {
            assert_eq!(patterns[r].len(), size);
            assert_eq!(taken[r].len(), size);
            for c in 0..size {
                assert!(!patterns[r][c] || taken[r][c]);
            }
        }
    }
}

#[test]
fn finder_patterns_alone() {
    let mut mat = blank(21);
    create_matrix_pattern(&mut mat);
    let finder = [
        "#######", "#.....#", "#.###.#", "#.###.#", "#.###.#", "#.....#", "#######",
    ];
    for (i, line) in finder.iter().enumerate() {
        for (j, module) in line.bytes().enumerate() {
            let dark = module == b'#';
            assert_eq!(mat[i][j], dark);
            assert_eq!(mat[14 + i][j], dark);
            assert_eq!(mat[i][14 + j], dark);
        }
    }
    assert_eq!(dark_count(&mat), 3 * 33);
    let mut small = blank(7);
    create_matrix_pattern(&mut small);
    assert_eq!(dark_count(&small), 33);
}

#[test]
fn finder_patterns_keep_what_is_dark() {
    let mut mat = blank(21);
    mat[1][1] = true;
    mat[10][10] = true;
    create_matrix_pattern(&mut mat);
    assert!(mat[1][1]);
    assert!(mat[10][10]);
    assert_eq!(dark_count(&mat), 3 * 33 + 2);
}

#[test]
fn timing_patterns_alone() {
    let mut mat = blank(25);
    create_matrix_timing(&mut mat);
    for i in 0..25 {
        let dark = i >= 8 && i <= 16 && i % 2 == 0;
        assert_eq!(mat[6][i], dark);
        assert_eq!(mat[i][6], dark);
    }
    assert_eq!(dark_count(&mat), 10);
    let mut small = blank(15);
    create_matrix_timing(&mut small);
    assert_eq!(dark_count(&small), 0);
}

#[test]
fn dark_module_alone() {
    for version in [1usize, 2, 7, 40] {
        let size = 17 + 4 * version;
        let mut mat = blank(size);
        create_matrix_black_module(&mut mat, version);
        assert!(mat[4 * version + 9][8]);
        assert!(mat[size - 8][8]);
        assert_eq!(dark_count(&mat), 1);
    }
}

#[test]
fn alignment_patterns_alone() {
    let mut mat = blank(21);
    create_matrix_alignments(&mut mat, 1);
    assert_eq!(dark_count(&mat), 0);
    let mut mat = blank(25);
    create_matrix_alignments(&mut mat, 2);
    let pattern = ["#####", "#...#", "#.#.#", "#...#", "#####"];
    for r in 0..25 {
        for c in 0..25 {
            let inside = (16..=20).contains(&r) && (16..=20).contains(&c);
            let dark = inside && pattern[r - 16].as_bytes()[c - 16] == b'#';
            assert_eq!(mat[r][c], dark);
        }
    }
    let mut mat = blank(45);
    create_matrix_alignments(&mut mat, 7);
    assert_eq!(dark_count(&mat), 6 * 17);
    for (r, c) in [(6, 22), (22, 6), (22, 22), (22, 38), (38, 22), (38, 38)] {
        assert!(mat[r][c]);
        assert!(!mat[r][c + 1]);
        assert!(mat[r + 2][c + 2]);
    }
    for (r, c) in [(6, 6), (6, 38), (38, 6)] {
        assert!(!mat[r][c]);
    }
}

#[test]
fn widths_of_symbols() {
    assert_eq!(array_len_to_width(441), 21);
    assert_eq!(array_len_to_width(625), 25);
    assert_eq!(array_len_to_width(2025), 45);
    assert_eq!(array_len_to_width(31329), 177);
    for version in 1..=40usize {
        let size = 17 + 4 * version;
        assert_eq!(array_len_to_width(size * size), size);
    }
}

#[test]
fn widths_of_what_is_no_symbol() {
    assert_eq!(array_len_to_width(0), 0);
    assert_eq!(array_len_to_width(1), 0);
    assert_eq!(array_len_to_width(289), 0);
    assert_eq!(array_len_to_width(440), 0);
    assert_eq!(array_len_to_width(442), 0);
    assert_eq!(array_len_to_width(484), 0);
    assert_eq!(array_len_to_width(529), 0);
    assert_eq!(array_len_to_width(32761), 0);
    assert_eq!(array_len_to_width(usize::MAX), 0);
}

#[test]
fn flat_patterns_are_the_rows_end_to_end() {
    let flat = default_matrix::<441>();
    let expected: Vec<bool> = create_matrix_from_version(1).concat();
    assert_eq!(flat.to_vec(), expected);
    let flat = default_matrix::<2025>();
    let expected: Vec<bool> = create_matrix_from_version(7).concat();
    assert_eq!(flat.to_vec(), expected);
    assert!(flat[6 * 45 + 22]);
    assert!(!flat[6 * 45 + 23]);
}

#[test]
fn flat_reserved_modules_are_the_rows_end_to_end() {
    let flat = default_full_matrix::<625>();
    let expected: Vec<bool> = non_available_matrix_from_version(2).concat();
    assert_eq!(flat.to_vec(), expected);
    let flat = default_full_matrix::<31329>();
    let expected: Vec<bool> = non_available_matrix_from_version(40).concat();
    assert_eq!(flat.to_vec(), expected);
}
