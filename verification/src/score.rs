//! The penalty score of a symbol, by which the mask pattern is chosen.
use crate::arith::{lemma_mul_le, lemma_mul_step};
use crate::default::{grid, is_square};
use vstd::arithmetic::div_mod::lemma_fundamental_div_mod_converse;
use vstd::prelude::*;

verus! {

/// Column `c` of the symbol, top to bottom.
pub open spec fn column(modules: Seq<Seq<bool>>, c: int) -> Seq<bool> {
    Seq::new(modules.len(), |r: int| modules[r][c])
}

/// Row `index` of the symbol, or, if `vertical`, its column `index`.
pub open spec fn line_of(modules: Seq<Seq<bool>>, index: int, vertical: bool) -> Seq<bool> {
    if vertical {
        column(modules, index)
    } else {
        modules[index]
    }
}

/// Length of the run of like modules that ends at place `i` of the line.
pub open spec fn run_length(line: Seq<bool>, i: int) -> nat
    decreases i,
{
    if i <= 0 || line[i - 1] != line[i] {
        1
    } else {
        run_length(line, i - 1) + 1
    }
}

/// Whether a run of like modules ends at place `i` of the line: the line
/// ends there too, or the next module differs.
pub open spec fn ends_run(line: Seq<bool>, i: int) -> bool {
    i + 1 == line.len() || line[i + 1] != line[i]
}

/// The penalty of the run that ends at place `i` of the line, if one does:
/// 3 for a run of five like modules and 1 more for each module beyond.
pub open spec fn run_penalty_at(line: Seq<bool>, i: int) -> nat {
    if ends_run(line, i) && run_length(line, i) >= 5 {
        (run_length(line, i) - 2) as nat
    } else {
        0
    }
}

/// The penalty of the runs that end in the first `k` places of the line.
pub open spec fn run_penalty(line: Seq<bool>, k: nat) -> nat
    decreases k,
{
    if k == 0 {
        0
    } else {
        run_penalty(line, (k - 1) as nat) + run_penalty_at(line, k - 1)
    }
}

/// The penalty of the runs in the first `count` rows or, if `vertical`,
/// columns.
pub open spec fn lines_run_penalty(modules: Seq<Seq<bool>>, vertical: bool, count: nat) -> nat
    decreases count,
{
    if count == 0 {
        0
    } else {
        lines_run_penalty(modules, vertical, (count - 1) as nat) + run_penalty(
            line_of(modules, count - 1, vertical),
            modules.len(),
        )
    }
}

/// The first penalty: for every run of five or more like modules in a row
/// or a column, 3 and 1 more for each module beyond five.
pub open spec fn adjacent_penalty(modules: Seq<Seq<bool>>) -> nat {
    lines_run_penalty(modules, false, modules.len()) + lines_run_penalty(
        modules,
        true,
        modules.len(),
    )
}

/// Whether the four modules of the 2×2 block whose top left corner is in
/// row `r` and column `c` are alike.
pub open spec fn uniform_block(modules: Seq<Seq<bool>>, r: int, c: int) -> bool {
    &&& modules[r][c] == modules[r][c + 1]
    &&& modules[r][c] == modules[r + 1][c]
    &&& modules[r][c] == modules[r + 1][c + 1]
}

/// Number of uniform 2×2 blocks with the top left corner in row `r` and in
/// one of the first `c` columns.
pub open spec fn blocks_in_row(modules: Seq<Seq<bool>>, r: int, c: nat) -> nat
    decreases c,
{
    if c == 0 {
        0
    } else {
        blocks_in_row(modules, r, (c - 1) as nat) + (if uniform_block(modules, r, c - 1) {
            1nat
        } else {
            0nat
        })
    }
}

/// Number of uniform 2×2 blocks with the top left corner in one of the
/// first `r` rows.
pub open spec fn blocks_in_rows(modules: Seq<Seq<bool>>, r: nat) -> nat
    decreases r,
{
    if r == 0 {
        0
    } else {
        blocks_in_rows(modules, (r - 1) as nat) + blocks_in_row(
            modules,
            r - 1,
            (modules.len() - 1) as nat,
        )
    }
}

/// The second penalty: 3 for every 2×2 block of like modules, blocks that
/// overlap counted each.
pub open spec fn block_penalty(modules: Seq<Seq<bool>>) -> nat {
    3 * blocks_in_rows(modules, (modules.len() - 1) as nat)
}

/// Whether the seven modules of the line from place `i` on are dark, light,
/// three dark, light, dark, as across a finder pattern.
pub open spec fn core_at(line: Seq<bool>, i: int) -> bool {
    &&& 0 <= i
    &&& i + 7 <= line.len()
    &&& line[i]
    &&& !line[i + 1]
    &&& line[i + 2]
    &&& line[i + 3]
    &&& line[i + 4]
    &&& !line[i + 5]
    &&& line[i + 6]
}

/// Whether the four modules of the line before place `i` are in the line
/// and light.
pub open spec fn light_before(line: Seq<bool>, i: int) -> bool {
    &&& 4 <= i
    &&& !line[i - 4]
    &&& !line[i - 3]
    &&& !line[i - 2]
    &&& !line[i - 1]
}

/// Whether the four modules of the line from place `i` on are in the line
/// and light.
pub open spec fn light_from(line: Seq<bool>, i: int) -> bool {
    &&& i + 4 <= line.len()
    &&& !line[i]
    &&& !line[i + 1]
    &&& !line[i + 2]
    &&& !line[i + 3]
}

/// Whether the line shows at place `i` what a reader may take for a finder
/// pattern: its seven modules with four light ones before them or after
/// them.
pub open spec fn finder_like_at(line: Seq<bool>, i: int) -> bool {
    core_at(line, i) && (light_before(line, i) || light_from(line, i + 7))
}

/// Number of finder-like patterns that start in the first `k` places of the
/// line.
pub open spec fn finder_like_count(line: Seq<bool>, k: nat) -> nat
    decreases k,
{
    if k == 0 {
        0
    } else {
        finder_like_count(line, (k - 1) as nat) + (if finder_like_at(line, k - 1) {
            1nat
        } else {
            0nat
        })
    }
}

/// Number of finder-like patterns in the first `count` rows or, if
/// `vertical`, columns.
pub open spec fn lines_finder_like(modules: Seq<Seq<bool>>, vertical: bool, count: nat) -> nat
    decreases count,
{
    if count == 0 {
        0
    } else {
        lines_finder_like(modules, vertical, (count - 1) as nat) + finder_like_count(
            line_of(modules, count - 1, vertical),
            modules.len(),
        )
    }
}

/// The third penalty: 40 for every finder-like pattern in a row or a
/// column.
pub open spec fn finder_penalty(modules: Seq<Seq<bool>>) -> nat {
    40 * (lines_finder_like(modules, false, modules.len()) + lines_finder_like(
        modules,
        true,
        modules.len(),
    ))
}

/// Number of dark modules among the first `c` of the row.
pub open spec fn dark_in_row(row: Seq<bool>, c: nat) -> nat
    decreases c,
{
    if c == 0 {
        0
    } else {
        dark_in_row(row, (c - 1) as nat) + (if row[c - 1] { 1nat } else { 0nat })
    }
}

/// Number of dark modules in the first `r` rows.
pub open spec fn dark_in_rows(modules: Seq<Seq<bool>>, r: nat) -> nat
    decreases r,
{
    if r == 0 {
        0
    } else {
        dark_in_rows(modules, (r - 1) as nat) + dark_in_row(modules[r - 1], modules.len())
    }
}

/// The share of `dark` in `total`, in percent, rounded to the nearest
/// multiple of 5, halves upwards.
pub open spec fn rounded_percent(dark: int, total: int) -> int {
    5 * ((40 * dark + total) / (2 * total))
}

/// The fourth penalty, from the number of dark modules among all: 10 times
/// the fifths in twice the distance of the rounded percentage from 50.
pub open spec fn balance_of(dark: int, total: int) -> int {
    let percent = rounded_percent(dark, total);
    let distance = if percent >= 50 { percent - 50 } else { 50 - percent };
    10 * ((2 * distance) / 5)
}

/// The fourth penalty of a symbol.
pub open spec fn balance_penalty(modules: Seq<Seq<bool>>) -> nat {
    balance_of(
        dark_in_rows(modules, modules.len()) as int,
        (modules.len() * modules.len()) as int,
    ) as nat
}

/// The penalty score of a symbol: the sum of its four penalties.
pub open spec fn penalty(modules: Seq<Seq<bool>>) -> nat {
    adjacent_penalty(modules) + block_penalty(modules) + finder_penalty(modules)
        + balance_penalty(modules)
}

/// The module at place `i` of row `index` or, if `vertical`, of column
/// `index`.
fn line_module(mat: &Vec<Vec<bool>>, index: usize, vertical: bool, i: usize) -> (dark: bool)
    requires
        is_square(*mat, mat.len() as int),
        index < mat.len(),
        i < mat.len(),
    ensures
        dark == line_of(grid(*mat), index as int, vertical)[i as int],
        line_of(grid(*mat), index as int, vertical).len() == mat.len(),
{
    if vertical {
        mat[i][index]
    } else {
        mat[index][i]
    }
}

/// The penalty of the runs of one row or column.
fn line_run_score(mat: &Vec<Vec<bool>>, index: usize, vertical: bool) -> (score: u32)
    requires
        is_square(*mat, mat.len() as int),
        index < mat.len(),
        mat.len() <= 177,
    ensures
        score == run_penalty(line_of(grid(*mat), index as int, vertical), mat.len() as nat),
        score <= mat.len(),
{
    let size = mat.len();
    let ghost line = line_of(grid(*mat), index as int, vertical);
    let mut score: u32 = 0;
    let mut run: u32 = 0;
    let mut i: usize = 0;
    while i < size
        invariant
            i <= size,
            size == mat.len(),
            size <= 177,
            index < size,
            is_square(*mat, size as int),
            line == line_of(grid(*mat), index as int, vertical),
            line.len() == size,
            score == run_penalty(line, i as nat),
            i > 0 ==> run == run_length(line, i - 1),
            i > 0 && ends_run(line, i - 1) ==> score <= i,
            i > 0 && !ends_run(line, i - 1) ==> score + run <= i,
            i == 0 ==> score == 0 && run == 0,
        decreases size - i,
    {
        let dark = line_module(mat, index, vertical, i);
        let same = if i > 0 {
            line_module(mat, index, vertical, i - 1) == dark
        } else {
            false
        };
        let ghost before = run;
        if same {
            run = run + 1;
        } else {
            run = 1;
        }
        assert(run == run_length(line, i as int));
        let last = if i + 1 < size {
            line_module(mat, index, vertical, i + 1) != dark
        } else {
            true
        };
        assert(last == ends_run(line, i as int));
        if last && run >= 5 {
            score = score + (run - 2);
        }
        i += 1;
    }
    score
}

/// The first penalty: for every run of five or more like modules in a row
/// or a column, 3 and 1 more for each module beyond five.
pub fn adjacent_score(mat: &Vec<Vec<bool>>) -> (score: u32)
    requires
        is_square(*mat, mat.len() as int),
        mat.len() <= 177,
    ensures
        score == adjacent_penalty(grid(*mat)),
        score <= 2 * 177 * 177,
{
    let size = mat.len();
    let mut total: u32 = 0;
    let mut index: usize = 0;
    while index < size
        invariant
            index <= size,
            size == mat.len(),
            size <= 177,
            is_square(*mat, size as int),
            total == lines_run_penalty(grid(*mat), false, index as nat),
            total <= index * 177,
        decreases size - index,
    {
        let line = line_run_score(mat, index, false);
        total = total + line;
        index += 1;
    }
    let rows = total;
    let mut index: usize = 0;
    while index < size
        invariant
            index <= size,
            size == mat.len(),
            size <= 177,
            is_square(*mat, size as int),
            rows == lines_run_penalty(grid(*mat), false, size as nat),
            rows <= 177 * 177,
            total == rows + lines_run_penalty(grid(*mat), true, index as nat),
            total <= rows + index * 177,
        decreases size - index,
    {
        let line = line_run_score(mat, index, true);
        total = total + line;
        index += 1;
    }
    total
}

/// The second penalty: 3 for every 2×2 block of like modules.
pub fn block_score(mat: &Vec<Vec<bool>>) -> (score: u32)
    requires
        is_square(*mat, mat.len() as int),
        1 <= mat.len() <= 177,
    ensures
        score == block_penalty(grid(*mat)),
        score <= 3 * 177 * 177,
{
    let size = mat.len();
    let mut count: u32 = 0;
    let mut r: usize = 0;
    while r < size - 1
        invariant
            r <= size - 1,
            1 <= size <= 177,
            size == mat.len(),
            is_square(*mat, size as int),
            count == blocks_in_rows(grid(*mat), r as nat),
            count <= r * 177,
        decreases size - r,
    {
        let ghost base = count;
        let mut c: usize = 0;
        while c < size - 1
            invariant
                r < size - 1,
                c <= size - 1,
                1 <= size <= 177,
                size == mat.len(),
                is_square(*mat, size as int),
                count == base + blocks_in_row(grid(*mat), r as int, c as nat),
                count <= base + c,
                base <= r * 177,
            decreases size - c,
        {
            let dark = mat[r][c];
            if mat[r][c + 1] == dark && mat[r + 1][c] == dark && mat[r + 1][c + 1] == dark {
                count = count + 1;
            }
            c += 1;
        }
        r += 1;
    }
    3 * count
}

/// Whether row `index` or, if `vertical`, column `index` shows a
/// finder-like pattern at place `i`.
fn finder_like(mat: &Vec<Vec<bool>>, index: usize, vertical: bool, i: usize) -> (found: bool)
    requires
        is_square(*mat, mat.len() as int),
        index < mat.len(),
        i < mat.len(),
        mat.len() <= 177,
    ensures
        found == finder_like_at(line_of(grid(*mat), index as int, vertical), i as int),
{
    let size = mat.len();
    let ghost line = line_of(grid(*mat), index as int, vertical);
    if i + 7 > size {
        return false;
    }
    let core = line_module(mat, index, vertical, i) && !line_module(mat, index, vertical, i + 1)
        && line_module(mat, index, vertical, i + 2) && line_module(mat, index, vertical, i + 3)
        && line_module(mat, index, vertical, i + 4) && !line_module(mat, index, vertical, i + 5)
        && line_module(mat, index, vertical, i + 6);
    if !core {
        return false;
    }
    let before = i >= 4 && !line_module(mat, index, vertical, i - 4) && !line_module(
        mat,
        index,
        vertical,
        i - 3,
    ) && !line_module(mat, index, vertical, i - 2) && !line_module(mat, index, vertical, i - 1);
    if before {
        return true;
    }
    i + 11 <= size && !line_module(mat, index, vertical, i + 7) && !line_module(
        mat,
        index,
        vertical,
        i + 8,
    ) && !line_module(mat, index, vertical, i + 9) && !line_module(mat, index, vertical, i + 10)
}

/// Number of finder-like patterns in the rows or, if `vertical`, the
/// columns.
fn finder_like_lines(mat: &Vec<Vec<bool>>, vertical: bool) -> (count: u32)
    requires
        is_square(*mat, mat.len() as int),
        mat.len() <= 177,
    ensures
        count == lines_finder_like(grid(*mat), vertical, mat.len() as nat),
        count <= 177 * 177,
{
    let size = mat.len();
    let mut count: u32 = 0;
    let mut index: usize = 0;
    while index < size
        invariant
            index <= size,
            size == mat.len(),
            size <= 177,
            is_square(*mat, size as int),
            count == lines_finder_like(grid(*mat), vertical, index as nat),
            count <= index * 177,
        decreases size - index,
    {
        let ghost base = count;
        let ghost line = line_of(grid(*mat), index as int, vertical);
        let mut i: usize = 0;
        while i < size
            invariant
                i <= size,
                index < size,
                size == mat.len(),
                size <= 177,
                is_square(*mat, size as int),
                line == line_of(grid(*mat), index as int, vertical),
                count == base + finder_like_count(line, i as nat),
                count <= base + i,
                base <= index * 177,
            decreases size - i,
        {
            if finder_like(mat, index, vertical, i) {
                count = count + 1;
            }
            i += 1;
        }
        index += 1;
    }
    count
}

/// The third penalty: 40 for every finder-like pattern in a row or a
/// column.
pub fn finder_score(mat: &Vec<Vec<bool>>) -> (score: u32)
    requires
        is_square(*mat, mat.len() as int),
        mat.len() <= 177,
    ensures
        score == finder_penalty(grid(*mat)),
        score <= 80 * 177 * 177,
{
    let rows = finder_like_lines(mat, false);
    let columns = finder_like_lines(mat, true);
    40 * (rows + columns)
}

/// The fourth penalty, from the share of dark modules.
pub fn balance_score(mat: &Vec<Vec<bool>>) -> (score: u32)
    requires
        is_square(*mat, mat.len() as int),
        1 <= mat.len() <= 177,
    ensures
        score == balance_penalty(grid(*mat)),
        score <= 200,
{
    let size = mat.len();
    let mut dark: u32 = 0;
    let mut r: usize = 0;
    while r < size
        invariant
            r <= size,
            1 <= size <= 177,
            size == mat.len(),
            is_square(*mat, size as int),
            dark == dark_in_rows(grid(*mat), r as nat),
            dark <= r * size,
        decreases size - r,
    {
        let ghost base = dark;
        let mut c: usize = 0;
        proof {
            lemma_mul_le(r as int, 177, size as int);
            lemma_mul_le(size as int, 177, 177);
            lemma_mul_step(r as int, size as int);
        }
        while c < size
            invariant
                r < size,
                c <= size,
                1 <= size <= 177,
                size == mat.len(),
                is_square(*mat, size as int),
                dark == base + dark_in_row(grid(*mat)[r as int], c as nat),
                dark <= base + c,
                base <= r * size,
                r * size <= 177 * 177,
            decreases size - c,
        {
            if mat[r][c] {
                dark = dark + 1;
            }
            c += 1;
        }
        r += 1;
    }
    proof {
        lemma_mul_le(size as int, 177, size as int);
        lemma_mul_le(size as int, 177, 177);
    }
    assert(size * size >= 1) by (nonlinear_arith)
        requires
            size >= 1,
    ;
    let total: u32 = (size * size) as u32;
    let percent: u32 = 5 * ((40 * dark + total) / (2 * total));
    assert(percent <= 100) by (nonlinear_arith)
        requires
            percent == 5 * ((40 * dark + total) / (2 * total)),
            dark <= total,
            total >= 1,
    ;
    let distance: u32 = if percent >= 50 { percent - 50 } else { 50 - percent };
    10 * ((2 * distance) / 5)
}

/// The penalty score of a symbol: the sum of its four penalties.
pub fn score(mat: &Vec<Vec<bool>>) -> (total: u32)
    requires
        is_square(*mat, mat.len() as int),
        1 <= mat.len() <= 177,
    ensures
        total == penalty(grid(*mat)),
{
    adjacent_score(mat) + block_score(mat) + finder_score(mat) + balance_score(mat)
}

/// A line without a run of five like modules has no run penalty.
proof fn lemma_no_runs(line: Seq<bool>, k: nat)
    requires
        forall|i: int| 0 <= i < k ==> run_length(line, i) < 5,
    ensures
        run_penalty(line, k) == 0,
    decreases k,
{
    if k > 0 {
        lemma_no_runs(line, (k - 1) as nat);
    }
}

/// Lines without a run of five like modules have no run penalty.
proof fn lemma_no_runs_in_lines(modules: Seq<Seq<bool>>, vertical: bool, count: nat)
    requires
        count <= modules.len(),
        forall|index: int, i: int|
            0 <= index < modules.len() && 0 <= i < modules.len() ==> #[trigger] run_length(
                line_of(modules, index, vertical),
                i,
            ) < 5,
    ensures
        lines_run_penalty(modules, vertical, count) == 0,
    decreases count,
{
    if count > 0 {
        lemma_no_runs_in_lines(modules, vertical, (count - 1) as nat);
        let line = line_of(modules, count - 1, vertical);
        assert forall|i: int| 0 <= i < modules.len() implies run_length(line, i) < 5 by {}
        lemma_no_runs(line, modules.len());
    }
}

/// A row without a uniform block counts none.
proof fn lemma_no_blocks_in_row(modules: Seq<Seq<bool>>, r: int, c: nat)
    requires
        forall|j: int| 0 <= j < c ==> !uniform_block(modules, r, j),
    ensures
        blocks_in_row(modules, r, c) == 0,
    decreases c,
{
    if c > 0 {
        lemma_no_blocks_in_row(modules, r, (c - 1) as nat);
    }
}

/// Rows without a uniform block count none.
proof fn lemma_no_blocks(modules: Seq<Seq<bool>>, r: nat)
    requires
        r <= modules.len() - 1,
        forall|i: int, j: int|
            0 <= i < modules.len() - 1 && 0 <= j < modules.len() - 1 ==> !uniform_block(
                modules,
                i,
                j,
            ),
    ensures
        blocks_in_rows(modules, r) == 0,
    decreases r,
{
    if r > 0 {
        lemma_no_blocks(modules, (r - 1) as nat);
        lemma_no_blocks_in_row(modules, r - 1, (modules.len() - 1) as nat);
    }
}

/// A line without a finder-like pattern counts none.
proof fn lemma_no_finder_likes(line: Seq<bool>, k: nat)
    requires
        forall|i: int| 0 <= i < k ==> !finder_like_at(line, i),
    ensures
        finder_like_count(line, k) == 0,
    decreases k,
{
    if k > 0 {
        lemma_no_finder_likes(line, (k - 1) as nat);
    }
}

/// Lines without a finder-like pattern count none.
proof fn lemma_no_finder_likes_in_lines(modules: Seq<Seq<bool>>, vertical: bool, count: nat)
    requires
        count <= modules.len(),
        forall|index: int, i: int|
            0 <= index < modules.len() && 0 <= i < modules.len() ==> !#[trigger] finder_like_at(
                line_of(modules, index, vertical),
                i,
            ),
    ensures
        lines_finder_like(modules, vertical, count) == 0,
    decreases count,
{
    if count > 0 {
        lemma_no_finder_likes_in_lines(modules, vertical, (count - 1) as nat);
        let line = line_of(modules, count - 1, vertical);
        assert forall|i: int| 0 <= i < modules.len() implies !finder_like_at(line, i) by {}
        lemma_no_finder_likes(line, modules.len());
    }
}

/// A symbol of which half the modules are dark has no penalty for its
/// share of dark modules.
pub proof fn lemma_balanced(dark: int, total: int)
    requires
        total > 0,
        2 * dark == total,
    ensures
        balance_of(dark, total) == 0,
{
    lemma_fundamental_div_mod_converse(40 * dark + total, 2 * total, 10, total);
}

/// A symbol without a run of five like modules in a row or a column,
/// without a 2×2 block of like modules and without a finder-like pattern,
/// of which exactly half the modules are dark, has the penalty 0.
pub proof fn lemma_quiet_symbol_scores_nothing(modules: Seq<Seq<bool>>)
    requires
        modules.len() >= 1,
        forall|index: int, vertical: bool, i: int|
            0 <= index < modules.len() && 0 <= i < modules.len() ==> #[trigger] run_length(
                line_of(modules, index, vertical),
                i,
            ) < 5,
        forall|r: int, c: int|
            0 <= r < modules.len() - 1 && 0 <= c < modules.len() - 1 ==> !uniform_block(
                modules,
                r,
                c,
            ),
        forall|index: int, vertical: bool, i: int|
            0 <= index < modules.len() && 0 <= i < modules.len() ==> !#[trigger] finder_like_at(
                line_of(modules, index, vertical),
                i,
            ),
        2 * dark_in_rows(modules, modules.len()) == modules.len() * modules.len(),
    ensures
        penalty(modules) == 0,
{
    let size = modules.len();
    lemma_no_runs_in_lines(modules, false, size);
    lemma_no_runs_in_lines(modules, true, size);
    lemma_no_blocks(modules, (size - 1) as nat);
    lemma_no_finder_likes_in_lines(modules, false, size);
    lemma_no_finder_likes_in_lines(modules, true, size);
    assert(size * size > 0) by (nonlinear_arith)
        requires
            size >= 1,
    ;
    lemma_balanced(dark_in_rows(modules, size) as int, (size * size) as int);
}

} // verus!
