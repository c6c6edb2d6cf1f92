//! The function patterns of a symbol: what every symbol of a version shows
//! whatever its data, and which modules are kept away from the data.
use crate::version::{alignment_grid, Version};
use vstd::prelude::*;

verus! {

/// Side of a finder pattern.
pub const POSITION_SIZE: usize = 7;

/// `mat` has `n` rows of `n` modules each.
pub open spec fn is_square(mat: Vec<Vec<bool>>, n: int) -> bool {
    &&& mat.len() == n
    &&& forall|r: int| 0 <= r < n ==> (#[trigger] mat[r]).len() == n
}

/// The rows of `mat` as sequences.
pub open spec fn grid(mat: Vec<Vec<bool>>) -> Seq<Seq<bool>> {
    Seq::new(mat.len() as nat, |r: int| mat[r]@)
}

/// Whether a finder pattern is dark at row `i` and column `j` counted from
/// its top left corner: the outer ring and the 3×3 core are.
pub open spec fn finder_shape(i: int, j: int) -> bool {
    &&& 0 <= i < 7
    &&& 0 <= j < 7
    &&& (i == 0 || i == 6 || j == 0 || j == 6 || (2 <= i <= 4 && 2 <= j <= 4))
}

/// Whether module `(r, c)` is a dark module of one of the three finder
/// patterns of a symbol of side `size`.
pub open spec fn finder_dark(size: int, r: int, c: int) -> bool {
    ||| finder_shape(r, c)
    ||| finder_shape(r - (size - 7), c)
    ||| finder_shape(r, c - (size - 7))
}

/// Whether module `(r, c)` is a dark module of one of the two timing
/// patterns: every other module of row 6 and of column 6 between the finder
/// patterns, from 8 to `size - 9`.
pub open spec fn timing_dark(size: int, r: int, c: int) -> bool {
    ||| (r == 6 && 8 <= c < size - 7 && c % 2 == 0)
    ||| (c == 6 && 8 <= r < size - 7 && r % 2 == 0)
}

/// Whether `(r, c)` is the module beside the bottom left finder pattern that
/// is dark in every symbol.
pub open spec fn black_module(version: int, r: int, c: int) -> bool {
    r == 4 * version + 9 && c == 8
}

/// Whether the pair of the `i`-th and `j`-th alignment coordinates, of
/// `count`, is the centre of an alignment pattern: all are but the three
/// that lie in the finder patterns.
pub open spec fn alignment_pair(count: int, i: int, j: int) -> bool {
    &&& 0 <= i < count
    &&& 0 <= j < count
    &&& !(i == 0 && j == 0)
    &&& !(i == count - 1 && j == 0)
    &&& !(i == 0 && j == count - 1)
}

/// Whether an alignment pattern is dark at `dy` rows and `dx` columns from
/// its centre: the centre and the outer ring of the 5×5 square are.
pub open spec fn alignment_shape(dy: int, dx: int) -> bool {
    &&& -2 <= dy <= 2
    &&& -2 <= dx <= 2
    &&& (dy == -2 || dy == 2 || dx == -2 || dx == 2 || (dy == 0 && dx == 0))
}

/// Whether `(r, c)` lies in the 5×5 square of an alignment pattern.
pub open spec fn alignment_block(dy: int, dx: int) -> bool {
    -2 <= dy <= 2 && -2 <= dx <= 2
}

/// Whether an alignment pattern covers the module at `dy` rows and `dx`
/// columns from its centre: with its dark modules only, or, if `full`, with
/// its whole square.
pub open spec fn alignment_cell(full: bool, dy: int, dx: int) -> bool {
    if full {
        alignment_block(dy, dx)
    } else {
        alignment_shape(dy, dx)
    }
}

/// Whether an alignment pattern of the version covers module `(r, c)`: with
/// its dark modules only, or, if `full`, with its whole square.
pub open spec fn alignment_hit(version: int, full: bool, r: int, c: int) -> bool {
    let grid = alignment_grid(version);
    exists|i: int, j: int|
        #![trigger alignment_pair(grid.len() as int, i, j)]
        alignment_pair(grid.len() as int, i, j) && alignment_cell(full, r - grid[i], c - grid[j])
}

/// Whether module `(r, c)` is a dark module of an alignment pattern of the
/// version.
pub open spec fn alignment_dark(version: int, r: int, c: int) -> bool {
    alignment_hit(version, false, r, c)
}

/// Whether module `(r, c)` lies in an alignment pattern of the version.
pub open spec fn alignment_area(version: int, r: int, c: int) -> bool {
    alignment_hit(version, true, r, c)
}

/// Whether module `(r, c)` is dark in the function patterns of the version:
/// finder, timing and alignment patterns and the dark module.
pub open spec fn function_dark(version: int, r: int, c: int) -> bool {
    let size = 17 + 4 * version;
    ||| finder_dark(size, r, c)
    ||| timing_dark(size, r, c)
    ||| black_module(version, r, c)
    ||| alignment_dark(version, r, c)
}

/// Whether module `(r, c)` is kept away from the data: the finder patterns
/// with their separators and the format information beside them, the timing
/// patterns, the dark module, the alignment patterns and, from version 7 on,
/// the two blocks of version information.
pub open spec fn reserved(version: int, r: int, c: int) -> bool {
    let size = 17 + 4 * version;
    ||| (r <= 8 && c <= 8)
    ||| (r >= size - 8 && c <= 8)
    ||| (r <= 8 && c >= size - 8)
    ||| (r == 6 && 8 <= c < size - 7)
    ||| (c == 6 && 8 <= r < size - 7)
    ||| black_module(version, r, c)
    ||| alignment_area(version, r, c)
    ||| (version >= 7 && r < 6 && size - 11 <= c < size - 8)
    ||| (version >= 7 && c < 6 && size - 11 <= r < size - 8)
}

/// Darkens one module.
fn darken(mat: &mut Vec<Vec<bool>>, r: usize, c: usize)
    requires
        is_square(*old(mat), old(mat).len() as int),
        r < old(mat).len(),
        c < old(mat).len(),
    ensures
        is_square(*final(mat), old(mat).len() as int),
        forall|i: int, j: int|
            0 <= i < old(mat).len() && 0 <= j < old(mat).len() ==> #[trigger] final(mat)[i][j] == (
            old(mat)[i][j] || (i == r && j == c)),
{
    let ghost before = *mat;
    mat[r][c] = true;
    proof {
        assert forall|i: int| 0 <= i < before.len() implies (#[trigger] mat[i]).len()
            == before.len() by {
            assert(before[i].len() == before.len());
        }
        assert forall|i: int, j: int| 0 <= i < before.len() && 0 <= j < before.len() implies
            #[trigger] mat[i][j] == (before[i][j] || (i == r && j == c)) by {
            assert(before[i].len() == before.len());
        }
    }
}

/// A square of light modules.
fn blank(length: usize) -> (mat: Vec<Vec<bool>>)
    ensures
        is_square(mat, length as int),
        forall|r: int, c: int| 0 <= r < length && 0 <= c < length ==> !(#[trigger] mat[r][c]),
{
    let mut mat: Vec<Vec<bool>> = Vec::new();
    let mut r: usize = 0;
    while r < length
        invariant
            r <= length,
            mat.len() == r,
            forall|i: int| 0 <= i < r ==> (#[trigger] mat[i]).len() == length,
            forall|i: int, j: int| 0 <= i < r && 0 <= j < length ==> !(#[trigger] mat[i][j]),
        decreases length - r,
    {
        let row = vec![false; length];
        mat.push(row);
        r += 1;
    }
    mat
}

/// Darkens the modules of one finder pattern whose top left corner is at row
/// `y` and column `x`.
fn stamp_finder(mat: &mut Vec<Vec<bool>>, y: usize, x: usize)
    requires
        is_square(*old(mat), old(mat).len() as int),
        y + 7 <= old(mat).len(),
        x + 7 <= old(mat).len(),
    ensures
        is_square(*final(mat), old(mat).len() as int),
        forall|r: int, c: int|
            0 <= r < old(mat).len() && 0 <= c < old(mat).len() ==> #[trigger] final(mat)[r][c] == (
            old(mat)[r][c] || finder_shape(r - y, c - x)),
{
    let ghost n = mat.len();
    // The outer ring.
    let mut i: usize = 0;
    while i <= 6
        invariant
            i <= 7,
            n == old(mat).len(),
            y + 7 <= n,
            x + 7 <= n,
            is_square(*mat, n as int),
            forall|r: int, c: int|
                0 <= r < n && 0 <= c < n ==> #[trigger] mat[r][c] == (old(mat)[r][c] || (
                finder_shape(r - y, c - x) && ((c - x < i && (r == y || r == y + 6)) || (r - y < i
                    && (c == x || c == x + 6))))),
        decreases 7 - i,
    {
        darken(mat, y, i + x);
        darken(mat, 6 + y, i + x);
        darken(mat, i + y, x);
        darken(mat, i + y, 6 + x);
        i += 1;
    }
    // The core.
    let mut i: usize = 2;
    while i <= 4
        invariant
            2 <= i <= 5,
            n == old(mat).len(),
            y + 7 <= n,
            x + 7 <= n,
            is_square(*mat, n as int),
            forall|r: int, c: int|
                0 <= r < n && 0 <= c < n ==> #[trigger] mat[r][c] == (old(mat)[r][c] || (
                finder_shape(r - y, c - x) && (r == y || r == y + 6 || c == x || c == x + 6 || r - y
                    < i))),
        decreases 5 - i,
    {
        darken(mat, i + y, 2 + x);
        darken(mat, i + y, 3 + x);
        darken(mat, i + y, 4 + x);
        i += 1;
    }
}

/// Adds the three finder patterns, at the corners but the bottom right one.
pub fn create_matrix_pattern(mat: &mut Vec<Vec<bool>>)
    requires
        is_square(*old(mat), old(mat).len() as int),
        old(mat).len() >= 7,
    ensures
        is_square(*final(mat), old(mat).len() as int),
        forall|r: int, c: int|
            0 <= r < old(mat).len() && 0 <= c < old(mat).len() ==> #[trigger] final(mat)[r][c] == (
            old(mat)[r][c] || finder_dark(old(mat).len() as int, r, c)),
{
    let length = mat.len();
    stamp_finder(mat, 0, 0);
    stamp_finder(mat, length - POSITION_SIZE, 0);
    stamp_finder(mat, 0, length - POSITION_SIZE);
}

/// Adds the two lines of timing patterns.
pub fn create_matrix_timing(mat: &mut Vec<Vec<bool>>)
    requires
        is_square(*old(mat), old(mat).len() as int),
        old(mat).len() >= 7,
    ensures
        is_square(*final(mat), old(mat).len() as int),
        forall|r: int, c: int|
            0 <= r < old(mat).len() && 0 <= c < old(mat).len() ==> #[trigger] final(mat)[r][c] == (
            old(mat)[r][c] || timing_dark(old(mat).len() as int, r, c)),
{
    let length = mat.len();
    let mut i: usize = POSITION_SIZE + 1;
    while i < length - POSITION_SIZE
        invariant
            8 <= i,
            i % 2 == 0,
            length == old(mat).len(),
            length >= 7,
            is_square(*mat, length as int),
            forall|r: int, c: int|
                0 <= r < length && 0 <= c < length ==> #[trigger] mat[r][c] == (old(mat)[r][c] || (
                timing_dark(length as int, r, c) && r < i && c < i)),
        decreases length - i,
    {
        darken(mat, POSITION_SIZE - 1, i);
        darken(mat, i, POSITION_SIZE - 1);
        i += 2;
    }
}

/// Adds the module that is dark in every symbol.
pub fn create_matrix_black_module(mat: &mut Vec<Vec<bool>>, version: usize)
    requires
        is_square(*old(mat), old(mat).len() as int),
        4 * version + 9 < old(mat).len(),
    ensures
        is_square(*final(mat), old(mat).len() as int),
        forall|r: int, c: int|
            0 <= r < old(mat).len() && 0 <= c < old(mat).len() ==> #[trigger] final(mat)[r][c] == (
            old(mat)[r][c] || black_module(version as int, r, c)),
{
    darken(mat, 4 * version + 9, 8);
}

/// Every alignment coordinate of a version leaves room for the pattern
/// around it, and versions above 1 have at least two coordinates.
pub proof fn lemma_alignment_grid_bounds(version: int)
    requires
        1 <= version <= 40,
    ensures
        alignment_grid(version).len() <= 7,
        version == 1 <==> alignment_grid(version).len() == 0,
        version >= 2 ==> alignment_grid(version).len() >= 2,
        forall|i: int|
            0 <= i < alignment_grid(version).len() ==> 6 <= #[trigger] alignment_grid(version)[i]
                <= 4 * version + 10,
{
}

/// Darkens every module of the rectangle of `height` rows and `width`
/// columns whose top left corner is at row `top` and column `left`.
fn fill_rect(mat: &mut Vec<Vec<bool>>, top: usize, left: usize, height: usize, width: usize)
    requires
        is_square(*old(mat), old(mat).len() as int),
        top + height <= old(mat).len(),
        left + width <= old(mat).len(),
    ensures
        is_square(*final(mat), old(mat).len() as int),
        forall|r: int, c: int|
            0 <= r < old(mat).len() && 0 <= c < old(mat).len() ==> #[trigger] final(mat)[r][c] == (
            old(mat)[r][c] || (top <= r < top + height && left <= c < left + width)),
{
    let ghost n = mat.len();
    let mut i: usize = 0;
    while i < height
        invariant
            i <= height,
            n == old(mat).len(),
            top + height <= n,
            left + width <= n,
            is_square(*mat, n as int),
            forall|r: int, c: int|
                0 <= r < n && 0 <= c < n ==> #[trigger] mat[r][c] == (old(mat)[r][c] || (top <= r
                    < top + i && left <= c < left + width)),
        decreases height - i,
    {
        let mut j: usize = 0;
        while j < width
            invariant
                i < height,
                j <= width,
                n == old(mat).len(),
                top + height <= n,
                left + width <= n,
                is_square(*mat, n as int),
                forall|r: int, c: int|
                    0 <= r < n && 0 <= c < n ==> #[trigger] mat[r][c] == (old(mat)[r][c] || (left
                        <= c < left + width && (top <= r < top + i || (r == top + i && c < left
                        + j)))),
            decreases width - j,
        {
            darken(mat, top + i, left + j);
            j += 1;
        }
        i += 1;
    }
}

/// Darkens the modules of one alignment pattern whose centre is at row `y`
/// and column `x`: its dark modules only, or, if `full`, its whole square.
fn stamp_alignment(mat: &mut Vec<Vec<bool>>, y: usize, x: usize, full: bool)
    requires
        is_square(*old(mat), old(mat).len() as int),
        2 <= y,
        y + 2 < old(mat).len(),
        2 <= x,
        x + 2 < old(mat).len(),
    ensures
        is_square(*final(mat), old(mat).len() as int),
        forall|r: int, c: int|
            0 <= r < old(mat).len() && 0 <= c < old(mat).len() ==> #[trigger] final(mat)[r][c] == (
            old(mat)[r][c] || alignment_cell(full, r - y, c - x)),
{
    if full {
        fill_rect(mat, y - 2, x - 2, 5, 5);
        return ;
    }
    let ghost n = mat.len();
    // The module in the middle.
    darken(mat, y, x);
    // The ring around it.
    let mut i: usize = 0;
    while i <= 4
        invariant
            i <= 5,
            !full,
            n == old(mat).len(),
            2 <= y,
            y + 2 < n,
            2 <= x,
            x + 2 < n,
            is_square(*mat, n as int),
            forall|r: int, c: int|
                0 <= r < n && 0 <= c < n ==> #[trigger] mat[r][c] == (old(mat)[r][c] || (
                alignment_shape(r - y, c - x) && ((r == y && c == x) || (c - (x - 2) < i && (r == y
                    - 2 || r == y + 2)) || (r - (y - 2) < i && (c == x - 2 || c == x + 2))))),
        decreases 5 - i,
    {
        darken(mat, y - 2, x - 2 + i);
        darken(mat, y + 2, x - 2 + i);
        darken(mat, y - 2 + i, x - 2);
        darken(mat, y - 2 + i, x + 2);
        i += 1;
    }
}

/// Whether `(r, c)` is covered by one of the alignment patterns whose pair
/// of coordinate indices comes before `(i, j)`, rows first.
pub open spec fn alignment_hit_before(
    grid: Seq<usize>,
    full: bool,
    i: int,
    j: int,
    r: int,
    c: int,
) -> bool {
    exists|a: int, b: int|
        #![trigger alignment_pair(grid.len() as int, a, b)]
        alignment_pair(grid.len() as int, a, b) && (a < i || (a == i && b < j)) && alignment_cell(
            full,
            r - grid[a],
            c - grid[b],
        )
}

/// Darkens the alignment patterns of the version, if it has any: their dark
/// modules only, or, if `full`, their whole squares.
fn stamp_alignments(mat: &mut Vec<Vec<bool>>, version: usize, full: bool)
    requires
        1 <= version <= 40,
        is_square(*old(mat), old(mat).len() as int),
        version >= 2 ==> old(mat).len() >= 4 * version + 13,
    ensures
        is_square(*final(mat), old(mat).len() as int),
        forall|r: int, c: int|
            0 <= r < old(mat).len() && 0 <= c < old(mat).len() ==> #[trigger] final(mat)[r][c] == (
            old(mat)[r][c] || alignment_hit(version as int, full, r, c)),
{
    let ghost n = mat.len();
    let alignment_patterns = match Version::from_number(version) {
        Some(v) => v.alignment_patterns_grid(),
        None => { return ; },
    };
    let ghost grid = alignment_grid(version as int);
    proof {
        lemma_alignment_grid_bounds(version as int);
    }
    if version == 1 {
        return ;
    }
    let count = alignment_patterns.len();
    let max = count - 1;
    let mut i: usize = 0;
    while i < count
        invariant
            i <= count,
            count == grid.len(),
            max == count - 1,
            2 <= version <= 40,
            n == old(mat).len(),
            n >= 4 * version + 13,
            alignment_patterns@ == grid,
            forall|k: int| 0 <= k < grid.len() ==> 6 <= #[trigger] grid[k] <= 4 * version + 10,
            is_square(*mat, n as int),
            forall|r: int, c: int|
                0 <= r < n && 0 <= c < n ==> #[trigger] mat[r][c] == (old(mat)[r][c]
                    || alignment_hit_before(grid, full, i as int, 0, r, c)),
        decreases count - i,
    {
        let alignment_y = alignment_patterns[i];
        let mut j: usize = 0;
        while j < count
            invariant
                i < count,
                j <= count,
                count == grid.len(),
                max == count - 1,
                2 <= version <= 40,
                n == old(mat).len(),
                n >= 4 * version + 13,
                alignment_patterns@ == grid,
                alignment_y == grid[i as int],
                forall|k: int| 0 <= k < grid.len() ==> 6 <= #[trigger] grid[k] <= 4 * version + 10,
                is_square(*mat, n as int),
                forall|r: int, c: int|
                    0 <= r < n && 0 <= c < n ==> #[trigger] mat[r][c] == (old(mat)[r][c]
                        || alignment_hit_before(grid, full, i as int, j as int, r, c)),
            decreases count - j,
        {
            let alignment_x = alignment_patterns[j];
            let ghost before = *mat;
            // The three pairs that lie in the finder patterns carry no pattern.
            let skip = (i == 0 && j == 0) || (i == max && j == 0) || (i == 0 && j == max);
            if !skip {
                stamp_alignment(mat, alignment_y, alignment_x, full);
            }
            proof {
                assert(skip <==> !alignment_pair(count as int, i as int, j as int));
                assert forall|r: int, c: int| 0 <= r < n && 0 <= c < n implies #[trigger] mat[r][c]
                    == (old(mat)[r][c] || alignment_hit_before(grid, full, i as int, j + 1, r, c)) by {
                    let hit = !skip && alignment_cell(full, r - grid[i as int], c - grid[j as int]);
                    assert(mat[r][c] == (before[r][c] || hit));
                    if alignment_hit_before(grid, full, i as int, j as int, r, c) {
                        let (a, b) = choose|a: int, b: int|
                            #![trigger alignment_pair(grid.len() as int, a, b)]
                            alignment_pair(grid.len() as int, a, b) && (a < i || (a == i && b < j))
                                && alignment_cell(full, r - grid[a], c - grid[b]);
                        assert(alignment_pair(grid.len() as int, a, b));
                    }
                    if hit {
                        assert(alignment_pair(grid.len() as int, i as int, j as int));
                    }
                    if alignment_hit_before(grid, full, i as int, j + 1, r, c) {
                        let (a, b) = choose|a: int, b: int|
                            #![trigger alignment_pair(grid.len() as int, a, b)]
                            alignment_pair(grid.len() as int, a, b) && (a < i || (a == i && b < j
                                + 1)) && alignment_cell(full, r - grid[a], c - grid[b]);
                        assert(alignment_pair(grid.len() as int, a, b));
                    }
                }
            }
            j += 1;
        }
        proof {
            assert forall|r: int, c: int| 0 <= r < n && 0 <= c < n implies #[trigger] mat[r][c] == (
            old(mat)[r][c] || alignment_hit_before(grid, full, i + 1, 0, r, c)) by {
                if alignment_hit_before(grid, full, i as int, count as int, r, c) {
                    let (a, b) = choose|a: int, b: int|
                        #![trigger alignment_pair(grid.len() as int, a, b)]
                        alignment_pair(grid.len() as int, a, b) && (a < i || (a == i && b < count))
                            && alignment_cell(full, r - grid[a], c - grid[b]);
                    assert(alignment_pair(grid.len() as int, a, b));
                }
                if alignment_hit_before(grid, full, i + 1, 0, r, c) {
                    let (a, b) = choose|a: int, b: int|
                        #![trigger alignment_pair(grid.len() as int, a, b)]
                        alignment_pair(grid.len() as int, a, b) && (a < i + 1 || (a == i + 1 && b
                            < 0)) && alignment_cell(full, r - grid[a], c - grid[b]);
                    assert(alignment_pair(grid.len() as int, a, b));
                }
            }
        }
        i += 1;
    }
    proof {
        assert forall|r: int, c: int| 0 <= r < n && 0 <= c < n implies #[trigger] mat[r][c] == (
        old(mat)[r][c] || alignment_hit(version as int, full, r, c)) by {
            if alignment_hit_before(grid, full, count as int, 0, r, c) {
                let (a, b) = choose|a: int, b: int|
                    #![trigger alignment_pair(grid.len() as int, a, b)]
                    alignment_pair(grid.len() as int, a, b) && (a < count || (a == count && b < 0))
                        && alignment_cell(full, r - grid[a], c - grid[b]);
                assert(alignment_pair(grid.len() as int, a, b));
            }
            if alignment_hit(version as int, full, r, c) {
                let (a, b) = choose|a: int, b: int|
                    #![trigger alignment_pair(grid.len() as int, a, b)]
                    alignment_pair(grid.len() as int, a, b) && alignment_cell(
                        full,
                        r - grid[a],
                        c - grid[b],
                    );
                assert(alignment_pair(grid.len() as int, a, b));
            }
        }
    }
}

/// Adds the alignment patterns of the version, if it has any.
pub fn create_matrix_alignments(mat: &mut Vec<Vec<bool>>, version: usize)
    requires
        1 <= version <= 40,
        is_square(*old(mat), old(mat).len() as int),
        version >= 2 ==> old(mat).len() >= 4 * version + 13,
    ensures
        is_square(*final(mat), old(mat).len() as int),
        forall|r: int, c: int|
            0 <= r < old(mat).len() && 0 <= c < old(mat).len() ==> #[trigger] final(mat)[r][c] == (
            old(mat)[r][c] || alignment_dark(version as int, r, c)),
{
    stamp_alignments(mat, version, false);
}

/// The function patterns of a version on a light ground: finder, timing and
/// alignment patterns and the dark module.
pub fn create_matrix_from_version(version: usize) -> (mat: Vec<Vec<bool>>)
    requires
        1 <= version <= 40,
    ensures
        is_square(mat, 17 + 4 * version),
        forall|r: int, c: int|
            0 <= r < 17 + 4 * version && 0 <= c < 17 + 4 * version ==> #[trigger] mat[r][c]
                == function_dark(version as int, r, c),
{
    let length = 17 + version * 4;
    let mut mat = blank(length);
    create_matrix_pattern(&mut mat);
    create_matrix_timing(&mut mat);
    create_matrix_black_module(&mut mat, version);
    create_matrix_alignments(&mut mat, version);
    mat
}

/// The modules of a version that are kept away from the data, dark on a
/// light ground: finder patterns with separators and format information,
/// timing patterns, the dark module, alignment patterns as full squares and,
/// from version 7 on, the blocks of version information.
pub fn non_available_matrix_from_version(version: usize) -> (mat: Vec<Vec<bool>>)
    requires
        1 <= version <= 40,
    ensures
        is_square(mat, 17 + 4 * version),
        forall|r: int, c: int|
            0 <= r < 17 + 4 * version && 0 <= c < 17 + 4 * version ==> #[trigger] mat[r][c]
                == reserved(version as int, r, c),
{
    let length = 17 + version * 4;
    let mut mat = blank(length);

    fill_rect(&mut mat, 0, 0, 9, 9);
    fill_rect(&mut mat, length - POSITION_SIZE - 1, 0, 8, 9);
    fill_rect(&mut mat, 0, length - POSITION_SIZE - 1, 9, 8);

    fill_rect(&mut mat, POSITION_SIZE - 1, POSITION_SIZE + 1, 1, length - 2 * POSITION_SIZE - 1);
    fill_rect(&mut mat, POSITION_SIZE + 1, POSITION_SIZE - 1, length - 2 * POSITION_SIZE - 1, 1);

    darken(&mut mat, 4 * version + 9, 8);

    stamp_alignments(&mut mat, version, true);

    if version < 7 {
        return mat;
    }
    fill_rect(&mut mat, 0, length - 11, 6, 3);
    fill_rect(&mut mat, length - 11, 0, 3, 6);
    mat
}

/// Whether `width` is the side of a symbol: 21, 25 and so on to 177.
pub open spec fn is_symbol_width(width: int) -> bool {
    21 <= width <= 177 && (width - 17) % 4 == 0
}

/// The side of the symbol that has `array_len` modules, or 0 where no symbol
/// has that many.
pub fn array_len_to_width(array_len: usize) -> (width: usize)
    ensures
        width != 0 ==> is_symbol_width(width as int) && width * width == array_len,
        width == 0 ==> forall|w: int| is_symbol_width(w) ==> w * w != array_len,
{
    let mut version: usize = 1;
    while version <= 40
        invariant
            1 <= version <= 41,
            forall|w: int| is_symbol_width(w) && w < 17 + 4 * version ==> w * w != array_len,
        decreases 41 - version,
    {
        let width = 17 + 4 * version;
        assert(width * width <= 177 * 177) by (nonlinear_arith)
            requires
                width <= 177,
        ;
        if width * width == array_len {
            return width;
        }
        assert forall|w: int| is_symbol_width(w) && w < 17 + 4 * (version + 1) implies w * w
            != array_len by {
            if w >= 17 + 4 * version {
                assert(w == width);
            }
        }
        version += 1;
    }
    0
}

/// Two modules of a square of side `width` that differ in row or column
/// stand at different places when the rows are laid end to end.
proof fn lemma_flat_index_distinct(width: int, r1: int, c1: int, r2: int, c2: int)
    requires
        0 <= c1 < width,
        0 <= c2 < width,
        0 <= r1,
        0 <= r2,
        r1 != r2 || c1 != c2,
    ensures
        r1 * width + c1 != r2 * width + c2,
{
    if r1 < r2 {
        assert(r1 * width + width <= r2 * width) by (nonlinear_arith)
            requires
                r1 + 1 <= r2,
                0 <= width,
        ;
    } else if r2 < r1 {
        assert(r2 * width + width <= r1 * width) by (nonlinear_arith)
            requires
                r2 + 1 <= r1,
                0 <= width,
        ;
    }
}

/// The rows of a square laid end to end.
fn flatten<const N: usize>(mat: &Vec<Vec<bool>>, width: usize) -> (flat: [bool; N])
    requires
        is_square(*mat, width as int),
        width * width == N,
    ensures
        forall|r: int, c: int|
            0 <= r < width && 0 <= c < width ==> flat[r * width + c] == #[trigger] mat[r][c],
{
    let mut flat = [false;N];
    let mut k: usize = 0;
    let mut r: usize = 0;
    while r < width
        invariant
            r <= width,
            k == r * width,
            width * width == N,
            is_square(*mat, width as int),
            forall|i: int, j: int|
                0 <= i < r && 0 <= j < width ==> flat[i * width + j] == #[trigger] mat[i][j],
        decreases width - r,
    {
        let mut c: usize = 0;
        while c < width
            invariant
                r < width,
                c <= width,
                k == r * width + c,
                width * width == N,
                is_square(*mat, width as int),
                forall|i: int, j: int|
                    0 <= i < width && 0 <= j < width && (i < r || (i == r && j < c)) ==> flat[i
                        * width + j] == #[trigger] mat[i][j],
            decreases width - c,
        {
            assert(r * width + width <= width * width) by (nonlinear_arith)
                requires
                    r + 1 <= width,
            ;
            let ghost before = flat;
            flat[k] = mat[r][c];
            proof {
                assert forall|i: int, j: int|
                    0 <= i < width && 0 <= j < width && (i < r || (i == r && j < c + 1)) implies flat[i
                    * width + j] == #[trigger] mat[i][j] by {
                    if i != r || j != c {
                        lemma_flat_index_distinct(width as int, i, j, r as int, c as int);
                        assert(0 <= i * width + j) by (nonlinear_arith)
                            requires
                                0 <= i,
                                0 <= j,
                                0 <= width,
                        ;
                        assert(i * width + j < N) by (nonlinear_arith)
                            requires
                                0 <= i < width,
                                0 <= j < width,
                                width * width == N,
                        ;
                        assert(flat[i * width + j] == before[i * width + j]);
                    }
                }
            }
            c += 1;
            k += 1;
        }
        assert(r * width + width == (r + 1) * width) by (nonlinear_arith);
        r += 1;
    }
    flat
}

/// The function patterns of the symbol that has `N` modules, row after row.
pub fn default_matrix<const N: usize>() -> (flat: [bool; N])
    requires
        exists|w: int| is_symbol_width(w) && w * w == N,
    ensures
        forall|w: int, r: int, c: int|
            is_symbol_width(w) && w * w == N && 0 <= r < w && 0 <= c < w ==> #[trigger] flat[r * w
                + c] == function_dark((w - 17) / 4, r, c),
{
    let length = array_len_to_width(N);
    let version = (length - 17) / 4;
    let mat = create_matrix_from_version(version);
    let flat = flatten::<N>(&mat, length);
    proof {
        assert forall|w: int, r: int, c: int|
            is_symbol_width(w) && w * w == N && 0 <= r < w && 0 <= c < w implies #[trigger] flat[r
            * w + c] == function_dark((w - 17) / 4, r, c) by {
            lemma_square_root_unique(w, length as int);
            assert(flat[r * length + c] == mat[r][c]);
        }
    }
    flat
}

/// The modules kept away from the data in the symbol that has `N` modules,
/// row after row.
pub fn default_full_matrix<const N: usize>() -> (flat: [bool; N])
    requires
        exists|w: int| is_symbol_width(w) && w * w == N,
    ensures
        forall|w: int, r: int, c: int|
            is_symbol_width(w) && w * w == N && 0 <= r < w && 0 <= c < w ==> #[trigger] flat[r * w
                + c] == reserved((w - 17) / 4, r, c),
{
    let length = array_len_to_width(N);
    let version = (length - 17) / 4;
    let mat = non_available_matrix_from_version(version);
    let flat = flatten::<N>(&mat, length);
    proof {
        assert forall|w: int, r: int, c: int|
            is_symbol_width(w) && w * w == N && 0 <= r < w && 0 <= c < w implies #[trigger] flat[r
            * w + c] == reserved((w - 17) / 4, r, c) by {
            lemma_square_root_unique(w, length as int);
            assert(flat[r * length + c] == mat[r][c]);
        }
    }
    flat
}

/// Two non-negative numbers with the same square are the same.
proof fn lemma_square_root_unique(a: int, b: int)
    requires
        0 <= a,
        0 <= b,
        a * a == b * b,
    ensures
        a == b,
{
    if a < b {
        assert(a * a < b * b) by (nonlinear_arith)
            requires
                0 <= a < b,
        ;
    } else if b < a {
        assert(b * b < a * a) by (nonlinear_arith)
            requires
                0 <= b < a,
        ;
    }
}

} // verus!
