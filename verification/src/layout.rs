//! The count of the modules that are free for data: every version has as
//! many as the bits of its codewords and its remainder bits together.
use crate::arith::lemma_mul_sum;
use crate::default::{alignment_area, alignment_cell, alignment_pair, reserved};
use crate::placement::{free_cells, free_in_row, free_in_rows};
use crate::version::{alignment_grid, Version, MAX_BYTES, MISSING_BITS};
use vstd::prelude::*;

verus! {

/// Number of free modules of row `r` in the columns from `c0` up to, not
/// including, `c1`.
pub open spec fn row_free(version: int, r: int, c0: int, c1: int) -> int {
    free_in_row(version, r, c1 as nat) - free_in_row(version, r, c0 as nat)
}

/// Number of free modules in the rows from `r0` up to `r1` and the columns
/// from `c0` up to `c1`, the upper bounds not included.
pub open spec fn region_free(version: int, r0: int, r1: int, c0: int, c1: int) -> int
    decreases r1 - r0,
{
    if r1 <= r0 {
        0
    } else {
        region_free(version, r0, r1 - 1, c0, c1) + row_free(version, r1 - 1, c0, c1)
    }
}

/// A region split between two columns.
pub proof fn lemma_split_columns(version: int, r0: int, r1: int, c0: int, c1: int, c2: int)
    requires
        0 <= c0 <= c1 <= c2,
    ensures
        region_free(version, r0, r1, c0, c2) == region_free(version, r0, r1, c0, c1) + region_free(
            version,
            r0,
            r1,
            c1,
            c2,
        ),
    decreases r1 - r0,
{
    if r1 > r0 {
        lemma_split_columns(version, r0, r1 - 1, c0, c1, c2);
    }
}

/// A region split between two rows.
pub proof fn lemma_split_rows(version: int, r0: int, r1: int, r2: int, c0: int, c1: int)
    requires
        r0 <= r1 <= r2,
    ensures
        region_free(version, r0, r2, c0, c1) == region_free(version, r0, r1, c0, c1) + region_free(
            version,
            r1,
            r2,
            c0,
            c1,
        ),
    decreases r2 - r1,
{
    if r2 > r1 {
        lemma_split_rows(version, r0, r1, r2 - 1, c0, c1);
    }
}

/// A stretch of a row whose modules are all free, or all reserved.
pub proof fn lemma_uniform_row(version: int, r: int, c0: int, c1: int, free: bool)
    requires
        0 <= c0 <= c1,
        forall|c: int| c0 <= c < c1 ==> #[trigger] reserved(version, r, c) == !free,
    ensures
        row_free(version, r, c0, c1) == if free { c1 - c0 } else { 0 },
    decreases c1 - c0,
{
    if c1 > c0 {
        lemma_uniform_row(version, r, c0, c1 - 1, free);
        assert(reserved(version, r, c1 - 1) == !free);
    }
}

/// A region whose modules are all free, or all reserved.
pub proof fn lemma_uniform_region(version: int, r0: int, r1: int, c0: int, c1: int, free: bool)
    requires
        r0 <= r1,
        0 <= c0 <= c1,
        forall|r: int, c: int|
            r0 <= r < r1 && c0 <= c < c1 ==> #[trigger] reserved(version, r, c) == !free,
    ensures
        region_free(version, r0, r1, c0, c1) == if free { (r1 - r0) * (c1 - c0) } else { 0 },
    decreases r1 - r0,
{
    let width = c1 - c0;
    if r1 > r0 {
        lemma_uniform_region(version, r0, r1 - 1, c0, c1, free);
        lemma_uniform_row(version, r1 - 1, c0, c1, free);
        assert((r1 - r0) * width == (r1 - 1 - r0) * width + width) by (nonlinear_arith);
    } else {
        assert((r1 - r0) * width == 0) by (nonlinear_arith)
            requires
                r1 == r0,
        ;
    }
}

/// A region of `rows` rows and `columns` columns whose modules are all
/// free, or all reserved.
pub proof fn lemma_uniform_block(
    version: int,
    r0: int,
    rows: int,
    c0: int,
    columns: int,
    free: bool,
)
    requires
        0 <= rows,
        0 <= c0,
        0 <= columns,
        forall|r: int, c: int|
            r0 <= r < r0 + rows && c0 <= c < c0 + columns ==> #[trigger] reserved(version, r, c)
                == !free,
    ensures
        region_free(version, r0, r0 + rows, c0, c0 + columns) == if free {
            rows * columns
        } else {
            0
        },
{
    lemma_uniform_region(version, r0, r0 + rows, c0, c0 + columns, free);
}

/// The free modules of the first rows of a symbol are those of the region
/// that the rows make.
pub proof fn lemma_rows_are_region(version: int, rows: nat)
    requires
        17 + 4 * version >= 0,
    ensures
        free_in_rows(version, rows) == region_free(version, 0, rows as int, 0, 17 + 4 * version),
    decreases rows,
{
    if rows > 0 {
        lemma_rows_are_region(version, (rows - 1) as nat);
    }
}

/// Whether the alignment pattern at coordinate `j` of the version reaches
/// the row or column `x`.
pub open spec fn square_covers(version: int, j: int, x: int) -> bool {
    alignment_grid(version)[j] - 2 <= x <= alignment_grid(version)[j] + 2
}

/// Whether one of the alignment patterns at the coordinates from `ja` up
/// to, not including, `jb` reaches the row or column `x`.
pub open spec fn in_squares(version: int, ja: int, jb: int, x: int) -> bool {
    exists|j: int| ja <= j < jb && #[trigger] square_covers(version, j, x)
}

/// The alignment coordinates of a version: none in version 1, at least two
/// in the others; the first is 6, the last is 7 from the far edge, and each
/// is at least 12 above the one before it.
pub proof fn lemma_grid_shape(version: int)
    requires
        1 <= version <= 40,
    ensures
        ({
            let grid = alignment_grid(version);
            let count = grid.len();
            &&& count <= 7
            &&& version == 1 <==> count == 0
            &&& version >= 2 ==> count >= 2 && grid[0] == 6 && grid[count - 1] == 4 * version + 10
            &&& version >= 7 <==> count >= 3
            &&& version >= 2 ==> count == version / 7 + 2
            &&& forall|j: int| 0 <= j < count - 1 ==> #[trigger] grid[j] + 12 <= grid[j + 1]
        }),
{
}

/// The alignment coordinates grow by at least 12 from one to the next.
pub proof fn lemma_grid_spacing(version: int, a: int, b: int)
    requires
        1 <= version <= 40,
        0 <= a <= b < alignment_grid(version).len(),
    ensures
        alignment_grid(version)[a] + 12 * (b - a) <= alignment_grid(version)[b],
    decreases b - a,
{
    lemma_grid_shape(version);
    if a < b {
        lemma_grid_spacing(version, a, b - 1);
        let grid = alignment_grid(version);
        assert(grid[b - 1] + 12 <= grid[b - 1 + 1]);
    }
}

/// A stretch of rows across a row of alignment patterns, from the left
/// edge of the first to the right edge of the last, where a module is
/// reserved exactly if a pattern reaches its column: the free modules are
/// those between the patterns.
#[verifier::rlimit(50)]
pub proof fn lemma_columns_chain(version: int, r0: int, r1: int, ja: int, jb: int)
    requires
        1 <= version <= 40,
        r0 <= r1,
        0 <= ja < jb <= alignment_grid(version).len(),
        forall|r: int, c: int|
            r0 <= r < r1 && alignment_grid(version)[ja] - 2 <= c < alignment_grid(version)[jb - 1]
                + 3 ==> #[trigger] reserved(version, r, c) == in_squares(version, ja, jb, c),
    ensures
        region_free(
            version,
            r0,
            r1,
            alignment_grid(version)[ja] - 2,
            alignment_grid(version)[jb - 1] + 3,
        ) == (r1 - r0) * (alignment_grid(version)[jb - 1] - alignment_grid(version)[ja] + 5 - 5 * (
        jb - ja)),
    decreases jb - ja,
{
    let grid = alignment_grid(version);
    let left = grid[ja] - 2;
    let last = grid[jb - 1];
    lemma_grid_shape(version);
    lemma_grid_spacing(version, 0, ja);
    assert forall|r: int, c: int| r0 <= r < r1 && last - 2 <= c < last + 3 implies #[trigger] reserved(
        version,
        r,
        c,
    ) == true by {
        lemma_grid_spacing(version, ja, jb - 1);
        assert(square_covers(version, jb - 1, c));
    }
    lemma_uniform_region(version, r0, r1, last - 2, last + 3, false);
    if jb - ja == 1 {
        lemma_mul_sum(r1 - r0, 0, 0);
    } else {
        let before = grid[jb - 2];
        lemma_grid_spacing(version, jb - 2, jb - 1);
        lemma_grid_spacing(version, ja, jb - 2);
        assert forall|r: int, c: int| r0 <= r < r1 && left <= c < before + 3 implies #[trigger] reserved(
            version,
            r,
            c,
        ) == in_squares(version, ja, jb - 1, c) by {
            if in_squares(version, ja, jb, c) {
                let j = choose|j: int| ja <= j < jb && #[trigger] square_covers(version, j, c);
                assert(j < jb - 1);
                assert(square_covers(version, j, c));
            }
            if in_squares(version, ja, jb - 1, c) {
                let j = choose|j: int| ja <= j < jb - 1 && #[trigger] square_covers(version, j, c);
                assert(square_covers(version, j, c));
            }
        }
        lemma_columns_chain(version, r0, r1, ja, jb - 1);
        assert forall|r: int, c: int| r0 <= r < r1 && before + 3 <= c < last - 2 implies #[trigger] reserved(
            version,
            r,
            c,
        ) == false by {
            if in_squares(version, ja, jb, c) {
                let j = choose|j: int| ja <= j < jb && #[trigger] square_covers(version, j, c);
                if j < jb - 1 {
                    lemma_grid_spacing(version, j, jb - 2);
                }
            }
        }
        lemma_uniform_region(version, r0, r1, before + 3, last - 2, true);
        lemma_split_columns(version, r0, r1, left, before + 3, last - 2);
        lemma_split_columns(version, r0, r1, left, last - 2, last + 3);
        lemma_mul_sum(r1 - r0, before - grid[ja] + 5 - 5 * (jb - 1 - ja), last - 2 - (before + 3));
    }
}

/// The free modules of the five rows of the alignment patterns at
/// coordinate `i`, in the columns from `c0` up to `c1`.
pub open spec fn band_free(version: int, i: int, c0: int, c1: int) -> int {
    region_free(
        version,
        alignment_grid(version)[i] - 2,
        alignment_grid(version)[i] + 3,
        c0,
        c1,
    )
}

/// A stretch of columns down a column of alignment patterns, from the top
/// edge of the first to the bottom edge of the last, where the rows of each
/// pattern have `band_row_free` free modules each and the rows between the
/// patterns are free.
#[verifier::rlimit(50)]
pub proof fn lemma_rows_chain(
    version: int,
    c0: int,
    c1: int,
    ia: int,
    ib: int,
    band_row_free: int,
)
    requires
        1 <= version <= 40,
        0 <= c0 <= c1,
        0 <= ia < ib <= alignment_grid(version).len(),
        forall|i: int| ia <= i < ib ==> #[trigger] band_free(version, i, c0, c1) == 5 * band_row_free,
        forall|r: int, c: int|
            alignment_grid(version)[ia] - 2 <= r < alignment_grid(version)[ib - 1] + 3 && c0 <= c
                < c1 && !in_squares(version, ia, ib, r) ==> !#[trigger] reserved(version, r, c),
    ensures
        region_free(
            version,
            alignment_grid(version)[ia] - 2,
            alignment_grid(version)[ib - 1] + 3,
            c0,
            c1,
        ) == 5 * (ib - ia) * band_row_free + (alignment_grid(version)[ib - 1] - alignment_grid(
            version,
        )[ia] + 5 - 5 * (ib - ia)) * (c1 - c0),
    decreases ib - ia,
{
    let grid = alignment_grid(version);
    let top = grid[ia] - 2;
    let last = grid[ib - 1];
    let width = c1 - c0;
    lemma_grid_shape(version);
    lemma_grid_spacing(version, 0, ia);
    assert(band_free(version, ib - 1, c0, c1) == 5 * band_row_free);
    if ib - ia == 1 {
        lemma_mul_sum(width, 0, 0);
        assert(5 * (ib - ia) * band_row_free == 5 * band_row_free) by (nonlinear_arith)
            requires
                ib - ia == 1,
        ;
    } else {
        let before = grid[ib - 2];
        lemma_grid_spacing(version, ib - 2, ib - 1);
        lemma_grid_spacing(version, ia, ib - 2);
        assert forall|r: int, c: int|
            top <= r < before + 3 && c0 <= c < c1 && !in_squares(
                version,
                ia,
                ib - 1,
                r,
            ) implies !#[trigger] reserved(version, r, c) by {
            if in_squares(version, ia, ib, r) {
                let i = choose|i: int| ia <= i < ib && #[trigger] square_covers(version, i, r);
                assert(i < ib - 1);
                assert(square_covers(version, i, r));
            }
        }
        assert forall|i: int| ia <= i < ib - 1 implies #[trigger] band_free(version, i, c0, c1) == 5
            * band_row_free by {}
        lemma_rows_chain(version, c0, c1, ia, ib - 1, band_row_free);
        assert forall|r: int, c: int| before + 3 <= r < last - 2 && c0 <= c < c1 implies #[trigger] reserved(
            version,
            r,
            c,
        ) == false by {
            if in_squares(version, ia, ib, r) {
                let i = choose|i: int| ia <= i < ib && #[trigger] square_covers(version, i, r);
                if i < ib - 1 {
                    lemma_grid_spacing(version, i, ib - 2);
                }
            }
        }
        lemma_uniform_region(version, before + 3, last - 2, c0, c1, true);
        lemma_split_rows(version, top, before + 3, last - 2, c0, c1);
        lemma_split_rows(version, top, last - 2, last + 3, c0, c1);
        let gaps = before - grid[ia] + 5 - 5 * (ib - 1 - ia);
        let gap = last - 2 - (before + 3);
        lemma_mul_sum(width, gaps, gap);
        assert(5 * (ib - 1 - ia) * band_row_free + 5 * band_row_free == 5 * (ib - ia)
            * band_row_free) by (nonlinear_arith);
    }
}

/// A module in an alignment pattern: the pattern's pair of coordinates.
pub proof fn lemma_area_witness(version: int, r: int, c: int) -> (pair: (int, int))
    requires
        alignment_area(version, r, c),
    ensures
        alignment_pair(alignment_grid(version).len() as int, pair.0, pair.1),
        square_covers(version, pair.0, r),
        square_covers(version, pair.1, c),
{
    let grid = alignment_grid(version);
    let (i, j) = choose|i: int, j: int|
        #![trigger alignment_pair(grid.len() as int, i, j)]
        alignment_pair(grid.len() as int, i, j) && alignment_cell(true, r - grid[i], c - grid[j]);
    (i, j)
}

/// A module that the pattern of a pair of coordinates reaches is in an
/// alignment pattern, and so reserved.
pub proof fn lemma_area_from(version: int, i: int, j: int, r: int, c: int)
    requires
        alignment_pair(alignment_grid(version).len() as int, i, j),
        square_covers(version, i, r),
        square_covers(version, j, c),
    ensures
        alignment_area(version, r, c),
        reserved(version, r, c),
{
    let grid = alignment_grid(version);
    assert(alignment_pair(grid.len() as int, i, j) && alignment_cell(
        true,
        r - grid[i],
        c - grid[j],
    ));
}

/// Which alignment coordinate reaches a row or column: near the near edge
/// the first, near the far edge the last, and between them neither.
pub proof fn lemma_cover_index(version: int, j: int, x: int)
    requires
        1 <= version <= 40,
        0 <= j < alignment_grid(version).len(),
        square_covers(version, j, x),
    ensures
        4 <= x <= 4 * version + 12,
        x <= 15 ==> j == 0 && x <= 8,
        x >= 4 * version + 1 ==> j == alignment_grid(version).len() - 1 && x >= 4 * version + 8,
        9 <= x <= 4 * version + 7 ==> 1 <= j <= alignment_grid(version).len() - 2,
{
    let count = alignment_grid(version).len() as int;
    lemma_grid_shape(version);
    lemma_grid_spacing(version, 0, j);
    lemma_grid_spacing(version, j, count - 1);
}

/// The corner of the top left finder pattern has no free module.
pub proof fn lemma_block_top_left(version: int)
    requires
        1 <= version <= 40,
    ensures
        region_free(version, 0, 9, 0, 9) == 0,
{
    lemma_uniform_region(version, 0, 9, 0, 9, false);
}

/// Free modules in the corner of the top right finder pattern.
pub open spec fn side_free(version: int) -> int {
    if version >= 7 {
        6
    } else {
        24
    }
}

/// The corner of the top right finder pattern: free are the three columns
/// before the pattern, but for the timing pattern and, from version 7 on,
/// the version information.
pub proof fn lemma_block_top_right(version: int)
    requires
        1 <= version <= 40,
    ensures
        region_free(version, 0, 9, 4 * version + 6, 4 * version + 17) == side_free(version),
{
    let size = 17 + 4 * version;
    lemma_uniform_region(version, 0, 9, size - 8, size, false);
    lemma_uniform_region(version, 6, 7, size - 11, size - 8, false);
    assert forall|r: int, c: int|
        ((0 <= r < 6) || (7 <= r < 9)) && size - 11 <= c < size - 8 implies #[trigger] reserved(
        version,
        r,
        c,
    ) == (version >= 7 && r < 6) by {
        if alignment_area(version, r, c) {
            let (a, b) = lemma_area_witness(version, r, c);
            lemma_cover_index(version, a, r);
            lemma_cover_index(version, b, c);
        }
    }
    lemma_uniform_region(version, 0, 6, size - 11, size - 8, version < 7);
    lemma_uniform_region(version, 7, 9, size - 11, size - 8, true);
    lemma_split_rows(version, 0, 6, 7, size - 11, size - 8);
    lemma_split_rows(version, 0, 7, 9, size - 11, size - 8);
    lemma_split_columns(version, 0, 9, size - 11, size - 8, size);
}

/// The corner of the bottom left finder pattern: free are the three rows
/// above the pattern, but for the timing pattern and, from version 7 on,
/// the version information.
pub proof fn lemma_block_bottom_left(version: int)
    requires
        1 <= version <= 40,
    ensures
        region_free(version, 4 * version + 6, 4 * version + 17, 0, 9) == side_free(version),
{
    let size = 17 + 4 * version;
    lemma_uniform_region(version, size - 8, size, 0, 9, false);
    lemma_uniform_region(version, size - 11, size - 8, 6, 7, false);
    assert forall|r: int, c: int|
        size - 11 <= r < size - 8 && ((0 <= c < 6) || (7 <= c < 9)) implies #[trigger] reserved(
        version,
        r,
        c,
    ) == (version >= 7 && c < 6) by {
        if alignment_area(version, r, c) {
            let (a, b) = lemma_area_witness(version, r, c);
            lemma_cover_index(version, a, r);
            lemma_cover_index(version, b, c);
        }
    }
    lemma_uniform_region(version, size - 11, size - 8, 0, 6, version < 7);
    lemma_uniform_region(version, size - 11, size - 8, 7, 9, true);
    lemma_split_columns(version, size - 11, size - 8, 0, 6, 7);
    lemma_split_columns(version, size - 11, size - 8, 0, 7, 9);
    lemma_split_rows(version, size - 11, size - 8, size, 0, 9);
}

/// Free modules in the bottom right corner.
pub open spec fn corner_free(version: int) -> int {
    if version >= 2 {
        96
    } else {
        121
    }
}

/// The bottom right corner: free but for the alignment pattern that every
/// version above 1 has there.
pub proof fn lemma_block_bottom_right(version: int)
    requires
        1 <= version <= 40,
    ensures
        region_free(version, 4 * version + 6, 4 * version + 17, 4 * version + 6, 4 * version + 17)
            == corner_free(version),
{
    let size = 17 + 4 * version;
    let last = alignment_grid(version).len() - 1;
    lemma_grid_shape(version);
    assert forall|r: int, c: int|
        size - 11 <= r < size && size - 11 <= c < size implies #[trigger] reserved(version, r, c)
        == (version >= 2 && size - 9 <= r < size - 4 && size - 9 <= c < size - 4) by {
        if alignment_area(version, r, c) {
            let (a, b) = lemma_area_witness(version, r, c);
            lemma_cover_index(version, a, r);
            lemma_cover_index(version, b, c);
        }
        if version >= 2 && size - 9 <= r < size - 4 && size - 9 <= c < size - 4 {
            lemma_area_from(version, last, last, r, c);
        }
    }
    if version >= 2 {
        lemma_uniform_block(version, size - 11, 2, size - 11, 11, true);
        lemma_uniform_block(version, size - 9, 5, size - 11, 2, true);
        lemma_uniform_block(version, size - 9, 5, size - 9, 5, false);
        lemma_uniform_block(version, size - 9, 5, size - 4, 4, true);
        lemma_uniform_block(version, size - 4, 4, size - 11, 11, true);
        lemma_split_columns(version, size - 9, size - 4, size - 11, size - 9, size - 4);
        lemma_split_columns(version, size - 9, size - 4, size - 11, size - 4, size);
        lemma_split_rows(version, size - 11, size - 9, size - 4, size - 11, size);
        lemma_split_rows(version, size - 11, size - 4, size, size - 11, size);
    } else {
        lemma_uniform_block(version, size - 11, 11, size - 11, 11, true);
    }
}

/// Number of alignment coordinates between the first and the last.
pub open spec fn inner_squares(version: int) -> int {
    let count = alignment_grid(version).len() as int;
    if count >= 2 {
        count - 2
    } else {
        0
    }
}

/// Rows that no alignment pattern reaches, but row 6, between the columns
/// of the finder patterns: all free.
pub proof fn lemma_free_rows(version: int, r0: int, rows: int)
    requires
        1 <= version <= 40,
        0 <= r0,
        0 <= rows,
        r0 + rows <= 17 + 4 * version,
        r0 > 6 || r0 + rows <= 6,
        forall|r: int|
            r0 <= r < r0 + rows ==> !#[trigger] in_squares(
                version,
                0,
                alignment_grid(version).len() as int,
                r,
            ),
    ensures
        region_free(version, r0, r0 + rows, 9, 4 * version + 6) == rows * (4 * version - 3),
{
    let size = 17 + 4 * version;
    let count = alignment_grid(version).len() as int;
    assert forall|r: int, c: int| r0 <= r < r0 + rows && 9 <= c < size - 11 implies #[trigger] reserved(
        version,
        r,
        c,
    ) == false by {
        if alignment_area(version, r, c) {
            let (a, b) = lemma_area_witness(version, r, c);
            assert(square_covers(version, a, r));
            assert(in_squares(version, 0, count, r));
        }
    }
    lemma_uniform_region(version, r0, r0 + rows, 9, size - 11, true);
}

/// Columns that no alignment pattern reaches, but column 6, between the
/// rows of the finder patterns: all free.
pub proof fn lemma_free_columns(version: int, c0: int, columns: int)
    requires
        1 <= version <= 40,
        0 <= c0,
        0 <= columns,
        c0 + columns <= 17 + 4 * version,
        c0 > 6 || c0 + columns <= 6,
        forall|c: int|
            c0 <= c < c0 + columns ==> !#[trigger] in_squares(
                version,
                0,
                alignment_grid(version).len() as int,
                c,
            ),
    ensures
        region_free(version, 9, 4 * version + 6, c0, c0 + columns) == (4 * version - 3) * columns,
{
    let size = 17 + 4 * version;
    let count = alignment_grid(version).len() as int;
    assert forall|r: int, c: int| 9 <= r < size - 11 && c0 <= c < c0 + columns implies #[trigger] reserved(
        version,
        r,
        c,
    ) == false by {
        if alignment_area(version, r, c) {
            let (a, b) = lemma_area_witness(version, r, c);
            assert(square_covers(version, b, c));
            assert(in_squares(version, 0, count, c));
        }
    }
    lemma_uniform_region(version, 9, size - 11, c0, c0 + columns, true);
}

/// Rows of the alignment patterns at coordinate `i`, between the columns
/// of the finder patterns: in each row the modules are free but those of
/// the patterns at the inner coordinates.
pub proof fn lemma_band_rows(version: int, i: int, r0: int, rows: int)
    requires
        1 <= version <= 40,
        0 <= i < alignment_grid(version).len(),
        0 <= rows,
        alignment_grid(version)[i] - 2 <= r0,
        r0 + rows <= alignment_grid(version)[i] + 3,
        r0 > 6 || r0 + rows <= 6,
    ensures
        region_free(version, r0, r0 + rows, 9, 4 * version + 6) == rows * (4 * version - 3 - 5
            * inner_squares(version)),
{
    let size = 17 + 4 * version;
    let grid = alignment_grid(version);
    let count = grid.len() as int;
    let inner = inner_squares(version);
    lemma_grid_shape(version);
    if inner == 0 {
        assert forall|r: int, c: int| r0 <= r < r0 + rows && 9 <= c < size - 11 implies #[trigger] reserved(
            version,
            r,
            c,
        ) == false by {
            if alignment_area(version, r, c) {
                let (a, b) = lemma_area_witness(version, r, c);
                lemma_cover_index(version, b, c);
            }
        }
        lemma_uniform_region(version, r0, r0 + rows, 9, size - 11, true);
    } else {
        let left = grid[1] - 2;
        let right = grid[count - 2] + 3;
        lemma_grid_spacing(version, 0, 1);
        lemma_grid_spacing(version, 1, count - 2);
        lemma_grid_spacing(version, count - 2, count - 1);
        assert forall|r: int, c: int|
            r0 <= r < r0 + rows && 9 <= c < size - 11 implies #[trigger] reserved(version, r, c)
            == in_squares(version, 1, count - 1, c) by {
            if alignment_area(version, r, c) {
                let (a, b) = lemma_area_witness(version, r, c);
                lemma_cover_index(version, b, c);
                assert(square_covers(version, b, c));
            }
            if in_squares(version, 1, count - 1, c) {
                let j = choose|j: int| 1 <= j < count - 1 && #[trigger] square_covers(version, j, c);
                assert(square_covers(version, i, r));
                lemma_area_from(version, i, j, r, c);
            }
        }
        assert forall|r: int, c: int|
            r0 <= r < r0 + rows && ((9 <= c < left) || (right <= c < size - 11)) implies #[trigger] reserved(
            version,
            r,
            c,
        ) == false by {
            if in_squares(version, 1, count - 1, c) {
                let j = choose|j: int| 1 <= j < count - 1 && #[trigger] square_covers(version, j, c);
                lemma_grid_spacing(version, 1, j);
                lemma_grid_spacing(version, j, count - 2);
            }
        }
        lemma_uniform_region(version, r0, r0 + rows, 9, left, true);
        lemma_uniform_region(version, r0, r0 + rows, right, size - 11, true);
        lemma_columns_chain(version, r0, r0 + rows, 1, count - 1);
        lemma_split_columns(version, r0, r0 + rows, 9, left, right);
        lemma_split_columns(version, r0, r0 + rows, 9, right, size - 11);
        lemma_mul_sum(rows, left - 9, grid[count - 2] - grid[1] + 5 - 5 * (count - 1 - 1));
        lemma_mul_sum(rows, left - 9 + (grid[count - 2] - grid[1] + 5 - 5 * (count - 1 - 1)), size - 11 - right);
    }
}

/// Columns of the alignment patterns at coordinate `j`, between the rows
/// of the finder patterns: in each column the modules are free but those
/// of the patterns at the inner coordinates.
pub proof fn lemma_band_columns(version: int, j: int, c0: int, columns: int)
    requires
        1 <= version <= 40,
        0 <= j < alignment_grid(version).len(),
        0 <= columns,
        0 <= c0,
        alignment_grid(version)[j] - 2 <= c0,
        c0 + columns <= alignment_grid(version)[j] + 3,
        c0 > 6 || c0 + columns <= 6,
    ensures
        region_free(version, 9, 4 * version + 6, c0, c0 + columns) == (4 * version - 3 - 5
            * inner_squares(version)) * columns,
{
    let size = 17 + 4 * version;
    let grid = alignment_grid(version);
    let count = grid.len() as int;
    let inner = inner_squares(version);
    lemma_grid_shape(version);
    if inner == 0 {
        assert forall|r: int, c: int| 9 <= r < size - 11 && c0 <= c < c0 + columns implies #[trigger] reserved(
            version,
            r,
            c,
        ) == false by {
            if alignment_area(version, r, c) {
                let (a, b) = lemma_area_witness(version, r, c);
                lemma_cover_index(version, a, r);
            }
        }
        lemma_uniform_region(version, 9, size - 11, c0, c0 + columns, true);
    } else {
        let top = grid[1] - 2;
        let bottom = grid[count - 2] + 3;
        lemma_grid_spacing(version, 0, 1);
        lemma_grid_spacing(version, 1, count - 2);
        lemma_grid_spacing(version, count - 2, count - 1);
        assert forall|r: int, c: int|
            9 <= r < size - 11 && c0 <= c < c0 + columns implies #[trigger] reserved(version, r, c)
            == in_squares(version, 1, count - 1, r) by {
            if alignment_area(version, r, c) {
                let (a, b) = lemma_area_witness(version, r, c);
                lemma_cover_index(version, a, r);
                assert(square_covers(version, a, r));
            }
            if in_squares(version, 1, count - 1, r) {
                let i = choose|i: int| 1 <= i < count - 1 && #[trigger] square_covers(version, i, r);
                assert(square_covers(version, j, c));
                lemma_area_from(version, i, j, r, c);
            }
        }
        assert forall|i: int| 1 <= i < count - 1 implies #[trigger] band_free(
            version,
            i,
            c0,
            c0 + columns,
        ) == 5 * 0 by {
            lemma_grid_spacing(version, 1, i);
            lemma_grid_spacing(version, i, count - 2);
            assert forall|r: int, c: int|
                grid[i] - 2 <= r < grid[i] + 3 && c0 <= c < c0 + columns implies #[trigger] reserved(
                version,
                r,
                c,
            ) == true by {
                assert(square_covers(version, i, r));
            }
            lemma_uniform_region(version, grid[i] - 2, grid[i] + 3, c0, c0 + columns, false);
        }
        assert forall|r: int, c: int|
            ((9 <= r < top) || (bottom <= r < size - 11)) && c0 <= c < c0 + columns implies #[trigger] reserved(
            version,
            r,
            c,
        ) == false by {
            if in_squares(version, 1, count - 1, r) {
                let i = choose|i: int| 1 <= i < count - 1 && #[trigger] square_covers(version, i, r);
                lemma_grid_spacing(version, 1, i);
                lemma_grid_spacing(version, i, count - 2);
            }
        }
        lemma_uniform_region(version, 9, top, c0, c0 + columns, true);
        lemma_uniform_region(version, bottom, size - 11, c0, c0 + columns, true);
        lemma_rows_chain(version, c0, c0 + columns, 1, count - 1, 0);
        lemma_split_rows(version, 9, top, bottom, c0, c0 + columns);
        lemma_split_rows(version, 9, bottom, size - 11, c0, c0 + columns);
        lemma_mul_sum(columns, top - 9, grid[count - 2] - grid[1] + 5 - 5 * (count - 1 - 1));
        lemma_mul_sum(columns, top - 9 + (grid[count - 2] - grid[1] + 5 - 5 * (count - 1 - 1)), size - 11 - bottom);
        lemma_mul_sum(0, 5 * (count - 1 - 1), 0);
    }
}

/// No alignment pattern reaches the first four or the last four rows and
/// columns of a symbol, nor the two before the last nine.
proof fn lemma_outside_squares(version: int, x: int)
    requires
        1 <= version <= 40,
        x < 4 || 4 * version + 6 <= x < 4 * version + 8 || 4 * version + 13 <= x,
    ensures
        !in_squares(version, 0, alignment_grid(version).len() as int, x),
{
    let count = alignment_grid(version).len() as int;
    if in_squares(version, 0, count, x) {
        let j = choose|j: int| 0 <= j < count && #[trigger] square_covers(version, j, x);
        lemma_cover_index(version, j, x);
    }
}

/// Rows 4, 5, 7 and 8 and the five rows from the ninth last on, between
/// the columns of the finder patterns: free but for the alignment
/// patterns at the inner coordinates.
proof fn lemma_edge_rows(version: int, r0: int, rows: int)
    requires
        1 <= version <= 40,
        0 <= rows,
        (4 <= r0 && r0 + rows <= 6) || (7 <= r0 && r0 + rows <= 9) || (4 * version + 8 <= r0 && r0
            + rows <= 4 * version + 13),
    ensures
        region_free(version, r0, r0 + rows, 9, 4 * version + 6) == rows * (4 * version - 3 - 5
            * inner_squares(version)),
{
    let count = alignment_grid(version).len() as int;
    lemma_grid_shape(version);
    if count == 0 {
        assert forall|r: int| r0 <= r < r0 + rows implies !#[trigger] in_squares(
            version,
            0,
            count,
            r,
        ) by {}
        lemma_free_rows(version, r0, rows);
    } else if r0 <= 9 {
        lemma_band_rows(version, 0, r0, rows);
    } else {
        lemma_band_rows(version, count - 1, r0, rows);
    }
}

/// Columns 4, 5, 7 and 8 and the five columns from the ninth last on,
/// between the rows of the finder patterns: free but for the alignment
/// patterns at the inner coordinates.
proof fn lemma_edge_columns(version: int, c0: int, columns: int)
    requires
        1 <= version <= 40,
        0 <= columns,
        (4 <= c0 && c0 + columns <= 6) || (7 <= c0 && c0 + columns <= 9) || (4 * version + 8 <= c0
            && c0 + columns <= 4 * version + 13),
    ensures
        region_free(version, 9, 4 * version + 6, c0, c0 + columns) == (4 * version - 3 - 5
            * inner_squares(version)) * columns,
{
    let count = alignment_grid(version).len() as int;
    lemma_grid_shape(version);
    if count == 0 {
        assert forall|c: int| c0 <= c < c0 + columns implies !#[trigger] in_squares(
            version,
            0,
            count,
            c,
        ) by {}
        lemma_free_columns(version, c0, columns);
    } else if c0 <= 9 {
        lemma_band_columns(version, 0, c0, columns);
    } else {
        lemma_band_columns(version, count - 1, c0, columns);
    }
}

/// The strip between the two upper finder patterns.
pub proof fn lemma_block_top(version: int)
    requires
        1 <= version <= 40,
    ensures
        region_free(version, 0, 9, 9, 4 * version + 6) == 8 * (4 * version - 3) - 20
            * inner_squares(version),
{
    let size = 17 + 4 * version;
    let width = 4 * version - 3;
    let count = alignment_grid(version).len() as int;
    assert forall|r: int| 0 <= r < 4 implies !#[trigger] in_squares(version, 0, count, r) by {
        lemma_outside_squares(version, r);
    }
    lemma_free_rows(version, 0, 4);
    lemma_edge_rows(version, 4, 2);
    lemma_uniform_block(version, 6, 1, 9, width, false);
    lemma_edge_rows(version, 7, 2);
    lemma_split_rows(version, 0, 4, 6, 9, size - 11);
    lemma_split_rows(version, 0, 6, 7, 9, size - 11);
    lemma_split_rows(version, 0, 7, 9, 9, size - 11);
}

/// The strip below the columns between the finder patterns.
pub proof fn lemma_block_bottom(version: int)
    requires
        1 <= version <= 40,
    ensures
        region_free(version, 4 * version + 6, 4 * version + 17, 9, 4 * version + 6) == 11 * (4
            * version - 3) - 25 * inner_squares(version),
{
    let size = 17 + 4 * version;
    let count = alignment_grid(version).len() as int;
    assert forall|r: int|
        size - 11 <= r < size - 9 || size - 4 <= r < size implies !#[trigger] in_squares(
        version,
        0,
        count,
        r,
    ) by {
        lemma_outside_squares(version, r);
    }
    lemma_free_rows(version, size - 11, 2);
    lemma_edge_rows(version, size - 9, 5);
    lemma_free_rows(version, size - 4, 4);
    lemma_split_rows(version, size - 11, size - 9, size - 4, 9, size - 11);
    lemma_split_rows(version, size - 11, size - 4, size, 9, size - 11);
}

/// The strip between the two left finder patterns.
pub proof fn lemma_block_left(version: int)
    requires
        1 <= version <= 40,
    ensures
        region_free(version, 9, 4 * version + 6, 0, 9) == 8 * (4 * version - 3) - 20
            * inner_squares(version),
{
    let size = 17 + 4 * version;
    let height = 4 * version - 3;
    let inner = inner_squares(version);
    let count = alignment_grid(version).len() as int;
    assert forall|c: int| 0 <= c < 4 implies !#[trigger] in_squares(version, 0, count, c) by {
        lemma_outside_squares(version, c);
    }
    lemma_free_columns(version, 0, 4);
    lemma_edge_columns(version, 4, 2);
    lemma_uniform_region(version, 9, size - 11, 6, 7, false);
    lemma_edge_columns(version, 7, 2);
    lemma_split_columns(version, 9, size - 11, 0, 4, 6);
    lemma_split_columns(version, 9, size - 11, 0, 6, 7);
    lemma_split_columns(version, 9, size - 11, 0, 7, 9);
    assert((height - 5 * inner) * 2 == 2 * height - 10 * inner);
    assert(height * 4 == 4 * height);
}

/// The strip right of the rows between the finder patterns.
pub proof fn lemma_block_right(version: int)
    requires
        1 <= version <= 40,
    ensures
        region_free(version, 9, 4 * version + 6, 4 * version + 6, 4 * version + 17) == 11 * (4
            * version - 3) - 25 * inner_squares(version),
{
    let size = 17 + 4 * version;
    let height = 4 * version - 3;
    let inner = inner_squares(version);
    let count = alignment_grid(version).len() as int;
    assert forall|c: int|
        size - 11 <= c < size - 9 || size - 4 <= c < size implies !#[trigger] in_squares(
        version,
        0,
        count,
        c,
    ) by {
        lemma_outside_squares(version, c);
    }
    lemma_free_columns(version, size - 11, 2);
    lemma_edge_columns(version, size - 9, 5);
    lemma_free_columns(version, size - 4, 4);
    lemma_split_columns(version, 9, size - 11, size - 11, size - 9, size - 4);
    lemma_split_columns(version, 9, size - 11, size - 11, size - 4, size);
    assert((height - 5 * inner) * 5 == 5 * height - 25 * inner);
    assert(height * 2 == 2 * height);
    assert(height * 4 == 4 * height);
}

/// The middle of the symbol, between the rows and the columns of the
/// finder patterns: free but for the alignment patterns at the pairs of
/// inner coordinates.
pub proof fn lemma_block_middle(version: int)
    requires
        1 <= version <= 40,
    ensures
        region_free(version, 9, 4 * version + 6, 9, 4 * version + 6) == (4 * version - 3) * (4
            * version - 3) - 25 * inner_squares(version) * inner_squares(version),
{
    let size = 17 + 4 * version;
    let width = 4 * version - 3;
    let grid = alignment_grid(version);
    let count = grid.len() as int;
    let inner = inner_squares(version);
    lemma_grid_shape(version);
    if inner == 0 {
        assert forall|r: int| 9 <= r < 9 + width implies !#[trigger] in_squares(
            version,
            0,
            count,
            r,
        ) by {
            if in_squares(version, 0, count, r) {
                let j = choose|j: int| 0 <= j < count && #[trigger] square_covers(version, j, r);
                lemma_cover_index(version, j, r);
            }
        }
        lemma_free_rows(version, 9, width);
        lemma_mul_sum(inner, 0, 0);
    } else {
        let top = grid[1] - 2;
        let bottom = grid[count - 2] + 3;
        let band = width - 5 * inner;
        lemma_grid_spacing(version, 0, 1);
        lemma_grid_spacing(version, 1, count - 2);
        lemma_grid_spacing(version, count - 2, count - 1);
        assert forall|r: int|
            (9 <= r < top) || (bottom <= r < size - 11) implies !#[trigger] in_squares(
            version,
            0,
            count,
            r,
        ) by {
            if in_squares(version, 0, count, r) {
                let j = choose|j: int| 0 <= j < count && #[trigger] square_covers(version, j, r);
                lemma_cover_index(version, j, r);
                lemma_grid_spacing(version, 1, j);
                lemma_grid_spacing(version, j, count - 2);
            }
        }
        lemma_free_rows(version, 9, top - 9);
        lemma_free_rows(version, bottom, size - 11 - bottom);
        assert forall|i: int| 1 <= i < count - 1 implies #[trigger] band_free(
            version,
            i,
            9,
            size - 11,
        ) == 5 * band by {
            lemma_grid_spacing(version, 1, i);
            lemma_band_rows(version, i, grid[i] - 2, 5);
        }
        assert forall|r: int, c: int|
            top <= r < bottom && 9 <= c < size - 11 && !in_squares(
                version,
                1,
                count - 1,
                r,
            ) implies !#[trigger] reserved(version, r, c) by {
            if alignment_area(version, r, c) {
                let (a, b) = lemma_area_witness(version, r, c);
                lemma_cover_index(version, a, r);
                assert(square_covers(version, a, r));
            }
        }
        lemma_rows_chain(version, 9, size - 11, 1, count - 1, band);
        lemma_split_rows(version, 9, top, bottom, 9, size - 11);
        lemma_split_rows(version, 9, bottom, size - 11, 9, size - 11);
        let upper = region_free(version, 9, top, 9, size - 11);
        let chain = region_free(version, top, bottom, 9, size - 11);
        let lower = region_free(version, bottom, size - 11, 9, size - 11);
        let gaps = grid[count - 2] - grid[1] + 5 - 5 * inner;
        assert(upper == (top - 9) * width);
        assert(lower == (size - 11 - bottom) * width);
        assert(chain == 5 * inner * band + gaps * width);
        assert(upper + chain + lower == width * width - 25 * inner * inner) by (nonlinear_arith)
            requires
                upper == (top - 9) * width,
                lower == (size - 11 - bottom) * width,
                chain == 5 * inner * band + gaps * width,
                band == width - 5 * inner,
                (top - 9) + gaps + (size - 11 - bottom) == width - 5 * inner,
        ;
    }
}

/// Number of free modules of a version, counted region by region.
pub open spec fn free_by_regions(version: int) -> int {
    let width = 4 * version - 3;
    let inner = inner_squares(version);
    width * width - 25 * inner * inner + 2 * (8 * width - 20 * inner) + 2 * (11 * width - 25
        * inner) + 2 * side_free(version) + corner_free(version)
}

/// The free modules of a symbol are those of its nine regions: the
/// corners, the strips between them and the middle.
pub proof fn lemma_free_by_regions(version: int)
    requires
        1 <= version <= 40,
    ensures
        free_cells(version) == free_by_regions(version),
{
    let size = 17 + 4 * version;
    let a = 9;
    let b = size - 11;
    lemma_rows_are_region(version, size as nat);
    lemma_block_top_left(version);
    lemma_block_top(version);
    lemma_block_top_right(version);
    lemma_block_left(version);
    lemma_block_middle(version);
    lemma_block_right(version);
    lemma_block_bottom_left(version);
    lemma_block_bottom(version);
    lemma_block_bottom_right(version);
    lemma_split_rows(version, 0, a, b, 0, size);
    lemma_split_rows(version, 0, b, size, 0, size);
    lemma_split_columns(version, 0, a, 0, a, b);
    lemma_split_columns(version, 0, a, 0, b, size);
    lemma_split_columns(version, a, b, 0, a, b);
    lemma_split_columns(version, a, b, 0, b, size);
    lemma_split_columns(version, b, size, 0, a, b);
    lemma_split_columns(version, b, size, 0, b, size);
}

/// The square of a number from 0 to 5.
pub open spec fn small_square(x: int) -> int {
    if x == 0 {
        0
    } else if x == 1 {
        1
    } else if x == 2 {
        4
    } else if x == 3 {
        9
    } else if x == 4 {
        16
    } else {
        25
    }
}

/// Whether the count by regions of version `i + 1`, of which `square` is
/// the square of `4 * (i + 1) - 3`, is the number of bits of its codewords
/// and its remainder bits together.
pub open spec fn layout_entry_sound(i: int, square: int) -> bool {
    let version = i + 1;
    let width = 4 * version - 3;
    let inner = version / 7;
    square - 25 * small_square(inner) + 38 * width - 90 * inner + 2 * side_free(version)
        + corner_free(version) == 8 * MAX_BYTES[i] + MISSING_BITS[i]
}

/// Whether the counts of the first `n` versions are sound, `square` being
/// the square of `4 * n - 3`.
pub open spec fn layout_entries_sound(n: nat, square: int) -> bool
    decreases n,
{
    n == 0 || (layout_entry_sound(n - 1, square) && layout_entries_sound(
        (n - 1) as nat,
        square - 8 * (4 * n - 3) + 16,
    ))
}

/// Counts that are sound together are sound each.
proof fn lemma_layout_entries_sound(n: nat, i: int)
    requires
        layout_entries_sound(n, (4 * n - 3) * (4 * n - 3)),
        0 <= i < n,
    ensures
        layout_entry_sound(i, (4 * (i + 1) - 3) * (4 * (i + 1) - 3)),
    decreases n,
{
    if i < n - 1 {
        assert((4 * n - 3) * (4 * n - 3) - 8 * (4 * n - 3) + 16 == (4 * (n - 1) - 3) * (4 * (n - 1)
            - 3)) by (nonlinear_arith);
        lemma_layout_entries_sound((n - 1) as nat, i);
    }
}

/// Every version has as many free modules as the bits of its codewords and
/// its remainder bits together: whatever the codewords are, they fill the
/// symbol exactly.
#[verifier::rlimit(50)]
pub proof fn lemma_layout_consistent(version: Version)
    ensures
        free_cells(version.spec_number()) == 8 * version.spec_max_bytes()
            + version.spec_missing_bits(),
{
    let number = version.spec_number();
    let inner = inner_squares(number);
    lemma_free_by_regions(number);
    lemma_grid_shape(number);
    assert(inner == number / 7);
    assert(inner * inner == small_square(inner)) by (nonlinear_arith)
        requires
            0 <= inner <= 5,
    ;
    assert(layout_entries_sound(40, 24649)) by {
        reveal_with_fuel(layout_entries_sound, 41);
    }
    assert((4 * 40nat - 3) * (4 * 40nat - 3) == 24649) by (nonlinear_arith);
    lemma_layout_entries_sound(40, number - 1);
    assert(25 * inner * inner == 25 * small_square(inner)) by (nonlinear_arith)
        requires
            inner * inner == small_square(inner),
    ;
}

} // verus!
