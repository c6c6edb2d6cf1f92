//! The eight mask patterns, which flip free modules to break up shapes that
//! mislead a reader.
use crate::default::{grid, is_square, non_available_matrix_from_version, reserved};
use crate::version::Version;
use vstd::prelude::*;

verus! {

/// Whether mask pattern `pattern`, from 0 to 7, flips the module in row `r`
/// and column `c`, if it is free.
pub open spec fn mask_bit(pattern: int, r: int, c: int) -> bool {
    if pattern == 0 {
        (r + c) % 2 == 0
    } else if pattern == 1 {
        r % 2 == 0
    } else if pattern == 2 {
        c % 3 == 0
    } else if pattern == 3 {
        (r + c) % 3 == 0
    } else if pattern == 4 {
        (r / 2 + c / 3) % 2 == 0
    } else if pattern == 5 {
        (r * c) % 2 + (r * c) % 3 == 0
    } else if pattern == 6 {
        ((r * c) % 2 + (r * c) % 3) % 2 == 0
    } else {
        ((r + c) % 2 + (r * c) % 3) % 2 == 0
    }
}

/// The symbol `modules` of the version under mask pattern `pattern`: the
/// free modules that the pattern picks are flipped.
pub open spec fn masked(modules: Seq<Seq<bool>>, version: int, pattern: int) -> Seq<Seq<bool>> {
    Seq::new(
        modules.len(),
        |r: int|
            Seq::new(
                modules.len(),
                |c: int| modules[r][c] != (mask_bit(pattern, r, c) && !reserved(version, r, c)),
            ),
    )
}

/// Whether mask pattern `pattern` flips the module in row `r` and column
/// `c`, if it is free.
pub fn mask_at(pattern: u8, r: usize, c: usize) -> (flip: bool)
    requires
        pattern < 8,
        r < 0x8000,
        c < 0x8000,
    ensures
        flip == mask_bit(pattern as int, r as int, c as int),
{
    assert(r * c < 0x8000 * 0x8000) by (nonlinear_arith)
        requires
            r < 0x8000,
            c < 0x8000,
    ;
    match pattern {
        0 => (r + c) % 2 == 0,
        1 => r % 2 == 0,
        2 => c % 3 == 0,
        3 => (r + c) % 3 == 0,
        4 => (r / 2 + c / 3) % 2 == 0,
        5 => (r * c) % 2 + (r * c) % 3 == 0,
        6 => ((r * c) % 2 + (r * c) % 3) % 2 == 0,
        _ => ((r + c) % 2 + (r * c) % 3) % 2 == 0,
    }
}

/// A copy of the symbol under a mask pattern, from the matrix of its
/// reserved modules.
pub(crate) fn masked_copy(
    mat: &Vec<Vec<bool>>,
    taken: &Vec<Vec<bool>>,
    version: Version,
    pattern: u8,
) -> (out: Vec<Vec<bool>>)
    requires
        pattern < 8,
        is_square(*mat, version.spec_size()),
        is_square(*taken, version.spec_size()),
        forall|r: int, c: int|
            0 <= r < version.spec_size() && 0 <= c < version.spec_size() ==> #[trigger] taken[r][c]
                == reserved(version.spec_number(), r, c),
    ensures
        is_square(out, version.spec_size()),
        grid(out) == masked(grid(*mat), version.spec_number(), pattern as int),
{
    let size = version.size();
    let ghost number = version.spec_number();
    let ghost goal = masked(grid(*mat), number, pattern as int);
    let mut out: Vec<Vec<bool>> = Vec::new();
    let mut r: usize = 0;
    while r < size
        invariant
            r <= size,
            pattern < 8,
            size == version.spec_size(),
            21 <= size <= 177,
            number == version.spec_number(),
            goal == masked(grid(*mat), number, pattern as int),
            is_square(*mat, size as int),
            is_square(*taken, size as int),
            forall|i: int, j: int|
                0 <= i < size && 0 <= j < size ==> #[trigger] taken[i][j] == reserved(number, i, j),
            out.len() == r,
            forall|i: int| 0 <= i < r ==> (#[trigger] out[i])@ == goal[i],
        decreases size - r,
    {
        let mut row: Vec<bool> = Vec::new();
        let mut c: usize = 0;
        while c < size
            invariant
                r < size,
                c <= size,
                pattern < 8,
                size == version.spec_size(),
                21 <= size <= 177,
                number == version.spec_number(),
                goal == masked(grid(*mat), number, pattern as int),
                is_square(*mat, size as int),
                is_square(*taken, size as int),
                forall|i: int, j: int|
                    0 <= i < size && 0 <= j < size ==> #[trigger] taken[i][j] == reserved(
                        number,
                        i,
                        j,
                    ),
                row.len() == c,
                forall|j: int| 0 <= j < c ==> row[j] == goal[r as int][j],
            decreases size - c,
        {
            let flip = mask_at(pattern, r, c) && !taken[r][c];
            row.push(mat[r][c] != flip);
            c += 1;
        }
        assert(row@ =~= goal[r as int]);
        out.push(row);
        r += 1;
    }
    assert(grid(out) =~= goal);
    out
}

/// Puts the symbol under a mask pattern: the free modules that the pattern
/// picks are flipped, the reserved ones stay.
pub fn apply_mask(mat: &mut Vec<Vec<bool>>, version: Version, pattern: u8)
    requires
        pattern < 8,
        is_square(*old(mat), version.spec_size()),
    ensures
        is_square(*final(mat), version.spec_size()),
        grid(*final(mat)) == masked(grid(*old(mat)), version.spec_number(), pattern as int),
{
    let taken = non_available_matrix_from_version(version.number());
    let out = masked_copy(mat, &taken, version, pattern);
    *mat = out;
}

} // verus!
