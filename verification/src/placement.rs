//! The placement of the codewords in the modules that the function patterns
//! leave free.
use crate::bitstring::{bits_of, lemma_bits_of_index};
use crate::default::{is_square, non_available_matrix_from_version, reserved};
use crate::error::EncodeError;
use crate::layout::lemma_layout_consistent;
use crate::version::Version;
use vstd::arithmetic::div_mod::lemma_fundamental_div_mod_converse;
use vstd::arithmetic::power2::{lemma2_to64, pow2};
use vstd::prelude::*;

verus! {

/// Number of modules that the placement walks through: all but column 6.
pub open spec fn walk_len(size: int) -> int {
    size * (size - 1)
}

/// The module that the walk reaches at step `t`. The walk goes through
/// strips two columns wide, from the right edge leftwards, passing over
/// column 6; the first strip upwards from the bottom, the next downwards,
/// and so on; in each row of a strip the right module comes first.
pub open spec fn walk_cell(size: int, t: int) -> (int, int) {
    let strip = t / (2 * size);
    let within = t % (2 * size);
    let step = within / 2;
    let right = size - 1 - 2 * strip;
    let right = if right <= 6 { right - 1 } else { right };
    let row = if strip % 2 == 0 { size - 1 - step } else { step };
    (row, right - within % 2)
}

/// The step at which the walk reaches the module in row `r` and column
/// `c`, which is not column 6.
pub open spec fn walk_index(size: int, r: int, c: int) -> int {
    let from_right = size - 1 - (if c < 6 { c + 1 } else { c });
    let strip = from_right / 2;
    let step = if strip % 2 == 0 { size - 1 - r } else { r };
    strip * (2 * size) + 2 * step + from_right % 2
}

/// Number of free modules among the first `t` that the walk reaches.
pub open spec fn rank(version: int, t: nat) -> nat
    decreases t,
{
    if t == 0 {
        0
    } else {
        let cell = walk_cell(17 + 4 * version, t - 1);
        rank(version, (t - 1) as nat) + (if reserved(version, cell.0, cell.1) { 0nat } else { 1nat })
    }
}

/// Number of free modules among the first `c` of row `r`.
pub open spec fn free_in_row(version: int, r: int, c: nat) -> nat
    decreases c,
{
    if c == 0 {
        0
    } else {
        free_in_row(version, r, (c - 1) as nat) + (if reserved(version, r, c - 1) {
            0nat
        } else {
            1nat
        })
    }
}

/// Number of free modules in the first `r` rows.
pub open spec fn free_in_rows(version: int, r: nat) -> nat
    decreases r,
{
    if r == 0 {
        0
    } else {
        free_in_rows(version, (r - 1) as nat) + free_in_row(
            version,
            r - 1,
            (17 + 4 * version) as nat,
        )
    }
}

/// Number of modules of a symbol that are free for data.
pub open spec fn free_cells(version: int) -> nat {
    free_in_rows(version, (17 + 4 * version) as nat)
}

/// Bit `k` of the codewords, most significant bit of each first; light
/// beyond their end.
pub open spec fn bit_at(codewords: Seq<u8>, k: int) -> bool {
    0 <= k < 8 * codewords.len() && bits_of(codewords[k / 8] as nat, 8)[k % 8]
}

/// What the placement leaves in the free module in row `r` and column `c`:
/// the bit of the codewords whose number is that of the free modules that
/// the walk reaches before this one.
pub open spec fn placed_bit(version: int, codewords: Seq<u8>, r: int, c: int) -> bool {
    bit_at(codewords, rank(version, walk_index(17 + 4 * version, r, c) as nat) as int)
}

/// The walk reaches the module of a strip, a row step within it and a side
/// at the step that the three give, and `walk_index` finds that step back.
pub proof fn lemma_walk_cell(size: int, strip: int, step: int, side: int)
    requires
        size >= 21,
        size % 2 == 1,
        0 <= strip < (size - 1) / 2,
        0 <= step < size,
        0 <= side < 2,
    ensures
        ({
            let t = strip * (2 * size) + 2 * step + side;
            let right = size - 1 - 2 * strip;
            let right = if right <= 6 { right - 1 } else { right };
            let row = if strip % 2 == 0 { size - 1 - step } else { step };
            &&& 0 <= t < walk_len(size)
            &&& walk_cell(size, t) == (row, right - side)
            &&& walk_index(size, row, right - side) == t
            &&& 0 <= row < size
            &&& 0 <= right - side < size
            &&& right - side != 6
        }),
{
    let t = strip * (2 * size) + 2 * step + side;
    lemma_fundamental_div_mod_converse(t, 2 * size, strip, 2 * step + side);
    assert(0 <= strip * (2 * size)) by (nonlinear_arith)
        requires
            0 <= strip,
            0 <= size,
    ;
    let half = (size - 1) / 2;
    assert(strip * (2 * size) + 2 * size <= half * (2 * size)) by (nonlinear_arith)
        requires
            strip + 1 <= half,
            0 <= size,
    ;
    assert(half * (2 * size) == size * (size - 1)) by (nonlinear_arith)
        requires
            2 * half == size - 1,
    ;
}

/// Every module outside column 6 is reached by the walk, at the step that
/// `walk_index` gives.
pub proof fn lemma_walk_index(size: int, r: int, c: int)
    requires
        size >= 21,
        size % 2 == 1,
        0 <= r < size,
        0 <= c < size,
        c != 6,
    ensures
        0 <= walk_index(size, r, c) < walk_len(size),
        walk_cell(size, walk_index(size, r, c)) == (r, c),
{
    let from_right = size - 1 - (if c < 6 { c + 1 } else { c });
    let strip = from_right / 2;
    let step = if strip % 2 == 0 { size - 1 - r } else { r };
    lemma_walk_cell(size, strip, step, from_right % 2);
}

/// Column 6, which the walk passes over, is not free.
pub proof fn lemma_column_six_reserved(version: int, r: int)
    requires
        1 <= version <= 40,
        0 <= r < 17 + 4 * version,
    ensures
        reserved(version, r, 6),
{
}

/// Bit `k` of the codewords.
fn codeword_bit(codewords: &[u8], k: usize) -> (bit: bool)
    ensures
        bit == bit_at(codewords@, k as int),
{
    if k / 8 >= codewords.len() {
        return false;
    }
    let byte = codewords[k / 8];
    let place = k % 8;
    proof {
        lemma2_to64();
        lemma_bits_of_index(byte as nat, 8, place as int);
    }
    let weight: u8 = if place == 0 {
        128
    } else if place == 1 {
        64
    } else if place == 2 {
        32
    } else if place == 3 {
        16
    } else if place == 4 {
        8
    } else if place == 5 {
        4
    } else if place == 6 {
        2
    } else {
        1
    };
    assert(weight == pow2((7 - place) as nat));
    (byte / weight) % 2 == 1
}

/// Number of free modules of a symbol, from the matrix of its reserved
/// ones.
fn count_free(taken: &Vec<Vec<bool>>, version: Version) -> (count: usize)
    requires
        is_square(*taken, version.spec_size()),
        forall|r: int, c: int|
            0 <= r < version.spec_size() && 0 <= c < version.spec_size() ==> #[trigger] taken[r][c]
                == reserved(version.spec_number(), r, c),
    ensures
        count == free_cells(version.spec_number()),
        count <= version.spec_size() * version.spec_size(),
{
    let size = version.size();
    let ghost number = version.spec_number();
    let mut count: usize = 0;
    let mut r: usize = 0;
    while r < size
        invariant
            r <= size,
            size == version.spec_size(),
            size == 17 + 4 * number,
            21 <= size <= 177,
            is_square(*taken, size as int),
            forall|i: int, j: int|
                0 <= i < size && 0 <= j < size ==> #[trigger] taken[i][j] == reserved(number, i, j),
            count == free_in_rows(number, r as nat),
            count <= r * size,
        decreases size - r,
    {
        let mut c: usize = 0;
        let ghost base = count;
        assert(r * size + size <= 177 * 177) by (nonlinear_arith)
            requires
                r < size,
                size <= 177,
        ;
        while c < size
            invariant
                r < size,
                c <= size,
                size == 17 + 4 * number,
                21 <= size <= 177,
                is_square(*taken, size as int),
                forall|i: int, j: int|
                    0 <= i < size && 0 <= j < size ==> #[trigger] taken[i][j] == reserved(
                        number,
                        i,
                        j,
                    ),
                count == base + free_in_row(number, r as int, c as nat),
                count <= base + c,
                base + size <= 177 * 177,
            decreases size - c,
        {
            if !taken[r][c] {
                count += 1;
            }
            c += 1;
        }
        assert((r + 1) * size == r * size + size) by (nonlinear_arith);
        r += 1;
    }
    assert(count <= size * size);
    count
}

/// Places the bits of the codewords, most significant bit of each first, in
/// the free modules of the symbol, in the order in which the walk reaches
/// them; the remainder bits of the version follow as light modules. The
/// reserved modules stay as they are. The free modules are counted first:
/// where they are not as many as the bits of the codewords and the
/// remainder bits together, which is where the codewords are not as many as
/// the version holds, the placement is refused and the matrix left as it
/// was.
pub fn place_data(mat: &mut Vec<Vec<bool>>, version: Version, codewords: &[u8]) -> (r: Result<
    (),
    EncodeError,
>)
    requires
        is_square(*old(mat), version.spec_size()),
    ensures
        is_square(*final(mat), version.spec_size()),
        match r {
            Ok(()) => {
                &&& codewords.len() == version.spec_max_bytes()
                &&& forall|r: int, c: int|
                    0 <= r < version.spec_size() && 0 <= c < version.spec_size()
                        ==> #[trigger] final(mat)[r][c] == (if reserved(
                        version.spec_number(),
                        r,
                        c,
                    ) {
                        old(mat)[r][c]
                    } else {
                        placed_bit(version.spec_number(), codewords@, r, c)
                    })
            },
            Err(e) => {
                &&& e == EncodeError::InternalConsistency
                &&& codewords.len() != version.spec_max_bytes()
                &&& *final(mat) == *old(mat)
            },
        },
{
    let size = version.size();
    let ghost number = version.spec_number();
    let taken = non_available_matrix_from_version(version.number());
    let free = count_free(&taken, version);
    proof {
        lemma_layout_consistent(version);
    }
    assert(size * size <= 177 * 177) by (nonlinear_arith)
        requires
            size <= 177,
    ;
    if codewords.len() > 177 * 177 || free != 8 * codewords.len() + version.missing_bits() {
        return Err(EncodeError::InternalConsistency);
    }
    let strips = (size - 1) / 2;
    let mut k: usize = 0;
    let mut strip: usize = 0;
    while strip < strips
        invariant
            strip <= strips,
            strips == (size - 1) / 2,
            size == 17 + 4 * number,
            1 <= number <= 40,
            is_square(*mat, size as int),
            is_square(*old(mat), size as int),
            is_square(taken, size as int),
            forall|i: int, j: int|
                0 <= i < size && 0 <= j < size ==> #[trigger] taken[i][j] == reserved(number, i, j),
            k == rank(number, (strip * (2 * size)) as nat),
            k <= strip * (2 * size),
            forall|i: int, j: int|
                0 <= i < size && 0 <= j < size ==> #[trigger] mat[i][j] == (if !reserved(
                    number,
                    i,
                    j,
                ) && walk_index(size as int, i, j) < strip * (2 * size) {
                    placed_bit(number, codewords@, i, j)
                } else {
                    old(mat)[i][j]
                }),
        decreases strips - strip,
    {
        let edge = size - 1 - 2 * strip;
        let right = if edge <= 6 { edge - 1 } else { edge };
        let upward = strip % 2 == 0;
        let mut step: usize = 0;
        assert(strip * (2 * size) + 2 * size <= 177 * 176) by (nonlinear_arith)
            requires
                0 <= strip < strips,
                2 * strips == size - 1,
                21 <= size <= 177,
        ;
        while step < size
            invariant
                step <= size,
                strip < strips,
                strips == (size - 1) / 2,
                size == 17 + 4 * number,
                1 <= number <= 40,
                edge == size - 1 - 2 * strip,
                right == if edge <= 6 { edge - 1 } else { edge as int },
                upward == (strip % 2 == 0),
                strip * (2 * size) + 2 * size <= 177 * 176,
                0 <= strip * (2 * size),
                is_square(*mat, size as int),
                is_square(*old(mat), size as int),
                is_square(taken, size as int),
                forall|i: int, j: int|
                    0 <= i < size && 0 <= j < size ==> #[trigger] taken[i][j] == reserved(
                        number,
                        i,
                        j,
                    ),
                k == rank(number, (strip * (2 * size) + 2 * step) as nat),
                k <= strip * (2 * size) + 2 * step,
                forall|i: int, j: int|
                    0 <= i < size && 0 <= j < size ==> #[trigger] mat[i][j] == (if !reserved(
                        number,
                        i,
                        j,
                    ) && walk_index(size as int, i, j) < strip * (2 * size) + 2 * step {
                        placed_bit(number, codewords@, i, j)
                    } else {
                        old(mat)[i][j]
                    }),
            decreases size - step,
        {
            let y = if upward { size - 1 - step } else { step };
            let mut side: usize = 0;
            while side < 2
                invariant
                    side <= 2,
                    step < size,
                    strip < strips,
                    strips == (size - 1) / 2,
                    size == 17 + 4 * number,
                    1 <= number <= 40,
                    edge == size - 1 - 2 * strip,
                    right == if edge <= 6 { edge - 1 } else { edge as int },
                    upward == (strip % 2 == 0),
                    y == if upward { size - 1 - step } else { step as int },
                    strip * (2 * size) + 2 * size <= 177 * 176,
                    0 <= strip * (2 * size),
                    is_square(*mat, size as int),
                    is_square(*old(mat), size as int),
                    is_square(taken, size as int),
                    forall|i: int, j: int|
                        0 <= i < size && 0 <= j < size ==> #[trigger] taken[i][j] == reserved(
                            number,
                            i,
                            j,
                        ),
                    k == rank(number, (strip * (2 * size) + 2 * step + side) as nat),
                    k <= strip * (2 * size) + 2 * step + side,
                    forall|i: int, j: int|
                        0 <= i < size && 0 <= j < size ==> #[trigger] mat[i][j] == (if !reserved(
                            number,
                            i,
                            j,
                        ) && walk_index(size as int, i, j) < strip * (2 * size) + 2 * step + side {
                            placed_bit(number, codewords@, i, j)
                        } else {
                            old(mat)[i][j]
                        }),
                decreases 2 - side,
            {
                let ghost t = strip * (2 * size) + 2 * step + side;
                let x = right - side;
                proof {
                    lemma_walk_cell(size as int, strip as int, step as int, side as int);
                }
                let ghost before = *mat;
                if !taken[y][x] {
                    let bit = codeword_bit(codewords, k);
                    set_module(mat, y, x, bit);
                    k += 1;
                }
                proof {
                    assert forall|i: int, j: int| 0 <= i < size && 0 <= j < size implies #[trigger] mat[i][j]
                        == (if !reserved(number, i, j) && walk_index(size as int, i, j) < t + 1 {
                        placed_bit(number, codewords@, i, j)
                    } else {
                        old(mat)[i][j]
                    }) by {
                        if !reserved(number, i, j) {
                            lemma_column_six_reserved(number, i);
                            lemma_walk_index(size as int, i, j);
                        }
                    }
                }
                side += 1;
            }
            step += 1;
        }
        assert((strip + 1) * (2 * size) == strip * (2 * size) + 2 * size) by (nonlinear_arith);
        strip += 1;
    }
    proof {
        assert(strips * (2 * size) == size * (size - 1)) by (nonlinear_arith)
            requires
                2 * strips == size - 1,
        ;
        assert forall|i: int, j: int| 0 <= i < size && 0 <= j < size implies #[trigger] mat[i][j]
            == (if reserved(number, i, j) {
            old(mat)[i][j]
        } else {
            placed_bit(number, codewords@, i, j)
        }) by {
            if !reserved(number, i, j) {
                lemma_column_six_reserved(number, i);
                lemma_walk_index(size as int, i, j);
            }
        }
    }
    Ok(())
}

/// Sets one module.
pub fn set_module(mat: &mut Vec<Vec<bool>>, r: usize, c: usize, dark: bool)
    requires
        is_square(*old(mat), old(mat).len() as int),
        r < old(mat).len(),
        c < old(mat).len(),
    ensures
        is_square(*final(mat), old(mat).len() as int),
        forall|i: int, j: int|
            0 <= i < old(mat).len() && 0 <= j < old(mat).len() ==> #[trigger] final(mat)[i][j] == (
            if i == r && j == c {
                dark
            } else {
                old(mat)[i][j]
            }),
{
    let ghost before = *mat;
    mat[r][c] = dark;
    proof {
        assert forall|i: int| 0 <= i < before.len() implies (#[trigger] mat[i]).len()
            == before.len() by {
            assert(before[i].len() == before.len());
        }
        assert forall|i: int, j: int| 0 <= i < before.len() && 0 <= j < before.len() implies
            #[trigger] mat[i][j] == (if i == r && j == c {
            dark
        } else {
            before[i][j]
        }) by {
            assert(before[i].len() == before.len());
        }
    }
}

} // verus!
