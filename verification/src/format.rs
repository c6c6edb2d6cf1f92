//! The format information, which tells a reader the error correction level
//! and the mask pattern, and the version information of the larger symbols.
use crate::default::{grid, is_square};
use crate::placement::set_module;
use crate::vecl::ECL;
use crate::version::Version;
use vstd::prelude::*;

verus! {

/// One step of the division by the generator x¹⁰ + x⁸ + x⁵ + x⁴ + x² + x + 1
/// of the format information's code.
pub open spec fn bch_step(rem: u32) -> u32 {
    (rem << 1) ^ (if rem & 0x200 != 0 { 0x537u32 } else { 0u32 })
}

/// The remainder after `steps` steps of that division, from `value`.
pub open spec fn bch_remainder(value: u32, steps: nat) -> u32
    decreases steps,
{
    if steps == 0 {
        value
    } else {
        bch_step(bch_remainder(value, (steps - 1) as nat))
    }
}

/// The fifteen bits of the format information for a level and a mask
/// pattern: two bits for the level and three for the pattern, the ten bits
/// of their remainder, and the whole masked with 101010000010010.
pub open spec fn format_word(ecl: ECL, pattern: u8) -> u32 {
    let data = ((ecl.spec_format_bits() as u32) << 3) | (pattern as u32);
    ((data << 10) | bch_remainder(data, 10)) ^ 0x5412
}

/// Bit `i` of `word`, the least significant being bit 0.
pub open spec fn word_bit(word: u32, i: u32) -> bool {
    (word >> i) & 1 == 1
}

/// Which bit of the format information the module in row `r` and column
/// `c` of a symbol of side `size` shows, or -1 if it shows none. The
/// information stands twice: around the top left finder pattern, and split
/// between the two others.
pub open spec fn format_bit_index(size: int, r: int, c: int) -> int {
    if c == 8 && 0 <= r <= 5 {
        r
    } else if c == 8 && r == 7 {
        6
    } else if c == 8 && r == 8 {
        7
    } else if r == 8 && c == 7 {
        8
    } else if r == 8 && 0 <= c <= 5 {
        14 - c
    } else if r == 8 && size - 8 <= c < size {
        size - 1 - c
    } else if c == 8 && size - 7 <= r < size {
        r - (size - 15)
    } else {
        -1
    }
}

/// Which bit of the version information the module in row `r` and column
/// `c` of a symbol of side `size` shows, or -1 if it shows none. The
/// information stands twice, in a block of six by three modules beside the
/// top right finder pattern and in one of three by six beside the bottom
/// left one.
pub open spec fn version_bit_index(size: int, r: int, c: int) -> int {
    if 0 <= r < 6 && size - 11 <= c < size - 8 {
        3 * r + (c - (size - 11))
    } else if 0 <= c < 6 && size - 11 <= r < size - 8 {
        3 * c + (r - (size - 11))
    } else {
        -1
    }
}

/// The symbol with its format information and, from version 7 on, its
/// version information written in; the other modules stay.
pub open spec fn with_information(
    modules: Seq<Seq<bool>>,
    version: Version,
    ecl: ECL,
    pattern: u8,
) -> Seq<Seq<bool>> {
    let size = version.spec_size();
    Seq::new(
        size as nat,
        |r: int|
            Seq::new(
                size as nat,
                |c: int|
                    if format_bit_index(size, r, c) >= 0 {
                        word_bit(format_word(ecl, pattern), format_bit_index(size, r, c) as u32)
                    } else if version.spec_number() >= 7 && version_bit_index(size, r, c) >= 0 {
                        word_bit(
                            version.spec_information() as u32,
                            version_bit_index(size, r, c) as u32,
                        )
                    } else {
                        modules[r][c]
                    },
            ),
    )
}

/// The fifteen bits of the format information for a level and a mask
/// pattern.
pub fn format_information(ecl: ECL, pattern: u8) -> (word: u32)
    requires
        pattern < 8,
    ensures
        word == format_word(ecl, pattern),
{
    let data: u32 = ((ecl.format_bits() as u32) << 3) | (pattern as u32);
    let mut rem: u32 = data;
    let mut i: usize = 0;
    while i < 10
        invariant
            i <= 10,
            rem == bch_remainder(data, i as nat),
        decreases 10 - i,
    {
        let step: u32 = if rem & 0x200 != 0 { 0x537 } else { 0 };
        rem = (rem << 1) ^ step;
        i += 1;
    }
    ((data << 10) | rem) ^ 0x5412
}

/// Writes bit `i` of the format information into its two modules.
fn write_format_bit(mat: &mut Vec<Vec<bool>>, size: usize, i: usize, dark: bool)
    requires
        21 <= size <= 177,
        i < 15,
        is_square(*old(mat), size as int),
    ensures
        is_square(*final(mat), size as int),
        forall|r: int, c: int|
            0 <= r < size && 0 <= c < size ==> #[trigger] final(mat)[r][c] == (
            if format_bit_index(size as int, r, c) == i {
                dark
            } else {
                old(mat)[r][c]
            }),
{
    if i <= 5 {
        set_module(mat, i, 8, dark);
    } else if i == 6 {
        set_module(mat, 7, 8, dark);
    } else if i == 7 {
        set_module(mat, 8, 8, dark);
    } else if i == 8 {
        set_module(mat, 8, 7, dark);
    } else {
        set_module(mat, 8, 14 - i, dark);
    }
    if i <= 7 {
        set_module(mat, 8, size - 1 - i, dark);
    } else {
        set_module(mat, size - 15 + i, 8, dark);
    }
}

/// Writes bit `i` of the version information into its two modules.
fn write_version_bit(mat: &mut Vec<Vec<bool>>, size: usize, i: usize, dark: bool)
    requires
        21 <= size <= 177,
        i < 18,
        is_square(*old(mat), size as int),
    ensures
        is_square(*final(mat), size as int),
        forall|r: int, c: int|
            0 <= r < size && 0 <= c < size ==> #[trigger] final(mat)[r][c] == (
            if version_bit_index(size as int, r, c) == i {
                dark
            } else {
                old(mat)[r][c]
            }),
{
    let a = size - 11 + i % 3;
    let b = i / 3;
    set_module(mat, b, a, dark);
    set_module(mat, a, b, dark);
}

/// Writes the format information for the level and the mask pattern into
/// the symbol, twice, and from version 7 on the version information, twice
/// too. The other modules stay.
pub fn write_information(mat: &mut Vec<Vec<bool>>, version: Version, ecl: ECL, pattern: u8)
    requires
        pattern < 8,
        is_square(*old(mat), version.spec_size()),
    ensures
        is_square(*final(mat), version.spec_size()),
        grid(*final(mat)) == with_information(grid(*old(mat)), version, ecl, pattern),
{
    let size = version.size();
    let word = format_information(ecl, pattern);
    let mut i: usize = 0;
    while i < 15
        invariant
            i <= 15,
            size == version.spec_size(),
            21 <= size <= 177,
            is_square(*mat, size as int),
            is_square(*old(mat), size as int),
            forall|r: int, c: int|
                0 <= r < size && 0 <= c < size ==> #[trigger] mat[r][c] == (if 0
                    <= format_bit_index(size as int, r, c) < i {
                    word_bit(word, format_bit_index(size as int, r, c) as u32)
                } else {
                    old(mat)[r][c]
                }),
        decreases 15 - i,
    {
        let dark = (word >> (i as u32)) & 1 == 1;
        write_format_bit(mat, size, i, dark);
        i += 1;
    }
    let ghost formatted = *mat;
    if version.number() >= 7 {
        let information = version.information();
        let mut i: usize = 0;
        while i < 18
            invariant
                i <= 18,
                size == version.spec_size(),
                21 <= size <= 177,
                is_square(*mat, size as int),
                is_square(formatted, size as int),
                information == version.spec_information(),
                forall|r: int, c: int|
                    0 <= r < size && 0 <= c < size ==> #[trigger] mat[r][c] == (if 0
                        <= version_bit_index(size as int, r, c) < i {
                        word_bit(information, version_bit_index(size as int, r, c) as u32)
                    } else {
                        formatted[r][c]
                    }),
            decreases 18 - i,
        {
            let dark = (information >> (i as u32)) & 1 == 1;
            write_version_bit(mat, size, i, dark);
            i += 1;
        }
    }
    proof {
        let goal = with_information(grid(*old(mat)), version, ecl, pattern);
        assert forall|r: int| 0 <= r < size implies #[trigger] grid(*mat)[r] == goal[r] by {
            assert forall|c: int| 0 <= c < size implies grid(*mat)[r][c] == goal[r][c] by {
                assert(mat[r][c] == goal[r][c]);
            }
            assert(grid(*mat)[r] =~= goal[r]);
        }
        assert(grid(*mat) =~= goal);
    }
}

} // verus!
