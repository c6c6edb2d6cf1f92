//! The encoder: from bytes, an error correction level and perhaps a version
//! to the finished symbol.
use crate::bitstring::{bytes_of, lemma_bits_of_len, padded};
use crate::correction::{
    block_count, data_capacity, data_codewords, ec_per_block, error_correction, interleaved,
    lemma_block_table, BLOCK_COUNT, EC_CODEWORDS_PER_BLOCK,
};
use crate::datamasking::{apply_mask, masked, masked_copy};
use crate::default::{
    create_matrix_from_version, function_dark, grid, is_square, non_available_matrix_from_version,
    reserved,
};
use crate::encode::{
    best_mode, choose_mode, count_bits, encode_segment, lemma_modes_nest, payload_bits,
    payload_len, segment_bits, Mode,
};
use crate::error::EncodeError;
use crate::format::{format_bit_index, version_bit_index, with_information, write_information};
use crate::placement::{place_data, placed_bit};
use crate::score::{penalty, score};
use crate::vecl::ECL;
use crate::version::{Version, CAPACITY, MAX_BYTES};
use vstd::arithmetic::power2::{lemma2_to64, pow2};
use vstd::prelude::*;

verus! {

/// A finished symbol: a square of modules, each dark or light, and each
/// either reserved for the function patterns and the information or free
/// for data.
pub struct Matrix {
    /// The version of the symbol, which gives its size.
    pub version: Version,
    /// The mask pattern that was applied, from 0 to 7.
    pub mask: u8,
    /// The modules, row after row from the top, each row from the left:
    /// `true` where dark.
    pub modules: Vec<Vec<bool>>,
    /// For each module, whether it is reserved: `false` where it holds
    /// data.
    pub reserved: Vec<Vec<bool>>,
}

impl Matrix {
    /// The modules form a square of the side of the version, the mask
    /// pattern is one of the eight, and the reserved modules are those that
    /// the version reserves.
    pub open spec fn wf(&self) -> bool {
        &&& self.mask < 8
        &&& is_square(self.modules, self.version.spec_size())
        &&& is_square(self.reserved, self.version.spec_size())
        &&& forall|r: int, c: int|
            0 <= r < self.version.spec_size() && 0 <= c < self.version.spec_size()
                ==> #[trigger] self.reserved[r][c] == reserved(self.version.spec_number(), r, c)
    }

    /// Number of modules along one side.
    pub fn size(&self) -> (n: usize)
        requires
            self.wf(),
        ensures
            n == self.version.spec_size(),
            n == self.modules.len(),
    {
        self.modules.len()
    }

    /// Whether the module in row `r` and column `c` is dark.
    pub fn get(&self, r: usize, c: usize) -> (dark: bool)
        requires
            self.wf(),
            r < self.version.spec_size(),
            c < self.version.spec_size(),
        ensures
            dark == self.modules[r as int][c as int],
    {
        self.modules[r][c]
    }

    /// Whether the module in row `r` and column `c` is reserved for a
    /// function pattern or for information, and so holds no data.
    pub fn is_reserved(&self, r: usize, c: usize) -> (taken: bool)
        requires
            self.wf(),
            r < self.version.spec_size(),
            c < self.version.spec_size(),
        ensures
            taken == reserved(self.version.spec_number(), r as int, c as int),
    {
        self.reserved[r][c]
    }
}

/// The mask pattern with the lowest penalty among the patterns 0 to `last`,
/// the lowest of them where several tie.
pub open spec fn best_mask_upto(modules: Seq<Seq<bool>>, version: int, last: nat) -> int
    decreases last,
{
    if last == 0 {
        0
    } else {
        let best = best_mask_upto(modules, version, (last - 1) as nat);
        if penalty(masked(modules, version, last as int)) < penalty(
            masked(modules, version, best),
        ) {
            last as int
        } else {
            best
        }
    }
}

/// The mask pattern chosen for a symbol: the one of the eight under which
/// its penalty is lowest, the lowest of them where several tie.
pub open spec fn best_mask(modules: Seq<Seq<bool>>, version: int) -> int {
    best_mask_upto(modules, version, 7)
}

/// The pattern chosen among 0 to `last` is one of them, none of them has a
/// lower penalty, and those before it have a higher one.
pub proof fn lemma_best_mask_upto(modules: Seq<Seq<bool>>, version: int, last: nat, pattern: int)
    requires
        0 <= pattern <= last,
    ensures
        0 <= best_mask_upto(modules, version, last) <= last,
        penalty(masked(modules, version, best_mask_upto(modules, version, last))) <= penalty(
            masked(modules, version, pattern),
        ),
        pattern < best_mask_upto(modules, version, last) ==> penalty(
            masked(modules, version, best_mask_upto(modules, version, last)),
        ) < penalty(masked(modules, version, pattern)),
    decreases last,
{
    if last > 0 {
        if pattern < last {
            lemma_best_mask_upto(modules, version, (last - 1) as nat, pattern);
        } else {
            lemma_best_mask_upto(modules, version, (last - 1) as nat, 0);
        }
    }
}

/// The chosen mask pattern is one of the eight, no pattern gives the symbol
/// a lower penalty, and every pattern before it gives a higher one. So the
/// choice depends on the symbol alone, not on the order in which the
/// patterns are tried.
pub proof fn lemma_best_mask(modules: Seq<Seq<bool>>, version: int, pattern: int)
    requires
        0 <= pattern < 8,
    ensures
        0 <= best_mask(modules, version) < 8,
        penalty(masked(modules, version, best_mask(modules, version))) <= penalty(
            masked(modules, version, pattern),
        ),
        pattern < best_mask(modules, version) ==> penalty(
            masked(modules, version, best_mask(modules, version)),
        ) < penalty(masked(modules, version, pattern)),
{
    lemma_best_mask_upto(modules, version, 7, pattern);
}

/// Any pattern that is as the chosen one in both respects is the chosen one.
pub proof fn lemma_best_mask_unique(modules: Seq<Seq<bool>>, version: int, candidate: int)
    requires
        0 <= candidate < 8,
        forall|p: int|
            0 <= p < 8 ==> penalty(masked(modules, version, candidate)) <= penalty(
                #[trigger] masked(modules, version, p),
            ),
        forall|p: int|
            0 <= p < candidate ==> penalty(masked(modules, version, candidate)) < penalty(
                #[trigger] masked(modules, version, p),
            ),
    ensures
        candidate == best_mask(modules, version),
{
    let best = best_mask(modules, version);
    lemma_best_mask(modules, version, candidate);
    if best < candidate {
        assert(penalty(masked(modules, version, candidate)) < penalty(
            masked(modules, version, best),
        ));
    }
}

/// Chooses the mask pattern for a symbol whose data is placed: each of the
/// eight is tried on a copy, and the one with the lowest penalty is kept,
/// the lowest of them where several tie.
pub fn select_mask(mat: &Vec<Vec<bool>>, version: Version) -> (best: u8)
    requires
        is_square(*mat, version.spec_size()),
    ensures
        best < 8,
        best == best_mask(grid(*mat), version.spec_number()),
{
    let taken = non_available_matrix_from_version(version.number());
    let first = masked_copy(mat, &taken, version, 0);
    let mut best: u8 = 0;
    let mut lowest: u32 = score(&first);
    let mut pattern: u8 = 1;
    while pattern < 8
        invariant
            1 <= pattern <= 8,
            best < pattern,
            is_square(*mat, version.spec_size()),
            is_square(taken, version.spec_size()),
            forall|r: int, c: int|
                0 <= r < version.spec_size() && 0 <= c < version.spec_size()
                    ==> #[trigger] taken[r][c] == reserved(version.spec_number(), r, c),
            best == best_mask_upto(grid(*mat), version.spec_number(), (pattern - 1) as nat),
            lowest == penalty(masked(grid(*mat), version.spec_number(), best as int)),
        decreases 8 - pattern,
    {
        let candidate = masked_copy(mat, &taken, version, pattern);
        let total = score(&candidate);
        if total < lowest {
            best = pattern;
            lowest = total;
        }
        pattern += 1;
    }
    best
}

/// The first number that the character count of `mode` cannot say in a
/// symbol of the version.
pub open spec fn count_limit(mode: Mode, version: int) -> int {
    match mode {
        Mode::Numeric => if version <= 9 {
            1024
        } else if version <= 26 {
            4096
        } else {
            16384
        },
        Mode::Alphanumeric => if version <= 9 {
            512
        } else if version <= 26 {
            2048
        } else {
            8192
        },
        Mode::Byte => if version <= 9 {
            256
        } else {
            65536
        },
    }
}

/// Whether the capacity of version `i + 1` in `mode` at level `ecl` agrees
/// with the other tables: the character count can say it, and a segment of
/// that many characters fits in the data codewords.
pub open spec fn capacity_entry_sound(mode: Mode, ecl: ECL, i: int) -> bool {
    let capacity = CAPACITY[4 * mode.spec_ordinal() + ecl.spec_ordinal()][i] as int;
    &&& capacity < count_limit(mode, i + 1)
    &&& 4 + count_bits(mode, i + 1) + payload_len(mode, capacity) <= 8 * (MAX_BYTES[i]
        - EC_CODEWORDS_PER_BLOCK[ecl.spec_ordinal()][i] * BLOCK_COUNT[ecl.spec_ordinal()][i])
}

/// Whether the capacities of the first `n` versions agree with the other
/// tables.
pub open spec fn capacity_entries_sound(mode: Mode, ecl: ECL, n: nat) -> bool
    decreases n,
{
    n == 0 || (capacity_entry_sound(mode, ecl, n - 1) && capacity_entries_sound(
        mode,
        ecl,
        (n - 1) as nat,
    ))
}

/// Capacities that agree with the other tables together agree each.
proof fn lemma_capacity_entries_sound(mode: Mode, ecl: ECL, n: nat, i: int)
    requires
        capacity_entries_sound(mode, ecl, n),
        0 <= i < n,
    ensures
        capacity_entry_sound(mode, ecl, i),
    decreases n,
{
    if i < n - 1 {
        lemma_capacity_entries_sound(mode, ecl, (n - 1) as nat, i);
    }
}

/// The capacity table agrees with the tables of codewords and blocks: in
/// every symbol the character count can say the capacity, and a segment of
/// as many characters as the capacity fits in the data codewords.
#[verifier::rlimit(50)]
pub proof fn lemma_capacity_sound(mode: Mode, ecl: ECL, version: int)
    requires
        1 <= version <= 40,
    ensures
        Version::capacity(mode, ecl, version) < pow2(count_bits(mode, version)),
        4 + count_bits(mode, version) + payload_len(mode, Version::capacity(mode, ecl, version))
            <= 8 * data_codewords(ecl, version),
{
    if mode == Mode::Numeric && ecl == ECL::L {
        assert(capacity_entries_sound(Mode::Numeric, ECL::L, 40)) by {
            reveal_with_fuel(capacity_entries_sound, 41);
        }
    } else if mode == Mode::Numeric && ecl == ECL::M {
        assert(capacity_entries_sound(Mode::Numeric, ECL::M, 40)) by {
            reveal_with_fuel(capacity_entries_sound, 41);
        }
    } else if mode == Mode::Numeric && ecl == ECL::Q {
        assert(capacity_entries_sound(Mode::Numeric, ECL::Q, 40)) by {
            reveal_with_fuel(capacity_entries_sound, 41);
        }
    } else if mode == Mode::Numeric && ecl == ECL::H {
        assert(capacity_entries_sound(Mode::Numeric, ECL::H, 40)) by {
            reveal_with_fuel(capacity_entries_sound, 41);
        }
    } else if mode == Mode::Alphanumeric && ecl == ECL::L {
        assert(capacity_entries_sound(Mode::Alphanumeric, ECL::L, 40)) by {
            reveal_with_fuel(capacity_entries_sound, 41);
        }
    } else if mode == Mode::Alphanumeric && ecl == ECL::M {
        assert(capacity_entries_sound(Mode::Alphanumeric, ECL::M, 40)) by {
            reveal_with_fuel(capacity_entries_sound, 41);
        }
    } else if mode == Mode::Alphanumeric && ecl == ECL::Q {
        assert(capacity_entries_sound(Mode::Alphanumeric, ECL::Q, 40)) by {
            reveal_with_fuel(capacity_entries_sound, 41);
        }
    } else if mode == Mode::Alphanumeric && ecl == ECL::H {
        assert(capacity_entries_sound(Mode::Alphanumeric, ECL::H, 40)) by {
            reveal_with_fuel(capacity_entries_sound, 41);
        }
    } else if mode == Mode::Byte && ecl == ECL::L {
        assert(capacity_entries_sound(Mode::Byte, ECL::L, 40)) by {
            reveal_with_fuel(capacity_entries_sound, 41);
        }
    } else if mode == Mode::Byte && ecl == ECL::M {
        assert(capacity_entries_sound(Mode::Byte, ECL::M, 40)) by {
            reveal_with_fuel(capacity_entries_sound, 41);
        }
    } else if mode == Mode::Byte && ecl == ECL::Q {
        assert(capacity_entries_sound(Mode::Byte, ECL::Q, 40)) by {
            reveal_with_fuel(capacity_entries_sound, 41);
        }
    } else if mode == Mode::Byte && ecl == ECL::H {
        assert(capacity_entries_sound(Mode::Byte, ECL::H, 40)) by {
            reveal_with_fuel(capacity_entries_sound, 41);
        }
    }
    lemma_capacity_entries_sound(mode, ecl, 40, version - 1);
    lemma2_to64();
}

/// The bits that characters take grow with their number.
pub proof fn lemma_payload_len_monotonic(mode: Mode, a: int, b: int)
    requires
        0 <= a <= b,
    ensures
        0 <= payload_len(mode, a) <= payload_len(mode, b),
{
}

/// A segment has four bits of mode, the bits of the character count and
/// the bits of its characters.
pub proof fn lemma_segment_len(data: Seq<u8>, mode: Mode, version: int)
    ensures
        segment_bits(data, mode, version).len() == 4 + count_bits(mode, version) + payload_len(
            mode,
            data.len() as int,
        ),
{
    lemma_bits_of_len(crate::encode::mode_indicator(mode), 4);
    lemma_bits_of_len(data.len(), count_bits(mode, version));
    lemma_payload_len(data, mode);
}

/// The characters of a segment take as many bits as `payload_len` says.
pub proof fn lemma_payload_len(data: Seq<u8>, mode: Mode)
    ensures
        payload_bits(mode, data).len() == payload_len(mode, data.len() as int),
    decreases data.len(),
{
    match mode {
        Mode::Numeric => {
            if data.len() == 0 {
            } else if data.len() == 1 {
                lemma_bits_of_len(crate::encode::digit(data[0]), 4);
            } else if data.len() == 2 {
                lemma_bits_of_len(
                    10 * crate::encode::digit(data[0]) + crate::encode::digit(data[1]),
                    7,
                );
            } else {
                lemma_bits_of_len(
                    100 * crate::encode::digit(data[0]) + 10 * crate::encode::digit(data[1])
                        + crate::encode::digit(data[2]),
                    10,
                );
                lemma_payload_len(data.skip(3), mode);
            }
        },
        Mode::Alphanumeric => {
            if data.len() == 0 {
            } else if data.len() == 1 {
                lemma_bits_of_len(crate::encode::alphanumeric_code(data[0]) as nat, 6);
            } else {
                lemma_bits_of_len(
                    (45 * crate::encode::alphanumeric_code(data[0])
                        + crate::encode::alphanumeric_code(data[1])) as nat,
                    11,
                );
                lemma_payload_len(data.skip(2), mode);
            }
        },
        Mode::Byte => {
            if data.len() > 0 {
                lemma_bits_of_len(data[0] as nat, 8);
                lemma_payload_len(data.skip(1), mode);
            }
        },
    }
}

/// The codewords of the symbol that holds `data` at level `ecl` in the
/// version: the segment in the densest mode that admits `data`, padded to
/// the data codewords of the symbol, with the error correction codewords,
/// interleaved.
pub open spec fn symbol_codewords(data: Seq<u8>, ecl: ECL, version: int) -> Seq<u8> {
    let bits = padded(
        segment_bits(data, best_mode(data), version),
        data_codewords(ecl, version) as nat,
    );
    interleaved(bytes_of(bits), block_count(ecl, version), ec_per_block(ecl, version) as nat)
}

/// The symbol with its function patterns and the codewords placed, before
/// it is masked.
pub open spec fn placed_symbol(version: int, codewords: Seq<u8>) -> Seq<Seq<bool>> {
    let size = 17 + 4 * version;
    Seq::new(
        size as nat,
        |r: int|
            Seq::new(
                size as nat,
                |c: int|
                    if reserved(version, r, c) {
                        function_dark(version, r, c)
                    } else {
                        placed_bit(version, codewords, r, c)
                    },
            ),
    )
}

/// The mask pattern of the symbol that holds `data` at level `ecl` in the
/// version: the one of the lowest penalty.
pub open spec fn symbol_mask(data: Seq<u8>, ecl: ECL, version: Version) -> int {
    let number = version.spec_number();
    best_mask(placed_symbol(number, symbol_codewords(data, ecl, number)), number)
}

/// The symbol that holds `data` at level `ecl` in the version: function
/// patterns, the codewords placed, the mask pattern of the lowest penalty
/// applied, and the format and version information written in.
pub open spec fn symbol(data: Seq<u8>, ecl: ECL, version: Version) -> Seq<Seq<bool>> {
    let number = version.spec_number();
    let placed = placed_symbol(number, symbol_codewords(data, ecl, number));
    let pattern = symbol_mask(data, ecl, version);
    with_information(masked(placed, number, pattern), version, ecl, pattern as u8)
}

/// Whether `version` is the version of the symbol for `len` characters in
/// `mode` at level `ecl`: the one asked for, if one is, and else the
/// smallest that holds them.
pub open spec fn version_chosen(
    mode: Mode,
    ecl: ECL,
    len: int,
    version_hint: Option<Version>,
    version: Version,
) -> bool {
    &&& len <= Version::capacity(mode, ecl, version.spec_number())
    &&& match version_hint {
        Some(hint) => version == hint,
        None => forall|w: int|
            1 <= w < version.spec_number() ==> #[trigger] Version::capacity(mode, ecl, w) < len,
    }
}

/// The version of the symbol for `len` characters in `mode` at level `ecl`:
/// the one asked for, if one is, and else the smallest that holds them.
pub fn resolve_version(mode: Mode, ecl: ECL, len: usize, version_hint: Option<Version>) -> (r:
    Result<Version, EncodeError>)
    ensures
        match r {
            Ok(version) => version_chosen(mode, ecl, len as int, version_hint, version),
            Err(EncodeError::CapacityExceeded) => {
                &&& version_hint is None
                &&& Version::capacity(mode, ecl, 40) < len
            },
            Err(EncodeError::InvalidVersionHint) => {
                &&& version_hint is Some
                &&& Version::capacity(mode, ecl, version_hint->0.spec_number()) < len
            },
            Err(EncodeError::InternalConsistency) => false,
        },
{
    match version_hint {
        Some(hint) => {
            if len > hint.max_characters(mode, ecl) {
                Err(EncodeError::InvalidVersionHint)
            } else {
                Ok(hint)
            }
        },
        None => match Version::get(mode, ecl, len) {
            Some(found) => Ok(found),
            None => Err(EncodeError::CapacityExceeded),
        },
    }
}

/// The codewords of the symbol that holds `data` at level `ecl` in the
/// version, in the order in which they are placed. The version must hold
/// `data` in the densest mode that admits it. Each step checks what it is
/// handed and would report `InternalConsistency`; since the tables agree,
/// none does.
pub fn encode_codewords(data: &[u8], ecl: ECL, version: Version) -> (r: Result<
    Vec<u8>,
    EncodeError,
>)
    requires
        data.len() <= Version::capacity(best_mode(data@), ecl, version.spec_number()),
    ensures
        r matches Ok(codewords) && codewords@ == symbol_codewords(
            data@,
            ecl,
            version.spec_number(),
        ) && codewords.len() == version.spec_max_bytes(),
{
    let mode = choose_mode(data);
    let ghost number = version.spec_number();
    proof {
        lemma_modes_nest(data@, mode);
        lemma_capacity_sound(mode, ecl, number);
        lemma_segment_len(data@, mode, number);
        lemma_payload_len_monotonic(
            mode,
            data.len() as int,
            Version::capacity(mode, ecl, number),
        );
        lemma_block_table(ecl, number);
    }
    let mut stream = match encode_segment(data, mode, version) {
        Ok(stream) => stream,
        Err(_) => {
            return Err(EncodeError::InternalConsistency);
        },
    };
    let capacity = data_capacity(version, ecl);
    match stream.pad_to_capacity(capacity) {
        Ok(()) => {},
        Err(_) => {
            return Err(EncodeError::InternalConsistency);
        },
    }
    let bytes = stream.into_bytes();
    error_correction(bytes.as_slice(), version, ecl)
}

/// The symbol of the version that shows the codewords: function patterns,
/// the codewords placed, the mask pattern of the lowest penalty applied,
/// and the format and version information written in. Refused where the
/// codewords are not as many as the version holds.
pub fn build_symbol(version: Version, ecl: ECL, codewords: &[u8]) -> (r: Result<
    Matrix,
    EncodeError,
>)
    ensures
        match r {
            Ok(matrix) => {
                &&& codewords.len() == version.spec_max_bytes()
                &&& matrix.version == version
                &&& matrix.wf()
                &&& matrix.mask == best_mask(
                    placed_symbol(version.spec_number(), codewords@),
                    version.spec_number(),
                )
                &&& grid(matrix.modules) == with_information(
                    masked(
                        placed_symbol(version.spec_number(), codewords@),
                        version.spec_number(),
                        matrix.mask as int,
                    ),
                    version,
                    ecl,
                    matrix.mask,
                )
            },
            Err(e) => {
                &&& e == EncodeError::InternalConsistency
                &&& codewords.len() != version.spec_max_bytes()
            },
        },
{
    let ghost number = version.spec_number();
    let mut mat = create_matrix_from_version(version.number());
    match place_data(&mut mat, version, codewords) {
        Ok(()) => {},
        Err(e) => {
            return Err(e);
        },
    }
    proof {
        let placed = placed_symbol(number, codewords@);
        assert forall|r: int| 0 <= r < version.spec_size() implies #[trigger] grid(mat)[r]
            == placed[r] by {
            assert forall|c: int| 0 <= c < version.spec_size() implies grid(mat)[r][c]
                == placed[r][c] by {
                assert(mat[r][c] == placed[r][c]);
            }
            assert(grid(mat)[r] =~= placed[r]);
        }
        assert(grid(mat) =~= placed);
    }
    let pattern = select_mask(&mat, version);
    apply_mask(&mut mat, version, pattern);
    write_information(&mut mat, version, ecl, pattern);
    let taken = non_available_matrix_from_version(version.number());
    Ok(Matrix { version, mask: pattern, modules: mat, reserved: taken })
}

/// Encodes `data` at error correction level `ecl` into a symbol: of the
/// version asked for, if one is, and else of the smallest version that
/// holds `data` in the densest mode that admits it.
///
/// Fails with `CapacityExceeded` where no version is asked for and even
/// version 40 is too small, and with `InvalidVersionHint` where the version
/// asked for is too small. It succeeds on every other input: the tables
/// and the layout of every version agree, so `InternalConsistency` never
/// comes out.
pub fn encode(data: &[u8], ecl: ECL, version_hint: Option<Version>) -> (r: Result<
    Matrix,
    EncodeError,
>)
    ensures
        match r {
            Ok(matrix) => {
                &&& version_chosen(
                    best_mode(data@),
                    ecl,
                    data.len() as int,
                    version_hint,
                    matrix.version,
                )
                &&& matrix.wf()
                &&& matrix.mask == symbol_mask(data@, ecl, matrix.version)
                &&& grid(matrix.modules) == symbol(data@, ecl, matrix.version)
            },
            Err(EncodeError::CapacityExceeded) => {
                &&& version_hint is None
                &&& Version::capacity(best_mode(data@), ecl, 40) < data.len()
            },
            Err(EncodeError::InvalidVersionHint) => {
                &&& version_hint is Some
                &&& Version::capacity(best_mode(data@), ecl, version_hint->0.spec_number())
                    < data.len()
            },
            Err(EncodeError::InternalConsistency) => false,
        },
{
    let mode = choose_mode(data);
    let version = match resolve_version(mode, ecl, data.len(), version_hint) {
        Ok(version) => version,
        Err(e) => {
            return Err(e);
        },
    };
    let codewords = match encode_codewords(data, ecl, version) {
        Ok(codewords) => codewords,
        Err(e) => {
            return Err(e);
        },
    };
    build_symbol(version, ecl, codewords.as_slice())
}

/// In the finished symbol every module of a function pattern is as the
/// version's patterns have it: the mask and the information leave the
/// finder, timing and alignment patterns and the dark module alone.
pub proof fn lemma_function_patterns_kept(
    data: Seq<u8>,
    ecl: ECL,
    version: Version,
    r: int,
    c: int,
)
    requires
        0 <= r < version.spec_size(),
        0 <= c < version.spec_size(),
        reserved(version.spec_number(), r, c),
        format_bit_index(version.spec_size(), r, c) < 0,
        version.spec_number() >= 7 ==> version_bit_index(version.spec_size(), r, c) < 0,
    ensures
        symbol(data, ecl, version)[r][c] == function_dark(version.spec_number(), r, c),
{
}

} // verus!
