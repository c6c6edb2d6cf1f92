//! The error correction encoder: the data codewords are split into blocks,
//! each block gets its Reed–Solomon codewords, and the blocks are
//! interleaved into the sequence that is placed in the symbol.
use crate::arith::{lemma_mul_le, lemma_mul_step};
use crate::error::EncodeError;
use crate::polynomials::{gen_poly, generator_polynomial, lemma_poly_rem_len, poly_rem, remainder};
use crate::vecl::ECL;
use crate::version::{Version, MAX_BYTES};
use vstd::arithmetic::div_mod::{lemma_fundamental_div_mod, lemma_fundamental_div_mod_converse};
use vstd::prelude::*;
use vstd::slice::{slice_subrange, slice_to_vec};

verus! {

/// Number of error correction codewords in each block, one row per level (L,
/// M, Q, H), one column per version.
pub const EC_CODEWORDS_PER_BLOCK: [[usize; 40]; 4] = [
    [
        7, 10, 15, 20, 26, 18, 20, 24, 30, 18, 20, 24, 26, 30, 22, 24, 28, 30, 28, 28, 28, 28,
        30, 30, 26, 28, 30, 30, 30, 30, 30, 30, 30, 30, 30, 30, 30, 30, 30, 30,
    ],
    [
        10, 16, 26, 18, 24, 16, 18, 22, 22, 26, 30, 22, 22, 24, 24, 28, 28, 26, 26, 26, 26, 28,
        28, 28, 28, 28, 28, 28, 28, 28, 28, 28, 28, 28, 28, 28, 28, 28, 28, 28,
    ],
    [
        13, 22, 18, 26, 18, 24, 18, 22, 20, 24, 28, 26, 24, 20, 30, 24, 28, 28, 26, 30, 28, 30,
        30, 30, 30, 28, 30, 30, 30, 30, 30, 30, 30, 30, 30, 30, 30, 30, 30, 30,
    ],
    [
        17, 28, 22, 16, 22, 28, 26, 26, 24, 28, 24, 28, 22, 24, 24, 30, 28, 28, 26, 28, 30, 24,
        30, 30, 30, 30, 30, 30, 30, 30, 30, 30, 30, 30, 30, 30, 30, 30, 30, 30,
    ],
];

/// Number of blocks, one row per level (L, M, Q, H), one column per version.
pub const BLOCK_COUNT: [[usize; 40]; 4] = [
    [
        1, 1, 1, 1, 1, 2, 2, 2, 2, 4, 4, 4, 4, 4, 6, 6, 6, 6, 7, 8, 8, 9, 9, 10, 12, 12, 12,
        13, 14, 15, 16, 17, 18, 19, 19, 20, 21, 22, 24, 25,
    ],
    [
        1, 1, 1, 2, 2, 4, 4, 4, 5, 5, 5, 8, 9, 9, 10, 10, 11, 13, 14, 16, 17, 17, 18, 20, 21,
        23, 25, 26, 28, 29, 31, 33, 35, 37, 38, 40, 43, 45, 47, 49,
    ],
    [
        1, 1, 2, 2, 4, 4, 6, 6, 8, 8, 8, 10, 12, 16, 12, 17, 16, 18, 21, 20, 23, 23, 25, 27,
        29, 34, 34, 35, 38, 40, 43, 45, 48, 51, 53, 56, 59, 62, 65, 68,
    ],
    [
        1, 1, 2, 4, 4, 4, 5, 6, 8, 8, 11, 11, 16, 16, 18, 16, 19, 21, 25, 25, 25, 34, 30, 32,
        35, 37, 40, 42, 45, 48, 51, 54, 57, 60, 63, 66, 70, 74, 77, 81,
    ],
];

/// Number of error correction codewords in each block of a symbol.
pub open spec fn ec_per_block(ecl: ECL, version: int) -> int {
    EC_CODEWORDS_PER_BLOCK[ecl.spec_ordinal()][version - 1] as int
}

/// Number of blocks of a symbol.
pub open spec fn block_count(ecl: ECL, version: int) -> int {
    BLOCK_COUNT[ecl.spec_ordinal()][version - 1] as int
}

/// Number of data codewords of a symbol: what the error correction
/// codewords leave of all its codewords.
pub open spec fn data_codewords(ecl: ECL, version: int) -> int {
    MAX_BYTES[version - 1] - ec_per_block(ecl, version) * block_count(ecl, version)
}

/// Where block `k` of `blocks` starts among `len` data codewords. The
/// blocks are as long as one another but for the last ones, which are one
/// codeword longer where `len` does not divide evenly.
pub open spec fn block_start(len: int, blocks: int, k: int) -> int {
    let short_count = blocks - len % blocks;
    k * (len / blocks) + (if k > short_count { k - short_count } else { 0 })
}

/// Number of data codewords of block `k` of `blocks` among `len`.
pub open spec fn block_len(len: int, blocks: int, k: int) -> int {
    let short_count = blocks - len % blocks;
    len / blocks + (if k >= short_count { 1int } else { 0int })
}

/// The data codewords of block `k`.
pub open spec fn data_block(data: Seq<u8>, blocks: int, k: int) -> Seq<u8> {
    let start = block_start(data.len() as int, blocks, k);
    data.subrange(start, start + block_len(data.len() as int, blocks, k))
}

/// The error correction codewords of block `k`, `ec_len` of them.
pub open spec fn ec_block(data: Seq<u8>, blocks: int, ec_len: nat, k: int) -> Seq<u8> {
    poly_rem(data_block(data, blocks, k), gen_poly(ec_len))
}

/// The codeword at place `p` of the interleaved sequence: first the data
/// codewords, the first of each block, then the second of each, and so on,
/// the blocks that have run out being passed over; then the error
/// correction codewords in the same way.
pub open spec fn codeword_at(data: Seq<u8>, blocks: int, ec_len: nat, p: int) -> u8 {
    let len = data.len() as int;
    let short_len = len / blocks;
    let short_count = blocks - len % blocks;
    if p < short_len * blocks {
        data_block(data, blocks, p % blocks)[p / blocks]
    } else if p < len {
        data_block(data, blocks, short_count + (p - short_len * blocks))[short_len]
    } else {
        ec_block(data, blocks, ec_len, (p - len) % blocks)[(p - len) / blocks]
    }
}

/// The codewords of a symbol in the order in which they are placed.
pub open spec fn interleaved(data: Seq<u8>, blocks: int, ec_len: nat) -> Seq<u8> {
    Seq::new(
        (data.len() + blocks * ec_len) as nat,
        |p: int| codeword_at(data, blocks, ec_len, p),
    )
}

/// The blocks lie one after another in the data codewords and fill them.
pub proof fn lemma_block_layout(len: int, blocks: int, k: int)
    requires
        0 <= len,
        1 <= blocks,
        0 <= k < blocks,
    ensures
        0 <= block_start(len, blocks, k),
        len / blocks <= block_len(len, blocks, k) <= len / blocks + 1,
        block_start(len, blocks, k) + block_len(len, blocks, k) == block_start(len, blocks, k + 1),
        block_start(len, blocks, k + 1) <= len,
        block_start(len, blocks, 0) == 0,
        block_start(len, blocks, blocks) == len,
        0 <= len / blocks,
        1 <= blocks - len % blocks <= blocks,
        len == (len / blocks) * blocks + len % blocks,
{
    let short_len = len / blocks;
    lemma_fundamental_div_mod(len, blocks);
    assert(len == blocks * short_len + len % blocks);
    assert(blocks * short_len == short_len * blocks) by (nonlinear_arith);
    assert(0 <= short_len) by (nonlinear_arith)
        requires
            0 <= len,
            1 <= blocks,
            len == blocks * short_len + len % blocks,
            0 <= len % blocks < blocks,
    ;
    lemma_mul_step(k, short_len);
    lemma_mul_le(k, blocks, short_len);
    lemma_mul_le(k + 1, blocks, short_len);
    assert(0 * short_len == 0);
}

/// One block of codewords: its share of the data codewords and the error
/// correction codewords computed from them.
pub struct CodewordBlock {
    /// The data codewords of the block.
    pub data: Vec<u8>,
    /// The error correction codewords of the block.
    pub correction: Vec<u8>,
}

/// The blocks of a symbol: `data` is split into `blocks` blocks, the
/// longer ones last, and each gets its `ec_len` error correction
/// codewords.
pub fn split_blocks(data: &[u8], blocks: usize, ec_len: usize) -> (parts: Vec<CodewordBlock>)
    requires
        1 <= blocks,
    ensures
        parts.len() == blocks,
        forall|k: int|
            0 <= k < blocks ==> (#[trigger] parts[k]).data@ == data_block(data@, blocks as int, k),
        forall|k: int|
            0 <= k < blocks ==> (#[trigger] parts[k]).correction@ == ec_block(
                data@,
                blocks as int,
                ec_len as nat,
                k,
            ),
{
    let len = data.len();
    let short_len = len / blocks;
    let short_count = blocks - len % blocks;
    let generator = generator_polynomial(ec_len);
    proof {
        lemma_block_layout(len as int, blocks as int, 0);
    }
    let mut parts: Vec<CodewordBlock> = Vec::new();
    let mut start: usize = 0;
    let mut k: usize = 0;
    while k < blocks
        invariant
            k <= blocks,
            1 <= blocks,
            len == data.len(),
            short_len == len / blocks,
            short_count == blocks - len % blocks,
            generator@ == gen_poly(ec_len as nat),
            generator.len() == ec_len + 1,
            start == block_start(len as int, blocks as int, k as int),
            start <= len,
            parts.len() == k,
            forall|j: int|
                0 <= j < k ==> (#[trigger] parts[j]).data@ == data_block(data@, blocks as int, j),
            forall|j: int|
                0 <= j < k ==> (#[trigger] parts[j]).correction@ == ec_block(
                    data@,
                    blocks as int,
                    ec_len as nat,
                    j,
                ),
        decreases blocks - k,
    {
        proof {
            lemma_block_layout(len as int, blocks as int, k as int);
        }
        let size = if k >= short_count { short_len + 1 } else { short_len };
        let block = slice_subrange(data, start, start + size);
        let correction = remainder(block, generator.as_slice());
        parts.push(CodewordBlock { data: slice_to_vec(block), correction });
        start = start + size;
        k += 1;
    }
    parts
}

/// The codewords of a symbol in the order in which they are placed: `data`
/// is split into `blocks` blocks, each gets its `ec_len` error correction
/// codewords, and the blocks are interleaved: the first data codeword of
/// each block, then the second of each, and so on, the blocks that have run
/// out being passed over; then the error correction codewords in the same
/// way.
pub fn interleave(data: &[u8], blocks: usize, ec_len: usize) -> (out: Vec<u8>)
    requires
        1 <= blocks,
        data.len() + blocks * ec_len <= usize::MAX,
    ensures
        out@ == interleaved(data@, blocks as int, ec_len as nat),
        out.len() == data.len() + blocks * ec_len,
{
    let len = data.len();
    let short_len = len / blocks;
    let long_count = len % blocks;
    let short_count = blocks - long_count;
    let parts = split_blocks(data, blocks, ec_len);
    proof {
        lemma_block_layout(len as int, blocks as int, 0);
        crate::polynomials::lemma_gen_poly_shape(ec_len as nat);
        assert forall|k: int| 0 <= k < blocks implies (#[trigger] parts[k]).correction.len()
            == ec_len && parts[k].data.len() == block_len(len as int, blocks as int, k) by {
            lemma_block_layout(len as int, blocks as int, k);
            lemma_poly_rem_len(data_block(data@, blocks as int, k), gen_poly(ec_len as nat));
        }
    }
    let mut out: Vec<u8> = Vec::new();
    // The data codewords that every block has.
    let mut i: usize = 0;
    while i < short_len
        invariant
            i <= short_len,
            1 <= blocks,
            len == data.len(),
            short_len == len / blocks,
            short_count == blocks - len % blocks,
            parts.len() == blocks,
            forall|k: int|
                0 <= k < blocks ==> (#[trigger] parts[k]).data@ == data_block(
                    data@,
                    blocks as int,
                    k,
                ),
            forall|k: int|
                0 <= k < blocks ==> (#[trigger] parts[k]).data.len() == block_len(
                    len as int,
                    blocks as int,
                    k,
                ),
            out.len() == i * blocks,
            forall|p: int|
                0 <= p < out.len() ==> out[p] == #[trigger] codeword_at(
                    data@,
                    blocks as int,
                    ec_len as nat,
                    p,
                ),
        decreases short_len - i,
    {
        let mut k: usize = 0;
        while k < blocks
            invariant
                i < short_len,
                k <= blocks,
                1 <= blocks,
                len == data.len(),
                short_len == len / blocks,
                short_count == blocks - len % blocks,
                parts.len() == blocks,
                forall|k: int|
                    0 <= k < blocks ==> (#[trigger] parts[k]).data@ == data_block(
                        data@,
                        blocks as int,
                        k,
                    ),
                forall|k: int|
                    0 <= k < blocks ==> (#[trigger] parts[k]).data.len() == block_len(
                        len as int,
                        blocks as int,
                        k,
                    ),
                out.len() == i * blocks + k,
                forall|p: int|
                    0 <= p < out.len() ==> out[p] == #[trigger] codeword_at(
                        data@,
                        blocks as int,
                        ec_len as nat,
                        p,
                    ),
            decreases blocks - k,
        {
            proof {
                lemma_mul_le(i + 1, short_len as int, blocks as int);
                lemma_mul_step(i as int, blocks as int);
                lemma_fundamental_div_mod_converse(
                    i * blocks + k,
                    blocks as int,
                    i as int,
                    k as int,
                );
            }
            let ghost p = out.len() as int;
            let part = &parts[k];
            out.push(part.data[i]);
            assert(out[p] == codeword_at(data@, blocks as int, ec_len as nat, p));
            k += 1;
        }
        proof {
            lemma_mul_step(i as int, blocks as int);
        }
        i += 1;
    }
    // The last data codeword of the longer blocks.
    let mut j: usize = 0;
    while j < long_count
        invariant
            j <= long_count,
            1 <= blocks,
            len == data.len(),
            short_len == len / blocks,
            short_count == blocks - len % blocks,
            long_count == len % blocks,
            parts.len() == blocks,
            forall|k: int|
                0 <= k < blocks ==> (#[trigger] parts[k]).data@ == data_block(
                    data@,
                    blocks as int,
                    k,
                ),
            forall|k: int|
                0 <= k < blocks ==> (#[trigger] parts[k]).data.len() == block_len(
                    len as int,
                    blocks as int,
                    k,
                ),
            out.len() == short_len * blocks + j,
            forall|p: int|
                0 <= p < out.len() ==> out[p] == #[trigger] codeword_at(
                    data@,
                    blocks as int,
                    ec_len as nat,
                    p,
                ),
        decreases long_count - j,
    {
        let k = short_count + j;
        proof {
            lemma_block_layout(len as int, blocks as int, k as int);
        }
        let ghost p = out.len() as int;
        let part = &parts[k];
        out.push(part.data[short_len]);
        assert(out[p] == codeword_at(data@, blocks as int, ec_len as nat, p));
        j += 1;
    }
    // The error correction codewords.
    let mut i: usize = 0;
    while i < ec_len
        invariant
            i <= ec_len,
            1 <= blocks,
            len == data.len(),
            len + blocks * ec_len <= usize::MAX,
            len == (len / blocks) * blocks + len % blocks,
            parts.len() == blocks,
            forall|k: int|
                0 <= k < blocks ==> (#[trigger] parts[k]).correction@ == ec_block(
                    data@,
                    blocks as int,
                    ec_len as nat,
                    k,
                ),
            forall|k: int| 0 <= k < blocks ==> (#[trigger] parts[k]).correction.len() == ec_len,
            out.len() == len + i * blocks,
            forall|p: int|
                0 <= p < out.len() ==> out[p] == #[trigger] codeword_at(
                    data@,
                    blocks as int,
                    ec_len as nat,
                    p,
                ),
        decreases ec_len - i,
    {
        let mut k: usize = 0;
        while k < blocks
            invariant
                i < ec_len,
                k <= blocks,
                1 <= blocks,
                len == data.len(),
                len + blocks * ec_len <= usize::MAX,
                len == (len / blocks) * blocks + len % blocks,
                parts.len() == blocks,
                forall|k: int|
                    0 <= k < blocks ==> (#[trigger] parts[k]).correction@ == ec_block(
                        data@,
                        blocks as int,
                        ec_len as nat,
                        k,
                    ),
                forall|k: int| 0 <= k < blocks ==> (#[trigger] parts[k]).correction.len() == ec_len,
                out.len() == len + i * blocks + k,
                forall|p: int|
                    0 <= p < out.len() ==> out[p] == #[trigger] codeword_at(
                        data@,
                        blocks as int,
                        ec_len as nat,
                        p,
                    ),
            decreases blocks - k,
        {
            proof {
                lemma_mul_le(i + 1, ec_len as int, blocks as int);
                lemma_mul_step(i as int, blocks as int);
                lemma_fundamental_div_mod_converse(
                    i * blocks + k,
                    blocks as int,
                    i as int,
                    k as int,
                );
                assert(ec_len * blocks == blocks * ec_len) by (nonlinear_arith);
            }
            let ghost p = out.len() as int;
            let part = &parts[k];
            out.push(part.correction[i]);
            assert(out[p] == codeword_at(data@, blocks as int, ec_len as nat, p));
            k += 1;
        }
        proof {
            lemma_mul_step(i as int, blocks as int);
        }
        i += 1;
    }
    proof {
        assert(ec_len * blocks == blocks * ec_len) by (nonlinear_arith);
        assert(out@ =~= interleaved(data@, blocks as int, ec_len as nat));
    }
    out
}

/// Whether the blocks of one symbol leave room for data: at least one data
/// codeword a block.
pub open spec fn block_entry_sound(row: int, i: int) -> bool {
    &&& 1 <= BLOCK_COUNT[row][i] <= 81
    &&& 7 <= EC_CODEWORDS_PER_BLOCK[row][i] <= 30
    &&& BLOCK_COUNT[row][i] <= MAX_BYTES[i] - EC_CODEWORDS_PER_BLOCK[row][i] * BLOCK_COUNT[row][i]
    &&& MAX_BYTES[i] <= 3706
}

/// Whether the first `n` symbols of a row of the block tables are sound.
pub open spec fn block_entries_sound(row: int, n: nat) -> bool
    decreases n,
{
    n == 0 || (block_entry_sound(row, n - 1) && block_entries_sound(row, (n - 1) as nat))
}

/// Symbols of a row of the block tables that are sound together are sound
/// each.
proof fn lemma_block_entries_sound(row: int, n: nat, i: int)
    requires
        block_entries_sound(row, n),
        0 <= i < n,
    ensures
        block_entry_sound(row, i),
    decreases n,
{
    if i < n - 1 {
        lemma_block_entries_sound(row, (n - 1) as nat, i);
    }
}

/// One row of the block tables: the blocks of every version leave room
/// for data.
proof fn lemma_block_table_row(row: int, i: int)
    requires
        0 <= row < 4,
        0 <= i < 40,
    ensures
        block_entry_sound(row, i),
{
    if row == 0 {
        assert(block_entries_sound(0, 40)) by {
            reveal_with_fuel(block_entries_sound, 41);
        }
    } else if row == 1 {
        assert(block_entries_sound(1, 40)) by {
            reveal_with_fuel(block_entries_sound, 41);
        }
    } else if row == 2 {
        assert(block_entries_sound(2, 40)) by {
            reveal_with_fuel(block_entries_sound, 41);
        }
    } else {
        assert(block_entries_sound(3, 40)) by {
            reveal_with_fuel(block_entries_sound, 41);
        }
    }
    lemma_block_entries_sound(row, 40, i);
}

/// In every symbol each block has at least one data codeword, and the
/// error correction codewords number between 7 and 30 a block.
pub proof fn lemma_block_table(ecl: ECL, version: int)
    requires
        1 <= version <= 40,
    ensures
        1 <= block_count(ecl, version) <= 81,
        7 <= ec_per_block(ecl, version) <= 30,
        block_count(ecl, version) <= data_codewords(ecl, version) <= 3706,
        data_codewords(ecl, version) + block_count(ecl, version) * ec_per_block(ecl, version)
            == MAX_BYTES[version - 1],
{
    lemma_block_table_row(ecl.spec_ordinal(), version - 1);
    let b = block_count(ecl, version);
    let e = ec_per_block(ecl, version);
    assert(b * e == e * b) by (nonlinear_arith);
    assert(0 <= e * b) by (nonlinear_arith)
        requires
            0 <= e,
            0 <= b,
    ;
}

/// Number of data codewords of a symbol.
pub fn data_capacity(version: Version, ecl: ECL) -> (n: usize)
    ensures
        n == data_codewords(ecl, version.spec_number()),
        1 <= n <= 3706,
{
    proof {
        lemma_block_table(ecl, version.spec_number());
    }
    let row = ecl.ordinal();
    let column = version.number() - 1;
    MAX_BYTES[column] - EC_CODEWORDS_PER_BLOCK[row][column] * BLOCK_COUNT[row][column]
}

/// The codewords of a symbol in the order in which they are placed, from
/// its data codewords. Refused where `data` does not have as many
/// codewords as the symbol has for data.
pub fn error_correction(data: &[u8], version: Version, ecl: ECL) -> (r: Result<
    Vec<u8>,
    EncodeError,
>)
    ensures
        match r {
            Ok(codewords) => {
                &&& data.len() == data_codewords(ecl, version.spec_number())
                &&& codewords@ == interleaved(
                    data@,
                    block_count(ecl, version.spec_number()),
                    ec_per_block(ecl, version.spec_number()) as nat,
                )
                &&& codewords.len() == version.spec_max_bytes()
            },
            Err(e) => {
                &&& e == EncodeError::InternalConsistency
                &&& data.len() != data_codewords(ecl, version.spec_number())
            },
        },
{
    proof {
        lemma_block_table(ecl, version.spec_number());
    }
    if data.len() != data_capacity(version, ecl) {
        return Err(EncodeError::InternalConsistency);
    }
    let row = ecl.ordinal();
    let column = version.number() - 1;
    Ok(interleave(data, BLOCK_COUNT[row][column], EC_CODEWORDS_PER_BLOCK[row][column]))
}

} // verus!
