//! Arithmetic in GF(256), the field of the Reed–Solomon code, and the
//! polynomials over it that give the error correction codewords.
use vstd::prelude::*;

verus! {

/// The powers of the field's generator α: entry `i` is αⁱ. The powers come
/// round after 255, so the last entry is 1 again.
pub const EXP: [u8; 256] = [
    1, 2, 4, 8, 16, 32, 64, 128, 29, 58, 116, 232, 205, 135, 19, 38, 76, 152, 45, 90, 180, 117,
    234, 201, 143, 3, 6, 12, 24, 48, 96, 192, 157, 39, 78, 156, 37, 74, 148, 53, 106, 212, 181,
    119, 238, 193, 159, 35, 70, 140, 5, 10, 20, 40, 80, 160, 93, 186, 105, 210, 185, 111, 222,
    161, 95, 190, 97, 194, 153, 47, 94, 188, 101, 202, 137, 15, 30, 60, 120, 240, 253, 231,
    211, 187, 107, 214, 177, 127, 254, 225, 223, 163, 91, 182, 113, 226, 217, 175, 67, 134, 17,
    34, 68, 136, 13, 26, 52, 104, 208, 189, 103, 206, 129, 31, 62, 124, 248, 237, 199, 147, 59,
    118, 236, 197, 151, 51, 102, 204, 133, 23, 46, 92, 184, 109, 218, 169, 79, 158, 33, 66,
    132, 21, 42, 84, 168, 77, 154, 41, 82, 164, 85, 170, 73, 146, 57, 114, 228, 213, 183, 115,
    230, 209, 191, 99, 198, 145, 63, 126, 252, 229, 215, 179, 123, 246, 241, 255, 227, 219,
    171, 75, 150, 49, 98, 196, 149, 55, 110, 220, 165, 87, 174, 65, 130, 25, 50, 100, 200, 141,
    7, 14, 28, 56, 112, 224, 221, 167, 83, 166, 81, 162, 89, 178, 121, 242, 249, 239, 195, 155,
    43, 86, 172, 69, 138, 9, 18, 36, 72, 144, 61, 122, 244, 245, 247, 243, 251, 235, 203, 139,
    11, 22, 44, 88, 176, 125, 250, 233, 207, 131, 27, 54, 108, 216, 173, 71, 142, 1,
];

/// The logarithms to the base α: entry `a` is the `i` below 255 with αⁱ =
/// `a`. Entry 0 stands for nothing, 0 being no power of α.
pub const LOG: [u8; 256] = [
    0, 0, 1, 25, 2, 50, 26, 198, 3, 223, 51, 238, 27, 104, 199, 75, 4, 100, 224, 14, 52, 141,
    239, 129, 28, 193, 105, 248, 200, 8, 76, 113, 5, 138, 101, 47, 225, 36, 15, 33, 53, 147,
    142, 218, 240, 18, 130, 69, 29, 181, 194, 125, 106, 39, 249, 185, 201, 154, 9, 120, 77,
    228, 114, 166, 6, 191, 139, 98, 102, 221, 48, 253, 226, 152, 37, 179, 16, 145, 34, 136, 54,
    208, 148, 206, 143, 150, 219, 189, 241, 210, 19, 92, 131, 56, 70, 64, 30, 66, 182, 163,
    195, 72, 126, 110, 107, 58, 40, 84, 250, 133, 186, 61, 202, 94, 155, 159, 10, 21, 121, 43,
    78, 212, 229, 172, 115, 243, 167, 87, 7, 112, 192, 247, 140, 128, 99, 13, 103, 74, 222,
    237, 49, 197, 254, 24, 227, 165, 153, 119, 38, 184, 180, 124, 17, 68, 146, 217, 35, 32,
    137, 46, 55, 63, 209, 91, 149, 188, 207, 205, 144, 135, 151, 178, 220, 252, 190, 97, 242,
    86, 211, 171, 20, 42, 93, 158, 132, 60, 57, 83, 71, 109, 65, 162, 31, 45, 67, 216, 183,
    123, 164, 118, 196, 23, 73, 236, 127, 12, 111, 246, 108, 161, 59, 82, 41, 157, 85, 170,
    251, 96, 134, 177, 187, 204, 62, 90, 203, 89, 95, 176, 156, 169, 160, 81, 11, 245, 22, 235,
    122, 117, 44, 215, 79, 174, 213, 233, 230, 231, 173, 232, 116, 214, 244, 234, 168, 80, 88,
    175,
];

/// The product of `a` and the field's generator α, which is `x`: a shift,
/// reduced by the field polynomial x⁸ + x⁴ + x³ + x² + 1.
pub open spec fn xtime(a: u8) -> u8 {
    (a << 1) ^ (if a & 0x80 != 0 { 0x1d } else { 0 })
}

/// `a` where bit `i` of `b` is set, 0 where it is not.
pub open spec fn pick(b: u8, i: u8, a: u8) -> u8 {
    if (b >> i) & 1 != 0 { a } else { 0 }
}

/// The product of `a` and `b` in GF(256): the sum, which is the exclusive
/// or, of `a`·αⁱ over the bits `i` that are set in `b`.
pub open spec fn gf_mul(a: u8, b: u8) -> u8 {
    let a1 = xtime(a);
    let a2 = xtime(a1);
    let a3 = xtime(a2);
    let a4 = xtime(a3);
    let a5 = xtime(a4);
    let a6 = xtime(a5);
    let a7 = xtime(a6);
    pick(b, 0, a) ^ pick(b, 1, a1) ^ pick(b, 2, a2) ^ pick(b, 3, a3) ^ pick(b, 4, a4) ^ pick(
        b,
        5,
        a5,
    ) ^ pick(b, 6, a6) ^ pick(b, 7, a7)
}

/// The power αⁿ of the field's generator.
pub open spec fn alpha_pow(n: nat) -> u8
    decreases n,
{
    if n == 0 {
        1
    } else {
        xtime(alpha_pow((n - 1) as nat))
    }
}

/// The product of `a` and α.
pub fn times_alpha(a: u8) -> (r: u8)
    ensures
        r == xtime(a),
{
    let shifted: u8 = a << 1;
    if a & 0x80 != 0 {
        shifted ^ 0x1d
    } else {
        assert(shifted ^ 0 == shifted) by (bit_vector);
        shifted
    }
}

/// The product of `a` and α without operations on bits: a doubling, and
/// past 255 the bits of 0x1D flipped, which are bit 0 and bits 2 to 4.
pub open spec fn xtime_arith(a: int) -> int {
    if a < 128 {
        2 * a
    } else {
        let high = 2 * a - 256;
        high + 29 - 8 * ((high / 4) % 8)
    }
}

/// Whether entry `i` of the table of powers is the entry before it times
/// α.
pub open spec fn exp_entry_sound(i: int) -> bool {
    EXP[i] == xtime_arith(EXP[i - 1] as int)
}

/// Whether the entries of the table of powers above `low` up to `high` are
/// sound.
pub open spec fn exp_entries_sound(low: int, high: int) -> bool
    decreases high - low,
{
    high <= low || (exp_entry_sound(high) && exp_entries_sound(low, high - 1))
}

/// Whether entry `a` of the table of logarithms is a place in the table of
/// powers where `a` stands.
pub open spec fn log_entry_sound(a: int) -> bool {
    LOG[a] < 255 && EXP[LOG[a] as int] == a
}

/// Whether the entries of the table of logarithms above `low` up to `high`
/// are sound.
pub open spec fn log_entries_sound(low: int, high: int) -> bool
    decreases high - low,
{
    high <= low || (log_entry_sound(high) && log_entries_sound(low, high - 1))
}

/// Entries of the table of powers that are sound together are sound each.
proof fn lemma_exp_entries_sound(low: int, high: int, i: int)
    requires
        exp_entries_sound(low, high),
        low < i <= high,
    ensures
        exp_entry_sound(i),
    decreases high - low,
{
    if i < high {
        lemma_exp_entries_sound(low, high - 1, i);
    }
}

/// Entries of the table of logarithms that are sound together are sound
/// each.
proof fn lemma_log_entries_sound(low: int, high: int, a: int)
    requires
        log_entries_sound(low, high),
        low < a <= high,
    ensures
        log_entry_sound(a),
    decreases high - low,
{
    if a < high {
        lemma_log_entries_sound(low, high - 1, a);
    }
}

/// Every entry of the table of powers but the first is the entry before it
/// times α.
proof fn lemma_exp_step(i: int)
    requires
        1 <= i <= 255,
    ensures
        exp_entry_sound(i),
{
    if i <= 64 {
        assert(exp_entries_sound(0, 64)) by {
            reveal_with_fuel(exp_entries_sound, 65);
        }
        lemma_exp_entries_sound(0, 64, i);
    } else if i <= 128 {
        assert(exp_entries_sound(64, 128)) by {
            reveal_with_fuel(exp_entries_sound, 65);
        }
        lemma_exp_entries_sound(64, 128, i);
    } else if i <= 192 {
        assert(exp_entries_sound(128, 192)) by {
            reveal_with_fuel(exp_entries_sound, 65);
        }
        lemma_exp_entries_sound(128, 192, i);
    } else {
        assert(exp_entries_sound(192, 255)) by {
            reveal_with_fuel(exp_entries_sound, 65);
        }
        lemma_exp_entries_sound(192, 255, i);
    }
}

/// The table of powers holds the powers of α.
pub proof fn lemma_exp_table(i: nat)
    requires
        i <= 255,
    ensures
        EXP[i as int] == alpha_pow(i),
    decreases i,
{
    if i > 0 {
        lemma_exp_table((i - 1) as nat);
        lemma_exp_step(i as int);
        let before = EXP[i - 1];
        assert(xtime(before) == xtime_arith(before as int)) by (bit_vector);
    }
}

/// The table of logarithms undoes the table of powers: every element but 0
/// stands in the table of powers at the place that its logarithm names.
pub proof fn lemma_log_table(a: u8)
    requires
        a != 0,
    ensures
        LOG[a as int] < 255,
        EXP[LOG[a as int] as int] == a,
{
    if a <= 64 {
        assert(log_entries_sound(0, 64)) by {
            reveal_with_fuel(log_entries_sound, 65);
        }
        lemma_log_entries_sound(0, 64, a as int);
    } else if a <= 128 {
        assert(log_entries_sound(64, 128)) by {
            reveal_with_fuel(log_entries_sound, 65);
        }
        lemma_log_entries_sound(64, 128, a as int);
    } else if a <= 192 {
        assert(log_entries_sound(128, 192)) by {
            reveal_with_fuel(log_entries_sound, 65);
        }
        lemma_log_entries_sound(128, 192, a as int);
    } else {
        assert(log_entries_sound(192, 255)) by {
            reveal_with_fuel(log_entries_sound, 65);
        }
        lemma_log_entries_sound(192, 255, a as int);
    }
}

/// The product of two powers of α is the power to the sum of their
/// exponents.
pub proof fn lemma_alpha_pow_add(i: nat, j: nat)
    ensures
        alpha_pow(i + j) == gf_mul(alpha_pow(i), alpha_pow(j)),
    decreases i,
{
    let b = alpha_pow(j);
    if i == 0 {
        lemma_gf_mul_one_zero(b);
    } else {
        lemma_alpha_pow_add((i - 1) as nat, j);
        let a = alpha_pow((i - 1) as nat);
        assert(gf_mul(xtime(a), b) == xtime(gf_mul(a, b))) by (bit_vector);
        assert(alpha_pow(i + j) == xtime(alpha_pow((i - 1 + j) as nat)));
    }
}

/// The product of two elements that are not 0 is the power of α to the
/// sum of their logarithms, which stands in the table of powers at that
/// sum, less 255 where it is as much.
pub proof fn lemma_product_by_tables(a: u8, b: u8)
    requires
        a != 0,
        b != 0,
    ensures
        LOG[a as int] < 255,
        LOG[b as int] < 255,
        EXP[(LOG[a as int] + LOG[b as int]) % 255] == gf_mul(a, b),
{
    lemma_log_table(a);
    lemma_log_table(b);
    let i = LOG[a as int] as nat;
    let j = LOG[b as int] as nat;
    let sum = i + j;
    lemma_exp_table(i);
    lemma_exp_table(j);
    lemma_alpha_pow_add(i, j);
    assert(alpha_pow(sum) == gf_mul(a, b));
    if sum >= 255 {
        let rest = (sum - 255) as nat;
        lemma_exp_table(255);
        assert(EXP[255] == 1);
        lemma_alpha_pow_add(rest, 255);
        lemma_gf_mul_one_zero(alpha_pow(rest));
        assert(alpha_pow(sum) == alpha_pow(rest));
        lemma_exp_table(rest);
        assert(sum % 255 == rest);
    } else {
        lemma_exp_table(sum);
        assert(sum % 255 == sum);
    }
}

/// The product of two elements of GF(256): 0 where one of them is 0, and
/// else the power of α to the sum of their logarithms.
pub fn multiply(a: u8, b: u8) -> (p: u8)
    ensures
        p == gf_mul(a, b),
{
    if a == 0 || b == 0 {
        proof {
            lemma_gf_mul_one_zero(a);
            lemma_gf_mul_one_zero(b);
        }
        return 0;
    }
    proof {
        lemma_product_by_tables(a, b);
    }
    let sum: usize = LOG[a as usize] as usize + LOG[b as usize] as usize;
    EXP[sum % 255]
}

/// Multiplication in GF(256) is commutative.
#[verifier::rlimit(50)]
pub proof fn lemma_gf_mul_commutative(a: u8, b: u8)
    ensures
        gf_mul(a, b) == gf_mul(b, a),
{
    assert(gf_mul(a, b) == gf_mul(b, a)) by (bit_vector);
}

/// In GF(256), 1 is the identity of multiplication and 0 annihilates.
pub proof fn lemma_gf_mul_one_zero(a: u8)
    ensures
        gf_mul(a, 1) == a,
        gf_mul(1, a) == a,
        gf_mul(a, 0) == 0,
        gf_mul(0, a) == 0,
{
    assert(gf_mul(a, 1) == a && gf_mul(1, a) == a && gf_mul(a, 0) == 0 && gf_mul(0, a) == 0)
        by (bit_vector);
}

/// Multiplication in GF(256) distributes over addition, which is the
/// exclusive or.
pub proof fn lemma_gf_mul_distributive(a: u8, b: u8, c: u8)
    ensures
        gf_mul(a, b ^ c) == gf_mul(a, b) ^ gf_mul(a, c),
        gf_mul(b ^ c, a) == gf_mul(b, a) ^ gf_mul(c, a),
{
    assert(gf_mul(a, b ^ c) == gf_mul(a, b) ^ gf_mul(a, c)) by (bit_vector);
    lemma_gf_mul_commutative(a, b ^ c);
    lemma_gf_mul_commutative(a, b);
    lemma_gf_mul_commutative(a, c);
}

/// In GF(256) a product is 0 only where a factor is.
pub proof fn lemma_gf_mul_no_zero_divisors(a: u8, b: u8)
    ensures
        gf_mul(a, b) == 0 ==> a == 0 || b == 0,
{
    assert(gf_mul(a, b) == 0 ==> a == 0 || b == 0) by (bit_vector);
}

/// The product of the polynomial `p` and `x + a`. Coefficients come highest
/// power first.
pub open spec fn poly_times_root(p: Seq<u8>, a: u8) -> Seq<u8> {
    Seq::new(
        p.len() + 1,
        |i: int|
            (if i < p.len() { p[i] } else { 0u8 }) ^ (if i > 0 { gf_mul(p[i - 1], a) } else { 0u8 }),
    )
}

/// The generator polynomial of degree `n`: the product of `x + αⁱ` for `i`
/// below `n`, highest power first.
pub open spec fn gen_poly(n: nat) -> Seq<u8>
    decreases n,
{
    if n == 0 {
        seq![1u8]
    } else {
        poly_times_root(gen_poly((n - 1) as nat), alpha_pow((n - 1) as nat))
    }
}

/// One step of the long division by the monic polynomial `generator`: the
/// remainder `state` takes in the next coefficient `byte` of the dividend.
pub open spec fn rem_step(state: Seq<u8>, generator: Seq<u8>, byte: u8) -> Seq<u8> {
    let factor = byte ^ state[0];
    Seq::new(
        state.len(),
        |i: int|
            (if i + 1 < state.len() { state[i + 1] } else { 0u8 }) ^ gf_mul(generator[i + 1], factor),
    )
}

/// The remainder of the polynomial `data`, times `x` to the degree of
/// `generator`, divided by `generator`, which is taken as monic: one
/// coefficient less than `generator` has.
pub open spec fn poly_rem(data: Seq<u8>, generator: Seq<u8>) -> Seq<u8>
    decreases data.len(),
{
    if data.len() == 0 {
        Seq::new((generator.len() - 1) as nat, |i: int| 0u8)
    } else {
        rem_step(poly_rem(data.drop_last(), generator), generator, data.last())
    }
}

/// The generator polynomial has one coefficient more than its degree, and
/// is monic.
pub proof fn lemma_gen_poly_shape(n: nat)
    ensures
        gen_poly(n).len() == n + 1,
        gen_poly(n)[0] == 1,
    decreases n,
{
    if n > 0 {
        lemma_gen_poly_shape((n - 1) as nat);
        let x = gen_poly((n - 1) as nat)[0];
        assert(x ^ 0u8 == x) by (bit_vector);
    }
}

/// The remainder has one coefficient less than the generator.
pub proof fn lemma_poly_rem_len(data: Seq<u8>, generator: Seq<u8>)
    requires
        generator.len() >= 1,
    ensures
        poly_rem(data, generator).len() == generator.len() - 1,
    decreases data.len(),
{
    if data.len() > 0 {
        lemma_poly_rem_len(data.drop_last(), generator);
    }
}

/// The coefficients of the generator polynomial of the given degree,
/// highest power first.
pub fn generator_polynomial(degree: usize) -> (poly: Vec<u8>)
    ensures
        poly@ == gen_poly(degree as nat),
        poly.len() == degree + 1,
{
    let mut poly: Vec<u8> = Vec::new();
    poly.push(1);
    let mut root: u8 = 1;
    let mut n: usize = 0;
    assert(poly@ =~= gen_poly(0));
    while n < degree
        invariant
            n <= degree,
            poly@ == gen_poly(n as nat),
            poly.len() == n + 1,
            root == alpha_pow(n as nat),
        decreases degree - n,
    {
        let mut next: Vec<u8> = Vec::new();
        let len = poly.len();
        let mut i: usize = 0;
        while i < len
            invariant
                i <= len,
                len == poly.len(),
                len == n + 1,
                next.len() == i,
                forall|k: int| 0 <= k < i ==> next[k] == #[trigger] poly_times_root(poly@, root)[k],
            decreases len - i,
        {
            let carry: u8 = if i > 0 { multiply(poly[i - 1], root) } else { 0 };
            next.push(poly[i] ^ carry);
            i += 1;
        }
        next.push(0 ^ multiply(poly[len - 1], root));
        assert(next@ =~= poly_times_root(poly@, root));
        poly = next;
        root = times_alpha(root);
        n += 1;
    }
    poly
}

/// The error correction codewords of `data`: the remainder of the long
/// division of `data`, times `x` to the degree of `generator`, by
/// `generator`. The generator is taken as monic: its leading coefficient is
/// not read.
pub fn remainder(data: &[u8], generator: &[u8]) -> (ec: Vec<u8>)
    requires
        generator.len() >= 1,
    ensures
        ec@ == poly_rem(data@, generator@),
        ec.len() == generator.len() - 1,
{
    let count = generator.len() - 1;
    let mut state: Vec<u8> = Vec::new();
    let mut i: usize = 0;
    while i < count
        invariant
            i <= count,
            state.len() == i,
            forall|k: int| 0 <= k < i ==> state[k] == 0,
        decreases count - i,
    {
        state.push(0);
        i += 1;
    }
    assert(data@.take(0) =~= Seq::<u8>::empty());
    assert(state@ =~= poly_rem(data@.take(0), generator@));
    let mut d: usize = 0;
    while d < data.len()
        invariant
            d <= data.len(),
            count == generator.len() - 1,
            state.len() == count,
            state@ == poly_rem(data@.take(d as int), generator@),
        decreases data.len() - d,
    {
        if count > 0 {
            let factor = data[d] ^ state[0];
            let mut next: Vec<u8> = Vec::new();
            let mut i: usize = 0;
            while i < count
                invariant
                    i <= count,
                    count == generator.len() - 1,
                    state.len() == count,
                    count > 0,
                    d < data.len(),
                    factor == data[d as int] ^ state[0],
                    next.len() == i,
                    forall|k: int|
                        0 <= k < i ==> next[k] == #[trigger] rem_step(
                            state@,
                            generator@,
                            data[d as int],
                        )[k],
                decreases count - i,
            {
                let shifted: u8 = if i + 1 < count { state[i + 1] } else { 0 };
                next.push(shifted ^ multiply(generator[i + 1], factor));
                i += 1;
            }
            assert(next@ =~= rem_step(state@, generator@, data[d as int]));
            state = next;
        } else {
            assert(state@ =~= rem_step(state@, generator@, data[d as int]));
        }
        proof {
            let prefix = data@.take(d + 1);
            assert(prefix.drop_last() =~= data@.take(d as int));
            assert(prefix.last() == data[d as int]);
        }
        d += 1;
    }
    assert(data@.take(data.len() as int) =~= data@);
    state
}

/// Whether every coefficient is 0.
pub open spec fn is_zero(poly: Seq<u8>) -> bool {
    forall|i: int| 0 <= i < poly.len() ==> poly[i] == 0
}

/// The sum of two polynomials of one length: coefficient by coefficient,
/// the exclusive or.
pub open spec fn poly_add(a: Seq<u8>, b: Seq<u8>) -> Seq<u8> {
    Seq::new(a.len(), |i: int| a[i] ^ b[i])
}

/// The polynomial of `len` coefficients that are 0 but for `value` at
/// `place`.
pub open spec fn impulse(len: nat, place: int, value: u8) -> Seq<u8> {
    Seq::new(len, |i: int| if i == place { value } else { 0u8 })
}

/// What the exclusive or of bytes obeys.
proof fn lemma_xor(a: u8, b: u8, c: u8, d: u8)
    ensures
        (a ^ b) ^ (c ^ d) == (a ^ c) ^ (b ^ d),
        0u8 ^ 0u8 == 0u8,
        0u8 ^ a == a,
        a ^ 0u8 == a,
        a ^ (a ^ b) == b,
        a != b ==> a ^ b != 0,
        b != 0 ==> a ^ b != a,
{
    assert((a ^ b) ^ (c ^ d) == (a ^ c) ^ (b ^ d) && 0u8 ^ 0u8 == 0u8 && 0u8 ^ a == a && a ^ 0u8
        == a && a ^ (a ^ b) == b && (a != b ==> a ^ b != 0) && (b != 0 ==> a ^ b != a))
        by (bit_vector);
}

/// No power of the field's generator is 0.
pub proof fn lemma_alpha_pow_nonzero(n: nat)
    ensures
        alpha_pow(n) != 0,
    decreases n,
{
    if n > 0 {
        lemma_alpha_pow_nonzero((n - 1) as nat);
        let a = alpha_pow((n - 1) as nat);
        assert(a != 0 ==> xtime(a) != 0) by (bit_vector);
    }
}

/// The constant coefficient of a generator polynomial is not 0: `x` does
/// not divide it.
pub proof fn lemma_gen_poly_constant_nonzero(n: nat)
    ensures
        gen_poly(n).len() == n + 1,
        gen_poly(n)[n as int] != 0,
    decreases n,
{
    lemma_gen_poly_shape(n);
    if n > 0 {
        let p = gen_poly((n - 1) as nat);
        let a = alpha_pow((n - 1) as nat);
        lemma_gen_poly_constant_nonzero((n - 1) as nat);
        lemma_alpha_pow_nonzero((n - 1) as nat);
        lemma_gf_mul_no_zero_divisors(p[n - 1], a);
        lemma_xor(gf_mul(p[n - 1], a), 0, 0, 0);
    }
}

/// A step of the long division is linear: the step from the sum of two
/// remainders with the sum of two coefficients is the sum of the steps.
proof fn lemma_rem_step_linear(s1: Seq<u8>, s2: Seq<u8>, generator: Seq<u8>, b1: u8, b2: u8)
    requires
        s1.len() == s2.len(),
        s1.len() >= 1,
        generator.len() == s1.len() + 1,
    ensures
        rem_step(poly_add(s1, s2), generator, b1 ^ b2) == poly_add(
            rem_step(s1, generator, b1),
            rem_step(s2, generator, b2),
        ),
{
    let left = rem_step(poly_add(s1, s2), generator, b1 ^ b2);
    let right = poly_add(rem_step(s1, generator, b1), rem_step(s2, generator, b2));
    let f1 = b1 ^ s1[0];
    let f2 = b2 ^ s2[0];
    lemma_xor(b1, b2, s1[0], s2[0]);
    assert((b1 ^ b2) ^ poly_add(s1, s2)[0] == f1 ^ f2);
    assert forall|i: int| 0 <= i < s1.len() implies left[i] == right[i] by {
        let g = generator[i + 1];
        lemma_gf_mul_distributive(g, f1, f2);
        if i + 1 < s1.len() {
            lemma_xor(s1[i + 1], s2[i + 1], gf_mul(g, f1), gf_mul(g, f2));
        } else {
            lemma_xor(0, 0, gf_mul(g, f1), gf_mul(g, f2));
        }
    }
    assert(left =~= right);
}

/// The remainder is linear: the remainder of a sum is the sum of the
/// remainders.
pub proof fn lemma_poly_rem_linear(d1: Seq<u8>, d2: Seq<u8>, generator: Seq<u8>)
    requires
        d1.len() == d2.len(),
        generator.len() >= 2,
    ensures
        poly_rem(poly_add(d1, d2), generator) == poly_add(
            poly_rem(d1, generator),
            poly_rem(d2, generator),
        ),
    decreases d1.len(),
{
    let sum = poly_add(d1, d2);
    lemma_poly_rem_len(d1, generator);
    lemma_poly_rem_len(d2, generator);
    if d1.len() == 0 {
        lemma_xor(0, 0, 0, 0);
        assert(poly_rem(sum, generator) =~= poly_add(
            poly_rem(d1, generator),
            poly_rem(d2, generator),
        ));
    } else {
        assert(sum.drop_last() =~= poly_add(d1.drop_last(), d2.drop_last()));
        lemma_poly_rem_linear(d1.drop_last(), d2.drop_last(), generator);
        lemma_poly_rem_len(d1.drop_last(), generator);
        lemma_poly_rem_len(d2.drop_last(), generator);
        lemma_rem_step_linear(
            poly_rem(d1.drop_last(), generator),
            poly_rem(d2.drop_last(), generator),
            generator,
            d1.last(),
            d2.last(),
        );
    }
}

/// Where the constant coefficient of the generator is not 0, a remainder
/// that is not 0 does not become 0 by taking in a coefficient 0.
proof fn lemma_rem_step_keeps_nonzero(state: Seq<u8>, generator: Seq<u8>)
    requires
        state.len() >= 1,
        generator.len() == state.len() + 1,
        generator[state.len() as int] != 0,
        !is_zero(state),
    ensures
        !is_zero(rem_step(state, generator, 0)),
{
    let next = rem_step(state, generator, 0);
    let n = state.len() as int;
    if is_zero(next) {
        lemma_xor(state[0], 0, 0, 0);
        let factor = 0u8 ^ state[0];
        assert(next[n - 1] == 0);
        lemma_xor(gf_mul(generator[n], factor), 0, 0, 0);
        lemma_gf_mul_no_zero_divisors(generator[n], factor);
        assert(state[0] == 0);
        assert forall|i: int| 0 <= i < n implies state[i] == 0 by {
            if i > 0 {
                assert(next[i - 1] == 0);
                lemma_gf_mul_one_zero(generator[i]);
                lemma_xor(state[i], 0, 0, 0);
            }
        }
        assert(is_zero(state));
    }
}

/// Where the constant coefficient of the generator is not 0, the remainder
/// of a polynomial with a single coefficient that is not 0 is not 0.
proof fn lemma_impulse_remainder(len: nat, place: int, value: u8, generator: Seq<u8>)
    requires
        generator.len() >= 2,
        generator[generator.len() - 1] != 0,
        value != 0,
        0 <= place,
    ensures
        len <= place ==> is_zero(poly_rem(impulse(len, place, value), generator)),
        len > place ==> !is_zero(poly_rem(impulse(len, place, value), generator)),
    decreases len,
{
    let data = impulse(len, place, value);
    let n = generator.len() - 1;
    lemma_poly_rem_len(data, generator);
    if len > 0 {
        let before = impulse((len - 1) as nat, place, value);
        assert(data.drop_last() =~= before);
        lemma_impulse_remainder((len - 1) as nat, place, value, generator);
        lemma_poly_rem_len(before, generator);
        let state = poly_rem(before, generator);
        let next = rem_step(state, generator, data.last());
        if len - 1 < place {
            assert forall|i: int| 0 <= i < n implies next[i] == 0 by {
                lemma_xor(0, 0, 0, 0);
                lemma_gf_mul_one_zero(generator[i + 1]);
            }
        } else if len - 1 == place {
            lemma_xor(value, 0, 0, 0);
            lemma_gf_mul_no_zero_divisors(generator[n], value);
            lemma_xor(gf_mul(generator[n], value), 0, 0, 0);
            assert(next[n - 1] != 0);
        } else {
            lemma_rem_step_keeps_nonzero(state, generator);
        }
    }
}

/// A block with one codeword changed no longer agrees with itself: the
/// error correction codewords computed from the data codewords received
/// are not the error correction codewords received. So whoever checks a
/// block in this way sees every corruption of a single codeword.
pub proof fn lemma_single_corruption_detected(data: Seq<u8>, degree: nat, place: int, value: u8)
    requires
        degree >= 1,
        0 <= place < data.len() + degree,
        value != (data + poly_rem(data, gen_poly(degree)))[place],
    ensures
        ({
            let received = (data + poly_rem(data, gen_poly(degree))).update(place, value);
            poly_rem(received.take(data.len() as int), gen_poly(degree)) != received.skip(
                data.len() as int,
            )
        }),
{
    let generator = gen_poly(degree);
    let correction = poly_rem(data, generator);
    let block = data + correction;
    let received = block.update(place, value);
    let received_data = received.take(data.len() as int);
    let received_correction = received.skip(data.len() as int);
    lemma_gen_poly_constant_nonzero(degree);
    lemma_poly_rem_len(data, generator);
    if place >= data.len() {
        assert(received_data =~= data);
        assert(received_correction[place - data.len()] == value);
        assert(correction[place - data.len()] == block[place]);
    } else {
        assert(received_correction =~= correction);
        let change = data[place] ^ value;
        let error = impulse(data.len(), place, change);
        lemma_xor(data[place], value, 0, 0);
        assert forall|i: int| 0 <= i < data.len() implies received_data[i] == poly_add(
            data,
            error,
        )[i] by {
            lemma_xor(data[i], value, 0, 0);
        }
        assert(received_data =~= poly_add(data, error));
        lemma_poly_rem_linear(data, error, generator);
        lemma_impulse_remainder(data.len(), place, change, generator);
        let shift = poly_rem(error, generator);
        lemma_poly_rem_len(error, generator);
        let at = choose|i: int| 0 <= i < shift.len() && shift[i] != 0;
        lemma_xor(correction[at], shift[at], 0, 0);
        assert(poly_add(correction, shift)[at] != correction[at]);
    }
}

} // verus!
