//! Encoding modes and the packing of a segment into bits.
use crate::bitstring::{bits_of, lemma_bits_of_len, lemma_value_of_bits_of, value_of, BitStream};
use crate::error::EncodeError;
use crate::version::Version;
use vstd::arithmetic::power2::{lemma2_to64, pow2};
use vstd::prelude::*;

verus! {

/// The way characters are packed into bits.
#[derive(Clone, Copy, PartialEq, Eq, Structural, Debug)]
pub enum Mode {
    /// Decimal digits, three to ten bits.
    Numeric,
    /// Digits, upper case letters, space and `$%*+-./:`, two to eleven bits.
    Alphanumeric,
    /// Any bytes, eight bits each.
    Byte,
}

impl Mode {
    /// Position of the mode in the order of decreasing density.
    pub open spec fn spec_ordinal(self) -> int {
        match self {
            Mode::Numeric => 0,
            Mode::Alphanumeric => 1,
            Mode::Byte => 2,
        }
    }

    /// Position of the mode in the order of decreasing density.
    pub fn ordinal(&self) -> (n: usize)
        ensures
            n == self.spec_ordinal(),
    {
        match self {
            Mode::Numeric => 0,
            Mode::Alphanumeric => 1,
            Mode::Byte => 2,
        }
    }
}

/// Whether `byte` is an ASCII digit.
pub open spec fn is_digit(byte: u8) -> bool {
    0x30 <= byte <= 0x39
}

/// The value of `byte` in the alphanumeric set: digits 0 to 9, upper case
/// letters 10 to 35, then space and `$%*+-./:` 36 to 44. Outside the set, -1.
pub open spec fn alphanumeric_code(byte: u8) -> int {
    if 0x30 <= byte <= 0x39 {
        byte - 0x30
    } else if 0x41 <= byte <= 0x5A {
        byte - 0x41 + 10
    } else if byte == 0x20 {
        36
    } else if byte == 0x24 {
        37
    } else if byte == 0x25 {
        38
    } else if byte == 0x2A {
        39
    } else if byte == 0x2B {
        40
    } else if byte == 0x2D {
        41
    } else if byte == 0x2E {
        42
    } else if byte == 0x2F {
        43
    } else if byte == 0x3A {
        44
    } else {
        -1
    }
}

/// Whether `byte` is in the alphanumeric set.
pub open spec fn is_alphanumeric(byte: u8) -> bool {
    alphanumeric_code(byte) >= 0
}

/// Whether every byte of `data` can be written in `mode`.
pub open spec fn mode_admits(mode: Mode, data: Seq<u8>) -> bool {
    match mode {
        Mode::Numeric => forall|i: int| 0 <= i < data.len() ==> is_digit(#[trigger] data[i]),
        Mode::Alphanumeric => forall|i: int|
            0 <= i < data.len() ==> is_alphanumeric(#[trigger] data[i]),
        Mode::Byte => true,
    }
}

/// The densest mode that can write `data`.
pub open spec fn best_mode(data: Seq<u8>) -> Mode {
    if mode_admits(Mode::Numeric, data) {
        Mode::Numeric
    } else if mode_admits(Mode::Alphanumeric, data) {
        Mode::Alphanumeric
    } else {
        Mode::Byte
    }
}

/// The four bits that announce the mode.
pub open spec fn mode_indicator(mode: Mode) -> nat {
    match mode {
        Mode::Numeric => 1,
        Mode::Alphanumeric => 2,
        Mode::Byte => 4,
    }
}

/// Number of bits of the character count, which grows with the version:
/// one width for versions 1 to 9, one for 10 to 26, one for 27 to 40.
pub open spec fn count_bits(mode: Mode, version: int) -> nat {
    match mode {
        Mode::Numeric => if version <= 9 {
            10
        } else if version <= 26 {
            12
        } else {
            14
        },
        Mode::Alphanumeric => if version <= 9 {
            9
        } else if version <= 26 {
            11
        } else {
            13
        },
        Mode::Byte => if version <= 9 {
            8
        } else {
            16
        },
    }
}

/// The digit that `byte` stands for.
pub open spec fn digit(byte: u8) -> nat {
    (byte - 0x30) as nat
}

/// Digits in numeric mode: three to ten bits, a last pair to seven, a last
/// single one to four.
pub open spec fn numeric_bits(data: Seq<u8>) -> Seq<bool>
    decreases data.len(),
{
    if data.len() == 0 {
        Seq::empty()
    } else if data.len() == 1 {
        bits_of(digit(data[0]), 4)
    } else if data.len() == 2 {
        bits_of(10 * digit(data[0]) + digit(data[1]), 7)
    } else {
        bits_of(100 * digit(data[0]) + 10 * digit(data[1]) + digit(data[2]), 10) + numeric_bits(
            data.skip(3),
        )
    }
}

/// Characters in alphanumeric mode: two to eleven bits, a last single one
/// to six.
pub open spec fn alphanumeric_bits(data: Seq<u8>) -> Seq<bool>
    decreases data.len(),
{
    if data.len() == 0 {
        Seq::empty()
    } else if data.len() == 1 {
        bits_of(alphanumeric_code(data[0]) as nat, 6)
    } else {
        bits_of((45 * alphanumeric_code(data[0]) + alphanumeric_code(data[1])) as nat, 11)
            + alphanumeric_bits(data.skip(2))
    }
}

/// Bytes in byte mode: eight bits each.
pub open spec fn byte_bits(data: Seq<u8>) -> Seq<bool>
    decreases data.len(),
{
    if data.len() == 0 {
        Seq::empty()
    } else {
        bits_of(data[0] as nat, 8) + byte_bits(data.skip(1))
    }
}

/// The characters of `data` packed in `mode`.
pub open spec fn payload_bits(mode: Mode, data: Seq<u8>) -> Seq<bool> {
    match mode {
        Mode::Numeric => numeric_bits(data),
        Mode::Alphanumeric => alphanumeric_bits(data),
        Mode::Byte => byte_bits(data),
    }
}

/// The segment that holds `data` in `mode` in a symbol of the version: mode
/// indicator, character count, characters.
pub open spec fn segment_bits(data: Seq<u8>, mode: Mode, version: int) -> Seq<bool> {
    bits_of(mode_indicator(mode), 4) + bits_of(data.len(), count_bits(mode, version))
        + payload_bits(mode, data)
}

/// Number of bits that `len` characters take in `mode`.
pub open spec fn payload_len(mode: Mode, len: int) -> int {
    match mode {
        Mode::Numeric => 10 * (len / 3) + (if len % 3 == 1 {
            4int
        } else if len % 3 == 2 {
            7int
        } else {
            0int
        }),
        Mode::Alphanumeric => 11 * (len / 2) + 6 * (len % 2),
        Mode::Byte => 8 * len,
    }
}

/// The value of `byte` in the alphanumeric set, if it is in it.
pub fn alphanumeric_value(byte: u8) -> (r: Option<u8>)
    ensures
        match r {
            Some(code) => code == alphanumeric_code(byte) && code < 45,
            None => !is_alphanumeric(byte),
        },
{
    if 0x30 <= byte && byte <= 0x39 {
        Some(byte - 0x30)
    } else if 0x41 <= byte && byte <= 0x5A {
        Some(byte - 0x41 + 10)
    } else if byte == 0x20 {
        Some(36)
    } else if byte == 0x24 {
        Some(37)
    } else if byte == 0x25 {
        Some(38)
    } else if byte == 0x2A {
        Some(39)
    } else if byte == 0x2B {
        Some(40)
    } else if byte == 0x2D {
        Some(41)
    } else if byte == 0x2E {
        Some(42)
    } else if byte == 0x2F {
        Some(43)
    } else if byte == 0x3A {
        Some(44)
    } else {
        None
    }
}

/// The densest mode that can write `data`: numeric for digits only, else
/// alphanumeric for the alphanumeric set only, else byte.
pub fn choose_mode(data: &[u8]) -> (mode: Mode)
    ensures
        mode == best_mode(data@),
{
    let mut numeric = true;
    let mut alphanumeric = true;
    let mut i: usize = 0;
    while i < data.len()
        invariant
            i <= data.len(),
            numeric == mode_admits(Mode::Numeric, data@.take(i as int)),
            alphanumeric == mode_admits(Mode::Alphanumeric, data@.take(i as int)),
        decreases data.len() - i,
    {
        let byte = data[i];
        let ghost before = data@.take(i as int);
        let ghost after = data@.take(i + 1);
        proof {
            assert(after[i as int] == byte);
            assert forall|k: int| 0 <= k < i implies before[k] == after[k] by {}
            if mode_admits(Mode::Numeric, before) && is_digit(byte) {
                assert forall|k: int| 0 <= k < after.len() implies is_digit(
                    #[trigger] after[k],
                ) by {
                    if k < i {
                        assert(before[k] == after[k]);
                    }
                }
            }
            if mode_admits(Mode::Numeric, after) {
                assert forall|k: int| 0 <= k < before.len() implies is_digit(
                    #[trigger] before[k],
                ) by {
                    assert(before[k] == after[k]);
                }
            }
            if mode_admits(Mode::Alphanumeric, before) && is_alphanumeric(byte) {
                assert forall|k: int| 0 <= k < after.len() implies is_alphanumeric(
                    #[trigger] after[k],
                ) by {
                    if k < i {
                        assert(before[k] == after[k]);
                    }
                }
            }
            if mode_admits(Mode::Alphanumeric, after) {
                assert forall|k: int| 0 <= k < before.len() implies is_alphanumeric(
                    #[trigger] before[k],
                ) by {
                    assert(before[k] == after[k]);
                }
            }
        }
        if !(0x30 <= byte && byte <= 0x39) {
            numeric = false;
        }
        if alphanumeric_value(byte).is_none() {
            alphanumeric = false;
        }
        i += 1;
    }
    assert(data@.take(data.len() as int) =~= data@);
    if numeric {
        Mode::Numeric
    } else if alphanumeric {
        Mode::Alphanumeric
    } else {
        Mode::Byte
    }
}

/// A mode that admits some data admits it in every less dense mode too,
/// and the mode chosen for it is the densest that admits it.
pub proof fn lemma_modes_nest(data: Seq<u8>, mode: Mode)
    ensures
        mode_admits(Mode::Numeric, data) ==> mode_admits(Mode::Alphanumeric, data),
        mode_admits(Mode::Alphanumeric, data) ==> mode_admits(Mode::Byte, data),
        mode_admits(best_mode(data), data),
        mode_admits(mode, data) ==> best_mode(data).spec_ordinal() <= mode.spec_ordinal(),
{
    if mode_admits(Mode::Numeric, data) {
        assert forall|i: int| 0 <= i < data.len() implies is_alphanumeric(#[trigger] data[i]) by {
            assert(is_digit(data[i]));
        }
    }
}

/// Number of bits of the character count in `mode` for the version.
pub fn count_indicator_bits(mode: Mode, version: Version) -> (n: usize)
    ensures
        n == count_bits(mode, version.spec_number()),
        8 <= n <= 16,
{
    let number = version.number();
    match mode {
        Mode::Numeric => if number <= 9 {
            10
        } else if number <= 26 {
            12
        } else {
            14
        },
        Mode::Alphanumeric => if number <= 9 {
            9
        } else if number <= 26 {
            11
        } else {
            13
        },
        Mode::Byte => if number <= 9 {
            8
        } else {
            16
        },
    }
}

/// Appends a value that is known to fit in its width.
fn push_fitting(stream: &mut BitStream, value: u32, width: usize)
    requires
        !old(stream).finalized(),
        value < pow2(width as nat),
        old(stream)@.len() + width <= usize::MAX,
    ensures
        final(stream)@ == old(stream)@ + bits_of(value as nat, width as nat),
        !final(stream).finalized(),
{
    match stream.push_bits(value, width) {
        Ok(()) => {},
        Err(_) => {},
    }
}

/// Appends digits in numeric mode.
fn push_numeric(stream: &mut BitStream, data: &[u8])
    requires
        !old(stream).finalized(),
        mode_admits(Mode::Numeric, data@),
        old(stream)@.len() + 4 * data.len() + 10 <= usize::MAX,
    ensures
        final(stream)@ == old(stream)@ + numeric_bits(data@),
        !final(stream).finalized(),
{
    let ghost before = stream@;
    let len = data.len();
    let mut i: usize = 0;
    proof {
        lemma2_to64();
        assert(data@.skip(0) =~= data@);
        assert(stream@ =~= before + Seq::<bool>::empty());
    }
    while len - i >= 3
        invariant
            i <= len,
            len == data.len(),
            !stream.finalized(),
            mode_admits(Mode::Numeric, data@),
            before.len() + 4 * len + 10 <= usize::MAX,
            stream@.len() <= before.len() + 4 * i,
            stream@ + numeric_bits(data@.skip(i as int)) == before + numeric_bits(data@),
            pow2(10) == 1024,
        decreases len - i,
    {
        let ghost rest = data@.skip(i as int);
        assert(is_digit(data@[i as int]) && is_digit(data@[i + 1]) && is_digit(data@[i + 2]));
        let group: u32 = 100 * (data[i] - 0x30) as u32 + 10 * (data[i + 1] - 0x30) as u32 + (data[i
            + 2] - 0x30) as u32;
        let ghost prev = stream@;
        push_fitting(stream, group, 10);
        proof {
            lemma_bits_of_len(group as nat, 10);
            assert(rest.skip(3) =~= data@.skip(i + 3));
            assert(numeric_bits(rest) == bits_of(group as nat, 10) + numeric_bits(rest.skip(3)));
            assert(stream@ + numeric_bits(data@.skip(i + 3)) =~= prev + numeric_bits(rest));
        }
        i += 3;
    }
    let ghost rest = data@.skip(i as int);
    let ghost prev = stream@;
    if len - i == 2 {
        assert(is_digit(data@[i as int]) && is_digit(data@[i + 1]));
        let group: u32 = 10 * (data[i] - 0x30) as u32 + (data[i + 1] - 0x30) as u32;
        push_fitting(stream, group, 7);
        assert(numeric_bits(rest) == bits_of(group as nat, 7));
    } else if len - i == 1 {
        assert(is_digit(data@[i as int]));
        let group: u32 = (data[i] - 0x30) as u32;
        push_fitting(stream, group, 4);
        assert(numeric_bits(rest) == bits_of(group as nat, 4));
    } else {
        assert(stream@ =~= prev + numeric_bits(rest));
    }
}

/// Appends characters in alphanumeric mode.
fn push_alphanumeric(stream: &mut BitStream, data: &[u8])
    requires
        !old(stream).finalized(),
        mode_admits(Mode::Alphanumeric, data@),
        old(stream)@.len() + 6 * data.len() + 11 <= usize::MAX,
    ensures
        final(stream)@ == old(stream)@ + alphanumeric_bits(data@),
        !final(stream).finalized(),
{
    let ghost before = stream@;
    let len = data.len();
    let mut i: usize = 0;
    proof {
        lemma2_to64();
        assert(data@.skip(0) =~= data@);
        assert(stream@ =~= before + Seq::<bool>::empty());
    }
    while len - i >= 2
        invariant
            i <= len,
            len == data.len(),
            !stream.finalized(),
            mode_admits(Mode::Alphanumeric, data@),
            before.len() + 6 * len + 11 <= usize::MAX,
            stream@.len() <= before.len() + 6 * i,
            stream@ + alphanumeric_bits(data@.skip(i as int)) == before + alphanumeric_bits(data@),
            pow2(11) == 2048,
        decreases len - i,
    {
        let ghost rest = data@.skip(i as int);
        assert(is_alphanumeric(data@[i as int]) && is_alphanumeric(data@[i + 1]));
        let first: u32 = match alphanumeric_value(data[i]) {
            Some(code) => code as u32,
            None => 0,
        };
        let second: u32 = match alphanumeric_value(data[i + 1]) {
            Some(code) => code as u32,
            None => 0,
        };
        let group: u32 = 45 * first + second;
        let ghost prev = stream@;
        push_fitting(stream, group, 11);
        proof {
            lemma_bits_of_len(group as nat, 11);
            assert(rest.skip(2) =~= data@.skip(i + 2));
            assert(alphanumeric_bits(rest) == bits_of(group as nat, 11) + alphanumeric_bits(
                rest.skip(2),
            ));
            assert(stream@ + alphanumeric_bits(data@.skip(i + 2)) =~= prev + alphanumeric_bits(
                rest,
            ));
        }
        i += 2;
    }
    let ghost rest = data@.skip(i as int);
    let ghost prev = stream@;
    if len - i == 1 {
        assert(is_alphanumeric(data@[i as int]));
        let code: u32 = match alphanumeric_value(data[i]) {
            Some(code) => code as u32,
            None => 0,
        };
        push_fitting(stream, code, 6);
        assert(alphanumeric_bits(rest) == bits_of(code as nat, 6));
    } else {
        assert(stream@ =~= prev + alphanumeric_bits(rest));
    }
}

/// Appends bytes in byte mode.
fn push_bytes(stream: &mut BitStream, data: &[u8])
    requires
        !old(stream).finalized(),
        old(stream)@.len() + 8 * data.len() <= usize::MAX,
    ensures
        final(stream)@ == old(stream)@ + byte_bits(data@),
        !final(stream).finalized(),
{
    let ghost before = stream@;
    let len = data.len();
    let mut i: usize = 0;
    proof {
        lemma2_to64();
        assert(data@.skip(0) =~= data@);
        assert(stream@ =~= before + Seq::<bool>::empty());
    }
    while i < len
        invariant
            i <= len,
            len == data.len(),
            !stream.finalized(),
            before.len() + 8 * len <= usize::MAX,
            stream@.len() == before.len() + 8 * i,
            stream@ + byte_bits(data@.skip(i as int)) == before + byte_bits(data@),
            pow2(8) == 256,
        decreases len - i,
    {
        let ghost rest = data@.skip(i as int);
        let ghost prev = stream@;
        push_fitting(stream, data[i] as u32, 8);
        proof {
            lemma_bits_of_len(data[i as int] as nat, 8);
            assert(rest.skip(1) =~= data@.skip(i + 1));
            assert(byte_bits(rest) == bits_of(data[i as int] as nat, 8) + byte_bits(rest.skip(1)));
            assert(stream@ + byte_bits(data@.skip(i + 1)) =~= prev + byte_bits(rest));
        }
        i += 1;
    }
    assert(stream@ =~= stream@ + byte_bits(data@.skip(len as int)));
}

/// The mode in which `data` is written where `mode` is asked for: `mode`
/// itself if it admits `data`, and else the densest mode that does.
pub open spec fn resolved_mode(mode: Mode, data: Seq<u8>) -> Mode {
    if mode_admits(mode, data) {
        mode
    } else {
        best_mode(data)
    }
}

/// The mode in which `data` is written where `mode` is asked for: `mode`
/// itself if it admits `data`, and else the densest mode that does.
pub fn resolve_mode(data: &[u8], mode: Mode) -> (resolved: Mode)
    ensures
        resolved == resolved_mode(mode, data@),
        mode_admits(resolved, data@),
{
    let best = choose_mode(data);
    proof {
        lemma_modes_nest(data@, mode);
    }
    if best.ordinal() <= mode.ordinal() {
        mode
    } else {
        best
    }
}

/// Packs `data` into the segment of a symbol of the version: mode
/// indicator, character count and the characters, in `mode` if it admits
/// them and else in the densest mode that does. Refused where the character
/// count cannot say the length of `data`.
pub fn encode_segment(data: &[u8], mode: Mode, version: Version) -> (r: Result<
    BitStream,
    EncodeError,
>)
    ensures
        match r {
            Ok(stream) => {
                &&& data.len() < pow2(
                    count_bits(resolved_mode(mode, data@), version.spec_number()),
                )
                &&& stream@ == segment_bits(
                    data@,
                    resolved_mode(mode, data@),
                    version.spec_number(),
                )
                &&& !stream.finalized()
            },
            Err(e) => {
                &&& e == EncodeError::CapacityExceeded
                &&& data.len() >= pow2(
                    count_bits(resolved_mode(mode, data@), version.spec_number()),
                )
            },
        },
{
    let mode = resolve_mode(data, mode);
    let width = count_indicator_bits(mode, version);
    proof {
        lemma2_to64();
    }
    if data.len() >= 0x10000 {
        return Err(EncodeError::CapacityExceeded);
    }
    let mut stream = BitStream::new();
    let indicator: u32 = match mode {
        Mode::Numeric => 1,
        Mode::Alphanumeric => 2,
        Mode::Byte => 4,
    };
    push_fitting(&mut stream, indicator, 4);
    proof {
        lemma_bits_of_len(indicator as nat, 4);
    }
    match stream.push_bits(data.len() as u32, width) {
        Ok(()) => {},
        Err(_) => {
            return Err(EncodeError::CapacityExceeded);
        },
    }
    proof {
        lemma_bits_of_len(data.len() as nat, width as nat);
    }
    match mode {
        Mode::Numeric => push_numeric(&mut stream, data),
        Mode::Alphanumeric => push_alphanumeric(&mut stream, data),
        Mode::Byte => push_bytes(&mut stream, data),
    }
    Ok(stream)
}

/// The byte of the digit `d`.
pub open spec fn digit_byte(d: nat) -> u8 {
    (0x30 + d) as u8
}

/// The byte whose value in the alphanumeric set is `code`.
pub open spec fn alphanumeric_byte(code: nat) -> u8 {
    if code < 10 {
        (0x30 + code) as u8
    } else if code < 36 {
        (0x41 + code - 10) as u8
    } else if code == 36 {
        0x20
    } else if code == 37 {
        0x24
    } else if code == 38 {
        0x25
    } else if code == 39 {
        0x2A
    } else if code == 40 {
        0x2B
    } else if code == 41 {
        0x2D
    } else if code == 42 {
        0x2E
    } else if code == 43 {
        0x2F
    } else {
        0x3A
    }
}

/// The `count` digits that the bits spell in numeric mode.
pub open spec fn decode_numeric(bits: Seq<bool>, count: nat) -> Seq<u8>
    decreases count,
{
    if count == 0 {
        Seq::empty()
    } else if count == 1 {
        seq![digit_byte(value_of(bits.take(4)))]
    } else if count == 2 {
        let group = value_of(bits.take(7));
        seq![digit_byte(group / 10), digit_byte(group % 10)]
    } else {
        let group = value_of(bits.take(10));
        seq![digit_byte(group / 100), digit_byte((group / 10) % 10), digit_byte(group % 10)]
            + decode_numeric(bits.skip(10), (count - 3) as nat)
    }
}

/// The `count` characters that the bits spell in alphanumeric mode.
pub open spec fn decode_alphanumeric(bits: Seq<bool>, count: nat) -> Seq<u8>
    decreases count,
{
    if count == 0 {
        Seq::empty()
    } else if count == 1 {
        seq![alphanumeric_byte(value_of(bits.take(6)))]
    } else {
        let group = value_of(bits.take(11));
        seq![alphanumeric_byte(group / 45), alphanumeric_byte(group % 45)] + decode_alphanumeric(
            bits.skip(11),
            (count - 2) as nat,
        )
    }
}

/// The `count` bytes that the bits spell in byte mode.
pub open spec fn decode_bytes(bits: Seq<bool>, count: nat) -> Seq<u8>
    decreases count,
{
    if count == 0 {
        Seq::empty()
    } else {
        seq![value_of(bits.take(8)) as u8] + decode_bytes(bits.skip(8), (count - 1) as nat)
    }
}

/// The characters that a segment of a symbol of the version spells, read
/// bit for bit: the mode from its first four bits, the number of characters
/// from the character count, then the characters by the rules of the mode.
pub open spec fn decode_segment(bits: Seq<bool>, version: int) -> Seq<u8> {
    let indicator = value_of(bits.take(4));
    let mode = if indicator == 1 {
        Mode::Numeric
    } else if indicator == 2 {
        Mode::Alphanumeric
    } else {
        Mode::Byte
    };
    let width = count_bits(mode, version);
    let count = value_of(bits.subrange(4, (4 + width) as int));
    let payload = bits.skip((4 + width) as int);
    match mode {
        Mode::Numeric => decode_numeric(payload, count),
        Mode::Alphanumeric => decode_alphanumeric(payload, count),
        Mode::Byte => decode_bytes(payload, count),
    }
}

/// Digits packed in numeric mode, whatever follows them, read back as they
/// were.
#[verifier::rlimit(50)]
pub proof fn lemma_numeric_round_trip(data: Seq<u8>, rest: Seq<bool>)
    requires
        mode_admits(Mode::Numeric, data),
    ensures
        decode_numeric(numeric_bits(data) + rest, data.len()) == data,
    decreases data.len(),
{
    lemma2_to64();
    let bits = numeric_bits(data) + rest;
    if data.len() == 0 {
        assert(decode_numeric(bits, 0) =~= data);
    } else if data.len() == 1 {
        assert(is_digit(data[0]));
        let group = digit(data[0]);
        lemma_bits_of_len(group, 4);
        lemma_value_of_bits_of(group, 4);
        assert(bits.take(4) =~= bits_of(group, 4));
        assert(decode_numeric(bits, 1) =~= data);
    } else if data.len() == 2 {
        assert(is_digit(data[0]) && is_digit(data[1]));
        let group = 10 * digit(data[0]) + digit(data[1]);
        lemma_bits_of_len(group, 7);
        lemma_value_of_bits_of(group, 7);
        assert(bits.take(7) =~= bits_of(group, 7));
        assert(decode_numeric(bits, 2) =~= data);
    } else {
        assert(is_digit(data[0]) && is_digit(data[1]) && is_digit(data[2]));
        let group = 100 * digit(data[0]) + 10 * digit(data[1]) + digit(data[2]);
        let tail = data.skip(3);
        lemma_bits_of_len(group, 10);
        lemma_value_of_bits_of(group, 10);
        assert(bits.take(10) =~= bits_of(group, 10));
        assert(bits.skip(10) =~= numeric_bits(tail) + rest);
        assert forall|i: int| 0 <= i < tail.len() implies is_digit(#[trigger] tail[i]) by {
            assert(tail[i] == data[i + 3]);
        }
        lemma_numeric_round_trip(tail, rest);
        assert(group / 100 == digit(data[0]));
        assert((group / 10) % 10 == digit(data[1]));
        assert(group % 10 == digit(data[2]));
        assert(decode_numeric(bits, data.len()) =~= data);
    }
}

/// A byte of the alphanumeric set is the byte of its value.
pub proof fn lemma_alphanumeric_byte(byte: u8)
    requires
        is_alphanumeric(byte),
    ensures
        0 <= alphanumeric_code(byte) < 45,
        alphanumeric_byte(alphanumeric_code(byte) as nat) == byte,
{
}

/// Characters packed in alphanumeric mode, whatever follows them, read back
/// as they were.
pub proof fn lemma_alphanumeric_round_trip(data: Seq<u8>, rest: Seq<bool>)
    requires
        mode_admits(Mode::Alphanumeric, data),
    ensures
        decode_alphanumeric(alphanumeric_bits(data) + rest, data.len()) == data,
    decreases data.len(),
{
    lemma2_to64();
    let bits = alphanumeric_bits(data) + rest;
    if data.len() == 0 {
        assert(decode_alphanumeric(bits, 0) =~= data);
    } else if data.len() == 1 {
        assert(is_alphanumeric(data[0]));
        lemma_alphanumeric_byte(data[0]);
        let group = alphanumeric_code(data[0]) as nat;
        lemma_bits_of_len(group, 6);
        lemma_value_of_bits_of(group, 6);
        assert(bits.take(6) =~= bits_of(group, 6));
        assert(decode_alphanumeric(bits, 1) =~= data);
    } else {
        assert(is_alphanumeric(data[0]) && is_alphanumeric(data[1]));
        lemma_alphanumeric_byte(data[0]);
        lemma_alphanumeric_byte(data[1]);
        let first = alphanumeric_code(data[0]);
        let second = alphanumeric_code(data[1]);
        let group = (45 * first + second) as nat;
        let tail = data.skip(2);
        lemma_bits_of_len(group, 11);
        lemma_value_of_bits_of(group, 11);
        assert(bits.take(11) =~= bits_of(group, 11));
        assert(bits.skip(11) =~= alphanumeric_bits(tail) + rest);
        assert forall|i: int| 0 <= i < tail.len() implies is_alphanumeric(#[trigger] tail[i]) by {
            assert(tail[i] == data[i + 2]);
        }
        lemma_alphanumeric_round_trip(tail, rest);
        assert(group / 45 == first);
        assert(group % 45 == second);
        assert(decode_alphanumeric(bits, data.len()) =~= data);
    }
}

/// Bytes packed in byte mode, whatever follows them, read back as they
/// were.
pub proof fn lemma_bytes_round_trip(data: Seq<u8>, rest: Seq<bool>)
    ensures
        decode_bytes(byte_bits(data) + rest, data.len()) == data,
    decreases data.len(),
{
    lemma2_to64();
    let bits = byte_bits(data) + rest;
    if data.len() == 0 {
        assert(decode_bytes(bits, 0) =~= data);
    } else {
        let tail = data.skip(1);
        lemma_bits_of_len(data[0] as nat, 8);
        lemma_value_of_bits_of(data[0] as nat, 8);
        assert(bits.take(8) =~= bits_of(data[0] as nat, 8));
        assert(bits.skip(8) =~= byte_bits(tail) + rest);
        lemma_bytes_round_trip(tail, rest);
        assert(decode_bytes(bits, data.len()) =~= data);
    }
}

/// A segment read back bit for bit gives the characters that were packed
/// into it, in every mode that admits them and every version whose
/// character count can say their number.
pub proof fn lemma_segment_round_trip(data: Seq<u8>, mode: Mode, version: int)
    requires
        mode_admits(mode, data),
        data.len() < pow2(count_bits(mode, version)),
    ensures
        decode_segment(segment_bits(data, mode, version), version) == data,
{
    lemma2_to64();
    let width = count_bits(mode, version);
    let head = bits_of(mode_indicator(mode), 4);
    let count = bits_of(data.len(), width);
    let payload = payload_bits(mode, data);
    let bits = segment_bits(data, mode, version);
    lemma_bits_of_len(mode_indicator(mode), 4);
    lemma_bits_of_len(data.len(), width);
    lemma_value_of_bits_of(mode_indicator(mode), 4);
    lemma_value_of_bits_of(data.len(), width);
    assert(bits.take(4) =~= head);
    assert(bits.subrange(4, (4 + width) as int) =~= count);
    assert(bits.skip((4 + width) as int) =~= payload);
    assert(payload =~= payload + Seq::<bool>::empty());
    match mode {
        Mode::Numeric => lemma_numeric_round_trip(data, Seq::empty()),
        Mode::Alphanumeric => lemma_alphanumeric_round_trip(data, Seq::empty()),
        Mode::Byte => lemma_bytes_round_trip(data, Seq::empty()),
    }
}

} // verus!
