//! An append-only sequence of bits, padded and read out as codewords.
use vstd::arithmetic::div_mod::{lemma_basic_div, lemma_div_denominator, lemma_div_non_zero};
use vstd::arithmetic::power2::{lemma2_to64, lemma_pow2_pos, lemma_pow2_unfold, pow2};
use vstd::prelude::*;

verus! {

/// The `width` low bits of `value`, most significant first.
pub open spec fn bits_of(value: nat, width: nat) -> Seq<bool>
    decreases width,
{
    if width == 0 {
        Seq::empty()
    } else {
        bits_of(value / 2, (width - 1) as nat).push(value % 2 == 1)
    }
}

/// The number that `bits` spell, most significant first.
pub open spec fn value_of(bits: Seq<bool>) -> nat
    decreases bits.len(),
{
    if bits.len() == 0 {
        0
    } else {
        2 * value_of(bits.drop_last()) + (if bits.last() { 1nat } else { 0nat })
    }
}

/// `count` zero bits.
pub open spec fn zeros(count: nat) -> Seq<bool> {
    Seq::new(count, |i: int| false)
}

/// The bytes that `bits` spell, eight bits each, most significant first;
/// bits beyond the last whole byte are left out.
pub open spec fn bytes_of(bits: Seq<bool>) -> Seq<u8> {
    Seq::new(bits.len() / 8, |k: int| value_of(bits.subrange(8 * k, 8 * k + 8)) as u8)
}

/// `count` filler bytes as bits: 0xEC and 0x11 in turn, 0xEC first.
pub open spec fn fillers(count: nat) -> Seq<bool>
    decreases count,
{
    if count == 0 {
        Seq::empty()
    } else {
        fillers((count - 1) as nat) + bits_of(
            if (count - 1) % 2 == 0 {
                0xECnat
            } else {
                0x11nat
            },
            8,
        )
    }
}

/// `bits` with the terminator: four zero bits, or as many as still fit in
/// `target_bytes` bytes.
pub open spec fn terminated(bits: Seq<bool>, target_bytes: nat) -> Seq<bool> {
    let room = 8 * target_bytes - bits.len();
    bits + zeros(if room < 4 { room as nat } else { 4nat })
}

/// `bits` with zero bits added up to the next byte boundary.
pub open spec fn aligned(bits: Seq<bool>) -> Seq<bool> {
    bits + zeros(((8 - bits.len() % 8) % 8) as nat)
}

/// `bits` brought to `target_bytes` bytes: terminator, zero bits up to the
/// byte boundary, then filler bytes.
pub open spec fn padded(bits: Seq<bool>, target_bytes: nat) -> Seq<bool> {
    let whole = aligned(terminated(bits, target_bytes));
    whole + fillers((target_bytes - whole.len() / 8) as nat)
}

/// `bits_of` gives `width` bits, and bit `k` of them is the bit of `value`
/// that weighs 2 to the `width - 1 - k`.
pub proof fn lemma_bits_of_index(value: nat, width: nat, k: int)
    requires
        0 <= k < width,
    ensures
        bits_of(value, width).len() == width,
        bits_of(value, width)[k] == ((value / pow2((width - 1 - k) as nat)) % 2 == 1),
    decreases width,
{
    lemma_bits_of_len(value, width);
    let rest = bits_of(value / 2, (width - 1) as nat);
    lemma_bits_of_len(value / 2, (width - 1) as nat);
    assert(bits_of(value, width) == rest.push(value % 2 == 1));
    if k == width - 1 {
        lemma2_to64();
        assert(pow2(0) == 1);
        assert(value / 1 == value);
    } else {
        lemma_bits_of_index(value / 2, (width - 1) as nat, k);
        let e = (width - 2 - k) as nat;
        lemma_pow2_unfold(e + 1);
        lemma_pow2_pos(e);
        lemma_div_denominator(value as int, 2, pow2(e) as int);
        assert(2 * pow2(e) == pow2(e + 1));
        assert((value / 2) / pow2(e) == value / pow2(e + 1));
        assert(bits_of(value, width)[k] == rest[k]);
        assert((width - 1 - k) as nat == e + 1);
    }
}

/// `bits_of` gives `width` bits.
pub proof fn lemma_bits_of_len(value: nat, width: nat)
    ensures
        bits_of(value, width).len() == width,
    decreases width,
{
    if width > 0 {
        lemma_bits_of_len(value / 2, (width - 1) as nat);
    }
}

/// The bits of a number spell that number back, if it fits in them.
pub proof fn lemma_value_of_bits_of(value: nat, width: nat)
    requires
        value < pow2(width),
    ensures
        value_of(bits_of(value, width)) == value,
    decreases width,
{
    if width == 0 {
        lemma2_to64();
    } else {
        lemma_pow2_unfold(width);
        let rest = bits_of(value / 2, (width - 1) as nat);
        lemma_value_of_bits_of(value / 2, (width - 1) as nat);
        assert(bits_of(value, width).drop_last() =~= rest);
    }
}

/// What `bits` spell is below 2 to their number.
pub proof fn lemma_value_of_bound(bits: Seq<bool>)
    ensures
        value_of(bits) < pow2(bits.len()),
    decreases bits.len(),
{
    if bits.len() == 0 {
        lemma2_to64();
    } else {
        lemma_value_of_bound(bits.drop_last());
        lemma_pow2_unfold(bits.len());
    }
}

/// Why an operation on a bit stream was refused.
#[derive(Clone, Copy, PartialEq, Eq, Structural, Debug)]
pub enum BitStreamError {
    /// The stream was already read out as bytes.
    Finalized,
    /// The value does not fit in the width given for it.
    ValueTooWide,
    /// The stream is already longer than the capacity to pad it to.
    CapacityExceeded,
}

/// An ordered sequence of bits that only grows, until it is read out as
/// bytes.
pub struct BitStream {
    bits: Vec<bool>,
    finalized: bool,
}

impl View for BitStream {
    type V = Seq<bool>;

    closed spec fn view(&self) -> Seq<bool> {
        self.bits@
    }
}

impl BitStream {
    /// Whether the stream was read out as bytes: it then takes no more bits.
    pub closed spec fn finalized(&self) -> bool {
        self.finalized
    }

    /// A finalized stream ends on a byte boundary.
    pub open spec fn wf(&self) -> bool {
        self.finalized() ==> self@.len() % 8 == 0
    }

    /// An empty stream.
    pub fn new() -> (stream: BitStream)
        ensures
            stream@ == Seq::<bool>::empty(),
            !stream.finalized(),
            stream.wf(),
    {
        BitStream { bits: Vec::new(), finalized: false }
    }

    /// Number of bits in the stream.
    pub fn len(&self) -> (n: usize)
        ensures
            n == self@.len(),
    {
        self.bits.len()
    }

    /// Whether the stream was read out as bytes.
    pub fn is_finalized(&self) -> (b: bool)
        ensures
            b == self.finalized(),
    {
        self.finalized
    }

    /// The bit at position `index`.
    pub fn get(&self, index: usize) -> (bit: bool)
        requires
            index < self@.len(),
        ensures
            bit == self@[index as int],
    {
        self.bits[index]
    }

    /// Appends the `width` low bits of `value`, most significant first.
    /// Refused, with the stream left as it was, once the stream is
    /// finalized, and where `value` does not fit in `width` bits.
    pub fn push_bits(&mut self, value: u32, width: usize) -> (r: Result<(), BitStreamError>)
        requires
            old(self)@.len() + width <= usize::MAX,
        ensures
            final(self).finalized() == old(self).finalized(),
            match r {
                Ok(()) => {
                    &&& !old(self).finalized()
                    &&& value < pow2(width as nat)
                    &&& final(self)@ == old(self)@ + bits_of(value as nat, width as nat)
                },
                Err(e) => {
                    &&& final(self)@ == old(self)@
                    &&& if old(self).finalized() {
                        e == BitStreamError::Finalized
                    } else {
                        e == BitStreamError::ValueTooWide && value >= pow2(width as nat)
                    }
                },
            },
    {
        if self.finalized {
            return Err(BitStreamError::Finalized);
        }
        // The bits, least significant first.
        let mut low_first: Vec<bool> = Vec::new();
        let mut rest: u32 = value;
        let mut i: usize = 0;
        proof {
            lemma2_to64();
        }
        while i < width
            invariant
                i <= width,
                low_first.len() == i,
                rest == value as nat / pow2(i as nat),
                forall|k: int|
                    0 <= k < i ==> low_first[k] == ((value as nat / pow2(k as nat)) % 2 == 1),
            decreases width - i,
        {
            low_first.push(rest % 2 == 1);
            proof {
                lemma_pow2_unfold((i + 1) as nat);
                lemma_pow2_pos(i as nat);
                lemma_div_denominator(value as int, pow2(i as nat) as int, 2);
                assert(pow2(i as nat) * 2 == pow2((i + 1) as nat));
            }
            rest = rest / 2;
            i += 1;
        }
        proof {
            lemma_pow2_pos(width as nat);
            if rest == 0 {
                if value >= pow2(width as nat) {
                    lemma_div_non_zero(value as int, pow2(width as nat) as int);
                }
            } else {
                if value < pow2(width as nat) {
                    lemma_basic_div(value as int, pow2(width as nat) as int);
                }
            }
        }
        if rest != 0 {
            return Err(BitStreamError::ValueTooWide);
        }
        let ghost before = self.bits@;
        let mut j: usize = width;
        while j > 0
            invariant
                j <= width,
                low_first.len() == width,
                before.len() + width <= usize::MAX,
                self.finalized == old(self).finalized,
                forall|k: int|
                    0 <= k < width ==> low_first[k] == ((value as nat / pow2(k as nat)) % 2 == 1),
                self.bits@ == before + bits_of(value as nat, width as nat).take(width - j),
            decreases j,
        {
            j -= 1;
            self.bits.push(low_first[j]);
            proof {
                let all = bits_of(value as nat, width as nat);
                lemma_bits_of_index(value as nat, width as nat, width - 1 - j);
                assert(all.take(width - j) =~= all.take(width - j - 1).push(all[width - 1 - j]));
                assert(self.bits@ =~= before + all.take(width - j));
            }
        }
        proof {
            let all = bits_of(value as nat, width as nat);
            lemma_bits_of_len(value as nat, width as nat);
            assert(all.take(width as int) =~= all);
        }
        Ok(())
    }

    /// Appends `count` bits, all one or all zero.
    fn push_run(&mut self, bit: bool, count: usize)
        requires
            old(self)@.len() + count <= usize::MAX,
        ensures
            final(self)@ == old(self)@ + Seq::new(count as nat, |i: int| bit),
            final(self).finalized() == old(self).finalized(),
    {
        let ghost before = self.bits@;
        let mut i: usize = 0;
        while i < count
            invariant
                i <= count,
                before.len() + count <= usize::MAX,
                self.finalized == old(self).finalized,
                self.bits@ == before + Seq::new(i as nat, |k: int| bit),
            decreases count - i,
        {
            self.bits.push(bit);
            i += 1;
            assert(self.bits@ =~= before + Seq::new(i as nat, |k: int| bit));
        }
    }

    /// Appends zero bits up to the next byte boundary.
    pub fn pad_to_byte(&mut self)
        requires
            old(self).wf(),
            old(self)@.len() + 7 <= usize::MAX,
        ensures
            final(self)@ == aligned(old(self)@),
            final(self)@.len() % 8 == 0,
            final(self).finalized() == old(self).finalized(),
            final(self).wf(),
    {
        let gap = (8 - self.bits.len() % 8) % 8;
        self.push_run(false, gap);
        assert(self.bits@ =~= aligned(old(self).bits@));
    }

    /// Brings the stream to `target_bytes` bytes: the terminator of four
    /// zero bits, or as many as fit; zero bits up to the byte boundary;
    /// then the filler bytes 0xEC and 0x11 in turn. Refused, with the
    /// stream left as it was, once the stream is finalized, and where it is
    /// longer than `target_bytes` bytes already.
    pub fn pad_to_capacity(&mut self, target_bytes: usize) -> (r: Result<(), BitStreamError>)
        requires
            8 * target_bytes <= usize::MAX,
        ensures
            final(self).finalized() == old(self).finalized(),
            match r {
                Ok(()) => {
                    &&& !old(self).finalized()
                    &&& old(self)@.len() <= 8 * target_bytes
                    &&& final(self)@ == padded(old(self)@, target_bytes as nat)
                    &&& final(self)@.len() == 8 * target_bytes
                },
                Err(e) => {
                    &&& final(self)@ == old(self)@
                    &&& if old(self).finalized() {
                        e == BitStreamError::Finalized
                    } else {
                        e == BitStreamError::CapacityExceeded && old(self)@.len() > 8 * target_bytes
                    }
                },
            },
    {
        if self.finalized {
            return Err(BitStreamError::Finalized);
        }
        let capacity = 8 * target_bytes;
        if self.bits.len() > capacity {
            return Err(BitStreamError::CapacityExceeded);
        }
        let ghost before = self.bits@;
        let room = capacity - self.bits.len();
        self.push_run(false, if room < 4 { room } else { 4 });
        assert(self.bits@ =~= terminated(before, target_bytes as nat));
        self.pad_to_byte();
        let ghost whole = self.bits@;
        let first = self.bits.len() / 8;
        let mut k: usize = first;
        assert(fillers(0) =~= Seq::<bool>::empty());
        assert(self.bits@ =~= whole + fillers(0));
        while k < target_bytes
            invariant
                first <= k <= target_bytes,
                8 * target_bytes <= usize::MAX,
                !self.finalized,
                !old(self).finalized,
                first == whole.len() / 8,
                whole.len() % 8 == 0,
                self.bits@ == whole + fillers((k - first) as nat),
                self.bits@.len() == 8 * k,
            decreases target_bytes - k,
        {
            let filler: u32 = if (k - first) % 2 == 0 { 0xEC } else { 0x11 };
            proof {
                lemma2_to64();
            }
            let ghost prev = self.bits@;
            let pushed = self.push_bits(filler, 8);
            proof {
                lemma_bits_of_len(filler as nat, 8);
                assert(self.bits@ =~= whole + fillers((k + 1 - first) as nat));
            }
            k += 1;
        }
        Ok(())
    }

    /// Reads the stream out as bytes, eight bits each, most significant
    /// first, and finalizes it. The stream must end on a byte boundary.
    pub fn into_bytes(&mut self) -> (bytes: Vec<u8>)
        requires
            old(self)@.len() % 8 == 0,
        ensures
            bytes@ == bytes_of(old(self)@),
            final(self)@ == old(self)@,
            final(self).finalized(),
            final(self).wf(),
    {
        let count = self.bits.len() / 8;
        let mut bytes: Vec<u8> = Vec::new();
        let mut k: usize = 0;
        while k < count
            invariant
                k <= count,
                count == self.bits@.len() / 8,
                self.bits@.len() % 8 == 0,
                self.bits@ == old(self)@,
                bytes.len() == k,
                forall|i: int| 0 <= i < k ==> bytes[i] == #[trigger] bytes_of(self.bits@)[i],
            decreases count - k,
        {
            let mut byte: u8 = 0;
            let mut j: usize = 0;
            let ghost chunk = self.bits@.subrange(8 * k, 8 * k + 8);
            assert(chunk.take(0) =~= Seq::<bool>::empty());
            while j < 8
                invariant
                    j <= 8,
                    k < count,
                    count == self.bits@.len() / 8,
                    self.bits@.len() % 8 == 0,
                    chunk == self.bits@.subrange(8 * k, 8 * k + 8),
                    byte == value_of(chunk.take(j as int)),
                decreases 8 - j,
            {
                assert(8 * k + 8 <= self.bits.len());
                let bit = self.bits[8 * k + j];
                proof {
                    let next = chunk.take(j + 1);
                    assert(next.drop_last() =~= chunk.take(j as int));
                    assert(next.last() == bit);
                    lemma_value_of_bound(chunk.take(j as int));
                    lemma_value_of_bound(next);
                    lemma2_to64();
                    assert(pow2(next.len()) <= 256) by {
                        if j + 1 == 1 {
                        } else if j + 1 == 2 {
                        } else if j + 1 == 3 {
                        } else if j + 1 == 4 {
                        } else if j + 1 == 5 {
                        } else if j + 1 == 6 {
                        } else if j + 1 == 7 {
                        } else {
                        }
                    }
                }
                byte = 2 * byte + (if bit { 1 } else { 0 });
                j += 1;
            }
            assert(chunk.take(8) =~= chunk);
            bytes.push(byte);
            k += 1;
        }
        assert(bytes@ =~= bytes_of(self.bits@));
        self.finalized = true;
        bytes
    }
}

} // verus!
