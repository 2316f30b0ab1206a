//! Unsigned numbers wide enough to hold every address and every bound of the address space.

use vstd::prelude::*;

verus! {

/// Two to the power of 128: the weight of the upper limb of a [`Numeric`].
pub open spec fn limb_weight() -> nat {
    0x1_0000_0000_0000_0000_0000_0000_0000_0000nat
}

/// The bitwise exclusive or of two natural numbers.
pub open spec fn xor(a: nat, b: nat) -> nat
    decreases a + b,
{
    if a == 0 && b == 0 {
        0
    } else {
        2 * xor(a / 2, b / 2) + (a % 2 + b % 2) % 2
    }
}

/// Exclusive or does not depend on the order of its operands.
pub proof fn lemma_xor_symmetric(a: nat, b: nat)
    ensures
        xor(a, b) == xor(b, a),
    decreases a + b,
{
    if a != 0 || b != 0 {
        lemma_xor_symmetric(a / 2, b / 2);
    }
}

/// A number xored with itself is zero.
pub proof fn lemma_xor_self(a: nat)
    ensures
        xor(a, a) == 0,
    decreases a,
{
    if a != 0 {
        lemma_xor_self(a / 2);
    }
}

/// Only equal numbers xor to zero.
pub proof fn lemma_xor_zero_means_equal(a: nat, b: nat)
    requires
        xor(a, b) == 0,
    ensures
        a == b,
    decreases a + b,
{
    if a != 0 || b != 0 {
        lemma_xor_zero_means_equal(a / 2, b / 2);
    }
}

/// Xoring with the same number twice gives the first number back.
pub proof fn lemma_xor_cancels(a: nat, b: nat)
    ensures
        xor(xor(a, b), b) == a,
    decreases a + b,
{
    if a != 0 || b != 0 {
        lemma_xor_cancels(a / 2, b / 2);
        let c = xor(a, b);
        assert(c / 2 == xor(a / 2, b / 2));
        assert(c % 2 == (a % 2 + b % 2) % 2);
        if c == 0 && b == 0 {
        } else {
            assert(xor(c, b) == 2 * xor(c / 2, b / 2) + (c % 2 + b % 2) % 2);
        }
    }
}

/// On machine words the `^` operator computes [`xor`].
proof fn lemma_xor_of_words(x: u128, y: u128)
    ensures
        (x ^ y) as nat == xor(x as nat, y as nat),
    decreases x + y,
{
    if x == 0 && y == 0 {
        assert(0u128 ^ 0u128 == 0u128) by (bit_vector);
    } else {
        let half_x: u128 = x / 2;
        let half_y: u128 = y / 2;
        lemma_xor_of_words(half_x, half_y);
        let low: u128 = ((x % 2 + y % 2) % 2) as u128;
        assert((x ^ y) / 2 == (x / 2) ^ (y / 2)) by (bit_vector);
        assert((x ^ y) % 2 == (x % 2 + y % 2) % 2) by (bit_vector);
    }
}

/// Xor works on the part above and the part below any power of two separately.
proof fn lemma_xor_splits(high_a: nat, low_a: nat, high_b: nat, low_b: nat, weight: nat, bits: nat)
    requires
        weight == vstd::arithmetic::power2::pow2(bits),
        low_a < weight,
        low_b < weight,
    ensures
        xor(high_a * weight + low_a, high_b * weight + low_b) == xor(high_a, high_b) * weight + xor(
            low_a,
            low_b,
        ),
    decreases bits,
{
    let a = high_a * weight + low_a;
    let b = high_b * weight + low_b;
    if bits == 0 {
        assert(weight == 1) by {
            vstd::arithmetic::power2::lemma2_to64();
        }
        assert(high_a * 1 == high_a);
        assert(high_b * 1 == high_b);
        assert(xor(high_a, high_b) * 1 == xor(high_a, high_b));
    } else {
        let half = vstd::arithmetic::power2::pow2((bits - 1) as nat);
        assert(weight == 2 * half) by {
            vstd::arithmetic::power2::lemma_pow2_unfold(bits);
        }
        assert(high_a * weight == 2 * (high_a * half)) by (nonlinear_arith)
            requires
                weight == 2 * half,
        ;
        assert(high_b * weight == 2 * (high_b * half)) by (nonlinear_arith)
            requires
                weight == 2 * half,
        ;
        lemma_xor_splits(high_a, low_a / 2, high_b, low_b / 2, half, (bits - 1) as nat);
        assert(a / 2 == high_a * half + low_a / 2);
        assert(b / 2 == high_b * half + low_b / 2);
        let top = xor(high_a, high_b);
        assert(top * weight == 2 * (top * half)) by (nonlinear_arith)
            requires
                weight == 2 * half,
        ;
        if a == 0 && b == 0 {
            assert(low_a == 0 && low_b == 0);
            assert(high_a * half == 0);
            assert(high_b * half == 0);
            assert(xor(a / 2, b / 2) == 0);
        } else if low_a == 0 && low_b == 0 {
        } else {
        }
    }
}

/// 256 to the power of `exponent`: the number of values that `exponent` bytes can spell.
pub open spec fn pow256(exponent: nat) -> nat
    decreases exponent,
{
    if exponent == 0 {
        1
    } else {
        256 * pow256((exponent - 1) as nat)
    }
}

/// The number that a sequence of bytes spells, most significant byte first.
pub open spec fn be_value(bytes: Seq<u8>) -> nat
    decreases bytes.len(),
{
    if bytes.len() == 0 {
        0
    } else {
        be_value(bytes.drop_last()) * 256 + bytes.last() as nat
    }
}

/// The `len` bytes that spell the lowest `len` bytes of a number, most significant byte first.
pub open spec fn be_bytes(value: nat, len: nat) -> Seq<u8>
    decreases len,
{
    if len == 0 {
        Seq::empty()
    } else {
        be_bytes(value / 256, (len - 1) as nat).push((value % 256) as u8)
    }
}

/// Bytes are the bytes of the number that they spell.
pub proof fn lemma_be_bytes_of_value(bytes: Seq<u8>)
    ensures
        be_bytes(be_value(bytes), bytes.len()) == bytes,
    decreases bytes.len(),
{
    if bytes.len() > 0 {
        lemma_be_bytes_of_value(bytes.drop_last());
        assert(bytes.drop_last().push(bytes.last()) =~= bytes);
    }
}

/// The bytes of a number spell the number, if it is small enough for them.
pub proof fn lemma_be_value_of_bytes(value: nat, len: nat)
    requires
        value < pow256(len),
    ensures
        be_bytes(value, len).len() == len,
        be_value(be_bytes(value, len)) == value,
    decreases len,
{
    if len > 0 {
        lemma_be_value_of_bytes(value / 256, (len - 1) as nat);
        let shorter = be_bytes(value / 256, (len - 1) as nat);
        assert(shorter.push((value % 256) as u8).drop_last() =~= shorter);
    }
}

/// `len` bytes spell a number below `pow256(len)`.
pub proof fn lemma_be_value_bound(bytes: Seq<u8>)
    ensures
        be_value(bytes) < pow256(bytes.len()),
    decreases bytes.len(),
{
    if bytes.len() > 0 {
        lemma_be_value_bound(bytes.drop_last());
    }
}

/// What two byte sequences spell when one is written after the other.
pub proof fn lemma_be_value_concat(front: Seq<u8>, back: Seq<u8>)
    ensures
        be_value(front + back) == be_value(front) * pow256(back.len()) + be_value(back),
    decreases back.len(),
{
    let head = be_value(front);
    if back.len() == 0 {
        assert(front + back =~= front);
        assert(head * 1 == head);
    } else {
        lemma_be_value_concat(front, back.drop_last());
        assert((front + back).drop_last() =~= front + back.drop_last());
        assert((front + back).last() == back.last());
        let shorter = pow256((back.len() - 1) as nat);
        assert(pow256(back.len()) == 256 * shorter);
        assert(head * (256 * shorter) == (head * shorter) * 256) by (nonlinear_arith);
    }
}

/// A larger exponent gives a larger power.
pub proof fn lemma_pow256_monotonic(smaller: nat, larger: nat)
    requires
        smaller <= larger,
    ensures
        pow256(smaller) <= pow256(larger),
        pow256(smaller) > 0,
    decreases larger,
{
    if smaller < larger {
        lemma_pow256_monotonic(smaller, (larger - 1) as nat);
    } else if smaller > 0 {
        lemma_pow256_monotonic((smaller - 1) as nat, (smaller - 1) as nat);
    }
}

/// An unsigned number below two to the power of 192, held in two limbs.
#[derive(Clone, Copy, Debug, PartialEq, Eq, PartialOrd, Ord, Hash, Structural)]
pub struct Numeric {
    high: u64,
    low: u128,
}

impl View for Numeric {
    type V = nat;

    closed spec fn view(&self) -> nat {
        self.high as nat * limb_weight() + self.low as nat
    }
}

/// Every number is below two to the power of 192.
pub proof fn lemma_numeric_bound(a: Numeric)
    ensures
        a@ < pow256(24),
{
    reveal_with_fuel(pow256, 25);
}

impl Numeric {
    /// The number `high * 2^128 + low`.
    pub fn new(high: u64, low: u128) -> (n: Numeric)
        ensures
            n@ == high as nat * limb_weight() + low as nat,
    {
        Numeric { high, low }
    }

    pub fn zero() -> (n: Numeric)
        ensures
            n@ == 0,
    {
        Numeric { high: 0, low: 0 }
    }

    /// The part of the number above the lower 128 bits.
    pub fn high(&self) -> (high: u64)
        ensures
            high as nat == self@ / limb_weight(),
    {
        self.high
    }

    /// The lower 128 bits of the number.
    pub fn low(&self) -> (low: u128)
        ensures
            low as nat == self@ % limb_weight(),
    {
        self.low
    }

    pub fn is_below(&self, other: &Numeric) -> (below: bool)
        ensures
            below == (self@ < other@),
    {
        self.high < other.high || (self.high == other.high && self.low < other.low)
    }

    pub fn is_at_most(&self, other: &Numeric) -> (at_most: bool)
        ensures
            at_most == (self@ <= other@),
    {
        self.high < other.high || (self.high == other.high && self.low <= other.low)
    }

    /// `self - other`, for an `other` that is not the larger one.
    pub fn difference(&self, other: &Numeric) -> (d: Numeric)
        requires
            other@ <= self@,
        ensures
            d@ == self@ - other@,
    {
        if self.low >= other.low {
            Numeric { high: self.high - other.high, low: self.low - other.low }
        } else {
            Numeric {
                high: self.high - other.high - 1,
                low: u128::MAX - other.low + self.low + 1,
            }
        }
    }

    /// `self + other`, where that is below two to the power of 192.
    pub fn sum(&self, other: &Numeric) -> (s: Numeric)
        requires
            self@ + other@ < pow256(24),
        ensures
            s@ == self@ + other@,
    {
        proof {
            reveal_with_fuel(pow256, 25);
        }
        if self.low <= u128::MAX - other.low {
            Numeric { high: self.high + other.high, low: self.low + other.low }
        } else {
            Numeric {
                high: self.high + other.high + 1,
                low: self.low - (u128::MAX - other.low) - 1,
            }
        }
    }

    /// `self + floor`, for a `self` that is no more than what lies between `floor` and
    /// `ceiling`.
    pub fn sum_within(&self, floor: &Numeric, ceiling: &Numeric) -> (s: Numeric)
        requires
            floor@ + self@ <= ceiling@,
        ensures
            s@ == floor@ + self@,
    {
        proof {
            lemma_numeric_bound(*ceiling);
        }
        self.sum(floor)
    }

    /// Half of the number, rounded down.
    pub fn half(&self) -> (h: Numeric)
        ensures
            h@ == self@ / 2,
    {
        let carried: u128 = if self.high % 2 == 1 {
            0x8000_0000_0000_0000_0000_0000_0000_0000
        } else {
            0
        };
        Numeric { high: self.high / 2, low: self.low / 2 + carried }
    }

    /// Reads a number from its bytes, most significant first. There is no such number where
    /// the bytes spell two to the power of 192 or more.
    pub fn from_bytes_be(bytes: &[u8]) -> (n: Option<Numeric>)
        ensures
            n is Some <==> be_value(bytes@) < pow256(24),
            n matches Some(number) ==> number@ == be_value(bytes@),
    {
        let mut high: u64 = 0;
        let mut low: u128 = 0;
        let mut i: usize = 0;
        while i < bytes.len()
            invariant
                i <= bytes.len(),
                high as nat * limb_weight() + low as nat == be_value(bytes@.subrange(0, i as int)),
            decreases bytes.len() - i,
        {
            let ghost read = bytes@.subrange(0, i as int);
            let ghost unread = bytes@.subrange(i as int, bytes@.len() as int);
            if high >= 0x0100_0000_0000_0000 {
                proof {
                    assert(bytes@ =~= read + unread);
                    lemma_be_value_concat(read, unread);
                    lemma_pow256_monotonic(1, unread.len());
                    reveal_with_fuel(pow256, 25);
                    assert(be_value(read) * pow256(unread.len()) >= pow256(24)) by (nonlinear_arith)
                        requires
                            be_value(read) >= 0x0100_0000_0000_0000 * limb_weight(),
                            pow256(unread.len()) >= 256,
                            pow256(24) == 0x0100_0000_0000_0000 * limb_weight() * 256,
                    ;
                }
                return None;
            }
            let carried: u128 = low / 0x0100_0000_0000_0000_0000_0000_0000_0000;
            let kept: u128 = low % 0x0100_0000_0000_0000_0000_0000_0000_0000;
            proof {
                assert(bytes@.subrange(0, i + 1).drop_last() =~= read);
            }
            high = high * 256 + carried as u64;
            low = kept * 256 + bytes[i] as u128;
            i += 1;
        }
        proof {
            assert(bytes@.subrange(0, i as int) =~= bytes@);
            reveal_with_fuel(pow256, 25);
        }
        Some(Numeric { high, low })
    }

    /// Writes the number as `len` bytes, most significant first.
    pub fn to_bytes_be(&self, len: usize) -> (bytes: Vec<u8>)
        requires
            self@ < pow256(len as nat),
        ensures
            bytes@ == be_bytes(self@, len as nat),
            bytes@.len() == len,
            be_value(bytes@) == self@,
    {
        let mut bytes: Vec<u8> = vec![0u8; len];
        let mut high: u64 = self.high;
        let mut low: u128 = self.low;
        let mut filled: usize = 0;
        proof {
            assert(pow256(0) == 1);
            assert(self@ * 1 == self@);
            assert(bytes@.subrange(len as int, len as int).len() == 0);
        }
        while filled < len
            invariant
                filled <= len,
                bytes@.len() == len,
                be_value(bytes@.subrange(len - filled, len as int)) + (high as nat * limb_weight()
                    + low as nat) * pow256(filled as nat) == self@,
            decreases len - filled,
        {
            let ghost written = bytes@.subrange(len - filled, len as int);
            let ghost rest = high as nat * limb_weight() + low as nat;
            let ghost weight = pow256(filled as nat);
            let index: usize = len - 1 - filled;
            let byte: u8 = (low % 256) as u8;
            bytes.set(index, byte);
            low = low / 256 + (high % 256) as u128 * 0x0100_0000_0000_0000_0000_0000_0000_0000;
            high = high / 256;
            filled += 1;
            proof {
                let shifted = high as nat * limb_weight() + low as nat;
                assert(rest == shifted * 256 + byte as nat);
                assert(bytes@.subrange(len - filled, len as int) =~= seq![byte] + written);
                assert(seq![byte].drop_last() =~= Seq::<u8>::empty());
                assert(be_value(seq![byte]) == byte as nat) by {
                    reveal_with_fuel(be_value, 2);
                }
                lemma_be_value_concat(seq![byte], written);
                assert(pow256(filled as nat) == 256 * weight);
                assert((shifted * 256 + byte as nat) * weight == shifted * (256 * weight)
                    + byte as nat * weight) by (nonlinear_arith);
            }
        }
        proof {
            let rest = high as nat * limb_weight() + low as nat;
            let weight = pow256(len as nat);
            assert(bytes@.subrange(0, len as int) =~= bytes@);
            lemma_pow256_monotonic(0, len as nat);
            assert(rest == 0) by (nonlinear_arith)
                requires
                    rest * weight < weight,
                    weight > 0,
            ;
            lemma_be_bytes_of_value(bytes@);
        }
        bytes
    }

    /// The bitwise exclusive or of the two numbers.
    pub fn xor_with(&self, other: &Numeric) -> (x: Numeric)
        ensures
            x@ == xor(self@, other@),
    {
        proof {
            lemma_xor_of_words(self.high as u128, other.high as u128);
            lemma_xor_of_words(self.low, other.low);
            vstd::arithmetic::power2::lemma2_to64();
            vstd::arithmetic::power2::lemma_pow2_adds(64, 64);
            lemma_xor_splits(
                self.high as nat,
                self.low as nat,
                other.high as nat,
                other.low as nat,
                limb_weight(),
                128,
            );
            let (a, b) = (self.high, other.high);
            assert((a ^ b) as u128 == (a as u128) ^ (b as u128)) by (bit_vector);
        }
        Numeric { high: self.high ^ other.high, low: self.low ^ other.low }
    }
}

} // verus!
