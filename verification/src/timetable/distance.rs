//! Distances, as far as they are compared and cut to whole numbers.

use vstd::arithmetic::power2::pow2;
use vstd::bits::lemma_u64_shr_is_div;
use vstd::prelude::*;

verus! {

/// The place of an IEEE 754 double among all of them, given its bit pattern; none where it is not
/// a number. Both zeros have the same place.
pub open spec fn rank_of(bits: u64) -> Option<int> {
    let magnitude = bits as int % 0x8000_0000_0000_0000;
    if magnitude > 0x7ff0_0000_0000_0000 {
        None
    } else if bits >= 0x8000_0000_0000_0000 {
        Some(-magnitude)
    } else {
        Some(magnitude)
    }
}

/// A distance, by its place among all doubles; none for what is not a number, which compares with
/// nothing.
#[derive(Clone, Copy, PartialEq, Eq, Structural, Debug)]
pub struct Distance {
    pub rank: Option<i64>,
}

impl Distance {
    /// Whether this distance is less than `other`.
    pub open spec fn below(self, other: Distance) -> bool {
        match (self.rank, other.rank) {
            (Some(a), Some(b)) => a < b,
            _ => false,
        }
    }

    /// The distance with this bit pattern.
    pub fn from_bits(bits: u64) -> (d: Distance)
        ensures
            d.rank is Some <==> rank_of(bits) is Some,
            d.rank matches Some(rank) ==> rank_of(bits) == Some(rank as int),
            d.wf(),
    {
        let magnitude: i64 = (bits % 0x8000_0000_0000_0000) as i64;
        if magnitude > 0x7ff0_0000_0000_0000 {
            Distance { rank: None }
        } else if bits >= 0x8000_0000_0000_0000 {
            Distance { rank: Some(-magnitude) }
        } else {
            Distance { rank: Some(magnitude) }
        }
    }

    /// A distance that a double can express.
    pub open spec fn wf(self) -> bool {
        self.rank matches Some(rank) ==> -0x7ff0_0000_0000_0000 <= rank <= 0x7ff0_0000_0000_0000
    }

    /// A bit pattern of this distance.
    pub fn to_bits(&self) -> (bits: u64)
        requires
            self.wf(),
        ensures
            rank_of(bits) == match self.rank {
                Some(rank) => Some(rank as int),
                None => None,
            },
    {
        match self.rank {
            None => 0x7ff8_0000_0000_0000,
            Some(rank) => if rank >= 0 {
                rank as u64
            } else {
                0x8000_0000_0000_0000 + (-rank) as u64
            },
        }
    }

    pub fn is_below(&self, other: &Distance) -> (b: bool)
        ensures
            b == self.below(*other),
    {
        match (self.rank, other.rank) {
            (Some(a), Some(b)) => a < b,
            _ => false,
        }
    }
}

/// A number does not fit in 32 bits.
#[derive(Clone, Copy, PartialEq, Eq, Structural, Debug)]
pub struct DoesNotFit {}

/// The place of 4294967295 among all doubles.
pub const LARGEST_RANK: i64 = 0x41ef_ffff_ffe0_0000;

/// The whole part of the double at place `rank`, from 0 up to 4294967295: of its significand, what
/// its exponent leaves.
pub open spec fn whole_part(rank: int) -> int {
    let exponent = rank / 0x10_0000_0000_0000;
    let significand = 0x10_0000_0000_0000 + rank % 0x10_0000_0000_0000;
    if exponent < 1023 {
        0
    } else {
        significand / pow2((1075 - exponent) as nat) as int
    }
}

/// The double with this bit pattern lies from 0 up to 4294967295, and `v` is the largest whole
/// number that is not greater: with 52 bits of fraction and the exponent above them, the double is
/// `2^52` and its fraction, times `2^(exponent - 1075)`.
pub open spec fn floor_of(bits: u64, v: int) -> bool {
    let exponent = bits as int / 0x10_0000_0000_0000;
    let significand = 0x10_0000_0000_0000 + bits as int % 0x10_0000_0000_0000;
    if bits == 0x8000_0000_0000_0000 || exponent < 1023 {
        v == 0
    } else {
        &&& bits <= 0x41ef_ffff_ffe0_0000
        &&& v * pow2((1075 - exponent) as nat) <= significand < (v + 1) * pow2(
            (1075 - exponent) as nat,
        )
    }
}

/// The whole part of a double is the largest whole number that is not greater than it.
pub proof fn lemma_whole_part(bits: u64)
    requires
        rank_of(bits) is Some,
        0 <= rank_of(bits)->0 <= LARGEST_RANK,
    ensures
        floor_of(bits, whole_part(rank_of(bits)->0)),
{
    let rank = rank_of(bits)->0;
    if bits != 0x8000_0000_0000_0000 {
        assert(rank == bits);
        let exponent = rank / 0x10_0000_0000_0000;
        let significand = 0x10_0000_0000_0000 + rank % 0x10_0000_0000_0000;
        if exponent >= 1023 {
            let unit = pow2((1075 - exponent) as nat) as int;
            vstd::arithmetic::power2::lemma_pow2_pos((1075 - exponent) as nat);
            vstd::arithmetic::div_mod::lemma_fundamental_div_mod(significand, unit);
            vstd::arithmetic::div_mod::lemma_mod_bound(significand, unit);
            let v = significand / unit;
            assert(v * unit == unit * v) by (nonlinear_arith);
            assert((v + 1) * unit == unit * v + unit) by (nonlinear_arith);
        }
    }
}

/// Doubles are ordered as they are: of two that are not negative the one with the smaller bit
/// pattern lies first, of two negative ones the one with the larger, and every negative one lies
/// before every one that is not.
pub proof fn lemma_rank_orders(a: u64, b: u64)
    requires
        rank_of(a) is Some,
        rank_of(b) is Some,
    ensures
        a < 0x8000_0000_0000_0000 && b < 0x8000_0000_0000_0000 ==> (rank_of(a)->0 < rank_of(b)->0
            <==> a < b),
        a > 0x8000_0000_0000_0000 && b > 0x8000_0000_0000_0000 ==> (rank_of(a)->0 < rank_of(b)->0
            <==> a > b),
        a > 0x8000_0000_0000_0000 && b < 0x8000_0000_0000_0000 ==> rank_of(a)->0 < rank_of(b)->0,
        a == 0x8000_0000_0000_0000 ==> rank_of(a) == rank_of(0),
{
}

/// What is not a number is what has all bits of the exponent and some of the fraction.
pub proof fn lemma_not_a_number(bits: u64)
    ensures
        rank_of(bits) is None <==> (bits as int / 0x10_0000_0000_0000) % 2048 == 2047 && bits as int
            % 0x10_0000_0000_0000 != 0,
{
    let magnitude = bits as int % 0x8000_0000_0000_0000;
    assert(bits as int / 0x10_0000_0000_0000 % 2048 == magnitude / 0x10_0000_0000_0000);
    assert(bits as int % 0x10_0000_0000_0000 == magnitude % 0x10_0000_0000_0000);
}

/// The whole part of the double with this bit pattern, if the double lies between 0 and
/// 4294967295.
pub fn f64_to_u32(bits: u64) -> (r: Result<u32, DoesNotFit>)
    ensures
        r is Ok <==> (rank_of(bits) matches Some(rank) && 0 <= rank <= LARGEST_RANK),
        r matches Ok(v) ==> v == whole_part(rank_of(bits)->0),
        r matches Ok(v) ==> floor_of(bits, v as int),
        r is Ok <==> bits <= 0x41ef_ffff_ffe0_0000 || bits == 0x8000_0000_0000_0000,
{
    proof {
        if rank_of(bits) is Some && 0 <= rank_of(bits)->0 <= LARGEST_RANK {
            lemma_whole_part(bits);
        }
    }
    let d: Distance = Distance::from_bits(bits);
    match d.rank {
        None => Err(DoesNotFit {  }),
        Some(rank) => {
            if rank < 0 || rank > LARGEST_RANK {
                return Err(DoesNotFit {  });
            }
            let exponent: u64 = rank as u64 / 0x10_0000_0000_0000;
            let significand: u64 = 0x10_0000_0000_0000 + rank as u64 % 0x10_0000_0000_0000;
            if exponent < 1023 {
                Ok(0)
            } else {
                let shift: u64 = 1075 - exponent;
                assert(21 <= shift <= 52);
                assert(significand < 0x20_0000_0000_0000);
                assert(significand >> shift <= 0xffff_ffff) by (bit_vector)
                    requires
                        21 <= shift <= 52,
                        significand < 0x20_0000_0000_0000,
                ;
                proof {
                    lemma_u64_shr_is_div(significand, shift);
                }
                Ok((significand >> shift) as u32)
            }
        },
    }
}

} // verus!
