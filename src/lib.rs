//! A lock-free, dynamically resizable vector in the style of Dechev, Pirkelbauer and
//! Stroustrup: elements live in a fixed table of doubling buckets, and every push or pop
//! publishes a descriptor that any observer can help complete.
//!
//! This crate holds the verified core of that design: the index geometry, the capacity
//! guards, the descriptor protocol, and a single-owner container that runs the protocol.
use vstd::prelude::*;

pub mod alloc_error;
pub mod descriptor;
pub mod local;
pub mod mapping;

verus! {

/// The family of the reclamation domain that guards a vector's descriptors: every
/// hazard pointer and every retirement for one vector goes through one domain of it.
#[non_exhaustive]
pub struct Family;

impl Family {
    pub fn new() -> (r: Self) {
        Family {}
    }
}

/// Position of the highest set bit of `n` (zero for zero and one).
pub open spec fn hibit(n: nat) -> nat
    decreases n,
{
    if n <= 1 {
        0
    } else {
        1 + hibit(n / 2)
    }
}

proof fn lemma_leading_zeros_hibit(n: u64)
    requires
        n > 0,
    ensures
        vstd::std_specs::bits::u64_leading_zeros(n) == 63 - hibit(n as nat),
    decreases n,
{
    reveal(vstd::std_specs::bits::u64_leading_zeros);
    if n == 1 {
        reveal(vstd::std_specs::bits::u64_leading_zeros);
        assert(vstd::std_specs::bits::u64_leading_zeros(0) == 64);
    } else {
        lemma_leading_zeros_hibit(n / 2);
    }
}

/// Return the highest bit set in a number (zero for zero).
pub fn highest_bit(num: usize) -> (r: u32)
    ensures
        r as nat == hibit(num as nat),
        r <= 63,
{
    let lz = (num as u64).leading_zeros();
    proof {
        if num > 0 {
            lemma_leading_zeros_hibit(num as u64);
            lemma_hibit_bound(num as nat);
        } else {
            reveal(vstd::std_specs::bits::u64_leading_zeros);
        }
    }
    (num == 0) as u32 + 63 - lz
}

/// `n` lies between the power of two of its highest bit and the next one.
pub proof fn lemma_hibit_bound(n: nat)
    requires
        n >= 1,
    ensures
        vstd::arithmetic::power2::pow2(hibit(n)) <= n < vstd::arithmetic::power2::pow2(hibit(n) + 1),
    decreases n,
{
    vstd::arithmetic::power2::lemma_pow2_unfold(hibit(n) + 1);
    if n > 1 {
        lemma_hibit_bound(n / 2);
        vstd::arithmetic::power2::lemma_pow2_unfold(hibit(n));
    } else {
        vstd::arithmetic::power2::lemma2_to64();
    }
}

} // verus!
