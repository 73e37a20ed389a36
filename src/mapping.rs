//! Index geometry: how a logical index maps to a bucket and an offset inside it.
//!
//! Bucket `k` holds `FIRST_BUCKET_SIZE * 2^k` slots, so the buckets before `k` hold
//! `FIRST_BUCKET_SIZE * (2^k - 1)` slots in all.
use vstd::prelude::*;
use vstd::arithmetic::power2::{pow2, lemma_pow2_adds, lemma_pow2_pos, lemma2_to64};
use crate::{hibit, highest_bit, lemma_hibit_bound};
use crate::alloc_error::{TryReserveError, TryReserveErrorKind, alloc_guard, guard_refuses};

verus! {

/// The number of elements in the first bucket. Always a power of two.
pub const FIRST_BUCKET_SIZE: usize = 8;

/// `highest_bit(FIRST_BUCKET_SIZE)`.
pub const FIRST_BUCKET_BITS: u32 = 3;

/// The fixed number of buckets in the table.
pub const BUCKET_COUNT: usize = 60;

/// Width of one slot in bytes.
pub const SLOT_BYTES: usize = 8;

/// Number of slots in bucket `k`.
pub open spec fn capacity_of(k: nat) -> nat {
    (FIRST_BUCKET_SIZE * pow2(k)) as nat
}

/// Logical index of the first slot of bucket `k`.
pub open spec fn start_of(k: nat) -> nat {
    (FIRST_BUCKET_SIZE * pow2(k) - FIRST_BUCKET_SIZE) as nat
}

/// The bucket that holds logical index `i`.
pub open spec fn bucket_of(i: nat) -> nat {
    (hibit(((i + FIRST_BUCKET_SIZE) as nat)) - FIRST_BUCKET_BITS) as nat
}

/// The offset of logical index `i` inside its bucket.
pub open spec fn offset_of(i: nat) -> nat {
    (i + FIRST_BUCKET_SIZE - pow2(hibit(((i + FIRST_BUCKET_SIZE) as nat)))) as nat
}

/// Whether logical index `i` has an address: `i + FIRST_BUCKET_SIZE` does not overflow,
/// its bucket is in the table, and the byte offset inside the bucket stays below
/// `isize::MAX`.
pub open spec fn addressable(i: nat) -> bool {
    &&& i + FIRST_BUCKET_SIZE <= usize::MAX
    &&& bucket_of(i) < BUCKET_COUNT
    &&& offset_of(i) * SLOT_BYTES < isize::MAX
}

/// Where a logical index lives: a bucket of the table and an offset inside it.
#[derive(Clone, Copy, PartialEq, Eq, Structural, Debug)]
pub struct SlotPos {
    pub bucket: usize,
    pub offset: usize,
}

proof fn lemma_pow2_le(a: nat, b: nat)
    requires
        a <= b,
    ensures
        pow2(a) <= pow2(b),
{
    if a < b {
        vstd::arithmetic::power2::lemma_pow2_strictly_increases(a, b);
    }
}

/// Every index falls in exactly the bucket that `bucket_of` names, at `offset_of`:
/// the buckets before it hold exactly `start_of` slots, and the offset is below the
/// bucket's capacity.
pub proof fn lemma_index_partition(i: nat)
    ensures
        hibit(((i + FIRST_BUCKET_SIZE) as nat)) >= FIRST_BUCKET_BITS,
        start_of(bucket_of(i)) + offset_of(i) == i,
        offset_of(i) < capacity_of(bucket_of(i)),
        pow2(hibit(((i + FIRST_BUCKET_SIZE) as nat))) == capacity_of(bucket_of(i)),
{
    let n = (i + FIRST_BUCKET_SIZE) as nat;
    let h = hibit(n);
    lemma_hibit_bound(n);
    lemma2_to64();
    if h < 3 {
        lemma_pow2_le((h + 1) as nat, 3);
    }
    let b = (h - 3) as nat;
    lemma_pow2_adds(3, b);
    lemma_pow2_adds(h, 1);
    lemma_pow2_pos(b);
}

/// A larger index never lies in an earlier bucket.
pub proof fn lemma_bucket_of_monotonic(i: nat, j: nat)
    requires
        i <= j,
    ensures
        bucket_of(i) <= bucket_of(j),
{
    lemma_index_partition(i);
    lemma_index_partition(j);
    lemma_hibit_bound(((i + FIRST_BUCKET_SIZE) as nat));
    lemma_hibit_bound(((j + FIRST_BUCKET_SIZE) as nat));
    if hibit(((j + FIRST_BUCKET_SIZE) as nat)) < hibit(((i + FIRST_BUCKET_SIZE) as nat)) {
        lemma_pow2_le(hibit(((j + FIRST_BUCKET_SIZE) as nat)) + 1, hibit(((i + FIRST_BUCKET_SIZE) as nat)));
    }
}

/// Map a logical index to its bucket and offset.
///
/// Fails with `CapacityOverflow` exactly where the index has no address.
pub fn locate(i: usize) -> (r: Result<SlotPos, TryReserveError>)
    ensures
        r is Ok <==> addressable(i as nat),
        r is Err ==> r->Err_0.kind == TryReserveErrorKind::CapacityOverflow,
        r matches Ok(p) ==> {
            &&& p.bucket < BUCKET_COUNT
            &&& p.bucket == bucket_of(i as nat)
            &&& p.offset == offset_of(i as nat)
            &&& start_of(p.bucket as nat) + p.offset == i
            &&& p.offset < capacity_of(p.bucket as nat)
        },
{
    proof {
        lemma_index_partition(i as nat);
    }
    let overflow = TryReserveError { kind: TryReserveErrorKind::CapacityOverflow };
    let pos = match i.checked_add(FIRST_BUCKET_SIZE) {
        Some(pos) => pos,
        None => return Err(overflow),
    };
    let hi = highest_bit(pos);
    let bucket = (hi - FIRST_BUCKET_BITS) as usize;
    if bucket >= BUCKET_COUNT {
        return Err(overflow);
    }
    proof {
        lemma_hibit_bound(pos as nat);
        if hi as u32 >= usize::BITS {
            lemma_pow2_le(usize::BITS as nat, hi as nat);
            assert(pow2(usize::BITS as nat) == usize::MAX + 1) by {
                lemma2_to64();
            }
        }
        vstd::bits::lemma_usize_pow2_no_overflow(hi as nat);
        vstd::bits::lemma_usize_shl_is_mul(1, hi as usize);
        vstd::bits::lemma_usize_shr_is_div(pos, hi as usize);
        vstd::arithmetic::power2::lemma_pow2_unfold((hi + 1) as nat);
        assert(pos as nat / pow2(hi as nat) == 1) by (nonlinear_arith)
            requires
                pow2(hi as nat) <= pos < 2 * pow2(hi as nat),
        ;
        let top = 1usize << hi as usize;
        let h = hi as usize;
        assert(pos ^ top == pos - top) by (bit_vector)
            requires
                pos >> h == 1,
                top == 1usize << h,
                h < usize::BITS,
        ;
    }
    let offset = pos ^ (1usize << hi as usize);
    match offset.checked_mul(SLOT_BYTES) {
        Some(bytes) if bytes < isize::MAX as usize => Ok(SlotPos { bucket, offset }),
        _ => Err(overflow),
    }
}

/// Whether bucket `k` can be laid out: it is in the table and its bytes do not exceed
/// `isize::MAX`.
pub open spec fn bucket_fits(k: nat) -> bool {
    k < BUCKET_COUNT && capacity_of(k) * SLOT_BYTES <= isize::MAX
}

/// Size of the allocation for one bucket.
#[derive(Clone, Copy, PartialEq, Eq, Structural, Debug)]
pub struct BucketLayout {
    /// Number of 64-bit slots.
    pub slots: usize,
    /// Number of bytes.
    pub bytes: usize,
}

/// Lay out bucket `k`: `FIRST_BUCKET_SIZE * 2^k` slots of `SLOT_BYTES` bytes each.
///
/// Fails with `CapacityOverflow` exactly where the bucket does not fit.
pub fn bucket_layout(k: usize) -> (r: Result<BucketLayout, TryReserveError>)
    ensures
        r is Ok <==> bucket_fits(k as nat),
        r is Err ==> r->Err_0.kind == TryReserveErrorKind::CapacityOverflow,
        r matches Ok(l) ==> l.slots == capacity_of(k as nat) && l.bytes == l.slots * SLOT_BYTES,
{
    let overflow = TryReserveError { kind: TryReserveErrorKind::CapacityOverflow };
    if k >= BUCKET_COUNT || k as u32 >= usize::BITS {
        proof {
            if k < BUCKET_COUNT {
                lemma2_to64();
                lemma_pow2_le(usize::BITS as nat, k as nat);
                assert(pow2(usize::BITS as nat) == usize::MAX + 1);
            }
        }
        return Err(overflow);
    }
    proof {
        vstd::bits::lemma_usize_pow2_no_overflow(k as nat);
        vstd::bits::lemma_usize_shl_is_mul(1, k);
    }
    let pow = 1usize << k;
    let slots = match FIRST_BUCKET_SIZE.checked_mul(pow) {
        Some(slots) => slots,
        None => return Err(overflow),
    };
    let bytes = match slots.checked_mul(SLOT_BYTES) {
        Some(bytes) if bytes <= isize::MAX as usize => bytes,
        _ => return Err(overflow),
    };
    match alloc_guard(bytes) {
        Ok(()) => Ok(BucketLayout { slots, bytes }),
        Err(e) => Err(e),
    }
}

/// The last bucket needed to hold `n` elements (bucket zero when `n` is zero); the sum
/// `n + FIRST_BUCKET_SIZE` saturates at `usize::MAX`.
pub open spec fn buckets_needed(n: nat) -> nat {
    let top: nat = if n + FIRST_BUCKET_SIZE <= usize::MAX {
        (n + FIRST_BUCKET_SIZE) as nat
    } else {
        usize::MAX as nat
    };
    let h = hibit((top - 1) as nat);
    if h >= FIRST_BUCKET_BITS {
        (h - FIRST_BUCKET_BITS) as nat
    } else {
        0
    }
}

/// The last bucket needed to hold `n` elements.
pub fn last_bucket_for(n: usize) -> (r: usize)
    ensures
        r == buckets_needed(n as nat),
        r < 64,
{
    let h = highest_bit(n.saturating_add(FIRST_BUCKET_SIZE) - 1);
    h.saturating_sub(FIRST_BUCKET_BITS) as usize
}

/// The buckets needed for `n` elements are exactly those up to the bucket of index
/// `n - 1`, so every index below `n` lies in one of them.
pub proof fn lemma_buckets_needed_cover(n: nat, i: nat)
    requires
        n + FIRST_BUCKET_SIZE <= usize::MAX,
        i < n,
    ensures
        buckets_needed(n) == bucket_of((n - 1) as nat),
        bucket_of(i) <= buckets_needed(n),
{
    lemma_index_partition((n - 1) as nat);
    lemma_bucket_of_monotonic(i, (n - 1) as nat);
}

/// A bucket before one that fits fits too.
pub proof fn lemma_bucket_fits_downward(k: nat, j: nat)
    requires
        k <= j,
        bucket_fits(j),
    ensures
        bucket_fits(k),
{
    lemma_pow2_le(k, j);
    assert(capacity_of(k) <= capacity_of(j));
    assert(capacity_of(k) * SLOT_BYTES <= capacity_of(j) * SLOT_BYTES) by (nonlinear_arith)
        requires
            capacity_of(k) <= capacity_of(j),
    ;
}

/// The buckets that a reservation installs: every `k` with `first <= k <= last` (none
/// when `first > last`).
#[derive(Clone, Copy, PartialEq, Eq, Structural, Debug)]
pub struct ReservePlan {
    pub first: usize,
    pub last: usize,
}

/// The first bucket a reservation installs on a vector of `current_size` elements:
/// bucket zero for an empty vector, else the one after the buckets the elements need.
pub open spec fn plan_first(current_size: nat) -> nat {
    if current_size == 0 {
        0
    } else {
        buckets_needed(current_size) + 1
    }
}

/// Plan a reservation for `target` elements on a vector of `current_size` elements.
///
/// Fails with `CapacityOverflow` exactly where some bucket to install does not fit.
pub fn reserve_plan(current_size: usize, target: usize) -> (r: Result<ReservePlan, TryReserveError>)
    ensures
        r is Err <==> plan_first(current_size as nat) <= buckets_needed(target as nat)
            && !bucket_fits(buckets_needed(target as nat)),
        r is Err ==> r->Err_0.kind == TryReserveErrorKind::CapacityOverflow,
        r matches Ok(p) ==> {
            &&& p.last < 64
            &&& p.first == plan_first(current_size as nat)
            &&& p.last == buckets_needed(target as nat)
            &&& forall|k: nat| p.first <= k <= p.last ==> bucket_fits(k)
        },
        target == usize::MAX && bucket_fits(plan_first(current_size as nat)) ==> r is Err,
{
    let last = last_bucket_for(target);
    let first = if current_size == 0 {
        0
    } else {
        last_bucket_for(current_size) + 1
    };
    proof {
        if target == usize::MAX && bucket_fits(plan_first(current_size as nat)) {
            lemma_top_bucket_overflows();
        }
    }
    if first <= last {
        match bucket_layout(last) {
            Ok(_) => {},
            Err(e) => return Err(e),
        }
    }
    proof {
        assert forall|k: nat| first <= k <= last implies bucket_fits(k) by {
            lemma_bucket_fits_downward(k, last as nat);
        }
    }
    Ok(ReservePlan { first, last })
}

/// The buckets needed for `usize::MAX` elements do not fit, and lie past every bucket
/// that does.
proof fn lemma_top_bucket_overflows()
    ensures
        !bucket_fits(buckets_needed(usize::MAX as nat)),
        forall|k: nat| bucket_fits(k) ==> k < buckets_needed(usize::MAX as nat),
{
    lemma2_to64();
    let m = (usize::MAX - 1) as nat;
    lemma_hibit_bound(m);
    let h = hibit(m);
    let b = usize::BITS as nat;
    assert(pow2(b) == usize::MAX + 1);
    if h >= b {
        lemma_pow2_le(b, h);
    }
    if h + 1 < b {
        lemma_pow2_le(h + 1, (b - 1) as nat);
        lemma_pow2_adds((b - 1) as nat, 1);
    }
    assert(h == b - 1);
    assert forall|k: nat| bucket_fits(k) implies k < buckets_needed(usize::MAX as nat) by {
        if k >= buckets_needed(usize::MAX as nat) {
            lemma_pow2_le(buckets_needed(usize::MAX as nat), k);
            lemma_pow2_adds(3, buckets_needed(usize::MAX as nat));
        }
    }
}

/// The first index of bucket `k` lies in bucket `k`.
pub proof fn lemma_start_of_bucket(k: nat)
    ensures
        bucket_of(start_of(k)) == k,
{
    lemma_pow2_adds(3, k);
    lemma2_to64();
    lemma_pow2_pos(k);
    let n = pow2(k + 3);
    assert(start_of(k) + FIRST_BUCKET_SIZE == n);
    lemma_hibit_bound(n);
    let h = hibit(n);
    if h < k + 3 {
        lemma_pow2_le(h + 1, k + 3);
    } else if h > k + 3 {
        lemma_pow2_le(k + 4, h);
        vstd::arithmetic::power2::lemma_pow2_strictly_increases(k + 3, k + 4);
    }
}

/// Later buckets start later.
pub proof fn lemma_start_of_monotonic(k: nat, j: nat)
    requires
        k <= j,
    ensures
        start_of(k) <= start_of(j),
{
    lemma_pow2_le(k, j);
    lemma_pow2_pos(k);
}

} // verus!
