use unlocked::alloc_error::{alloc_guard, TryReserveError, TryReserveErrorKind};
use unlocked::highest_bit;
use unlocked::mapping::{
    bucket_layout, last_bucket_for, locate, reserve_plan, BucketLayout, ReservePlan, SlotPos,
};

const OVERFLOW: TryReserveError = TryReserveError { kind: TryReserveErrorKind::CapacityOverflow };

#[test]
fn highest_bit_values() {
    assert_eq!(highest_bit(1 << 2), 2);
    assert_eq!(highest_bit(0), 0);
    assert_eq!(highest_bit(1), 0);
    assert_eq!(highest_bit(7), 2);
    assert_eq!(highest_bit(8), 3);
    assert_eq!(highest_bit(usize::MAX), usize::BITS - 1);
}

#[test]
fn locate_places_indices_in_doubling_buckets() {
    let cases = [
        (0usize, 0usize, 0usize),
        (1, 0, 1),
        (7, 0, 7),
        (8, 1, 0),
        (15, 1, 7),
        (16, 1, 8),
        (23, 1, 15),
        (24, 2, 0),
        (55, 2, 31),
        (56, 3, 0),
    ];
    for (i, bucket, offset) in cases {
        assert_eq!(locate(i), Ok(SlotPos { bucket, offset }), "index {}", i);
    }
}

#[test]
fn locate_covers_every_offset_of_a_bucket() {
    for i in 8..24usize {
        assert_eq!(locate(i), Ok(SlotPos { bucket: 1, offset: i - 8 }));
    }
}

#[test]
fn locate_overflow() {
    assert_eq!(locate(usize::MAX), Err(OVERFLOW));
    assert_eq!(locate(usize::MAX - 7), Err(OVERFLOW));
}

#[test]
fn bucket_layout_sizes() {
    assert_eq!(bucket_layout(0), Ok(BucketLayout { slots: 8, bytes: 64 }));
    assert_eq!(bucket_layout(1), Ok(BucketLayout { slots: 16, bytes: 128 }));
    assert_eq!(bucket_layout(10), Ok(BucketLayout { slots: 8192, bytes: 65536 }));
    assert_eq!(bucket_layout(60), Err(OVERFLOW));
    if usize::BITS == 64 {
        assert_eq!(bucket_layout(56), Ok(BucketLayout { slots: 1 << 59, bytes: 1 << 62 }));
        assert_eq!(bucket_layout(57), Err(OVERFLOW));
    }
}

#[test]
fn alloc_guard_accepts_small_sizes() {
    assert_eq!(alloc_guard(0), Ok(()));
    assert_eq!(alloc_guard(4096), Ok(()));
    if usize::BITS == 64 {
        assert_eq!(alloc_guard(usize::MAX), Ok(()));
    } else {
        assert_eq!(alloc_guard(usize::MAX), Err(OVERFLOW));
    }
}

#[test]
fn last_bucket_for_sizes() {
    assert_eq!(last_bucket_for(0), 0);
    assert_eq!(last_bucket_for(1), 0);
    assert_eq!(last_bucket_for(8), 0);
    assert_eq!(last_bucket_for(9), 1);
    assert_eq!(last_bucket_for(24), 1);
    assert_eq!(last_bucket_for(25), 2);
    assert_eq!(last_bucket_for(usize::MAX), usize::BITS as usize - 4);
}

#[test]
fn reserve_plan_ranges() {
    assert_eq!(reserve_plan(0, 10), Ok(ReservePlan { first: 0, last: 1 }));
    assert_eq!(reserve_plan(0, 0), Ok(ReservePlan { first: 0, last: 0 }));
    assert_eq!(reserve_plan(8, 9), Ok(ReservePlan { first: 1, last: 1 }));
    assert_eq!(reserve_plan(9, 24), Ok(ReservePlan { first: 2, last: 1 }));
    assert_eq!(reserve_plan(20, 1_000_000), Ok(ReservePlan { first: 2, last: 16 }));
}

#[test]
fn reserve_plan_usize_max_overflows() {
    assert_eq!(reserve_plan(0, usize::MAX), Err(OVERFLOW));
    assert_eq!(reserve_plan(100, usize::MAX), Err(OVERFLOW));
}
