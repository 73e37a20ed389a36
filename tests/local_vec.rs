use unlocked::alloc_error::{TryReserveError, TryReserveErrorKind};
use unlocked::local::LocalVec;
use unlocked::mapping::BUCKET_COUNT;

fn allocated(v: &LocalVec) -> Vec<bool> {
    (0..BUCKET_COUNT).map(|k| v.is_bucket_allocated(k)).collect()
}

#[test]
fn local_size_starts_at_0() {
    let sv = LocalVec::new();
    assert_eq!(0, sv.size());
}

#[test]
fn local_pop_empty_returns_none() {
    let mut sv = LocalVec::new();
    assert_eq!(sv.pop(), None);
    assert_eq!(sv.size(), 0);
}

#[test]
fn local_ten_push_ten_pop() {
    let mut sv = LocalVec::new();
    for i in 0..10u64 {
        sv.push(i);
    }
    for i in (0..10u64).rev() {
        assert_eq!(sv.pop(), Some(i));
    }
    assert_eq!(sv.pop(), None);
}

#[test]
fn local_does_not_allocate_buffers_on_new() {
    let sv = LocalVec::new();
    for k in 0..BUCKET_COUNT {
        assert!(!sv.is_bucket_allocated(k));
    }
}

#[test]
fn local_size_with_interleaving() {
    let mut sv = LocalVec::new();
    sv.push(-1i64 as u64);
    sv.push(-2i64 as u64);
    sv.pop();
    assert_eq!(sv.size(), 1);
    assert_eq!(sv.pop().map(|w| w as i64), Some(-1));
}

#[test]
fn local_push_then_pop_is_bit_exact() {
    for v in [0u64, 1, u64::MAX, 0x8000_0000_0000_0001, 0xdead_beef_0000_ffff] {
        let mut sv = LocalVec::new();
        sv.push(v);
        assert_eq!(sv.pop(), Some(v));
        assert_eq!(sv.size(), 0);
    }
}

#[test]
fn local_last_in_first_out() {
    let mut sv = LocalVec::new();
    sv.push(3);
    sv.push(4);
    assert_eq!(sv.pop(), Some(4));
    assert_eq!(sv.pop(), Some(3));
}

#[test]
fn local_push_allocates_bucket_on_boundary() {
    let mut sv = LocalVec::new();
    sv.push(1);
    assert!(sv.is_bucket_allocated(0));
    assert!(!sv.is_bucket_allocated(1));
    for i in 1..8u64 {
        sv.push(i);
    }
    assert!(!sv.is_bucket_allocated(1));
    sv.push(8);
    assert!(sv.is_bucket_allocated(1));
    assert!(!sv.is_bucket_allocated(2));
}

#[test]
fn local_pop_keeps_buckets_and_push_overwrites() {
    let mut sv = LocalVec::new();
    for i in 0..9u64 {
        sv.push(i);
    }
    for _ in 0..9 {
        sv.pop();
    }
    assert!(sv.is_bucket_allocated(1));
    sv.push(42);
    assert_eq!(sv.size(), 1);
    assert_eq!(sv.pop(), Some(42));
}

#[test]
fn local_reserve_is_sufficient() {
    let mut sv = LocalVec::new();
    sv.reserve(100);
    let before = allocated(&sv);
    // 100 elements need buckets 0..=3 (8 + 16 + 32 + 64 slots).
    assert_eq!(&before[..5], &[true, true, true, true, false]);
    for i in 0..100u64 {
        sv.push(i);
        assert_eq!(allocated(&sv), before);
    }
    // The four buckets hold 120 slots: index 120 is the first of bucket 4.
    for i in 100..120u64 {
        sv.push(i);
    }
    assert!(!sv.is_bucket_allocated(4));
    sv.push(120);
    assert!(sv.is_bucket_allocated(4));
}

#[test]
fn local_reserve_on_nonempty_vector() {
    let mut sv = LocalVec::new();
    for i in 0..20u64 {
        sv.push(i);
    }
    sv.reserve(30);
    assert!(sv.is_bucket_allocated(2));
    assert!(!sv.is_bucket_allocated(3));
    assert_eq!(sv.size(), 20);
    assert_eq!(sv.pop(), Some(19));
}

#[test]
fn local_try_reserve_usize_max_overflows() {
    let mut sv = LocalVec::new();
    assert_eq!(
        sv.try_reserve(usize::MAX),
        Err(TryReserveError { kind: TryReserveErrorKind::CapacityOverflow })
    );
    assert_eq!(allocated(&sv), vec![false; BUCKET_COUNT]);
    assert_eq!(sv.try_reserve(8), Ok(()));
    assert!(sv.is_bucket_allocated(0));
    assert!(!sv.is_bucket_allocated(1));
}

#[test]
fn local_size_balance_after_mixed_operations() {
    let mut sv = LocalVec::new();
    for i in 0..50u64 {
        sv.push(i);
    }
    let initial = sv.size();
    for round in 0..4u64 {
        for i in 0..25u64 {
            sv.push(round * 100 + i);
        }
        for _ in 0..25 {
            assert!(sv.pop().is_some());
        }
    }
    assert_eq!(sv.size(), initial);
    assert_eq!(sv.pop(), Some(49));
}

#[test]
fn local_million_pushes_after_reserve() {
    let mut sv = LocalVec::new();
    sv.reserve(10 * 100_000);
    for _ in 0..10 {
        for i in 0..100_000u64 {
            sv.push(i);
        }
    }
    assert_eq!(sv.size(), 1_000_000);
    assert_eq!(sv.pop(), Some(99_999));
}

#[test]
fn local_try_push_on_fresh_vector() {
    let mut sv = LocalVec::new();
    assert_eq!(sv.try_push(5), Ok(()));
    assert_eq!(sv.size(), 1);
    assert!(sv.is_bucket_allocated(0));
    assert_eq!(sv.pop(), Some(5));
}
