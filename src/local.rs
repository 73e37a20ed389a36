//! A vector owned by one thread that runs the descriptor protocol over its own bucket
//! table: the same geometry, the same successor descriptors and the same write
//! completion as the shared container, with exclusive access in place of atomics.
use vstd::prelude::*;
use crate::alloc_error::{TryReserveError, TryReserveErrorKind};
use crate::descriptor::{Descriptor, WriteDescriptor};
use crate::mapping::{
    BUCKET_COUNT, FIRST_BUCKET_SIZE, addressable, bucket_fits, bucket_layout, bucket_of,
    buckets_needed, capacity_of, lemma_buckets_needed_cover, lemma_index_partition, locate, offset_of, plan_first,
    reserve_plan,
};

verus! {

/// Whether index `i` can be stored: its position does not overflow and its bucket fits.
pub open spec fn storable(i: nat) -> bool {
    i + FIRST_BUCKET_SIZE <= usize::MAX && bucket_fits(bucket_of(i))
}

pub struct LocalVec {
    buckets: Vec<Option<Vec<u64>>>,
    descriptor: Descriptor,
}

impl LocalVec {
    /// Whether bucket `k` has been allocated.
    pub closed spec fn installed(&self, k: nat) -> bool {
        k < self.buckets@.len() && self.buckets@[k as int] is Some
    }

    /// The word stored at logical index `i`.
    pub closed spec fn slot(&self, i: nat) -> u64 {
        self.buckets@[bucket_of(i) as int]->Some_0@[offset_of(i) as int]
    }

    /// The published descriptor.
    pub closed spec fn desc(&self) -> Descriptor {
        self.descriptor
    }

    /// Index `i` has an address in an allocated bucket.
    closed spec fn backed(&self, i: nat) -> bool {
        addressable(i) && self.installed(bucket_of(i))
    }

    /// The bucket table is complete, each allocated bucket has its capacity, and every
    /// index below the published size has an allocated slot.
    closed spec fn table_wf(&self) -> bool {
        &&& self.buckets@.len() == BUCKET_COUNT
        &&& forall|k: int|
            0 <= k < BUCKET_COUNT && #[trigger] self.buckets@[k] is Some
                ==> self.buckets@[k]->Some_0@.len() == capacity_of(k as nat) && bucket_fits(
                k as nat,
            )
        &&& self.descriptor.wf()
        &&& forall|i: nat| i < self.descriptor.size ==> #[trigger] self.backed(i)
    }

    /// Between operations no write is pending.
    pub closed spec fn wf(&self) -> bool {
        &&& self.table_wf()
        &&& self.descriptor.pending is None
    }

    /// The elements, oldest first.
    pub closed spec fn view(&self) -> Seq<u64> {
        Seq::new(self.descriptor.visible(), |i: int| self.slot(i as nat))
    }

    /// An empty vector with no bucket allocated.
    pub fn new() -> (r: Self)
        ensures
            r.wf(),
            r@ == Seq::<u64>::empty(),
            forall|k: nat| !r.installed(k),
            r.desc() == (Descriptor { size: 0, pending: None }),
    {
        let mut buckets: Vec<Option<Vec<u64>>> = Vec::new();
        let mut k: usize = 0;
        while k < BUCKET_COUNT
            invariant
                k <= BUCKET_COUNT,
                buckets@.len() == k,
                forall|j: int| 0 <= j < k ==> buckets@[j] is None,
            decreases BUCKET_COUNT - k,
        {
            buckets.push(None);
            k = k + 1;
        }
        let r = LocalVec { buckets, descriptor: Descriptor::new(None, 0) };
        proof {
            assert(r@ =~= Seq::<u64>::empty());
        }
        r
    }

    /// Whether bucket `k` has been allocated.
    pub fn is_bucket_allocated(&self, k: usize) -> (r: bool)
        requires
            self.wf(),
        ensures
            r == self.installed(k as nat),
    {
        k < self.buckets.len() && self.buckets[k].is_some()
    }

    /// Allocate bucket `k`, zeroed, unless it is already there.
    fn allocate_bucket(&mut self, k: usize)
        requires
            old(self).wf(),
            bucket_fits(k as nat),
        ensures
            final(self).wf(),
            final(self).descriptor == old(self).descriptor,
            final(self).installed(k as nat),
            forall|j: nat| j != k ==> final(self).installed(j) == old(self).installed(j),
            forall|i: nat| old(self).backed(i) ==> final(self).slot(i) == old(self).slot(i),
            final(self)@ == old(self)@,
    {
        if self.buckets[k].is_some() {
            return;
        }
        let layout = match bucket_layout(k) {
            Ok(layout) => layout,
            Err(_) => return,
        };
        let bucket: Vec<u64> = vec![0u64; layout.slots];
        let ghost before = *self;
        self.buckets.set(k, Some(bucket));
        proof {
            assert forall|i: nat| before.backed(i) implies self.slot(i) == before.slot(i) by {
                assert(bucket_of(i) != k);
            }
            assert forall|i: nat| i < self.descriptor.size implies #[trigger] self.backed(i) by {
                assert(before.backed(i));
            }
            assert forall|i: int| 0 <= i < self@.len() implies self@[i] == before@[i] by {
                assert(before.backed(i as nat));
            }
            assert(self@ =~= before@);
        }
    }

    /// Complete the pending write, if any, and clear it from the descriptor.
    fn complete_write(&mut self)
        requires
            old(self).table_wf(),
        ensures
            final(self).wf(),
            final(self).descriptor == (Descriptor { size: old(self).descriptor.size, pending: None }),
            forall|k: nat| final(self).installed(k) == old(self).installed(k),
            forall|i: nat| i < old(self).descriptor.size ==> final(self).slot(i) == (
                match old(self).descriptor.pending {
                    Some(w) if i == w.location => w.apply(old(self).slot(i)),
                    _ => old(self).slot(i),
                }),
    {
        if let Some(w) = self.descriptor.pending {
            let ghost before = *self;
            proof {
                assert(self.backed(w.location as nat));
            }
            let pos = match locate(w.location) {
                Ok(pos) => pos,
                Err(_) => return,
            };
            self.write_slot(pos.bucket, pos.offset, w);
            self.descriptor = self.descriptor.resolved();
            proof {
                assert forall|i: nat| i < before.descriptor.size implies self.slot(i) == (
                    match before.descriptor.pending {
                        Some(w) if i == w.location => w.apply(before.slot(i)),
                        _ => before.slot(i),
                    }) by {
                    assert(before.backed(i));
                    lemma_index_partition(i);
                    lemma_index_partition(w.location as nat);
                }
                assert forall|i: nat| i < self.descriptor.size implies #[trigger] self.backed(i) by {
                    assert(before.backed(i));
                }
            }
        }
    }

    /// Compare-and-swap on one slot: it takes `w.new` where it held `w.old`.
    fn write_slot(&mut self, bucket: usize, offset: usize, w: WriteDescriptor)
        requires
            bucket < BUCKET_COUNT,
            old(self).buckets@.len() == BUCKET_COUNT,
            old(self).buckets@[bucket as int] is Some,
            offset < old(self).buckets@[bucket as int]->Some_0@.len(),
        ensures
            final(self).descriptor == old(self).descriptor,
            final(self).buckets@.len() == old(self).buckets@.len(),
            forall|k: int| 0 <= k < BUCKET_COUNT && k != bucket
                ==> final(self).buckets@[k] == old(self).buckets@[k],
            final(self).buckets@[bucket as int] matches Some(b) && b@ == old(
                self,
            ).buckets@[bucket as int]->Some_0@.update(
                offset as int,
                w.apply(old(self).buckets@[bucket as int]->Some_0@[offset as int]),
            ),
    {
        let mut taken: Option<Vec<u64>> = None;
        let ghost before = self.buckets@;
        std::mem::swap(&mut taken, &mut self.buckets[bucket]);
        if let Some(mut b) = taken {
            let current = b[offset];
            b.set(offset, w.complete(current));
            self.buckets.set(bucket, Some(b));
        }
        proof {
            assert forall|k: int| 0 <= k < BUCKET_COUNT && k != bucket
                implies self.buckets@[k] == before[k] by {}
        }
    }

    /// The word at `offset` of `bucket`, which is allocated.
    fn read_slot(&self, bucket: usize, offset: usize) -> (r: u64)
        requires
            bucket < BUCKET_COUNT,
            self.buckets@.len() == BUCKET_COUNT,
            self.buckets@[bucket as int] is Some,
            offset < self.buckets@[bucket as int]->Some_0@.len(),
        ensures
            r == self.buckets@[bucket as int]->Some_0@[offset as int],
    {
        match &self.buckets[bucket] {
            Some(b) => b[offset],
            None => 0,
        }
    }

    /// Append `elem`, allocating the bucket of the new index if it is not there yet.
    pub fn push(&mut self, elem: u64)
        requires
            old(self).wf(),
            storable(old(self)@.len()),
        ensures
            final(self).wf(),
            final(self)@ == old(self)@.push(elem),
            forall|k: nat|
                final(self).installed(k) == (old(self).installed(k) || k == bucket_of(
                    old(self)@.len(),
                )),
    {
        let current = self.descriptor;
        proof {
            lemma_index_partition(current.size as nat);
            assert(offset_of(current.size as nat) * 8 < capacity_of(bucket_of(current.size as nat)) * 8) by (nonlinear_arith)
                requires offset_of(current.size as nat) < capacity_of(bucket_of(current.size as nat));
        }
        let pos = match locate(current.size) {
            Ok(pos) => pos,
            Err(_) => return,
        };
        if self.buckets[pos.bucket].is_none() {
            self.allocate_bucket(pos.bucket);
        }
        let old_word = self.read_slot(pos.bucket, pos.offset);
        let ghost before = *self;
        self.descriptor = current.push_successor(elem, old_word);
        proof {
            assert forall|i: nat| i < self.descriptor.size implies #[trigger] self.backed(i) by {
                if i < current.size {
                    assert(before.backed(i));
                }
            }
        }
        self.complete_write();
        proof {
            assert forall|i: int| 0 <= i < self@.len() implies self@[i] == old(self)@.push(elem)[i] by {
                if i < current.size {
                    assert(before.backed(i as nat));
                }
            }
            assert(self@ =~= old(self)@.push(elem));
        }
    }

    /// Append `elem` where its index can be stored; fails with `CapacityOverflow`,
    /// changing nothing, exactly where it cannot.
    pub fn try_push(&mut self, elem: u64) -> (r: Result<(), TryReserveError>)
        requires
            old(self).wf(),
        ensures
            final(self).wf(),
            r is Ok <==> storable(old(self)@.len()),
            r is Err ==> r->Err_0.kind == TryReserveErrorKind::CapacityOverflow,
            r is Ok ==> final(self)@ == old(self)@.push(elem),
            r is Err ==> final(self)@ == old(self)@,
            forall|k: nat|
                final(self).installed(k) == (old(self).installed(k) || (r is Ok && k == bucket_of(
                    old(self)@.len(),
                ))),
    {
        let size = self.size();
        let pos = match locate(size) {
            Ok(pos) => pos,
            Err(e) => {
                proof {
                    lemma_index_partition(size as nat);
                    if size + FIRST_BUCKET_SIZE <= usize::MAX && bucket_of(size as nat) < BUCKET_COUNT {
                        assert(offset_of(size as nat) * 8 <= capacity_of(bucket_of(size as nat)) * 8) by (nonlinear_arith)
                            requires offset_of(size as nat) < capacity_of(bucket_of(size as nat));
                    }
                }
                return Err(e);
            },
        };
        match bucket_layout(pos.bucket) {
            Ok(_) => {},
            Err(e) => return Err(e),
        }
        self.push(elem);
        Ok(())
    }

    /// Remove and return the last element; `None` when empty. The slot keeps its word.
    pub fn pop(&mut self) -> (r: Option<u64>)
        requires
            old(self).wf(),
        ensures
            final(self).wf(),
            old(self)@.len() == 0 ==> r is None && final(self)@ == old(self)@,
            old(self)@.len() > 0 ==> r == Some(old(self)@.last()) && final(self)@ == old(
                self,
            )@.drop_last(),
            forall|k: nat| final(self).installed(k) == old(self).installed(k),
    {
        let current = self.descriptor;
        match current.pop_successor() {
            None => None,
            Some((next, index)) => {
                proof {
                    assert(self.backed(index as nat));
                    lemma_index_partition(index as nat);
                }
                let pos = match locate(index) {
                    Ok(pos) => pos,
                    Err(_) => return None,
                };
                let elem = self.read_slot(pos.bucket, pos.offset);
                let ghost before = *self;
                self.descriptor = next;
                proof {
                    assert forall|i: nat| i < self.descriptor.size implies #[trigger] self.backed(i) by {
                        assert(before.backed(i));
                    }
                    assert(self@ =~= old(self)@.drop_last());
                }
                Some(elem)
            },
        }
    }

    /// The number of elements.
    pub fn size(&self) -> (r: usize)
        requires
            self.wf(),
        ensures
            r == self@.len(),
    {
        self.descriptor.visible_size()
    }

    /// Allocate every bucket needed to hold `n` elements.
    ///
    /// Fails with `CapacityOverflow`, allocating nothing, exactly where one of the
    /// buckets to allocate does not fit.
    pub fn try_reserve(&mut self, n: usize) -> (r: Result<(), TryReserveError>)
        requires
            old(self).wf(),
        ensures
            final(self).wf(),
            final(self)@ == old(self)@,
            r is Err <==> plan_first(old(self)@.len()) <= buckets_needed(n as nat) && !bucket_fits(
                buckets_needed(n as nat),
            ),
            r is Err ==> r->Err_0.kind == TryReserveErrorKind::CapacityOverflow,
            r is Err ==> forall|k: nat| final(self).installed(k) == old(self).installed(k),
            r is Ok ==> forall|k: nat|
                final(self).installed(k) == (old(self).installed(k) || k <= buckets_needed(
                    n as nat,
                )),
            n == usize::MAX && bucket_fits(plan_first(old(self)@.len())) ==> r is Err,
    {
        let plan = match reserve_plan(self.size(), n) {
            Ok(plan) => plan,
            Err(e) => return Err(e),
        };
        proof {
            assert forall|k: nat| k < plan.first implies self.installed(k) by {
                self.lemma_installed_below_size(k);
            }
        }
        let mut k = plan.first;
        while k <= plan.last
            invariant
                self.wf(),
                self@ == old(self)@,
                plan.first <= k,
                plan.last < 64,
                k == plan.first || k <= plan.last + 1,
                forall|j: nat| plan.first <= j <= plan.last ==> bucket_fits(j),
                forall|j: nat| j < k ==> self.installed(j),
                forall|j: nat|
                    self.installed(j) == (old(self).installed(j) || (plan.first <= j < k)),
                forall|j: nat| j < plan.first ==> old(self).installed(j),
            decreases plan.last + 1 - k,
        {
            self.allocate_bucket(k);
            k = k + 1;
        }
        proof {
            assert forall|j: nat|
                self.installed(j) == (old(self).installed(j) || j <= buckets_needed(
                    n as nat,
                )) by {
            }
        }
        Ok(())
    }

    /// Allocate every bucket needed to hold `n` elements.
    pub fn reserve(&mut self, n: usize)
        requires
            old(self).wf(),
            plan_first(old(self)@.len()) <= buckets_needed(n as nat) ==> bucket_fits(
                buckets_needed(n as nat),
            ),
        ensures
            final(self).wf(),
            final(self)@ == old(self)@,
            forall|k: nat|
                final(self).installed(k) == (old(self).installed(k) || k <= buckets_needed(
                    n as nat,
                )),
    {
        let _ = self.try_reserve(n);
    }

    /// Every bucket before the first one a reservation installs is already allocated.
    proof fn lemma_installed_below_size(&self, k: nat)
        requires
            self.wf(),
            k < plan_first(self@.len()),
        ensures
            self.installed(k),
    {
        let n = self.descriptor.size as nat;
        assert(self.backed((n - 1) as nat));
        let b = bucket_of((n - 1) as nat);
        lemma_index_partition((n - 1) as nat);
        vstd::arithmetic::power2::lemma_pow2_pos(b);
        assert(capacity_of(b) * 8 <= isize::MAX);
        assert(n + FIRST_BUCKET_SIZE <= usize::MAX);
        lemma_buckets_needed_cover(n, (n - 1) as nat);
        crate::mapping::lemma_start_of_bucket(k);
        crate::mapping::lemma_start_of_monotonic(k, bucket_of((n - 1) as nat));
        lemma_index_partition((n - 1) as nat);
        assert(self.backed(crate::mapping::start_of(k)));
    }
}

/// One operation on the vector.
#[derive(Clone, Copy, PartialEq, Eq, Structural, Debug)]
pub enum Op {
    Push(u64),
    Pop,
}

/// The contents after running `ops` on contents `s`, as `push` and `pop` state them.
pub open spec fn run(s: Seq<u64>, ops: Seq<Op>) -> Seq<u64>
    decreases ops.len(),
{
    if ops.len() == 0 {
        s
    } else {
        let next = match ops[0] {
            Op::Push(v) => s.push(v),
            Op::Pop => if s.len() == 0 {
                s
            } else {
                s.drop_last()
            },
        };
        run(next, ops.subrange(1, ops.len() as int))
    }
}

/// Whether no pop in `ops`, run from contents of length `len`, meets an empty vector.
pub open spec fn pops_never_empty(len: nat, ops: Seq<Op>) -> bool
    decreases ops.len(),
{
    if ops.len() == 0 {
        true
    } else {
        match ops[0] {
            Op::Push(_) => pops_never_empty(len + 1, ops.subrange(1, ops.len() as int)),
            Op::Pop => len > 0 && pops_never_empty(
                (len - 1) as nat,
                ops.subrange(1, ops.len() as int),
            ),
        }
    }
}

/// The number of pushes in `ops`.
pub open spec fn pushes(ops: Seq<Op>) -> nat
    decreases ops.len(),
{
    if ops.len() == 0 {
        0
    } else {
        (if ops[0] is Push { 1nat } else { 0nat }) + pushes(ops.subrange(1, ops.len() as int))
    }
}

/// A pop right after a push of `elem` returns `elem` and restores the earlier contents.
pub proof fn lemma_push_then_pop(before: Seq<u64>, after_push: Seq<u64>, elem: u64)
    requires
        after_push == before.push(elem),
    ensures
        after_push.len() > 0,
        after_push.last() == elem,
        after_push.drop_last() == before,
{
    assert(after_push.drop_last() =~= before);
}

/// Pushing `a` then `b` and popping twice returns `b`, then `a`, and restores the
/// contents.
pub proof fn lemma_last_in_first_out(s0: Seq<u64>, s1: Seq<u64>, s2: Seq<u64>, a: u64, b: u64)
    requires
        s1 == s0.push(a),
        s2 == s1.push(b),
    ensures
        s2.len() > 0 && s2.last() == b && s2.drop_last() == s1,
        s1.len() > 0 && s1.last() == a && s1.drop_last() == s0,
{
    lemma_push_then_pop(s0, s1, a);
    lemma_push_then_pop(s1, s2, b);
}

/// When no pop meets an empty vector, the final length is the initial length plus the
/// pushes minus the pops.
pub proof fn lemma_size_balance(s: Seq<u64>, ops: Seq<Op>)
    requires
        pops_never_empty(s.len(), ops),
    ensures
        run(s, ops).len() + (ops.len() - pushes(ops)) == s.len() + pushes(ops),
    decreases ops.len(),
{
    if ops.len() > 0 {
        let rest = ops.subrange(1, ops.len() as int);
        match ops[0] {
            Op::Push(v) => lemma_size_balance(s.push(v), rest),
            Op::Pop => lemma_size_balance(s.drop_last(), rest),
        }
    }
}

/// After a reservation for `n` elements, a push onto fewer than `n` elements finds the
/// bucket of its index already allocated, so `push` allocates nothing.
pub proof fn lemma_reserved_push_allocates_nothing(v: LocalVec, n: usize)
    requires
        v.wf(),
        forall|k: nat| k <= buckets_needed(n as nat) ==> v.installed(k),
        v@.len() < n,
        n + FIRST_BUCKET_SIZE <= usize::MAX,
    ensures
        v.installed(bucket_of(v@.len())),
{
    lemma_buckets_needed_cover(n as nat, v@.len());
}

} // verus!
