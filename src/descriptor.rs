//! Descriptors: the published state of the vector.
//!
//! A `Descriptor` holds the logical size and, while a push is in flight, the one slot
//! write that push still owes (a `WriteDescriptor`). Any thread that observes a pending
//! write completes it before it proposes a successor, so every transition below is a
//! function of the observed descriptor and the slot values read alongside it.
use vstd::prelude::*;

verus! {

/// A pending single-slot write: the slot at logical index `location` goes from `old`
/// to `new`.
#[derive(Clone, Copy, PartialEq, Eq, Structural, Debug)]
pub struct WriteDescriptor {
    pub new: u64,
    pub old: u64,
    pub location: usize,
}

/// The published state: logical size plus the write that the last push still owes.
#[derive(Clone, Copy, PartialEq, Eq, Structural, Debug)]
pub struct Descriptor {
    pub size: usize,
    pub pending: Option<WriteDescriptor>,
}

impl WriteDescriptor {
    pub fn new(new: u64, old: u64, location: usize) -> (r: Self)
        ensures
            r == (WriteDescriptor { new, old, location }),
    {
        WriteDescriptor { new, old, location }
    }

    /// A heap cell holding no pending write.
    pub fn new_none_as_ptr() -> (r: Box<Option<Self>>)
        ensures
            *r == None::<WriteDescriptor>,
    {
        Box::new(None)
    }

    /// A heap cell holding the pending write `old -> new` at `location`.
    pub fn new_some_as_ptr(new: u64, old: u64, location: usize) -> (r: Box<Option<Self>>)
        ensures
            *r == Some(WriteDescriptor { new, old, location }),
    {
        Box::new(Some(WriteDescriptor::new(new, old, location)))
    }

    /// What the target slot holds after a compare-and-swap from `old` to `new` on a
    /// slot that held `current`.
    pub open spec fn apply(self, current: u64) -> u64 {
        if current == self.old {
            self.new
        } else {
            current
        }
    }

    /// The value the target slot holds once this write has been attempted on a slot
    /// holding `current`.
    pub fn complete(&self, current: u64) -> (r: u64)
        ensures
            r == self.apply(current),
    {
        if current == self.old {
            self.new
        } else {
            current
        }
    }
}

impl Descriptor {
    pub fn new(pending: Option<WriteDescriptor>, size: usize) -> (r: Self)
        ensures
            r == (Descriptor { size, pending }),
    {
        Descriptor { size, pending }
    }

    /// A pending write always targets the last logical index of the descriptor.
    pub open spec fn wf(self) -> bool {
        self.pending matches Some(w) ==> self.size >= 1 && w.location == self.size - 1
    }

    /// The size that readers observe: a pushed element whose write is still pending is
    /// not yet present.
    pub open spec fn visible(self) -> nat {
        if self.pending is Some {
            (self.size - 1) as nat
        } else {
            self.size as nat
        }
    }

    /// The size readers observe.
    pub fn visible_size(&self) -> (r: usize)
        requires
            self.wf(),
        ensures
            r == self.visible(),
    {
        match self.pending {
            Some(_) => self.size - 1,
            None => self.size,
        }
    }

    /// The same descriptor once its pending write has been completed.
    pub fn resolved(&self) -> (r: Descriptor)
        ensures
            r == (Descriptor { size: self.size, pending: None }),
    {
        Descriptor { size: self.size, pending: None }
    }

    /// The successor that a push of `elem` proposes, where `old` is the value read from
    /// the slot at index `self.size`.
    pub fn push_successor(&self, elem: u64, old: u64) -> (r: Descriptor)
        requires
            self.size < usize::MAX,
        ensures
            r == (Descriptor {
                size: (self.size + 1) as usize,
                pending: Some(WriteDescriptor { new: elem, old, location: self.size }),
            }),
            r.wf(),
    {
        Descriptor::new(Some(WriteDescriptor::new(elem, old, self.size)), self.size + 1)
    }

    /// The successor that a pop proposes, with the index it reads; `None` when empty.
    pub fn pop_successor(&self) -> (r: Option<(Descriptor, usize)>)
        ensures
            self.size == 0 <==> r is None,
            r matches Some((d, i)) ==> {
                &&& d == (Descriptor { size: (self.size - 1) as usize, pending: None })
                &&& i == self.size - 1
            },
    {
        if self.size == 0 {
            None
        } else {
            Some((Descriptor::new(None, self.size - 1), self.size - 1))
        }
    }
}

/// The slot value after `n` observers have each completed the write `w`, starting from
/// a slot holding `current`.
pub open spec fn complete_times(w: WriteDescriptor, current: u64, n: nat) -> u64
    decreases n,
{
    if n == 0 {
        current
    } else {
        w.apply(complete_times(w, current, (n - 1) as nat))
    }
}

/// However many observers complete one pending write (at least one), starting from a
/// slot that holds the write's `old` value, the slot ends up holding its `new` value.
pub proof fn lemma_complete_write_idempotent(w: WriteDescriptor, n: nat)
    requires
        n >= 1,
    ensures
        complete_times(w, w.old, n) == w.new,
    decreases n,
{
    if n > 1 {
        lemma_complete_write_idempotent(w, (n - 1) as nat);
    } else {
        assert(complete_times(w, w.old, 0) == w.old);
    }
}

} // verus!
