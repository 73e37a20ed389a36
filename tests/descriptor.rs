use unlocked::descriptor::{Descriptor, WriteDescriptor};
use unlocked::Family;

#[test]
fn write_descriptor_cells() {
    let w = WriteDescriptor::new(5, 3, 9);
    assert_eq!(w, WriteDescriptor { new: 5, old: 3, location: 9 });
    assert_eq!(*WriteDescriptor::new_none_as_ptr(), None);
    assert_eq!(*WriteDescriptor::new_some_as_ptr(5, 3, 9), Some(w));
}

#[test]
fn complete_write_is_idempotent() {
    let w = WriteDescriptor::new(7, 0, 0);
    assert_eq!(w.complete(0), 7);
    assert_eq!(w.complete(w.complete(0)), 7);
    assert_eq!(w.complete(w.complete(w.complete(0))), 7);
    assert_eq!(w.complete(11), 11);
}

#[test]
fn visible_size_skips_pending_push() {
    let clean = Descriptor::new(None, 4);
    assert_eq!(clean.visible_size(), 4);
    let pending = Descriptor::new(Some(WriteDescriptor::new(1, 0, 3)), 4);
    assert_eq!(pending.visible_size(), 3);
    assert_eq!(pending.resolved(), clean);
    assert_eq!(pending.resolved().visible_size(), 4);
}

#[test]
fn push_successor_records_the_write() {
    let d = Descriptor::new(None, 2);
    let next = d.push_successor(10, 99);
    assert_eq!(next.size, 3);
    assert_eq!(next.pending, Some(WriteDescriptor { new: 10, old: 99, location: 2 }));
    assert_eq!(next.visible_size(), 2);
}

#[test]
fn pop_successor_on_empty_and_nonempty() {
    assert_eq!(Descriptor::new(None, 0).pop_successor(), None);
    assert_eq!(
        Descriptor::new(None, 3).pop_successor(),
        Some((Descriptor { size: 2, pending: None }, 2))
    );
}

#[test]
fn family_constructs() {
    let _family = Family::new();
}
