//! Sets of typed pointers, as queries produce and combine them.
use vstd::prelude::*;
use crate::pointer::{PakTypedPointer, PointerView};
use crate::wire::views;

verus! {

/// A set of typed pointers. It holds each pointer once, in the order in which
/// the pointers were first added.
#[derive(Debug)]
pub struct PakPointerSet {
    pub items: Vec<PakTypedPointer>,
}

impl View for PakPointerSet {
    type V = Set<PointerView>;

    open spec fn view(&self) -> Set<PointerView> {
        views(self.items@).to_set()
    }
}

impl PakPointerSet {
    /// No pointer is held twice.
    pub open spec fn wf(&self) -> bool {
        views(self.items@).no_duplicates()
    }

    /// The empty set.
    pub fn new() -> (r: Self)
        ensures
            r.wf(),
            r@ == Set::<PointerView>::empty(),
    {
        let r = PakPointerSet { items: Vec::new() };
        proof {
            assert(r@ =~= Set::<PointerView>::empty());
        }
        r
    }

    /// The number of pointers in the set.
    pub fn len(&self) -> (r: usize)
        requires
            self.wf(),
        ensures
            r == self@.len(),
    {
        proof {
            views(self.items@).unique_seq_to_set();
        }
        self.items.len()
    }

    /// Whether the set holds `pointer`.
    pub fn contains(&self, pointer: &PakTypedPointer) -> (r: bool)
        ensures
            r == self@.contains(pointer@),
    {
        let mut i: usize = 0;
        while i < self.items.len()
            invariant
                i <= self.items@.len(),
                forall|j: int| 0 <= j < i ==> (#[trigger] self.items@[j])@ != pointer@,
            decreases self.items@.len() - i,
        {
            if self.items[i] == *pointer {
                proof {
                    assert(views(self.items@)[i as int] == pointer@);
                }
                return true;
            }
            i += 1;
        }
        proof {
            if self@.contains(pointer@) {
                let j = choose|j: int|
                    0 <= j < views(self.items@).len() && views(self.items@)[j] == pointer@;
                assert(self.items@[j]@ == pointer@);
            }
        }
        false
    }

    /// Adds `pointer` to the set.
    pub fn insert(&mut self, pointer: PakTypedPointer)
        requires
            old(self).wf(),
        ensures
            final(self).wf(),
            final(self)@ == old(self)@.insert(pointer@),
    {
        if !self.contains(&pointer) {
            let ghost before = views(self.items@);
            self.items.push(pointer);
            proof {
                let after = views(self.items@);
                assert(after =~= before.push(pointer@));
                assert(self@ =~= old(self)@.insert(pointer@)) by {
                    assert forall|x: PointerView| after.to_set().contains(x)
                        <==> before.to_set().insert(pointer@).contains(x) by {
                        if after.to_set().contains(x) {
                            let j = choose|j: int| 0 <= j < after.len() && after[j] == x;
                            if j < before.len() {
                                assert(before[j] == x);
                            }
                        }
                        if before.to_set().contains(x) {
                            let j = choose|j: int| 0 <= j < before.len() && before[j] == x;
                            assert(after[j] == x);
                        }
                        if x == pointer@ {
                            assert(after[before.len() as int] == x);
                        }
                    }
                }
                assert(after.no_duplicates()) by {
                    assert forall|i: int, j: int|
                        0 <= i < after.len() && 0 <= j < after.len() && i != j implies after[i]
                        != after[j] by {
                        if i < before.len() && j < before.len() {
                            assert(before[i] != before[j]);
                        } else if i < before.len() {
                            assert(before[i] == after[i]);
                            assert(before.to_set().contains(before[i]));
                        } else {
                            assert(before[j] == after[j]);
                            assert(before.to_set().contains(before[j]));
                        }
                    }
                }
            }
        } else {
            proof {
                assert(self@ =~= old(self)@.insert(pointer@));
            }
        }
    }

    /// Adds copies of all of `pointers` to the set.
    pub fn insert_all(&mut self, pointers: &Vec<PakTypedPointer>)
        requires
            old(self).wf(),
        ensures
            final(self).wf(),
            final(self)@ == old(self)@.union(views(pointers@).to_set()),
    {
        let mut i: usize = 0;
        let ghost all = views(pointers@);
        proof {
            assert(self@ =~= old(self)@.union(all.take(0).to_set()));
        }
        while i < pointers.len()
            invariant
                i <= pointers@.len(),
                all == views(pointers@),
                self.wf(),
                self@ == old(self)@.union(all.take(i as int).to_set()),
            decreases pointers@.len() - i,
        {
            let ghost before = self@;
            self.insert(pointers[i].clone());
            proof {
                let head = all.take(i as int);
                let more = all.take(i + 1);
                assert(more =~= head.push(all[i as int]));
                assert(self@ =~= old(self)@.union(more.to_set())) by {
                    assert forall|x: PointerView| more.to_set().contains(x) <==> head.to_set().contains(
                        x,
                    ) || x == all[i as int] by {
                        if more.to_set().contains(x) {
                            let j = choose|j: int| 0 <= j < more.len() && more[j] == x;
                            if j < head.len() {
                                assert(head[j] == x);
                            }
                        }
                        if head.to_set().contains(x) {
                            let j = choose|j: int| 0 <= j < head.len() && head[j] == x;
                            assert(more[j] == x);
                        }
                        if x == all[i as int] {
                            assert(more[i as int] == x);
                        }
                    }
                }
            }
            i += 1;
        }
        proof {
            assert(all.take(i as int) =~= all);
        }
    }

    /// The pointers that are in `self` or in `other`.
    pub fn union(self, other: &PakPointerSet) -> (r: Self)
        requires
            self.wf(),
        ensures
            r.wf(),
            r@ == self@.union(other@),
    {
        let mut r = self;
        r.insert_all(&other.items);
        r
    }

    /// The pointers that are in `self` and in `other`.
    pub fn intersection(self, other: &PakPointerSet) -> (r: Self)
        requires
            self.wf(),
        ensures
            r.wf(),
            r@ == self@.intersect(other@),
    {
        let mut r = PakPointerSet::new();
        let mut i: usize = 0;
        let ghost all = views(self.items@);
        proof {
            assert(r@ =~= all.take(0).to_set().intersect(other@));
        }
        while i < self.items.len()
            invariant
                i <= self.items@.len(),
                all == views(self.items@),
                r.wf(),
                r@ == all.take(i as int).to_set().intersect(other@),
            decreases self.items@.len() - i,
        {
            let found = other.contains(&self.items[i]);
            if found {
                r.insert(self.items[i].clone());
            }
            proof {
                let head = all.take(i as int);
                let more = all.take(i + 1);
                assert(more =~= head.push(all[i as int]));
                assert(r@ =~= more.to_set().intersect(other@)) by {
                    assert forall|x: PointerView| more.to_set().contains(x) <==> head.to_set().contains(
                        x,
                    ) || x == all[i as int] by {
                        if more.to_set().contains(x) {
                            let j = choose|j: int| 0 <= j < more.len() && more[j] == x;
                            if j < head.len() {
                                assert(head[j] == x);
                            }
                        }
                        if head.to_set().contains(x) {
                            let j = choose|j: int| 0 <= j < head.len() && head[j] == x;
                            assert(more[j] == x);
                        }
                        if x == all[i as int] {
                            assert(more[i as int] == x);
                        }
                    }
                }
            }
            i += 1;
        }
        proof {
            assert(all.take(i as int) =~= all);
        }
        r
    }
}

} // verus!
