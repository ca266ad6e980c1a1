//! Searching a persisted index: loading its page table and descending through its pages.
use vstd::prelude::*;
use std::collections::HashMap;
use crate::artifact::{page_table, PakPageSlot, PakView};
use crate::error::{PakError, PakFault, PakResult};
use crate::page::{PageView, PakTreePage};
use crate::pak::{find_index, Pak};
use crate::pointer::{PakUntypedPointer, PointerView};
use crate::set::PakPointerSet;
use crate::value::{total_order, PakOrder, PakValue, ValueView};
use crate::wire::{take_counted, views, Codec};

verus! {

broadcast use vstd::std_specs::hash::group_hash_axioms;

/// What a search looks for, relative to the value it is given.
#[derive(Clone, Copy, Debug, PartialEq, Eq, Structural)]
pub enum PakSearch {
    Equal,
    Less,
    LessOrEqual,
    Greater,
    GreaterOrEqual,
}

/// Whether a key that compares to the searched value as `order` is looked for.
pub open spec fn hit(kind: PakSearch, order: PakOrder) -> bool {
    match kind {
        PakSearch::Equal => order == PakOrder::Equal,
        PakSearch::Less => order == PakOrder::Less,
        PakSearch::LessOrEqual => order != PakOrder::Greater,
        PakSearch::Greater => order == PakOrder::Greater,
        PakSearch::GreaterOrEqual => order != PakOrder::Less,
    }
}

/// Whether the page below an entry can hold keys that are looked for. The
/// keys there are below the entry's key: a search for lesser keys always
/// looks there, the other searches only below a key that is greater than
/// the searched value.
pub open spec fn goes_below(kind: PakSearch, order: PakOrder) -> bool {
    match kind {
        PakSearch::Less | PakSearch::LessOrEqual => true,
        _ => order == PakOrder::Greater,
    }
}

/// Whether the entries behind an entry can hold keys that are looked for.
/// Their keys are greater than the entry's key: a search for greater keys
/// always goes on, the other searches only behind a key that is less than
/// the searched value.
pub open spec fn goes_on(kind: PakSearch, order: PakOrder) -> bool {
    match kind {
        PakSearch::Greater | PakSearch::GreaterOrEqual => true,
        _ => order == PakOrder::Less,
    }
}

/// The pointers that a search finds in the page `index` and the pages it
/// visits from there. `fuel` bounds how many pages deep the search may go:
/// a search that runs out of it reports corruption.
pub open spec fn search(
    pak: PakView,
    table: Map<usize, PakUntypedPointer>,
    index: usize,
    probe: ValueView,
    kind: PakSearch,
    fuel: nat,
) -> Result<Set<PointerView>, PakFault>
    decreases fuel, 0nat,
{
    if fuel == 0 {
        Err(PakFault::Corruption)
    } else {
        match pak.page(table, index) {
            Ok(page) => scan(pak, table, page, 0, probe, kind, (fuel - 1) as nat),
            Err(f) => Err(f),
        }
    }
}

/// The pointers that a search finds from entry `from` of `page` on.
pub open spec fn scan(
    pak: PakView,
    table: Map<usize, PakUntypedPointer>,
    page: PageView,
    from: nat,
    probe: ValueView,
    kind: PakSearch,
    fuel: nat,
) -> Result<Set<PointerView>, PakFault>
    decreases fuel,
        (if from < page.entries.len() {
            page.entries.len() - from + 1
        } else {
            1
        }),
{
    if from >= page.entries.len() {
        match page.next {
            Some(next) => search(pak, table, next, probe, kind, fuel),
            None => Ok(Set::empty()),
        }
    } else {
        let entry = page.entries[from as int];
        let order = total_order(entry.key, probe);
        let below = if goes_below(kind, order) && entry.previous is Some {
            search(pak, table, entry.previous.unwrap(), probe, kind, fuel)
        } else {
            Ok(Set::empty())
        };
        let own = if hit(kind, order) {
            entry.values.to_set()
        } else {
            Set::empty()
        };
        match below {
            Ok(found) => if goes_on(kind, order) {
                match scan(pak, table, page, from + 1, probe, kind, fuel) {
                    Ok(rest) => Ok(found.union(own).union(rest)),
                    Err(f) => Err(f),
                }
            } else {
                Ok(found.union(own))
            },
            Err(f) => Err(f),
        }
    }
}

/// What a search finds in all: what it found so far, then what is still to come.
pub open spec fn after(
    so_far: Set<PointerView>,
    to_come: Result<Set<PointerView>, PakFault>,
) -> Result<Set<PointerView>, PakFault> {
    match to_come {
        Ok(rest) => Ok(so_far.union(rest)),
        Err(f) => Err(f),
    }
}

/// Whether a key that compares to the searched value as `order` is looked for.
fn is_hit(kind: PakSearch, order: PakOrder) -> (r: bool)
    ensures
        r == hit(kind, order),
{
    match kind {
        PakSearch::Equal => matches!(order, PakOrder::Equal),
        PakSearch::Less => matches!(order, PakOrder::Less),
        PakSearch::LessOrEqual => !matches!(order, PakOrder::Greater),
        PakSearch::Greater => matches!(order, PakOrder::Greater),
        PakSearch::GreaterOrEqual => !matches!(order, PakOrder::Less),
    }
}

/// Whether the search looks into the page below an entry.
fn looks_below(kind: PakSearch, order: PakOrder) -> (r: bool)
    ensures
        r == goes_below(kind, order),
{
    match kind {
        PakSearch::Less | PakSearch::LessOrEqual => true,
        _ => matches!(order, PakOrder::Greater),
    }
}

/// Whether the search goes on behind an entry.
fn looks_on(kind: PakSearch, order: PakOrder) -> (r: bool)
    ensures
        r == goes_on(kind, order),
{
    match kind {
        PakSearch::Greater | PakSearch::GreaterOrEqual => true,
        _ => matches!(order, PakOrder::Less),
    }
}

/// The page table of an index: for each page index the place of the page in the vault.
#[derive(Debug)]
pub struct PakTreeMeta {
    pub pages: HashMap<usize, PakUntypedPointer>,
}

impl View for PakTreeMeta {
    type V = Map<usize, PakUntypedPointer>;

    open spec fn view(&self) -> Map<usize, PakUntypedPointer> {
        self.pages@
    }
}

impl PakTreeMeta {
    /// The page table that the lines make up.
    pub fn from_slots(slots: &Vec<PakPageSlot>) -> (r: Self)
        ensures
            r@ == page_table(views(slots@)),
    {
        let mut pages: HashMap<usize, PakUntypedPointer> = HashMap::new();
        let ghost all = views(slots@);
        let mut i: usize = 0;
        while i < slots.len()
            invariant
                i <= slots@.len(),
                all == views(slots@),
                pages@ == page_table(all.take(i as int)),
            decreases slots@.len() - i,
        {
            pages.insert(slots[i].index, slots[i].pointer);
            proof {
                assert(all.take(i + 1).drop_last() =~= all.take(i as int));
                assert(all.take(i + 1).last() == slots@[i as int]);
            }
            i += 1;
        }
        proof {
            assert(all.take(i as int) =~= all);
        }
        PakTreeMeta { pages }
    }
}

/// A persisted index of a pak, ready to be searched.
pub struct PakTree<'p> {
    pub pak: &'p Pak,
    pub meta: PakTreeMeta,
}

impl<'p> PakTree<'p> {
    /// Loads the page table of the index for `key`. Fails with `IndexMissing`
    /// where the pak has no index for that key.
    pub fn new(pak: &'p Pak, key: &str) -> (r: PakResult<PakTree<'p>>)
        requires
            pak.wf(),
        ensures
            match pak@.tree(key@) {
                Ok(table) => r matches Ok(tree) && tree.meta@ == table && tree.pak == pak,
                Err(PakFault::IndexMissing) => r matches Err(PakError::IndexMissing(k)) && k@
                    == key@,
                Err(f) => r matches Err(e) && e.fault() == f,
            },
    {
        let indices = match pak.fetch_indices() {
            Ok(indices) => indices,
            Err(e) => {
                return Err(e);
            },
        };
        let pointer = match find_index(&indices, key) {
            Some(pointer) => pointer,
            None => {
                return Err(PakError::IndexMissing(key.to_owned()));
            },
        };
        let raw = match pak.read_bytes(&pointer.as_pointer()) {
            Ok(raw) => raw,
            Err(e) => {
                return Err(e);
            },
        };
        proof {
            assert(raw@.skip(0) =~= raw@);
        }
        match take_counted::<PakPageSlot>(raw.as_slice(), 0) {
            Some((slots, _)) => Ok(PakTree { pak, meta: PakTreeMeta::from_slots(&slots) }),
            None => Err(PakError::Decode),
        }
    }

    /// The pak that the tree reads from is well formed.
    pub open spec fn wf(&self) -> bool {
        self.pak.wf()
    }

    /// Adds to `set` the pointers that a search finds in the page `index`
    /// and the pages it visits from there.
    pub fn gather(
        &self,
        probe: &PakValue,
        kind: PakSearch,
        index: usize,
        set: &mut PakPointerSet,
        fuel: usize,
    ) -> (r: PakResult<()>)
        requires
            self.wf(),
            old(set).wf(),
        ensures
            final(set).wf(),
            match search(self.pak@, self.meta@, index, probe@, kind, fuel as nat) {
                Ok(found) => r is Ok && final(set)@ == old(set)@.union(found),
                Err(f) => r matches Err(e) && e.fault() == f,
            },
        decreases fuel,
    {
        if fuel == 0 {
            return Err(PakError::Corruption);
        }
        let page = match self.load(index) {
            Ok(page) => page,
            Err(e) => {
                return Err(e);
            },
        };
        let ghost pak = self.pak@;
        let ghost table = self.meta@;
        let ghost left = (fuel - 1) as nat;
        let ghost total = scan(pak, table, page@, 0, probe@, kind, left);
        let ghost so_far = Set::<PointerView>::empty();
        let mut i: usize = 0;
        proof {
            match total {
                Ok(rest) => {
                    assert(so_far.union(rest) =~= rest);
                },
                Err(_) => {},
            }
            assert(set@ =~= old(set)@.union(so_far));
        }
        while i < page.values.len()
            invariant
                self.wf(),
                pak == self.pak@,
                table == self.meta@,
                left == fuel - 1,
                search(pak, table, index, probe@, kind, fuel as nat) == total,
                i <= page.values@.len(),
                set.wf(),
                set@ == old(set)@.union(so_far),
                total == after(so_far, scan(pak, table, page@, i as nat, probe@, kind, left)),
            decreases page.values@.len() - i,
        {
            let entry = &page.values[i];
            let order = entry.key.compare(probe);
            let ghost e = page@.entries[i as int];
            let ghost below = if goes_below(kind, order) && e.previous is Some {
                search(pak, table, e.previous.unwrap(), probe@, kind, left)
            } else {
                Ok(Set::empty())
            };
            let ghost own = if hit(kind, order) {
                e.values.to_set()
            } else {
                Set::empty()
            };
            let ghost here = scan(pak, table, page@, i as nat, probe@, kind, left);
            let ghost onward = scan(pak, table, page@, (i + 1) as nat, probe@, kind, left);
            proof {
                assert(e == entry@);
                assert(here == match below {
                    Ok(found) => if goes_on(kind, order) {
                        match onward {
                            Ok(rest) => Ok(found.union(own).union(rest)),
                            Err(f) => Err(f),
                        }
                    } else {
                        Ok(found.union(own))
                    },
                    Err(f) => Err(f),
                });
            }
            if looks_below(kind, order) {
                match entry.previous {
                    Some(child) => {
                        match self.gather(probe, kind, child, set, fuel - 1) {
                            Ok(_) => {},
                            Err(e) => {
                                return Err(e);
                            },
                        }
                    },
                    None => {},
                }
            }
            if is_hit(kind, order) {
                set.insert_all(&entry.values);
            }
            proof {
                let found = below->Ok_0;
                let next = so_far.union(found).union(own);
                assert(set@ =~= old(set)@.union(next));
                if goes_on(kind, order) {
                    match scan(pak, table, page@, (i + 1) as nat, probe@, kind, left) {
                        Ok(rest) => {
                            assert(so_far.union(found.union(own).union(rest)) =~= next.union(
                                rest,
                            ));
                        },
                        Err(_) => {},
                    }
                } else {
                    assert(so_far.union(found.union(own)) =~= next);
                }
                so_far = next;
            }
            if !looks_on(kind, order) {
                return Ok(());
            }
            i += 1;
        }
        match page.next {
            Some(next) => {
                let ghost before = set@;
                match self.gather(probe, kind, next, set, fuel - 1) {
                    Ok(_) => {
                        proof {
                            let found = search(pak, table, next, probe@, kind, left)->Ok_0;
                            assert(set@ =~= old(set)@.union(so_far.union(found)));
                        }
                        Ok(())
                    },
                    Err(e) => Err(e),
                }
            },
            None => {
                proof {
                    assert(so_far.union(Set::empty()) =~= so_far);
                }
                Ok(())
            },
        }
    }

    /// The pointers that a search of the given kind finds for `value`. The
    /// search starts at page 0 and may go as many pages deep as the index has pages.
    pub fn find(&self, value: &PakValue, kind: PakSearch) -> (r: PakResult<PakPointerSet>)
        requires
            self.wf(),
        ensures
            match search(self.pak@, self.meta@, 0, value@, kind, self.meta@.dom().len()) {
                Ok(found) => r matches Ok(set) && set.wf() && set@ == found,
                Err(f) => r matches Err(e) && e.fault() == f,
            },
    {
        let mut set = PakPointerSet::new();
        match self.gather(value, kind, 0, &mut set, self.meta.pages.len()) {
            Ok(_) => {
                proof {
                    let found = search(
                        self.pak@,
                        self.meta@,
                        0,
                        value@,
                        kind,
                        self.meta@.dom().len(),
                    )->Ok_0;
                    assert(Set::<PointerView>::empty().union(found) =~= found);
                }
                Ok(set)
            },
            Err(e) => Err(e),
        }
    }

    /// The pointers filed under a key equal to `value`.
    pub fn get(&self, value: &PakValue) -> (r: PakResult<PakPointerSet>)
        requires
            self.wf(),
        ensures
            match search(
                self.pak@,
                self.meta@,
                0,
                value@,
                PakSearch::Equal,
                self.meta@.dom().len(),
            ) {
                Ok(found) => r matches Ok(set) && set.wf() && set@ == found,
                Err(f) => r matches Err(e) && e.fault() == f,
            },
    {
        self.find(value, PakSearch::Equal)
    }

    /// The pointers filed under keys less than `value`.
    pub fn get_less(&self, value: &PakValue) -> (r: PakResult<PakPointerSet>)
        requires
            self.wf(),
        ensures
            match search(
                self.pak@,
                self.meta@,
                0,
                value@,
                PakSearch::Less,
                self.meta@.dom().len(),
            ) {
                Ok(found) => r matches Ok(set) && set.wf() && set@ == found,
                Err(f) => r matches Err(e) && e.fault() == f,
            },
    {
        self.find(value, PakSearch::Less)
    }

    /// The pointers filed under keys less than or equal to `value`.
    pub fn get_less_eq(&self, value: &PakValue) -> (r: PakResult<PakPointerSet>)
        requires
            self.wf(),
        ensures
            match search(
                self.pak@,
                self.meta@,
                0,
                value@,
                PakSearch::LessOrEqual,
                self.meta@.dom().len(),
            ) {
                Ok(found) => r matches Ok(set) && set.wf() && set@ == found,
                Err(f) => r matches Err(e) && e.fault() == f,
            },
    {
        self.find(value, PakSearch::LessOrEqual)
    }

    /// The pointers filed under keys greater than `value`.
    pub fn get_greater(&self, value: &PakValue) -> (r: PakResult<PakPointerSet>)
        requires
            self.wf(),
        ensures
            match search(
                self.pak@,
                self.meta@,
                0,
                value@,
                PakSearch::Greater,
                self.meta@.dom().len(),
            ) {
                Ok(found) => r matches Ok(set) && set.wf() && set@ == found,
                Err(f) => r matches Err(e) && e.fault() == f,
            },
    {
        self.find(value, PakSearch::Greater)
    }

    /// The pointers filed under keys greater than or equal to `value`.
    pub fn get_greater_eq(&self, value: &PakValue) -> (r: PakResult<PakPointerSet>)
        requires
            self.wf(),
        ensures
            match search(
                self.pak@,
                self.meta@,
                0,
                value@,
                PakSearch::GreaterOrEqual,
                self.meta@.dom().len(),
            ) {
                Ok(found) => r matches Ok(set) && set.wf() && set@ == found,
                Err(f) => r matches Err(e) && e.fault() == f,
            },
    {
        self.find(value, PakSearch::GreaterOrEqual)
    }

    /// Loads the page with the given index.
    pub fn load(&self, index: usize) -> (r: PakResult<PakTreePage>)
        requires
            self.wf(),
        ensures
            match self.pak@.page(self.meta@, index) {
                Ok(page) => r matches Ok(found) && found@ == page,
                Err(f) => r matches Err(e) && e.fault() == f,
            },
    {
        let pointer = match self.meta.pages.get(&index) {
            Some(pointer) => *pointer,
            None => {
                return Err(PakError::Corruption);
            },
        };
        let raw = match self.pak.read_bytes(&pointer.as_pointer()) {
            Ok(raw) => raw,
            Err(e) => {
                return Err(e);
            },
        };
        proof {
            assert(raw@.skip(0) =~= raw@);
        }
        match PakTreePage::take(raw.as_slice(), 0) {
            Some((page, _)) => Ok(page),
            None => Err(PakError::Decode),
        }
    }
}

} // verus!
