//! Pages of a B-tree index and the entries they hold.
use vstd::prelude::*;
use std::collections::VecDeque;
use crate::pointer::{PakTypedPointer, PointerView};
use crate::value::{total_order, PakOrder, PakValue, ValueView};
use crate::wire::views;

verus! {

/// One key of an index with the pointers filed under it. `previous` names the
/// page that holds the keys just below this one.
#[derive(Debug)]
pub struct PakTreePageEntry {
    pub key: PakValue,
    pub values: Vec<PakTypedPointer>,
    pub previous: Option<usize>,
}

/// Mathematical model of a [`PakTreePageEntry`].
pub struct EntryView {
    pub key: ValueView,
    pub values: Seq<PointerView>,
    pub previous: Option<usize>,
}

/// The models of a sequence of typed pointers.
pub open spec fn pointer_views(s: Seq<PakTypedPointer>) -> Seq<PointerView> {
    views(s)
}

impl View for PakTreePageEntry {
    type V = EntryView;

    open spec fn view(&self) -> EntryView {
        EntryView {
            key: self.key@,
            values: pointer_views(self.values@),
            previous: self.previous,
        }
    }
}

/// The models of a sequence of entries.
pub open spec fn entry_views(s: Seq<PakTreePageEntry>) -> Seq<EntryView> {
    views(s)
}

/// A page: its entries in key order, and the page to visit after the last entry.
#[derive(Debug)]
pub struct PakTreePage {
    pub values: VecDeque<PakTreePageEntry>,
    pub next: Option<usize>,
}

/// Mathematical model of a [`PakTreePage`].
pub struct PageView {
    pub entries: Seq<EntryView>,
    pub next: Option<usize>,
}

impl View for PakTreePage {
    type V = PageView;

    open spec fn view(&self) -> PageView {
        PageView { entries: entry_views(self.values@), next: self.next }
    }
}

/// What [`PakTreePage::push`] reports: the entry was taken at an index of this
/// page, or it belongs into another page and is handed back with that page's index.
pub enum PakTreeStatus {
    Done(usize),
    Next(usize, PakTreePageEntry),
}

/// Index of the first entry whose key is not below `key`; the number of
/// entries where all keys are below it.
pub open spec fn slot(entries: Seq<EntryView>, key: ValueView) -> int
    decreases entries.len(),
{
    if entries.len() == 0 {
        0
    } else if total_order(entries[0].key, key) != PakOrder::Less {
        0
    } else {
        1 + slot(entries.drop_first(), key)
    }
}

/// What a page does with an entry that is pushed to it.
pub enum PushOutcome {
    /// The entry belongs into the page with this index.
    Descend(usize),
    /// The entry becomes a new entry at this index.
    Inserted(int),
    /// The entry's pointers are added to the entry at this index.
    Merged(int),
}

/// The entry at `slot` decides: a greater key sends the new entry to its
/// `previous` page, or lets it in before itself where it has none; an equal key
/// takes up the pointers. Past the last entry, `next` decides in the same way.
pub open spec fn push_outcome(page: PageView, key: ValueView) -> PushOutcome {
    let i = slot(page.entries, key);
    if i < page.entries.len() {
        if total_order(page.entries[i].key, key) == PakOrder::Greater {
            match page.entries[i].previous {
                Some(child) => PushOutcome::Descend(child),
                None => PushOutcome::Inserted(i),
            }
        } else {
            PushOutcome::Merged(i)
        }
    } else {
        match page.next {
            Some(child) => PushOutcome::Descend(child),
            None => PushOutcome::Inserted(i),
        }
    }
}

/// The entry `into` after it took up the pointers of `from`.
pub open spec fn merged_entry(into: EntryView, from: EntryView) -> EntryView {
    EntryView { key: into.key, values: into.values + from.values, previous: into.previous }
}

/// The page after `e` was pushed to it.
pub open spec fn pushed_page(page: PageView, e: EntryView) -> PageView {
    match push_outcome(page, e.key) {
        PushOutcome::Descend(_) => page,
        PushOutcome::Inserted(i) => PageView {
            entries: page.entries.insert(i, e),
            next: page.next,
        },
        PushOutcome::Merged(i) => PageView {
            entries: page.entries.update(i, merged_entry(page.entries[i], e)),
            next: page.next,
        },
    }
}

/// `slot` is the least index whose key is not below `key`.
pub proof fn lemma_slot(entries: Seq<EntryView>, key: ValueView)
    ensures
        0 <= slot(entries, key) <= entries.len(),
        forall|j: int|
            0 <= j < slot(entries, key) ==> total_order(#[trigger] entries[j].key, key)
                == PakOrder::Less,
        slot(entries, key) < entries.len() ==> total_order(
            entries[slot(entries, key)].key,
            key,
        ) != PakOrder::Less,
    decreases entries.len(),
{
    if entries.len() == 0 {
    } else if total_order(entries[0].key, key) != PakOrder::Less {
    } else {
        let rest = entries.drop_first();
        lemma_slot(rest, key);
        assert forall|j: int| 0 <= j < slot(entries, key) implies total_order(
            #[trigger] entries[j].key,
            key,
        ) == PakOrder::Less by {
            if j > 0 {
                assert(entries[j] == rest[j - 1]);
            }
        }
        if slot(entries, key) < entries.len() {
            assert(entries[slot(entries, key)] == rest[slot(rest, key)]);
        }
    }
}

/// An index with only lesser keys before it and a key that is not less at it
/// (or the end of the page) is the slot.
pub proof fn lemma_slot_is(entries: Seq<EntryView>, key: ValueView, i: int)
    requires
        0 <= i <= entries.len(),
        forall|j: int| 0 <= j < i ==> total_order(#[trigger] entries[j].key, key) == PakOrder::Less,
        i < entries.len() ==> total_order(entries[i].key, key) != PakOrder::Less,
    ensures
        slot(entries, key) == i,
{
    lemma_slot(entries, key);
    let s = slot(entries, key);
    if s < i {
        assert(total_order(entries[s].key, key) == PakOrder::Less);
    } else if s > i {
        assert(total_order(entries[i].key, key) == PakOrder::Less);
    }
}

impl PakTreePageEntry {
    /// An entry for `key` that holds one pointer and has no page below it.
    pub fn new(key: PakValue, value: PakTypedPointer) -> (r: Self)
        ensures
            r@ == (EntryView { key: key@, values: seq![value@], previous: None }),
    {
        let mut values = Vec::new();
        values.push(value);
        proof {
            assert(pointer_views(values@) =~= seq![value@]);
        }
        PakTreePageEntry { key, values, previous: None }
    }
}

impl PakTreePage {
    /// An empty page.
    pub fn new() -> (r: Self)
        ensures
            r@ == (PageView { entries: Seq::empty(), next: None }),
    {
        let r = PakTreePage { values: VecDeque::new(), next: None };
        proof {
            assert(entry_views(r.values@) =~= Seq::<EntryView>::empty());
        }
        r
    }

    /// A page that holds the given entries.
    pub fn new_with_entries(entries: VecDeque<PakTreePageEntry>) -> (r: Self)
        ensures
            r@ == (PageView { entries: entry_views(entries@), next: None }),
            r.values == entries,
    {
        PakTreePage { values: entries, next: None }
    }

    /// Takes the page apart around its median, the entry at index `half`:
    /// the entries before it and the median are handed out, those behind it stay.
    pub fn split_off(&mut self, half: usize) -> (r: (VecDeque<PakTreePageEntry>, PakTreePageEntry))
        requires
            old(self).values@.len() == 2 * half + 1,
        ensures
            r.0@ == old(self).values@.subrange(0, half as int),
            r.1 == old(self).values@[half as int],
            final(self).values@ == old(self).values@.subrange(half + 1, 2 * half + 1),
            final(self).next == old(self).next,
    {
        let mut leading: VecDeque<PakTreePageEntry> = VecDeque::new();
        let mut trailing: VecDeque<PakTreePageEntry> = VecDeque::new();
        let ghost all = self.values@;
        let mut i: usize = 0;
        while i < half
            invariant
                i <= half,
                all.len() == 2 * half + 1,
                self.next == old(self).next,
                self.values@ == all.subrange(i as int, 2 * half + 1 - i),
                leading@ == all.subrange(0, i as int),
                trailing@ == all.subrange(2 * half + 1 - i, 2 * half + 1),
            decreases half - i,
        {
            let front = self.values.pop_front().unwrap();
            let back = self.values.pop_back().unwrap();
            leading.push_back(front);
            trailing.push_front(back);
            i += 1;
            proof {
                assert(self.values@ =~= all.subrange(i as int, 2 * half + 1 - i));
                assert(leading@ =~= all.subrange(0, i as int));
                assert(trailing@ =~= all.subrange(2 * half + 1 - i, 2 * half + 1));
            }
        }
        let middle = self.values.pop_front().unwrap();
        self.values = trailing;
        (leading, middle)
    }

    /// Offers an entry to this page. The page takes it as a new entry or as
    /// more pointers for a key it already holds, or names the page it belongs into.
    pub fn push(&mut self, new: PakTreePageEntry) -> (status: PakTreeStatus)
        ensures
            final(self)@ == pushed_page(old(self)@, new@),
            match push_outcome(old(self)@, new@.key) {
                PushOutcome::Descend(child) => status matches PakTreeStatus::Next(c, back)
                    && c == child && back == new,
                PushOutcome::Inserted(i) => status matches PakTreeStatus::Done(at) && at == i,
                PushOutcome::Merged(i) => status matches PakTreeStatus::Done(at) && at == i,
            },
    {
        let mut e = new;
        let ghost before = self@;
        let ghost entry = e@;
        let mut index: usize = 0;
        while index < self.values.len()
            invariant
                *self == *old(self),
                e == new,
                e@ == entry,
                before == self@,
                0 <= index <= self.values@.len(),
                forall|j: int|
                    0 <= j < index ==> total_order(#[trigger] before.entries[j].key, entry.key)
                        == PakOrder::Less,
            decreases self.values@.len() - index,
        {
            let order = self.values[index].key.compare(&e.key);
            proof {
                assert(before.entries[index as int] == self.values@[index as int]@);
            }
            match order {
                PakOrder::Less => {},
                PakOrder::Greater => {
                    proof {
                        lemma_slot_is(before.entries, entry.key, index as int);
                    }
                    match self.values[index].previous {
                        Some(child) => {
                            return PakTreeStatus::Next(child, e);
                        },
                        None => {
                            self.values.insert(index, e);
                            proof {
                                assert(self@.entries =~= before.entries.insert(
                                    index as int,
                                    entry,
                                ));
                            }
                            return PakTreeStatus::Done(index);
                        },
                    }
                },
                PakOrder::Equal => {
                    proof {
                        lemma_slot_is(before.entries, entry.key, index as int);
                    }
                    let taken = self.values.remove(index);
                    match taken {
                        Some(found) => {
                            let mut found = found;
                            let ghost was = found@;
                            found.values.append(&mut e.values);
                            proof {
                                assert(found@.values =~= was.values + entry.values);
                                assert(found@ == merged_entry(was, entry));
                            }
                            self.values.insert(index, found);
                            proof {
                                assert(self@.entries =~= before.entries.update(
                                    index as int,
                                    merged_entry(before.entries[index as int], entry),
                                ));
                            }
                        },
                        None => {},
                    }
                    return PakTreeStatus::Done(index);
                },
            }
            index += 1;
        }
        proof {
            lemma_slot_is(before.entries, entry.key, index as int);
        }
        match self.next {
            Some(child) => PakTreeStatus::Next(child, e),
            None => {
                self.values.push_back(e);
                proof {
                    assert(self@.entries =~= before.entries.insert(index as int, entry));
                }
                PakTreeStatus::Done(index)
            },
        }
    }
}

} // verus!
