//! Building a B-tree index: a table of pages and a cursor that inserts into it.
use vstd::prelude::*;
use vstd::arithmetic::power2::{lemma_pow2_strictly_increases, lemma_pow2_unfold, pow2};
use std::collections::VecDeque;
use crate::artifact::PakPageSlot;
use crate::builder::{BuilderView, PakBuilder};
use crate::error::PakResult;
use crate::filing::{faithful, lemma_faithful_more};
use crate::index::{IndexView, PakIndex};
use crate::page::{
    push_outcome, EntryView, PageView, PakTreePage, PakTreePageEntry, PakTreeStatus, PushOutcome,
};
use crate::pointer::{PakPointer, PakPointerView, PakTypedPointer, PakUntypedPointer, PointerView};
use crate::rising::{lemma_keeps_then_stays, lemma_pushed_keeps, lemma_resplit_stays};
use crate::sorted::Filed;
use crate::tree::{
    full_pages, lemma_full_pages_push, lemma_full_pages_update, lemma_inserted_step,
    lemma_landing_step, lemma_pushed_wf, lemma_resplit_step, lemma_split_wf, lemma_wf_edge,
    lemma_wf_len, lemma_wf_next, on_path, TreeView,
};
use crate::value::PakValue;
use crate::wire::{counted_bytes, list_fits, put_counted, views, Codec, Wire};

verus! {

/// The models of a sequence of pages.
pub open spec fn page_views(s: Seq<PakTreePage>) -> Seq<PageView> {
    crate::wire::views(s)
}

/// The type tag of a persisted page.
pub const PAGE_TAG: &'static str = "pak::btree::PakTreePage";

/// The type tag of a persisted page table.
pub const TABLE_TAG: &'static str = "pak::btree::PakTreeMeta";

/// The builder after the first `count` of `pages` were stored in it, one item each.
pub open spec fn with_pages(builder: BuilderView, pages: Seq<PageView>, count: nat) -> BuilderView
    decreases count,
{
    if count == 0 {
        builder
    } else {
        with_pages(builder, pages, (count - 1) as nat).stored(
            pages[count - 1].bytes(),
            PAGE_TAG@,
            Seq::empty(),
        )
    }
}

/// The lines of the page table for the first `count` of `pages`, stored as above.
pub open spec fn slots_of(builder: BuilderView, pages: Seq<PageView>, count: nat) -> Seq<
    PakPageSlot,
> {
    Seq::new(
        count,
        |i: int|
            PakPageSlot {
                index: i as usize,
                pointer: PakUntypedPointer {
                    offset: with_pages(builder, pages, i as nat).vault.len() as u64,
                    size: pages[i].bytes().len() as u64,
                },
            },
    )
}

/// The builder after a tree with these pages was persisted in it: first the
/// pages in order, then the page table.
pub open spec fn with_tree(builder: BuilderView, pages: Seq<PageView>) -> BuilderView {
    with_pages(builder, pages, pages.len()).stored(
        counted_bytes(slots_of(builder, pages, pages.len())),
        TABLE_TAG@,
        Seq::empty(),
    )
}

/// A B-tree under construction. Pages are addressed by their index in
/// `pages`; page 0 is the root. Entries are only ever added, so indices stay
/// valid through any number of splits.
pub struct PakTreeBuilder {
    pub pages: Vec<PakTreePage>,
    pub max_size: usize,
    pub rank: Ghost<Seq<nat>>,
    pub parent: Ghost<Seq<Option<usize>>>,
}

impl View for PakTreeBuilder {
    type V = TreeView;

    open spec fn view(&self) -> TreeView {
        TreeView { pages: page_views(self.pages@), rank: self.rank@, parent: self.parent@ }
    }
}

/// A cursor into a [`PakTreeBuilder`]: the page it stands on and the pages it
/// came through, nearest first.
pub struct PakTreeBuilderAccess<'t> {
    pub table: &'t mut PakTreeBuilder,
    pub current: usize,
    pub trail: VecDeque<usize>,
}

/// What a push leaves behind: the page grew by at most one entry, and where
/// the push was sent on, the page it was sent to is one that the page points to.
proof fn lemma_landed(after: PageView, before: PageView, e: crate::page::EntryView)
    requires
        after == crate::page::pushed_page(before, e),
        before.next is None,
    ensures
        after.entries.len() <= before.entries.len() + 1,
        push_outcome(before, e.key) matches PushOutcome::Descend(c) ==> exists|i: int|
            0 <= i < before.entries.len() && #[trigger] before.entries[i].previous == Some(c),
{
    crate::page::lemma_slot(before.entries, e.key);
    if push_outcome(before, e.key) is Descend {
        let i = crate::page::slot(before.entries, e.key);
        assert(before.entries[i].previous is Some);
    }
}

impl PakTreeBuilder {
    /// The pages form a forest and none holds more than `max_size` entries,
    /// an even number.
    pub open spec fn wf(&self) -> bool {
        &&& self@.wf()
        &&& self@.sized(self.max_size as nat, -1)
        &&& self.max_size >= 2
        &&& self.max_size % 2 == 0
    }

    /// A tree of one empty page whose pages hold up to `2^power_of_two` entries.
    pub fn new(power_of_two: u32) -> (r: Self)
        requires
            power_of_two >= 1,
            pow2(power_of_two as nat) <= usize::MAX,
        ensures
            r.wf(),
            r.max_size == pow2(power_of_two as nat),
            r@.pages == seq![PageView { entries: Seq::empty(), next: None }],
            r@.rank == seq![0nat],
            r@.parent == seq![None::<usize>],
    {
        let mut max_size: usize = 1;
        let mut i: u32 = 0;
        proof {
            lemma_pow2_unfold(1);
            assert(pow2(0) == 1) by {
                vstd::arithmetic::power2::lemma2_to64();
            }
        }
        while i < power_of_two
            invariant
                i <= power_of_two,
                max_size == pow2(i as nat),
                pow2(power_of_two as nat) <= usize::MAX,
            decreases power_of_two - i,
        {
            proof {
                lemma_pow2_unfold((i + 1) as nat);
                if i + 1 < power_of_two {
                    lemma_pow2_strictly_increases((i + 1) as nat, power_of_two as nat);
                }
            }
            max_size = max_size * 2;
            i += 1;
        }
        proof {
            lemma_pow2_unfold(power_of_two as nat);
            vstd::arithmetic::power2::lemma_pow2_pos((power_of_two - 1) as nat);
        }
        let mut pages = Vec::new();
        pages.push(PakTreePage::new());
        let rank: Ghost<Seq<nat>> = Ghost(Seq::<nat>::empty().push(0));
        let parent: Ghost<Seq<Option<usize>>> = Ghost(Seq::<Option<usize>>::empty().push(None));
        let r = PakTreeBuilder { pages, max_size, rank, parent };
        proof {
            reveal(TreeView::wf);
            assert(r@.pages =~= seq![PageView { entries: Seq::empty(), next: None }]);
            assert(r@.pages[0].entries.len() == 0);
            assert(r@.rank =~= seq![0nat]);
            assert(r@.parent =~= seq![None::<usize>]);
        }
        r
    }

    /// Persists the tree in `pak`: each page is stored as an item, in the
    /// order of the page indices, and then the page table that says where
    /// each page lies. Gives the pointer to the page table.
    pub fn into_pak(self, pak: &mut PakBuilder) -> (r: PakResult<PakPointer>)
        requires
            old(pak).wf(),
        ensures
            final(pak).wf(),
            final(pak)@ == with_tree(old(pak)@, self@.pages),
            r matches Ok(pointer) && pointer@ == PakPointerView::Typed(
                PointerView {
                    offset: with_pages(old(pak)@, self@.pages, self@.pages.len()).vault.len() as u64,
                    size: counted_bytes(
                        slots_of(old(pak)@, self@.pages, self@.pages.len()),
                    ).len() as u64,
                    type_tag: TABLE_TAG@,
                },
            ),
            list_fits(self@.pages),
            with_tree(old(pak)@, self@.pages).vault.len() <= usize::MAX,
    {
        let ghost start = pak@;
        let ghost pages = self@.pages;
        let mut slots: Vec<PakPageSlot> = Vec::new();
        let mut index: usize = 0;
        proof {
            assert(views(slots@) =~= slots_of(start, pages, 0));
            assert(pak.vault.len() <= usize::MAX);
        }
        while index < self.pages.len()
            invariant
                index <= self.pages@.len(),
                pages == self@.pages,
                pak.wf(),
                pak@ == with_pages(start, pages, index as nat),
                views(slots@) == slots_of(start, pages, index as nat),
                forall|j: int| 0 <= j < index ==> (#[trigger] pages[j]).fits(),
                pak@.vault.len() <= usize::MAX,
            decreases self.pages@.len() - index,
        {
            let mut bytes: Vec<u8> = Vec::new();
            self.pages[index].put(&mut bytes);
            proof {
                assert(bytes@ =~= pages[index as int].bytes());
            }
            let indices: Vec<PakIndex> = Vec::new();
            proof {
                assert(views(indices@) =~= Seq::<IndexView>::empty());
            }
            let pointer = pak.store(bytes, PAGE_TAG, indices);
            let ghost before = views(slots@);
            slots.push(PakPageSlot { index, pointer: pointer.as_untyped() });
            proof {
                assert(views(slots@) =~= slots_of(start, pages, (index + 1) as nat)) by {
                    assert(views(slots@) =~= before.push(slots@.last()));
                }
            }
            index += 1;
        }
        let mut bytes: Vec<u8> = Vec::new();
        put_counted(&mut bytes, &slots);
        proof {
            assert(bytes@ =~= counted_bytes(slots_of(start, pages, pages.len())));
        }
        let indices: Vec<PakIndex> = Vec::new();
        proof {
            assert(views(indices@) =~= Seq::<IndexView>::empty());
        }
        Ok(pak.store(bytes, TABLE_TAG, indices))
    }

    /// Files `value` under `key`, starting at the root.
    pub fn add(&mut self, key: PakValue, value: PakTypedPointer)
        requires
            old(self).wf(),
        ensures
            final(self).wf(),
            final(self).max_size == old(self).max_size,
            final(self)@ == old(self)@.inserted(
                Seq::empty(),
                0,
                EntryView { key: key@, values: seq![value@], previous: None },
                old(self).max_size as nat,
            ).0,
            forall|log: Seq<Filed>| #[trigger]
                faithful(old(self)@, log) ==> faithful(final(self)@, log.push((key@, value@))),
            old(self)@.keeps_rising(final(self)@, key@),
    {
        let mut access = self.access();
        proof {
            assert(access.trail@ =~= Seq::empty());
        }
        access.insert(key, value);
    }

    /// A cursor that stands on the root.
    pub fn access<'t>(&'t mut self) -> (r: PakTreeBuilderAccess<'t>)
        requires
            old(self).wf(),
        ensures
            r.current == 0,
            r.trail@.len() == 0,
            *r.table == *old(self),
            *final(r.table) == *final(self),
            r.inv(),
    {
        proof {
            lemma_wf_len(self@);
        }
        PakTreeBuilderAccess { table: self, current: 0, trail: VecDeque::new() }
    }
}

impl<'t> PakTreeBuilderAccess<'t> {
    /// The table is well formed but for the size of the cursor's page, and the
    /// trail leads from the cursor's page up to a page without a parent.
    pub open spec fn inv(&self) -> bool {
        &&& self.table@.wf()
        &&& self.table@.path_ok(self.trail@, self.current)
        &&& self.table@.sized(self.table.max_size as nat, self.current as int)
        &&& self.table.max_size >= 2
        &&& self.table.max_size % 2 == 0
    }

    /// Whether entry `i` of the cursor's page points to `page`.
    pub open spec fn child_at(&self, i: int, page: usize) -> bool {
        0 <= i < self.table@.pages[self.current as int].entries.len()
            && self.table@.pages[self.current as int].entries[i].previous == Some(page)
    }

    /// Moves the cursor down to `page`, a page that the cursor's page points to.
    fn goto(&mut self, page: usize)
        requires
            old(self).inv(),
            old(self).table@.sized(old(self).table.max_size as nat, -1),
            exists|i: int| old(self).child_at(i, page),
        ensures
            *final(final(self).table) == *final(old(self).table),
            final(self).current == page,
            final(self).trail@ == seq![old(self).current] + old(self).trail@,
            *final(self).table == *old(self).table,
            final(self).inv(),
            final(self).table@.rank[page as int] < old(self).table@.rank[old(self).current as int],
            forall|e: crate::page::EntryView|
                old(self).table@.may_enter(old(self).trail@, old(self).current, e)
                    ==> #[trigger] final(self).table@.may_enter(
                    final(self).trail@,
                    final(self).current,
                    e,
                ),
    {
        proof {
            let i = choose|i: int| self.child_at(i, page);
            lemma_wf_edge(self.table@, self.current as int, i);
        }
        self.trail.push_front(self.current);
        self.current = page;
        proof {
            let trail = self.trail@;
            let was = old(self).trail@;
            assert forall|e: crate::page::EntryView|
                old(self).table@.may_enter(old(self).trail@, old(self).current, e)
                    implies #[trigger] self.table@.may_enter(trail, self.current, e) by {
                if e.previous is Some {
                    let c = e.previous.unwrap();
                    if on_path(trail, self.current, c as int) && c != self.current {
                        let j = choose|j: int| 0 <= j < trail.len() && #[trigger] trail[j] == c;
                        if j > 0 {
                            assert(was[j - 1] == c);
                        }
                    }
                }
            }
            assert forall|j: int| 0 <= j < trail.len() implies #[trigger] trail[j]
                < self.table@.pages.len() by {
                if j > 0 {
                    assert(trail[j] == was[j - 1]);
                }
            }
            assert forall|j: int| 0 <= j < trail.len() - 1 implies self.table@.parent[#[trigger] trail[j] as int]
                == Some(trail[j + 1]) && self.table@.rank[trail[j] as int]
                < self.table@.rank[trail[j + 1] as int] by {
                if j > 0 {
                    assert(trail[j] == was[j - 1]);
                    assert(trail[j + 1] == was[j - 1 + 1]);
                }
            }
        }
    }

    /// Moves the cursor back up to the page it came from, if any.
    fn back(&mut self)
        requires
            old(self).inv(),
            old(self).table@.sized(old(self).table.max_size as nat, -1),
        ensures
            *final(final(self).table) == *final(old(self).table),
            *final(self).table == *old(self).table,
            final(self).inv(),
            forall|x: int|
                on_path(final(self).trail@, final(self).current, x) ==> on_path(
                    old(self).trail@,
                    old(self).current,
                    x,
                ),
            old(self).trail@.len() > 0 ==> final(self).trail@ == old(self).trail@.skip(1)
                && final(self).current == old(self).trail@[0],
            old(self).trail@.len() == 0 ==> final(self).trail@ == old(self).trail@
                && final(self).current == old(self).current,
    {
        let front = self.trail.pop_front();
        if let Some(index) = front {
            self.current = index;
        }
        proof {
            let trail = self.trail@;
            let was = old(self).trail@;
            assert forall|x: int| on_path(trail, self.current, x) implies on_path(
                was,
                old(self).current,
                x,
            ) by {
                if was.len() > 0 {
                    if x == self.current {
                        assert(was[0] == x);
                    } else {
                        let j = choose|j: int| 0 <= j < trail.len() && #[trigger] trail[j] == x;
                        assert(was[j + 1] == x);
                    }
                }
            }
            if was.len() > 0 {
                assert forall|j: int| 0 <= j < trail.len() implies #[trigger] trail[j]
                    < self.table@.pages.len() by {
                    assert(trail[j] == was[j + 1]);
                }
                assert forall|j: int| 0 <= j < trail.len() - 1 implies self.table@.parent[#[trigger] trail[j] as int]
                    == Some(trail[j + 1]) && self.table@.rank[trail[j] as int]
                    < self.table@.rank[trail[j + 1] as int] by {
                    assert(trail[j] == was[j + 1]);
                    assert(trail[j + 1] == was[j + 1 + 1]);
                }
                if trail.len() > 0 {
                    assert(trail[0] == was[1]);
                    assert(trail[trail.len() - 1] == was[was.len() - 1]);
                }
            }
        }
    }

    /// Model of the page the cursor stands on.
    pub open spec fn page(&self) -> PageView {
        self.table@.pages[self.current as int]
    }

    /// The page the cursor stands on.
    fn current(&self) -> (r: &PakTreePage)
        requires
            self.inv(),
        ensures
            r@ == self.page(),
    {
        &self.table.pages[self.current]
    }

    /// Offers an entry to the cursor's page.
    fn push(&mut self, entry: PakTreePageEntry) -> (status: PakTreeStatus)
        requires
            old(self).inv(),
            old(self).table@.may_enter(old(self).trail@, old(self).current, entry@),
        ensures
            *final(final(self).table) == *final(old(self).table),
            final(self).table@ == old(self).table@.pushed(
                old(self).trail@,
                old(self).current,
                entry@,
            ),
            final(self).current == old(self).current,
            final(self).trail == old(self).trail,
            final(self).table.max_size == old(self).table.max_size,
            final(self).table@.wf(),
            final(self).table@.path_ok(final(self).trail@, final(self).current),
            final(self).table@.pages == old(self).table@.pages.update(
                old(self).current as int,
                final(self).page(),
            ),
            final(self).page() == crate::page::pushed_page(old(self).page(), entry@),
            status is Next ==> final(self).table@ == old(self).table@,
            match push_outcome(old(self).table@.pages[old(self).current as int], entry@.key) {
                PushOutcome::Descend(child) => status matches PakTreeStatus::Next(c, back)
                    && c == child && back == entry,
                PushOutcome::Inserted(i) => status matches PakTreeStatus::Done(at) && at == i,
                PushOutcome::Merged(i) => status matches PakTreeStatus::Done(at) && at == i,
            },
    {
        let ghost before = self.table@;
        let ghost e = entry@;
        let ghost after = before.pushed(self.trail@, self.current, e);
        let status = self.table.pages[self.current].push(entry);
        self.table.rank = Ghost(after.rank);
        self.table.parent = Ghost(after.parent);
        proof {
            lemma_pushed_wf(before, self.trail@, self.current, e);
            lemma_wf_len(before);
            assert(self.table@.pages =~= after.pages);
            assert(self.table@ =~= after) by {
                reveal(TreeView::pushed);
            }
        }
        status
    }

    /// Adds a page that holds `values` to the table and gives its index.
    fn new_page(&mut self, values: VecDeque<PakTreePageEntry>) -> (index: usize)
        ensures
            *final(final(self).table) == *final(old(self).table),
            index == old(self).table.pages.len(),
            final(self).table.pages@ == old(self).table.pages@.push(
                PakTreePage { values, next: None },
            ),
            final(self).table.max_size == old(self).table.max_size,
            final(self).table.rank == old(self).table.rank,
            final(self).table.parent == old(self).table.parent,
            final(self).current == old(self).current,
            final(self).trail == old(self).trail,
    {
        let index = self.table.pages.len();
        self.table.pages.push(PakTreePage::new_with_entries(values));
        index
    }

    /// Takes the cursor's page apart, which holds one entry too many: the
    /// entries before the median move to a new page, those behind it stay.
    /// Gives the median, which now points to the new page.
    fn halve(&mut self) -> (middle: PakTreePageEntry)
        requires
            old(self).inv(),
            old(self).page().entries.len() == old(self).table.max_size + 1,
        ensures
            *final(final(self).table) == *final(old(self).table),
            final(self).inv(),
            final(self).table@.sized(final(self).table.max_size as nat, -1),
            final(self).table.max_size == old(self).table.max_size,
            final(self).trail == old(self).trail,
            final(self).current == old(self).current,
            final(self).table@ == old(self).table@.split(
                old(self).current,
                (old(self).table.max_size / 2) as int,
            ),
            middle@ == old(self).table@.median(
                old(self).current,
                (old(self).table.max_size / 2) as int,
            ),
            final(self).table@.may_enter(final(self).trail@, final(self).current, middle@),
            full_pages(final(self).table@.pages, old(self).table.max_size as nat) < full_pages(
                old(self).table@.pages,
                old(self).table.max_size as nat,
            ),
            old(self).table@.pages.len() < usize::MAX,
    {
        let ghost before = self.table@;
        let ghost max = self.table.max_size as nat;
        let ghost cur = self.current as int;
        let half = self.table.max_size / 2;
        let ghost after = before.split(self.current, half as int);
        let (leading, middle) = self.table.pages[self.current].split_off(half);
        let mut middle = middle;
        let leading_index = self.new_page(leading);
        middle.previous = Some(leading_index);
        self.table.rank = Ghost(after.rank);
        self.table.parent = Ghost(after.parent);
        proof {
            reveal(TreeView::split);
            lemma_wf_len(before);
            assert(self.table.pages@.len() == before.pages.len() + 1);
            assert(self.table.pages.len() <= usize::MAX);
            lemma_split_wf(before, self.trail@, self.current, half as int);
            let entries = before.pages[cur].entries;
            assert(self.table@.pages[cur].entries =~= entries.subrange(
                half + 1,
                entries.len() as int,
            ));
            assert(self.table@.pages[before.pages.len() as int].entries =~= entries.subrange(
                0,
                half as int,
            ));
            assert(self.table@.pages =~= after.pages);
            let shrunk = before.pages.update(cur, after.pages[cur]);
            lemma_full_pages_update(before.pages, cur, after.pages[cur], max);
            lemma_full_pages_push(shrunk, after.pages[before.pages.len() as int], max);
            assert(after.pages =~= shrunk.push(after.pages[before.pages.len() as int]));
            assert forall|p: int| 0 <= p < after.pages.len() implies (#[trigger] after.pages[p]).entries.len()
                <= max by {
                if p != cur && p < before.pages.len() {
                    assert(before.pages[p].entries.len() <= max);
                }
            }
        }
        middle
    }

    /// Splits the cursor's page, which holds one entry too many: the entries
    /// before the median move to a new page, those behind it stay, and the
    /// median, now pointing to the new page, is inserted again from the
    /// page above.
    fn split(&mut self)
        requires
            old(self).inv(),
            old(self).page().entries.len() == old(self).table.max_size + 1,
        ensures
            *final(final(self).table) == *final(old(self).table),
            final(self).inv(),
            final(self).table@.sized(final(self).table.max_size as nat, -1),
            final(self).table.max_size == old(self).table.max_size,
            (final(self).table@, final(self).trail@, final(self).current) == old(
                self,
            ).table@.resplit(old(self).trail@, old(self).current, old(self).table.max_size as nat),
            old(self).table@.pages.len() < usize::MAX,
            old(self).table@.stays_rising(final(self).table@),
        decreases full_pages(old(self).table@.pages, old(self).table.max_size as nat), 0nat,
    {
        let middle = self.halve();
        let ghost halved = self.table@;
        proof {
            lemma_wf_len(old(self).table@);
            assert(!on_path(self.trail@, self.current, old(self).table@.pages.len() as int));
        }
        let ghost before = old(self).table@;
        let ghost max = self.table.max_size as nat;
        let ghost m = middle@;
        self.back();
        let ghost trail = self.trail@;
        let ghost current = self.current;
        self.insert_entry(middle);
        proof {
            lemma_resplit_step(before, old(self).trail@, old(self).current, max);
            assert((self.table@, self.trail@, self.current) == halved.inserted(
                trail,
                current,
                m,
                max,
            ));
            assert((self.table@, self.trail@, self.current) == before.resplit(
                old(self).trail@,
                old(self).current,
                max,
            ));
            lemma_resplit_stays(before, old(self).current, (max / 2) as int, self.table@);
        }
    }

    /// What holds once an entry was offered to the cursor's page of the tree
    /// `start`: the tree is `start` but for that page, which took at most one
    /// entry more.
    pub open spec fn landed(&self, start: TreeView, max: nat) -> bool {
        &&& self.table.max_size == max
        &&& max >= 2
        &&& max % 2 == 0
        &&& start.sized(max, -1)
        &&& self.table@.wf()
        &&& self.table@.path_ok(self.trail@, self.current)
        &&& self.current < start.pages.len()
        &&& self.page().entries.len() <= start.pages[self.current as int].entries.len() + 1
        &&& self.table@.pages == start.pages.update(self.current as int, self.page())
    }

    /// What holds while the entry `e` is sent on to the page `c`: the tree is
    /// still `start`, and `c` is a page that the cursor's page points to.
    pub open spec fn sent(&self, start: TreeView, e: EntryView, c: usize) -> bool {
        &&& self.table@ == start
        &&& start.rank[c as int] < start.rank[self.current as int]
        &&& exists|i: int| self.child_at(i, c)
        &&& self.table@.may_enter(self.trail@, self.current, e)
    }

    /// Offers an entry to the cursor's page and says what came of it.
    #[verifier::rlimit(60)]
    fn offer(&mut self, entry: PakTreePageEntry, Ghost(start): Ghost<TreeView>) -> (status:
        PakTreeStatus)
        requires
            old(self).inv(),
            old(self).table@ == start,
            start.sized(old(self).table.max_size as nat, -1),
            start.may_enter(old(self).trail@, old(self).current, entry@),
        ensures
            *final(final(self).table) == *final(old(self).table),
            final(self).landed(start, old(self).table.max_size as nat),
            final(self).current == old(self).current,
            final(self).trail == old(self).trail,
            final(self).table@ == start.pushed(old(self).trail@, old(self).current, entry@),
            status matches PakTreeStatus::Next(c, back) ==> back == entry && final(self).sent(
                start,
                entry@,
                c,
            ),
            match push_outcome(start.pages[old(self).current as int], entry@.key) {
                PushOutcome::Descend(child) => status matches PakTreeStatus::Next(c, _) && c
                    == child,
                _ => status is Done,
            },
    {
        let ghost page = self.page();
        proof {
            lemma_wf_len(start);
            lemma_wf_next(start, self.current as int);
            lemma_landed(crate::page::pushed_page(page, entry@), page, entry@);
        }
        let status = self.push(entry);
        proof {
            if status is Next {
                let c = status->Next_0;
                let i = choose|i: int|
                    0 <= i < page.entries.len() && #[trigger] page.entries[i].previous == Some(c);
                assert(self.child_at(i, c));
                lemma_wf_edge(start, self.current as int, i);
            }
        }
        status
    }

    /// Goes down from the cursor's page as far as the pages send the entry
    /// and leaves it in the page where the cursor lands. Gives the index at
    /// which that page took it.
    fn descend(&mut self, entry: PakTreePageEntry) -> (index: usize)
        requires
            old(self).inv(),
            old(self).table@.sized(old(self).table.max_size as nat, -1),
            old(self).table@.may_enter(old(self).trail@, old(self).current, entry@),
        ensures
            *final(final(self).table) == *final(old(self).table),
            final(self).landed(old(self).table@, old(self).table.max_size as nat),
            (final(self).trail@, final(self).current) == old(self).table@.landing(
                old(self).trail@,
                old(self).current,
                entry@.key,
            ),
            final(self).table@ == old(self).table@.pushed(
                final(self).trail@,
                final(self).current,
                entry@,
            ),
    {
        let ghost start = self.table@;
        let ghost max = self.table.max_size as nat;
        let ghost e = entry@;
        proof {
            lemma_landing_step(start, self.trail@, self.current, e.key);
        }
        let mut status = self.offer(entry, Ghost(start));
        let mut index: usize = 0;
        let mut going = true;
        while going
            invariant
                *final(self.table) == *final(old(self).table),
                self.landed(start, max),
                status matches PakTreeStatus::Next(c, back) ==> going && back@ == e && self.sent(
                    start,
                    e,
                    c,
                ),
                status matches PakTreeStatus::Next(c, back) ==> start.landing(
                    old(self).trail@,
                    old(self).current,
                    e.key,
                ) == start.landing(seq![self.current] + self.trail@, c, e.key),
                status is Done ==> start.landing(old(self).trail@, old(self).current, e.key) == (
                    self.trail@,
                    self.current,
                ) && self.table@ == start.pushed(self.trail@, self.current, e),
            decreases
                    (if going {
                        match status {
                            PakTreeStatus::Next(c, _) => self.table@.rank[c as int] + 2,
                            PakTreeStatus::Done(_) => 1,
                        }
                    } else {
                        0
                    }),
        {
            match status {
                PakTreeStatus::Next(page, back) => {
                    proof {
                        assert(self.table@.sized(max, -1));
                    }
                    self.goto(page);
                    proof {
                        lemma_landing_step(start, self.trail@, self.current, e.key);
                    }
                    status = self.offer(back, Ghost(start));
                },
                PakTreeStatus::Done(at) => {
                    index = at;
                    going = false;
                    status = PakTreeStatus::Done(at);
                },
            }
        }
        index
    }

    /// Inserts an entry, starting at the cursor's page and descending as far
    /// as the pages send it, and splits the page it lands in if that page
    /// then holds too many entries. Gives the index at which the entry landed.
    fn insert_entry(&mut self, entry: PakTreePageEntry) -> (index: usize)
        requires
            old(self).inv(),
            old(self).table@.sized(old(self).table.max_size as nat, -1),
            old(self).table@.may_enter(old(self).trail@, old(self).current, entry@),
        ensures
            *final(final(self).table) == *final(old(self).table),
            final(self).inv(),
            final(self).table@.sized(final(self).table.max_size as nat, -1),
            final(self).table.max_size == old(self).table.max_size,
            (final(self).table@, final(self).trail@, final(self).current) == old(
                self,
            ).table@.inserted(
                old(self).trail@,
                old(self).current,
                entry@,
                old(self).table.max_size as nat,
            ),
            old(self).table@.overfull(
                old(self).trail@,
                old(self).current,
                entry@,
                old(self).table.max_size as nat,
            ) ==> old(self).table@.pages.len() < usize::MAX,
            old(self).table@.keeps_rising(final(self).table@, entry@.key),
        decreases full_pages(old(self).table@.pages, old(self).table.max_size as nat), 1nat,
    {
        let ghost start = self.table@;
        let ghost max = self.table.max_size as nat;
        let index = self.descend(entry);
        proof {
            lemma_inserted_step(start, old(self).trail@, old(self).current, entry@, max);
            assert(self.table@.sized(max, self.current as int)) by {
                assert forall|p: int|
                    0 <= p < self.table@.pages.len() && p != self.current as int implies (
                #[trigger] self.table@.pages[p]).entries.len() <= max by {
                    assert(start.pages[p].entries.len() <= max);
                }
            }
            assert(start.pages[self.current as int].entries.len() <= max);
            lemma_full_pages_update(start.pages, self.current as int, self.page(), max);
        }
        let ghost landed = self.table@;
        let ghost trail = self.trail@;
        let ghost current = self.current;
        proof {
            assert(start.landing(old(self).trail@, old(self).current, entry@.key) == (
                trail,
                current,
            ));
            assert(landed == start.pushed(trail, current, entry@));
            assert(full_pages(landed.pages, max) <= full_pages(start.pages, max)
                || landed.pages[current as int].entries.len() <= max);
            lemma_pushed_keeps(start, trail, current, entry@);
        }
        proof {
            assert(start.overfull(old(self).trail@, old(self).current, entry@, max)
                == (landed.pages[current as int].entries.len() > max));
        }
        if self.current().values.len() > self.table.max_size {
            proof {
                assert(landed.pages[current as int].entries.len() > max);
                assert(full_pages(landed.pages, max) <= full_pages(start.pages, max));
            }
            self.split();
            proof {
                lemma_inserted_step(start, old(self).trail@, old(self).current, entry@, max);
                assert((self.table@, self.trail@, self.current) == landed.resplit(
                    trail,
                    current,
                    max,
                ));
                assert((self.table@, self.trail@, self.current) == start.inserted(
                    old(self).trail@,
                    old(self).current,
                    entry@,
                    max,
                ));
                lemma_keeps_then_stays(start, landed, self.table@, entry@.key);
            }
        } else {
            proof {
                lemma_inserted_step(start, old(self).trail@, old(self).current, entry@, max);
                assert(landed.pages[current as int].entries.len() <= max);
                assert((self.table@, self.trail@, self.current) == start.inserted(
                    old(self).trail@,
                    old(self).current,
                    entry@,
                    max,
                ));
            }
        }
        index
    }

    /// Moves the cursor to the root, wherever it stands.
    fn home(&mut self)
        requires
            old(self).inv(),
            old(self).table@.sized(old(self).table.max_size as nat, -1),
        ensures
            *final(final(self).table) == *final(old(self).table),
            *final(self).table == *old(self).table,
            final(self).current == 0,
            final(self).trail@ == Seq::<usize>::empty(),
            final(self).inv(),
    {
        proof {
            lemma_wf_len(self.table@);
        }
        self.trail = VecDeque::new();
        self.current = 0;
        proof {
            assert(self.trail@ =~= Seq::<usize>::empty());
        }
    }

    /// Files `value` under `key` and gives the cursor back, so that more can
    /// be filed. Wherever the cursor stands, the way of the new entry starts
    /// at the root.
    pub fn insert(&mut self, key: PakValue, value: PakTypedPointer) -> (r: &mut Self)
        requires
            old(self).inv(),
            old(self).table@.sized(old(self).table.max_size as nat, -1),
        ensures
            *final(self) == *final(r),
            *final(r.table) == *final(old(self).table),
            r.inv(),
            r.table@.sized(r.table.max_size as nat, -1),
            r.table.max_size == old(self).table.max_size,
            (r.table@, r.trail@, r.current) == old(self).table@.inserted(
                Seq::empty(),
                0,
                EntryView { key: key@, values: seq![value@], previous: None },
                old(self).table.max_size as nat,
            ),
            forall|log: Seq<Filed>| #[trigger]
                faithful(old(self).table@, log) ==> faithful(r.table@, log.push((key@, value@))),
            old(self).table@.keeps_rising(r.table@, key@),
    {
        self.file(key, value);
        self
    }

    /// Files `value` under `key`. Wherever the cursor stands, the way of the
    /// new entry starts at the root.
    pub fn file(&mut self, key: PakValue, value: PakTypedPointer)
        requires
            old(self).inv(),
            old(self).table@.sized(old(self).table.max_size as nat, -1),
        ensures
            *final(final(self).table) == *final(old(self).table),
            final(self).inv(),
            final(self).table@.sized(final(self).table.max_size as nat, -1),
            final(self).table.max_size == old(self).table.max_size,
            (final(self).table@, final(self).trail@, final(self).current) == old(
                self,
            ).table@.inserted(
                Seq::empty(),
                0,
                EntryView { key: key@, values: seq![value@], previous: None },
                old(self).table.max_size as nat,
            ),
            forall|log: Seq<Filed>| #[trigger]
                faithful(old(self).table@, log) ==> faithful(
                    final(self).table@,
                    log.push((key@, value@)),
                ),
            old(self).table@.keeps_rising(final(self).table@, key@),
    {
        let ghost start = self.table@;
        let ghost max = self.table.max_size as nat;
        self.home();
        self.insert_entry(PakTreePageEntry::new(key, value));
        proof {
            assert forall|log: Seq<Filed>| #[trigger] faithful(start, log) implies faithful(
                self.table@,
                log.push((key@, value@)),
            ) by {
                lemma_faithful_more(start, log, key@, value@, max);
            }
        }
    }
}

} // verus!
