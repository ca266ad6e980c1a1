//! The shape of an index while it is built: the pages, and for each page the
//! page that points to it and a rank that falls along every pointer.
use vstd::prelude::*;
use crate::page::{push_outcome, pushed_page, EntryView, PageView, PushOutcome};
use crate::value::ValueView;

verus! {

/// Mathematical model of a tree under construction. `parent` and `rank` are
/// bookkeeping: every `previous` pointer leads to a page whose parent is the
/// pointing page and whose rank is lower, so the pages form a forest.
pub struct TreeView {
    pub pages: Seq<PageView>,
    pub rank: Seq<nat>,
    pub parent: Seq<Option<usize>>,
}

/// Whether `x` is the cursor's page or one of the pages it came through.
pub open spec fn on_path(trail: Seq<usize>, current: usize, x: int) -> bool {
    x == current || exists|j: int| 0 <= j < trail.len() && #[trigger] trail[j] == x
}

/// Number of pages that hold at least `max` entries.
#[verifier::opaque]
pub open spec fn full_pages(pages: Seq<PageView>, max: nat) -> nat
    decreases pages.len(),
{
    if pages.len() == 0 {
        0
    } else {
        full_pages(pages.drop_last(), max) + if pages.last().entries.len() >= max {
            1nat
        } else {
            0nat
        }
    }
}

impl TreeView {
    /// The pointer of entry `i` of page `p`, if any, leads to a page of lower
    /// rank whose parent is `p`.
    pub open spec fn edge_ok(self, p: int, i: int) -> bool {
        match self.pages[p].entries[i].previous {
            Some(c) => c < self.pages.len() && self.parent[c as int] == Some(p as usize)
                && self.rank[c as int] < self.rank[p],
            None => true,
        }
    }

    /// Entry `i` of page `p` holds at least one pointer.
    pub open spec fn stocked(self, p: int, i: int) -> bool {
        self.pages[p].entries[i].values.len() > 0
    }

    /// Entries `i` and `j` of page `p` do not point to the same page.
    pub open spec fn apart(self, p: int, i: int, j: int) -> bool {
        self.pages[p].entries[i].previous is Some ==> self.pages[p].entries[i].previous
            != self.pages[p].entries[j].previous
    }

    /// The pages form a forest: pointers stay inside the table, fall in rank,
    /// agree with `parent`, and no page is pointed to twice.
    #[verifier::opaque]
    pub open spec fn wf(self) -> bool {
        &&& 1 <= self.pages.len() <= usize::MAX
        &&& self.rank.len() == self.pages.len()
        &&& self.parent.len() == self.pages.len()
        &&& self.parent[0] is None
        &&& forall|p: int| 0 <= p < self.pages.len() ==> (#[trigger] self.pages[p]).next is None
        &&& forall|p: int, i: int|
            0 <= p < self.pages.len() && 0 <= i < self.pages[p].entries.len()
                ==> #[trigger] self.edge_ok(p, i)
        &&& forall|p: int, i: int|
            0 <= p < self.pages.len() && 0 <= i < self.pages[p].entries.len()
                ==> #[trigger] self.stocked(p, i)
        &&& forall|p: int, i: int, j: int|
            0 <= p < self.pages.len() && 0 <= i < self.pages[p].entries.len() && 0 <= j
                < self.pages[p].entries.len() && i != j ==> #[trigger] self.apart(p, i, j)
    }

    /// No page but `except` holds more than `max` entries.
    pub open spec fn sized(self, max: nat, except: int) -> bool {
        forall|p: int|
            0 <= p < self.pages.len() && p != except ==> (#[trigger] self.pages[p]).entries.len()
                <= max
    }

    /// The cursor stands on a page of the table and its trail lists that page's
    /// ancestors, nearest first, each of higher rank than the one before.
    pub open spec fn path_ok(self, trail: Seq<usize>, current: usize) -> bool {
        &&& current < self.pages.len()
        &&& forall|j: int| 0 <= j < trail.len() ==> #[trigger] trail[j] < self.pages.len()
        &&& trail.len() > 0 ==> self.parent[current as int] == Some(trail[0])
            && self.rank[current as int] < self.rank[trail[0] as int]
        &&& trail.len() == 0 ==> self.parent[current as int] is None
        &&& forall|j: int|
            0 <= j < trail.len() - 1 ==> self.parent[#[trigger] trail[j] as int] == Some(
                trail[j + 1],
            ) && self.rank[trail[j] as int] < self.rank[trail[j + 1] as int]
        &&& trail.len() > 0 ==> self.parent[trail[trail.len() - 1] as int] is None
    }

    /// An entry on its way into the tree holds at least one pointer, and it
    /// may bring a page with it: one that is not the root, that nothing
    /// points to yet and that the cursor did not come through.
    pub open spec fn may_enter(self, trail: Seq<usize>, current: usize, e: EntryView) -> bool {
        &&& e.values.len() > 0
        &&& match e.previous {
            Some(c) => 0 < c < self.pages.len() && self.parent[c as int] is None && !on_path(
                trail,
                current,
                c as int,
            ),
            None => true,
        }
    }

    /// By how much the path must rise in rank so that `current` ranks above `child`.
    pub open spec fn lift(self, current: usize, child: usize) -> nat {
        if self.rank[current as int] > self.rank[child as int] {
            0
        } else {
            (self.rank[child as int] - self.rank[current as int] + 1) as nat
        }
    }

    /// The ranks after the cursor's page and its ancestors rose by `k`.
    pub open spec fn lifted(self, trail: Seq<usize>, current: usize, k: nat) -> Seq<nat> {
        Seq::new(
            self.rank.len(),
            |x: int|
                if on_path(trail, current, x) {
                    self.rank[x] + k
                } else {
                    self.rank[x]
                },
        )
    }

    /// The tree after `e` was pushed to the cursor's page.
    #[verifier::opaque]
    pub open spec fn pushed(self, trail: Seq<usize>, current: usize, e: EntryView) -> TreeView {
        let page = self.pages[current as int];
        let pages = self.pages.update(current as int, pushed_page(page, e));
        match (push_outcome(page, e.key), e.previous) {
            (PushOutcome::Inserted(_), Some(child)) => TreeView {
                pages,
                rank: self.lifted(trail, current, self.lift(current, child)),
                parent: self.parent.update(child as int, Some(current)),
            },
            _ => TreeView { pages, rank: self.rank, parent: self.parent },
        }
    }

    /// Whether one of the first `half` entries of page `p` points to `x`.
    pub open spec fn leads_to(self, p: int, half: int, x: int) -> bool {
        exists|i: int|
            0 <= i < half && i < self.pages[p].entries.len() && #[trigger] self.pages[p].entries[i].previous
                == Some(x as usize)
    }

    /// The tree after the cursor's page was split: the page keeps the entries
    /// behind the median, a new last page takes those before it, and the
    /// median itself is in nobody's hands (see [`TreeView::median`]).
    #[verifier::opaque]
    pub open spec fn split(self, current: usize, half: int) -> TreeView {
        let page = self.pages[current as int];
        let n = self.pages.len() as int;
        TreeView {
            pages: self.pages.update(
                current as int,
                PageView {
                    entries: page.entries.subrange(half + 1, page.entries.len() as int),
                    next: page.next,
                },
            ).push(PageView { entries: page.entries.subrange(0, half), next: None }),
            rank: self.rank.push(self.rank[current as int]),
            parent: Seq::new(
                (n + 1) as nat,
                |x: int|
                    if x == n {
                        None
                    } else if self.leads_to(current as int, half, x) {
                        Some(n as usize)
                    } else {
                        self.parent[x]
                    },
            ),
        }
    }

    /// Where a cursor ends that starts at `current` with an entry for `key`
    /// and goes down as long as the pages send the entry on: its trail and page.
    #[verifier::opaque]
    pub open spec fn landing(self, trail: Seq<usize>, current: usize, key: ValueView) -> (
        Seq<usize>,
        usize,
    )
        decreases self.rank[current as int],
    {
        match push_outcome(self.pages[current as int], key) {
            PushOutcome::Descend(c) => if self.rank[c as int] < self.rank[current as int] {
                self.landing(seq![current] + trail, c, key)
            } else {
                (trail, current)
            },
            _ => (trail, current),
        }
    }

    /// Whether the page that takes `e` holds more than `max` entries then.
    pub open spec fn overfull(self, trail: Seq<usize>, current: usize, e: EntryView, max: nat) -> bool {
        let (tr, q) = self.landing(trail, current, e.key);
        self.pushed(tr, q, e).pages[q as int].entries.len() > max
    }

    /// The tree and the cursor after `e` was inserted from the cursor's page:
    /// the entry is pushed to the page where the cursor lands, and that page
    /// is split if it then holds more than `max` entries.
    pub open spec fn inserted(self, trail: Seq<usize>, current: usize, e: EntryView, max: nat) -> (
        TreeView,
        Seq<usize>,
        usize,
    )
        decreases full_pages(self.pages, max), 1nat,
    {
        let (tr, q) = self.landing(trail, current, e.key);
        let t = self.pushed(tr, q, e);
        if t.pages[q as int].entries.len() > max && full_pages(t.pages, max) <= full_pages(
            self.pages,
            max,
        ) {
            t.resplit(tr, q, max)
        } else {
            (t, tr, q)
        }
    }

    /// The tree and the cursor after the cursor's page was split and its
    /// median inserted again from the page above.
    pub open spec fn resplit(self, trail: Seq<usize>, current: usize, max: nat) -> (
        TreeView,
        Seq<usize>,
        usize,
    )
        decreases full_pages(self.pages, max), 0nat,
    {
        let half = (max / 2) as int;
        let t = self.split(current, half);
        let (tr, q) = if trail.len() > 0 {
            (trail.skip(1), trail[0])
        } else {
            (trail, current)
        };
        if full_pages(t.pages, max) < full_pages(self.pages, max) {
            t.inserted(tr, q, self.median(current, half), max)
        } else {
            (t, tr, q)
        }
    }

    /// The median that a split of the cursor's page sets free, pointing to the new page.
    pub open spec fn median(self, current: usize, half: int) -> EntryView {
        let m = self.pages[current as int].entries[half];
        EntryView { key: m.key, values: m.values, previous: Some(self.pages.len() as usize) }
    }
}

/// Replacing one page changes the count of full pages by that page alone.
pub proof fn lemma_full_pages_update(pages: Seq<PageView>, q: int, page: PageView, max: nat)
    requires
        0 <= q < pages.len(),
    ensures
        full_pages(pages.update(q, page), max) + (if pages[q].entries.len() >= max {
            1nat
        } else {
            0nat
        }) == full_pages(pages, max) + (if page.entries.len() >= max {
            1nat
        } else {
            0nat
        }),
    decreases pages.len(),
{
    reveal(full_pages);
    let after = pages.update(q, page);
    if q == pages.len() - 1 {
        assert(after.drop_last() =~= pages.drop_last());
    } else {
        assert(after.drop_last() =~= pages.drop_last().update(q, page));
        lemma_full_pages_update(pages.drop_last(), q, page, max);
    }
}

/// A new last page adds itself to the count of full pages.
pub proof fn lemma_full_pages_push(pages: Seq<PageView>, page: PageView, max: nat)
    ensures
        full_pages(pages.push(page), max) == full_pages(pages, max) + (if page.entries.len()
            >= max {
            1nat
        } else {
            0nat
        }),
{
    reveal(full_pages);
    assert(pages.push(page).drop_last() =~= pages);
}

/// A push keeps the forest and the cursor's path intact.
pub proof fn lemma_pushed_wf(t: TreeView, trail: Seq<usize>, current: usize, e: EntryView)
    requires
        t.wf(),
        t.path_ok(trail, current),
        t.may_enter(trail, current, e),
    ensures
        t.pushed(trail, current, e).wf(),
        t.pushed(trail, current, e).path_ok(trail, current),
        t.pushed(trail, current, e).pages == t.pages.update(
            current as int,
            pushed_page(t.pages[current as int], e),
        ),
        push_outcome(t.pages[current as int], e.key) is Descend ==> t.pushed(trail, current, e)
            == t,
{
    reveal(TreeView::wf);
    reveal(TreeView::pushed);
    let r = t.pushed(trail, current, e);
    if push_outcome(t.pages[current as int], e.key) is Descend {
        assert(r.pages =~= t.pages);
    }
    let page = t.pages[current as int];
    let cur = current as int;
    crate::page::lemma_slot(page.entries, e.key);
    let lifts = push_outcome(page, e.key) is Inserted && e.previous is Some;
    // Ranks still fall along every pointer of the old tree.
    assert forall|p: int, c: int|
        0 <= p < t.pages.len() && 0 <= c < t.pages.len() && t.parent[c] == Some(p as usize)
            && t.rank[c] < t.rank[p] implies r.rank[c] < r.rank[p] by {
        if lifts {
            if on_path(trail, current, c) && !on_path(trail, current, p) {
                if c == cur {
                    if trail.len() > 0 {
                        assert(trail[0] == p);
                    }
                } else {
                    let j = choose|j: int| 0 <= j < trail.len() && #[trigger] trail[j] == c;
                    if j < trail.len() - 1 {
                        assert(trail[j + 1] == p);
                    }
                }
            }
        }
    }
    assert forall|p: int, i: int|
        0 <= p < r.pages.len() && 0 <= i < r.pages[p].entries.len() implies #[trigger] r.edge_ok(
        p,
        i,
    ) by {
        if p != cur {
            assert(t.edge_ok(p, i));
        } else {
            match push_outcome(page, e.key) {
                PushOutcome::Descend(_) => {
                    assert(t.edge_ok(p, i));
                },
                PushOutcome::Inserted(at) => {
                    if i < at {
                        assert(t.edge_ok(p, i));
                    } else if i > at {
                        assert(t.edge_ok(p, i - 1));
                    }
                },
                PushOutcome::Merged(at) => {
                    assert(t.edge_ok(p, i));
                },
            }
        }
    }
    assert forall|p: int, i: int|
        0 <= p < r.pages.len() && 0 <= i < r.pages[p].entries.len() implies #[trigger] r.stocked(
        p,
        i,
    ) by {
        if p != cur {
            assert(t.stocked(p, i));
        } else {
            match push_outcome(page, e.key) {
                PushOutcome::Descend(_) => {
                    assert(t.stocked(p, i));
                },
                PushOutcome::Inserted(at) => {
                    if i < at {
                        assert(t.stocked(p, i));
                    } else if i > at {
                        assert(t.stocked(p, i - 1));
                    }
                },
                PushOutcome::Merged(at) => {
                    assert(t.stocked(p, i));
                },
            }
        }
    }
    assert forall|p: int, i: int, j: int|
        0 <= p < r.pages.len() && 0 <= i < r.pages[p].entries.len() && 0 <= j
            < r.pages[p].entries.len() && i != j implies #[trigger] r.apart(p, i, j) by {
        if p != cur {
            assert(t.apart(p, i, j));
        } else {
            match push_outcome(page, e.key) {
                PushOutcome::Descend(_) => {
                    assert(t.apart(p, i, j));
                },
                PushOutcome::Inserted(at) => {
                    let oi = if i < at {
                        i
                    } else {
                        i - 1
                    };
                    let oj = if j < at {
                        j
                    } else {
                        j - 1
                    };
                    if i != at && j != at {
                        assert(t.apart(p, oi, oj));
                    } else if i == at {
                        assert(t.edge_ok(p, oj));
                    } else {
                        assert(t.edge_ok(p, oi));
                    }
                },
                PushOutcome::Merged(at) => {
                    assert(t.apart(p, i, j));
                },
            }
        }
    }
}

/// A split keeps the forest and the cursor's path intact, and the median it
/// sets free may enter the tree again.
pub proof fn lemma_split_wf(t: TreeView, trail: Seq<usize>, current: usize, half: int)
    requires
        t.wf(),
        t.path_ok(trail, current),
        half >= 1,
        t.pages[current as int].entries.len() == 2 * half + 1,
        t.pages.len() < usize::MAX,
    ensures
        t.split(current, half).wf(),
        t.split(current, half).path_ok(trail, current),
        t.split(current, half).may_enter(trail, current, t.median(current, half)),
{
    reveal(TreeView::wf);
    reveal(TreeView::split);
    let r = t.split(current, half);
    let cur = current as int;
    let n = t.pages.len() as int;
    let page = t.pages[cur];
    assert forall|x: int| on_path(trail, current, x) && 0 <= x < n implies !t.leads_to(
        cur,
        half,
        x,
    ) by {
        if t.leads_to(cur, half, x) {
            let i = choose|i: int|
                0 <= i < half && i < t.pages[cur].entries.len()
                    && #[trigger] t.pages[cur].entries[i].previous == Some(x as usize);
            assert(t.edge_ok(cur, i));
            lemma_path_ranks(t, trail, current, x);
        }
    }
    assert forall|p: int, i: int|
        0 <= p < r.pages.len() && 0 <= i < r.pages[p].entries.len() implies #[trigger] r.edge_ok(
        p,
        i,
    ) by {
        if p == n {
            assert(t.edge_ok(cur, i));
            assert(r.pages[p].entries[i] == page.entries[i]);
            match page.entries[i].previous {
                Some(c) => {
                    assert(t.leads_to(cur, half, c as int));
                },
                None => {},
            }
        } else if p == cur {
            assert(t.edge_ok(cur, i + half + 1));
            assert(r.pages[p].entries[i] == page.entries[i + half + 1]);
            match page.entries[i + half + 1].previous {
                Some(c) => {
                    if t.leads_to(cur, half, c as int) {
                        let k = choose|k: int|
                            0 <= k < half && k < t.pages[cur].entries.len()
                                && #[trigger] t.pages[cur].entries[k].previous == Some(c);
                        assert(t.apart(cur, k, i + half + 1));
                    }
                },
                None => {},
            }
        } else {
            assert(t.edge_ok(p, i));
            match t.pages[p].entries[i].previous {
                Some(c) => {
                    if t.leads_to(cur, half, c as int) {
                        let k = choose|k: int|
                            0 <= k < half && k < t.pages[cur].entries.len()
                                && #[trigger] t.pages[cur].entries[k].previous == Some(c);
                        assert(t.edge_ok(cur, k));
                    }
                },
                None => {},
            }
        }
    }
    assert forall|p: int, i: int|
        0 <= p < r.pages.len() && 0 <= i < r.pages[p].entries.len() implies #[trigger] r.stocked(
        p,
        i,
    ) by {
        if p == n {
            assert(t.stocked(cur, i));
        } else if p == cur {
            assert(t.stocked(cur, i + half + 1));
        } else {
            assert(t.stocked(p, i));
        }
    }
    assert(t.stocked(cur, half));
    assert forall|p: int, i: int, j: int|
        0 <= p < r.pages.len() && 0 <= i < r.pages[p].entries.len() && 0 <= j
            < r.pages[p].entries.len() && i != j implies #[trigger] r.apart(p, i, j) by {
        if p == n {
            assert(t.apart(cur, i, j));
        } else if p == cur {
            assert(t.apart(cur, i + half + 1, j + half + 1));
        } else {
            assert(t.apart(p, i, j));
        }
    }
    assert forall|p: int| 0 <= p < r.pages.len() implies (#[trigger] r.pages[p]).next is None by {
        if p < n && p != cur {
            assert(t.pages[p].next is None);
        } else if p == cur {
            assert(t.pages[cur].next is None);
        }
    }
    assert(r.parent[0] is None) by {
        if t.leads_to(cur, half, 0) {
            let i = choose|i: int|
                0 <= i < half && i < t.pages[cur].entries.len()
                    && #[trigger] t.pages[cur].entries[i].previous == Some(0usize);
            assert(t.edge_ok(cur, i));
        }
    }
    assert(r.path_ok(trail, current)) by {
        assert(on_path(trail, current, cur));
        assert forall|j: int| 0 <= j < trail.len() implies on_path(
            trail,
            current,
            #[trigger] trail[j] as int,
        ) by {}
    }
    assert(!on_path(trail, current, n));
}

/// Where the cursor's page sends the entry on, the cursor lands where a
/// cursor on that page lands; where it does not, the cursor stays.
pub proof fn lemma_landing_step(t: TreeView, trail: Seq<usize>, current: usize, key: ValueView)
    ensures
        match push_outcome(t.pages[current as int], key) {
            PushOutcome::Descend(c) => t.rank[c as int] < t.rank[current as int] ==> t.landing(
                trail,
                current,
                key,
            ) == t.landing(seq![current] + trail, c, key),
            _ => t.landing(trail, current, key) == (trail, current),
        },
{
    reveal(TreeView::landing);
}

/// How an insertion goes: the entry is pushed where the cursor lands, and the
/// page is split if it holds too many entries then.
pub proof fn lemma_inserted_step(
    t: TreeView,
    trail: Seq<usize>,
    current: usize,
    e: EntryView,
    max: nat,
)
    ensures
        ({
            let (tr, q) = t.landing(trail, current, e.key);
            let pushed = t.pushed(tr, q, e);
            t.inserted(trail, current, e, max) == if pushed.pages[q as int].entries.len() > max
                && full_pages(pushed.pages, max) <= full_pages(t.pages, max) {
                pushed.resplit(tr, q, max)
            } else {
                (pushed, tr, q)
            }
        }),
{
    reveal(TreeView::inserted);
}

/// How a split goes: the page is split, the cursor steps back, and the median
/// is inserted from there.
pub proof fn lemma_resplit_step(t: TreeView, trail: Seq<usize>, current: usize, max: nat)
    ensures
        ({
            let half = (max / 2) as int;
            let halved = t.split(current, half);
            let (tr, q) = if trail.len() > 0 {
                (trail.skip(1), trail[0])
            } else {
                (trail, current)
            };
            t.resplit(trail, current, max) == if full_pages(halved.pages, max) < full_pages(
                t.pages,
                max,
            ) {
                halved.inserted(tr, q, t.median(current, half), max)
            } else {
                (halved, tr, q)
            }
        }),
{
    reveal(TreeView::resplit);
}

/// In a forest every pointer is in order, the table is not empty and the root
/// has no parent.
pub proof fn lemma_wf_edge(t: TreeView, p: int, i: int)
    requires
        t.wf(),
        0 <= p < t.pages.len(),
        0 <= i < t.pages[p].entries.len(),
    ensures
        t.edge_ok(p, i),
        t.stocked(p, i),
        t.pages[p].next is None,
{
    reveal(TreeView::wf);
}

/// No page of a forest under construction has a page to visit after its last entry.
pub proof fn lemma_wf_next(t: TreeView, p: int)
    requires
        t.wf(),
        0 <= p < t.pages.len(),
    ensures
        t.pages[p].next is None,
{
    reveal(TreeView::wf);
}

/// The sizes of a forest's bookkeeping.
pub proof fn lemma_wf_len(t: TreeView)
    requires
        t.wf(),
    ensures
        1 <= t.pages.len() <= usize::MAX,
        t.rank.len() == t.pages.len(),
        t.parent.len() == t.pages.len(),
        t.parent[0] is None,
{
    reveal(TreeView::wf);
}

/// The pages on the cursor's path rank at least as high as the cursor's page.
pub proof fn lemma_path_ranks(t: TreeView, trail: Seq<usize>, current: usize, x: int)
    requires
        t.path_ok(trail, current),
        on_path(trail, current, x),
    ensures
        t.rank[x] >= t.rank[current as int],
{
    if x != current {
        let j = choose|j: int| 0 <= j < trail.len() && #[trigger] trail[j] == x;
        lemma_trail_ranks(t, trail, current, j);
    }
}

/// Each page of the trail ranks above the cursor's page.
pub proof fn lemma_trail_ranks(t: TreeView, trail: Seq<usize>, current: usize, j: int)
    requires
        t.path_ok(trail, current),
        0 <= j < trail.len(),
    ensures
        t.rank[trail[j] as int] > t.rank[current as int],
    decreases j,
{
    if j > 0 {
        lemma_trail_ranks(t, trail, current, j - 1);
        assert(t.rank[trail[j - 1] as int] < t.rank[trail[j - 1 + 1] as int]);
    }
}

} // verus!
