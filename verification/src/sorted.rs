//! What makes a tree under construction a search tree, and why inserting
//! keeps it one.
use vstd::prelude::*;
use crate::order::{coherent, in_line};
use crate::page::{
    lemma_slot, merged_entry, push_outcome, pushed_page, slot, EntryView, PageView, PushOutcome,
};
use crate::pointer::PointerView;
use crate::tree::{lemma_pushed_wf, lemma_wf_edge, lemma_wf_len, lemma_wf_next, TreeView};
use crate::value::{total_order, PakOrder, ValueView};

verus! {

/// A key together with a pointer that is filed under it.
pub type Filed = (ValueView, PointerView);

/// The pairs that an entry stands for: its key with each of its pointers.
pub open spec fn pairs_of(key: ValueView, values: Seq<PointerView>) -> Set<Filed> {
    Set::new(|pair: Filed| pair.0 == key && values.contains(pair.1))
}

impl TreeView {
    /// The page that the first entry of page `p` points to.
    pub open spec fn child(self, p: int) -> Option<usize> {
        if self.pages[p].entries.len() > 0 {
            self.pages[p].entries[0].previous
        } else {
            None
        }
    }

    /// Only the first entry of a page points to a page.
    pub open spec fn leafy(self, p: int, i: int) -> bool {
        i >= 1 ==> self.pages[p].entries[i].previous is None
    }

    /// The keys of a page rise.
    pub open spec fn rising(self, p: int, i: int, j: int) -> bool {
        i < j ==> total_order(self.pages[p].entries[i].key, self.pages[p].entries[j].key)
            == PakOrder::Less
    }

    /// The keys of the page below page `p` are below the first key of `p`.
    pub open spec fn under(self, p: int, j: int) -> bool {
        match self.child(p) {
            Some(c) => 0 <= j < self.pages[c as int].entries.len() ==> total_order(
                self.pages[c as int].entries[j].key,
                self.pages[p].entries[0].key,
            ) == PakOrder::Less,
            None => true,
        }
    }

    /// The page below a page is not empty and ranks one lower; a page with
    /// nothing below it has rank 0.
    pub open spec fn ranked(self, p: int) -> bool {
        match self.child(p) {
            Some(c) => self.pages[c as int].entries.len() > 0 && self.rank[c as int] + 1
                == self.rank[p],
            None => self.rank[p] == 0,
        }
    }

    /// No two pages have the same rank, and ranks are below the number of pages.
    pub open spec fn unlike(self, p: int, q: int) -> bool {
        &&& p != q ==> self.rank[p] != self.rank[q]
        &&& self.rank[p] < self.pages.len()
    }

    /// Every page but the root hangs below the page that `parent` names for it.
    pub open spec fn homed(self, p: int) -> bool {
        match self.parent[p] {
            Some(above) => above < self.pages.len() && self.child(above as int) == Some(
                p as usize,
            ),
            None => p == 0,
        }
    }

    /// The tree is a search tree: the pages hang below each other from the
    /// root down, each below the first entry of the one above; the keys of a
    /// page rise, and all of them are below the first key of the page above.
    #[verifier::opaque]
    pub open spec fn sorted(self) -> bool {
        &&& self.wf()
        &&& self.rank[0] + 1 == self.pages.len()
        &&& forall|p: int, i: int|
            0 <= p < self.pages.len() && 0 <= i < self.pages[p].entries.len()
                ==> #[trigger] self.leafy(p, i)
        &&& forall|p: int, i: int, j: int|
            0 <= p < self.pages.len() && 0 <= i < self.pages[p].entries.len() && 0 <= j
                < self.pages[p].entries.len() ==> #[trigger] self.rising(p, i, j)
        &&& forall|p: int, j: int| 0 <= p < self.pages.len() ==> #[trigger] self.under(p, j)
        &&& forall|p: int| 0 <= p < self.pages.len() ==> #[trigger] self.ranked(p)
        &&& forall|p: int, q: int|
            0 <= p < self.pages.len() && 0 <= q < self.pages.len() ==> #[trigger] self.unlike(
                p,
                q,
            )
        &&& forall|p: int| 0 <= p < self.pages.len() ==> #[trigger] self.homed(p)
    }

    /// Entry `i` of page `p` holds `pair.1` at place `j` under the key `pair.0`.
    pub open spec fn holds(self, p: int, i: int, j: int, pair: Filed) -> bool {
        &&& 0 <= p < self.pages.len()
        &&& 0 <= i < self.pages[p].entries.len()
        &&& 0 <= j < self.pages[p].entries[i].values.len()
        &&& self.pages[p].entries[i].key == pair.0
        &&& self.pages[p].entries[i].values[j] == pair.1
    }

    /// All that is filed in the tree.
    pub open spec fn pairs(self) -> Set<Filed> {
        Set::new(|pair: Filed| exists|p: int, i: int, j: int| self.holds(p, i, j, pair))
    }

    /// Entry `i` of page `p` has the key `key`.
    pub open spec fn keyed(self, p: int, i: int, key: ValueView) -> bool {
        &&& 0 <= p < self.pages.len()
        &&& 0 <= i < self.pages[p].entries.len()
        &&& self.pages[p].entries[i].key == key
    }

    /// The keys of the tree.
    pub open spec fn keys(self) -> Set<ValueView> {
        Set::new(|key: ValueView| exists|p: int, i: int| self.keyed(p, i, key))
    }

    /// The cursor's page hangs below the first entry of the page it came
    /// from, and the key of that entry is above `key`.
    pub open spec fn hangs(self, trail: Seq<usize>, current: usize, key: ValueView) -> bool {
        trail.len() > 0 ==> self.child(trail[0] as int) == Some(current) && total_order(
            self.pages[trail[0] as int].entries[0].key,
            key,
        ) == PakOrder::Greater
    }
}

/// A tree with all the parts of a search tree is one.
pub proof fn lemma_sorted_whole(t: TreeView)
    requires
        t.wf(),
        t.rank[0] + 1 == t.pages.len(),
        forall|p: int, i: int|
            0 <= p < t.pages.len() && 0 <= i < t.pages[p].entries.len() ==> #[trigger] t.leafy(
                p,
                i,
            ),
        forall|p: int, i: int, j: int|
            0 <= p < t.pages.len() && 0 <= i < t.pages[p].entries.len() && 0 <= j
                < t.pages[p].entries.len() ==> #[trigger] t.rising(p, i, j),
        forall|p: int, j: int| 0 <= p < t.pages.len() ==> #[trigger] t.under(p, j),
        forall|p: int| 0 <= p < t.pages.len() ==> #[trigger] t.ranked(p),
        forall|p: int, q: int|
            0 <= p < t.pages.len() && 0 <= q < t.pages.len() ==> #[trigger] t.unlike(p, q),
        forall|p: int| 0 <= p < t.pages.len() ==> #[trigger] t.homed(p),
    ensures
        t.sorted(),
{
    reveal(TreeView::sorted);
}

/// A search tree is a forest whose root has the highest rank.
pub proof fn lemma_sorted_wf(t: TreeView)
    requires
        t.sorted(),
    ensures
        t.wf(),
        1 <= t.pages.len() <= usize::MAX,
        t.rank.len() == t.pages.len(),
        t.parent.len() == t.pages.len(),
        t.parent[0] is None,
        t.rank[0] + 1 == t.pages.len(),
{
    reveal(TreeView::sorted);
    lemma_wf_len(t);
}

/// One part of a search tree: entries behind the first point to no page.
pub proof fn lemma_leafy(t: TreeView, p: int, i: int)
    requires
        t.sorted(),
        0 <= p < t.pages.len(),
        0 <= i < t.pages[p].entries.len(),
    ensures
        t.leafy(p, i),
{
    reveal(TreeView::sorted);
}

/// One part of a search tree: the keys of a page rise.
pub proof fn lemma_rising(t: TreeView, p: int, i: int, j: int)
    requires
        t.sorted(),
        0 <= p < t.pages.len(),
        0 <= i < t.pages[p].entries.len(),
        0 <= j < t.pages[p].entries.len(),
    ensures
        t.rising(p, i, j),
{
    reveal(TreeView::sorted);
}

/// One part of a search tree: the keys of the page below are below the first key.
pub proof fn lemma_under(t: TreeView, p: int, j: int)
    requires
        t.sorted(),
        0 <= p < t.pages.len(),
    ensures
        t.under(p, j),
        t.ranked(p),
        t.wf(),
{
    reveal(TreeView::sorted);
}

/// One part of a search tree: no two pages have the same rank.
pub proof fn lemma_unlike(t: TreeView, p: int, q: int)
    requires
        t.sorted(),
        0 <= p < t.pages.len(),
        0 <= q < t.pages.len(),
    ensures
        t.unlike(p, q),
        t.homed(p),
        t.rank[0] + 1 == t.pages.len(),
{
    reveal(TreeView::sorted);
}

/// Going down one page keeps the cursor's path in order.
pub proof fn lemma_path_down(t: TreeView, trail: Seq<usize>, current: usize, i: int, c: usize)
    requires
        t.wf(),
        t.path_ok(trail, current),
        0 <= i < t.pages[current as int].entries.len(),
        t.pages[current as int].entries[i].previous == Some(c),
    ensures
        t.path_ok(seq![current] + trail, c),
        t.rank[c as int] < t.rank[current as int],
{
    lemma_wf_edge(t, current as int, i);
    let longer = seq![current] + trail;
    assert forall|j: int| 0 <= j < longer.len() implies #[trigger] longer[j] < t.pages.len() by {
        if j > 0 {
            assert(longer[j] == trail[j - 1]);
        }
    }
    assert forall|j: int| 0 <= j < longer.len() - 1 implies t.parent[#[trigger] longer[j] as int]
        == Some(longer[j + 1]) && t.rank[longer[j] as int] < t.rank[longer[j + 1] as int] by {
        if j > 0 {
            assert(longer[j] == trail[j - 1]);
            assert(longer[j + 1] == trail[j - 1 + 1]);
        }
    }
}

/// In a search tree a cursor that goes down with a key lands on a page that
/// keeps the key, and that page hangs below a key that is above it.
pub proof fn lemma_landing_sorted(t: TreeView, trail: Seq<usize>, current: usize, key: ValueView)
    requires
        t.sorted(),
        t.path_ok(trail, current),
        t.hangs(trail, current, key),
    ensures
        ({
            let (tr, q) = t.landing(trail, current, key);
            &&& t.path_ok(tr, q)
            &&& t.hangs(tr, q, key)
            &&& !(push_outcome(t.pages[q as int], key) is Descend)
        }),
    decreases t.rank[current as int],
{
    crate::tree::lemma_landing_step(t, trail, current, key);
    let page = t.pages[current as int];
    lemma_slot(page.entries, key);
    lemma_under(t, current as int, 0);
    lemma_wf_next(t, current as int);
    match push_outcome(page, key) {
        PushOutcome::Descend(c) => {
            let i = slot(page.entries, key);
            lemma_leafy(t, current as int, i);
            lemma_path_down(t, trail, current, i, c);
            lemma_landing_sorted(t, seq![current] + trail, c, key);
        },
        _ => {},
    }
}

/// The tree `r` is the tree `t` but for page `cur`, which took the entry
/// `e` as a new entry at `at`; `e` brings no page with it.
pub open spec fn took(t: TreeView, r: TreeView, cur: int, at: int, e: EntryView) -> bool {
    &&& 0 <= cur < t.pages.len()
    &&& 0 <= at <= t.pages[cur].entries.len()
    &&& e.previous is None
    &&& r.pages == t.pages.update(
        cur,
        PageView { entries: t.pages[cur].entries.insert(at, e), next: t.pages[cur].next },
    )
    &&& r.rank == t.rank
    &&& r.parent == t.parent
    &&& forall|i: int|
        0 <= i < at ==> total_order(#[trigger] t.pages[cur].entries[i].key, e.key)
            == PakOrder::Less
    &&& at < t.pages[cur].entries.len() ==> total_order(t.pages[cur].entries[at].key, e.key)
        == PakOrder::Greater && t.pages[cur].entries[at].previous is None
}

/// Where the entry at index `i` of the page that took an entry came from.
pub open spec fn before_taking(at: int, i: int) -> int {
    if i < at {
        i
    } else {
        i - 1
    }
}

/// After a page took an entry, only first entries point to pages.
proof fn lemma_took_leafy(t: TreeView, r: TreeView, cur: int, at: int, e: EntryView, p: int, i: int)
    requires
        t.sorted(),
        took(t, r, cur, at, e),
        0 <= p < r.pages.len(),
        0 <= i < r.pages[p].entries.len(),
    ensures
        r.leafy(p, i),
{
    if p != cur {
        lemma_leafy(t, p, i);
    } else if i != at {
        lemma_leafy(t, p, before_taking(at, i));
        if i > at && i == 1 {
            assert(at == 0);
        }
    }
}

/// After a page took an entry at its slot, the keys of every page rise.
proof fn lemma_took_rising(
    t: TreeView,
    r: TreeView,
    cur: int,
    at: int,
    e: EntryView,
    p: int,
    i: int,
    j: int,
)
    requires
        t.sorted(),
        took(t, r, cur, at, e),
        coherent(t.keys().insert(e.key)),
        0 <= p < r.pages.len(),
        0 <= i < r.pages[p].entries.len(),
        0 <= j < r.pages[p].entries.len(),
    ensures
        r.rising(p, i, j),
{
    let all = t.keys().insert(e.key);
    if p != cur {
        lemma_rising(t, p, i, j);
    } else if i < j {
        let entries = t.pages[cur].entries;
        let oi = before_taking(at, i);
        let oj = before_taking(at, j);
        if i != at && j != at {
            lemma_rising(t, p, oi, oj);
        } else if j == at {
            assert(total_order(entries[i].key, e.key) == PakOrder::Less);
        } else {
            let top = entries[at].key;
            let far = entries[oj].key;
            assert(t.keyed(cur, at, top));
            assert(t.keyed(cur, oj, far));
            assert(all.contains(top) && all.contains(far) && all.contains(e.key));
            assert(in_line(e.key, top, far));
            assert(in_line(top, e.key, far));
            if oj > at {
                lemma_rising(t, p, at, oj);
            }
        }
    }
}

/// After a page took an entry, every page has below it what it had, and the ranks fit.
proof fn lemma_took_child(t: TreeView, r: TreeView, cur: int, at: int, e: EntryView, p: int)
    requires
        t.sorted(),
        took(t, r, cur, at, e),
        0 <= p < r.pages.len(),
    ensures
        r.child(p) == t.child(p),
        r.child(p) matches Some(c) ==> c != cur || p != cur,
        r.ranked(p),
{
    lemma_under(t, p, 0);
    if p == cur {
        if at == 0 {
            assert(r.child(p) is None);
            if t.pages[cur].entries.len() > 0 {
                assert(t.pages[cur].entries[0].previous is None);
            }
        } else {
            assert(r.pages[p].entries[0] == t.pages[cur].entries[0]);
        }
    }
    match t.child(p) {
        Some(c) => {
            lemma_wf_edge(t, p, 0);
            if c == cur {
                assert(r.pages[c as int].entries.len() > 0);
            }
        },
        None => {},
    }
}

/// After a page took an entry that is below the key it hangs from, the keys
/// of every page below another are below that page's first key.
proof fn lemma_took_under(
    t: TreeView,
    r: TreeView,
    trail: Seq<usize>,
    current: usize,
    at: int,
    e: EntryView,
    p: int,
    j: int,
)
    requires
        t.sorted(),
        took(t, r, current as int, at, e),
        t.path_ok(trail, current),
        t.hangs(trail, current, e.key),
        coherent(t.keys().insert(e.key)),
        0 <= p < r.pages.len(),
    ensures
        r.under(p, j),
{
    let cur = current as int;
    let all = t.keys().insert(e.key);
    lemma_took_child(t, r, cur, at, e, p);
    lemma_under(t, p, j);
    match t.child(p) {
        Some(c) => {
            lemma_wf_edge(t, p, 0);
            if p == cur {
                assert(r.pages[p].entries[0] == t.pages[cur].entries[0]);
                assert(c != current);
            } else if c == current {
                lemma_wf_len(t);
                assert(trail.len() > 0);
                assert(p == trail[0]);
                if 0 <= j < r.pages[cur].entries.len() {
                    let high = t.pages[p].entries[0].key;
                    assert(t.keyed(p, 0, high));
                    if j == at {
                        assert(in_line(high, e.key, e.key));
                    } else {
                        lemma_under(t, p, before_taking(at, j));
                    }
                }
            }
        },
        None => {},
    }
}

/// After a page took an entry, the tree has one more key and holds the entry's pointers under it.
proof fn lemma_took_keys(t: TreeView, r: TreeView, cur: int, at: int, e: EntryView)
    requires
        took(t, r, cur, at, e),
    ensures
        r.keys() == t.keys().insert(e.key),
        r.pairs() == t.pairs().union(pairs_of(e.key, e.values)),
{
    assert(r.keys() =~= t.keys().insert(e.key)) by {
        assert forall|k: ValueView| r.keys().contains(k) <==> t.keys().insert(e.key).contains(
            k,
        ) by {
            if r.keys().contains(k) {
                let (p, i) = choose|p: int, i: int| r.keyed(p, i, k);
                if p != cur {
                    assert(t.keyed(p, i, k));
                } else if i != at {
                    assert(t.keyed(p, before_taking(at, i), k));
                }
            }
            if t.keys().contains(k) {
                let (p, i) = choose|p: int, i: int| t.keyed(p, i, k);
                if p != cur || i < at {
                    assert(r.keyed(p, i, k));
                } else {
                    assert(r.keyed(p, i + 1, k));
                }
            }
            if k == e.key {
                assert(r.keyed(cur, at, k));
            }
        }
    }
    assert(r.pairs() =~= t.pairs().union(pairs_of(e.key, e.values))) by {
        assert forall|pair: Filed| r.pairs().contains(pair) <==> t.pairs().contains(pair)
            || pairs_of(e.key, e.values).contains(pair) by {
            if r.pairs().contains(pair) {
                let (p, i, j) = choose|p: int, i: int, j: int| r.holds(p, i, j, pair);
                if p != cur {
                    assert(t.holds(p, i, j, pair));
                } else if i != at {
                    assert(t.holds(p, before_taking(at, i), j, pair));
                } else {
                    assert(e.values[j] == pair.1);
                }
            }
            if t.pairs().contains(pair) {
                let (p, i, j) = choose|p: int, i: int, j: int| t.holds(p, i, j, pair);
                if p != cur || i < at {
                    assert(r.holds(p, i, j, pair));
                } else {
                    assert(r.holds(p, i + 1, j, pair));
                }
            }
            if pairs_of(e.key, e.values).contains(pair) {
                let j = choose|j: int| 0 <= j < e.values.len() && e.values[j] == pair.1;
                assert(r.holds(cur, at, j, pair));
            }
        }
    }
}

/// A search tree whose page took a new entry at the entry's slot is a search tree.
proof fn lemma_took_sorted(
    t: TreeView,
    r: TreeView,
    trail: Seq<usize>,
    current: usize,
    at: int,
    e: EntryView,
)
    requires
        t.sorted(),
        r.wf(),
        took(t, r, current as int, at, e),
        t.path_ok(trail, current),
        t.hangs(trail, current, e.key),
        coherent(t.keys().insert(e.key)),
    ensures
        r.sorted(),
{
    let cur = current as int;
    lemma_unlike(t, 0, 0);
    assert forall|p: int, i: int|
        0 <= p < r.pages.len() && 0 <= i < r.pages[p].entries.len() implies #[trigger] r.leafy(
        p,
        i,
    ) by {
        lemma_took_leafy(t, r, cur, at, e, p, i);
    }
    assert forall|p: int, i: int, j: int|
        0 <= p < r.pages.len() && 0 <= i < r.pages[p].entries.len() && 0 <= j
            < r.pages[p].entries.len() implies #[trigger] r.rising(p, i, j) by {
        lemma_took_rising(t, r, cur, at, e, p, i, j);
    }
    assert forall|p: int, j: int| 0 <= p < r.pages.len() implies #[trigger] r.under(p, j) by {
        lemma_took_under(t, r, trail, current, at, e, p, j);
    }
    assert forall|p: int| 0 <= p < r.pages.len() implies #[trigger] r.ranked(p) by {
        lemma_took_child(t, r, cur, at, e, p);
    }
    assert forall|p: int, q: int|
        0 <= p < r.pages.len() && 0 <= q < r.pages.len() implies #[trigger] r.unlike(p, q) by {
        lemma_unlike(t, p, q);
    }
    assert forall|p: int| 0 <= p < r.pages.len() implies #[trigger] r.homed(p) by {
        lemma_unlike(t, p, p);
        if t.parent[p] is Some {
            lemma_took_child(t, r, cur, at, e, t.parent[p].unwrap() as int);
        }
    }
    lemma_sorted_whole(r);
}

/// The tree `r` is the tree `t` but for entry `at` of page `cur`, which took
/// up the pointers of `e`.
pub open spec fn grew(t: TreeView, r: TreeView, cur: int, at: int, e: EntryView) -> bool {
    &&& 0 <= cur < t.pages.len()
    &&& 0 <= at < t.pages[cur].entries.len()
    &&& r.pages == t.pages.update(
        cur,
        PageView {
            entries: t.pages[cur].entries.update(
                at,
                merged_entry(t.pages[cur].entries[at], e),
            ),
            next: t.pages[cur].next,
        },
    )
    &&& r.rank == t.rank
    &&& r.parent == t.parent
}

/// A search tree one of whose entries took up more pointers is a search tree
/// with the same keys, in which those pointers are filed under the entry's key.
proof fn lemma_grew_sorted(t: TreeView, r: TreeView, cur: int, at: int, e: EntryView)
    requires
        t.sorted(),
        r.wf(),
        grew(t, r, cur, at, e),
    ensures
        r.sorted(),
        r.keys() == t.keys(),
        r.pairs() == t.pairs().union(pairs_of(t.pages[cur].entries[at].key, e.values)),
{
    let old = t.pages[cur].entries[at];
    lemma_unlike(t, 0, 0);
    assert forall|p: int| 0 <= p < r.pages.len() implies r.child(p) == t.child(p) by {}
    assert forall|p: int, i: int|
        0 <= p < r.pages.len() && 0 <= i < r.pages[p].entries.len() implies #[trigger] r.leafy(
        p,
        i,
    ) by {
        lemma_leafy(t, p, i);
    }
    assert forall|p: int, i: int, j: int|
        0 <= p < r.pages.len() && 0 <= i < r.pages[p].entries.len() && 0 <= j
            < r.pages[p].entries.len() implies #[trigger] r.rising(p, i, j) by {
        lemma_rising(t, p, i, j);
    }
    assert forall|p: int, j: int| 0 <= p < r.pages.len() implies #[trigger] r.under(p, j) by {
        lemma_under(t, p, j);
        assert(r.child(p) == t.child(p));
        if t.child(p) is Some {
            lemma_wf_edge(t, p, 0);
        }
    }
    assert forall|p: int| 0 <= p < r.pages.len() implies #[trigger] r.ranked(p) by {
        lemma_under(t, p, 0);
        assert(r.child(p) == t.child(p));
        if t.child(p) is Some {
            lemma_wf_edge(t, p, 0);
        }
    }
    assert forall|p: int, q: int|
        0 <= p < r.pages.len() && 0 <= q < r.pages.len() implies #[trigger] r.unlike(p, q) by {
        lemma_unlike(t, p, q);
    }
    assert forall|p: int| 0 <= p < r.pages.len() implies #[trigger] r.homed(p) by {
        lemma_unlike(t, p, p);
    }
    lemma_sorted_whole(r);
    assert(r.keys() =~= t.keys()) by {
        assert forall|k: ValueView| r.keys().contains(k) <==> t.keys().contains(k) by {
            if r.keys().contains(k) {
                let (p, i) = choose|p: int, i: int| r.keyed(p, i, k);
                assert(t.keyed(p, i, k));
            }
            if t.keys().contains(k) {
                let (p, i) = choose|p: int, i: int| t.keyed(p, i, k);
                assert(r.keyed(p, i, k));
            }
        }
    }
    assert(r.pairs() =~= t.pairs().union(pairs_of(old.key, e.values))) by {
        assert forall|pair: Filed| r.pairs().contains(pair) <==> t.pairs().contains(pair)
            || pairs_of(old.key, e.values).contains(pair) by {
            if r.pairs().contains(pair) {
                let (p, i, j) = choose|p: int, i: int, j: int| r.holds(p, i, j, pair);
                if p != cur || i != at {
                    assert(t.holds(p, i, j, pair));
                } else if j < old.values.len() {
                    assert(t.holds(p, i, j, pair));
                } else {
                    assert(e.values[j - old.values.len()] == pair.1);
                }
            }
            if t.pairs().contains(pair) {
                let (p, i, j) = choose|p: int, i: int, j: int| t.holds(p, i, j, pair);
                assert(r.holds(p, i, j, pair));
            }
            if pairs_of(old.key, e.values).contains(pair) {
                let j = choose|j: int| 0 <= j < e.values.len() && e.values[j] == pair.1;
                assert(r.holds(cur, at, old.values.len() + j, pair));
            }
        }
    }
}

/// What the push of an entry that brings no page does to the tree's pages.
proof fn lemma_pushed_plain(t: TreeView, trail: Seq<usize>, current: usize, e: EntryView)
    requires
        t.wf(),
        t.path_ok(trail, current),
        e.previous is None,
        e.values.len() > 0,
    ensures
        t.pushed(trail, current, e).wf(),
        t.pushed(trail, current, e).rank == t.rank,
        t.pushed(trail, current, e).parent == t.parent,
        t.pushed(trail, current, e).pages == t.pages.update(
            current as int,
            pushed_page(t.pages[current as int], e),
        ),
{
    reveal(TreeView::pushed);
    lemma_pushed_wf(t, trail, current, e);
}

/// A push that makes a new entry of an entry that brings no page keeps a
/// search tree a search tree and files the entry's pointers under its key.
proof fn lemma_pushed_new(t: TreeView, trail: Seq<usize>, current: usize, e: EntryView)
    requires
        t.sorted(),
        t.path_ok(trail, current),
        t.hangs(trail, current, e.key),
        coherent(t.keys().insert(e.key)),
        e.previous is None,
        e.values.len() > 0,
        push_outcome(t.pages[current as int], e.key) is Inserted,
    ensures
        t.pushed(trail, current, e).sorted(),
        t.pushed(trail, current, e).keys() == t.keys().insert(e.key),
        t.pushed(trail, current, e).pairs() == t.pairs().union(pairs_of(e.key, e.values)),
{
    let r = t.pushed(trail, current, e);
    let cur = current as int;
    let page = t.pages[cur];
    lemma_under(t, cur, 0);
    lemma_pushed_plain(t, trail, current, e);
    lemma_wf_len(t);
    lemma_wf_next(t, cur);
    lemma_slot(page.entries, e.key);
    let at = slot(page.entries, e.key);
    if at < page.entries.len() {
        assert(page.entries[at].previous is None);
    }
    assert(took(t, r, cur, at, e));
    lemma_took_sorted(t, r, trail, current, at, e);
    lemma_took_keys(t, r, cur, at, e);
}

/// A push that adds the pointers of an entry to an entry of the tree keeps a
/// search tree a search tree and files the pointers under the key of the
/// tree's entry, which is equal to the key of the pushed one.
proof fn lemma_pushed_more(t: TreeView, trail: Seq<usize>, current: usize, e: EntryView)
    requires
        t.sorted(),
        t.path_ok(trail, current),
        e.previous is None,
        e.values.len() > 0,
        push_outcome(t.pages[current as int], e.key) is Merged,
    ensures
        ({
            let key = t.pages[current as int].entries[slot(
                t.pages[current as int].entries,
                e.key,
            )].key;
            &&& t.pushed(trail, current, e).sorted()
            &&& t.pushed(trail, current, e).keys() == t.keys()
            &&& t.keys().contains(key)
            &&& total_order(key, e.key) == PakOrder::Equal
            &&& t.pushed(trail, current, e).pairs() == t.pairs().union(pairs_of(key, e.values))
        }),
{
    let r = t.pushed(trail, current, e);
    let cur = current as int;
    let page = t.pages[cur];
    lemma_under(t, cur, 0);
    lemma_pushed_plain(t, trail, current, e);
    lemma_wf_len(t);
    lemma_wf_next(t, cur);
    lemma_slot(page.entries, e.key);
    let at = slot(page.entries, e.key);
    assert(grew(t, r, cur, at, e));
    lemma_grew_sorted(t, r, cur, at, e);
    assert(t.keyed(cur, at, page.entries[at].key));
}

/// Pushing an entry that brings no page with it to the page where the cursor
/// landed keeps a search tree a search tree, and files the entry's pointers
/// under its key or under a key of the tree that is equal to it.
pub proof fn lemma_pushed_sorted(t: TreeView, trail: Seq<usize>, current: usize, e: EntryView)
    requires
        t.sorted(),
        t.path_ok(trail, current),
        t.hangs(trail, current, e.key),
        coherent(t.keys().insert(e.key)),
        e.previous is None,
        e.values.len() > 0,
        !(push_outcome(t.pages[current as int], e.key) is Descend),
    ensures
        t.pushed(trail, current, e).sorted(),
        t.pushed(trail, current, e).keys().subset_of(t.keys().insert(e.key)),
        exists|key: ValueView| #[trigger]
            filed_under(t, t.pushed(trail, current, e), key, e),
{
    let r = t.pushed(trail, current, e);
    if push_outcome(t.pages[current as int], e.key) is Inserted {
        lemma_pushed_new(t, trail, current, e);
        assert(in_line(e.key, e.key, e.key)) by {
            assert(t.keys().insert(e.key).contains(e.key));
        }
        assert(filed_under(t, r, e.key, e));
    } else {
        lemma_pushed_more(t, trail, current, e);
        let key = t.pages[current as int].entries[slot(t.pages[current as int].entries, e.key)].key;
        assert(filed_under(t, r, key, e));
    }
}

/// The tree `r` holds what `t` holds and the pointers of `e` under `key`,
/// a key of `r` that is equal to the key of `e`.
pub open spec fn filed_under(t: TreeView, r: TreeView, key: ValueView, e: EntryView) -> bool {
    &&& total_order(key, e.key) == PakOrder::Equal
    &&& r.keys().contains(key)
    &&& r.pairs() == t.pairs().union(pairs_of(key, e.values))
}

} // verus!
