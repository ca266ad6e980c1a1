//! Why splitting a page of a search tree leaves a search tree that holds the same.
use vstd::prelude::*;
use crate::order::{coherent, in_line};
use crate::page::{lemma_slot_is, push_outcome, PageView, PushOutcome};
use crate::sorted::{
    lemma_leafy, lemma_rising, lemma_sorted_wf, lemma_sorted_whole, lemma_under, lemma_unlike,
    Filed,
};
use crate::tree::{
    full_pages, lemma_full_pages_push, lemma_full_pages_update, lemma_inserted_step,
    lemma_landing_step, lemma_path_ranks, lemma_pushed_wf, lemma_resplit_step, lemma_split_wf,
    lemma_trail_ranks, lemma_wf_edge, lemma_wf_next, on_path, TreeView,
};
use crate::value::ValueView;

verus! {

/// The tree after the cursor's page, which holds `2 * half + 1` entries, was
/// split and its median put back as the page's first entry: the entries
/// before the median are in a new last page, which hangs below the median.
pub open spec fn halved(t: TreeView, trail: Seq<usize>, current: usize, half: int) -> TreeView {
    let page = t.pages[current as int];
    let n = t.pages.len() as int;
    TreeView {
        pages: t.pages.update(
            current as int,
            PageView {
                entries: seq![t.median(current, half)] + page.entries.subrange(
                    half + 1,
                    page.entries.len() as int,
                ),
                next: page.next,
            },
        ).push(PageView { entries: page.entries.subrange(0, half), next: None }),
        rank: Seq::new(
            (n + 1) as nat,
            |x: int|
                if x == n {
                    t.rank[current as int]
                } else if on_path(trail, current, x) {
                    t.rank[x] + 1
                } else {
                    t.rank[x]
                },
        ),
        parent: Seq::new(
            (n + 1) as nat,
            |x: int|
                if x == n {
                    Some(current)
                } else if t.leads_to(current as int, half, x) {
                    Some(n as usize)
                } else {
                    t.parent[x]
                },
        ),
    }
}

/// What a split needs of the tree: a search tree with coherent keys whose
/// cursor stands on a page with one entry too many.
pub open spec fn splittable(t: TreeView, trail: Seq<usize>, current: usize, max: nat) -> bool {
    &&& t.sorted()
    &&& t.path_ok(trail, current)
    &&& coherent(t.keys())
    &&& max >= 2
    &&& max % 2 == 0
    &&& t.pages[current as int].entries.len() == max + 1
    &&& t.pages.len() < usize::MAX
}

/// The pages on the cursor's path hang below each other, and their ranks
/// rise by one from page to page up to the root.
pub proof fn lemma_path_linked(t: TreeView, trail: Seq<usize>, current: usize, j: int)
    requires
        t.sorted(),
        t.path_ok(trail, current),
        0 <= j < trail.len(),
    ensures
        t.child(trail[j] as int) == Some(
            if j == 0 {
                current
            } else {
                trail[j - 1]
            },
        ),
        t.rank[trail[j] as int] == t.rank[current as int] + j + 1,
        trail[trail.len() - 1] == 0,
    decreases j,
{
    let below = if j == 0 {
        current
    } else {
        trail[j - 1]
    };
    lemma_sorted_wf(t);
    lemma_unlike(t, below as int, below as int);
    lemma_under(t, trail[j] as int, 0);
    lemma_unlike(t, trail[trail.len() - 1] as int, 0);
    if j > 0 {
        lemma_path_linked(t, trail, current, j - 1);
        assert(t.parent[trail[j - 1] as int] == Some(trail[j - 1 + 1]));
    }
}

/// A page that ranks at least as high as the cursor's page is on the cursor's path.
pub proof fn lemma_high_on_path(t: TreeView, trail: Seq<usize>, current: usize, x: int)
    requires
        t.sorted(),
        t.path_ok(trail, current),
        0 <= x < t.pages.len(),
        t.rank[x] >= t.rank[current as int],
    ensures
        on_path(trail, current, x),
{
    lemma_sorted_wf(t);
    lemma_unlike(t, x, current as int);
    if x != current {
        let j = t.rank[x] - t.rank[current as int] - 1;
        if trail.len() == 0 {
            lemma_unlike(t, current as int, 0);
            assert(current == 0);
        } else {
            lemma_path_linked(t, trail, current, trail.len() - 1);
            lemma_path_linked(t, trail, current, if j < trail.len() {
                j
            } else {
                0
            });
            lemma_unlike(t, x, trail[if j < trail.len() {
                j
            } else {
                0
            }] as int);
            assert(trail[j] == x);
        }
    }
}

/// What the halved tree is made of, entry by entry.
pub proof fn lemma_halved_parts(t: TreeView, trail: Seq<usize>, current: usize, max: nat)
    requires
        splittable(t, trail, current, max),
    ensures
        ({
            let half = (max / 2) as int;
            let r = halved(t, trail, current, half);
            let n = t.pages.len() as int;
            let q = current as int;
            let old = t.pages[q].entries;
            &&& half >= 1
            &&& r.pages.len() == n + 1
            &&& r.rank.len() == n + 1
            &&& r.parent.len() == n + 1
            &&& q < n
            &&& forall|p: int| 0 <= p < n && p != q ==> #[trigger] r.pages[p] == t.pages[p]
            &&& r.pages[q].entries.len() == half + 1
            &&& r.pages[q].next is None
            &&& r.pages[n].next is None
            &&& r.pages[q].entries[0] == t.median(current, half)
            &&& forall|i: int|
                1 <= i <= half ==> #[trigger] r.pages[q].entries[i] == old[half + i]
            &&& r.pages[n].entries.len() == half
            &&& forall|i: int| 0 <= i < half ==> #[trigger] r.pages[n].entries[i] == old[i]
            &&& r.child(q) == Some(n as usize)
            &&& r.child(n) == t.child(q)
            &&& forall|p: int| 0 <= p < n && p != q ==> #[trigger] r.child(p) == t.child(p)
            &&& forall|x: int|
                0 <= x < n ==> #[trigger] r.rank[x] == if on_path(trail, current, x) {
                    t.rank[x] + 1
                } else {
                    t.rank[x]
                }
            &&& r.rank[n] == t.rank[q]
            &&& r.parent[n] == Some(current)
            &&& forall|x: int|
                0 <= x < n ==> #[trigger] r.parent[x] == if t.child(q) == Some(x as usize) {
                    Some(n as usize)
                } else {
                    t.parent[x]
                }
        }),
{
    let half = (max / 2) as int;
    let r = halved(t, trail, current, half);
    let n = t.pages.len() as int;
    let q = current as int;
    let old = t.pages[q].entries;
    lemma_under(t, q, 0);
    lemma_sorted_wf(t);
    lemma_wf_next(t, q);
    assert(r.pages[q].entries.len() == half + 1);
    assert forall|x: int| 0 <= x < n implies #[trigger] r.parent[x] == if t.child(q) == Some(
        x as usize,
    ) {
        Some(n as usize)
    } else {
        t.parent[x]
    } by {
        if t.leads_to(q, half, x) {
            let i = choose|i: int|
                0 <= i < half && i < t.pages[q].entries.len()
                    && #[trigger] t.pages[q].entries[i].previous == Some(x as usize);
            lemma_leafy(t, q, i);
        }
        if t.child(q) == Some(x as usize) {
            assert(t.pages[q].entries[0].previous == Some(x as usize));
            assert(t.leads_to(q, half, x));
        }
    }
}

/// The halved tree is a search tree.
pub proof fn lemma_halved_sorted(t: TreeView, trail: Seq<usize>, current: usize, max: nat)
    requires
        splittable(t, trail, current, max),
        halved(t, trail, current, (max / 2) as int).wf(),
    ensures
        halved(t, trail, current, (max / 2) as int).sorted(),
{
    let half = (max / 2) as int;
    let r = halved(t, trail, current, half);
    let n = t.pages.len() as int;
    let q = current as int;
    let old = t.pages[q].entries;
    lemma_halved_parts(t, trail, current, max);
    lemma_unlike(t, 0, 0);
    lemma_sorted_wf(t);
    assert(on_path(trail, current, 0)) by {
        lemma_unlike(t, q, q);
        lemma_high_on_path(t, trail, current, 0);
    }
    assert forall|p: int, i: int|
        0 <= p < r.pages.len() && 0 <= i < r.pages[p].entries.len() implies #[trigger] r.leafy(
        p,
        i,
    ) by {
        if p == n {
            lemma_leafy(t, q, i);
        } else if p == q {
            if i >= 1 {
                lemma_leafy(t, q, half + i);
            }
        } else {
            lemma_leafy(t, p, i);
        }
    }
    assert forall|p: int, i: int, j: int|
        0 <= p < r.pages.len() && 0 <= i < r.pages[p].entries.len() && 0 <= j
            < r.pages[p].entries.len() implies #[trigger] r.rising(p, i, j) by {
        if p == n {
            lemma_rising(t, q, i, j);
        } else if p == q {
            lemma_rising(t, q, half + i, half + j);
        } else {
            lemma_rising(t, p, i, j);
        }
    }
    assert forall|p: int, j: int| 0 <= p < r.pages.len() implies #[trigger] r.under(p, j) by {
        lemma_halved_under(t, trail, current, max, p, j);
    }
    assert forall|p: int| 0 <= p < r.pages.len() implies #[trigger] r.ranked(p) by {
        lemma_halved_ranked(t, trail, current, max, p);
    }
    assert forall|p: int, x: int|
        0 <= p < r.pages.len() && 0 <= x < r.pages.len() implies #[trigger] r.unlike(p, x) by {
        lemma_halved_unlike(t, trail, current, max, p, x);
    }
    assert forall|p: int| 0 <= p < r.pages.len() implies #[trigger] r.homed(p) by {
        lemma_halved_homed(t, trail, current, max, p);
    }
    lemma_sorted_whole(r);
}

/// In the halved tree the keys of a page below another are below that page's first key.
proof fn lemma_halved_under(
    t: TreeView,
    trail: Seq<usize>,
    current: usize,
    max: nat,
    p: int,
    j: int,
)
    requires
        splittable(t, trail, current, max),
        0 <= p <= t.pages.len(),
    ensures
        halved(t, trail, current, (max / 2) as int).under(p, j),
{
    let half = (max / 2) as int;
    let r = halved(t, trail, current, half);
    let n = t.pages.len() as int;
    let q = current as int;
    let old = t.pages[q].entries;
    lemma_halved_parts(t, trail, current, max);
    if p == q {
        if 0 <= j < half {
            lemma_rising(t, q, j, half);
        }
    } else if p == n {
        lemma_under(t, q, j);
        if t.child(q) is Some {
            lemma_wf_edge(t, q, 0);
        }
    } else {
        lemma_under(t, p, j);
        match t.child(p) {
            Some(c) => {
                lemma_wf_edge(t, p, 0);
                if c == current {
                    if 0 <= j <= half {
                        lemma_under(t, p, half + j);
                    }
                }
            },
            None => {},
        }
    }
}

/// In the halved tree the page below a page ranks one lower.
proof fn lemma_halved_ranked(t: TreeView, trail: Seq<usize>, current: usize, max: nat, p: int)
    requires
        splittable(t, trail, current, max),
        0 <= p <= t.pages.len(),
    ensures
        halved(t, trail, current, (max / 2) as int).ranked(p),
{
    let half = (max / 2) as int;
    let r = halved(t, trail, current, half);
    let n = t.pages.len() as int;
    let q = current as int;
    lemma_halved_parts(t, trail, current, max);
    lemma_sorted_wf(t);
    if p == q {
        assert(on_path(trail, current, q));
    } else if p == n {
        lemma_under(t, q, 0);
        match t.child(q) {
            Some(c) => {
                lemma_wf_edge(t, q, 0);
                if on_path(trail, current, c as int) {
                    lemma_path_ranks(t, trail, current, c as int);
                }
            },
            None => {},
        }
    } else {
        lemma_under(t, p, 0);
        match t.child(p) {
            Some(c) => {
                lemma_wf_edge(t, p, 0);
                lemma_child_on_path(t, trail, current, p, c);
            },
            None => {
                if on_path(trail, current, p) {
                    let j = choose|j: int| 0 <= j < trail.len() && #[trigger] trail[j] == p;
                    lemma_path_linked(t, trail, current, j);
                }
            },
        }
    }
}

/// A page hangs below a page of the cursor's path exactly if it is on the
/// path itself, unless the upper page is the cursor's page.
proof fn lemma_child_on_path(t: TreeView, trail: Seq<usize>, current: usize, p: int, c: usize)
    requires
        t.sorted(),
        t.path_ok(trail, current),
        0 <= p < t.pages.len(),
        p != current,
        t.child(p) == Some(c),
    ensures
        on_path(trail, current, p) <==> on_path(trail, current, c as int),
{
    lemma_sorted_wf(t);
    lemma_wf_edge(t, p, 0);
    lemma_sorted_wf(t);
    if on_path(trail, current, p) {
        let j = choose|j: int| 0 <= j < trail.len() && #[trigger] trail[j] == p;
        lemma_path_linked(t, trail, current, j);
        if j > 0 {
            assert(trail[j - 1] == c);
        }
    }
    if on_path(trail, current, c as int) {
        if c == current {
            assert(trail.len() > 0);
            assert(trail[0] == p);
        } else {
            let j = choose|j: int| 0 <= j < trail.len() && #[trigger] trail[j] == c;
            if j < trail.len() - 1 {
                assert(t.parent[trail[j] as int] == Some(trail[j + 1]));
                assert(trail[j + 1] == p);
            }
        }
    }
}

/// In the halved tree no two pages have the same rank.
proof fn lemma_halved_unlike(
    t: TreeView,
    trail: Seq<usize>,
    current: usize,
    max: nat,
    p: int,
    x: int,
)
    requires
        splittable(t, trail, current, max),
        0 <= p <= t.pages.len(),
        0 <= x <= t.pages.len(),
    ensures
        halved(t, trail, current, (max / 2) as int).unlike(p, x),
{
    let half = (max / 2) as int;
    let r = halved(t, trail, current, half);
    let n = t.pages.len() as int;
    let q = current as int;
    lemma_halved_parts(t, trail, current, max);
    lemma_unlike(t, q, q);
    if p < n {
        lemma_unlike(t, p, p);
        if on_path(trail, current, p) {
            lemma_path_ranks(t, trail, current, p);
        } else if t.rank[p] >= t.rank[q] {
            lemma_high_on_path(t, trail, current, p);
        }
    }
    if x < n {
        lemma_unlike(t, x, x);
        if on_path(trail, current, x) {
            lemma_path_ranks(t, trail, current, x);
        } else if t.rank[x] >= t.rank[q] {
            lemma_high_on_path(t, trail, current, x);
        }
    }
    if p < n && x < n {
        lemma_unlike(t, p, x);
    }
}

/// In the halved tree every page but the root hangs below its parent.
proof fn lemma_halved_homed(t: TreeView, trail: Seq<usize>, current: usize, max: nat, p: int)
    requires
        splittable(t, trail, current, max),
        0 <= p <= t.pages.len(),
    ensures
        halved(t, trail, current, (max / 2) as int).homed(p),
{
    let half = (max / 2) as int;
    let r = halved(t, trail, current, half);
    let n = t.pages.len() as int;
    let q = current as int;
    lemma_halved_parts(t, trail, current, max);
    lemma_sorted_wf(t);
    lemma_under(t, q, 0);
    if p < n {
        lemma_unlike(t, p, p);
        if t.child(q) == Some(p as usize) {
        } else {
            match t.parent[p] {
                Some(above) => {
                    if above == current {
                        assert(t.child(q) == Some(p as usize));
                    }
                },
                None => {},
            }
        }
    }
}

/// The halved tree has the keys of the tree that was split and holds the same.
pub proof fn lemma_halved_holds(t: TreeView, trail: Seq<usize>, current: usize, max: nat)
    requires
        splittable(t, trail, current, max),
    ensures
        halved(t, trail, current, (max / 2) as int).keys() == t.keys(),
        halved(t, trail, current, (max / 2) as int).pairs() == t.pairs(),
{
    let half = (max / 2) as int;
    let r = halved(t, trail, current, half);
    let n = t.pages.len() as int;
    let q = current as int;
    let old = t.pages[q].entries;
    lemma_halved_parts(t, trail, current, max);
    assert(r.keys() =~= t.keys()) by {
        assert forall|k: ValueView| r.keys().contains(k) <==> t.keys().contains(k) by {
            if r.keys().contains(k) {
                let (p, i) = choose|p: int, i: int| r.keyed(p, i, k);
                if p == n {
                    assert(t.keyed(q, i, k));
                } else if p == q {
                    assert(t.keyed(q, half + i, k));
                } else {
                    assert(t.keyed(p, i, k));
                }
            }
            if t.keys().contains(k) {
                let (p, i) = choose|p: int, i: int| t.keyed(p, i, k);
                if p != q {
                    assert(r.keyed(p, i, k));
                } else if i < half {
                    assert(r.keyed(n, i, k));
                } else {
                    assert(r.keyed(q, i - half, k));
                }
            }
        }
    }
    assert(r.pairs() =~= t.pairs()) by {
        assert forall|pair: Filed| r.pairs().contains(pair) <==> t.pairs().contains(pair) by {
            if r.pairs().contains(pair) {
                let (p, i, j) = choose|p: int, i: int, j: int| r.holds(p, i, j, pair);
                if p == n {
                    assert(t.holds(q, i, j, pair));
                } else if p == q {
                    assert(t.holds(q, half + i, j, pair));
                } else {
                    assert(t.holds(p, i, j, pair));
                }
            }
            if t.pairs().contains(pair) {
                let (p, i, j) = choose|p: int, i: int, j: int| t.holds(p, i, j, pair);
                if p != q {
                    assert(r.holds(p, i, j, pair));
                } else if i < half {
                    assert(r.holds(n, i, j, pair));
                } else {
                    assert(r.holds(q, i - half, j, pair));
                }
            }
        }
    }
}

/// What the split tree is made of, before the median is put back.
proof fn lemma_split_parts(t: TreeView, trail: Seq<usize>, current: usize, max: nat)
    requires
        splittable(t, trail, current, max),
    ensures
        ({
            let half = (max / 2) as int;
            let s = t.split(current, half);
            let n = t.pages.len() as int;
            let q = current as int;
            let old = t.pages[q].entries;
            &&& s.wf()
            &&& s.path_ok(trail, current)
            &&& s.may_enter(trail, current, t.median(current, half))
            &&& s.pages.len() == n + 1
            &&& forall|p: int| 0 <= p < n && p != q ==> #[trigger] s.pages[p] == t.pages[p]
            &&& s.pages[q].entries == old.subrange(half + 1, old.len() as int)
            &&& s.pages[q].next is None
            &&& s.pages[n] == (PageView { entries: old.subrange(0, half), next: None })
            &&& s.rank == t.rank.push(t.rank[q])
            &&& forall|x: int|
                0 <= x < n ==> #[trigger] s.parent[x] == if t.child(q) == Some(x as usize) {
                    Some(n as usize)
                } else {
                    t.parent[x]
                }
            &&& s.parent[n] is None
            &&& s.parent.len() == n + 1
            &&& full_pages(s.pages, max) < full_pages(t.pages, max)
        }),
{
    reveal(TreeView::split);
    let half = (max / 2) as int;
    let s = t.split(current, half);
    let n = t.pages.len() as int;
    let q = current as int;
    let old = t.pages[q].entries;
    lemma_sorted_wf(t);
    lemma_under(t, q, 0);
    lemma_wf_next(t, q);
    lemma_split_wf(t, trail, current, half);
    assert forall|x: int| 0 <= x < n implies #[trigger] s.parent[x] == if t.child(q) == Some(
        x as usize,
    ) {
        Some(n as usize)
    } else {
        t.parent[x]
    } by {
        if t.leads_to(q, half, x) {
            let i = choose|i: int|
                0 <= i < half && i < t.pages[q].entries.len()
                    && #[trigger] t.pages[q].entries[i].previous == Some(x as usize);
            lemma_leafy(t, q, i);
        }
        if t.child(q) == Some(x as usize) {
            assert(t.pages[q].entries[0].previous == Some(x as usize));
            assert(t.leads_to(q, half, x));
        }
    }
    let shrunk = t.pages.update(q, s.pages[q]);
    lemma_full_pages_update(t.pages, q, s.pages[q], max);
    lemma_full_pages_push(shrunk, s.pages[n], max);
    assert(s.pages =~= shrunk.push(s.pages[n]));
}

/// The median of a split page, inserted from the page above, lands back on
/// the page it came from, as that page's first entry.
proof fn lemma_median_lands(t: TreeView, trail: Seq<usize>, current: usize, max: nat)
    requires
        splittable(t, trail, current, max),
    ensures
        ({
            let half = (max / 2) as int;
            let s = t.split(current, half);
            let m = t.median(current, half);
            let (tr, q) = if trail.len() > 0 {
                (trail.skip(1), trail[0])
            } else {
                (trail, current)
            };
            &&& s.landing(tr, q, m.key) == (trail, current)
            &&& push_outcome(s.pages[current as int], m.key) == PushOutcome::Inserted(0)
        }),
{
    let half = (max / 2) as int;
    let s = t.split(current, half);
    let m = t.median(current, half);
    let n = t.pages.len() as int;
    let q = current as int;
    let old = t.pages[q].entries;
    lemma_split_parts(t, trail, current, max);
    lemma_sorted_wf(t);
    // On the page itself the median goes before the first entry.
    let rest = s.pages[q].entries;
    assert(rest[0] == old[half + 1]);
    lemma_rising(t, q, half, half + 1);
    lemma_leafy(t, q, half + 1);
    assert(t.keyed(q, half, m.key));
    assert(t.keyed(q, half + 1, rest[0].key));
    assert(in_line(m.key, rest[0].key, rest[0].key));
    lemma_slot_is(rest, m.key, 0);
    assert(push_outcome(s.pages[q], m.key) == PushOutcome::Inserted(0));
    lemma_landing_step(s, trail, current, m.key);
    if trail.len() > 0 {
        let above = trail[0] as int;
        lemma_path_linked(t, trail, current, 0);
        lemma_under(t, above, half);
        let high = t.pages[above].entries[0];
        assert(t.keyed(above, 0, high.key));
        assert(in_line(m.key, high.key, high.key));
        assert(above != q) by {
            lemma_trail_ranks(t, trail, current, 0);
        }
        assert(s.pages[above] == t.pages[above]);
        lemma_slot_is(s.pages[above].entries, m.key, 0);
        lemma_wf_next(t, above);
        assert(push_outcome(s.pages[above], m.key) == PushOutcome::Descend(current));
        lemma_landing_step(s, trail.skip(1), trail[0], m.key);
        lemma_trail_ranks(t, trail, current, 0);
        assert(seq![trail[0]] + trail.skip(1) =~= trail);
    }
}

/// The split tree with the median put back is the halved tree.
proof fn lemma_median_back(t: TreeView, trail: Seq<usize>, current: usize, max: nat)
    requires
        splittable(t, trail, current, max),
    ensures
        ({
            let half = (max / 2) as int;
            t.split(current, half).pushed(trail, current, t.median(current, half)) == halved(
                t,
                trail,
                current,
                half,
            )
        }),
        halved(t, trail, current, (max / 2) as int).wf(),
{
    let half = (max / 2) as int;
    let s = t.split(current, half);
    let m = t.median(current, half);
    let n = t.pages.len() as int;
    let q = current as int;
    let r = s.pushed(trail, current, m);
    let h = halved(t, trail, current, half);
    lemma_split_parts(t, trail, current, max);
    lemma_median_lands(t, trail, current, max);
    lemma_halved_parts(t, trail, current, max);
    lemma_sorted_wf(t);
    lemma_pushed_wf(s, trail, current, m);
    reveal(TreeView::pushed);
    assert(s.lift(current, n as usize) == 1);
    assert(r.pages =~= h.pages) by {
        assert(r.pages[q].entries =~= h.pages[q].entries);
    }
    assert(r.rank =~= h.rank);
    assert(r.parent =~= h.parent);
}

/// Splitting the cursor's page of a search tree gives the halved tree: a
/// search tree with the same keys that holds the same, and the cursor stays
/// where it is.
pub proof fn lemma_resplit_sorted(t: TreeView, trail: Seq<usize>, current: usize, max: nat)
    requires
        splittable(t, trail, current, max),
    ensures
        t.resplit(trail, current, max) == (
            halved(t, trail, current, (max / 2) as int),
            trail,
            current,
        ),
        halved(t, trail, current, (max / 2) as int).sorted(),
        halved(t, trail, current, (max / 2) as int).keys() == t.keys(),
        halved(t, trail, current, (max / 2) as int).pairs() == t.pairs(),
{
    let half = (max / 2) as int;
    let s = t.split(current, half);
    let m = t.median(current, half);
    let (tr, q) = if trail.len() > 0 {
        (trail.skip(1), trail[0])
    } else {
        (trail, current)
    };
    lemma_split_parts(t, trail, current, max);
    lemma_median_lands(t, trail, current, max);
    lemma_median_back(t, trail, current, max);
    lemma_halved_parts(t, trail, current, max);
    lemma_halved_sorted(t, trail, current, max);
    lemma_halved_holds(t, trail, current, max);
    lemma_resplit_step(t, trail, current, max);
    lemma_inserted_step(s, tr, q, m, max);
}

} // verus!
