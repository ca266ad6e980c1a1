//! Why a search of a persisted search tree finds exactly what the tree
//! holds under the keys that the search looks for.
use vstd::prelude::*;
use crate::artifact::PakView;
use crate::error::PakFault;
use crate::filing::{held, holds_hit};
use crate::order::{coherent, in_line};
use crate::page::PageView;
use crate::pointer::{PakUntypedPointer, PointerView};
use crate::search::{goes_below, goes_on, hit, scan, search, PakSearch};
use crate::sorted::{lemma_leafy, lemma_rising, lemma_sorted_wf, lemma_under, lemma_unlike};
use crate::tree::{lemma_wf_edge, lemma_wf_next, TreeView};
use crate::value::{total_order, PakOrder, ValueView};

verus! {

/// The pak holds the pages under the page table: each page index has a line
/// in the table, and the bytes that the line names are the page's.
pub open spec fn shows(pak: PakView, table: Map<usize, PakUntypedPointer>, pages: Seq<PageView>) -> bool {
    forall|i: int| 0 <= i < pages.len() ==> #[trigger] pak.page(table, i as usize) == Ok::<
        PageView,
        PakFault,
    >(pages[i])
}

/// Entry `i` of page `p` holds `pointer` at place `j`, and the search looks for its key.
pub open spec fn found_at(
    t: TreeView,
    kind: PakSearch,
    probe: ValueView,
    p: int,
    i: int,
    j: int,
    pointer: PointerView,
) -> bool {
    &&& 0 <= p < t.pages.len()
    &&& 0 <= i < t.pages[p].entries.len()
    &&& 0 <= j < t.pages[p].entries[i].values.len()
    &&& t.pages[p].entries[i].values[j] == pointer
    &&& hit(kind, total_order(t.pages[p].entries[i].key, probe))
}

/// The pointers that the entries of page `p` from `from` on hold under keys
/// that the search looks for.
pub open spec fn own(t: TreeView, kind: PakSearch, probe: ValueView, p: int, from: int) -> Set<
    PointerView,
> {
    Set::new(
        |pointer: PointerView|
            exists|i: int, j: int| from <= i && #[trigger] found_at(t, kind, probe, p, i, j, pointer),
    )
}

/// The pointers that the pages of rank up to `rank` hold under keys that
/// the search looks for.
pub open spec fn lower(t: TreeView, kind: PakSearch, probe: ValueView, rank: int) -> Set<
    PointerView,
> {
    Set::new(
        |pointer: PointerView|
            exists|p: int, i: int, j: int|
                #[trigger] found_at(t, kind, probe, p, i, j, pointer) && t.rank[p] <= rank,
    )
}

/// The keys of the pages that rank below a page are below the page's first key.
pub proof fn lemma_lower_keys(t: TreeView, p: int, x: int, i: int)
    requires
        t.sorted(),
        coherent(t.keys()),
        0 <= p < t.pages.len(),
        0 <= x < t.pages.len(),
        0 <= i < t.pages[x].entries.len(),
        t.rank[x] < t.rank[p],
    ensures
        t.pages[p].entries.len() > 0,
        total_order(t.pages[x].entries[i].key, t.pages[p].entries[0].key) == PakOrder::Less,
    decreases t.rank[p],
{
    lemma_sorted_wf(t);
    lemma_under(t, p, i);
    lemma_unlike(t, x, x);
    match t.child(p) {
        Some(c) => {
            lemma_wf_edge(t, p, 0);
            lemma_unlike(t, x, c as int);
            if x != c {
                lemma_lower_keys(t, c as int, x, i);
                lemma_under(t, p, 0);
                let a = t.pages[x].entries[i].key;
                let b = t.pages[c as int].entries[0].key;
                let high = t.pages[p].entries[0].key;
                assert(t.keyed(x, i, a));
                assert(t.keyed(c as int, 0, b));
                assert(t.keyed(p, 0, high));
                assert(in_line(a, b, high));
            }
        },
        None => {},
    }
}

/// What the pages up to a rank hold is what the page of that rank holds and
/// what the pages below it hold.
pub proof fn lemma_lower_step(t: TreeView, kind: PakSearch, probe: ValueView, p: int)
    requires
        t.sorted(),
        0 <= p < t.pages.len(),
    ensures
        lower(t, kind, probe, t.rank[p] as int) == own(t, kind, probe, p, 0).union(
            lower(t, kind, probe, t.rank[p] - 1),
        ),
{
    let r = t.rank[p] as int;
    let whole = lower(t, kind, probe, r);
    let parts = own(t, kind, probe, p, 0).union(lower(t, kind, probe, r - 1));
    assert forall|pointer: PointerView| whole.contains(pointer) <==> parts.contains(pointer) by {
        if whole.contains(pointer) {
            let (x, i, j) = choose|x: int, i: int, j: int|
                #[trigger] found_at(t, kind, probe, x, i, j, pointer) && t.rank[x] <= r;
            lemma_unlike(t, x, p);
            if x == p {
                assert(own(t, kind, probe, p, 0).contains(pointer));
            } else {
                assert(lower(t, kind, probe, r - 1).contains(pointer));
            }
        }
        if own(t, kind, probe, p, 0).contains(pointer) {
            let (i, j) = choose|i: int, j: int|
                0 <= i && #[trigger] found_at(t, kind, probe, p, i, j, pointer);
            assert(found_at(t, kind, probe, p, i, j, pointer) && t.rank[p] <= r);
        }
        if lower(t, kind, probe, r - 1).contains(pointer) {
            let (x, i, j) = choose|x: int, i: int, j: int|
                #[trigger] found_at(t, kind, probe, x, i, j, pointer) && t.rank[x] <= r - 1;
            assert(found_at(t, kind, probe, x, i, j, pointer) && t.rank[x] <= r);
        }
    }
    assert(whole =~= parts);
}

/// What the pages up to the root's rank hold is what the tree holds.
pub proof fn lemma_lower_all(t: TreeView, kind: PakSearch, probe: ValueView)
    requires
        t.sorted(),
    ensures
        lower(t, kind, probe, t.rank[0] as int) == held(t, kind, probe),
{
    lemma_sorted_wf(t);
    let r = t.rank[0] as int;
    assert forall|pointer: PointerView|
        lower(t, kind, probe, r).contains(pointer) <==> held(t, kind, probe).contains(
            pointer,
        ) by {
        if lower(t, kind, probe, r).contains(pointer) {
            let (x, i, j) = choose|x: int, i: int, j: int|
                #[trigger] found_at(t, kind, probe, x, i, j, pointer) && t.rank[x] <= r;
            let key = t.pages[x].entries[i].key;
            assert(t.holds(x, i, j, (key, pointer)));
            assert(holds_hit(t, kind, probe, key, pointer));
        }
        if held(t, kind, probe).contains(pointer) {
            let key = choose|key: ValueView| #[trigger] holds_hit(t, kind, probe, key, pointer);
            let (x, i, j) = choose|x: int, i: int, j: int| t.holds(x, i, j, (key, pointer));
            lemma_unlike(t, x, x);
            assert(found_at(t, kind, probe, x, i, j, pointer) && t.rank[x] <= r);
        }
    }
    assert(lower(t, kind, probe, r) =~= held(t, kind, probe));
}

/// Where a search does not look below the first entry of a page, the pages
/// below hold nothing that it looks for.
proof fn lemma_nothing_below(t: TreeView, kind: PakSearch, probe: ValueView, p: int)
    requires
        t.sorted(),
        coherent(t.keys().insert(probe)),
        0 <= p < t.pages.len(),
        t.pages[p].entries.len() > 0 ==> !goes_below(
            kind,
            total_order(t.pages[p].entries[0].key, probe),
        ),
        t.pages[p].entries.len() == 0 ==> t.rank[p] == 0,
    ensures
        lower(t, kind, probe, t.rank[p] - 1) == Set::<PointerView>::empty(),
{
    let all = t.keys().insert(probe);
    crate::order::lemma_coherent_subset(all, t.keys());
    let none = lower(t, kind, probe, t.rank[p] - 1);
    assert forall|pointer: PointerView| #[trigger] none.contains(pointer) implies false by {
        if none.contains(pointer) {
            let (x, i, j) = choose|x: int, i: int, j: int|
                #[trigger] found_at(t, kind, probe, x, i, j, pointer) && t.rank[x] <= t.rank[p]
                    - 1;
            lemma_lower_keys(t, p, x, i);
            let key = t.pages[x].entries[i].key;
            let first = t.pages[p].entries[0].key;
            assert(t.keyed(x, i, key));
            assert(t.keyed(p, 0, first));
            assert(all.contains(key) && all.contains(first) && all.contains(probe));
            assert(in_line(key, first, probe));
        }
    }
    assert(lower(t, kind, probe, t.rank[p] - 1) =~= Set::<PointerView>::empty());
}

/// Below a page of rank 0 there is nothing.
proof fn lemma_lowest(t: TreeView, kind: PakSearch, probe: ValueView, p: int)
    requires
        t.rank[p] == 0,
    ensures
        lower(t, kind, probe, t.rank[p] - 1) == Set::<PointerView>::empty(),
{
    let none = lower(t, kind, probe, t.rank[p] - 1);
    assert forall|pointer: PointerView| #[trigger] none.contains(pointer) implies false by {
        if none.contains(pointer) {
            let (x, i, j) = choose|x: int, i: int, j: int|
                #[trigger] found_at(t, kind, probe, x, i, j, pointer) && t.rank[x] <= t.rank[p]
                    - 1;
        }
    }
    assert(none =~= Set::<PointerView>::empty());
}

/// Where a search does not go on behind an entry of a page, the entries
/// behind it hold nothing that it looks for.
proof fn lemma_nothing_behind(t: TreeView, kind: PakSearch, probe: ValueView, p: int, at: int)
    requires
        t.sorted(),
        coherent(t.keys().insert(probe)),
        0 <= p < t.pages.len(),
        0 <= at < t.pages[p].entries.len(),
        !goes_on(kind, total_order(t.pages[p].entries[at].key, probe)),
    ensures
        own(t, kind, probe, p, at + 1) == Set::<PointerView>::empty(),
{
    let all = t.keys().insert(probe);
    let none = own(t, kind, probe, p, at + 1);
    assert forall|pointer: PointerView| #[trigger] none.contains(pointer) implies false by {
        if none.contains(pointer) {
            let (i, j) = choose|i: int, j: int|
                at + 1 <= i && #[trigger] found_at(t, kind, probe, p, i, j, pointer);
            lemma_rising(t, p, at, i);
            let here = t.pages[p].entries[at].key;
            let there = t.pages[p].entries[i].key;
            assert(t.keyed(p, at, here));
            assert(t.keyed(p, i, there));
            assert(all.contains(here) && all.contains(there) && all.contains(probe));
            assert(in_line(there, here, probe));
            assert(in_line(here, there, probe));
            assert(in_line(probe, here, there));
            assert(in_line(here, probe, there));
        }
    }
    assert(own(t, kind, probe, p, at + 1) =~= Set::<PointerView>::empty());
}

/// What the entries of a page from `at` on hold is what entry `at` holds
/// and what the entries behind it hold.
proof fn lemma_own_step(t: TreeView, kind: PakSearch, probe: ValueView, p: int, at: int)
    requires
        0 <= p < t.pages.len(),
        0 <= at < t.pages[p].entries.len(),
    ensures
        own(t, kind, probe, p, at) == (if hit(
            kind,
            total_order(t.pages[p].entries[at].key, probe),
        ) {
            t.pages[p].entries[at].values.to_set()
        } else {
            Set::empty()
        }).union(own(t, kind, probe, p, at + 1)),
{
    let e = t.pages[p].entries[at];
    let mine = if hit(kind, total_order(e.key, probe)) {
        e.values.to_set()
    } else {
        Set::empty()
    };
    let whole = own(t, kind, probe, p, at);
    let parts = mine.union(own(t, kind, probe, p, at + 1));
    assert forall|pointer: PointerView| whole.contains(pointer) <==> parts.contains(pointer) by {
        if whole.contains(pointer) {
            let (i, j) = choose|i: int, j: int|
                at <= i && #[trigger] found_at(t, kind, probe, p, i, j, pointer);
            if i == at {
                assert(e.values[j] == pointer);
                assert(mine.contains(pointer));
            } else {
                assert(at + 1 <= i && found_at(t, kind, probe, p, i, j, pointer));
            }
        }
        if mine.contains(pointer) {
            let j = choose|j: int| 0 <= j < e.values.len() && e.values[j] == pointer;
            assert(at <= at && found_at(t, kind, probe, p, at, j, pointer));
        }
        if own(t, kind, probe, p, at + 1).contains(pointer) {
            let (i, j) = choose|i: int, j: int|
                at + 1 <= i && #[trigger] found_at(t, kind, probe, p, i, j, pointer);
            assert(at <= i && found_at(t, kind, probe, p, i, j, pointer));
        }
    }
    assert(whole =~= parts);
}

/// Behind its last entry a page holds nothing.
proof fn lemma_own_end(t: TreeView, kind: PakSearch, probe: ValueView, p: int, at: int)
    requires
        0 <= p < t.pages.len(),
        at >= t.pages[p].entries.len(),
    ensures
        own(t, kind, probe, p, at) == Set::<PointerView>::empty(),
{
    assert(own(t, kind, probe, p, at) =~= Set::<PointerView>::empty());
}

/// A search of a persisted search tree finds, from a page on, what the
/// pages up to that page's rank hold under the keys that it looks for.
pub proof fn lemma_search_sorted(
    pak: PakView,
    table: Map<usize, PakUntypedPointer>,
    t: TreeView,
    index: usize,
    probe: ValueView,
    kind: PakSearch,
    fuel: nat,
)
    requires
        t.sorted(),
        shows(pak, table, t.pages),
        coherent(t.keys().insert(probe)),
        index < t.pages.len(),
        fuel > t.rank[index as int],
    ensures
        search(pak, table, index, probe, kind, fuel) == Ok::<Set<PointerView>, PakFault>(
            lower(t, kind, probe, t.rank[index as int] as int),
        ),
    decreases t.rank[index as int], 2nat, 0nat,
{
    assert(pak.page(table, (index as int) as usize) == Ok::<PageView, PakFault>(
        t.pages[index as int],
    ));
    lemma_scan_sorted(pak, table, t, index, 0, probe, kind, (fuel - 1) as nat);
    lemma_lower_step(t, kind, probe, index as int);
}

/// A scan of a page of a persisted search tree finds, from an entry on,
/// what the entries from there on hold and, where it starts at the first
/// entry, what the pages below hold.
pub proof fn lemma_scan_sorted(
    pak: PakView,
    table: Map<usize, PakUntypedPointer>,
    t: TreeView,
    index: usize,
    from: nat,
    probe: ValueView,
    kind: PakSearch,
    fuel: nat,
)
    requires
        t.sorted(),
        shows(pak, table, t.pages),
        coherent(t.keys().insert(probe)),
        index < t.pages.len(),
        fuel >= t.rank[index as int],
    ensures
        scan(pak, table, t.pages[index as int], from, probe, kind, fuel) == Ok::<
            Set<PointerView>,
            PakFault,
        >(
            own(t, kind, probe, index as int, from as int).union(
                if from == 0 {
                    lower(t, kind, probe, t.rank[index as int] - 1)
                } else {
                    Set::empty()
                },
            ),
        ),
    decreases t.rank[index as int],
        1nat,
        (if from < t.pages[index as int].entries.len() {
            t.pages[index as int].entries.len() - from
        } else {
            0
        }),
{
    let p = index as int;
    let page = t.pages[p];
    lemma_sorted_wf(t);
    lemma_wf_next(t, p);
    lemma_under(t, p, 0);
    let rest = if from == 0 {
        lower(t, kind, probe, t.rank[p] - 1)
    } else {
        Set::empty()
    };
    let goal = own(t, kind, probe, p, from as int).union(rest);
    if from >= page.entries.len() {
        lemma_own_end(t, kind, probe, p, from as int);
        if from == 0 {
            lemma_lowest(t, kind, probe, p);
        }
        assert(goal =~= Set::<PointerView>::empty());
    } else {
        let entry = page.entries[from as int];
        let order = total_order(entry.key, probe);
        let mine = if hit(kind, order) {
            entry.values.to_set()
        } else {
            Set::empty()
        };
        lemma_own_step(t, kind, probe, p, from as int);
        lemma_leafy(t, p, from as int);
        // What lies below the entry.
        let below = if from == 0 {
            lower(t, kind, probe, t.rank[p] - 1)
        } else {
            Set::empty()
        };
        if goes_below(kind, order) && entry.previous is Some {
            let c = entry.previous.unwrap();
            assert(from == 0);
            lemma_wf_edge(t, p, 0);
            lemma_search_sorted(pak, table, t, c, probe, kind, fuel);
        } else if from == 0 {
            if entry.previous is Some {
                lemma_nothing_below(t, kind, probe, p);
            } else {
                assert(t.child(p) is None);
                lemma_lowest(t, kind, probe, p);
            }
        }
        if goes_on(kind, order) {
            lemma_scan_sorted(pak, table, t, index, from + 1, probe, kind, fuel);
            assert(below.union(mine).union(own(t, kind, probe, p, from as int + 1).union(Set::empty()))
                =~= goal);
        } else {
            lemma_nothing_behind(t, kind, probe, p, from as int);
            assert(below.union(mine) =~= goal);
        }
    }
}

/// A search of a persisted search tree from its root, with as much fuel as
/// the tree has pages, finds what the tree holds under the keys that the
/// search looks for.
pub proof fn lemma_find_sorted(
    pak: PakView,
    table: Map<usize, PakUntypedPointer>,
    t: TreeView,
    probe: ValueView,
    kind: PakSearch,
    fuel: nat,
)
    requires
        t.sorted(),
        shows(pak, table, t.pages),
        coherent(t.keys().insert(probe)),
        fuel >= t.pages.len(),
    ensures
        search(pak, table, 0, probe, kind, fuel) == Ok::<Set<PointerView>, PakFault>(
            held(t, kind, probe),
        ),
{
    lemma_sorted_wf(t);
    lemma_search_sorted(pak, table, t, 0, probe, kind, fuel);
    lemma_lower_all(t, kind, probe);
}

} // verus!
