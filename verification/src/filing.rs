//! What a tree holds after entries were inserted into it one by one.
use vstd::prelude::*;
use crate::order::{coherent, in_line, lemma_coherent_subset};
use crate::page::{lemma_slot, EntryView};
use crate::pointer::PointerView;
use crate::search::{hit, PakSearch};
use crate::sorted::{
    filed_under, lemma_landing_sorted, lemma_pushed_sorted, lemma_sorted_wf, pairs_of, Filed,
};
use crate::split::{halved, lemma_halved_parts, lemma_resplit_sorted, splittable};
use crate::tree::{
    lemma_full_pages_update, lemma_inserted_step, lemma_pushed_wf, lemma_wf_next, TreeView,
};
use crate::value::{total_order, PakOrder, ValueView};

verus! {

/// The entry that files one pointer under a key.
pub open spec fn entry_for(key: ValueView, pointer: PointerView) -> EntryView {
    EntryView { key, values: seq![pointer], previous: None }
}

/// Inserting an entry into a search tree whose keys are coherent with the
/// entry's key gives a search tree that holds what the tree held and the
/// entry's pointers, under the entry's key or a key equal to it.
pub proof fn lemma_inserted_sorted(
    t: TreeView,
    trail: Seq<usize>,
    current: usize,
    e: EntryView,
    max: nat,
)
    requires
        t.sorted(),
        t.path_ok(trail, current),
        t.hangs(trail, current, e.key),
        t.sized(max, -1),
        coherent(t.keys().insert(e.key)),
        e.previous is None,
        e.values.len() > 0,
        max >= 2,
        max % 2 == 0,
        t.overfull(trail, current, e, max) ==> t.pages.len() < usize::MAX,
    ensures
        t.inserted(trail, current, e, max).0.sorted(),
        t.inserted(trail, current, e, max).0.sized(max, -1),
        t.inserted(trail, current, e, max).0.keys().subset_of(t.keys().insert(e.key)),
        exists|key: ValueView| #[trigger]
            filed_under(t, t.inserted(trail, current, e, max).0, key, e),
{
    let (tr, q) = t.landing(trail, current, e.key);
    let pushed = t.pushed(tr, q, e);
    lemma_sorted_wf(t);
    lemma_landing_sorted(t, trail, current, e.key);
    lemma_pushed_sorted(t, tr, q, e);
    lemma_pushed_wf(t, tr, q, e);
    lemma_inserted_step(t, trail, current, e, max);
    lemma_wf_next(t, q as int);
    lemma_slot(t.pages[q as int].entries, e.key);
    let key = choose|key: ValueView| #[trigger] filed_under(t, pushed, key, e);
    assert(t.pages[q as int].entries.len() <= max);
    assert forall|p: int| 0 <= p < pushed.pages.len() && p != q implies (#[trigger] pushed.pages[p]).entries.len()
        <= max by {
        assert(t.pages[p].entries.len() <= max);
    }
    if pushed.pages[q as int].entries.len() > max {
        lemma_full_pages_update(t.pages, q as int, pushed.pages[q as int], max);
        lemma_coherent_subset(t.keys().insert(e.key), pushed.keys());
        assert(splittable(pushed, tr, q, max));
        lemma_resplit_sorted(pushed, tr, q, max);
        let r = halved(pushed, tr, q, (max / 2) as int);
        lemma_halved_parts(pushed, tr, q, max);
        assert(filed_under(t, r, key, e));
        assert forall|p: int| 0 <= p < r.pages.len() implies (#[trigger] r.pages[p]).entries.len()
            <= max by {
            if p != q && p < pushed.pages.len() {
                assert(pushed.pages[p].entries.len() <= max);
            }
        }
    }
}

/// What was filed, in order: keys with the pointers filed under them.
pub open spec fn log_keys(log: Seq<Filed>) -> Set<ValueView> {
    Set::new(|key: ValueView| exists|j: int| 0 <= j < log.len() && #[trigger] log[j].0 == key)
}

/// The pair was filed as the `j`-th, under its key or a key equal to it.
pub open spec fn logged(log: Seq<Filed>, j: int, pair: Filed) -> bool {
    0 <= j < log.len() && log[j].1 == pair.1 && total_order(log[j].0, pair.0) == PakOrder::Equal
}

/// The tree holds `pointer` under `key`, and `key` is equal to `wanted`.
pub open spec fn kept(t: TreeView, key: ValueView, wanted: ValueView, pointer: PointerView) -> bool {
    t.pairs().contains((key, pointer)) && total_order(key, wanted) == PakOrder::Equal
}

/// The tree holds the pair.
pub open spec fn has(t: TreeView, pair: Filed) -> bool {
    t.pairs().contains(pair)
}

/// Something was filed as the `j`-th.
pub open spec fn nth(log: Seq<Filed>, j: int) -> bool {
    0 <= j < log.len()
}

/// The tree holds exactly what was filed: every pointer of the tree was
/// filed under a key equal to the one it is held under, and everything filed
/// is held under a key equal to the one it was filed under.
#[verifier::opaque]
pub open spec fn agrees(t: TreeView, log: Seq<Filed>) -> bool {
    &&& t.keys().subset_of(log_keys(log))
    &&& forall|pair: Filed| #[trigger] has(t, pair) ==> exists|j: int| #[trigger] logged(log, j, pair)
    &&& forall|j: int| #[trigger]
        nth(log, j) ==> exists|key: ValueView| #[trigger] kept(t, key, log[j].0, log[j].1)
}

/// Where the keys that were filed are coherent, the tree is a search tree
/// that holds exactly what was filed.
pub open spec fn faithful(t: TreeView, log: Seq<Filed>) -> bool {
    coherent(log_keys(log)) ==> t.sorted() && agrees(t, log)
}

/// What is held was filed.
pub proof fn lemma_agrees_held(t: TreeView, log: Seq<Filed>, pair: Filed) -> (j: int)
    requires
        agrees(t, log),
        t.pairs().contains(pair),
    ensures
        logged(log, j, pair),
{
    reveal(agrees);
    assert(has(t, pair));
    choose|j: int| #[trigger] logged(log, j, pair)
}

/// What was filed is held.
pub proof fn lemma_agrees_filed(t: TreeView, log: Seq<Filed>, j: int) -> (key: ValueView)
    requires
        agrees(t, log),
        0 <= j < log.len(),
    ensures
        kept(t, key, log[j].0, log[j].1),
{
    reveal(agrees);
    assert(nth(log, j));
    choose|key: ValueView| #[trigger] kept(t, key, log[j].0, log[j].1)
}

/// The keys of a tree that agrees with what was filed are keys that were filed.
pub proof fn lemma_agrees_keys(t: TreeView, log: Seq<Filed>)
    requires
        agrees(t, log),
    ensures
        t.keys().subset_of(log_keys(log)),
{
    reveal(agrees);
}

/// An empty tree agrees with an empty log.
pub proof fn lemma_agrees_empty(t: TreeView)
    requires
        t.pages.len() == 1,
        t.pages[0].entries.len() == 0,
    ensures
        agrees(t, Seq::empty()),
{
    reveal(agrees);
    assert forall|k: ValueView| t.keys().contains(k) implies log_keys(Seq::empty()).contains(
        k,
    ) by {
        let (p, i) = choose|p: int, i: int| t.keyed(p, i, k);
    }
    assert forall|pair: Filed| #[trigger] has(t, pair) implies exists|j: int| #[trigger]
        logged(Seq::empty(), j, pair) by {
        let (p, i, j) = choose|p: int, i: int, j: int| t.holds(p, i, j, pair);
    }
}

/// The keys that were filed, after one more was.
proof fn lemma_log_keys_push(log: Seq<Filed>, pair: Filed)
    ensures
        log_keys(log.push(pair)) == log_keys(log).insert(pair.0),
{
    let more = log.push(pair);
    assert forall|k: ValueView| log_keys(more).contains(k) <==> log_keys(log).insert(
        pair.0,
    ).contains(k) by {
        if log_keys(more).contains(k) {
            let j = choose|j: int| 0 <= j < more.len() && #[trigger] more[j].0 == k;
            if j < log.len() {
                assert(log[j].0 == k);
            }
        }
        if log_keys(log).contains(k) {
            let j = choose|j: int| 0 <= j < log.len() && #[trigger] log[j].0 == k;
            assert(more[j].0 == k);
        }
        if k == pair.0 {
            assert(more[log.len() as int].0 == k);
        }
    }
    assert(log_keys(more) =~= log_keys(log).insert(pair.0));
}

/// After one more pair was filed and is held, what is held was filed.
proof fn lemma_more_held(
    t: TreeView,
    r: TreeView,
    log: Seq<Filed>,
    key: ValueView,
    wanted: ValueView,
    pointer: PointerView,
    pair: Filed,
) -> (j: int)
    requires
        agrees(t, log),
        filed_under(t, r, key, entry_for(wanted, pointer)),
        total_order(wanted, key) == PakOrder::Equal,
        r.pairs().contains(pair),
    ensures
        logged(log.push((wanted, pointer)), j, pair),
{
    let more = log.push((wanted, pointer));
    if t.pairs().contains(pair) {
        let j = lemma_agrees_held(t, log, pair);
        assert(more[j] == log[j]);
        j
    } else {
        assert(pairs_of(key, seq![pointer]).contains(pair));
        assert(more[log.len() as int] == (wanted, pointer));
        log.len() as int
    }
}

/// After one more pair was filed and is held, what was filed is held.
proof fn lemma_more_filed(
    t: TreeView,
    r: TreeView,
    log: Seq<Filed>,
    key: ValueView,
    wanted: ValueView,
    pointer: PointerView,
    j: int,
) -> (k: ValueView)
    requires
        agrees(t, log),
        filed_under(t, r, key, entry_for(wanted, pointer)),
        0 <= j <= log.len(),
    ensures
        kept(r, k, log.push((wanted, pointer))[j].0, log.push((wanted, pointer))[j].1),
{
    let more = log.push((wanted, pointer));
    if j < log.len() {
        assert(more[j] == log[j]);
        lemma_agrees_filed(t, log, j)
    } else {
        assert(more[j] == (wanted, pointer));
        assert(seq![pointer][0] == pointer);
        assert(pairs_of(key, seq![pointer]).contains((key, pointer)));
        key
    }
}

/// A tree that agrees with what was filed still does after one more pair
/// was filed and is held.
pub proof fn lemma_agrees_more(
    t: TreeView,
    r: TreeView,
    log: Seq<Filed>,
    key: ValueView,
    wanted: ValueView,
    pointer: PointerView,
)
    requires
        agrees(t, log),
        coherent(log_keys(log.push((wanted, pointer)))),
        r.keys().subset_of(t.keys().insert(wanted)),
        filed_under(t, r, key, entry_for(wanted, pointer)),
    ensures
        agrees(r, log.push((wanted, pointer))),
{
    let more = log.push((wanted, pointer));
    lemma_log_keys_push(log, (wanted, pointer));
    lemma_agrees_keys(t, log);
    assert(in_line(key, wanted, wanted)) by {
        assert(r.keys().contains(key));
        assert(log_keys(more).contains(key));
        assert(log_keys(more).contains(wanted));
    }
    assert forall|pair: Filed| #[trigger] has(r, pair) implies exists|j: int| #[trigger]
        logged(more, j, pair) by {
        let j = lemma_more_held(t, r, log, key, wanted, pointer, pair);
    }
    assert forall|j: int| #[trigger] nth(more, j) implies exists|k: ValueView| #[trigger]
        kept(r, k, more[j].0, more[j].1) by {
        let k = lemma_more_filed(t, r, log, key, wanted, pointer, j);
    }
    reveal(agrees);
}

/// Filing one more pair in a faithful tree, from the root, leaves it faithful.
pub proof fn lemma_faithful_more(
    t: TreeView,
    log: Seq<Filed>,
    wanted: ValueView,
    pointer: PointerView,
    max: nat,
)
    requires
        faithful(t, log),
        t.wf(),
        t.sized(max, -1),
        max >= 2,
        max % 2 == 0,
        t.overfull(Seq::empty(), 0, entry_for(wanted, pointer), max) ==> t.pages.len()
            < usize::MAX,
    ensures
        faithful(
            t.inserted(Seq::empty(), 0, entry_for(wanted, pointer), max).0,
            log.push((wanted, pointer)),
        ),
{
    let more = log.push((wanted, pointer));
    let e = entry_for(wanted, pointer);
    let r = t.inserted(Seq::empty(), 0, e, max).0;
    if coherent(log_keys(more)) {
        lemma_log_keys_push(log, (wanted, pointer));
        lemma_coherent_subset(log_keys(more), log_keys(log));
        lemma_agrees_keys(t, log);
        lemma_coherent_subset(log_keys(more), t.keys().insert(wanted));
        crate::tree::lemma_wf_len(t);
        lemma_inserted_sorted(t, Seq::empty(), 0, e, max);
        let key = choose|key: ValueView| #[trigger] filed_under(t, r, key, e);
        lemma_agrees_more(t, r, log, key, wanted, pointer);
    }
}

/// The tree holds `pointer` under a key that the search looks for.
pub open spec fn holds_hit(t: TreeView, kind: PakSearch, probe: ValueView, key: ValueView, pointer: PointerView) -> bool {
    t.pairs().contains((key, pointer)) && hit(kind, total_order(key, probe))
}

/// The pointers that the tree holds under keys that a search looks for.
pub open spec fn held(t: TreeView, kind: PakSearch, probe: ValueView) -> Set<PointerView> {
    Set::new(
        |pointer: PointerView|
            exists|key: ValueView| #[trigger] holds_hit(t, kind, probe, key, pointer),
    )
}

/// The `j`-th that was filed is `pointer`, under a key that the search looks for.
pub open spec fn filed_hit(log: Seq<Filed>, kind: PakSearch, probe: ValueView, j: int, pointer: PointerView) -> bool {
    0 <= j < log.len() && log[j].1 == pointer && hit(kind, total_order(log[j].0, probe))
}

/// The pointers that were filed under keys that a search looks for.
pub open spec fn filed_hits(log: Seq<Filed>, kind: PakSearch, probe: ValueView) -> Set<
    PointerView,
> {
    Set::new(
        |pointer: PointerView| exists|j: int| #[trigger] filed_hit(log, kind, probe, j, pointer),
    )
}

/// What the tree holds under a key that a search looks for was filed under such a key.
proof fn lemma_held_was_filed(
    t: TreeView,
    log: Seq<Filed>,
    kind: PakSearch,
    probe: ValueView,
    key: ValueView,
    pointer: PointerView,
) -> (j: int)
    requires
        agrees(t, log),
        coherent(log_keys(log).insert(probe)),
        holds_hit(t, kind, probe, key, pointer),
    ensures
        filed_hit(log, kind, probe, j, pointer),
{
    let all = log_keys(log).insert(probe);
    let j = lemma_agrees_held(t, log, (key, pointer));
    lemma_agrees_keys(t, log);
    let (p, i, k) = choose|p: int, i: int, k: int| t.holds(p, i, k, (key, pointer));
    assert(t.keyed(p, i, key));
    assert(t.keys().contains(key));
    assert(all.contains(key) && all.contains(log[j].0) && all.contains(probe));
    assert(in_line(log[j].0, key, probe));
    j
}

/// What was filed under a key that a search looks for is held under such a key.
proof fn lemma_filed_is_held(
    t: TreeView,
    log: Seq<Filed>,
    kind: PakSearch,
    probe: ValueView,
    j: int,
    pointer: PointerView,
) -> (key: ValueView)
    requires
        agrees(t, log),
        coherent(log_keys(log).insert(probe)),
        filed_hit(log, kind, probe, j, pointer),
    ensures
        holds_hit(t, kind, probe, key, pointer),
{
    let all = log_keys(log).insert(probe);
    let key = lemma_agrees_filed(t, log, j);
    lemma_agrees_keys(t, log);
    let (p, i, k) = choose|p: int, i: int, k: int| t.holds(p, i, k, (key, pointer));
    assert(t.keyed(p, i, key));
    assert(t.keys().contains(key));
    assert(all.contains(key) && all.contains(log[j].0) && all.contains(probe));
    assert(in_line(key, log[j].0, probe));
    key
}

/// A tree that agrees with what was filed holds, for every search whose
/// value is coherent with the filed keys, the pointers filed under the keys
/// that the search looks for.
pub proof fn lemma_held_is_filed(t: TreeView, log: Seq<Filed>, kind: PakSearch, probe: ValueView)
    requires
        agrees(t, log),
        coherent(log_keys(log).insert(probe)),
    ensures
        held(t, kind, probe) == filed_hits(log, kind, probe),
{
    assert forall|pointer: PointerView|
        held(t, kind, probe).contains(pointer) <==> filed_hits(log, kind, probe).contains(
            pointer,
        ) by {
        if held(t, kind, probe).contains(pointer) {
            let key = choose|key: ValueView| #[trigger] holds_hit(t, kind, probe, key, pointer);
            let j = lemma_held_was_filed(t, log, kind, probe, key, pointer);
        }
        if filed_hits(log, kind, probe).contains(pointer) {
            let j = choose|j: int| #[trigger] filed_hit(log, kind, probe, j, pointer);
            let key = lemma_filed_is_held(t, log, kind, probe, j, pointer);
        }
    }
    assert(held(t, kind, probe) =~= filed_hits(log, kind, probe));
}

} // verus!
