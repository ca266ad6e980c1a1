//! Pages whose keys rise, and that filing an entry keeps them so.
use vstd::prelude::*;
use crate::order::{coherent, in_line};
use crate::page::{lemma_slot, push_outcome, pushed_page, EntryView, PageView, PushOutcome};
use crate::tree::TreeView;
use crate::value::{total_order, PakOrder, ValueView};

verus! {

/// The key of entry `i` is below the key of entry `j`.
pub open spec fn below(entries: Seq<EntryView>, i: int, j: int) -> bool {
    total_order(entries[i].key, entries[j].key) == PakOrder::Less
}

/// The keys rise strictly from entry to entry.
pub open spec fn rises(entries: Seq<EntryView>) -> bool {
    forall|i: int, j: int| 0 <= i < j < entries.len() ==> #[trigger] below(entries, i, j)
}

/// Every key of the entries is one of `keys`.
pub open spec fn keys_among(entries: Seq<EntryView>, keys: Set<ValueView>) -> bool {
    forall|i: int| 0 <= i < entries.len() ==> keys.contains((#[trigger] entries[i]).key)
}

impl TreeView {
    /// The keys of every page rise strictly from entry to entry.
    pub open spec fn all_rising(self) -> bool {
        forall|p: int| 0 <= p < self.pages.len() ==> rises((#[trigger] self.pages[p]).entries)
    }

    /// Every key of the tree is one of `keys`.
    pub open spec fn keys_in(self, keys: Set<ValueView>) -> bool {
        forall|p: int|
            0 <= p < self.pages.len() ==> keys_among((#[trigger] self.pages[p]).entries, keys)
    }

    /// Filing an entry with the key `key` led from this tree to `after`
    /// without disorder: if the keys of every page rose before, and the keys
    /// of the tree and `key` are ordered among each other, then the keys of
    /// every page of `after` rise, and `after` has no other keys.
    #[verifier::opaque]
    pub open spec fn keeps_rising(self, after: TreeView, key: ValueView) -> bool {
        forall|keys: Set<ValueView>|
            self.all_rising() && #[trigger] self.keys_in(keys) && keys.contains(key) && coherent(keys)
                ==> after.all_rising() && after.keys_in(keys)
    }

    /// Splitting a page led from this tree to `after` without disorder: if
    /// the keys of every page rose before and are ordered among each other,
    /// then the keys of every page of `after` rise, and `after` has no other
    /// keys.
    #[verifier::opaque]
    pub open spec fn stays_rising(self, after: TreeView) -> bool {
        forall|keys: Set<ValueView>|
            self.all_rising() && #[trigger] self.keys_in(keys) && coherent(keys)
                ==> after.all_rising() && after.keys_in(keys)
    }
}

/// A page whose keys rise lets an entry in at its slot without disorder.
proof fn lemma_inserted_rises(old: Seq<EntryView>, e: EntryView, s: int, keys: Set<ValueView>)
    requires
        rises(old),
        keys_among(old, keys),
        keys.contains(e.key),
        coherent(keys),
        0 <= s <= old.len(),
        forall|j: int| 0 <= j < s ==> total_order(#[trigger] old[j].key, e.key) == PakOrder::Less,
        s < old.len() ==> total_order(old[s].key, e.key) == PakOrder::Greater,
    ensures
        rises(old.insert(s, e)),
        keys_among(old.insert(s, e), keys),
{
    let new = old.insert(s, e);
    assert forall|i: int| 0 <= i < new.len() implies keys.contains((#[trigger] new[i]).key) by {
        if i < s {
            assert(new[i] == old[i]);
        } else if i > s {
            assert(new[i] == old[i - 1]);
        }
    }
    assert forall|i: int, j: int| 0 <= i < j < new.len() implies #[trigger] below(new, i, j) by {
        if j < s {
            assert(new[i] == old[i] && new[j] == old[j]);
            assert(below(old, i, j));
        } else if j == s {
            assert(new[i] == old[i]);
        } else if i > s {
            assert(new[i] == old[i - 1] && new[j] == old[j - 1]);
            assert(below(old, i - 1, j - 1));
        } else if i < s {
            assert(new[i] == old[i] && new[j] == old[j - 1]);
            assert(below(old, i, j - 1));
        } else {
            assert(new[j] == old[j - 1]);
            assert(keys.contains(old[s].key) && keys.contains(old[j - 1].key));
            assert(in_line(e.key, old[s].key, old[j - 1].key));
            if j - 1 > s {
                assert(below(old, s, j - 1));
            }
        }
    }
}

/// A page whose keys rise takes an entry in without disorder.
pub proof fn lemma_pushed_page_rises(page: PageView, e: EntryView, keys: Set<ValueView>)
    requires
        rises(page.entries),
        keys_among(page.entries, keys),
        keys.contains(e.key),
        coherent(keys),
    ensures
        rises(pushed_page(page, e).entries),
        keys_among(pushed_page(page, e).entries, keys),
{
    let old = page.entries;
    let new = pushed_page(page, e).entries;
    lemma_slot(old, e.key);
    match push_outcome(page, e.key) {
        PushOutcome::Descend(_) => {},
        PushOutcome::Merged(s) => {
            assert forall|i: int, j: int| 0 <= i < j < new.len() implies #[trigger] below(
                new,
                i,
                j,
            ) by {
                assert(new[i].key == old[i].key && new[j].key == old[j].key);
                assert(below(old, i, j));
            }
            assert forall|i: int| 0 <= i < new.len() implies keys.contains(
                (#[trigger] new[i]).key,
            ) by {
                assert(new[i].key == old[i].key);
            }
        },
        PushOutcome::Inserted(s) => {
            lemma_inserted_rises(old, e, s, keys);
        },
    }
}

/// A tree whose pages rise takes an entry in without disorder, whichever
/// page takes it.
pub proof fn lemma_pushed_keeps(t: TreeView, trail: Seq<usize>, q: usize, e: EntryView)
    requires
        q < t.pages.len(),
    ensures
        t.keeps_rising(t.pushed(trail, q, e), e.key),
{
    reveal(TreeView::keeps_rising);
    reveal(TreeView::pushed);
    let after = t.pushed(trail, q, e);
    assert(after.pages == t.pages.update(q as int, pushed_page(t.pages[q as int], e)));
    assert forall|keys: Set<ValueView>|
        t.all_rising() && #[trigger] t.keys_in(keys) && keys.contains(e.key) && coherent(
            keys,
        ) implies after.all_rising() && after.keys_in(keys) by {
        lemma_pushed_page_rises(t.pages[q as int], e, keys);
        assert forall|p: int| 0 <= p < after.pages.len() implies rises(
            (#[trigger] after.pages[p]).entries,
        ) && keys_among(after.pages[p].entries, keys) by {
            if p != q {
                assert(after.pages[p] == t.pages[p]);
            }
        }
    }
}

/// The parts of a split page rise as the page did, and the median between
/// them has one of the page's keys.
pub proof fn lemma_split_keeps(t: TreeView, current: usize, half: int, keys: Set<ValueView>)
    requires
        current < t.pages.len(),
        0 <= half,
        half < t.pages[current as int].entries.len(),
        t.all_rising(),
        t.keys_in(keys),
    ensures
        t.split(current, half).all_rising(),
        t.split(current, half).keys_in(keys),
        keys.contains(t.median(current, half).key),
{
    reveal(TreeView::split);
    let after = t.split(current, half);
    let page = t.pages[current as int].entries;
    let n = t.pages.len() as int;
    assert(keys.contains(page[half].key));
    assert forall|p: int| 0 <= p < after.pages.len() implies rises(
        (#[trigger] after.pages[p]).entries,
    ) && keys_among(after.pages[p].entries, keys) by {
        let part = after.pages[p].entries;
        if p == n {
            assert(part == page.subrange(0, half));
            assert forall|i: int, j: int| 0 <= i < j < part.len() implies #[trigger] below(
                part,
                i,
                j,
            ) by {
                assert(below(page, i, j));
            }
        } else if p == current {
            assert(part == page.subrange(half + 1, page.len() as int));
            assert forall|i: int, j: int| 0 <= i < j < part.len() implies #[trigger] below(
                part,
                i,
                j,
            ) by {
                assert(below(page, i + half + 1, j + half + 1));
            }
        } else {
            assert(after.pages[p] == t.pages[p]);
        }
    }
}

/// A split whose median is filed again without disorder is a split
/// without disorder.
pub proof fn lemma_resplit_stays(t: TreeView, current: usize, half: int, after: TreeView)
    requires
        current < t.pages.len(),
        0 <= half,
        half < t.pages[current as int].entries.len(),
        t.split(current, half).keeps_rising(after, t.median(current, half).key),
    ensures
        t.stays_rising(after),
{
    reveal(TreeView::keeps_rising);
    reveal(TreeView::stays_rising);
    let s = t.split(current, half);
    assert forall|keys: Set<ValueView>|
        t.all_rising() && #[trigger] t.keys_in(keys) && coherent(keys) implies after.all_rising()
        && after.keys_in(keys) by {
        lemma_split_keeps(t, current, half, keys);
        assert(s.keys_in(keys));
    }
}

/// An entry that is filed without disorder, in a page that is then split
/// without disorder, is filed without disorder.
pub proof fn lemma_keeps_then_stays(t: TreeView, between: TreeView, after: TreeView, key: ValueView)
    requires
        t.keeps_rising(between, key),
        between.stays_rising(after),
    ensures
        t.keeps_rising(after, key),
{
    reveal(TreeView::keeps_rising);
    reveal(TreeView::stays_rising);
    assert forall|keys: Set<ValueView>|
        t.all_rising() && #[trigger] t.keys_in(keys) && keys.contains(key) && coherent(
            keys,
        ) implies after.all_rising() && after.keys_in(keys) by {
        assert(between.keys_in(keys));
    }
}

/// What it means that an entry was filed without disorder.
///
/// Take a tree in which the keys of every page rise, and a set of values
/// that are ordered among each other and hold the keys of the tree and the
/// key of the entry. Then in the tree that holds the entry the keys of every
/// page rise, so that no key stands twice in a page, and the set holds its
/// keys.
pub proof fn lemma_rising_kept(t: TreeView, after: TreeView, key: ValueView, keys: Set<ValueView>)
    requires
        t.keeps_rising(after, key),
        t.all_rising(),
        t.keys_in(keys),
        keys.contains(key),
        coherent(keys),
    ensures
        after.all_rising(),
        after.keys_in(keys),
{
    reveal(TreeView::keeps_rising);
}

} // verus!
