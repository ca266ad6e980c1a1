//! What a reader finds in the artifact that a builder laid out.
use vstd::prelude::*;
use crate::artifact::{opened, page_table, IndexSlotView, PakView};
use crate::btree::{slots_of, with_pages, with_tree};
use crate::builder::{
    empty_tree, filed, filed_item, gathered, place_of, tree_sound, with_trees, BuilderView,
    IndexTreeView, PAGE_SIZE, ReferenceView,
};
use crate::error::{PakFault, PakResult};
use crate::filing::{filed_hit, filed_hits, lemma_agrees_keys, lemma_held_is_filed, log_keys};
use crate::finding::{lemma_find_sorted, shows};
use crate::layout::{
    distinct_keys, lemma_directory_lookup, lemma_lies_on, lemma_page_lies, lemma_page_table,
    lemma_place_of, lemma_table_lies, lemma_with_pages_grows, lemma_with_trees_more, lies_at,
};
use crate::meta::lemma_sizing_length;
use crate::order::{
    coherent, kind_of, lemma_coherent_subset, lemma_one_kind_coherent,
    lemma_plain_integers_coherent, plain_integer, ValueKind,
};
use crate::item::PakItemDeserialize;
use crate::page::PageView;
use crate::pak::read_as;
use crate::pointer::{PakPointerView, PakUntypedPointer, PointerView};
use crate::query::{answer, compared, QueryView};
use crate::search::{hit, search, PakSearch};
use crate::sorted::Filed;
use crate::source::part;
use crate::value::{total_order, ValueView};
use crate::wire::{blob_bytes, counted_bytes, lemma_counted_round_trip, lemma_u64_round_trip, Wire};

verus! {

impl BuilderView {
    /// What a reader has in hand once it opened the builder's artifact.
    pub open spec fn pak(self) -> PakView {
        PakView { sizing: self.sizing(), meta: self.meta(), bytes: self.artifact() }
    }
}

/// The four parts of the artifact and where they lie in it.
proof fn lemma_artifact_parts(b: BuilderView)
    requires
        b.sound(),
    ensures
        b.sizing().bytes().len() == 24,
        b.sizing().meta_size == b.meta().bytes().len(),
        b.sizing().indices_size == counted_bytes(b.directory()).len(),
        b.sizing().vault_size == 8 + b.packed().vault.len(),
        part(b.artifact(), 0, 24) == Some(b.sizing().bytes()),
        part(b.artifact(), 24, b.sizing().meta_size as int) == Some(b.meta().bytes()),
        part(b.artifact(), b.pak().indices_start(), b.sizing().indices_size as int) == Some(
            counted_bytes(b.directory()),
        ),
        b.pak().wf(),
        b.pak().vault_start() + b.packed().vault.len() == b.artifact().len(),
        forall|i: int|
            0 <= i < b.packed().vault.len() ==> #[trigger] b.artifact()[b.pak().vault_start() + i]
                == b.packed().vault[i],
{
    let s = b.sizing().bytes();
    let m = b.meta().bytes();
    let d = counted_bytes(b.directory());
    let v = b.packed().vault;
    let all = b.artifact();
    lemma_sizing_length(b.sizing());
    lemma_u64_round_trip(v.len() as u64, v);
    assert(blob_bytes(v).len() == 8 + v.len());
    assert(all.subrange(0, 24) =~= s);
    let ml = m.len() as int;
    let dl = d.len() as int;
    assert(all.subrange(24, 24 + ml) =~= m);
    assert(all.subrange(24 + ml, 24 + ml + dl) =~= d);
}

/// Opening the artifact finds the sizes and the metadata that the builder wrote.
pub proof fn lemma_artifact_opens(b: BuilderView)
    requires
        b.sound(),
    ensures
        opened(b.artifact()) == Ok::<PakView, PakFault>(b.pak()),
        b.pak().wf(),
{
    lemma_artifact_parts(b);
    b.sizing().lemma_round_trip(Seq::empty());
    assert(b.sizing().bytes() + Seq::<u8>::empty() =~= b.sizing().bytes());
    b.meta().lemma_round_trip(Seq::empty());
    assert(b.meta().bytes() + Seq::<u8>::empty() =~= b.meta().bytes());
}

/// The reader finds the directory that the builder wrote.
pub proof fn lemma_artifact_directory(b: BuilderView)
    requires
        b.sound(),
    ensures
        b.pak().directory() == Ok::<Seq<IndexSlotView>, PakFault>(b.directory()),
{
    lemma_artifact_parts(b);
    lemma_counted_round_trip(b.directory(), Seq::empty());
    assert(counted_bytes(b.directory()) + Seq::<u8>::empty() =~= counted_bytes(b.directory()));
}

/// The reader finds what lies in the vault where it lies.
pub proof fn lemma_artifact_item(b: BuilderView, offset: int, bytes: Seq<u8>)
    requires
        b.sound(),
        lies_at(b.packed().vault, offset, bytes),
    ensures
        b.pak().item(offset as u64, bytes.len() as u64) == Ok::<Seq<u8>, PakFault>(bytes),
{
    lemma_artifact_parts(b);
    let start = b.pak().vault_start();
    let got = b.artifact().subrange(start + offset, start + offset + bytes.len());
    assert(got =~= bytes) by {
        assert forall|i: int| 0 <= i < bytes.len() implies got[i] == bytes[i] by {
            assert(b.artifact()[start + (offset + i)] == b.packed().vault[offset + i]);
            assert(b.packed().vault.subrange(offset, offset + bytes.len())[i]
                == b.packed().vault[offset + i]);
        }
    }
}

/// The builder before tree `k` was persisted in it.
pub open spec fn before_tree(b: BuilderView, k: int) -> BuilderView {
    with_trees(b, b.trees(), k as nat)
}

/// The page table of tree `k` as the builder persisted it.
pub open spec fn table_of(b: BuilderView, k: int) -> Map<usize, PakUntypedPointer> {
    page_table(slots_of(before_tree(b, k), b.trees()[k].tree.pages, b.trees()[k].tree.pages.len()))
}

/// What lies in the vault once tree `k` was persisted lies in the vault of
/// the artifact.
proof fn lemma_tree_kept(b: BuilderView, k: int, offset: int, bytes: Seq<u8>)
    requires
        b.sound(),
        0 <= k < b.trees().len(),
        lies_at(with_tree(before_tree(b, k), b.trees()[k].tree.pages).vault, offset, bytes),
    ensures
        lies_at(b.packed().vault, offset, bytes),
        b.pak().item(offset as u64, bytes.len() as u64) == Ok::<Seq<u8>, PakFault>(bytes),
{
    lemma_with_trees_more(b, b.trees(), (k + 1) as nat, b.trees().len());
    lemma_lies_on(
        with_tree(before_tree(b, k), b.trees()[k].tree.pages).vault,
        b.packed().vault,
        offset,
        bytes,
    );
    lemma_artifact_item(b, offset, bytes);
}

/// The reader finds the pages of tree `k` under the tree's page table.
pub proof fn lemma_artifact_pages(b: BuilderView, k: int)
    requires
        b.sound(),
        0 <= k < b.trees().len(),
    ensures
        shows(b.pak(), table_of(b, k), b.trees()[k].tree.pages),
        table_of(b, k).dom().finite(),
        table_of(b, k).dom().len() == b.trees()[k].tree.pages.len(),
{
    let tree = b.trees()[k];
    let pages = tree.tree.pages;
    let before = before_tree(b, k);
    let slots = slots_of(before, pages, pages.len());
    let table = table_of(b, k);
    assert(tree_sound(tree));
    crate::tree::lemma_wf_len(tree.tree);
    lemma_artifact_parts(b);
    lemma_page_table(before, pages, pages.len());
    assert forall|i: int| 0 <= i < pages.len() implies #[trigger] b.pak().page(
        table,
        i as usize,
    ) == Ok::<PageView, PakFault>(pages[i]) by {
        let offset = with_pages(before, pages, i as nat).vault.len() as int;
        lemma_page_lies(before, pages, i);
        lemma_tree_kept(b, k, offset, pages[i].bytes());
        assert(table[i as usize] == slots[i].pointer);
        pages[i].lemma_round_trip(Seq::empty());
        assert(pages[i].bytes() + Seq::<u8>::empty() =~= pages[i].bytes());
    }
}

/// The reader finds the page table of tree `k` under the tree's key,
/// provided that no two trees have the same key.
pub proof fn lemma_artifact_tree(b: BuilderView, k: int)
    requires
        b.sound(),
        distinct_keys(b.trees()),
        0 <= k < b.trees().len(),
    ensures
        b.pak().tree(b.trees()[k].key) == Ok::<Map<usize, PakUntypedPointer>, PakFault>(
            table_of(b, k),
        ),
{
    let trees = b.trees();
    let tree = trees[k];
    let pages = tree.tree.pages;
    let before = before_tree(b, k);
    let slots = slots_of(before, pages, pages.len());
    let directory = b.directory();
    assert(tree_sound(tree));
    crate::tree::lemma_wf_len(tree.tree);
    lemma_artifact_parts(b);
    lemma_artifact_directory(b);
    lemma_directory_lookup(directory, trees, tree.key);
    lemma_place_of(trees, tree.key);
    assert(place_of(trees, tree.key) == k) by {
        let at = place_of(trees, tree.key);
        if at != k {
            if at < k {
                assert(trees[at].key != trees[k].key);
            }
        }
    }
    let offset = with_pages(before, pages, pages.len()).vault.len() as int;
    lemma_table_lies(before, pages);
    lemma_tree_kept(b, k, offset, counted_bytes(slots));
    lemma_counted_round_trip(slots, Seq::empty());
    assert(counted_bytes(slots) + Seq::<u8>::empty() =~= counted_bytes(slots));
}

/// The reader finds no page table under a key that no tree has.
pub proof fn lemma_artifact_no_tree(b: BuilderView, key: Seq<char>)
    requires
        b.sound(),
        distinct_keys(b.trees()),
        place_of(b.trees(), key) == b.trees().len(),
    ensures
        b.pak().tree(key) == Err::<Map<usize, PakUntypedPointer>, PakFault>(
            PakFault::IndexMissing,
        ),
{
    lemma_artifact_directory(b);
    lemma_directory_lookup(b.directory(), b.trees(), key);
}

/// Index entry `k` of item `i` was filed when the first `count` items and
/// the first `extra` entries of the next were.
pub open spec fn filed_before(
    chunks: Seq<ReferenceView>,
    count: int,
    extra: int,
    i: int,
    k: int,
) -> bool {
    &&& 0 <= i < chunks.len()
    &&& 0 <= k < chunks[i].indices.len()
    &&& (i < count || (i == count && k < extra))
}

/// Index entry `k` of item `i` files the item under `key`, as `pair` says.
pub open spec fn files(chunks: Seq<ReferenceView>, key: Seq<char>, i: int, k: int, pair: Filed) -> bool {
    chunks[i].indices[k].key == key && pair == (chunks[i].indices[k].value, chunks[i].pointer)
}

/// Something is logged as `pair`.
pub open spec fn in_log(log: Seq<Filed>, j: int, pair: Filed) -> bool {
    0 <= j < log.len() && log[j] == pair
}

/// Index entry `k` of item `i` was filed, under `key`, as `pair` says.
pub open spec fn source(
    chunks: Seq<ReferenceView>,
    count: int,
    extra: int,
    key: Seq<char>,
    i: int,
    k: int,
    pair: Filed,
) -> bool {
    filed_before(chunks, count, extra, i, k) && files(chunks, key, i, k, pair)
}

/// The log has a `j`-th line.
pub open spec fn line(log: Seq<Filed>, j: int) -> bool {
    0 <= j < log.len()
}

/// The log lists exactly what was filed under `key`.
pub open spec fn covers(
    log: Seq<Filed>,
    chunks: Seq<ReferenceView>,
    count: int,
    extra: int,
    key: Seq<char>,
) -> bool {
    &&& forall|j: int| #[trigger]
        line(log, j) ==> exists|i: int, k: int| #[trigger]
            source(chunks, count, extra, key, i, k, log[j])
    &&& forall|i: int, k: int, pair: Filed| #[trigger]
        source(chunks, count, extra, key, i, k, pair) ==> exists|j: int| #[trigger]
            in_log(log, j, pair)
}

/// The trees keep track of what was filed under `key`: the tree for the key
/// logs exactly that, and there is no such tree where nothing was filed.
pub open spec fn tracks(
    trees: Seq<IndexTreeView>,
    chunks: Seq<ReferenceView>,
    count: int,
    extra: int,
    key: Seq<char>,
) -> bool {
    let at = place_of(trees, key);
    if at < trees.len() {
        covers(trees[at].log, chunks, count, extra, key)
    } else {
        forall|i: int, k: int| #[trigger]
            filed_before(chunks, count, extra, i, k) ==> chunks[i].indices[k].key != key
    }
}

/// The place of a key among trees, told by what the trees before it and at it have.
proof fn lemma_place_is(trees: Seq<IndexTreeView>, key: Seq<char>, at: int)
    requires
        0 <= at <= trees.len(),
        forall|i: int| 0 <= i < at ==> (#[trigger] trees[i]).key != key,
        at < trees.len() ==> trees[at].key == key,
    ensures
        place_of(trees, key) == at,
{
    lemma_place_of(trees, key);
    let found = place_of(trees, key);
    if found < at {
        assert(trees[found].key != key);
    } else if found > at {
        assert(trees[at].key != key);
    }
}

/// What filing under one key does to the tree for a key.
proof fn lemma_filed_effect(
    trees: Seq<IndexTreeView>,
    under: Seq<char>,
    value: ValueView,
    pointer: PointerView,
    key: Seq<char>,
)
    requires
        distinct_keys(trees),
    ensures
        ({
            let r = filed(trees, under, value, pointer);
            let at = place_of(trees, key);
            &&& distinct_keys(r)
            &&& r.len() >= trees.len()
            &&& (forall|i: int| 0 <= i < trees.len() ==> (#[trigger] trees[i]).log.len() > 0)
                ==> (forall|i: int| 0 <= i < r.len() ==> (#[trigger] r[i]).log.len() > 0)
            &&& key == under ==> place_of(r, key) == at && at < r.len() && r[at].log == (if at
                < trees.len() {
                trees[at].log
            } else {
                Seq::empty()
            }).push((value, pointer))
            &&& key != under && at < trees.len() ==> place_of(r, key) == at && r[at] == trees[at]
            &&& key != under && at == trees.len() ==> place_of(r, key) == r.len()
        }),
{
    let r = filed(trees, under, value, pointer);
    let to = place_of(trees, under);
    let at = place_of(trees, key);
    lemma_place_of(trees, under);
    lemma_place_of(trees, key);
    let all = if to < trees.len() {
        trees
    } else {
        trees.push(IndexTreeView { key: under, tree: empty_tree(), log: Seq::empty() })
    };
    assert(r.len() == all.len());
    if forall|i: int| 0 <= i < trees.len() ==> (#[trigger] trees[i]).log.len() > 0 {
        assert forall|i: int| 0 <= i < r.len() implies (#[trigger] r[i]).log.len() > 0 by {
            if i != to {
                assert(r[i] == all[i]);
                assert(all[i] == trees[i]);
            }
        }
    }
    assert forall|i: int| 0 <= i < r.len() implies (#[trigger] r[i]).key == all[i].key by {}
    assert forall|i: int| 0 <= i < trees.len() implies (#[trigger] all[i]).key == trees[i].key by {}
    assert(distinct_keys(r)) by {
        assert forall|i: int, j: int| 0 <= i < r.len() && 0 <= j < r.len() && i != j implies (
        #[trigger] r[i]).key != (#[trigger] r[j]).key by {
            if i < trees.len() && j < trees.len() {
                assert(trees[i].key != trees[j].key);
            } else if i < trees.len() {
                assert(trees[i].key != under);
            } else {
                assert(trees[j].key != under);
            }
        }
    }
    if key == under {
        assert forall|i: int| 0 <= i < to implies (#[trigger] r[i]).key != key by {
            assert(trees[i].key != key);
        }
        lemma_place_is(r, key, to);
    } else if at < trees.len() {
        assert forall|i: int| 0 <= i < at implies (#[trigger] r[i]).key != key by {
            assert(trees[i].key != key);
        }
        lemma_place_is(r, key, at);
    } else {
        assert forall|i: int| 0 <= i < r.len() implies (#[trigger] r[i]).key != key by {
            if i < trees.len() {
                assert(trees[i].key != key);
            }
        }
        lemma_place_is(r, key, r.len() as int);
    }
}

/// A log that lists what was filed under a key lists what was filed after
/// one more entry was filed under another key.
proof fn lemma_covers_other(
    log: Seq<Filed>,
    chunks: Seq<ReferenceView>,
    count: int,
    extra: int,
    key: Seq<char>,
)
    requires
        0 <= count < chunks.len(),
        1 <= extra <= chunks[count].indices.len(),
        covers(log, chunks, count, extra - 1, key),
        chunks[count].indices[extra - 1].key != key,
    ensures
        covers(log, chunks, count, extra, key),
{
    assert forall|j: int| #[trigger] line(log, j) implies exists|i: int, k: int| #[trigger]
        source(chunks, count, extra, key, i, k, log[j]) by {
        assert(line(log, j));
        let (i, k) = choose|i: int, k: int| #[trigger]
            source(chunks, count, extra - 1, key, i, k, log[j]);
        assert(source(chunks, count, extra, key, i, k, log[j]));
    }
    assert forall|i: int, k: int, pair: Filed| #[trigger]
        source(chunks, count, extra, key, i, k, pair) implies exists|j: int| #[trigger]
        in_log(log, j, pair) by {
        assert(source(chunks, count, extra - 1, key, i, k, pair));
    }
}

/// A log that lists what was filed under a key, with one more entry filed
/// under that key and logged, lists what was filed.
proof fn lemma_covers_same(
    log: Seq<Filed>,
    chunks: Seq<ReferenceView>,
    count: int,
    extra: int,
    key: Seq<char>,
)
    requires
        0 <= count < chunks.len(),
        1 <= extra <= chunks[count].indices.len(),
        covers(log, chunks, count, extra - 1, key),
        chunks[count].indices[extra - 1].key == key,
    ensures
        covers(
            log.push((chunks[count].indices[extra - 1].value, chunks[count].pointer)),
            chunks,
            count,
            extra,
            key,
        ),
{
    let new = (chunks[count].indices[extra - 1].value, chunks[count].pointer);
    let more = log.push(new);
    assert forall|j: int| #[trigger] line(more, j) implies exists|i: int, k: int| #[trigger]
        source(chunks, count, extra, key, i, k, more[j]) by {
        if j < log.len() {
            assert(line(log, j));
        let (i, k) = choose|i: int, k: int| #[trigger]
            source(chunks, count, extra - 1, key, i, k, log[j]);
            assert(source(chunks, count, extra, key, i, k, more[j]));
        } else {
            assert(source(chunks, count, extra, key, count, extra - 1, more[j]));
        }
    }
    assert forall|i: int, k: int, pair: Filed| #[trigger]
        source(chunks, count, extra, key, i, k, pair) implies exists|j: int| #[trigger]
        in_log(more, j, pair) by {
        if filed_before(chunks, count, extra - 1, i, k) {
            assert(source(chunks, count, extra - 1, key, i, k, pair));
            let j = choose|j: int| #[trigger] in_log(log, j, pair);
            assert(more[j] == log[j]);
            assert(in_log(more, j, pair));
        } else {
            assert(in_log(more, log.len() as int, pair));
        }
    }
}

/// An empty log lists what was filed under a key under which nothing was.
proof fn lemma_covers_first(chunks: Seq<ReferenceView>, count: int, extra: int, key: Seq<char>)
    requires
        0 <= count < chunks.len(),
        1 <= extra <= chunks[count].indices.len(),
        chunks[count].indices[extra - 1].key == key,
        forall|i: int, k: int| #[trigger]
            filed_before(chunks, count, extra - 1, i, k) ==> chunks[i].indices[k].key != key,
    ensures
        covers(
            Seq::<Filed>::empty().push(
                (chunks[count].indices[extra - 1].value, chunks[count].pointer),
            ),
            chunks,
            count,
            extra,
            key,
        ),
{
    let new = (chunks[count].indices[extra - 1].value, chunks[count].pointer);
    let more = Seq::<Filed>::empty().push(new);
    assert forall|j: int| #[trigger] line(more, j) implies exists|i: int, k: int| #[trigger]
        source(chunks, count, extra, key, i, k, more[j]) by {
        assert(source(chunks, count, extra, key, count, extra - 1, more[j]));
    }
    assert forall|i: int, k: int, pair: Filed| #[trigger]
        source(chunks, count, extra, key, i, k, pair) implies exists|j: int| #[trigger]
        in_log(more, j, pair) by {
        if filed_before(chunks, count, extra - 1, i, k) {
        } else {
            assert(in_log(more, 0, pair));
        }
    }
}

/// The trees that the builder gathers have different keys, keep track of
/// what was filed under each key, and log something each.
pub open spec fn in_order(
    trees: Seq<IndexTreeView>,
    chunks: Seq<ReferenceView>,
    count: int,
    extra: int,
    key: Seq<char>,
) -> bool {
    &&& distinct_keys(trees)
    &&& tracks(trees, chunks, count, extra, key)
    &&& forall|i: int| 0 <= i < trees.len() ==> (#[trigger] trees[i]).log.len() > 0
}

/// The trees are in order while the index entries of an item are filed.
pub proof fn lemma_gathered_tracks(
    chunks: Seq<ReferenceView>,
    count: int,
    extra: int,
    key: Seq<char>,
)
    requires
        0 <= count < chunks.len(),
        0 <= extra <= chunks[count].indices.len(),
    ensures
        in_order(
            filed_item(gathered(chunks, count as nat), chunks[count], extra as nat),
            chunks,
            count,
            extra,
            key,
        ),
    decreases count, extra,
{
    let now = filed_item(gathered(chunks, count as nat), chunks[count], extra as nat);
    if extra == 0 {
        assert(now == gathered(chunks, count as nat));
        if count == 0 {
            assert(now.len() == 0);
            assert(place_of(now, key) == 0);
        } else {
            let before = chunks[count - 1].indices.len() as int;
            lemma_gathered_tracks(chunks, count - 1, before, key);
            assert(now == filed_item(
                gathered(chunks, (count - 1) as nat),
                chunks[count - 1],
                before as nat,
            ));
            assert forall|i: int, k: int|
                filed_before(chunks, count, 0, i, k) <==> filed_before(
                    chunks,
                    count - 1,
                    before,
                    i,
                    k,
                ) by {}
            lemma_tracks_same(now, chunks, count - 1, before, count, 0, key);
        }
    } else {
        lemma_gathered_tracks(chunks, count, extra - 1, key);
        let trees = filed_item(gathered(chunks, count as nat), chunks[count], (extra - 1) as nat);
        let index = chunks[count].indices[extra - 1];
        let pointer = chunks[count].pointer;
        assert(now == filed(trees, index.key, index.value, pointer));
        lemma_filed_effect(trees, index.key, index.value, pointer, key);
        lemma_place_of(trees, key);
        lemma_place_of(now, key);
        let at = place_of(trees, key);
        if index.key == key {
            if at < trees.len() {
                lemma_covers_same(trees[at].log, chunks, count, extra, key);
            } else {
                lemma_covers_first(chunks, count, extra, key);
            }
            assert(tracks(now, chunks, count, extra, key));
        } else if at < trees.len() {
            lemma_covers_other(trees[at].log, chunks, count, extra, key);
            assert(tracks(now, chunks, count, extra, key));
        } else {
            assert forall|i: int, k: int| #[trigger]
                filed_before(chunks, count, extra, i, k) implies chunks[i].indices[k].key
                != key by {
                if !filed_before(chunks, count, extra - 1, i, k) {
                    assert(i == count && k == extra - 1);
                }
            }
            assert(tracks(now, chunks, count, extra, key));
        }
    }
}

/// The trees are in order once all index entries of all items are filed.
pub proof fn lemma_all_tracks(chunks: Seq<ReferenceView>, key: Seq<char>)
    ensures
        in_order(gathered(chunks, chunks.len()), chunks, chunks.len() as int, 0, key),
{
    let n = chunks.len() as int;
    let now = gathered(chunks, chunks.len());
    if n == 0 {
        assert(now.len() == 0);
        assert(place_of(now, key) == 0);
    } else {
        let before = chunks[n - 1].indices.len() as int;
        lemma_gathered_tracks(chunks, n - 1, before, key);
        assert forall|i: int, k: int|
            filed_before(chunks, n, 0, i, k) <==> filed_before(chunks, n - 1, before, i, k) by {}
        lemma_tracks_same(now, chunks, n - 1, before, n, 0, key);
    }
}

/// Keeping track does not depend on how the filed entries are counted.
proof fn lemma_tracks_same(
    trees: Seq<IndexTreeView>,
    chunks: Seq<ReferenceView>,
    count: int,
    extra: int,
    count2: int,
    extra2: int,
    key: Seq<char>,
)
    requires
        tracks(trees, chunks, count, extra, key),
        forall|i: int, k: int|
            filed_before(chunks, count, extra, i, k) <==> filed_before(
                chunks,
                count2,
                extra2,
                i,
                k,
            ),
    ensures
        tracks(trees, chunks, count2, extra2, key),
{
    let at = place_of(trees, key);
    if at < trees.len() {
        let log = trees[at].log;
        assert forall|j: int| #[trigger] line(log, j) implies exists|i: int, k: int| #[trigger]
        source(chunks, count2, extra2, key, i, k, log[j]) by {
            assert(line(log, j));
        let (i, k) = choose|i: int, k: int| #[trigger]
            source(chunks, count, extra, key, i, k, log[j]);
            assert(source(chunks, count2, extra2, key, i, k, log[j]));
        }
        assert forall|i: int, k: int, pair: Filed| #[trigger]
        source(chunks, count2, extra2, key, i, k, pair) implies exists|j: int| #[trigger]
        in_log(log, j, pair) by {
            assert(source(chunks, count, extra, key, i, k, pair));
        }
    } else {
        assert forall|i: int, k: int| #[trigger]
            filed_before(chunks, count2, extra2, i, k) implies chunks[i].indices[k].key
            != key by {
            assert(filed_before(chunks, count, extra, i, k));
        }
    }
}

impl BuilderView {
    /// Index entry `k` of item `i` files the item under `key`.
    pub open spec fn indexed(self, key: Seq<char>, i: int, k: int) -> bool {
        &&& 0 <= i < self.chunks.len()
        &&& 0 <= k < self.chunks[i].indices.len()
        &&& self.chunks[i].indices[k].key == key
    }

    /// Whether any item is filed under `key`.
    pub open spec fn has_index(self, key: Seq<char>) -> bool {
        exists|i: int, k: int| self.indexed(key, i, k)
    }

    /// The values under which items are filed in the index for `key`.
    pub open spec fn values_under(self, key: Seq<char>) -> Set<ValueView> {
        Set::new(
            |value: ValueView|
                exists|i: int, k: int| #[trigger]
                    self.indexed(key, i, k) && self.chunks[i].indices[k].value == value,
        )
    }

    /// Index entry `k` of item `i` files the item under `key` with a value
    /// that the search looks for, and `pointer` is the item's pointer.
    pub open spec fn wanted(
        self,
        key: Seq<char>,
        kind: PakSearch,
        probe: ValueView,
        i: int,
        k: int,
        pointer: PointerView,
    ) -> bool {
        &&& self.indexed(key, i, k)
        &&& self.chunks[i].pointer == pointer
        &&& hit(kind, total_order(self.chunks[i].indices[k].value, probe))
    }

    /// The pointers of the items that are filed under `key` with a value
    /// that the search looks for.
    pub open spec fn expected(self, key: Seq<char>, kind: PakSearch, probe: ValueView) -> Set<
        PointerView,
    > {
        Set::new(
            |pointer: PointerView|
                exists|i: int, k: int| #[trigger] self.wanted(key, kind, probe, i, k, pointer),
        )
    }
}

/// What the log of the tree for a key says of the stored items.
proof fn lemma_log_is_index(b: BuilderView, key: Seq<char>, kind: PakSearch, probe: ValueView)
    requires
        place_of(b.trees(), key) < b.trees().len(),
    ensures
        distinct_keys(b.trees()),
        b.trees()[place_of(b.trees(), key)].key == key,
        b.has_index(key),
        log_keys(b.trees()[place_of(b.trees(), key)].log).subset_of(b.values_under(key)),
        filed_hits(b.trees()[place_of(b.trees(), key)].log, kind, probe) == b.expected(
            key,
            kind,
            probe,
        ),
{
    let chunks = b.chunks;
    let n = chunks.len() as int;
    let trees = b.trees();
    let at = place_of(trees, key);
    let log = trees[at].log;
    lemma_all_tracks(chunks, key);
    lemma_place_of(trees, key);
    assert(trees[at].log.len() > 0);
    assert(line(log, 0));
    let (i0, k0) = choose|i: int, k: int| #[trigger] source(chunks, n, 0, key, i, k, log[0]);
    assert(b.indexed(key, i0, k0));
    assert forall|value: ValueView| log_keys(log).contains(value) implies b.values_under(
        key,
    ).contains(value) by {
        let j = choose|j: int| 0 <= j < log.len() && #[trigger] log[j].0 == value;
        assert(line(log, j));
        let (i, k) = choose|i: int, k: int| #[trigger] source(chunks, n, 0, key, i, k, log[j]);
        assert(b.indexed(key, i, k) && chunks[i].indices[k].value == value);
    }
    assert forall|pointer: PointerView|
        filed_hits(log, kind, probe).contains(pointer) <==> b.expected(key, kind, probe).contains(
            pointer,
        ) by {
        if filed_hits(log, kind, probe).contains(pointer) {
            let j = choose|j: int| #[trigger] filed_hit(log, kind, probe, j, pointer);
            assert(line(log, j));
            let (i, k) = choose|i: int, k: int| #[trigger]
                source(chunks, n, 0, key, i, k, log[j]);
            assert(b.wanted(key, kind, probe, i, k, pointer));
        }
        if b.expected(key, kind, probe).contains(pointer) {
            let (i, k) = choose|i: int, k: int| #[trigger]
                b.wanted(key, kind, probe, i, k, pointer);
            let pair = (chunks[i].indices[k].value, chunks[i].pointer);
            assert(source(chunks, n, 0, key, i, k, pair));
            let j = choose|j: int| #[trigger] in_log(log, j, pair);
            assert(filed_hit(log, kind, probe, j, pointer));
        }
    }
    assert(filed_hits(log, kind, probe) =~= b.expected(key, kind, probe));
}

/// No tree means that nothing is filed under the key.
proof fn lemma_no_log_no_index(b: BuilderView, key: Seq<char>)
    requires
        place_of(b.trees(), key) >= b.trees().len(),
    ensures
        distinct_keys(b.trees()),
        place_of(b.trees(), key) == b.trees().len(),
        !b.has_index(key),
{
    let chunks = b.chunks;
    let n = chunks.len() as int;
    lemma_all_tracks(chunks, key);
    lemma_place_of(b.trees(), key);
    if b.has_index(key) {
        let (i, k) = choose|i: int, k: int| b.indexed(key, i, k);
        assert(filed_before(chunks, n, 0, i, k));
    }
}

/// A comparison finds exactly what was filed.
///
/// Take the artifact that a builder laid out, a key, and a value that is
/// coherent with the values under which items were filed in the index for
/// that key. Then a comparison of the key with the value, answered from the
/// artifact, finds exactly the pointers of the items that were filed under
/// the key with a value that the comparison looks for: one that is equal to
/// the given value, less than it, less than or equal to it, greater than it,
/// or greater than or equal to it. Where nothing was filed under the key,
/// the comparison fails because the index is missing.
pub proof fn law_comparison_finds_what_was_filed(
    b: BuilderView,
    key: Seq<char>,
    kind: PakSearch,
    probe: ValueView,
)
    requires
        b.sound(),
        coherent(b.values_under(key).insert(probe)),
    ensures
        opened(b.artifact()) == Ok::<PakView, PakFault>(b.pak()),
        compared(b.pak(), kind, key, probe) == if b.has_index(key) {
            Ok::<Set<PointerView>, PakFault>(b.expected(key, kind, probe))
        } else {
            Err::<Set<PointerView>, PakFault>(PakFault::IndexMissing)
        },
{
    let trees = b.trees();
    let at = place_of(trees, key);
    lemma_artifact_opens(b);
    lemma_place_of(trees, key);
    if at < trees.len() {
        let tree = trees[at];
        let t = tree.tree;
        let log = tree.log;
        let table = table_of(b, at);
        lemma_log_is_index(b, key, kind, probe);
        assert(tree_sound(tree));
        let all = b.values_under(key).insert(probe);
        lemma_coherent_subset(all, log_keys(log));
        lemma_coherent_subset(all, log_keys(log).insert(probe));
        lemma_agrees_keys(t, log);
        lemma_coherent_subset(all, t.keys().insert(probe));
        lemma_artifact_tree(b, at);
        lemma_artifact_pages(b, at);
        lemma_find_sorted(b.pak(), table, t, probe, kind, table.dom().len());
        lemma_held_is_filed(t, log, kind, probe);
    } else {
        lemma_no_log_no_index(b, key);
        lemma_artifact_no_tree(b, key);
    }
}

impl BuilderView {
    /// Whether the values of all comparisons of the query are coherent with
    /// the values under which items were filed in the index that they ask.
    pub open spec fn askable(self, query: QueryView) -> bool
        decreases query,
    {
        match query {
            QueryView::Compare(_, key, probe) => coherent(self.values_under(key).insert(probe)),
            QueryView::Union(a, b) => self.askable(*a) && self.askable(*b),
            QueryView::Intersection(a, b) => self.askable(*a) && self.askable(*b),
        }
    }

    /// What the query asks for: a comparison for the pointers of the items
    /// that were filed under its key with a value that it looks for, a union
    /// for what either part asks for, an intersection for what both ask for.
    /// A comparison with a key under which nothing was filed asks in vain,
    /// and so does a query with such a part: the first such key is missing.
    pub open spec fn asked(self, query: QueryView) -> Result<Set<PointerView>, PakFault>
        decreases query,
    {
        match query {
            QueryView::Compare(kind, key, probe) => if self.has_index(key) {
                Ok(self.expected(key, kind, probe))
            } else {
                Err(PakFault::IndexMissing)
            },
            QueryView::Union(a, b) => match self.asked(*a) {
                Ok(left) => match self.asked(*b) {
                    Ok(right) => Ok(left.union(right)),
                    Err(f) => Err(f),
                },
                Err(f) => Err(f),
            },
            QueryView::Intersection(a, b) => match self.asked(*a) {
                Ok(left) => match self.asked(*b) {
                    Ok(right) => Ok(left.intersect(right)),
                    Err(f) => Err(f),
                },
                Err(f) => Err(f),
            },
        }
    }
}

/// A query is answered with what it asks for.
///
/// Take the artifact that a builder laid out and a query whose values are
/// coherent with the values that were filed. Then the answer to the query
/// from the artifact is what the query asks for of the stored items.
pub proof fn law_query_is_answered(b: BuilderView, query: QueryView)
    requires
        b.sound(),
        b.askable(query),
    ensures
        answer(b.pak(), query) == b.asked(query),
    decreases query,
{
    match query {
        QueryView::Compare(kind, key, probe) => {
            law_comparison_finds_what_was_filed(b, key, kind, probe);
        },
        QueryView::Union(left, right) => {
            law_query_is_answered(b, *left);
            law_query_is_answered(b, *right);
        },
        QueryView::Intersection(left, right) => {
            law_query_is_answered(b, *left);
            law_query_is_answered(b, *right);
        },
    }
}

/// What was filed is found.
///
/// In the artifact that a builder laid out, a search for the items whose
/// key equals the value under which an item was filed finds that item's
/// pointer, provided that the values filed under the key are coherent.
pub proof fn law_filed_is_found(b: BuilderView, key: Seq<char>, i: int, k: int)
    requires
        b.sound(),
        b.indexed(key, i, k),
        coherent(b.values_under(key)),
    ensures
        compared(b.pak(), PakSearch::Equal, key, b.chunks[i].indices[k].value) matches Ok(found)
            && found.contains(b.chunks[i].pointer),
{
    let value = b.chunks[i].indices[k].value;
    assert(b.values_under(key).contains(value));
    assert(b.values_under(key).insert(value) =~= b.values_under(key));
    assert(crate::order::in_line(value, value, value));
    law_comparison_finds_what_was_filed(b, key, PakSearch::Equal, value);
    assert(b.wanted(key, PakSearch::Equal, value, i, k, b.chunks[i].pointer));
}

impl BuilderView {
    /// Whether every value under which an item is filed in the index for
    /// `key` is of the kind `kind`.
    pub open spec fn keyed_by(self, key: Seq<char>, kind: ValueKind) -> bool {
        forall|i: int, k: int| #[trigger]
            self.indexed(key, i, k) ==> kind_of(self.chunks[i].indices[k].value) == kind
    }
}

/// The values of an index whose keys are of one kind are coherent with any
/// value of that kind.
proof fn lemma_keyed_coherent(b: BuilderView, key: Seq<char>, probe: ValueView)
    requires
        b.keyed_by(key, kind_of(probe)),
    ensures
        coherent(b.values_under(key).insert(probe)),
        coherent(b.values_under(key)),
{
    let all = b.values_under(key).insert(probe);
    assert forall|v: ValueView| all.contains(v) implies kind_of(v) == kind_of(probe) by {
        if v != probe {
            let (i, k) = choose|i: int, k: int| #[trigger]
                b.indexed(key, i, k) && b.chunks[i].indices[k].value == v;
        }
    }
    lemma_one_kind_coherent(all, kind_of(probe));
    lemma_coherent_subset(all, b.values_under(key));
}

/// Among values of one kind a comparison finds exactly what was filed.
///
/// Take the artifact that a builder laid out and a key under which every
/// item was filed with a value of one kind: texts, integers of one
/// signedness, floats that stand for a number, or flags. Then a comparison
/// of the key with any value of that kind finds exactly the pointers of the
/// items that were filed under the key with a value that the comparison
/// looks for, whatever the pages of the index look like.
pub proof fn law_one_kind_is_compared(
    b: BuilderView,
    key: Seq<char>,
    kind: PakSearch,
    probe: ValueView,
)
    requires
        b.sound(),
        b.keyed_by(key, kind_of(probe)),
    ensures
        compared(b.pak(), kind, key, probe) == if b.has_index(key) {
            Ok::<Set<PointerView>, PakFault>(b.expected(key, kind, probe))
        } else {
            Err::<Set<PointerView>, PakFault>(PakFault::IndexMissing)
        },
{
    lemma_keyed_coherent(b, key, probe);
    law_comparison_finds_what_was_filed(b, key, kind, probe);
}

/// What was filed among values of one kind is found.
///
/// Where every item was filed under a key with a value of one kind, a
/// search for the items whose key equals the value of one of them finds
/// that item's pointer.
pub proof fn law_one_kind_is_found(b: BuilderView, key: Seq<char>, i: int, k: int)
    requires
        b.sound(),
        b.indexed(key, i, k),
        b.keyed_by(key, kind_of(b.chunks[i].indices[k].value)),
    ensures
        compared(b.pak(), PakSearch::Equal, key, b.chunks[i].indices[k].value) matches Ok(found)
            && found.contains(b.chunks[i].pointer),
{
    lemma_keyed_coherent(b, key, b.chunks[i].indices[k].value);
    law_filed_is_found(b, key, i, k);
}

impl BuilderView {
    /// Whether every value under which an item is filed in the index for
    /// `key` is a plain integer: a signed one, or an unsigned one below two
    /// to the power of 63.
    pub open spec fn keyed_by_integers(self, key: Seq<char>) -> bool {
        forall|i: int, k: int| #[trigger]
            self.indexed(key, i, k) ==> plain_integer(self.chunks[i].indices[k].value)
    }
}

/// Among plain integers a comparison finds exactly what was filed.
///
/// Take the artifact that a builder laid out and a key under which every
/// item was filed with a plain integer, signed or unsigned. Then a
/// comparison of the key with any plain integer, signed or unsigned, finds
/// exactly the pointers of the items that were filed under the key with a
/// number that the comparison looks for.
pub proof fn law_integers_are_compared(
    b: BuilderView,
    key: Seq<char>,
    kind: PakSearch,
    probe: ValueView,
)
    requires
        b.sound(),
        b.keyed_by_integers(key),
        plain_integer(probe),
    ensures
        compared(b.pak(), kind, key, probe) == if b.has_index(key) {
            Ok::<Set<PointerView>, PakFault>(b.expected(key, kind, probe))
        } else {
            Err::<Set<PointerView>, PakFault>(PakFault::IndexMissing)
        },
{
    let all = b.values_under(key).insert(probe);
    assert forall|v: ValueView| all.contains(v) implies plain_integer(v) by {
        if v != probe {
            let (i, k) = choose|i: int, k: int| #[trigger]
                b.indexed(key, i, k) && b.chunks[i].indices[k].value == v;
        }
    }
    lemma_plain_integers_coherent(all);
    law_comparison_finds_what_was_filed(b, key, kind, probe);
}

/// A union finds what either part finds, an intersection what both find.
///
/// Where both parts of a union or an intersection are answered, the whole
/// is answered with the union or the intersection of the two answers.
pub proof fn law_union_and_intersection(pak: PakView, a: QueryView, b: QueryView)
    requires
        answer(pak, a) is Ok,
        answer(pak, b) is Ok,
    ensures
        answer(pak, QueryView::Union(Box::new(a), Box::new(b))) == Ok::<
            Set<PointerView>,
            PakFault,
        >(answer(pak, a)->Ok_0.union(answer(pak, b)->Ok_0)),
        answer(pak, QueryView::Intersection(Box::new(a), Box::new(b))) == Ok::<
            Set<PointerView>,
            PakFault,
        >(answer(pak, a)->Ok_0.intersect(answer(pak, b)->Ok_0)),
{
}

/// The artifact starts with the sizes.
///
/// The first 24 bytes of the artifact that a builder laid out are the three
/// sizes, each as eight bytes with the lowest byte first.
pub proof fn law_artifact_starts_with_sizes(b: BuilderView)
    requires
        b.sound(),
    ensures
        b.sizing().bytes().len() == 24,
        b.artifact().subrange(0, 24) == b.sizing().bytes(),
        b.sizing().bytes() == crate::wire::u64_bytes(b.sizing().meta_size) + crate::wire::u64_bytes(
            b.sizing().indices_size,
        ) + crate::wire::u64_bytes(b.sizing().vault_size),
{
    lemma_artifact_parts(b);
}

/// What was stored is read back.
///
/// Bytes that lie in the vault of a builder are what a reader of the
/// builder's artifact gets for the pointer that names their place.
pub proof fn law_stored_is_read_back(b: BuilderView, offset: int, bytes: Seq<u8>)
    requires
        b.sound(),
        lies_at(b.vault, offset, bytes),
    ensures
        b.pak().item(offset as u64, bytes.len() as u64) == Ok::<Seq<u8>, PakFault>(bytes),
{
    lemma_with_trees_more(b, b.trees(), 0, b.trees().len());
    lemma_lies_on(b.vault, b.packed().vault, offset, bytes);
    lemma_artifact_item(b, offset, bytes);
}

/// Every stored item is read back.
///
/// What a reader of the builder's artifact gets for the pointer of a stored
/// item are the bytes of the item as they lie in the builder's vault.
pub proof fn law_item_is_read_back(b: BuilderView, i: int)
    requires
        b.sound(),
        b.stocked(),
        0 <= i < b.chunks.len(),
    ensures
        b.pak().item(b.chunks[i].pointer.offset, b.chunks[i].pointer.size) == Ok::<
            Seq<u8>,
            PakFault,
        >(b.item(i)),
{
    let pointer = b.chunks[i].pointer;
    assert(lies_at(b.vault, pointer.offset as int, b.item(i)));
    law_stored_is_read_back(b, pointer.offset as int, b.item(i));
}

/// A stored item is read as what its type makes of its bytes.
///
/// A reader of the builder's artifact that reads the pointer of a stored
/// item as the type whose tag the pointer carries gets neither a type
/// mismatch nor a fault of the read: it gets exactly what the type makes of
/// the bytes of the item.
pub proof fn law_item_is_decoded<T: PakItemDeserialize>(b: BuilderView, i: int, r: PakResult<T>)
    requires
        b.sound(),
        b.stocked(),
        0 <= i < b.chunks.len(),
    ensures
        read_as::<T>(
            b.pak(),
            PakPointerView::Typed(b.chunks[i].pointer),
            b.chunks[i].pointer.type_tag,
            r,
        ) == (exists|bytes: &[u8]|
            bytes@ == b.item(i) && #[trigger] call_ensures(T::from_bytes, (bytes,), r)),
{
    law_item_is_read_back(b, i);
}

/// The items lie in front of the trees.
///
/// The vault of the artifact starts with the vault of the builder, where
/// the items lie; the pages and page tables of the trees lie behind it.
pub proof fn law_items_lie_in_front(b: BuilderView, k: int, i: int)
    requires
        0 <= k < b.trees().len(),
        0 <= i < b.trees()[k].tree.pages.len(),
    ensures
        b.vault.is_prefix_of(b.packed().vault),
        b.vault.len() <= with_pages(
            before_tree(b, k),
            b.trees()[k].tree.pages,
            i as nat,
        ).vault.len(),
        b.vault.len() <= with_pages(
            before_tree(b, k),
            b.trees()[k].tree.pages,
            b.trees()[k].tree.pages.len(),
        ).vault.len(),
{
    let pages = b.trees()[k].tree.pages;
    lemma_with_trees_more(b, b.trees(), 0, b.trees().len());
    lemma_with_trees_more(b, b.trees(), 0, k as nat);
    lemma_with_pages_grows(before_tree(b, k), pages, i as nat);
    lemma_with_pages_grows(before_tree(b, k), pages, pages.len());
}

/// No persisted page holds too many entries, and no entry holds nothing.
///
/// Every page of every index of the artifact that a builder laid out is
/// read back as the builder built it, holds at most [`PAGE_SIZE`] entries,
/// and each of its entries holds at least one pointer.
pub proof fn law_pages_are_small(b: BuilderView, k: int, i: int)
    requires
        b.sound(),
        0 <= k < b.trees().len(),
        0 <= i < b.trees()[k].tree.pages.len(),
    ensures
        b.pak().page(table_of(b, k), i as usize) == Ok::<PageView, PakFault>(
            b.trees()[k].tree.pages[i],
        ),
        b.trees()[k].tree.pages[i].entries.len() <= PAGE_SIZE,
        forall|j: int|
            0 <= j < b.trees()[k].tree.pages[i].entries.len() ==> (
            #[trigger] b.trees()[k].tree.pages[i].entries[j]).values.len() > 0,
{
    let tree = b.trees()[k].tree;
    lemma_artifact_pages(b, k);
    assert(tree_sound(b.trees()[k]));
    assert forall|j: int| 0 <= j < tree.pages[i].entries.len() implies (
    #[trigger] tree.pages[i].entries[j]).values.len() > 0 by {
        crate::tree::lemma_wf_edge(tree, i, j);
    }
}

/// The keys of a persisted page rise.
///
/// Where the values filed under a key are coherent, the keys of every page
/// of the index for that key rise strictly from entry to entry.
pub proof fn law_page_keys_rise(b: BuilderView, key: Seq<char>, page: int, i: int, j: int)
    requires
        b.sound(),
        coherent(b.values_under(key)),
        place_of(b.trees(), key) < b.trees().len(),
        0 <= page < b.trees()[place_of(b.trees(), key)].tree.pages.len(),
        0 <= i < j < b.trees()[place_of(b.trees(), key)].tree.pages[page].entries.len(),
    ensures
        total_order(
            b.trees()[place_of(b.trees(), key)].tree.pages[page].entries[i].key,
            b.trees()[place_of(b.trees(), key)].tree.pages[page].entries[j].key,
        ) == crate::value::PakOrder::Less,
{
    let at = place_of(b.trees(), key);
    let tree = b.trees()[at];
    lemma_place_of(b.trees(), key);
    lemma_log_is_index(b, key, PakSearch::Equal, ValueView::Void);
    assert(tree_sound(tree));
    lemma_coherent_subset(b.values_under(key), log_keys(tree.log));
    crate::sorted::lemma_rising(tree.tree, page, i, j);
}

/// The keys of a persisted page of one kind rise.
///
/// Where every item was filed under a key with a value of the kind `kind`,
/// the keys of every page of the index for that key rise strictly from
/// entry to entry: no key stands twice in a page.
pub proof fn law_one_kind_keys_rise(
    b: BuilderView,
    key: Seq<char>,
    kind: ValueKind,
    page: int,
    i: int,
    j: int,
)
    requires
        b.sound(),
        b.keyed_by(key, kind),
        place_of(b.trees(), key) < b.trees().len(),
        0 <= page < b.trees()[place_of(b.trees(), key)].tree.pages.len(),
        0 <= i < j < b.trees()[place_of(b.trees(), key)].tree.pages[page].entries.len(),
    ensures
        total_order(
            b.trees()[place_of(b.trees(), key)].tree.pages[page].entries[i].key,
            b.trees()[place_of(b.trees(), key)].tree.pages[page].entries[j].key,
        ) == crate::value::PakOrder::Less,
{
    let under = b.values_under(key);
    assert forall|v: ValueView| under.contains(v) implies kind_of(v) == kind by {
        let (i, k) = choose|i: int, k: int| #[trigger]
            b.indexed(key, i, k) && b.chunks[i].indices[k].value == v;
    }
    lemma_one_kind_coherent(under, kind);
    law_page_keys_rise(b, key, page, i, j);
}

} // verus!
