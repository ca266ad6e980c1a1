//! Where the parts of an artifact lie in its bytes, and why a reader finds them there.
use vstd::prelude::*;
use crate::artifact::{directory_lookup, page_table, IndexSlotView};
use crate::btree::{slots_of, with_pages, with_tree};
use crate::builder::{place_of, with_trees, BuilderView, IndexTreeView};
use crate::page::PageView;
use crate::wire::{counted_bytes, Wire};

verus! {

/// The bytes lie in the vault at the offset.
pub open spec fn lies_at(vault: Seq<u8>, offset: int, bytes: Seq<u8>) -> bool {
    &&& 0 <= offset
    &&& offset + bytes.len() <= vault.len()
    &&& vault.subrange(offset, offset + bytes.len()) == bytes
}

/// What lies in a vault still lies there when the vault has grown.
pub proof fn lemma_lies_on(vault: Seq<u8>, longer: Seq<u8>, offset: int, bytes: Seq<u8>)
    requires
        lies_at(vault, offset, bytes),
        vault.is_prefix_of(longer),
    ensures
        lies_at(longer, offset, bytes),
{
    assert(longer.subrange(offset, offset + bytes.len()) =~= vault.subrange(
        offset,
        offset + bytes.len(),
    ));
}

/// Storing pages only adds to the vault.
pub proof fn lemma_with_pages_grows(builder: BuilderView, pages: Seq<PageView>, count: nat)
    ensures
        builder.vault.is_prefix_of(with_pages(builder, pages, count).vault),
    decreases count,
{
    if count > 0 {
        lemma_with_pages_grows(builder, pages, (count - 1) as nat);
    }
}

/// Storing more pages only adds to the vault.
pub proof fn lemma_with_pages_more(builder: BuilderView, pages: Seq<PageView>, i: nat, count: nat)
    requires
        i <= count,
    ensures
        with_pages(builder, pages, i).vault.is_prefix_of(with_pages(builder, pages, count).vault),
    decreases count,
{
    if i < count {
        lemma_with_pages_more(builder, pages, i, (count - 1) as nat);
    }
}

/// Persisting a tree only adds to the vault.
pub proof fn lemma_with_tree_grows(builder: BuilderView, pages: Seq<PageView>)
    ensures
        builder.vault.is_prefix_of(with_tree(builder, pages).vault),
        with_pages(builder, pages, pages.len()).vault.is_prefix_of(
            with_tree(builder, pages).vault,
        ),
{
    lemma_with_pages_grows(builder, pages, pages.len());
}

/// Persisting more trees only adds to the vault.
pub proof fn lemma_with_trees_more(
    builder: BuilderView,
    trees: Seq<IndexTreeView>,
    i: nat,
    count: nat,
)
    requires
        i <= count,
    ensures
        with_trees(builder, trees, i).vault.is_prefix_of(with_trees(builder, trees, count).vault),
    decreases count,
{
    if i < count {
        lemma_with_trees_more(builder, trees, i, (count - 1) as nat);
        lemma_with_tree_grows(
            with_trees(builder, trees, (count - 1) as nat),
            trees[count - 1].tree.pages,
        );
    }
}

/// A persisted page lies in the vault where its line of the page table says.
pub proof fn lemma_page_lies(builder: BuilderView, pages: Seq<PageView>, i: int)
    requires
        0 <= i < pages.len(),
    ensures
        lies_at(
            with_tree(builder, pages).vault,
            with_pages(builder, pages, i as nat).vault.len() as int,
            pages[i].bytes(),
        ),
{
    let before = with_pages(builder, pages, i as nat);
    let after = with_pages(builder, pages, (i + 1) as nat);
    assert(after.vault == before.vault + pages[i].bytes());
    assert(after.vault.subrange(before.vault.len() as int, after.vault.len() as int)
        =~= pages[i].bytes());
    lemma_with_pages_more(builder, pages, (i + 1) as nat, pages.len());
    lemma_with_tree_grows(builder, pages);
    lemma_lies_on(
        after.vault,
        with_pages(builder, pages, pages.len()).vault,
        before.vault.len() as int,
        pages[i].bytes(),
    );
    lemma_lies_on(
        with_pages(builder, pages, pages.len()).vault,
        with_tree(builder, pages).vault,
        before.vault.len() as int,
        pages[i].bytes(),
    );
}

/// A persisted page table lies in the vault behind the pages of its tree.
pub proof fn lemma_table_lies(builder: BuilderView, pages: Seq<PageView>)
    ensures
        lies_at(
            with_tree(builder, pages).vault,
            with_pages(builder, pages, pages.len()).vault.len() as int,
            counted_bytes(slots_of(builder, pages, pages.len())),
        ),
{
    let before = with_pages(builder, pages, pages.len());
    let after = with_tree(builder, pages);
    let bytes = counted_bytes(slots_of(builder, pages, pages.len()));
    assert(after.vault == before.vault + bytes);
    assert(after.vault.subrange(before.vault.len() as int, after.vault.len() as int) =~= bytes);
}

/// The page table made of the lines for `count` pages has a line for each
/// of the pages and for nothing else.
pub proof fn lemma_page_table(builder: BuilderView, pages: Seq<PageView>, count: nat)
    requires
        count <= usize::MAX,
    ensures
        forall|i: usize|
            page_table(slots_of(builder, pages, count)).dom().contains(i) <==> i < count,
        forall|i: int|
            0 <= i < count ==> #[trigger] page_table(slots_of(builder, pages, count))[i as usize]
                == slots_of(builder, pages, count)[i].pointer,
        page_table(slots_of(builder, pages, count)).dom().finite(),
        page_table(slots_of(builder, pages, count)).dom().len() == count,
    decreases count,
{
    let slots = slots_of(builder, pages, count);
    if count > 0 {
        let fewer = slots_of(builder, pages, (count - 1) as nat);
        lemma_page_table(builder, pages, (count - 1) as nat);
        assert(slots.drop_last() =~= fewer);
        assert(slots.last().index == (count - 1) as usize);
        let less = page_table(fewer);
        assert(!less.dom().contains((count - 1) as usize));
        assert(page_table(slots).dom() =~= less.dom().insert((count - 1) as usize));
    }
}

/// The place of a key among trees is the place of a tree with that key,
/// and no tree before it has the key.
pub proof fn lemma_place_of(trees: Seq<IndexTreeView>, key: Seq<char>)
    ensures
        0 <= place_of(trees, key) <= trees.len(),
        place_of(trees, key) < trees.len() ==> trees[place_of(trees, key)].key == key,
        forall|i: int| 0 <= i < place_of(trees, key) ==> (#[trigger] trees[i]).key != key,
    decreases trees.len(),
{
    if trees.len() > 0 && trees[0].key != key {
        let rest = trees.drop_first();
        lemma_place_of(rest, key);
        assert forall|i: int| 0 <= i < place_of(trees, key) implies (#[trigger] trees[i]).key
            != key by {
            if i > 0 {
                assert(trees[i] == rest[i - 1]);
            }
        }
        if place_of(trees, key) < trees.len() {
            assert(trees[place_of(trees, key)] == rest[place_of(rest, key)]);
        }
    }
}

/// No two of the trees have the same key.
pub open spec fn distinct_keys(trees: Seq<IndexTreeView>) -> bool {
    forall|i: int, j: int|
        0 <= i < trees.len() && 0 <= j < trees.len() && i != j ==> (#[trigger] trees[i]).key != (
        #[trigger] trees[j]).key
}

/// A directory with one line for each tree, in order, holds for the key of
/// a tree the pointer of that tree's line, and nothing for other keys.
pub proof fn lemma_directory_lookup(
    directory: Seq<IndexSlotView>,
    trees: Seq<IndexTreeView>,
    key: Seq<char>,
)
    requires
        directory.len() == trees.len(),
        forall|i: int| 0 <= i < trees.len() ==> (#[trigger] directory[i]).key == trees[i].key,
        distinct_keys(trees),
    ensures
        directory_lookup(directory, key) == if place_of(trees, key) < trees.len() {
            Some(directory[place_of(trees, key)].pointer)
        } else {
            None
        },
    decreases directory.len(),
{
    lemma_place_of(trees, key);
    if directory.len() > 0 {
        let last = directory.len() - 1;
        let fewer = trees.drop_last();
        lemma_place_of(fewer, key);
        assert(directory.last().key == trees[last].key);
        assert forall|i: int| 0 <= i < fewer.len() implies (#[trigger] directory.drop_last()[i]).key
            == fewer[i].key by {
            assert(directory[i].key == trees[i].key);
        }
        assert(distinct_keys(fewer)) by {
            assert forall|i: int, j: int|
                0 <= i < fewer.len() && 0 <= j < fewer.len() && i != j implies (
            #[trigger] fewer[i]).key != (#[trigger] fewer[j]).key by {
                assert(trees[i].key != trees[j].key);
            }
        }
        lemma_directory_lookup(directory.drop_last(), fewer, key);
        if directory.last().key == key {
            if place_of(trees, key) < last {
                assert(trees[place_of(trees, key)].key != trees[last].key);
            }
        } else {
            if place_of(fewer, key) < fewer.len() {
                assert(fewer[place_of(fewer, key)] == trees[place_of(fewer, key)]);
                if place_of(trees, key) < place_of(fewer, key) {
                    assert(fewer[place_of(trees, key)].key != key);
                } else if place_of(trees, key) > place_of(fewer, key) {
                    assert(trees[place_of(fewer, key)].key != key);
                }
            } else {
                if place_of(trees, key) < trees.len() {
                    if place_of(trees, key) < last {
                        assert(fewer[place_of(trees, key)].key != key);
                    }
                }
            }
        }
    }
}

} // verus!
