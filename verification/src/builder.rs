//! Building an artifact: items are stored in the vault, their index entries
//! are gathered into one B-tree per key, and the whole is laid out as bytes.
use vstd::prelude::*;
use crate::artifact::{IndexSlotView, PakIndexSlot};
use crate::btree::{slots_of, with_pages, with_tree, PakTreeBuilder};
use crate::error::{PakError, PakResult};
use crate::filing::{entry_for, faithful, lemma_agrees_empty};
use crate::index::{IndexView, PakIndex};
use crate::item::{PakItemSearchable, PakItemSerialize};
use crate::meta::{lemma_sizing_length, MetaView, PakMeta, PakSizing};
use crate::page::PageView;
use crate::pak::Pak;
use crate::pointer::{PakPointer, PakPointerView, PakTypedPointer, PakUntypedPointer, PointerView};
use crate::sorted::Filed;
use crate::source::PakSource;
use crate::tree::TreeView;
use crate::value::{same_text, PakValue, ValueView};
use crate::wire::{blob_bytes, counted_bytes, list_fits, put_counted, views, Codec, Wire};

verus! {

/// The error type of the serializer that frames the vault.
#[verifier::external_type_specification]
#[verifier::external_body]
pub struct ExErrorKind(bincode::ErrorKind);

/// Frames the vault as one blob.
///
/// Trusted: calls `bincode::serialize` on a byte vector. With the fixed-width
/// little-endian encoding that this function uses, a vector is written as its
/// length in eight bytes followed by its elements, one byte each. The call
/// cannot fail on a byte vector: the encoding sets no limit on the size, a
/// vector always knows its length, and the bytes are written into memory.
#[verifier::external_body]
fn serialize_vault(vault: &Vec<u8>) -> (r: Result<Vec<u8>, Box<bincode::ErrorKind>>)
    ensures
        r is Ok,
        r matches Ok(out) ==> out@ == blob_bytes(vault@),
{
    bincode::serialize(vault)
}

/// The size of the framed vault.
///
/// Trusted: calls `bincode::serialized_size` on a byte vector, which counts
/// eight bytes for the length and one for each element, under no limit, so
/// that it cannot fail. A vector holds fewer than two to the power of 63
/// bytes, so the count fits.
#[verifier::external_body]
fn serialized_vault_size(vault: &Vec<u8>) -> (r: Result<u64, Box<bincode::ErrorKind>>)
    ensures
        r is Ok,
        r matches Ok(size) ==> size == 8 + vault@.len(),
{
    bincode::serialized_size(vault)
}

/// What the builder remembers of a stored item: where it lies in the vault
/// and what it is filed under.
#[derive(Debug)]
pub struct PakVaultReference {
    pub pointer: PakTypedPointer,
    pub indices: Vec<PakIndex>,
}

/// Mathematical model of a [`PakVaultReference`].
pub struct ReferenceView {
    pub pointer: PointerView,
    pub indices: Seq<IndexView>,
}

impl View for PakVaultReference {
    type V = ReferenceView;

    open spec fn view(&self) -> ReferenceView {
        ReferenceView { pointer: self.pointer@, indices: views(self.indices@) }
    }
}

/// The version of the format that the builder writes.
pub const FORMAT_VERSION: &'static str = "1.0";

/// The number of entries that a page of an index holds at most.
pub const PAGE_SIZE: usize = 64;

/// The index that is built for one key. `log` lists what was filed in it.
pub struct PakIndexTree {
    pub key: String,
    pub tree: PakTreeBuilder,
    pub log: Ghost<Seq<Filed>>,
}

/// Mathematical model of a [`PakIndexTree`].
pub struct IndexTreeView {
    pub key: Seq<char>,
    pub tree: TreeView,
    pub log: Seq<Filed>,
}

impl View for PakIndexTree {
    type V = IndexTreeView;

    open spec fn view(&self) -> IndexTreeView {
        IndexTreeView { key: self.key@, tree: self.tree@, log: self.log@ }
    }
}

impl PakIndexTree {
    /// The tree is well formed, its pages hold up to [`PAGE_SIZE`] entries,
    /// and it is faithful to what was filed in it.
    pub open spec fn wf(&self) -> bool {
        &&& self.tree.wf()
        &&& self.tree.max_size == PAGE_SIZE
        &&& faithful(self.tree@, self.log@)
    }
}

/// A tree that holds nothing: one empty page.
pub open spec fn empty_tree() -> TreeView {
    TreeView {
        pages: seq![PageView { entries: Seq::empty(), next: None }],
        rank: seq![0nat],
        parent: seq![None],
    }
}

/// The place of the tree for `key` among `trees`, or their number where there is none.
pub open spec fn place_of(trees: Seq<IndexTreeView>, key: Seq<char>) -> int
    decreases trees.len(),
{
    if trees.len() == 0 {
        0
    } else if trees[0].key == key {
        0
    } else {
        1 + place_of(trees.drop_first(), key)
    }
}

/// The trees after `pointer` was filed under `value` in the tree for `key`,
/// which is added if it is not there yet.
pub open spec fn filed(
    trees: Seq<IndexTreeView>,
    key: Seq<char>,
    value: ValueView,
    pointer: PointerView,
) -> Seq<IndexTreeView> {
    let at = place_of(trees, key);
    let all = if at < trees.len() {
        trees
    } else {
        trees.push(IndexTreeView { key, tree: empty_tree(), log: Seq::empty() })
    };
    all.update(
        at,
        IndexTreeView {
            key: all[at].key,
            tree: all[at].tree.inserted(
                Seq::empty(),
                0,
                entry_for(value, pointer),
                PAGE_SIZE as nat,
            ).0,
            log: all[at].log.push((value, pointer)),
        },
    )
}

/// The trees after the first `count` index entries of an item were filed.
pub open spec fn filed_item(trees: Seq<IndexTreeView>, item: ReferenceView, count: nat) -> Seq<
    IndexTreeView,
>
    decreases count,
{
    if count == 0 {
        trees
    } else {
        filed(
            filed_item(trees, item, (count - 1) as nat),
            item.indices[count - 1].key,
            item.indices[count - 1].value,
            item.pointer,
        )
    }
}

/// The trees that the first `count` items make up: every index entry of
/// every item is filed, in the order in which the items were stored.
pub open spec fn gathered(chunks: Seq<ReferenceView>, count: nat) -> Seq<IndexTreeView>
    decreases count,
{
    if count == 0 {
        Seq::empty()
    } else {
        filed_item(
            gathered(chunks, (count - 1) as nat),
            chunks[count - 1],
            chunks[count - 1].indices.len(),
        )
    }
}

/// The builder after the first `count` trees were persisted in it.
pub open spec fn with_trees(builder: BuilderView, trees: Seq<IndexTreeView>, count: nat) -> BuilderView
    decreases count,
{
    if count == 0 {
        builder
    } else {
        with_tree(with_trees(builder, trees, (count - 1) as nat), trees[count - 1].tree.pages)
    }
}

/// The directory for the first `count` trees, persisted as above: for each
/// key the place of the tree's page table.
pub open spec fn directory_of(builder: BuilderView, trees: Seq<IndexTreeView>, count: nat) -> Seq<
    IndexSlotView,
> {
    Seq::new(
        count,
        |i: int|
            {
                let before = with_trees(builder, trees, i as nat);
                let pages = trees[i].tree.pages;
                IndexSlotView {
                    key: trees[i].key,
                    pointer: PakUntypedPointer {
                        offset: with_pages(before, pages, pages.len()).vault.len() as u64,
                        size: counted_bytes(slots_of(before, pages, pages.len())).len() as u64,
                    },
                }
            },
    )
}

/// Collects items and lays them out as an artifact. A builder can only add:
/// it cannot read back or remove what was stored.
#[derive(Debug)]
pub struct PakBuilder {
    pub chunks: Vec<PakVaultReference>,
    pub size_in_bytes: u64,
    pub vault: Vec<u8>,
    pub name: String,
    pub description: String,
    pub author: String,
}

/// Mathematical model of a [`PakBuilder`].
pub struct BuilderView {
    pub chunks: Seq<ReferenceView>,
    pub vault: Seq<u8>,
    pub name: Seq<char>,
    pub description: Seq<char>,
    pub author: Seq<char>,
}

impl View for PakBuilder {
    type V = BuilderView;

    open spec fn view(&self) -> BuilderView {
        BuilderView {
            chunks: views(self.chunks@),
            vault: self.vault@,
            name: self.name@,
            description: self.description@,
            author: self.author@,
        }
    }
}

/// What holds of every tree that a builder built: it is well formed, its
/// pages hold up to [`PAGE_SIZE`] entries and can be written, and it is
/// faithful to what was filed in it.
pub open spec fn tree_sound(tree: IndexTreeView) -> bool {
    &&& tree.tree.wf()
    &&& tree.tree.sized(PAGE_SIZE as nat, -1)
    &&& faithful(tree.tree, tree.log)
    &&& list_fits(tree.tree.pages)
}

impl BuilderView {
    /// What holds of every builder whose artifact was laid out: the
    /// artifact is no longer than memory allows, its records can be
    /// written, and its trees are sound.
    pub open spec fn sound(self) -> bool {
        &&& self.artifact().len() <= usize::MAX
        &&& self.artifact().len() == 24 + self.meta().bytes().len() + counted_bytes(
            self.directory(),
        ).len() + 8 + self.packed().vault.len()
        &&& self.meta().fits()
        &&& list_fits(self.directory())
        &&& forall|i: int| 0 <= i < self.trees().len() ==> tree_sound(#[trigger] self.trees()[i])
    }

    /// The trees that the stored items make up, one for each index key, in
    /// the order in which the keys first came up.
    pub open spec fn trees(self) -> Seq<IndexTreeView> {
        gathered(self.chunks, self.chunks.len())
    }

    /// The builder after its trees were persisted in it.
    pub open spec fn packed(self) -> BuilderView {
        with_trees(self, self.trees(), self.trees().len())
    }

    /// The directory of the persisted trees.
    pub open spec fn directory(self) -> Seq<IndexSlotView> {
        directory_of(self, self.trees(), self.trees().len())
    }

    /// The metadata of the artifact.
    pub open spec fn meta(self) -> MetaView {
        MetaView {
            name: self.name,
            version: FORMAT_VERSION@,
            description: self.description,
            author: self.author,
        }
    }

    /// The sizes of the parts of the artifact.
    pub open spec fn sizing(self) -> PakSizing {
        PakSizing {
            meta_size: self.meta().bytes().len() as u64,
            indices_size: counted_bytes(self.directory()).len() as u64,
            vault_size: (8 + self.packed().vault.len()) as u64,
        }
    }

    /// The artifact: the sizes, the metadata, the directory, and the vault
    /// with the items and the persisted trees behind its length.
    pub open spec fn artifact(self) -> Seq<u8> {
        self.sizing().bytes() + self.meta().bytes() + counted_bytes(self.directory())
            + blob_bytes(self.packed().vault)
    }

    /// The bytes of item `i`: what its pointer names in the vault.
    pub open spec fn item(self, i: int) -> Seq<u8> {
        self.vault.subrange(
            self.chunks[i].pointer.offset as int,
            self.chunks[i].pointer.offset + self.chunks[i].pointer.size,
        )
    }

    /// Every item lies in the vault where its pointer says.
    pub open spec fn stocked(self) -> bool {
        forall|i: int|
            0 <= i < self.chunks.len() ==> (#[trigger] self.chunks[i]).pointer.offset
                + self.chunks[i].pointer.size <= self.vault.len()
    }

    /// The pointer that the next stored item gets: the item starts where
    /// the vault ends now.
    pub open spec fn next_pointer(self, bytes: Seq<u8>, type_tag: Seq<char>) -> PointerView {
        PointerView { offset: self.vault.len() as u64, size: bytes.len() as u64, type_tag }
    }

    /// The builder after an item with these bytes, tag and index entries was stored.
    pub open spec fn stored(self, bytes: Seq<u8>, type_tag: Seq<char>, indices: Seq<IndexView>) -> BuilderView {
        BuilderView {
            chunks: self.chunks.push(
                ReferenceView { pointer: self.next_pointer(bytes, type_tag), indices },
            ),
            vault: self.vault + bytes,
            name: self.name,
            description: self.description,
            author: self.author,
        }
    }
}

/// The place of the tree for `key`, if there is one.
fn find_tree(trees: &Vec<PakIndexTree>, key: &str) -> (r: usize)
    ensures
        r == place_of(views(trees@), key@),
        r <= trees@.len(),
{
    let mut i: usize = 0;
    let ghost all = views(trees@);
    proof {
        assert(all.skip(0) =~= all);
    }
    while i < trees.len()
        invariant
            i <= trees@.len(),
            all == views(trees@),
            place_of(all, key@) == i + place_of(all.skip(i as int), key@),
        decreases trees@.len() - i,
    {
        proof {
            assert(all.skip(i as int).drop_first() =~= all.skip(i + 1));
            assert(all.skip(i as int)[0] == trees@[i as int]@);
        }
        if same_text(trees[i].key.as_str(), key) {
            return i;
        }
        i += 1;
    }
    i
}

/// Files `pointer` under `value` in the tree for `key`, which is added if it
/// is not there yet.
pub fn file(trees: &mut Vec<PakIndexTree>, key: &str, value: PakValue, pointer: PakTypedPointer)
    requires
        forall|i: int| 0 <= i < old(trees)@.len() ==> (#[trigger] old(trees)@[i]).wf(),
    ensures
        forall|i: int| 0 <= i < final(trees)@.len() ==> (#[trigger] final(trees)@[i]).wf(),
        views(final(trees)@) == filed(views(old(trees)@), key@, value@, pointer@),
{
    let at = find_tree(trees, key);
    let ghost before = views(trees@);
    if at == trees.len() {
        proof {
            vstd::arithmetic::power2::lemma2_to64();
        }
        let tree = PakTreeBuilder::new(6);
        proof {
            assert(tree@ =~= empty_tree());
            lemma_empty_faithful(tree@);
        }
        trees.push(PakIndexTree { key: key.to_owned(), tree, log: Ghost(Seq::empty()) });
        proof {
            assert(views(trees@) =~= before.push(
                IndexTreeView { key: key@, tree: empty_tree(), log: Seq::empty() },
            ));
        }
    }
    let ghost all = views(trees@);
    let ghost was = trees@;
    let ghost filed = (value@, pointer@);
    proof {
        assert(faithful(was[at as int].tree@, was[at as int].log@));
    }
    trees[at].tree.add(value, pointer);
    trees[at].log = Ghost(was[at as int].log@.push(filed));
    proof {
        assert(views(trees@) =~= all.update(at as int, trees@[at as int]@));
        assert forall|i: int| 0 <= i < trees@.len() implies (#[trigger] trees@[i]).wf() by {
            if i != at {
                assert(trees@[i] == was[i]);
            }
        }
    }
}

/// An empty tree is a search tree that holds nothing.
pub proof fn lemma_empty_faithful(t: TreeView)
    requires
        t == empty_tree(),
        t.wf(),
    ensures
        faithful(t, Seq::empty()),
        t.sorted(),
{
    lemma_agrees_empty(t);
    assert forall|p: int| 0 <= p < t.pages.len() implies #[trigger] t.ranked(p) && t.homed(p) by {}
    assert forall|p: int, q: int|
        0 <= p < t.pages.len() && 0 <= q < t.pages.len() implies #[trigger] t.unlike(p, q) by {}
    assert forall|p: int, j: int| 0 <= p < t.pages.len() implies #[trigger] t.under(p, j) by {}
    crate::sorted::lemma_sorted_whole(t);
}

/// Persisting trees leaves the name, the description and the author as they are.
proof fn lemma_with_trees_fields(builder: BuilderView, trees: Seq<IndexTreeView>, count: nat)
    ensures
        with_trees(builder, trees, count).name == builder.name,
        with_trees(builder, trees, count).description == builder.description,
        with_trees(builder, trees, count).author == builder.author,
    decreases count,
{
    if count > 0 {
        lemma_with_trees_fields(builder, trees, (count - 1) as nat);
        let before = with_trees(builder, trees, (count - 1) as nat);
        lemma_with_pages_fields(before, trees[count - 1].tree.pages, trees[count - 1].tree.pages.len());
    }
}

/// Storing pages leaves the name, the description and the author as they are.
proof fn lemma_with_pages_fields(builder: BuilderView, pages: Seq<PageView>, count: nat)
    ensures
        with_pages(builder, pages, count).name == builder.name,
        with_pages(builder, pages, count).description == builder.description,
        with_pages(builder, pages, count).author == builder.author,
    decreases count,
{
    if count > 0 {
        lemma_with_pages_fields(builder, pages, (count - 1) as nat);
    }
}

/// The builder with its trees persisted has the metadata it had before.
proof fn lemma_same_fields(start: BuilderView, packed: BuilderView)
    requires
        packed == with_trees(start, start.trees(), start.trees().len()),
    ensures
        packed.name == start.name,
        packed.description == start.description,
        packed.author == start.author,
        packed == start.packed(),
{
    lemma_with_trees_fields(start, start.trees(), start.trees().len());
}

/// Writes the four parts of an artifact one after the other: the sizes of the
/// other three, the metadata, the directory, and the vault. `framed` is the
/// vault as the blob that is written, `vault_size` the size of that blob.
pub fn assemble(
    meta: &PakMeta,
    directory: &Vec<PakIndexSlot>,
    framed: Vec<u8>,
    vault_size: u64,
) -> (r: (Vec<u8>, PakSizing))
    ensures
        r.0@ == r.1.bytes() + meta@.bytes() + counted_bytes(views(directory@)) + framed@,
        r.1.meta_size == meta@.bytes().len(),
        r.1.indices_size == counted_bytes(views(directory@)).len(),
        r.1.vault_size == vault_size,
        r.0@.len() == 24 + r.1.meta_size + r.1.indices_size + framed@.len(),
        meta@.fits(),
        list_fits(views(directory@)),
{
    let mut framed = framed;
    let ghost vault_out = framed@;
    let mut meta_out: Vec<u8> = Vec::new();
    meta.put(&mut meta_out);
    let mut directory_out: Vec<u8> = Vec::new();
    put_counted(&mut directory_out, directory);
    let sizing = PakSizing {
        meta_size: meta_out.len() as u64,
        indices_size: directory_out.len() as u64,
        vault_size,
    };
    let mut out: Vec<u8> = Vec::new();
    sizing.put(&mut out);
    proof {
        lemma_sizing_length(sizing);
        assert(meta_out@ =~= meta@.bytes());
        assert(directory_out@ =~= counted_bytes(views(directory@)));
        assert(out@ =~= sizing.bytes());
    }
    out.append(&mut meta_out);
    out.append(&mut directory_out);
    out.append(&mut framed);
    (out, sizing)
}

/// Lays out an artifact: frames the vault as one blob and writes the sizes,
/// the metadata, the directory and the framed vault one after the other.
/// This always succeeds.
pub fn lay_out(meta: &PakMeta, directory: &Vec<PakIndexSlot>, vault: &Vec<u8>) -> (r: PakResult<
    (Vec<u8>, PakSizing),
>)
    ensures
        r matches Ok((out, sizing)) && {
            &&& out@ == sizing.bytes() + meta@.bytes() + counted_bytes(views(directory@))
                + blob_bytes(vault@)
            &&& sizing.meta_size == meta@.bytes().len()
            &&& sizing.indices_size == counted_bytes(views(directory@)).len()
            &&& sizing.vault_size == 8 + vault@.len()
            &&& out@.len() == 24 + sizing.meta_size + sizing.indices_size + sizing.vault_size
            &&& out@.len() <= usize::MAX
            &&& meta@.fits()
            &&& list_fits(views(directory@))
        },
{
    let vault_size = match serialized_vault_size(vault) {
        Ok(size) => size,
        Err(_) => {
            return Err(PakError::Decode);
        },
    };
    let framed = match serialize_vault(vault) {
        Ok(out) => out,
        Err(_) => {
            return Err(PakError::Decode);
        },
    };
    proof {
        crate::wire::lemma_u64_round_trip(vault@.len() as u64, vault@);
    }
    let (out, sizing) = assemble(meta, directory, framed, vault_size);
    proof {
        assert(out.len() <= usize::MAX);
    }
    Ok((out, sizing))
}

impl PakBuilder {
    /// The builder's count of bytes is the length of its vault, and every
    /// item lies in the vault where its pointer says.
    pub open spec fn wf(&self) -> bool {
        &&& self.size_in_bytes == self.vault@.len()
        &&& self@.stocked()
    }

    /// A builder that holds nothing.
    pub fn new() -> (r: Self)
        ensures
            r.wf(),
            r@ == (BuilderView {
                chunks: Seq::empty(),
                vault: Seq::empty(),
                name: Seq::empty(),
                description: Seq::empty(),
                author: Seq::empty(),
            }),
    {
        let r = PakBuilder {
            vault: Vec::new(),
            chunks: Vec::new(),
            size_in_bytes: 0,
            name: String::new(),
            description: String::new(),
            author: String::new(),
        };
        proof {
            assert(views(r.chunks@) =~= Seq::<ReferenceView>::empty());
        }
        r
    }

    /// Stores the bytes of an item at the end of the vault and remembers the
    /// item's index entries. Gives the pointer to the item: its offset is the
    /// size of the vault before, its size the number of bytes, its tag `type_tag`.
    pub fn store(&mut self, bytes: Vec<u8>, type_tag: &str, indices: Vec<PakIndex>) -> (r:
        PakPointer)
        requires
            old(self).wf(),
        ensures
            final(self).wf(),
            final(self)@ == old(self)@.stored(bytes@, type_tag@, views(indices@)),
            r@ == PakPointerView::Typed(old(self)@.next_pointer(bytes@, type_tag@)),
            old(self)@.vault.len() + bytes@.len() <= usize::MAX,
            crate::layout::lies_at(final(self)@.vault, old(self)@.vault.len() as int, bytes@),
            old(self)@.vault.is_prefix_of(final(self)@.vault),
            final(self)@.item(old(self)@.chunks.len() as int) == bytes@,
            forall|i: int|
                0 <= i < old(self)@.chunks.len() ==> #[trigger] final(self)@.item(i) == old(
                    self,
                )@.item(i),
    {
        let ghost stored = bytes@;
        let mut bytes = bytes;
        let size = bytes.len() as u64;
        let pointer = PakTypedPointer::new(self.size_in_bytes, size, type_tag);
        let ghost before = views(self.chunks@);
        self.vault.append(&mut bytes);
        self.size_in_bytes = self.vault.len() as u64;
        let kept = pointer.clone();
        self.chunks.push(PakVaultReference { pointer, indices });
        proof {
            assert(views(self.chunks@) =~= before.push(
                ReferenceView { pointer: kept@, indices: views(indices@) },
            ));
            assert(self.vault@.subrange(
                old(self).vault@.len() as int,
                (old(self).vault@.len() + stored.len()) as int,
            ) =~= stored);
            assert forall|i: int| 0 <= i < self@.chunks.len() implies (
            #[trigger] self@.chunks[i]).pointer.offset + self@.chunks[i].pointer.size
                <= self@.vault.len() by {
                if i < before.len() {
                    assert(self@.chunks[i] == old(self)@.chunks[i]);
                }
            }
            assert(self@.item(old(self)@.chunks.len() as int) =~= stored);
            assert forall|i: int| 0 <= i < old(self)@.chunks.len() implies #[trigger] self@.item(
                i,
            ) == old(self)@.item(i) by {
                assert(self@.chunks[i] == old(self)@.chunks[i]);
                assert(old(self)@.chunks[i].pointer.offset + old(self)@.chunks[i].pointer.size
                    <= old(self)@.vault.len());
                assert(self@.item(i) =~= old(self)@.item(i));
            }
        }
        PakPointer::Typed(kept)
    }

    /// Adds an item that cannot be searched for: its bytes are stored under
    /// the tag of its type. Fails, and changes nothing, where the item gives
    /// no bytes.
    pub fn pak_no_search<T: PakItemSerialize>(&mut self, item: T) -> (r: PakResult<PakPointer>)
        requires
            old(self).wf(),
        ensures
            final(self).wf(),
            match r {
                Ok(pointer) => exists|bytes: Vec<u8>, tag: String|
                    {
                        &&& #[trigger] call_ensures(
                            T::into_bytes,
                            (&item,),
                            Ok::<Vec<u8>, PakError>(bytes),
                        )
                        &&& #[trigger] call_ensures(T::type_tag, (), tag)
                        &&& final(self)@ == old(self)@.stored(bytes@, tag@, Seq::empty())
                        &&& pointer@ == PakPointerView::Typed(
                            old(self)@.next_pointer(bytes@, tag@),
                        )
                    },
                Err(e) => final(self)@ == old(self)@ && call_ensures(
                    T::into_bytes,
                    (&item,),
                    Err::<Vec<u8>, PakError>(e),
                ),
            },
    {
        let bytes = match item.into_bytes() {
            Ok(bytes) => bytes,
            Err(e) => {
                return Err(e);
            },
        };
        let tag = T::type_tag();
        let indices: Vec<PakIndex> = Vec::new();
        proof {
            assert(views(indices@) =~= Seq::<IndexView>::empty());
        }
        let ghost b = bytes;
        let pointer = self.store(bytes, tag.as_str(), indices);
        proof {
            assert(self@ == old(self)@.stored(b@, tag@, Seq::empty()));
            assert(call_ensures(T::into_bytes, (&item,), Ok::<Vec<u8>, PakError>(b)));
            assert(call_ensures(T::type_tag, (), tag));
        }
        Ok(pointer)
    }

    /// Adds an item that can be searched for: its bytes are stored under the
    /// tag of its type, and it is filed under its index entries. Fails, and
    /// changes nothing, where the item gives no bytes.
    pub fn pak<T: PakItemSerialize + PakItemSearchable>(&mut self, item: T) -> (r: PakResult<
        PakPointer,
    >)
        requires
            old(self).wf(),
        ensures
            final(self).wf(),
            match r {
                Ok(pointer) => exists|bytes: Vec<u8>, tag: String, indices: Vec<PakIndex>|
                    {
                        &&& #[trigger] call_ensures(
                            T::into_bytes,
                            (&item,),
                            Ok::<Vec<u8>, PakError>(bytes),
                        )
                        &&& #[trigger] call_ensures(T::type_tag, (), tag)
                        &&& #[trigger] call_ensures(T::get_indices, (&item,), indices)
                        &&& final(self)@ == old(self)@.stored(bytes@, tag@, views(indices@))
                        &&& pointer@ == PakPointerView::Typed(
                            old(self)@.next_pointer(bytes@, tag@),
                        )
                    },
                Err(e) => final(self)@ == old(self)@ && call_ensures(
                    T::into_bytes,
                    (&item,),
                    Err::<Vec<u8>, PakError>(e),
                ),
            },
    {
        let indices = item.get_indices();
        let bytes = match item.into_bytes() {
            Ok(bytes) => bytes,
            Err(e) => {
                return Err(e);
            },
        };
        let tag = T::type_tag();
        let ghost b = bytes;
        let ghost i = indices;
        let pointer = self.store(bytes, tag.as_str(), indices);
        proof {
            assert(self@ == old(self)@.stored(b@, tag@, views(i@)));
            assert(call_ensures(T::into_bytes, (&item,), Ok::<Vec<u8>, PakError>(b)));
            assert(call_ensures(T::type_tag, (), tag));
            assert(call_ensures(T::get_indices, (&item,), i));
        }
        Ok(pointer)
    }

    /// Gathers the index entries of the stored items into one tree per key.
    fn gather(&self) -> (trees: Vec<PakIndexTree>)
        ensures
            views(trees@) == self@.trees(),
            forall|i: int| 0 <= i < trees@.len() ==> (#[trigger] trees@[i]).wf(),
    {
        let mut trees: Vec<PakIndexTree> = Vec::new();
        let ghost chunks = self@.chunks;
        let mut c: usize = 0;
        proof {
            assert(views(trees@) =~= gathered(chunks, 0));
        }
        while c < self.chunks.len()
            invariant
                c <= self.chunks@.len(),
                chunks == self@.chunks,
                views(trees@) == gathered(chunks, c as nat),
                forall|i: int| 0 <= i < trees@.len() ==> (#[trigger] trees@[i]).wf(),
            decreases self.chunks@.len() - c,
        {
            let chunk = &self.chunks[c];
            let ghost item = chunks[c as int];
            let ghost base = gathered(chunks, c as nat);
            let mut k: usize = 0;
            proof {
                assert(item == chunk@);
            }
            while k < chunk.indices.len()
                invariant
                    k <= chunk.indices@.len(),
                    item == chunk@,
                    views(trees@) == filed_item(base, item, k as nat),
                    forall|i: int| 0 <= i < trees@.len() ==> (#[trigger] trees@[i]).wf(),
                decreases chunk.indices@.len() - k,
            {
                let index = &chunk.indices[k];
                proof {
                    assert(item.indices[k as int] == index@);
                }
                file(&mut trees, index.key.as_str(), index.value.clone(), chunk.pointer.clone());
                k += 1;
            }
            c += 1;
        }
        trees
    }

    /// Persists the trees in the vault, one after the other, and gives the
    /// directory that says where the page table of each tree lies.
    fn persist(&mut self, trees: Vec<PakIndexTree>) -> (r: PakResult<Vec<PakIndexSlot>>)
        requires
            old(self).wf(),
        ensures
            final(self).wf(),
            r matches Ok(directory) && views(directory@) == directory_of(
                old(self)@,
                views(trees@),
                trees@.len(),
            ),
            final(self)@ == with_trees(old(self)@, views(trees@), trees@.len()),
            forall|i: int|
                0 <= i < trees@.len() ==> list_fits((#[trigger] views(trees@)[i]).tree.pages),
    {
        let mut trees = trees;
        let ghost start = self@;
        let ghost all = views(trees@);
        let mut directory: Vec<PakIndexSlot> = Vec::new();
        let ghost done: nat = 0;
        proof {
            assert(views(trees@) =~= all.skip(0));
            assert(views(directory@) =~= directory_of(start, all, 0));
        }
        while trees.len() > 0
            invariant
                done + trees@.len() == all.len(),
                views(trees@) == all.skip(done as int),
                self.wf(),
                self@ == with_trees(start, all, done),
                views(directory@) == directory_of(start, all, done),
                forall|i: int| 0 <= i < done ==> list_fits((#[trigger] all[i]).tree.pages),
            decreases trees@.len(),
        {
            let ghost before = views(directory@);
            let ghost rest = trees@;
            let tree = trees.remove(0);
            proof {
                assert(trees@ =~= rest.remove(0));
                assert(tree@ == views(rest)[0]);
                assert(views(rest)[0] == all[done as int]);
                assert(views(trees@) =~= all.skip((done + 1) as int)) by {
                    assert forall|j: int| 0 <= j < trees@.len() implies views(trees@)[j]
                        == all.skip((done + 1) as int)[j] by {
                        assert(trees@[j] == rest[j + 1]);
                        assert(views(rest)[j + 1] == all.skip(done as int)[j + 1]);
                    }
                }
            }
            let pointer = match tree.tree.into_pak(self) {
                Ok(pointer) => pointer,
                Err(e) => {
                    return Err(e);
                },
            };
            directory.push(PakIndexSlot { key: tree.key, pointer: pointer.as_untyped() });
            proof {
                assert(views(directory@) =~= before.push(directory@.last()@));
                assert(views(directory@) =~= directory_of(start, all, done + 1));
                done = done + 1;
            }
        }
        Ok(directory)
    }

    /// Lays out the artifact: gathers the index entries into trees, persists
    /// the trees in the vault, and writes the sizes, the metadata, the
    /// directory and the vault one after the other.
    pub fn build_internal(self) -> (r: PakResult<(Vec<u8>, PakSizing, PakMeta)>)
        requires
            self.wf(),
        ensures
            r matches Ok((out, sizing, meta)) && {
                &&& out@ == self@.artifact()
                &&& sizing == self@.sizing()
                &&& meta@ == self@.meta()
                &&& out@.len() == 24 + sizing.meta_size + sizing.indices_size + sizing.vault_size
                &&& sizing.vault_size >= 8
                &&& out@.len() <= usize::MAX
                &&& self@.sound()
            },
    {
        let mut this = self;
        let trees = this.gather();
        let ghost gathered = views(trees@);
        proof {
            assert forall|i: int| 0 <= i < trees@.len() implies (#[trigger] gathered[i]).tree.wf()
                && gathered[i].tree.sized(PAGE_SIZE as nat, -1) && faithful(
                gathered[i].tree,
                gathered[i].log,
            ) by {
                assert(trees@[i].wf());
            }
        }
        let directory = match this.persist(trees) {
            Ok(directory) => directory,
            Err(e) => {
                return Err(e);
            },
        };
        let meta = PakMeta {
            name: this.name.clone(),
            version: FORMAT_VERSION.to_owned(),
            description: this.description.clone(),
            author: this.author.clone(),
        };
        proof {
            lemma_same_fields(self@, this@);
        }
        match lay_out(&meta, &directory, &this.vault) {
            Ok((out, sizing)) => {
                proof {
                    assert forall|i: int| 0 <= i < self@.trees().len() implies tree_sound(
                        #[trigger] self@.trees()[i],
                    ) by {
                        assert(list_fits(gathered[i].tree.pages));
                    }
                }
                Ok((out, sizing, meta))
            },
            Err(e) => Err(e),
        }
    }

    /// Lays out the artifact and opens it from memory. The pak answers every
    /// query whose values are coherent with the values that were filed with
    /// what the query asks for of the stored items, and it gives for the
    /// pointer of every stored item the bytes of the item.
    pub fn build_in_memory(self) -> (r: PakResult<Pak>)
        requires
            self.wf(),
        ensures
            r matches Ok(pak) && {
                &&& pak.wf()
                &&& pak@ == self@.pak()
                &&& self@.sound()
                &&& forall|query: crate::query::QueryView|
                    self@.askable(query) ==> #[trigger] crate::query::answer(pak@, query)
                        == self@.asked(query)
                &&& forall|i: int|
                    0 <= i < self@.chunks.len() ==> #[trigger] pak@.item(
                        self@.chunks[i].pointer.offset,
                        self@.chunks[i].pointer.size,
                    ) == Ok::<Seq<u8>, crate::error::PakFault>(self@.item(i))
            },
    {
        let ghost b = self@;
        match self.build_internal() {
            Ok((out, sizing, meta)) => {
                proof {
                    assert(out.len() <= usize::MAX);
                }
                let pak = Pak { sizing, meta, source: PakSource::new(out) };
                proof {
                    assert(pak@ == b.pak());
                    assert forall|query: crate::query::QueryView| b.askable(query) implies (
                    #[trigger] crate::query::answer(pak@, query)) == b.asked(query) by {
                        crate::law::law_query_is_answered(b, query);
                    }
                    assert forall|i: int| 0 <= i < b.chunks.len() implies #[trigger] pak@.item(
                        b.chunks[i].pointer.offset,
                        b.chunks[i].pointer.size,
                    ) == Ok::<Seq<u8>, crate::error::PakFault>(b.item(i)) by {
                        crate::law::law_item_is_read_back(b, i);
                    }
                }
                Ok(pak)
            },
            Err(e) => Err(e),
        }
    }

    /// The size of the vault in bytes.
    pub fn size(&self) -> (r: u64)
        ensures
            r == self.size_in_bytes,
    {
        self.size_in_bytes
    }

    /// The number of items stored.
    pub fn len(&self) -> (r: usize)
        ensures
            r == self@.chunks.len(),
    {
        self.chunks.len()
    }

    /// The builder with this name in its metadata.
    pub fn with_name(self, name: &str) -> (r: Self)
        ensures
            r@ == (BuilderView { name: name@, ..self@ }),
            r.size_in_bytes == self.size_in_bytes,
    {
        let mut r = self;
        r.name = name.to_owned();
        r
    }

    /// The builder with this description in its metadata.
    pub fn with_description(self, description: &str) -> (r: Self)
        ensures
            r@ == (BuilderView { description: description@, ..self@ }),
            r.size_in_bytes == self.size_in_bytes,
    {
        let mut r = self;
        r.description = description.to_owned();
        r
    }

    /// The builder with this author in its metadata.
    pub fn with_author(self, author: &str) -> (r: Self)
        ensures
            r@ == (BuilderView { author: author@, ..self@ }),
            r.size_in_bytes == self.size_in_bytes,
    {
        let mut r = self;
        r.author = author.to_owned();
        r
    }

    /// Sets the name in the metadata.
    pub fn set_name(&mut self, name: &str)
        ensures
            final(self)@ == (BuilderView { name: name@, ..old(self)@ }),
            final(self).size_in_bytes == old(self).size_in_bytes,
    {
        self.name = name.to_owned();
    }

    /// Sets the description in the metadata.
    pub fn set_description(&mut self, description: &str)
        ensures
            final(self)@ == (BuilderView { description: description@, ..old(self)@ }),
            final(self).size_in_bytes == old(self).size_in_bytes,
    {
        self.description = description.to_owned();
    }

    /// Sets the author in the metadata.
    pub fn set_author(&mut self, author: &str)
        ensures
            final(self)@ == (BuilderView { author: author@, ..old(self)@ }),
            final(self).size_in_bytes == old(self).size_in_bytes,
    {
        self.author = author.to_owned();
    }
}

} // verus!
