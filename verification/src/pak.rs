//! Reading an artifact: the header, the directory of indices, and items by pointer.
use vstd::prelude::*;
use crate::artifact::{directory_lookup, opened, PakIndexSlot, PakView};
use crate::error::{PakError, PakFault, PakResult};
use crate::item::PakItemDeserialize;
use crate::meta::{PakMeta, PakSizing};
use crate::pointer::{PakPointer, PakPointerView, PakUntypedPointer};
use crate::source::PakSource;
use crate::wire::{take_counted, views, Codec};

verus! {

/// An open pak: the source of its bytes and the two header records, which are
/// read once when the pak is opened. Everything else is read when it is asked for.
#[derive(Debug)]
pub struct Pak {
    pub sizing: PakSizing,
    pub meta: PakMeta,
    pub source: PakSource,
}

impl View for Pak {
    type V = PakView;

    open spec fn view(&self) -> PakView {
        PakView { sizing: self.sizing, meta: self.meta@, bytes: self.source@ }
    }
}

/// Fails with a type mismatch unless the pointer may be read as the type
/// with the tag `requested`: an untyped pointer may be read as any type, a
/// typed one as the type whose tag it carries.
pub fn check_type(pointer: &PakPointer, requested: &str) -> (r: PakResult<()>)
    ensures
        match r {
            Ok(_) => pointer@.matches(requested@),
            Err(PakError::TypeMismatch(found, wanted)) => !pointer@.matches(requested@)
                && pointer@ == PakPointerView::Typed(
                crate::pointer::PointerView {
                    offset: pointer@.offset(),
                    size: pointer@.size(),
                    type_tag: found@,
                },
            ) && wanted@ == requested@,
            Err(_) => false,
        },
{
    if pointer.matches(requested) {
        Ok(())
    } else {
        Err(PakError::TypeMismatch(pointer.type_tag().to_owned(), requested.to_owned()))
    }
}

/// Whether `r` may come of reading the item that `pointer` names as a `T`
/// whose tag is `tag`. A pointer that carries another tag gives a type
/// mismatch that names both tags; bytes that the pak does not hold give the
/// fault of the read; else `r` is what `T` makes of the bytes.
pub open spec fn read_as<T: PakItemDeserialize>(
    pak: PakView,
    pointer: PakPointerView,
    tag: Seq<char>,
    r: PakResult<T>,
) -> bool {
    if !pointer.matches(tag) {
        r matches Err(PakError::TypeMismatch(found, wanted)) && pointer matches PakPointerView::Typed(
            p,
        ) && found@ == p.type_tag && wanted@ == tag
    } else {
        match pak.item(pointer.offset(), pointer.size()) {
            Err(f) => r matches Err(e) && e.fault() == f,
            Ok(b) => exists|bytes: &[u8]|
                bytes@ == b && #[trigger] call_ensures(T::from_bytes, (bytes,), r),
        }
    }
}

/// The pointer that the directory holds for `key`.
pub fn find_index(directory: &Vec<PakIndexSlot>, key: &str) -> (r: Option<PakUntypedPointer>)
    ensures
        r == directory_lookup(views(directory@), key@),
{
    let mut i = directory.len();
    let ghost all = views(directory@);
    proof {
        assert(all.take(i as int) =~= all);
    }
    while i > 0
        invariant
            i <= directory@.len(),
            all == views(directory@),
            directory_lookup(all, key@) == directory_lookup(all.take(i as int), key@),
        decreases i,
    {
        i -= 1;
        proof {
            assert(all.take(i + 1).drop_last() =~= all.take(i as int));
            assert(all.take(i + 1).last() == directory@[i as int]@);
        }
        if crate::value::same_text(directory[i].key.as_str(), key) {
            return Some(directory[i].pointer);
        }
    }
    None
}

impl Pak {
    /// The sizes add up to a 64-bit number.
    pub open spec fn wf(&self) -> bool {
        self@.wf()
    }

    /// Opens the pak that `source` holds: reads the sizes from its first 24
    /// bytes and the metadata behind them.
    pub fn new(source: PakSource) -> (r: PakResult<Pak>)
        ensures
            match opened(source@) {
                Ok(v) => r matches Ok(pak) && pak@ == v && pak.wf(),
                Err(f) => r matches Err(e) && e.fault() == f,
            },
    {
        let head = match source.read(&PakPointer::new_untyped(0, 24), 0) {
            Ok(head) => head,
            Err(e) => {
                return Err(e);
            },
        };
        proof {
            assert(head@.skip(0) =~= head@);
        }
        let sizing = match PakSizing::take(head.as_slice(), 0) {
            Some((sizing, _)) => sizing,
            None => {
                return Err(PakError::Decode);
            },
        };
        let total = 24 + sizing.meta_size as u128 + sizing.indices_size as u128;
        if total + 8 > u64::MAX as u128 || total + sizing.vault_size as u128 > u64::MAX as u128 {
            return Err(PakError::Corruption);
        }
        let raw = match source.read(&PakPointer::new_untyped(24, sizing.meta_size), 0) {
            Ok(raw) => raw,
            Err(e) => {
                return Err(e);
            },
        };
        proof {
            assert(raw@.skip(0) =~= raw@);
        }
        match PakMeta::take(raw.as_slice(), 0) {
            Some((meta, _)) => Ok(Pak { sizing, meta, source }),
            None => Err(PakError::Decode),
        }
    }

    /// The size of the whole artifact in bytes, as its header states it.
    pub fn size(&self) -> (r: u64)
        requires
            self.wf(),
        ensures
            r == 24 + self.sizing.meta_size + self.sizing.indices_size + self.sizing.vault_size,
    {
        24 + self.sizing.meta_size + self.sizing.indices_size + self.sizing.vault_size
    }

    /// The name given to the pak.
    pub fn name(&self) -> (r: &str)
        ensures
            r@ == self@.meta.name,
    {
        self.meta.name.as_str()
    }

    /// The version of the pak format.
    pub fn version(&self) -> (r: &str)
        ensures
            r@ == self@.meta.version,
    {
        self.meta.version.as_str()
    }

    /// The author of the pak.
    pub fn author(&self) -> (r: &str)
        ensures
            r@ == self@.meta.author,
    {
        self.meta.author.as_str()
    }

    /// The description of the pak.
    pub fn description(&self) -> (r: &str)
        ensures
            r@ == self@.meta.description,
    {
        self.meta.description.as_str()
    }

    /// Where the items of the vault start.
    pub fn get_vault_start(&self) -> (r: u64)
        requires
            self.wf(),
        ensures
            r == self@.vault_start(),
    {
        24 + self.sizing.meta_size + self.sizing.indices_size + 8
    }

    /// Where the directory of indices starts.
    pub fn get_indices_start(&self) -> (r: u64)
        requires
            self.wf(),
        ensures
            r == self@.indices_start(),
    {
        24 + self.sizing.meta_size
    }

    /// The bytes of the vault that `pointer` names.
    pub fn read_bytes(&self, pointer: &PakPointer) -> (r: PakResult<Vec<u8>>)
        requires
            self.wf(),
        ensures
            match self@.item(pointer@.offset(), pointer@.size()) {
                Ok(b) => r matches Ok(bytes) && bytes@ == b,
                Err(f) => r matches Err(e) && e.fault() == f,
            },
    {
        self.source.read(pointer, self.get_vault_start())
    }

    /// Reads the item that `pointer` names as a `T`. Fails where the pointer
    /// carries the tag of another type, where the source does not hold the
    /// bytes, and where `T` does not accept them.
    pub fn read_err<T: PakItemDeserialize>(&self, pointer: &PakPointer) -> (r: PakResult<T>)
        requires
            self.wf(),
        ensures
            exists|tag: String| #[trigger]
                call_ensures(T::type_tag, (), tag) && read_as::<T>(self@, pointer@, tag@, r),
    {
        let tag = T::type_tag();
        match check_type(pointer, tag.as_str()) {
            Ok(_) => {},
            Err(e) => {
                return Err(e);
            },
        }
        let bytes = match self.read_bytes(pointer) {
            Ok(bytes) => bytes,
            Err(e) => {
                return Err(e);
            },
        };
        T::from_bytes(bytes.as_slice())
    }

    /// Reads the item that `pointer` names as a `T`, or nothing where that fails.
    pub fn read<T: PakItemDeserialize>(&self, pointer: &PakPointer) -> (r: Option<T>)
        requires
            self.wf(),
        ensures
            exists|tag: String, read: PakResult<T>|
                #![trigger call_ensures(T::type_tag, (), tag), read_as::<T>(self@, pointer@, tag@, read)]
                {
                    &&& call_ensures(T::type_tag, (), tag)
                    &&& read_as::<T>(self@, pointer@, tag@, read)
                    &&& match read {
                        Ok(item) => r == Some(item),
                        Err(_) => r is None,
                    }
                },
    {
        match self.read_err(pointer) {
            Ok(item) => Some(item),
            Err(_) => None,
        }
    }

    /// The pointers that a query finds.
    pub fn query_pointers(&self, query: &crate::query::PakQuery) -> (r: PakResult<
        crate::set::PakPointerSet,
    >)
        requires
            self.wf(),
        ensures
            match crate::query::answer(self@, query@) {
                Ok(found) => r matches Ok(set) && set.wf() && set@ == found,
                Err(f) => r matches Err(e) && e.fault() == f,
            },
    {
        query.execute(self)
    }

    /// The items that a query finds, grouped as `G` says. Fails where the
    /// query fails; an item that cannot be read as a type of the group is
    /// left out of that type's sequence.
    pub fn query<G: crate::group::PakItemDeserializeGroup>(
        &self,
        query: crate::query::PakQuery,
    ) -> (r: PakResult<G::ReturnType>)
        requires
            self.wf(),
        ensures
            match crate::query::answer(self@, query@) {
                Ok(found) => exists|set: crate::set::PakPointerSet|
                    set.wf() && set@ == found && #[trigger] call_ensures(
                        G::deserialize_group,
                        (self, &set),
                        r,
                    ),
                Err(f) => r matches Err(e) && e.fault() == f,
            },
    {
        match self.query_pointers(&query) {
            Ok(pointers) => {
                let r = G::deserialize_group(self, &pointers);
                proof {
                    assert(call_ensures(G::deserialize_group, (self, &pointers), r));
                }
                r
            },
            Err(e) => Err(e),
        }
    }

    /// Loads the index for `key`.
    pub fn get_tree(&self, key: &str) -> (r: PakResult<crate::search::PakTree<'_>>)
        requires
            self.wf(),
        ensures
            match self@.tree(key@) {
                Ok(table) => r matches Ok(tree) && tree.meta@ == table && tree.pak == self,
                Err(PakFault::IndexMissing) => r matches Err(PakError::IndexMissing(k)) && k@
                    == key@,
                Err(f) => r matches Err(e) && e.fault() == f,
            },
    {
        crate::search::PakTree::new(self, key)
    }

    /// Reads the directory of indices.
    pub fn fetch_indices(&self) -> (r: PakResult<Vec<PakIndexSlot>>)
        requires
            self.wf(),
        ensures
            match self@.directory() {
                Ok(directory) => r matches Ok(found) && views(found@) == directory,
                Err(f) => r matches Err(e) && e.fault() == f,
            },
    {
        let pointer = PakPointer::new_untyped(self.get_indices_start(), self.sizing.indices_size);
        let raw = match self.source.read(&pointer, 0) {
            Ok(raw) => raw,
            Err(e) => {
                return Err(e);
            },
        };
        proof {
            assert(raw@.skip(0) =~= raw@);
        }
        match take_counted::<PakIndexSlot>(raw.as_slice(), 0) {
            Some((directory, _)) => Ok(directory),
            None => Err(PakError::Decode),
        }
    }
}

} // verus!
