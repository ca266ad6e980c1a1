//! What an item must provide to be stored in, found in and read from a pak.
use vstd::prelude::*;
use vstd::slice::slice_subrange;
use crate::error::{PakError, PakResult};
use crate::index::PakIndex;
use crate::pak::{read_as, Pak};
use crate::pointer::PakPointer;
use crate::source::part;

verus! {

/// Names the type of an item. Typed pointers carry this tag, and a read of a
/// typed pointer succeeds only for the type that has the same tag. Producer
/// and consumer of one artifact must agree on it.
pub trait PakItemTyped {
    /// The tag of the type.
    fn type_tag() -> String;
}

/// Items that can be found by a query: the index entries they are filed under.
pub trait PakItemSearchable {
    /// The index entries under which the item is filed.
    fn get_indices(&self) -> Vec<PakIndex>;
}

/// Items that can be written into a pak.
pub trait PakItemSerialize: PakItemTyped {
    /// The bytes that stand for the item.
    fn into_bytes(&self) -> PakResult<Vec<u8>>;
}

/// Items that can be read back from a pak.
pub trait PakItemDeserialize: PakItemTyped + Sized {
    /// The item that the bytes stand for.
    fn from_bytes(bytes: &[u8]) -> PakResult<Self>;

    /// The item that stands in `pak` where `pointer` says: what the type
    /// makes of the `pointer.size` bytes that start at `pointer.offset`.
    /// Fails with an I/O error where `pak` does not hold them all.
    fn from_pak(pak: &[u8], pointer: PakPointer) -> (r: PakResult<Self>)
        ensures
            match part(pak@, pointer@.offset() as int, pointer@.size() as int) {
                Some(range) => exists|bytes: &[u8]|
                    bytes@ == range && #[trigger] call_ensures(Self::from_bytes, (bytes,), r),
                None => r matches Err(e) && e == PakError::Io,
            },
    {
        let end = pointer.offset() as u128 + pointer.size() as u128;
        if end > pak.len() as u128 {
            return Err(PakError::Io);
        }
        let bytes = slice_subrange(pak, pointer.offset() as usize, end as usize);
        Self::from_bytes(bytes)
    }
}

/// An item of a pak that is loaded when it is first needed: either the
/// pointer to it or the item itself.
pub enum PakItemRef<T: PakItemDeserialize> {
    Ref(PakPointer),
    Loaded(T),
}

impl<T: PakItemDeserialize> PakItemRef<T> {
    /// A reference to the item that `pointer` names.
    pub fn pointer(pointer: PakPointer) -> (r: Self)
        ensures
            r == PakItemRef::<T>::Ref(pointer),
    {
        PakItemRef::Ref(pointer)
    }

    /// Loads the item, unless it is loaded already. Where loading fails the
    /// reference stays as it is.
    pub fn load(&mut self, pak: &Pak) -> (r: PakResult<()>)
        requires
            pak.wf(),
        ensures
            match *old(self) {
                PakItemRef::Loaded(_) => r is Ok && *final(self) == *old(self),
                PakItemRef::Ref(pointer) => exists|tag: String, read: PakResult<T>|
                    #![trigger call_ensures(T::type_tag, (), tag), read_as::<T>(pak@, pointer@, tag@, read)]
                    {
                        &&& call_ensures(T::type_tag, (), tag)
                        &&& read_as::<T>(pak@, pointer@, tag@, read)
                        &&& match read {
                            Ok(item) => r is Ok && *final(self) == PakItemRef::Loaded(item),
                            Err(e) => r == Err::<(), PakError>(e) && *final(self) == *old(self),
                        }
                    },
            },
    {
        match self {
            PakItemRef::Ref(pointer) => {
                match pak.read_err::<T>(pointer) {
                    Ok(item) => {
                        *self = PakItemRef::Loaded(item);
                        Ok(())
                    },
                    Err(e) => Err(e),
                }
            },
            PakItemRef::Loaded(_) => Ok(()),
        }
    }

    /// The loaded item.
    pub fn get(&self) -> (r: &T)
        requires
            self is Loaded,
        ensures
            *self == PakItemRef::Loaded(*r),
    {
        match self {
            PakItemRef::Ref(_) => vstd::pervasive::unreached(),
            PakItemRef::Loaded(item) => item,
        }
    }

    /// The loaded item, to change it.
    pub fn get_mut(&mut self) -> (r: &mut T)
        requires
            *old(self) is Loaded,
        ensures
            *old(self) == PakItemRef::Loaded(*r),
            *final(self) == PakItemRef::Loaded(*final(r)),
    {
        match self {
            PakItemRef::Ref(_) => vstd::pervasive::unreached(),
            PakItemRef::Loaded(item) => item,
        }
    }

    /// The item: the loaded one, or the one that the pointer names.
    pub fn unwrap_or_load(self, pak: &Pak) -> (r: PakResult<T>)
        requires
            pak.wf(),
        ensures
            match self {
                PakItemRef::Loaded(item) => r == Ok::<T, PakError>(item),
                PakItemRef::Ref(pointer) => exists|tag: String| #[trigger]
                    call_ensures(T::type_tag, (), tag) && read_as::<T>(pak@, pointer@, tag@, r),
            },
    {
        match self {
            PakItemRef::Ref(pointer) => pak.read_err::<T>(&pointer),
            PakItemRef::Loaded(item) => Ok(item),
        }
    }
}

} // verus!
