//! Where a pak is read from: bytes that can be read at any position.
use vstd::prelude::*;
use vstd::slice::{slice_subrange, slice_to_vec};
use crate::error::{PakError, PakResult};
use crate::pointer::PakPointer;

verus! {

/// The `size` bytes of `bytes` that start at `from`, if `bytes` holds them all.
pub open spec fn part(bytes: Seq<u8>, from: int, size: int) -> Option<Seq<u8>> {
    if 0 <= from && 0 <= size && from + size <= bytes.len() {
        Some(bytes.subrange(from, from + size))
    } else {
        None
    }
}

/// The bytes of an artifact, held in memory.
#[derive(Debug)]
pub struct PakSource {
    pub data: Vec<u8>,
}

impl View for PakSource {
    type V = Seq<u8>;

    open spec fn view(&self) -> Seq<u8> {
        self.data@
    }
}

impl PakSource {
    /// A source that reads from `data`.
    pub fn new(data: Vec<u8>) -> (r: Self)
        ensures
            r@ == data@,
    {
        PakSource { data }
    }

    /// The number of bytes in the source.
    pub fn len(&self) -> (r: usize)
        ensures
            r == self@.len(),
    {
        self.data.len()
    }

    /// The bytes that `pointer` names, counted from `offset`: exactly
    /// `pointer.size` bytes starting at `offset + pointer.offset`. Fails with
    /// an I/O error where the source does not hold them all.
    pub fn read(&self, pointer: &PakPointer, offset: u64) -> (r: PakResult<Vec<u8>>)
        ensures
            match r {
                Ok(bytes) => part(self@, offset + pointer@.offset(), pointer@.size() as int)
                    == Some(bytes@),
                Err(e) => e == PakError::Io && part(
                    self@,
                    offset + pointer@.offset(),
                    pointer@.size() as int,
                ) is None,
            },
    {
        let len = self.data.len() as u128;
        let from = pointer.offset() as u128 + offset as u128;
        let end = from + pointer.size() as u128;
        if end > len {
            return Err(PakError::Io);
        }
        let slice = slice_subrange(self.data.as_slice(), from as usize, end as usize);
        Ok(slice_to_vec(slice))
    }
}

} // verus!
