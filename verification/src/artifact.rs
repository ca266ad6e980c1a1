//! The layout of an artifact, as a reader finds it in the bytes: the sizes,
//! the metadata, the directory of indices, and the vault with its items,
//! page tables and pages.
use vstd::prelude::*;
use vstd::utf8::*;
use crate::error::PakFault;
use crate::meta::{MetaView, PakSizing};
use crate::page::PageView;
use crate::pointer::PakUntypedPointer;
use crate::source::part;
use crate::wire::{
    lemma_text_round_trip, lemma_u64_round_trip, parse_counted, parse_text, parse_u64, put_text,
    put_u64, take_text, take_u64, text_bytes, u64_bytes, Codec, Wire,
};

verus! {

/// One line of the directory of indices: where the page table of the index
/// for `key` lies in the vault.
#[derive(Debug)]
pub struct PakIndexSlot {
    pub key: String,
    pub pointer: PakUntypedPointer,
}

/// Mathematical model of a [`PakIndexSlot`].
pub struct IndexSlotView {
    pub key: Seq<char>,
    pub pointer: PakUntypedPointer,
}

impl View for PakIndexSlot {
    type V = IndexSlotView;

    open spec fn view(&self) -> IndexSlotView {
        IndexSlotView { key: self.key@, pointer: self.pointer }
    }
}

impl Wire for IndexSlotView {
    /// The key as a text, then the pointer.
    open spec fn bytes(self) -> Seq<u8> {
        text_bytes(self.key) + self.pointer.bytes()
    }

    open spec fn parse(b: Seq<u8>) -> Option<(Self, nat)> {
        match parse_text(b) {
            Some((key, used)) => match PakUntypedPointer::parse(b.skip(used as int)) {
                Some((pointer, _)) => Some((IndexSlotView { key, pointer }, used + 16)),
                None => None,
            },
            None => None,
        }
    }

    open spec fn fits(self) -> bool {
        encode_utf8(self.key).len() <= u64::MAX
    }

    proof fn lemma_round_trip(self, rest: Seq<u8>) {
        let a = text_bytes(self.key);
        let all = self.bytes() + rest;
        lemma_text_round_trip(self.key, self.pointer.bytes() + rest);
        self.pointer.lemma_round_trip(rest);
        assert(all =~= a + (self.pointer.bytes() + rest));
        assert(all.skip(a.len() as int) =~= self.pointer.bytes() + rest);
    }

    proof fn lemma_parse_bound(b: Seq<u8>) {
    }
}

impl Codec for PakIndexSlot {
    fn put(&self, out: &mut Vec<u8>) {
        put_text(out, self.key.as_str());
        self.pointer.put(out);
        proof {
            assert(out@ =~= old(out)@ + self@.bytes());
        }
    }

    fn take(bytes: &[u8], at: usize) -> (r: Option<(Self, usize)>) {
        let ghost tail = bytes@.skip(at as int);
        match take_text(bytes, at) {
            Some((key, first)) => {
                proof {
                    assert(tail.skip(first - at) =~= bytes@.skip(first as int));
                }
                match PakUntypedPointer::take(bytes, first) {
                    Some((pointer, end)) => Some((PakIndexSlot { key, pointer }, end)),
                    None => None,
                }
            },
            None => None,
        }
    }
}

/// One line of a page table: where the page with this index lies in the vault.
#[derive(Clone, Copy, Debug, PartialEq, Eq, Structural)]
pub struct PakPageSlot {
    pub index: usize,
    pub pointer: PakUntypedPointer,
}

impl View for PakPageSlot {
    type V = PakPageSlot;

    open spec fn view(&self) -> PakPageSlot {
        *self
    }
}

impl Wire for PakPageSlot {
    /// The index as a 64-bit number, then the pointer.
    open spec fn bytes(self) -> Seq<u8> {
        u64_bytes(self.index as u64) + self.pointer.bytes()
    }

    open spec fn parse(b: Seq<u8>) -> Option<(Self, nat)> {
        match parse_u64(b) {
            Some((index, _)) => match PakUntypedPointer::parse(b.skip(8)) {
                Some((pointer, _)) => if index <= usize::MAX {
                    Some((PakPageSlot { index: index as usize, pointer }, 24))
                } else {
                    None
                },
                None => None,
            },
            None => None,
        }
    }

    open spec fn fits(self) -> bool {
        true
    }

    proof fn lemma_round_trip(self, rest: Seq<u8>) {
        let all = self.bytes() + rest;
        lemma_u64_round_trip(self.index as u64, self.pointer.bytes() + rest);
        self.pointer.lemma_round_trip(rest);
        assert(all =~= u64_bytes(self.index as u64) + (self.pointer.bytes() + rest));
        assert(all.skip(8) =~= self.pointer.bytes() + rest);
    }

    proof fn lemma_parse_bound(b: Seq<u8>) {
    }
}

impl Codec for PakPageSlot {
    fn put(&self, out: &mut Vec<u8>) {
        put_u64(out, self.index as u64);
        self.pointer.put(out);
        proof {
            assert(out@ =~= old(out)@ + self@.bytes());
        }
    }

    fn take(bytes: &[u8], at: usize) -> (r: Option<(Self, usize)>) {
        let ghost tail = bytes@.skip(at as int);
        match take_u64(bytes, at) {
            Some((index, first)) => {
                proof {
                    assert(tail.skip(8) =~= bytes@.skip(first as int));
                }
                match PakUntypedPointer::take(bytes, first) {
                    Some((pointer, end)) => {
                        if index > usize::MAX as u64 {
                            None
                        } else {
                            Some((PakPageSlot { index: index as usize, pointer }, end))
                        }
                    },
                    None => None,
                }
            },
            None => None,
        }
    }
}

/// The pointer that the directory holds for `key`: that of the last line with this key.
pub open spec fn directory_lookup(directory: Seq<IndexSlotView>, key: Seq<char>) -> Option<
    PakUntypedPointer,
>
    decreases directory.len(),
{
    if directory.len() == 0 {
        None
    } else if directory.last().key == key {
        Some(directory.last().pointer)
    } else {
        directory_lookup(directory.drop_last(), key)
    }
}

/// The page table that the lines make up: a later line for an index replaces an earlier one.
pub open spec fn page_table(slots: Seq<PakPageSlot>) -> Map<usize, PakUntypedPointer>
    decreases slots.len(),
{
    if slots.len() == 0 {
        Map::empty()
    } else {
        page_table(slots.drop_last()).insert(slots.last().index, slots.last().pointer)
    }
}

/// Mathematical model of an open pak: its bytes and the two header records read from them.
pub struct PakView {
    pub sizing: PakSizing,
    pub meta: MetaView,
    pub bytes: Seq<u8>,
}

impl PakView {
    /// Where the directory of indices starts.
    pub open spec fn indices_start(self) -> int {
        24 + self.sizing.meta_size
    }

    /// Where the items of the vault start: behind the sizes, the metadata,
    /// the directory and the eight bytes that hold the vault's length.
    pub open spec fn vault_start(self) -> int {
        24 + self.sizing.meta_size + self.sizing.indices_size + 8
    }

    /// The sizes add up to a 64-bit number.
    pub open spec fn wf(self) -> bool {
        &&& self.vault_start() <= u64::MAX
        &&& 24 + self.sizing.meta_size + self.sizing.indices_size + self.sizing.vault_size
            <= u64::MAX
    }

    /// The directory of indices.
    pub open spec fn directory(self) -> Result<Seq<IndexSlotView>, PakFault> {
        match part(self.bytes, self.indices_start(), self.sizing.indices_size as int) {
            Some(b) => match parse_counted::<IndexSlotView>(b) {
                Some((directory, _)) => Ok(directory),
                None => Err(PakFault::Decode),
            },
            None => Err(PakFault::Io),
        }
    }

    /// The bytes of the vault that a pointer names.
    pub open spec fn item(self, offset: u64, size: u64) -> Result<Seq<u8>, PakFault> {
        match part(self.bytes, self.vault_start() + offset, size as int) {
            Some(b) => Ok(b),
            None => Err(PakFault::Io),
        }
    }

    /// The page table of the index for `key`.
    pub open spec fn tree(self, key: Seq<char>) -> Result<
        Map<usize, PakUntypedPointer>,
        PakFault,
    > {
        match self.directory() {
            Ok(directory) => match directory_lookup(directory, key) {
                Some(pointer) => match self.item(pointer.offset, pointer.size) {
                    Ok(b) => match parse_counted::<PakPageSlot>(b) {
                        Some((slots, _)) => Ok(page_table(slots)),
                        None => Err(PakFault::Decode),
                    },
                    Err(f) => Err(f),
                },
                None => Err(PakFault::IndexMissing),
            },
            Err(f) => Err(f),
        }
    }

    /// The page that a page table holds under `index`.
    pub open spec fn page(self, table: Map<usize, PakUntypedPointer>, index: usize) -> Result<
        PageView,
        PakFault,
    > {
        if table.dom().contains(index) {
            match self.item(table[index].offset, table[index].size) {
                Ok(b) => match PageView::parse(b) {
                    Some((page, _)) => Ok(page),
                    None => Err(PakFault::Decode),
                },
                Err(f) => Err(f),
            }
        } else {
            Err(PakFault::Corruption)
        }
    }
}

/// What opening an artifact finds: the sizes in its first 24 bytes, which
/// must add up to a 64-bit number, and the metadata behind them.
pub open spec fn opened(bytes: Seq<u8>) -> Result<PakView, PakFault> {
    match part(bytes, 0, 24) {
        Some(head) => match PakSizing::parse(head) {
            Some((sizing, _)) => if 24 + sizing.meta_size + sizing.indices_size + 8 <= u64::MAX
                && 24 + sizing.meta_size + sizing.indices_size + sizing.vault_size <= u64::MAX {
                match part(bytes, 24, sizing.meta_size as int) {
                    Some(b) => match MetaView::parse(b) {
                        Some((meta, _)) => Ok(PakView { sizing, meta, bytes }),
                        None => Err(PakFault::Decode),
                    },
                    None => Err(PakFault::Io),
                }
            } else {
                Err(PakFault::Corruption)
            },
            None => Err(PakFault::Decode),
        },
        None => Err(PakFault::Io),
    }
}

} // verus!
