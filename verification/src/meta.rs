//! The two header records of an artifact: the sizes of its parts and what it
//! says of itself.
use vstd::prelude::*;
use vstd::utf8::*;
use crate::wire::{
    lemma_text_round_trip, lemma_u64_round_trip, parse_text, parse_u64, put_text, put_u64,
    take_text, take_u64, text_bytes, u64_bytes, Codec, Wire,
};

verus! {

/// The number of bytes that the sizes take at the start of every artifact.
pub const SIZING_BYTES: u64 = 24;

/// The metadata of a pak. Every artifact carries it in its header.
#[derive(Debug)]
pub struct PakMeta {
    pub name: String,
    pub version: String,
    pub description: String,
    pub author: String,
}

/// Mathematical model of a [`PakMeta`].
pub struct MetaView {
    pub name: Seq<char>,
    pub version: Seq<char>,
    pub description: Seq<char>,
    pub author: Seq<char>,
}

impl View for PakMeta {
    type V = MetaView;

    open spec fn view(&self) -> MetaView {
        MetaView {
            name: self.name@,
            version: self.version@,
            description: self.description@,
            author: self.author@,
        }
    }
}

/// The sizes in bytes of the three parts that follow the sizes themselves:
/// metadata, directory of indices, and vault. They are always the first 24
/// bytes of an artifact.
#[derive(Clone, Copy, Debug, PartialEq, Eq, Structural)]
pub struct PakSizing {
    pub meta_size: u64,
    pub indices_size: u64,
    pub vault_size: u64,
}

impl View for PakSizing {
    type V = PakSizing;

    open spec fn view(&self) -> PakSizing {
        *self
    }
}

impl Wire for PakSizing {
    /// Three 64-bit numbers, lowest byte first: 24 bytes.
    open spec fn bytes(self) -> Seq<u8> {
        u64_bytes(self.meta_size) + u64_bytes(self.indices_size) + u64_bytes(self.vault_size)
    }

    open spec fn parse(b: Seq<u8>) -> Option<(Self, nat)> {
        match parse_u64(b) {
            Some((meta_size, _)) => match parse_u64(b.skip(8)) {
                Some((indices_size, _)) => match parse_u64(b.skip(16)) {
                    Some((vault_size, _)) => Some(
                        (PakSizing { meta_size, indices_size, vault_size }, 24),
                    ),
                    None => None,
                },
                None => None,
            },
            None => None,
        }
    }

    open spec fn fits(self) -> bool {
        true
    }

    proof fn lemma_round_trip(self, rest: Seq<u8>) {
        let c = u64_bytes(self.vault_size) + rest;
        let b = u64_bytes(self.indices_size) + c;
        lemma_u64_round_trip(self.meta_size, b);
        lemma_u64_round_trip(self.indices_size, c);
        lemma_u64_round_trip(self.vault_size, rest);
        let all = self.bytes() + rest;
        assert(all =~= u64_bytes(self.meta_size) + b);
        assert(all.skip(8) =~= b);
        assert(all.skip(16) =~= c);
    }

    proof fn lemma_parse_bound(b: Seq<u8>) {
    }
}

impl Codec for PakSizing {
    fn put(&self, out: &mut Vec<u8>) {
        put_u64(out, self.meta_size);
        put_u64(out, self.indices_size);
        put_u64(out, self.vault_size);
        proof {
            assert(out@ =~= old(out)@ + self@.bytes());
        }
    }

    fn take(bytes: &[u8], at: usize) -> (r: Option<(Self, usize)>) {
        let ghost tail = bytes@.skip(at as int);
        match take_u64(bytes, at) {
            Some((meta_size, first)) => {
                proof {
                    assert(tail.skip(8) =~= bytes@.skip(first as int));
                }
                match take_u64(bytes, first) {
                    Some((indices_size, second)) => {
                        proof {
                            assert(tail.skip(16) =~= bytes@.skip(second as int));
                        }
                        match take_u64(bytes, second) {
                            Some((vault_size, end)) => Some(
                                (PakSizing { meta_size, indices_size, vault_size }, end),
                            ),
                            None => None,
                        }
                    },
                    None => None,
                }
            },
            None => None,
        }
    }
}

/// The sizes always take 24 bytes.
pub proof fn lemma_sizing_length(sizing: PakSizing)
    ensures
        sizing.bytes().len() == SIZING_BYTES,
{
    lemma_u64_round_trip(sizing.meta_size, Seq::empty());
    lemma_u64_round_trip(sizing.indices_size, Seq::empty());
    lemma_u64_round_trip(sizing.vault_size, Seq::empty());
}

impl Wire for MetaView {
    /// Name, version, description and author, each as a text.
    open spec fn bytes(self) -> Seq<u8> {
        text_bytes(self.name) + text_bytes(self.version) + text_bytes(self.description)
            + text_bytes(self.author)
    }

    open spec fn parse(b: Seq<u8>) -> Option<(Self, nat)> {
        match parse_text(b) {
            Some((name, k1)) => match parse_text(b.skip(k1 as int)) {
                Some((version, k2)) => match parse_text(b.skip((k1 + k2) as int)) {
                    Some((description, k3)) => match parse_text(b.skip((k1 + k2 + k3) as int)) {
                        Some((author, k4)) => Some(
                            (MetaView { name, version, description, author }, k1 + k2 + k3 + k4),
                        ),
                        None => None,
                    },
                    None => None,
                },
                None => None,
            },
            None => None,
        }
    }

    open spec fn fits(self) -> bool {
        &&& encode_utf8(self.name).len() <= u64::MAX
        &&& encode_utf8(self.version).len() <= u64::MAX
        &&& encode_utf8(self.description).len() <= u64::MAX
        &&& encode_utf8(self.author).len() <= u64::MAX
    }

    proof fn lemma_round_trip(self, rest: Seq<u8>) {
        let a1 = text_bytes(self.name);
        let a2 = text_bytes(self.version);
        let a3 = text_bytes(self.description);
        let a4 = text_bytes(self.author);
        let all = self.bytes() + rest;
        lemma_text_round_trip(self.name, a2 + (a3 + (a4 + rest)));
        lemma_text_round_trip(self.version, a3 + (a4 + rest));
        lemma_text_round_trip(self.description, a4 + rest);
        lemma_text_round_trip(self.author, rest);
        assert(all =~= a1 + (a2 + (a3 + (a4 + rest))));
        assert(all.skip(a1.len() as int) =~= a2 + (a3 + (a4 + rest)));
        assert(all.skip((a1.len() + a2.len()) as int) =~= a3 + (a4 + rest));
        assert(all.skip((a1.len() + a2.len() + a3.len()) as int) =~= a4 + rest);
    }

    proof fn lemma_parse_bound(b: Seq<u8>) {
    }
}

impl Codec for PakMeta {
    fn put(&self, out: &mut Vec<u8>) {
        put_text(out, self.name.as_str());
        put_text(out, self.version.as_str());
        put_text(out, self.description.as_str());
        put_text(out, self.author.as_str());
        proof {
            assert(out@ =~= old(out)@ + self@.bytes());
        }
    }

    fn take(bytes: &[u8], at: usize) -> (r: Option<(Self, usize)>) {
        let ghost tail = bytes@.skip(at as int);
        match take_text(bytes, at) {
            Some((name, first)) => {
                proof {
                    assert(tail.skip(first - at) =~= bytes@.skip(first as int));
                }
                match take_text(bytes, first) {
                    Some((version, second)) => {
                        proof {
                            assert(tail.skip(second - at) =~= bytes@.skip(second as int));
                        }
                        match take_text(bytes, second) {
                            Some((description, third)) => {
                                proof {
                                    assert(tail.skip(third - at) =~= bytes@.skip(third as int));
                                }
                                match take_text(bytes, third) {
                                    Some((author, end)) => Some(
                                        (PakMeta { name, version, description, author }, end),
                                    ),
                                    None => None,
                                }
                            },
                            None => None,
                        }
                    },
                    None => None,
                }
            },
            None => None,
        }
    }
}

} // verus!
