//! The byte format of values, pointers, entries and pages.
use vstd::prelude::*;
use vstd::utf8::*;
use std::collections::VecDeque;
use crate::page::{EntryView, PageView, PakTreePage, PakTreePageEntry};
use crate::pointer::{PakTypedPointer, PakUntypedPointer, PointerView};
use crate::value::{signed_bits, to_signed, to_unsigned, unsigned_bits, PakValue, ValueView};
use crate::wire::{
    counted_bytes, lemma_counted_bound, lemma_counted_round_trip, lemma_link_round_trip,
    lemma_text_round_trip, lemma_u32_round_trip, lemma_u64_round_trip, link_bytes, list_bytes,
    list_fits, parse_counted, parse_link, parse_text, parse_u32, parse_u64, put_counted, put_link,
    put_text, put_u32, put_u64, take_counted, take_link, take_text, take_u32, take_u64, text_bytes,
    u32_bytes, u64_bytes, Codec, Wire,
};

verus! {

impl Wire for ValueView {
    /// The number of the variant as a 32-bit number, then what the variant holds.
    open spec fn bytes(self) -> Seq<u8> {
        match self {
            ValueView::String(s) => u32_bytes(0) + text_bytes(s),
            ValueView::Float(b) => u32_bytes(1) + u64_bytes(b),
            ValueView::Int(i) => u32_bytes(2) + u64_bytes(unsigned_bits(i)),
            ValueView::Uint(u) => u32_bytes(3) + u64_bytes(u),
            ValueView::Boolean(b) => u32_bytes(4) + seq![if b { 1u8 } else { 0u8 }],
            ValueView::Void => u32_bytes(5),
        }
    }

    open spec fn parse(b: Seq<u8>) -> Option<(Self, nat)> {
        match parse_u32(b) {
            Some((tag, _)) => {
                let rest = b.skip(4);
                if tag == 0 {
                    match parse_text(rest) {
                        Some((s, used)) => Some((ValueView::String(s), 4 + used)),
                        None => None,
                    }
                } else if tag == 1 {
                    match parse_u64(rest) {
                        Some((x, _)) => Some((ValueView::Float(x), 12)),
                        None => None,
                    }
                } else if tag == 2 {
                    match parse_u64(rest) {
                        Some((x, _)) => Some((ValueView::Int(signed_bits(x) as i64), 12)),
                        None => None,
                    }
                } else if tag == 3 {
                    match parse_u64(rest) {
                        Some((x, _)) => Some((ValueView::Uint(x), 12)),
                        None => None,
                    }
                } else if tag == 4 {
                    if rest.len() >= 1 && rest[0] <= 1 {
                        Some((ValueView::Boolean(rest[0] == 1), 5))
                    } else {
                        None
                    }
                } else if tag == 5 {
                    Some((ValueView::Void, 4))
                } else {
                    None
                }
            },
            None => None,
        }
    }

    open spec fn fits(self) -> bool {
        match self {
            ValueView::String(s) => encode_utf8(s).len() <= u64::MAX,
            _ => true,
        }
    }

    proof fn lemma_round_trip(self, rest: Seq<u8>) {
        match self {
            ValueView::String(s) => {
                lemma_u32_round_trip(0, text_bytes(s) + rest);
                lemma_text_round_trip(s, rest);
                assert(self.bytes() + rest =~= u32_bytes(0) + (text_bytes(s) + rest));
                assert((self.bytes() + rest).skip(4) =~= text_bytes(s) + rest);
            },
            ValueView::Float(x) => {
                lemma_u32_round_trip(1, u64_bytes(x) + rest);
                lemma_u64_round_trip(x, rest);
                assert(self.bytes() + rest =~= u32_bytes(1) + (u64_bytes(x) + rest));
                assert((self.bytes() + rest).skip(4) =~= u64_bytes(x) + rest);
            },
            ValueView::Int(i) => {
                let x = unsigned_bits(i);
                lemma_u32_round_trip(2, u64_bytes(x) + rest);
                lemma_u64_round_trip(x, rest);
                assert(self.bytes() + rest =~= u32_bytes(2) + (u64_bytes(x) + rest));
                assert((self.bytes() + rest).skip(4) =~= u64_bytes(x) + rest);
            },
            ValueView::Uint(x) => {
                lemma_u32_round_trip(3, u64_bytes(x) + rest);
                lemma_u64_round_trip(x, rest);
                assert(self.bytes() + rest =~= u32_bytes(3) + (u64_bytes(x) + rest));
                assert((self.bytes() + rest).skip(4) =~= u64_bytes(x) + rest);
            },
            ValueView::Boolean(v) => {
                let flag = seq![if v { 1u8 } else { 0u8 }];
                lemma_u32_round_trip(4, flag + rest);
                assert(self.bytes() + rest =~= u32_bytes(4) + (flag + rest));
                assert((self.bytes() + rest).skip(4) =~= flag + rest);
            },
            ValueView::Void => {
                lemma_u32_round_trip(5, rest);
            },
        }
    }

    proof fn lemma_parse_bound(b: Seq<u8>) {
    }
}

impl Codec for PakValue {
    fn put(&self, out: &mut Vec<u8>) {
        match self {
            PakValue::String(s) => {
                put_u32(out, 0);
                put_text(out, s.as_str());
            },
            PakValue::Float(b) => {
                put_u32(out, 1);
                put_u64(out, *b);
            },
            PakValue::Int(i) => {
                put_u32(out, 2);
                put_u64(out, to_unsigned(*i));
            },
            PakValue::Uint(u) => {
                put_u32(out, 3);
                put_u64(out, *u);
            },
            PakValue::Boolean(b) => {
                put_u32(out, 4);
                out.push(if *b { 1u8 } else { 0u8 });
            },
            PakValue::Void => {
                put_u32(out, 5);
            },
        }
        proof {
            assert(out@ =~= old(out)@ + self@.bytes());
        }
    }

    fn take(bytes: &[u8], at: usize) -> (r: Option<(Self, usize)>) {
        let ghost tail = bytes@.skip(at as int);
        match take_u32(bytes, at) {
            Some((tag, from)) => {
                proof {
                    assert(tail.skip(4) =~= bytes@.skip(from as int));
                }
                if tag == 0 {
                    match take_text(bytes, from) {
                        Some((s, end)) => Some((PakValue::String(s), end)),
                        None => None,
                    }
                } else if tag == 1 {
                    match take_u64(bytes, from) {
                        Some((x, end)) => Some((PakValue::Float(x), end)),
                        None => None,
                    }
                } else if tag == 2 {
                    match take_u64(bytes, from) {
                        Some((x, end)) => Some((PakValue::Int(to_signed(x)), end)),
                        None => None,
                    }
                } else if tag == 3 {
                    match take_u64(bytes, from) {
                        Some((x, end)) => Some((PakValue::Uint(x), end)),
                        None => None,
                    }
                } else if tag == 4 {
                    if from < bytes.len() && bytes[from] <= 1 {
                        Some((PakValue::Boolean(bytes[from] == 1), from + 1))
                    } else {
                        None
                    }
                } else if tag == 5 {
                    Some((PakValue::Void, from))
                } else {
                    None
                }
            },
            None => None,
        }
    }
}

impl Wire for PointerView {
    /// Offset, size and type tag.
    open spec fn bytes(self) -> Seq<u8> {
        u64_bytes(self.offset) + u64_bytes(self.size) + text_bytes(self.type_tag)
    }

    open spec fn parse(b: Seq<u8>) -> Option<(Self, nat)> {
        match parse_u64(b) {
            Some((offset, _)) => match parse_u64(b.skip(8)) {
                Some((size, _)) => match parse_text(b.skip(16)) {
                    Some((type_tag, used)) => Some(
                        (PointerView { offset, size, type_tag }, 16 + used),
                    ),
                    None => None,
                },
                None => None,
            },
            None => None,
        }
    }

    open spec fn fits(self) -> bool {
        encode_utf8(self.type_tag).len() <= u64::MAX
    }

    proof fn lemma_round_trip(self, rest: Seq<u8>) {
        let tail = text_bytes(self.type_tag) + rest;
        lemma_u64_round_trip(self.offset, u64_bytes(self.size) + tail);
        lemma_u64_round_trip(self.size, tail);
        lemma_text_round_trip(self.type_tag, rest);
        let all = self.bytes() + rest;
        assert(all =~= u64_bytes(self.offset) + (u64_bytes(self.size) + tail));
        assert(all.skip(8) =~= u64_bytes(self.size) + tail);
        assert(all.skip(16) =~= tail);
    }

    proof fn lemma_parse_bound(b: Seq<u8>) {
    }
}

impl Codec for PakTypedPointer {
    fn put(&self, out: &mut Vec<u8>) {
        put_u64(out, self.offset);
        put_u64(out, self.size);
        put_text(out, self.type_tag.as_str());
        proof {
            assert(out@ =~= old(out)@ + self@.bytes());
        }
    }

    fn take(bytes: &[u8], at: usize) -> (r: Option<(Self, usize)>) {
        let ghost tail = bytes@.skip(at as int);
        match take_u64(bytes, at) {
            Some((offset, first)) => {
                proof {
                    assert(tail.skip(8) =~= bytes@.skip(first as int));
                }
                match take_u64(bytes, first) {
                    Some((size, second)) => {
                        proof {
                            assert(tail.skip(16) =~= bytes@.skip(second as int));
                        }
                        match take_text(bytes, second) {
                            Some((type_tag, end)) => Some(
                                (PakTypedPointer { offset, size, type_tag }, end),
                            ),
                            None => None,
                        }
                    },
                    None => None,
                }
            },
            None => None,
        }
    }
}

impl View for PakUntypedPointer {
    type V = PakUntypedPointer;

    open spec fn view(&self) -> PakUntypedPointer {
        *self
    }
}

impl Wire for PakUntypedPointer {
    /// Offset and size.
    open spec fn bytes(self) -> Seq<u8> {
        u64_bytes(self.offset) + u64_bytes(self.size)
    }

    open spec fn parse(b: Seq<u8>) -> Option<(Self, nat)> {
        match parse_u64(b) {
            Some((offset, _)) => match parse_u64(b.skip(8)) {
                Some((size, _)) => Some((PakUntypedPointer { offset, size }, 16)),
                None => None,
            },
            None => None,
        }
    }

    open spec fn fits(self) -> bool {
        true
    }

    proof fn lemma_round_trip(self, rest: Seq<u8>) {
        lemma_u64_round_trip(self.offset, u64_bytes(self.size) + rest);
        lemma_u64_round_trip(self.size, rest);
        let all = self.bytes() + rest;
        assert(all =~= u64_bytes(self.offset) + (u64_bytes(self.size) + rest));
        assert(all.skip(8) =~= u64_bytes(self.size) + rest);
    }

    proof fn lemma_parse_bound(b: Seq<u8>) {
    }
}

impl Codec for PakUntypedPointer {
    fn put(&self, out: &mut Vec<u8>) {
        put_u64(out, self.offset);
        put_u64(out, self.size);
        proof {
            assert(out@ =~= old(out)@ + self@.bytes());
        }
    }

    fn take(bytes: &[u8], at: usize) -> (r: Option<(Self, usize)>) {
        let ghost tail = bytes@.skip(at as int);
        match take_u64(bytes, at) {
            Some((offset, first)) => {
                proof {
                    assert(tail.skip(8) =~= bytes@.skip(first as int));
                }
                match take_u64(bytes, first) {
                    Some((size, end)) => Some((PakUntypedPointer { offset, size }, end)),
                    None => None,
                }
            },
            None => None,
        }
    }
}

impl Wire for EntryView {
    /// The key, the counted pointers, the link to the page below.
    open spec fn bytes(self) -> Seq<u8> {
        self.key.bytes() + counted_bytes(self.values) + link_bytes(self.previous)
    }

    open spec fn parse(b: Seq<u8>) -> Option<(Self, nat)> {
        match ValueView::parse(b) {
            Some((key, k1)) => match parse_counted::<PointerView>(b.skip(k1 as int)) {
                Some((values, k2)) => match parse_link(b.skip((k1 + k2) as int)) {
                    Some((previous, k3)) => Some((EntryView { key, values, previous }, k1 + k2 + k3)),
                    None => None,
                },
                None => None,
            },
            None => None,
        }
    }

    open spec fn fits(self) -> bool {
        self.key.fits() && list_fits(self.values)
    }

    proof fn lemma_round_trip(self, rest: Seq<u8>) {
        let a = self.key.bytes();
        let b = counted_bytes(self.values);
        let c = link_bytes(self.previous);
        let all = self.bytes() + rest;
        self.key.lemma_round_trip(b + (c + rest));
        lemma_counted_round_trip(self.values, c + rest);
        lemma_link_round_trip(self.previous, rest);
        assert(all =~= a + (b + (c + rest)));
        assert(all.skip(a.len() as int) =~= b + (c + rest));
        assert(all.skip((a.len() + b.len()) as int) =~= c + rest);
    }

    proof fn lemma_parse_bound(b: Seq<u8>) {
        ValueView::lemma_parse_bound(b);
        match ValueView::parse(b) {
            Some((key, k1)) => {
                lemma_counted_bound::<PointerView>(b.skip(k1 as int));
            },
            None => {},
        }
    }
}

impl Codec for PakTreePageEntry {
    fn put(&self, out: &mut Vec<u8>) {
        self.key.put(out);
        put_counted(out, &self.values);
        put_link(out, self.previous);
        proof {
            assert(out@ =~= old(out)@ + self@.bytes());
        }
    }

    fn take(bytes: &[u8], at: usize) -> (r: Option<(Self, usize)>) {
        let ghost tail = bytes@.skip(at as int);
        match PakValue::take(bytes, at) {
            Some((key, first)) => {
                proof {
                    assert(tail.skip(first - at) =~= bytes@.skip(first as int));
                }
                match take_counted::<PakTypedPointer>(bytes, first) {
                    Some((values, second)) => {
                        proof {
                            assert(tail.skip((first - at) + (second - first)) =~= bytes@.skip(second as int));
                        }
                        match take_link(bytes, second) {
                            Some((previous, end)) => Some(
                                (PakTreePageEntry { key, values, previous }, end),
                            ),
                            None => None,
                        }
                    },
                    None => None,
                }
            },
            None => None,
        }
    }
}

impl Wire for PageView {
    /// The counted entries, then the link to the page behind the last entry.
    open spec fn bytes(self) -> Seq<u8> {
        counted_bytes(self.entries) + link_bytes(self.next)
    }

    open spec fn parse(b: Seq<u8>) -> Option<(Self, nat)> {
        match parse_counted::<EntryView>(b) {
            Some((entries, k1)) => match parse_link(b.skip(k1 as int)) {
                Some((next, k2)) => Some((PageView { entries, next }, k1 + k2)),
                None => None,
            },
            None => None,
        }
    }

    open spec fn fits(self) -> bool {
        list_fits(self.entries)
    }

    proof fn lemma_round_trip(self, rest: Seq<u8>) {
        let a = counted_bytes(self.entries);
        let c = link_bytes(self.next);
        let all = self.bytes() + rest;
        lemma_counted_round_trip(self.entries, c + rest);
        lemma_link_round_trip(self.next, rest);
        assert(all =~= a + (c + rest));
        assert(all.skip(a.len() as int) =~= c + rest);
    }

    proof fn lemma_parse_bound(b: Seq<u8>) {
        lemma_counted_bound::<EntryView>(b);
    }
}

/// The same entries as a deque.
fn into_deque(items: Vec<PakTreePageEntry>) -> (r: VecDeque<PakTreePageEntry>)
    ensures
        r@ == items@,
{
    let mut items = items;
    let ghost all = items@;
    let mut r: VecDeque<PakTreePageEntry> = VecDeque::new();
    while items.len() > 0
        invariant
            items@.len() <= all.len(),
            items@ == all.take(items@.len() as int),
            r@ == all.skip(items@.len() as int),
        decreases items@.len(),
    {
        match items.pop() {
            Some(e) => {
                r.push_front(e);
            },
            None => {},
        }
        proof {
            assert(items@ =~= all.take(items@.len() as int));
            assert(r@ =~= all.skip(items@.len() as int));
        }
    }
    proof {
        assert(r@ =~= all);
    }
    r
}

impl Codec for PakTreePage {
    fn put(&self, out: &mut Vec<u8>) {
        put_u64(out, self.values.len() as u64);
        let ghost start = out@;
        let mut i: usize = 0;
        while i < self.values.len()
            invariant
                i <= self.values@.len(),
                out@ == start + list_bytes(self@.entries.take(i as int)),
                forall|j: int| 0 <= j < i ==> (#[trigger] self@.entries[j]).fits(),
            decreases self.values@.len() - i,
        {
            self.values[i].put(out);
            proof {
                let all = self@.entries;
                assert(all.take(i + 1).drop_last() =~= all.take(i as int));
                assert(all.take(i + 1).last() == self.values@[i as int]@);
                assert(out@ =~= start + list_bytes(all.take(i + 1)));
            }
            i += 1;
        }
        put_link(out, self.next);
        proof {
            assert(self@.entries.take(i as int) =~= self@.entries);
            assert(out@ =~= old(out)@ + self@.bytes());
        }
    }

    fn take(bytes: &[u8], at: usize) -> (r: Option<(Self, usize)>) {
        let ghost tail = bytes@.skip(at as int);
        match take_counted::<PakTreePageEntry>(bytes, at) {
            Some((entries, first)) => {
                proof {
                    assert(tail.skip(first - at) =~= bytes@.skip(first as int));
                }
                match take_link(bytes, first) {
                    Some((next, end)) => Some(
                        (PakTreePage { values: into_deque(entries), next }, end),
                    ),
                    None => None,
                }
            },
            None => None,
        }
    }
}

} // verus!
