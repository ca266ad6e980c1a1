//! The byte format of the records that make up an artifact: little-endian
//! integers, length-prefixed text and counted lists, each with the parser
//! that reads it back.
use vstd::prelude::*;
use vstd::bytes::*;
use vstd::slice::*;
use vstd::string::*;
use vstd::utf8::*;

verus! {

/// A kind of record with a byte format. `parse` reads the record that leads a
/// byte string and says how many bytes it took.
pub trait Wire: Sized {
    /// The bytes that stand for this record.
    spec fn bytes(self) -> Seq<u8>;

    /// The record at the head of `b` and its length in bytes, if `b` starts with one.
    spec fn parse(b: Seq<u8>) -> Option<(Self, nat)>;

    /// Whether every length in the record can be written as a 64-bit count.
    spec fn fits(self) -> bool;

    /// Reading back what was written gives the record, whatever follows it.
    proof fn lemma_round_trip(self, rest: Seq<u8>)
        requires
            self.fits(),
        ensures
            Self::parse(self.bytes() + rest) == Some((self, self.bytes().len())),
    ;

    /// A parser takes no more bytes than there are.
    proof fn lemma_parse_bound(b: Seq<u8>)
        ensures
            Self::parse(b) matches Some((_, used)) ==> used <= b.len(),
    ;
}

/// A type whose values can be written to and read from bytes in the format
/// of their models.
pub trait Codec: View + Sized where Self::V: Wire {
    /// Appends the bytes of `self` to `out`.
    fn put(&self, out: &mut Vec<u8>)
        ensures
            final(out)@ == old(out)@ + self@.bytes(),
            self@.fits(),
    ;

    /// Reads a value from `bytes` at `at`; gives the value and where it ends.
    fn take(bytes: &[u8], at: usize) -> (r: Option<(Self, usize)>)
        requires
            at <= bytes@.len(),
        ensures
            match r {
                Some((v, end)) => at <= end <= bytes@.len() && <Self::V as Wire>::parse(
                    bytes@.skip(at as int),
                ) == Some((v@, (end - at) as nat)),
                None => <Self::V as Wire>::parse(bytes@.skip(at as int)) is None,
            },
    ;
}

/// The models of a sequence of values.
pub open spec fn views<T: View>(s: Seq<T>) -> Seq<T::V> {
    Seq::new(s.len(), |i: int| s[i]@)
}

/// A 64-bit number as eight bytes, lowest first.
pub open spec fn u64_bytes(x: u64) -> Seq<u8> {
    spec_u64_to_le_bytes(x)
}

/// The number that leads `b` as eight bytes, lowest first.
pub open spec fn parse_u64(b: Seq<u8>) -> Option<(u64, nat)> {
    if b.len() >= 8 {
        Some((spec_u64_from_le_bytes(b.subrange(0, 8)), 8))
    } else {
        None
    }
}

/// A 32-bit number as four bytes, lowest first.
pub open spec fn u32_bytes(x: u32) -> Seq<u8> {
    spec_u32_to_le_bytes(x)
}

/// The number that leads `b` as four bytes, lowest first.
pub open spec fn parse_u32(b: Seq<u8>) -> Option<(u32, nat)> {
    if b.len() >= 4 {
        Some((spec_u32_from_le_bytes(b.subrange(0, 4)), 4))
    } else {
        None
    }
}

/// A byte string behind its length.
pub open spec fn blob_bytes(b: Seq<u8>) -> Seq<u8> {
    u64_bytes(b.len() as u64) + b
}

/// The byte string that leads `b` behind its length.
pub open spec fn parse_blob(b: Seq<u8>) -> Option<(Seq<u8>, nat)> {
    match parse_u64(b) {
        Some((n, _)) => if 8 + n <= b.len() {
            Some((b.subrange(8, 8 + n), (8 + n) as nat))
        } else {
            None
        },
        None => None,
    }
}

/// A text as its UTF-8 bytes behind their number.
pub open spec fn text_bytes(s: Seq<char>) -> Seq<u8> {
    blob_bytes(encode_utf8(s))
}

/// The text that leads `b`: a byte string behind its length that is valid UTF-8.
pub open spec fn parse_text(b: Seq<u8>) -> Option<(Seq<char>, nat)> {
    match parse_blob(b) {
        Some((raw, used)) => if valid_utf8(raw) {
            Some((decode_utf8(raw), used))
        } else {
            None
        },
        None => None,
    }
}

/// An optional page index: one byte that says whether it is there, then the index.
pub open spec fn link_bytes(link: Option<usize>) -> Seq<u8> {
    match link {
        None => seq![0u8],
        Some(i) => seq![1u8] + u64_bytes(i as u64),
    }
}

/// The optional page index that leads `b`.
pub open spec fn parse_link(b: Seq<u8>) -> Option<(Option<usize>, nat)> {
    if b.len() == 0 {
        None
    } else if b[0] == 0 {
        Some((None, 1))
    } else if b[0] == 1 {
        match parse_u64(b.skip(1)) {
            Some((i, _)) => if i <= usize::MAX {
                Some((Some(i as usize), 9))
            } else {
                None
            },
            None => None,
        }
    } else {
        None
    }
}

/// The records of a list, one after the other.
pub open spec fn list_bytes<T: Wire>(items: Seq<T>) -> Seq<u8>
    decreases items.len(),
{
    if items.len() == 0 {
        Seq::empty()
    } else {
        list_bytes(items.drop_last()) + items.last().bytes()
    }
}

/// The first `n` records of `b` and their length in bytes.
pub open spec fn parse_list<T: Wire>(b: Seq<u8>, n: nat) -> Option<(Seq<T>, nat)>
    decreases n,
{
    if n == 0 {
        Some((Seq::empty(), 0))
    } else {
        match parse_list::<T>(b, (n - 1) as nat) {
            Some((items, used)) => match T::parse(b.skip(used as int)) {
                Some((x, k)) => Some((items.push(x), used + k)),
                None => None,
            },
            None => None,
        }
    }
}

/// A list behind the number of its records.
pub open spec fn counted_bytes<T: Wire>(items: Seq<T>) -> Seq<u8> {
    u64_bytes(items.len() as u64) + list_bytes(items)
}

/// The list that leads `b` behind the number of its records.
pub open spec fn parse_counted<T: Wire>(b: Seq<u8>) -> Option<(Seq<T>, nat)> {
    match parse_u64(b) {
        Some((n, _)) => match parse_list::<T>(b.skip(8), n as nat) {
            Some((items, used)) => Some((items, 8 + used)),
            None => None,
        },
        None => None,
    }
}

/// Whether a list can be written: its length is a 64-bit count and each record fits.
pub open spec fn list_fits<T: Wire>(items: Seq<T>) -> bool {
    &&& items.len() <= u64::MAX
    &&& forall|i: int| 0 <= i < items.len() ==> (#[trigger] items[i]).fits()
}

/// A written 64-bit number is read back, whatever follows it.
pub proof fn lemma_u64_round_trip(x: u64, rest: Seq<u8>)
    ensures
        u64_bytes(x).len() == 8,
        parse_u64(u64_bytes(x) + rest) == Some((x, 8nat)),
{
    lemma_auto_spec_u64_to_from_le_bytes();
    assert((u64_bytes(x) + rest).subrange(0, 8) =~= u64_bytes(x));
}

/// A written 32-bit number is read back, whatever follows it.
pub proof fn lemma_u32_round_trip(x: u32, rest: Seq<u8>)
    ensures
        u32_bytes(x).len() == 4,
        parse_u32(u32_bytes(x) + rest) == Some((x, 4nat)),
{
    lemma_auto_spec_u32_to_from_le_bytes();
    assert((u32_bytes(x) + rest).subrange(0, 4) =~= u32_bytes(x));
}

/// A written byte string is read back, whatever follows it.
pub proof fn lemma_blob_round_trip(b: Seq<u8>, rest: Seq<u8>)
    requires
        b.len() <= u64::MAX,
    ensures
        blob_bytes(b).len() == 8 + b.len(),
        parse_blob(blob_bytes(b) + rest) == Some((b, (8 + b.len()) as nat)),
{
    lemma_u64_round_trip(b.len() as u64, b + rest);
    assert(blob_bytes(b) + rest =~= u64_bytes(b.len() as u64) + (b + rest));
    assert((blob_bytes(b) + rest).subrange(8, 8 + b.len() as int) =~= b);
}

/// A written text is read back, whatever follows it.
pub proof fn lemma_text_round_trip(s: Seq<char>, rest: Seq<u8>)
    requires
        encode_utf8(s).len() <= u64::MAX,
    ensures
        text_bytes(s).len() == 8 + encode_utf8(s).len(),
        parse_text(text_bytes(s) + rest) == Some((s, (8 + encode_utf8(s).len()) as nat)),
{
    lemma_blob_round_trip(encode_utf8(s), rest);
    encode_utf8_valid_utf8(s);
    encode_utf8_decode_utf8(s);
}

/// A written optional page index is read back, whatever follows it.
pub proof fn lemma_link_round_trip(link: Option<usize>, rest: Seq<u8>)
    ensures
        parse_link(link_bytes(link) + rest) == Some((link, link_bytes(link).len())),
        link_bytes(link).len() == if link is Some {
            9nat
        } else {
            1nat
        },
{
    match link {
        None => {},
        Some(i) => {
            lemma_u64_round_trip(i as u64, rest);
            assert((link_bytes(link) + rest).skip(1) =~= u64_bytes(i as u64) + rest);
        },
    }
}

/// Reading back a written list gives the list, whatever follows it.
pub proof fn lemma_list_round_trip<T: Wire>(items: Seq<T>, rest: Seq<u8>)
    requires
        forall|i: int| 0 <= i < items.len() ==> (#[trigger] items[i]).fits(),
    ensures
        parse_list::<T>(list_bytes(items) + rest, items.len()) == Some(
            (items, list_bytes(items).len()),
        ),
    decreases items.len(),
{
    if items.len() > 0 {
        let front = items.drop_last();
        let last = items.last();
        lemma_list_round_trip(front, last.bytes() + rest);
        assert(list_bytes(items) + rest =~= list_bytes(front) + (last.bytes() + rest));
        assert((list_bytes(items) + rest).skip(list_bytes(front).len() as int) =~= last.bytes()
            + rest);
        last.lemma_round_trip(rest);
        assert(front.push(last) =~= items);
    }
}

/// Reading back a written counted list gives the list, whatever follows it.
pub proof fn lemma_counted_round_trip<T: Wire>(items: Seq<T>, rest: Seq<u8>)
    requires
        list_fits(items),
    ensures
        parse_counted::<T>(counted_bytes(items) + rest) == Some(
            (items, counted_bytes(items).len()),
        ),
{
    lemma_u64_round_trip(items.len() as u64, list_bytes(items) + rest);
    lemma_list_round_trip(items, rest);
    assert(counted_bytes(items) + rest =~= u64_bytes(items.len() as u64) + (list_bytes(items)
        + rest));
    assert((counted_bytes(items) + rest).skip(8) =~= list_bytes(items) + rest);
}

/// A list parser takes no more bytes than there are.
pub proof fn lemma_list_bound<T: Wire>(b: Seq<u8>, n: nat)
    ensures
        parse_list::<T>(b, n) matches Some((items, used)) ==> used <= b.len() && items.len() == n,
    decreases n,
{
    if n > 0 {
        lemma_list_bound::<T>(b, (n - 1) as nat);
        match parse_list::<T>(b, (n - 1) as nat) {
            Some((items, used)) => {
                T::lemma_parse_bound(b.skip(used as int));
            },
            None => {},
        }
    }
}

/// A counted-list parser takes no more bytes than there are.
pub proof fn lemma_counted_bound<T: Wire>(b: Seq<u8>)
    ensures
        parse_counted::<T>(b) matches Some((_, used)) ==> used <= b.len(),
{
    match parse_u64(b) {
        Some((n, _)) => {
            lemma_list_bound::<T>(b.skip(8), n as nat);
        },
        None => {},
    }
}

/// Once a list parser failed, it fails for every longer list.
pub proof fn lemma_list_fails<T: Wire>(b: Seq<u8>, i: nat, n: nat)
    requires
        i <= n,
        parse_list::<T>(b, i) is None,
    ensures
        parse_list::<T>(b, n) is None,
    decreases n,
{
    if i < n {
        lemma_list_fails::<T>(b, i, (n - 1) as nat);
    }
}

/// Appends a 64-bit number.
pub fn put_u64(out: &mut Vec<u8>, x: u64)
    ensures
        final(out)@ == old(out)@ + u64_bytes(x),
{
    let mut bytes = u64_to_le_bytes(x);
    out.append(&mut bytes);
}

/// Reads a 64-bit number at `at`.
pub fn take_u64(bytes: &[u8], at: usize) -> (r: Option<(u64, usize)>)
    requires
        at <= bytes@.len(),
    ensures
        match r {
            Some((x, end)) => end == at + 8 && end <= bytes@.len() && parse_u64(
                bytes@.skip(at as int),
            ) == Some((x, 8nat)),
            None => parse_u64(bytes@.skip(at as int)) is None,
        },
{
    if bytes.len() - at < 8 {
        return None;
    }
    let part = slice_subrange(bytes, at, at + 8);
    proof {
        assert(part@ =~= bytes@.skip(at as int).subrange(0, 8));
    }
    Some((u64_from_le_bytes(part), at + 8))
}

/// Appends a 32-bit number.
pub fn put_u32(out: &mut Vec<u8>, x: u32)
    ensures
        final(out)@ == old(out)@ + u32_bytes(x),
{
    let mut bytes = u32_to_le_bytes(x);
    out.append(&mut bytes);
}

/// Reads a 32-bit number at `at`.
pub fn take_u32(bytes: &[u8], at: usize) -> (r: Option<(u32, usize)>)
    requires
        at <= bytes@.len(),
    ensures
        match r {
            Some((x, end)) => end == at + 4 && end <= bytes@.len() && parse_u32(
                bytes@.skip(at as int),
            ) == Some((x, 4nat)),
            None => parse_u32(bytes@.skip(at as int)) is None,
        },
{
    if bytes.len() - at < 4 {
        return None;
    }
    let part = slice_subrange(bytes, at, at + 4);
    proof {
        assert(part@ =~= bytes@.skip(at as int).subrange(0, 4));
    }
    Some((u32_from_le_bytes(part), at + 4))
}

/// Appends a byte string behind its length.
pub fn put_blob(out: &mut Vec<u8>, b: &[u8])
    ensures
        final(out)@ == old(out)@ + blob_bytes(b@),
        b@.len() <= u64::MAX,
{
    put_u64(out, b.len() as u64);
    let mut copy = slice_to_vec(b);
    out.append(&mut copy);
    proof {
        assert(out@ =~= old(out)@ + blob_bytes(b@));
    }
}

/// Reads a byte string behind its length at `at`; gives where it starts and ends.
pub fn take_blob(bytes: &[u8], at: usize) -> (r: Option<(usize, usize)>)
    requires
        at <= bytes@.len(),
    ensures
        match r {
            Some((from, end)) => at <= from <= end <= bytes@.len() && parse_blob(
                bytes@.skip(at as int),
            ) == Some((bytes@.subrange(from as int, end as int), (end - at) as nat)),
            None => parse_blob(bytes@.skip(at as int)) is None,
        },
{
    match take_u64(bytes, at) {
        Some((n, from)) => {
            if n > (bytes.len() - from) as u64 {
                return None;
            }
            let end = from + n as usize;
            proof {
                assert(bytes@.skip(at as int).subrange(8, 8 + n) =~= bytes@.subrange(
                    from as int,
                    end as int,
                ));
            }
            Some((from, end))
        },
        None => None,
    }
}

/// Turns bytes into the text they encode.
///
/// Trusted: calls `String::from_utf8` of std, which gives the text exactly
/// when the bytes are valid UTF-8, and then a text with those very bytes.
#[verifier::external_body]
fn text_of(bytes: Vec<u8>) -> (r: Option<String>)
    ensures
        r is Some <==> valid_utf8(bytes@),
        r matches Some(s) ==> encode_utf8(s@) == bytes@,
{
    String::from_utf8(bytes).ok()
}

/// Appends a text as its UTF-8 bytes behind their number.
pub fn put_text(out: &mut Vec<u8>, s: &str)
    ensures
        final(out)@ == old(out)@ + text_bytes(s@),
        encode_utf8(s@).len() <= u64::MAX,
{
    put_blob(out, s.as_bytes());
}

/// Reads a text at `at`.
pub fn take_text(bytes: &[u8], at: usize) -> (r: Option<(String, usize)>)
    requires
        at <= bytes@.len(),
    ensures
        match r {
            Some((s, end)) => at <= end <= bytes@.len() && parse_text(bytes@.skip(at as int))
                == Some((s@, (end - at) as nat)),
            None => parse_text(bytes@.skip(at as int)) is None,
        },
{
    match take_blob(bytes, at) {
        Some((from, end)) => {
            let raw = slice_to_vec(slice_subrange(bytes, from, end));
            match text_of(raw) {
                Some(s) => {
                    proof {
                        encode_utf8_decode_utf8(s@);
                    }
                    Some((s, end))
                },
                None => None,
            }
        },
        None => None,
    }
}

/// Appends an optional page index.
pub fn put_link(out: &mut Vec<u8>, link: Option<usize>)
    ensures
        final(out)@ == old(out)@ + link_bytes(link),
{
    match link {
        None => {
            out.push(0u8);
            proof {
                assert(out@ =~= old(out)@ + link_bytes(link));
            }
        },
        Some(i) => {
            out.push(1u8);
            put_u64(out, i as u64);
            proof {
                assert(out@ =~= old(out)@ + link_bytes(link));
            }
        },
    }
}

/// Reads an optional page index at `at`.
pub fn take_link(bytes: &[u8], at: usize) -> (r: Option<(Option<usize>, usize)>)
    requires
        at <= bytes@.len(),
    ensures
        match r {
            Some((link, end)) => at <= end <= bytes@.len() && parse_link(bytes@.skip(at as int))
                == Some((link, (end - at) as nat)),
            None => parse_link(bytes@.skip(at as int)) is None,
        },
{
    if at >= bytes.len() {
        return None;
    }
    let tag = bytes[at];
    proof {
        assert(bytes@.skip(at as int)[0] == bytes@[at as int]);
        assert(bytes@.skip(at as int).skip(1) =~= bytes@.skip(at + 1));
    }
    if tag == 0 {
        Some((None, at + 1))
    } else if tag == 1 {
        match take_u64(bytes, at + 1) {
            Some((i, end)) => {
                if i > usize::MAX as u64 {
                    None
                } else {
                    Some((Some(i as usize), end))
                }
            },
            None => None,
        }
    } else {
        None
    }
}

/// The bytes of a record.
pub fn to_bytes<T: Codec>(value: &T) -> (out: Vec<u8>) where T::V: Wire
    ensures
        out@ == value@.bytes(),
        value@.fits(),
{
    let mut out: Vec<u8> = Vec::new();
    value.put(&mut out);
    proof {
        assert(out@ =~= value@.bytes());
    }
    out
}

/// Appends the records of `items`, one after the other.
pub fn put_list<T: Codec>(out: &mut Vec<u8>, items: &Vec<T>) where T::V: Wire
    ensures
        final(out)@ == old(out)@ + list_bytes(views(items@)),
        list_fits(views(items@)),
{
    let mut i: usize = 0;
    while i < items.len()
        invariant
            i <= items@.len(),
            out@ == old(out)@ + list_bytes(views(items@).take(i as int)),
            forall|j: int| 0 <= j < i ==> (#[trigger] views(items@)[j]).fits(),
        decreases items@.len() - i,
    {
        items[i].put(out);
        proof {
            let all = views(items@);
            assert(all.take(i + 1).drop_last() =~= all.take(i as int));
            assert(all.take(i + 1).last() == items@[i as int]@);
            assert(out@ =~= old(out)@ + list_bytes(all.take(i + 1)));
        }
        i += 1;
    }
    proof {
        assert(views(items@).take(i as int) =~= views(items@));
    }
}

/// Reads `n` records at `at`.
pub fn take_list<T: Codec>(bytes: &[u8], at: usize, n: u64) -> (r: Option<(Vec<T>, usize)>) where
    T::V: Wire,

    requires
        at <= bytes@.len(),
    ensures
        match r {
            Some((items, end)) => at <= end <= bytes@.len() && parse_list::<T::V>(
                bytes@.skip(at as int),
                n as nat,
            ) == Some((views(items@), (end - at) as nat)),
            None => parse_list::<T::V>(bytes@.skip(at as int), n as nat) is None,
        },
{
    let mut items: Vec<T> = Vec::new();
    let mut pos = at;
    let mut i: u64 = 0;
    let ghost tail = bytes@.skip(at as int);
    proof {
        assert(views(items@) =~= Seq::<T::V>::empty());
    }
    while i < n
        invariant
            i <= n,
            at <= pos <= bytes@.len(),
            tail == bytes@.skip(at as int),
            parse_list::<T::V>(tail, i as nat) == Some((views(items@), (pos - at) as nat)),
        decreases n - i,
    {
        proof {
            assert(tail.skip(pos - at) =~= bytes@.skip(pos as int));
        }
        match T::take(bytes, pos) {
            Some((item, end)) => {
                proof {
                    assert(views(items@.push(item)) =~= views(items@).push(item@));
                }
                items.push(item);
                pos = end;
            },
            None => {
                proof {
                    lemma_list_fails::<T::V>(tail, (i + 1) as nat, n as nat);
                }
                return None;
            },
        }
        i += 1;
    }
    Some((items, pos))
}

/// Appends a list behind the number of its records.
pub fn put_counted<T: Codec>(out: &mut Vec<u8>, items: &Vec<T>) where T::V: Wire
    ensures
        final(out)@ == old(out)@ + counted_bytes(views(items@)),
        list_fits(views(items@)),
{
    put_u64(out, items.len() as u64);
    put_list(out, items);
    proof {
        assert(out@ =~= old(out)@ + counted_bytes(views(items@)));
    }
}

/// Reads a list behind the number of its records at `at`.
pub fn take_counted<T: Codec>(bytes: &[u8], at: usize) -> (r: Option<(Vec<T>, usize)>) where
    T::V: Wire,

    requires
        at <= bytes@.len(),
    ensures
        match r {
            Some((items, end)) => at <= end <= bytes@.len() && parse_counted::<T::V>(
                bytes@.skip(at as int),
            ) == Some((views(items@), (end - at) as nat)),
            None => parse_counted::<T::V>(bytes@.skip(at as int)) is None,
        },
{
    match take_u64(bytes, at) {
        Some((n, from)) => {
            proof {
                assert(bytes@.skip(at as int).skip(8) =~= bytes@.skip(from as int));
            }
            take_list(bytes, from, n)
        },
        None => None,
    }
}

} // verus!
