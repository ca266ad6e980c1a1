//! The scalar values used as index keys and as search arguments.
use vstd::prelude::*;
use vstd::string::*;
use vstd::utf8::*;
use vstd::std_specs::convert::IntoSpec;
use crate::ieee::{flipped, float_int_order, float_order, order_bits, order_bits_int};

verus! {

/// Outcome of a three-way comparison.
#[derive(Clone, Copy, Debug, PartialEq, Eq, Structural)]
pub enum PakOrder {
    Less,
    Equal,
    Greater,
}

/// A tagged scalar. `Float` holds the raw IEEE-754 bits of a 64-bit float.
#[derive(Debug, Hash)]
pub enum PakValue {
    String(String),
    Float(u64),
    Int(i64),
    Uint(u64),
    Boolean(bool),
    Void,
}

/// Mathematical model of a [`PakValue`].
pub enum ValueView {
    String(Seq<char>),
    Float(u64),
    Int(i64),
    Uint(u64),
    Boolean(bool),
    Void,
}

impl View for PakValue {
    type V = ValueView;

    open spec fn view(&self) -> ValueView {
        match self {
            PakValue::String(s) => ValueView::String(s@),
            PakValue::Float(b) => ValueView::Float(*b),
            PakValue::Int(i) => ValueView::Int(*i),
            PakValue::Uint(u) => ValueView::Uint(*u),
            PakValue::Boolean(b) => ValueView::Boolean(*b),
            PakValue::Void => ValueView::Void,
        }
    }
}

/// Order of two integers.
pub open spec fn int_order(x: int, y: int) -> PakOrder {
    if x < y {
        PakOrder::Less
    } else if x == y {
        PakOrder::Equal
    } else {
        PakOrder::Greater
    }
}

/// Lexicographic order of two byte strings.
pub open spec fn bytes_order(a: Seq<u8>, b: Seq<u8>) -> PakOrder
    decreases a.len(),
{
    if a.len() == 0 {
        if b.len() == 0 {
            PakOrder::Equal
        } else {
            PakOrder::Less
        }
    } else if b.len() == 0 {
        PakOrder::Greater
    } else if a[0] != b[0] {
        int_order(a[0] as int, b[0] as int)
    } else {
        bytes_order(a.drop_first(), b.drop_first())
    }
}

/// The signed 64-bit number that has the same bits as `u`.
pub open spec fn signed_bits(u: u64) -> int {
    if u < 0x8000_0000_0000_0000 {
        u as int
    } else {
        u - 0x1_0000_0000_0000_0000
    }
}

/// The order of the two values, or `None` where they are incomparable.
///
/// Values of one kind are compared as such: texts byte by byte, numbers by
/// their size, `false` before `true`. Floats are compared as the numbers
/// they stand for; one that stands for no number is incomparable, even with
/// itself. A float and an integer are compared as the float and the integer
/// converted to a float. A signed and an unsigned integer are compared as
/// signed numbers with the same bits. The void value is equal to itself. All
/// other pairs are incomparable.
pub open spec fn partial_order(a: ValueView, b: ValueView) -> Option<PakOrder> {
    match (a, b) {
        (ValueView::String(x), ValueView::String(y)) => Some(
            bytes_order(encode_utf8(x), encode_utf8(y)),
        ),
        (ValueView::Float(x), ValueView::Float(y)) => float_order(x, y),
        (ValueView::Float(x), ValueView::Int(y)) => float_int_order(x, y as int),
        (ValueView::Float(x), ValueView::Uint(y)) => float_int_order(x, y as int),
        (ValueView::Int(x), ValueView::Float(y)) => flipped(float_int_order(y, x as int)),
        (ValueView::Uint(x), ValueView::Float(y)) => flipped(float_int_order(y, x as int)),
        (ValueView::Int(x), ValueView::Int(y)) => Some(int_order(x as int, y as int)),
        (ValueView::Int(x), ValueView::Uint(y)) => Some(int_order(x as int, signed_bits(y))),
        (ValueView::Uint(x), ValueView::Int(y)) => Some(int_order(signed_bits(x), y as int)),
        (ValueView::Uint(x), ValueView::Uint(y)) => Some(int_order(x as int, y as int)),
        (ValueView::Boolean(x), ValueView::Boolean(y)) => Some(
            int_order(if x { 1 } else { 0 }, if y { 1 } else { 0 }),
        ),
        (ValueView::Void, ValueView::Void) => Some(PakOrder::Equal),
        _ => None,
    }
}

/// The order used to sort keys: incomparable values count as equal.
pub open spec fn total_order(a: ValueView, b: ValueView) -> PakOrder {
    match partial_order(a, b) {
        Some(o) => o,
        None => PakOrder::Equal,
    }
}

/// The order of two unsigned numbers.
fn order_u64(x: u64, y: u64) -> (r: PakOrder)
    ensures
        r == int_order(x as int, y as int),
{
    if x < y {
        PakOrder::Less
    } else if x == y {
        PakOrder::Equal
    } else {
        PakOrder::Greater
    }
}

/// The order of two signed numbers.
fn order_i64(x: i64, y: i64) -> (r: PakOrder)
    ensures
        r == int_order(x as int, y as int),
{
    if x < y {
        PakOrder::Less
    } else if x == y {
        PakOrder::Equal
    } else {
        PakOrder::Greater
    }
}

/// The unsigned 64-bit number that has the same bits as `i`.
pub open spec fn unsigned_bits(i: i64) -> u64 {
    if i >= 0 {
        i as u64
    } else {
        (i + 0x1_0000_0000_0000_0000) as u64
    }
}

/// Reinterprets the bits of `i` as an unsigned number.
pub fn to_unsigned(i: i64) -> (r: u64)
    ensures
        r == unsigned_bits(i),
        signed_bits(r) == i,
{
    if i >= 0 {
        i as u64
    } else {
        let low: u64 = (i - i64::MIN) as u64;
        low + 0x8000_0000_0000_0000
    }
}

/// Reinterprets the bits of `u` as a signed number.
pub fn to_signed(u: u64) -> (r: i64)
    ensures
        r as int == signed_bits(u),
        unsigned_bits(r) == u,
{
    if u < 0x8000_0000_0000_0000 {
        u as i64
    } else {
        let low: u64 = u - 0x8000_0000_0000_0000;
        (low as i64) + i64::MIN
    }
}

/// The other way round.
fn flip(order: Option<PakOrder>) -> (r: Option<PakOrder>)
    ensures
        r == flipped(order),
{
    match order {
        Some(PakOrder::Less) => Some(PakOrder::Greater),
        Some(PakOrder::Greater) => Some(PakOrder::Less),
        other => other,
    }
}

/// Compares two byte strings lexicographically.
pub fn order_bytes(a: &[u8], b: &[u8]) -> (r: PakOrder)
    ensures
        r == bytes_order(a@, b@),
{
    let mut i: usize = 0;
    proof {
        assert(a@.skip(0) =~= a@);
        assert(b@.skip(0) =~= b@);
    }
    while i < a.len() && i < b.len()
        invariant
            i <= a@.len(),
            i <= b@.len(),
            bytes_order(a@, b@) == bytes_order(a@.skip(i as int), b@.skip(i as int)),
        decreases a@.len() - i,
    {
        proof {
            assert(a@.skip(i as int).drop_first() =~= a@.skip(i + 1));
            assert(b@.skip(i as int).drop_first() =~= b@.skip(i + 1));
            assert(a@.skip(i as int)[0] == a@[i as int]);
            assert(b@.skip(i as int)[0] == b@[i as int]);
        }
        if a[i] != b[i] {
            return if a[i] < b[i] {
                PakOrder::Less
            } else {
                PakOrder::Greater
            };
        }
        i += 1;
    }
    if i < b.len() {
        PakOrder::Less
    } else if i < a.len() {
        PakOrder::Greater
    } else {
        PakOrder::Equal
    }
}

/// Two byte strings compare as equal exactly when they are the same.
pub proof fn lemma_bytes_order_equal(a: Seq<u8>, b: Seq<u8>)
    ensures
        bytes_order(a, b) == PakOrder::Equal <==> a == b,
    decreases a.len(),
{
    if a.len() == 0 || b.len() == 0 {
        assert(bytes_order(a, b) == PakOrder::Equal ==> a =~= b);
    } else if a[0] != b[0] {
    } else {
        lemma_bytes_order_equal(a.drop_first(), b.drop_first());
        if a.drop_first() == b.drop_first() {
            assert(a =~= seq![a[0]] + a.drop_first());
            assert(b =~= seq![b[0]] + b.drop_first());
        }
    }
}

/// Whether two strings hold the same text.
pub fn same_text(a: &str, b: &str) -> (r: bool)
    ensures
        r == (a@ == b@),
{
    proof {
        lemma_bytes_order_equal(encode_utf8(a@), encode_utf8(b@));
        encode_utf8_decode_utf8(a@);
        encode_utf8_decode_utf8(b@);
    }
    match order_bytes(a.as_bytes(), b.as_bytes()) {
        PakOrder::Equal => true,
        _ => false,
    }
}

impl PakValue {
    /// The order of `self` and `other`, or `None` where they are incomparable.
    pub fn partial_compare(&self, other: &PakValue) -> (r: Option<PakOrder>)
        ensures
            r == partial_order(self@, other@),
    {
        match (self, other) {
            (PakValue::String(x), PakValue::String(y)) => Some(
                order_bytes(x.as_str().as_bytes(), y.as_str().as_bytes()),
            ),
            (PakValue::Float(x), PakValue::Float(y)) => order_bits(*x, *y),
            (PakValue::Float(x), PakValue::Int(y)) => order_bits_int(*x, *y as i128),
            (PakValue::Float(x), PakValue::Uint(y)) => order_bits_int(*x, *y as i128),
            (PakValue::Int(x), PakValue::Float(y)) => flip(order_bits_int(*y, *x as i128)),
            (PakValue::Uint(x), PakValue::Float(y)) => flip(order_bits_int(*y, *x as i128)),
            (PakValue::Int(x), PakValue::Int(y)) => Some(order_i64(*x, *y)),
            (PakValue::Int(x), PakValue::Uint(y)) => Some(order_i64(*x, to_signed(*y))),
            (PakValue::Uint(x), PakValue::Int(y)) => Some(order_i64(to_signed(*x), *y)),
            (PakValue::Uint(x), PakValue::Uint(y)) => Some(order_u64(*x, *y)),
            (PakValue::Boolean(x), PakValue::Boolean(y)) => Some(
                order_u64(if *x { 1 } else { 0 }, if *y { 1 } else { 0 }),
            ),
            (PakValue::Void, PakValue::Void) => Some(PakOrder::Equal),
            _ => None,
        }
    }

    /// The sort order of `self` and `other`: incomparable values count as equal.
    pub fn compare(&self, other: &PakValue) -> (r: PakOrder)
        ensures
            r == total_order(self@, other@),
    {
        match self.partial_compare(other) {
            Some(o) => o,
            None => PakOrder::Equal,
        }
    }
}

/// The signed number of `width` bits that has the lowest `width` bits of `i`.
pub open spec fn narrowed(i: i64, width: nat) -> int
    recommends
        width == 8 || width == 16 || width == 32,
{
    let span: int = if width == 8 {
        0x100
    } else if width == 16 {
        0x1_0000
    } else {
        0x1_0000_0000
    };
    let low = unsigned_bits(i) as int % span;
    if 2 * low < span {
        low
    } else {
        low - span
    }
}

impl PakValue {
    /// The text, if the value is one.
    pub fn as_string(&self) -> (r: Option<String>)
        ensures
            match self@ {
                ValueView::String(s) => r matches Some(text) && text@ == s,
                _ => r is None,
            },
    {
        match self {
            PakValue::String(value) => Some(value.clone()),
            _ => None,
        }
    }

    /// The number, if the value is an unsigned integer.
    pub fn as_u64(&self) -> (r: Option<u64>)
        ensures
            r == match self@ {
                ValueView::Uint(u) => Some(u),
                _ => None,
            },
    {
        match self {
            PakValue::Uint(value) => Some(*value),
            _ => None,
        }
    }

    /// The lowest 32 bits of the number, if the value is an unsigned integer.
    pub fn as_u32(&self) -> (r: Option<u32>)
        ensures
            r == match self@ {
                ValueView::Uint(u) => Some((u % 0x1_0000_0000) as u32),
                _ => None,
            },
    {
        match self {
            PakValue::Uint(value) => Some((*value % 0x1_0000_0000) as u32),
            _ => None,
        }
    }

    /// The lowest 16 bits of the number, if the value is an unsigned integer.
    pub fn as_u16(&self) -> (r: Option<u16>)
        ensures
            r == match self@ {
                ValueView::Uint(u) => Some((u % 0x1_0000) as u16),
                _ => None,
            },
    {
        match self {
            PakValue::Uint(value) => Some((*value % 0x1_0000) as u16),
            _ => None,
        }
    }

    /// The lowest 8 bits of the number, if the value is an unsigned integer.
    pub fn as_u8(&self) -> (r: Option<u8>)
        ensures
            r == match self@ {
                ValueView::Uint(u) => Some((u % 0x100) as u8),
                _ => None,
            },
    {
        match self {
            PakValue::Uint(value) => Some((*value % 0x100) as u8),
            _ => None,
        }
    }

    /// The number, if the value is a signed integer.
    pub fn as_i64(&self) -> (r: Option<i64>)
        ensures
            r == match self@ {
                ValueView::Int(i) => Some(i),
                _ => None,
            },
    {
        match self {
            PakValue::Int(value) => Some(*value),
            _ => None,
        }
    }

    /// The signed number with the lowest 32 bits of the number, if the
    /// value is a signed integer.
    pub fn as_i32(&self) -> (r: Option<i32>)
        ensures
            match self@ {
                ValueView::Int(i) => r matches Some(n) && n == narrowed(i, 32),
                _ => r is None,
            },
    {
        match self {
            PakValue::Int(value) => {
                let low = to_unsigned(*value) % 0x1_0000_0000;
                Some(
                    if low < 0x8000_0000 {
                        low as i32
                    } else {
                        (low as i64 - 0x1_0000_0000) as i32
                    },
                )
            },
            _ => None,
        }
    }

    /// The signed number with the lowest 16 bits of the number, if the
    /// value is a signed integer.
    pub fn as_i16(&self) -> (r: Option<i16>)
        ensures
            match self@ {
                ValueView::Int(i) => r matches Some(n) && n == narrowed(i, 16),
                _ => r is None,
            },
    {
        match self {
            PakValue::Int(value) => {
                let low = to_unsigned(*value) % 0x1_0000;
                Some(
                    if low < 0x8000 {
                        low as i16
                    } else {
                        (low as i64 - 0x1_0000) as i16
                    },
                )
            },
            _ => None,
        }
    }

    /// The signed number with the lowest 8 bits of the number, if the value
    /// is a signed integer.
    pub fn as_i8(&self) -> (r: Option<i8>)
        ensures
            match self@ {
                ValueView::Int(i) => r matches Some(n) && n == narrowed(i, 8),
                _ => r is None,
            },
    {
        match self {
            PakValue::Int(value) => {
                let low = to_unsigned(*value) % 0x100;
                Some(
                    if low < 0x80 {
                        low as i8
                    } else {
                        (low as i64 - 0x100) as i8
                    },
                )
            },
            _ => None,
        }
    }

    /// The truth value, if the value is one.
    pub fn as_bool(&self) -> (r: Option<bool>)
        ensures
            r == match self@ {
                ValueView::Boolean(b) => Some(b),
                _ => None,
            },
    {
        match self {
            PakValue::Boolean(value) => Some(*value),
            _ => None,
        }
    }

    /// The bits of the float, if the value is one.
    pub fn as_float_bits(&self) -> (r: Option<u64>)
        ensures
            r == match self@ {
                ValueView::Float(b) => Some(b),
                _ => None,
            },
    {
        match self {
            PakValue::Float(bits) => Some(*bits),
            _ => None,
        }
    }

    /// The signed integer value.
    pub fn of_int<I: Into<i64>>(integer: I) -> (r: Self)
        ensures
            r is Int,
            I::obeys_into_spec() ==> r == PakValue::Int(integer.into_spec()),
    {
        PakValue::Int(integer.into())
    }

    /// The unsigned integer value.
    pub fn uint<I: Into<u64>>(integer: I) -> (r: Self)
        ensures
            r is Uint,
            I::obeys_into_spec() ==> r == PakValue::Uint(integer.into_spec()),
    {
        PakValue::Uint(integer.into())
    }
}

impl Default for PakValue {
    fn default() -> (r: Self)
        ensures
            r == PakValue::Void,
    {
        PakValue::Void
    }
}

impl Clone for PakValue {
    fn clone(&self) -> (r: Self)
        ensures
            r@ == self@,
    {
        match self {
            PakValue::String(s) => PakValue::String(s.clone()),
            PakValue::Float(b) => PakValue::Float(*b),
            PakValue::Int(i) => PakValue::Int(*i),
            PakValue::Uint(u) => PakValue::Uint(*u),
            PakValue::Boolean(b) => PakValue::Boolean(*b),
            PakValue::Void => PakValue::Void,
        }
    }
}

} // verus!
