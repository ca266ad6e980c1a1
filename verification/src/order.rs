//! When a set of values is ordered well enough to be the keys of one index.
use vstd::prelude::*;
use vstd::utf8::*;
use crate::ieee::{is_nan, lemma_float_order_by_level};
use crate::value::{bytes_order, lemma_bytes_order_equal, total_order, PakOrder, ValueView};

verus! {

/// The three values compare like members of one total order: comparing is
/// symmetric, "less" carries over, and equal values compare alike to a third.
pub open spec fn in_line(a: ValueView, b: ValueView, c: ValueView) -> bool {
    &&& (total_order(a, b) == PakOrder::Less <==> total_order(b, a) == PakOrder::Greater)
    &&& (total_order(a, b) == PakOrder::Equal <==> total_order(b, a) == PakOrder::Equal)
    &&& (total_order(a, b) == PakOrder::Less && total_order(b, c) == PakOrder::Less
        ==> total_order(a, c) == PakOrder::Less)
    &&& (total_order(a, b) == PakOrder::Equal ==> total_order(a, c) == total_order(b, c))
    &&& (total_order(b, c) == PakOrder::Equal ==> total_order(a, b) == total_order(a, c))
}

/// The values of the set are totally ordered by [`total_order`]. Values of
/// different kinds can break this: a text and a number count as equal, and
/// so does the void value with anything.
pub open spec fn coherent(keys: Set<ValueView>) -> bool {
    forall|a: ValueView, b: ValueView, c: ValueView|
        keys.contains(a) && keys.contains(b) && keys.contains(c) ==> #[trigger] in_line(a, b, c)
}

/// The kind of a value. Values of one kind are in line with each other:
/// texts, floats that stand for a number or an infinity, floats that stand
/// for no number (which all count as equal), signed and unsigned integers,
/// flags, and the void value.
pub enum ValueKind {
    Text,
    Number,
    NoNumber,
    Signed,
    Unsigned,
    Flag,
    Void,
}

/// The kind of a value.
pub open spec fn kind_of(v: ValueView) -> ValueKind {
    match v {
        ValueView::String(_) => ValueKind::Text,
        ValueView::Float(bits) => if is_nan(bits) {
            ValueKind::NoNumber
        } else {
            ValueKind::Number
        },
        ValueView::Int(_) => ValueKind::Signed,
        ValueView::Uint(_) => ValueKind::Unsigned,
        ValueView::Boolean(_) => ValueKind::Flag,
        ValueView::Void => ValueKind::Void,
    }
}

/// The order of byte strings is symmetric.
pub proof fn lemma_bytes_order_flip(a: Seq<u8>, b: Seq<u8>)
    ensures
        bytes_order(a, b) == PakOrder::Less <==> bytes_order(b, a) == PakOrder::Greater,
        bytes_order(a, b) == PakOrder::Equal <==> bytes_order(b, a) == PakOrder::Equal,
    decreases a.len(),
{
    if a.len() > 0 && b.len() > 0 && a[0] == b[0] {
        lemma_bytes_order_flip(a.drop_first(), b.drop_first());
    }
}

/// "Less" carries over among byte strings.
pub proof fn lemma_bytes_order_carries(a: Seq<u8>, b: Seq<u8>, c: Seq<u8>)
    requires
        bytes_order(a, b) == PakOrder::Less,
        bytes_order(b, c) == PakOrder::Less,
    ensures
        bytes_order(a, c) == PakOrder::Less,
    decreases a.len(),
{
    if a.len() > 0 && b.len() > 0 && c.len() > 0 {
        if a[0] == b[0] && b[0] == c[0] {
            lemma_bytes_order_carries(a.drop_first(), b.drop_first(), c.drop_first());
        }
    }
}

/// Values of one kind are always in line.
pub proof fn lemma_one_kind_in_line(a: ValueView, b: ValueView, c: ValueView)
    requires
        kind_of(a) == kind_of(b),
        kind_of(b) == kind_of(c),
    ensures
        in_line(a, b, c),
{
    match (a, b, c) {
        (ValueView::String(x), ValueView::String(y), ValueView::String(z)) => {
            let (p, q, r) = (encode_utf8(x), encode_utf8(y), encode_utf8(z));
            lemma_bytes_order_flip(p, q);
            lemma_bytes_order_equal(p, q);
            lemma_bytes_order_equal(q, r);
            if bytes_order(p, q) == PakOrder::Less && bytes_order(q, r) == PakOrder::Less {
                lemma_bytes_order_carries(p, q, r);
            }
        },
        (ValueView::Float(x), ValueView::Float(y), ValueView::Float(z)) => {
            if !is_nan(x) {
                lemma_float_order_by_level(x, y);
                lemma_float_order_by_level(y, x);
                lemma_float_order_by_level(x, z);
                lemma_float_order_by_level(y, z);
            }
        },
        _ => {},
    }
}

/// A set of values of one kind is coherent.
pub proof fn lemma_one_kind_coherent(keys: Set<ValueView>, kind: ValueKind)
    requires
        forall|v: ValueView| keys.contains(v) ==> kind_of(v) == kind,
    ensures
        coherent(keys),
{
    assert forall|a: ValueView, b: ValueView, c: ValueView|
        keys.contains(a) && keys.contains(b) && keys.contains(c) implies #[trigger] in_line(
        a,
        b,
        c,
    ) by {
        lemma_one_kind_in_line(a, b, c);
    }
}

/// Whether the value is an integer that reads the same signed and unsigned:
/// a signed one, or an unsigned one below two to the power of 63.
pub open spec fn plain_integer(v: ValueView) -> bool {
    match v {
        ValueView::Int(_) => true,
        ValueView::Uint(u) => u < 0x8000_0000_0000_0000,
        _ => false,
    }
}

/// The number that a plain integer stands for.
pub open spec fn number_of(v: ValueView) -> int {
    match v {
        ValueView::Int(i) => i as int,
        ValueView::Uint(u) => u as int,
        _ => 0,
    }
}

/// Plain integers compare as the numbers they stand for, signed or unsigned.
pub proof fn lemma_plain_integers_in_line(a: ValueView, b: ValueView, c: ValueView)
    requires
        plain_integer(a),
        plain_integer(b),
        plain_integer(c),
    ensures
        total_order(a, b) == crate::value::int_order(number_of(a), number_of(b)),
        in_line(a, b, c),
{
}

/// A set of plain integers is coherent, whether they are signed or unsigned.
pub proof fn lemma_plain_integers_coherent(keys: Set<ValueView>)
    requires
        forall|v: ValueView| keys.contains(v) ==> plain_integer(v),
    ensures
        coherent(keys),
{
    assert forall|a: ValueView, b: ValueView, c: ValueView|
        keys.contains(a) && keys.contains(b) && keys.contains(c) implies #[trigger] in_line(
        a,
        b,
        c,
    ) by {
        lemma_plain_integers_in_line(a, b, c);
    }
}

/// A part of a coherent set is coherent.
pub proof fn lemma_coherent_subset(keys: Set<ValueView>, part: Set<ValueView>)
    requires
        coherent(keys),
        part.subset_of(keys),
    ensures
        coherent(part),
{
    assert forall|a: ValueView, b: ValueView, c: ValueView|
        part.contains(a) && part.contains(b) && part.contains(c) implies #[trigger] in_line(
        a,
        b,
        c,
    ) by {
        assert(keys.contains(a) && keys.contains(b) && keys.contains(c));
    }
}

} // verus!
