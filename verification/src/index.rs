//! Index entries: the searchable (key, value) pairs of an item.
use vstd::prelude::*;
use crate::convert::IntoPakValue;
use crate::query::PakQuery;
use crate::value::{PakValue, ValueView};

verus! {

/// One searchable property of an item: the name of the indexed field and the
/// value the item has for it.
#[derive(Debug)]
pub struct PakIndex {
    pub key: String,
    pub value: PakValue,
}

/// Mathematical model of a [`PakIndex`].
pub struct IndexView {
    pub key: Seq<char>,
    pub value: ValueView,
}

impl View for PakIndex {
    type V = IndexView;

    open spec fn view(&self) -> IndexView {
        IndexView { key: self.key@, value: self.value@ }
    }
}

/// Names of indexed fields. The name is the key of the field's index, so a
/// query can be written from the name of the field it asks about.
pub trait PakIndexIdentifier {
    /// The name of the field, which is the key of its index.
    fn identifier(&self) -> &str;

    /// The query for the items whose field of this name equals `other`.
    fn equals<V: IntoPakValue>(&self, other: V) -> (r: PakQuery)
        ensures
            r matches PakQuery::Equal(k, v) && call_ensures(V::into_pak_value, (other,), v)
                && exists|name: &str| #[trigger]
                call_ensures(Self::identifier, (self,), name) && k@ == name@,
    {
        PakQuery::equals(self.identifier(), other)
    }

    /// The query for the items whose field of this name is less than `other`.
    fn less_than<V: IntoPakValue>(&self, other: V) -> (r: PakQuery)
        ensures
            r matches PakQuery::LessThan(k, v) && call_ensures(V::into_pak_value, (other,), v)
                && exists|name: &str| #[trigger]
                call_ensures(Self::identifier, (self,), name) && k@ == name@,
    {
        PakQuery::less_than(self.identifier(), other)
    }

    /// The query for the items whose field of this name is greater than `other`.
    fn greater_than<V: IntoPakValue>(&self, other: V) -> (r: PakQuery)
        ensures
            r matches PakQuery::GreaterThan(k, v) && call_ensures(V::into_pak_value, (other,), v)
                && exists|name: &str| #[trigger]
                call_ensures(Self::identifier, (self,), name) && k@ == name@,
    {
        PakQuery::greater_than(self.identifier(), other)
    }

    /// The query for the items whose field of this name is greater than or equal to `other`.
    fn greater_than_or_equal<V: IntoPakValue>(&self, other: V) -> (r: PakQuery)
        ensures
            r matches PakQuery::GreaterThanEqual(k, v) && call_ensures(V::into_pak_value, (other,), v)
                && exists|name: &str| #[trigger]
                call_ensures(Self::identifier, (self,), name) && k@ == name@,
    {
        PakQuery::greater_than_or_equal(self.identifier(), other)
    }

    /// The query for the items whose field of this name is less than or equal to `other`.
    fn less_than_or_equal<V: IntoPakValue>(&self, other: V) -> (r: PakQuery)
        ensures
            r matches PakQuery::LessThanEqual(k, v) && call_ensures(V::into_pak_value, (other,), v)
                && exists|name: &str| #[trigger]
                call_ensures(Self::identifier, (self,), name) && k@ == name@,
    {
        PakQuery::less_than_or_equal(self.identifier(), other)
    }
}

impl PakIndexIdentifier for String {
    fn identifier(&self) -> (r: &str)
        ensures
            r@ == self@,
    {
        self.as_str()
    }
}

impl<'id> PakIndexIdentifier for &'id str {
    fn identifier(&self) -> (r: &str)
        ensures
            r@ == self@,
    {
        self
    }
}

impl PakIndex {
    /// The index entry that files an item under `value` in the index named by `key`.
    pub fn new<I: PakIndexIdentifier, V: IntoPakValue>(key: I, value: V) -> (r: Self)
        ensures
            call_ensures(V::into_pak_value, (value,), r.value),
            exists|name: &str| #[trigger]
                call_ensures(I::identifier, (&key,), name) && r.key@ == name@,
    {
        PakIndex { key: key.identifier().to_owned(), value: value.into_pak_value() }
    }

    /// The index entry that files an item under `value` in the index for `key`.
    pub fn of(key: &str, value: PakValue) -> (r: Self)
        ensures
            r@ == (IndexView { key: key@, value: value@ }),
    {
        PakIndex { key: key.to_owned(), value }
    }
}

impl Clone for PakIndex {
    fn clone(&self) -> (r: Self)
        ensures
            r@ == self@,
    {
        PakIndex { key: self.key.clone(), value: self.value.clone() }
    }
}

} // verus!
