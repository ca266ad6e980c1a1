//! Queries: comparisons of an indexed field with a value, and unions and
//! intersections of queries.
use vstd::prelude::*;
use vstd::std_specs::ops::{BitAndSpecImpl, BitOrSpecImpl};
use crate::artifact::PakView;
use crate::convert::IntoPakValue;
use crate::error::{PakFault, PakResult};
use crate::pak::Pak;
use crate::pointer::PointerView;
use crate::search::{search, PakSearch};
use crate::set::PakPointerSet;
use crate::value::{PakValue, ValueView};

verus! {

/// A query. A comparison names the key of an index and a value; it finds the
/// pointers filed in that index under the keys that compare to the value as
/// the variant says.
#[derive(Debug)]
pub enum PakQuery {
    Equal(String, PakValue),
    GreaterThan(String, PakValue),
    LessThan(String, PakValue),
    GreaterThanEqual(String, PakValue),
    LessThanEqual(String, PakValue),
    /// Finds what either of the two queries finds.
    Union(Box<PakQuery>, Box<PakQuery>),
    /// Finds what both of the two queries find.
    Intersection(Box<PakQuery>, Box<PakQuery>),
}

/// Mathematical model of a [`PakQuery`].
pub enum QueryView {
    Compare(PakSearch, Seq<char>, ValueView),
    Union(Box<QueryView>, Box<QueryView>),
    Intersection(Box<QueryView>, Box<QueryView>),
}

impl View for PakQuery {
    type V = QueryView;

    open spec fn view(&self) -> QueryView {
        self.model()
    }
}

impl PakQuery {
    /// Mathematical model of the query.
    pub open spec fn model(&self) -> QueryView
        decreases self,
    {
        match self {
            PakQuery::Equal(key, value) => QueryView::Compare(PakSearch::Equal, key@, value@),
            PakQuery::GreaterThan(key, value) => QueryView::Compare(
                PakSearch::Greater,
                key@,
                value@,
            ),
            PakQuery::LessThan(key, value) => QueryView::Compare(PakSearch::Less, key@, value@),
            PakQuery::GreaterThanEqual(key, value) => QueryView::Compare(
                PakSearch::GreaterOrEqual,
                key@,
                value@,
            ),
            PakQuery::LessThanEqual(key, value) => QueryView::Compare(
                PakSearch::LessOrEqual,
                key@,
                value@,
            ),
            PakQuery::Union(a, b) => QueryView::Union(Box::new(a.model()), Box::new(b.model())),
            PakQuery::Intersection(a, b) => QueryView::Intersection(
                Box::new(a.model()),
                Box::new(b.model()),
            ),
        }
    }
}

/// What a comparison finds in a pak: the index for the key is searched from
/// its page 0, as many pages deep as the index has pages.
pub open spec fn compared(pak: PakView, kind: PakSearch, key: Seq<char>, value: ValueView) -> Result<
    Set<PointerView>,
    PakFault,
> {
    match pak.tree(key) {
        Ok(table) => search(pak, table, 0, value, kind, table.dom().len()),
        Err(f) => Err(f),
    }
}

/// What a query finds in a pak. A union finds the union of what its two
/// parts find, an intersection the intersection; the left part is answered
/// first, and its failure is the failure of the whole.
pub open spec fn answer(pak: PakView, query: QueryView) -> Result<Set<PointerView>, PakFault>
    decreases query,
{
    match query {
        QueryView::Compare(kind, key, value) => compared(pak, kind, key, value),
        QueryView::Union(a, b) => match answer(pak, *a) {
            Ok(left) => match answer(pak, *b) {
                Ok(right) => Ok(left.union(right)),
                Err(f) => Err(f),
            },
            Err(f) => Err(f),
        },
        QueryView::Intersection(a, b) => match answer(pak, *a) {
            Ok(left) => match answer(pak, *b) {
                Ok(right) => Ok(left.intersect(right)),
                Err(f) => Err(f),
            },
            Err(f) => Err(f),
        },
    }
}

impl PakQuery {
    /// The query for the items whose `key` equals `value`.
    pub fn equals<V: IntoPakValue>(key: &str, value: V) -> (r: Self)
        ensures
            r matches PakQuery::Equal(k, v) && k@ == key@ && call_ensures(
                V::into_pak_value,
                (value,),
                v,
            ),
    {
        PakQuery::Equal(key.to_owned(), value.into_pak_value())
    }

    /// The query for the items whose `key` is greater than `value`.
    pub fn greater_than<V: IntoPakValue>(key: &str, value: V) -> (r: Self)
        ensures
            r matches PakQuery::GreaterThan(k, v) && k@ == key@ && call_ensures(
                V::into_pak_value,
                (value,),
                v,
            ),
    {
        PakQuery::GreaterThan(key.to_owned(), value.into_pak_value())
    }

    /// The query for the items whose `key` is less than `value`.
    pub fn less_than<V: IntoPakValue>(key: &str, value: V) -> (r: Self)
        ensures
            r matches PakQuery::LessThan(k, v) && k@ == key@ && call_ensures(
                V::into_pak_value,
                (value,),
                v,
            ),
    {
        PakQuery::LessThan(key.to_owned(), value.into_pak_value())
    }

    /// The query for the items whose `key` is greater than or equal to `value`.
    pub fn greater_than_or_equal<V: IntoPakValue>(key: &str, value: V) -> (r: Self)
        ensures
            r matches PakQuery::GreaterThanEqual(k, v) && k@ == key@ && call_ensures(
                V::into_pak_value,
                (value,),
                v,
            ),
    {
        PakQuery::GreaterThanEqual(key.to_owned(), value.into_pak_value())
    }

    /// The query for the items whose `key` is less than or equal to `value`.
    pub fn less_than_or_equal<V: IntoPakValue>(key: &str, value: V) -> (r: Self)
        ensures
            r matches PakQuery::LessThanEqual(k, v) && k@ == key@ && call_ensures(
                V::into_pak_value,
                (value,),
                v,
            ),
    {
        PakQuery::LessThanEqual(key.to_owned(), value.into_pak_value())
    }

    /// The query that finds what `self` or `other` finds.
    pub fn or(self, other: PakQuery) -> (r: PakQuery)
        ensures
            r == PakQuery::Union(Box::new(self), Box::new(other)),
    {
        PakQuery::Union(Box::new(self), Box::new(other))
    }

    /// The query that finds what both `self` and `other` find.
    pub fn and(self, other: PakQuery) -> (r: PakQuery)
        ensures
            r == PakQuery::Intersection(Box::new(self), Box::new(other)),
    {
        PakQuery::Intersection(Box::new(self), Box::new(other))
    }

    /// Answers a comparison: loads the index for `key` and searches it.
    pub fn compare(pak: &Pak, kind: PakSearch, key: &str, value: &PakValue) -> (r: PakResult<
        PakPointerSet,
    >)
        requires
            pak.wf(),
        ensures
            match compared(pak@, kind, key@, value@) {
                Ok(found) => r matches Ok(set) && set.wf() && set@ == found,
                Err(f) => r matches Err(e) && e.fault() == f,
            },
    {
        match pak.get_tree(key) {
            Ok(tree) => tree.find(value, kind),
            Err(e) => Err(e),
        }
    }

    /// Answers the query from the indices of `pak`.
    pub fn execute(&self, pak: &Pak) -> (r: PakResult<PakPointerSet>)
        requires
            pak.wf(),
        ensures
            match answer(pak@, self@) {
                Ok(found) => r matches Ok(set) && set.wf() && set@ == found,
                Err(f) => r matches Err(e) && e.fault() == f,
            },
        decreases self,
    {
        match self {
            PakQuery::Equal(key, value) => PakQuery::compare(
                pak,
                PakSearch::Equal,
                key.as_str(),
                value,
            ),
            PakQuery::GreaterThan(key, value) => PakQuery::compare(
                pak,
                PakSearch::Greater,
                key.as_str(),
                value,
            ),
            PakQuery::LessThan(key, value) => PakQuery::compare(
                pak,
                PakSearch::Less,
                key.as_str(),
                value,
            ),
            PakQuery::GreaterThanEqual(key, value) => PakQuery::compare(
                pak,
                PakSearch::GreaterOrEqual,
                key.as_str(),
                value,
            ),
            PakQuery::LessThanEqual(key, value) => PakQuery::compare(
                pak,
                PakSearch::LessOrEqual,
                key.as_str(),
                value,
            ),
            PakQuery::Union(a, b) => {
                let left = match a.execute(pak) {
                    Ok(left) => left,
                    Err(e) => {
                        return Err(e);
                    },
                };
                let right = match b.execute(pak) {
                    Ok(right) => right,
                    Err(e) => {
                        return Err(e);
                    },
                };
                Ok(left.union(&right))
            },
            PakQuery::Intersection(a, b) => {
                let left = match a.execute(pak) {
                    Ok(left) => left,
                    Err(e) => {
                        return Err(e);
                    },
                };
                let right = match b.execute(pak) {
                    Ok(right) => right,
                    Err(e) => {
                        return Err(e);
                    },
                };
                Ok(left.intersection(&right))
            },
        }
    }
}

impl BitOrSpecImpl for PakQuery {
    open spec fn obeys_bitor_spec() -> bool {
        true
    }

    open spec fn bitor_req(self, other: PakQuery) -> bool {
        true
    }

    open spec fn bitor_spec(self, other: PakQuery) -> PakQuery {
        PakQuery::Union(Box::new(self), Box::new(other))
    }
}

impl core::ops::BitOr for PakQuery {
    type Output = PakQuery;

    fn bitor(self, other: PakQuery) -> PakQuery {
        PakQuery::Union(Box::new(self), Box::new(other))
    }
}

impl BitAndSpecImpl for PakQuery {
    open spec fn obeys_bitand_spec() -> bool {
        true
    }

    open spec fn bitand_req(self, other: PakQuery) -> bool {
        true
    }

    open spec fn bitand_spec(self, other: PakQuery) -> PakQuery {
        PakQuery::Intersection(Box::new(self), Box::new(other))
    }
}

impl core::ops::BitAnd for PakQuery {
    type Output = PakQuery;

    fn bitand(self, other: PakQuery) -> PakQuery {
        PakQuery::Intersection(Box::new(self), Box::new(other))
    }
}

/// The query for the items whose `key` equals `value`.
pub fn equals<V: IntoPakValue>(key: &str, value: V) -> (r: PakQuery)
    ensures
        r matches PakQuery::Equal(k, v) && k@ == key@ && call_ensures(
            V::into_pak_value,
            (value,),
            v,
        ),
{
    PakQuery::equals(key, value)
}

/// The query for the items whose `key` is greater than `value`.
pub fn greater_than<V: IntoPakValue>(key: &str, value: V) -> (r: PakQuery)
    ensures
        r matches PakQuery::GreaterThan(k, v) && k@ == key@ && call_ensures(
            V::into_pak_value,
            (value,),
            v,
        ),
{
    PakQuery::greater_than(key, value)
}

/// The query for the items whose `key` is less than `value`.
pub fn less_than<V: IntoPakValue>(key: &str, value: V) -> (r: PakQuery)
    ensures
        r matches PakQuery::LessThan(k, v) && k@ == key@ && call_ensures(
            V::into_pak_value,
            (value,),
            v,
        ),
{
    PakQuery::less_than(key, value)
}

/// The query for the items whose `key` is greater than or equal to `value`.
pub fn greater_than_equal<V: IntoPakValue>(key: &str, value: V) -> (r: PakQuery)
    ensures
        r matches PakQuery::GreaterThanEqual(k, v) && k@ == key@ && call_ensures(
            V::into_pak_value,
            (value,),
            v,
        ),
{
    PakQuery::greater_than_or_equal(key, value)
}

/// The query for the items whose `key` is less than or equal to `value`.
pub fn less_than_equal<V: IntoPakValue>(key: &str, value: V) -> (r: PakQuery)
    ensures
        r matches PakQuery::LessThanEqual(k, v) && k@ == key@ && call_ensures(
            V::into_pak_value,
            (value,),
            v,
        ),
{
    PakQuery::less_than_or_equal(key, value)
}

} // verus!
