//! Turning the pointers that a query found into items, grouped by type.
use vstd::prelude::*;
use crate::artifact::PakView;
use crate::error::PakResult;
use crate::item::PakItemDeserialize;
use crate::pak::Pak;
use crate::pointer::{PakPointer, PakTypedPointer, PointerView};
use crate::set::PakPointerSet;
use crate::value::same_text;
use crate::wire::views;

verus! {

/// The pointers among `pointers` that carry `type_tag`, in their order.
pub open spec fn tagged(pointers: Seq<PointerView>, type_tag: Seq<char>) -> Seq<PointerView> {
    pointers.filter(|p: PointerView| p.type_tag == type_tag)
}

/// The pointers of the set that carry `type_tag`, in the order of the set.
pub fn select(pointers: &PakPointerSet, type_tag: &str) -> (r: Vec<PakTypedPointer>)
    ensures
        views(r@) == tagged(views(pointers.items@), type_tag@),
        r@.len() <= pointers.items@.len(),
{
    let mut r: Vec<PakTypedPointer> = Vec::new();
    let ghost all = views(pointers.items@);
    let mut i: usize = 0;
    proof {
        assert(all.take(0) =~= Seq::<PointerView>::empty());
        assert(views(r@) =~= tagged(all.take(0), type_tag@));
    }
    while i < pointers.items.len()
        invariant
            i <= pointers.items@.len(),
            all == views(pointers.items@),
            views(r@) == tagged(all.take(i as int), type_tag@),
            r@.len() <= i,
        decreases pointers.items@.len() - i,
    {
        let ghost before = views(r@);
        proof {
            let next = all.take(i + 1);
            assert(next.drop_last() =~= all.take(i as int));
            assert(next.last() == pointers.items@[i as int]@);
            reveal(Seq::filter);
        }
        if same_text(pointers.items[i].type_tag.as_str(), type_tag) {
            r.push(pointers.items[i].clone());
            proof {
                assert(views(r@) =~= before.push(all[i as int]));
            }
        }
        i += 1;
    }
    proof {
        assert(all.take(i as int) =~= all);
    }
    r
}

/// Whether `items` are what comes of reading the `pointers` one after
/// another as `T`s: for each pointer whose bytes the pak holds and `T`
/// accepts, the item that `T` makes of them; nothing for the others.
pub open spec fn read_each<T: PakItemDeserialize>(
    pak: PakView,
    pointers: Seq<PointerView>,
    items: Seq<T>,
) -> bool
    decreases pointers.len(),
{
    if pointers.len() == 0 {
        items.len() == 0
    } else {
        let rest = pointers.drop_last();
        match pak.item(pointers.last().offset, pointers.last().size) {
            Err(_) => read_each(pak, rest, items),
            Ok(b) => exists|bytes: &[u8], read: PakResult<T>|
                #![trigger call_ensures(T::from_bytes, (bytes,), read)]
                {
                    &&& bytes@ == b
                    &&& call_ensures(T::from_bytes, (bytes,), read)
                    &&& match read {
                        Ok(item) => items.len() > 0 && items.last() == item && read_each(
                            pak,
                            rest,
                            items.drop_last(),
                        ),
                        Err(_) => read_each(pak, rest, items),
                    }
                },
        }
    }
}

/// Whether `items` are what comes of reading as `T`s those of the
/// `pointers` that carry the tag of `T`, in their order.
pub open spec fn read_of<T: PakItemDeserialize>(
    pak: PakView,
    pointers: Seq<PointerView>,
    items: Seq<T>,
) -> bool {
    exists|tag: String| #[trigger]
        call_ensures(T::type_tag, (), tag) && read_each(pak, tagged(pointers, tag@), items)
}

/// Reads the items of type `T` among the pointers of the set. A pointer
/// that carries the tag of another type is left out; so is an item that
/// cannot be read or that `T` does not accept.
pub fn read_all<T: PakItemDeserialize>(pak: &Pak, pointers: &PakPointerSet) -> (r: Vec<T>)
    requires
        pak.wf(),
    ensures
        read_of(pak@, views(pointers.items@), r@),
        r@.len() <= pointers.items@.len(),
{
    let tag = T::type_tag();
    let chosen = select(pointers, tag.as_str());
    let ghost all = views(chosen@);
    let mut r: Vec<T> = Vec::new();
    let mut i: usize = 0;
    proof {
        assert(all.take(0) =~= Seq::<PointerView>::empty());
    }
    while i < chosen.len()
        invariant
            i <= chosen@.len(),
            r@.len() <= i,
            pak.wf(),
            all == views(chosen@),
            read_each(pak@, all.take(i as int), r@),
        decreases chosen@.len() - i,
    {
        let ghost before = r@;
        proof {
            assert(all.take(i + 1).drop_last() =~= all.take(i as int));
            assert(all.take(i + 1).last() == chosen@[i as int]@);
        }
        let pointer = PakPointer::Typed(chosen[i].clone());
        match pak.read_bytes(&pointer) {
            Ok(bytes) => {
                let slice = bytes.as_slice();
                let read = T::from_bytes(slice);
                proof {
                    assert(call_ensures(T::from_bytes, (slice,), read));
                }
                match read {
                    Ok(item) => {
                        r.push(item);
                        proof {
                            assert(r@.drop_last() =~= before);
                        }
                    },
                    Err(_) => {},
                }
            },
            Err(_) => {},
        }
        i += 1;
    }
    proof {
        assert(all.take(i as int) =~= all);
    }
    r
}

/// A way to turn the pointers that a query found into items: one sequence
/// of items for each type of the group.
pub trait PakItemDeserializeGroup {
    type ReturnType;

    /// Reads the items that the pointers name, one sequence for each type of the group.
    fn deserialize_group(pak: &Pak, pointers: &PakPointerSet) -> PakResult<Self::ReturnType>
        requires
            pak.wf(),
    ;
}

impl<T: PakItemDeserialize> PakItemDeserializeGroup for (T,) {
    type ReturnType = Vec<T>;

    fn deserialize_group(pak: &Pak, pointers: &PakPointerSet) -> (r: PakResult<Vec<T>>)
        ensures
            r matches Ok(items) && read_of(pak@, views(pointers.items@), items@),
    {
        Ok(read_all::<T>(pak, pointers))
    }
}

impl<T1: PakItemDeserialize, T2: PakItemDeserialize> PakItemDeserializeGroup for (T1, T2) {
    type ReturnType = (Vec<T1>, Vec<T2>);

    fn deserialize_group(pak: &Pak, pointers: &PakPointerSet) -> (r: PakResult<
        (Vec<T1>, Vec<T2>),
    >)
        ensures
            r matches Ok(items) && {
                &&& read_of(pak@, views(pointers.items@), items.0@)
                &&& read_of(pak@, views(pointers.items@), items.1@)
            },
    {
        Ok(
            (
                read_all::<T1>(pak, pointers),
                read_all::<T2>(pak, pointers),
            ),
        )
    }
}

impl<T1: PakItemDeserialize, T2: PakItemDeserialize, T3: PakItemDeserialize> PakItemDeserializeGroup for (T1, T2, T3) {
    type ReturnType = (Vec<T1>, Vec<T2>, Vec<T3>);

    fn deserialize_group(pak: &Pak, pointers: &PakPointerSet) -> (r: PakResult<
        (Vec<T1>, Vec<T2>, Vec<T3>),
    >)
        ensures
            r matches Ok(items) && {
                &&& read_of(pak@, views(pointers.items@), items.0@)
                &&& read_of(pak@, views(pointers.items@), items.1@)
                &&& read_of(pak@, views(pointers.items@), items.2@)
            },
    {
        Ok(
            (
                read_all::<T1>(pak, pointers),
                read_all::<T2>(pak, pointers),
                read_all::<T3>(pak, pointers),
            ),
        )
    }
}

impl<T1: PakItemDeserialize, T2: PakItemDeserialize, T3: PakItemDeserialize, T4: PakItemDeserialize> PakItemDeserializeGroup for (T1, T2, T3, T4) {
    type ReturnType = (Vec<T1>, Vec<T2>, Vec<T3>, Vec<T4>);

    fn deserialize_group(pak: &Pak, pointers: &PakPointerSet) -> (r: PakResult<
        (Vec<T1>, Vec<T2>, Vec<T3>, Vec<T4>),
    >)
        ensures
            r matches Ok(items) && {
                &&& read_of(pak@, views(pointers.items@), items.0@)
                &&& read_of(pak@, views(pointers.items@), items.1@)
                &&& read_of(pak@, views(pointers.items@), items.2@)
                &&& read_of(pak@, views(pointers.items@), items.3@)
            },
    {
        Ok(
            (
                read_all::<T1>(pak, pointers),
                read_all::<T2>(pak, pointers),
                read_all::<T3>(pak, pointers),
                read_all::<T4>(pak, pointers),
            ),
        )
    }
}

impl<T1: PakItemDeserialize, T2: PakItemDeserialize, T3: PakItemDeserialize, T4: PakItemDeserialize, T5: PakItemDeserialize> PakItemDeserializeGroup for (T1, T2, T3, T4, T5) {
    type ReturnType = (Vec<T1>, Vec<T2>, Vec<T3>, Vec<T4>, Vec<T5>);

    fn deserialize_group(pak: &Pak, pointers: &PakPointerSet) -> (r: PakResult<
        (Vec<T1>, Vec<T2>, Vec<T3>, Vec<T4>, Vec<T5>),
    >)
        ensures
            r matches Ok(items) && {
                &&& read_of(pak@, views(pointers.items@), items.0@)
                &&& read_of(pak@, views(pointers.items@), items.1@)
                &&& read_of(pak@, views(pointers.items@), items.2@)
                &&& read_of(pak@, views(pointers.items@), items.3@)
                &&& read_of(pak@, views(pointers.items@), items.4@)
            },
    {
        Ok(
            (
                read_all::<T1>(pak, pointers),
                read_all::<T2>(pak, pointers),
                read_all::<T3>(pak, pointers),
                read_all::<T4>(pak, pointers),
                read_all::<T5>(pak, pointers),
            ),
        )
    }
}

impl<T1: PakItemDeserialize, T2: PakItemDeserialize, T3: PakItemDeserialize, T4: PakItemDeserialize, T5: PakItemDeserialize, T6: PakItemDeserialize> PakItemDeserializeGroup for (T1, T2, T3, T4, T5, T6) {
    type ReturnType = (Vec<T1>, Vec<T2>, Vec<T3>, Vec<T4>, Vec<T5>, Vec<T6>);

    fn deserialize_group(pak: &Pak, pointers: &PakPointerSet) -> (r: PakResult<
        (Vec<T1>, Vec<T2>, Vec<T3>, Vec<T4>, Vec<T5>, Vec<T6>),
    >)
        ensures
            r matches Ok(items) && {
                &&& read_of(pak@, views(pointers.items@), items.0@)
                &&& read_of(pak@, views(pointers.items@), items.1@)
                &&& read_of(pak@, views(pointers.items@), items.2@)
                &&& read_of(pak@, views(pointers.items@), items.3@)
                &&& read_of(pak@, views(pointers.items@), items.4@)
                &&& read_of(pak@, views(pointers.items@), items.5@)
            },
    {
        Ok(
            (
                read_all::<T1>(pak, pointers),
                read_all::<T2>(pak, pointers),
                read_all::<T3>(pak, pointers),
                read_all::<T4>(pak, pointers),
                read_all::<T5>(pak, pointers),
                read_all::<T6>(pak, pointers),
            ),
        )
    }
}

impl<T1: PakItemDeserialize, T2: PakItemDeserialize, T3: PakItemDeserialize, T4: PakItemDeserialize, T5: PakItemDeserialize, T6: PakItemDeserialize, T7: PakItemDeserialize> PakItemDeserializeGroup for (T1, T2, T3, T4, T5, T6, T7) {
    type ReturnType = (Vec<T1>, Vec<T2>, Vec<T3>, Vec<T4>, Vec<T5>, Vec<T6>, Vec<T7>);

    fn deserialize_group(pak: &Pak, pointers: &PakPointerSet) -> (r: PakResult<
        (Vec<T1>, Vec<T2>, Vec<T3>, Vec<T4>, Vec<T5>, Vec<T6>, Vec<T7>),
    >)
        ensures
            r matches Ok(items) && {
                &&& read_of(pak@, views(pointers.items@), items.0@)
                &&& read_of(pak@, views(pointers.items@), items.1@)
                &&& read_of(pak@, views(pointers.items@), items.2@)
                &&& read_of(pak@, views(pointers.items@), items.3@)
                &&& read_of(pak@, views(pointers.items@), items.4@)
                &&& read_of(pak@, views(pointers.items@), items.5@)
                &&& read_of(pak@, views(pointers.items@), items.6@)
            },
    {
        Ok(
            (
                read_all::<T1>(pak, pointers),
                read_all::<T2>(pak, pointers),
                read_all::<T3>(pak, pointers),
                read_all::<T4>(pak, pointers),
                read_all::<T5>(pak, pointers),
                read_all::<T6>(pak, pointers),
                read_all::<T7>(pak, pointers),
            ),
        )
    }
}

impl<T1: PakItemDeserialize, T2: PakItemDeserialize, T3: PakItemDeserialize, T4: PakItemDeserialize, T5: PakItemDeserialize, T6: PakItemDeserialize, T7: PakItemDeserialize, T8: PakItemDeserialize> PakItemDeserializeGroup for (T1, T2, T3, T4, T5, T6, T7, T8) {
    type ReturnType = (Vec<T1>, Vec<T2>, Vec<T3>, Vec<T4>, Vec<T5>, Vec<T6>, Vec<T7>, Vec<T8>);

    fn deserialize_group(pak: &Pak, pointers: &PakPointerSet) -> (r: PakResult<
        (Vec<T1>, Vec<T2>, Vec<T3>, Vec<T4>, Vec<T5>, Vec<T6>, Vec<T7>, Vec<T8>),
    >)
        ensures
            r matches Ok(items) && {
                &&& read_of(pak@, views(pointers.items@), items.0@)
                &&& read_of(pak@, views(pointers.items@), items.1@)
                &&& read_of(pak@, views(pointers.items@), items.2@)
                &&& read_of(pak@, views(pointers.items@), items.3@)
                &&& read_of(pak@, views(pointers.items@), items.4@)
                &&& read_of(pak@, views(pointers.items@), items.5@)
                &&& read_of(pak@, views(pointers.items@), items.6@)
                &&& read_of(pak@, views(pointers.items@), items.7@)
            },
    {
        Ok(
            (
                read_all::<T1>(pak, pointers),
                read_all::<T2>(pak, pointers),
                read_all::<T3>(pak, pointers),
                read_all::<T4>(pak, pointers),
                read_all::<T5>(pak, pointers),
                read_all::<T6>(pak, pointers),
                read_all::<T7>(pak, pointers),
                read_all::<T8>(pak, pointers),
            ),
        )
    }
}

impl<T1: PakItemDeserialize, T2: PakItemDeserialize, T3: PakItemDeserialize, T4: PakItemDeserialize, T5: PakItemDeserialize, T6: PakItemDeserialize, T7: PakItemDeserialize, T8: PakItemDeserialize, T9: PakItemDeserialize> PakItemDeserializeGroup for (T1, T2, T3, T4, T5, T6, T7, T8, T9) {
    type ReturnType = (Vec<T1>, Vec<T2>, Vec<T3>, Vec<T4>, Vec<T5>, Vec<T6>, Vec<T7>, Vec<T8>, Vec<T9>);

    fn deserialize_group(pak: &Pak, pointers: &PakPointerSet) -> (r: PakResult<
        (Vec<T1>, Vec<T2>, Vec<T3>, Vec<T4>, Vec<T5>, Vec<T6>, Vec<T7>, Vec<T8>, Vec<T9>),
    >)
        ensures
            r matches Ok(items) && {
                &&& read_of(pak@, views(pointers.items@), items.0@)
                &&& read_of(pak@, views(pointers.items@), items.1@)
                &&& read_of(pak@, views(pointers.items@), items.2@)
                &&& read_of(pak@, views(pointers.items@), items.3@)
                &&& read_of(pak@, views(pointers.items@), items.4@)
                &&& read_of(pak@, views(pointers.items@), items.5@)
                &&& read_of(pak@, views(pointers.items@), items.6@)
                &&& read_of(pak@, views(pointers.items@), items.7@)
                &&& read_of(pak@, views(pointers.items@), items.8@)
            },
    {
        Ok(
            (
                read_all::<T1>(pak, pointers),
                read_all::<T2>(pak, pointers),
                read_all::<T3>(pak, pointers),
                read_all::<T4>(pak, pointers),
                read_all::<T5>(pak, pointers),
                read_all::<T6>(pak, pointers),
                read_all::<T7>(pak, pointers),
                read_all::<T8>(pak, pointers),
                read_all::<T9>(pak, pointers),
            ),
        )
    }
}

impl<T1: PakItemDeserialize, T2: PakItemDeserialize, T3: PakItemDeserialize, T4: PakItemDeserialize, T5: PakItemDeserialize, T6: PakItemDeserialize, T7: PakItemDeserialize, T8: PakItemDeserialize, T9: PakItemDeserialize, T10: PakItemDeserialize> PakItemDeserializeGroup for (T1, T2, T3, T4, T5, T6, T7, T8, T9, T10) {
    type ReturnType = (Vec<T1>, Vec<T2>, Vec<T3>, Vec<T4>, Vec<T5>, Vec<T6>, Vec<T7>, Vec<T8>, Vec<T9>, Vec<T10>);

    fn deserialize_group(pak: &Pak, pointers: &PakPointerSet) -> (r: PakResult<
        (Vec<T1>, Vec<T2>, Vec<T3>, Vec<T4>, Vec<T5>, Vec<T6>, Vec<T7>, Vec<T8>, Vec<T9>, Vec<T10>),
    >)
        ensures
            r matches Ok(items) && {
                &&& read_of(pak@, views(pointers.items@), items.0@)
                &&& read_of(pak@, views(pointers.items@), items.1@)
                &&& read_of(pak@, views(pointers.items@), items.2@)
                &&& read_of(pak@, views(pointers.items@), items.3@)
                &&& read_of(pak@, views(pointers.items@), items.4@)
                &&& read_of(pak@, views(pointers.items@), items.5@)
                &&& read_of(pak@, views(pointers.items@), items.6@)
                &&& read_of(pak@, views(pointers.items@), items.7@)
                &&& read_of(pak@, views(pointers.items@), items.8@)
                &&& read_of(pak@, views(pointers.items@), items.9@)
            },
    {
        Ok(
            (
                read_all::<T1>(pak, pointers),
                read_all::<T2>(pak, pointers),
                read_all::<T3>(pak, pointers),
                read_all::<T4>(pak, pointers),
                read_all::<T5>(pak, pointers),
                read_all::<T6>(pak, pointers),
                read_all::<T7>(pak, pointers),
                read_all::<T8>(pak, pointers),
                read_all::<T9>(pak, pointers),
                read_all::<T10>(pak, pointers),
            ),
        )
    }
}

impl<T1: PakItemDeserialize, T2: PakItemDeserialize, T3: PakItemDeserialize, T4: PakItemDeserialize, T5: PakItemDeserialize, T6: PakItemDeserialize, T7: PakItemDeserialize, T8: PakItemDeserialize, T9: PakItemDeserialize, T10: PakItemDeserialize, T11: PakItemDeserialize> PakItemDeserializeGroup for (T1, T2, T3, T4, T5, T6, T7, T8, T9, T10, T11) {
    type ReturnType = (Vec<T1>, Vec<T2>, Vec<T3>, Vec<T4>, Vec<T5>, Vec<T6>, Vec<T7>, Vec<T8>, Vec<T9>, Vec<T10>, Vec<T11>);

    fn deserialize_group(pak: &Pak, pointers: &PakPointerSet) -> (r: PakResult<
        (Vec<T1>, Vec<T2>, Vec<T3>, Vec<T4>, Vec<T5>, Vec<T6>, Vec<T7>, Vec<T8>, Vec<T9>, Vec<T10>, Vec<T11>),
    >)
        ensures
            r matches Ok(items) && {
                &&& read_of(pak@, views(pointers.items@), items.0@)
                &&& read_of(pak@, views(pointers.items@), items.1@)
                &&& read_of(pak@, views(pointers.items@), items.2@)
                &&& read_of(pak@, views(pointers.items@), items.3@)
                &&& read_of(pak@, views(pointers.items@), items.4@)
                &&& read_of(pak@, views(pointers.items@), items.5@)
                &&& read_of(pak@, views(pointers.items@), items.6@)
                &&& read_of(pak@, views(pointers.items@), items.7@)
                &&& read_of(pak@, views(pointers.items@), items.8@)
                &&& read_of(pak@, views(pointers.items@), items.9@)
                &&& read_of(pak@, views(pointers.items@), items.10@)
            },
    {
        Ok(
            (
                read_all::<T1>(pak, pointers),
                read_all::<T2>(pak, pointers),
                read_all::<T3>(pak, pointers),
                read_all::<T4>(pak, pointers),
                read_all::<T5>(pak, pointers),
                read_all::<T6>(pak, pointers),
                read_all::<T7>(pak, pointers),
                read_all::<T8>(pak, pointers),
                read_all::<T9>(pak, pointers),
                read_all::<T10>(pak, pointers),
                read_all::<T11>(pak, pointers),
            ),
        )
    }
}

impl<T1: PakItemDeserialize, T2: PakItemDeserialize, T3: PakItemDeserialize, T4: PakItemDeserialize, T5: PakItemDeserialize, T6: PakItemDeserialize, T7: PakItemDeserialize, T8: PakItemDeserialize, T9: PakItemDeserialize, T10: PakItemDeserialize, T11: PakItemDeserialize, T12: PakItemDeserialize> PakItemDeserializeGroup for (T1, T2, T3, T4, T5, T6, T7, T8, T9, T10, T11, T12) {
    type ReturnType = (Vec<T1>, Vec<T2>, Vec<T3>, Vec<T4>, Vec<T5>, Vec<T6>, Vec<T7>, Vec<T8>, Vec<T9>, Vec<T10>, Vec<T11>, Vec<T12>);

    fn deserialize_group(pak: &Pak, pointers: &PakPointerSet) -> (r: PakResult<
        (Vec<T1>, Vec<T2>, Vec<T3>, Vec<T4>, Vec<T5>, Vec<T6>, Vec<T7>, Vec<T8>, Vec<T9>, Vec<T10>, Vec<T11>, Vec<T12>),
    >)
        ensures
            r matches Ok(items) && {
                &&& read_of(pak@, views(pointers.items@), items.0@)
                &&& read_of(pak@, views(pointers.items@), items.1@)
                &&& read_of(pak@, views(pointers.items@), items.2@)
                &&& read_of(pak@, views(pointers.items@), items.3@)
                &&& read_of(pak@, views(pointers.items@), items.4@)
                &&& read_of(pak@, views(pointers.items@), items.5@)
                &&& read_of(pak@, views(pointers.items@), items.6@)
                &&& read_of(pak@, views(pointers.items@), items.7@)
                &&& read_of(pak@, views(pointers.items@), items.8@)
                &&& read_of(pak@, views(pointers.items@), items.9@)
                &&& read_of(pak@, views(pointers.items@), items.10@)
                &&& read_of(pak@, views(pointers.items@), items.11@)
            },
    {
        Ok(
            (
                read_all::<T1>(pak, pointers),
                read_all::<T2>(pak, pointers),
                read_all::<T3>(pak, pointers),
                read_all::<T4>(pak, pointers),
                read_all::<T5>(pak, pointers),
                read_all::<T6>(pak, pointers),
                read_all::<T7>(pak, pointers),
                read_all::<T8>(pak, pointers),
                read_all::<T9>(pak, pointers),
                read_all::<T10>(pak, pointers),
                read_all::<T11>(pak, pointers),
                read_all::<T12>(pak, pointers),
            ),
        )
    }
}

} // verus!
