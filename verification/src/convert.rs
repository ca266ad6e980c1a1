//! Conversions into values.
use vstd::prelude::*;
use vstd::std_specs::convert::FromSpecImpl;
use crate::value::{PakValue, ValueView};

verus! {

/// Types that can stand for a value in an index entry or a query.
pub trait IntoPakValue {
    /// The value that `self` stands for.
    fn into_pak_value(self) -> PakValue;
}

impl IntoPakValue for PakValue {
    fn into_pak_value(self) -> (r: PakValue)
        ensures
            r == self,
    {
        self
    }
}

/// Nothing stands for the void value.
impl<T: IntoPakValue> IntoPakValue for Option<T> {
    fn into_pak_value(self) -> (r: PakValue)
        ensures
            match self {
                Some(value) => call_ensures(T::into_pak_value, (value,), r),
                None => r@ == ValueView::Void,
            },
    {
        match self {
            Some(value) => value.into_pak_value(),
            None => PakValue::Void,
        }
    }
}

impl<'s> FromSpecImpl<&'s str> for PakValue {
    open spec fn obeys_from_spec() -> bool {
        false
    }

    open spec fn from_spec(value: &'s str) -> PakValue {
        PakValue::Void
    }
}

impl<'s> From<&'s str> for PakValue {
    fn from(value: &'s str) -> (r: PakValue)
        ensures
            r@ == ValueView::String(value@),
    {
        PakValue::String(value.to_owned())
    }
}

impl<'s> IntoPakValue for &'s str {
    fn into_pak_value(self) -> (r: PakValue)
        ensures
            r@ == ValueView::String(self@),
    {
        PakValue::String(self.to_owned())
    }
}

impl FromSpecImpl<String> for PakValue {
    open spec fn obeys_from_spec() -> bool {
        true
    }

    open spec fn from_spec(value: String) -> PakValue {
        PakValue::String(value)
    }
}

impl From<String> for PakValue {
    fn from(value: String) -> (r: PakValue)
    {
        PakValue::String(value)
    }
}

impl IntoPakValue for String {
    fn into_pak_value(self) -> (r: PakValue)
        ensures
            r == PakValue::String(self),
    {
        PakValue::String(self)
    }
}

impl FromSpecImpl<bool> for PakValue {
    open spec fn obeys_from_spec() -> bool {
        true
    }

    open spec fn from_spec(value: bool) -> PakValue {
        PakValue::Boolean(value)
    }
}

impl From<bool> for PakValue {
    fn from(value: bool) -> (r: PakValue)
    {
        PakValue::Boolean(value)
    }
}

impl IntoPakValue for bool {
    fn into_pak_value(self) -> (r: PakValue)
        ensures
            r == PakValue::Boolean(self),
    {
        PakValue::Boolean(self)
    }
}

impl FromSpecImpl<i64> for PakValue {
    open spec fn obeys_from_spec() -> bool {
        true
    }

    open spec fn from_spec(value: i64) -> PakValue {
        PakValue::Int(value)
    }
}

impl From<i64> for PakValue {
    fn from(value: i64) -> (r: PakValue)
    {
        PakValue::Int(value)
    }
}

impl IntoPakValue for i64 {
    fn into_pak_value(self) -> (r: PakValue)
        ensures
            r == PakValue::Int(self),
    {
        PakValue::Int(self)
    }
}

impl FromSpecImpl<i32> for PakValue {
    open spec fn obeys_from_spec() -> bool {
        true
    }

    open spec fn from_spec(value: i32) -> PakValue {
        PakValue::Int(value as i64)
    }
}

impl From<i32> for PakValue {
    fn from(value: i32) -> (r: PakValue)
    {
        PakValue::Int(value as i64)
    }
}

impl IntoPakValue for i32 {
    fn into_pak_value(self) -> (r: PakValue)
        ensures
            r == PakValue::Int(self as i64),
    {
        PakValue::Int(self as i64)
    }
}

impl FromSpecImpl<i16> for PakValue {
    open spec fn obeys_from_spec() -> bool {
        true
    }

    open spec fn from_spec(value: i16) -> PakValue {
        PakValue::Int(value as i64)
    }
}

impl From<i16> for PakValue {
    fn from(value: i16) -> (r: PakValue)
    {
        PakValue::Int(value as i64)
    }
}

impl IntoPakValue for i16 {
    fn into_pak_value(self) -> (r: PakValue)
        ensures
            r == PakValue::Int(self as i64),
    {
        PakValue::Int(self as i64)
    }
}

impl FromSpecImpl<i8> for PakValue {
    open spec fn obeys_from_spec() -> bool {
        true
    }

    open spec fn from_spec(value: i8) -> PakValue {
        PakValue::Int(value as i64)
    }
}

impl From<i8> for PakValue {
    fn from(value: i8) -> (r: PakValue)
    {
        PakValue::Int(value as i64)
    }
}

impl IntoPakValue for i8 {
    fn into_pak_value(self) -> (r: PakValue)
        ensures
            r == PakValue::Int(self as i64),
    {
        PakValue::Int(self as i64)
    }
}

impl FromSpecImpl<u64> for PakValue {
    open spec fn obeys_from_spec() -> bool {
        true
    }

    open spec fn from_spec(value: u64) -> PakValue {
        PakValue::Uint(value)
    }
}

impl From<u64> for PakValue {
    fn from(value: u64) -> (r: PakValue)
    {
        PakValue::Uint(value)
    }
}

impl IntoPakValue for u64 {
    fn into_pak_value(self) -> (r: PakValue)
        ensures
            r == PakValue::Uint(self),
    {
        PakValue::Uint(self)
    }
}

impl FromSpecImpl<u32> for PakValue {
    open spec fn obeys_from_spec() -> bool {
        true
    }

    open spec fn from_spec(value: u32) -> PakValue {
        PakValue::Uint(value as u64)
    }
}

impl From<u32> for PakValue {
    fn from(value: u32) -> (r: PakValue)
    {
        PakValue::Uint(value as u64)
    }
}

impl IntoPakValue for u32 {
    fn into_pak_value(self) -> (r: PakValue)
        ensures
            r == PakValue::Uint(self as u64),
    {
        PakValue::Uint(self as u64)
    }
}

impl FromSpecImpl<u16> for PakValue {
    open spec fn obeys_from_spec() -> bool {
        true
    }

    open spec fn from_spec(value: u16) -> PakValue {
        PakValue::Uint(value as u64)
    }
}

impl From<u16> for PakValue {
    fn from(value: u16) -> (r: PakValue)
    {
        PakValue::Uint(value as u64)
    }
}

impl IntoPakValue for u16 {
    fn into_pak_value(self) -> (r: PakValue)
        ensures
            r == PakValue::Uint(self as u64),
    {
        PakValue::Uint(self as u64)
    }
}

impl FromSpecImpl<u8> for PakValue {
    open spec fn obeys_from_spec() -> bool {
        true
    }

    open spec fn from_spec(value: u8) -> PakValue {
        PakValue::Uint(value as u64)
    }
}

impl From<u8> for PakValue {
    fn from(value: u8) -> (r: PakValue)
    {
        PakValue::Uint(value as u64)
    }
}

impl IntoPakValue for u8 {
    fn into_pak_value(self) -> (r: PakValue)
        ensures
            r == PakValue::Uint(self as u64),
    {
        PakValue::Uint(self as u64)
    }
}

} // verus!
