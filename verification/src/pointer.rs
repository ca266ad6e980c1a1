//! Byte ranges into the vault, with or without a type tag.
use vstd::prelude::*;
use vstd::std_specs::cmp::PartialEqSpecImpl;
use crate::item::PakItemTyped;
use crate::value::same_text;

verus! {

/// A byte range that says nothing about what is stored in it.
#[derive(Clone, Copy, Debug, PartialEq, Eq, Hash, Structural)]
pub struct PakUntypedPointer {
    pub offset: u64,
    pub size: u64,
}

/// A byte range together with the tag of the type that is stored in it.
#[derive(Debug, Hash)]
pub struct PakTypedPointer {
    pub offset: u64,
    pub size: u64,
    pub type_tag: String,
}

/// Mathematical model of a [`PakTypedPointer`].
pub struct PointerView {
    pub offset: u64,
    pub size: u64,
    pub type_tag: Seq<char>,
}

/// A pointer to a location in the pak, typed or untyped.
#[derive(Debug, Hash)]
pub enum PakPointer {
    Typed(PakTypedPointer),
    Untyped(PakUntypedPointer),
}

/// Mathematical model of a [`PakPointer`].
pub enum PakPointerView {
    Typed(PointerView),
    Untyped(PakUntypedPointer),
}

impl View for PakTypedPointer {
    type V = PointerView;

    open spec fn view(&self) -> PointerView {
        PointerView { offset: self.offset, size: self.size, type_tag: self.type_tag@ }
    }
}

impl View for PakPointer {
    type V = PakPointerView;

    open spec fn view(&self) -> PakPointerView {
        match self {
            PakPointer::Typed(p) => PakPointerView::Typed(p@),
            PakPointer::Untyped(p) => PakPointerView::Untyped(*p),
        }
    }
}

impl PakPointerView {
    /// Where the named bytes start.
    pub open spec fn offset(self) -> u64 {
        match self {
            PakPointerView::Typed(p) => p.offset,
            PakPointerView::Untyped(p) => p.offset,
        }
    }

    /// How many bytes are named.
    pub open spec fn size(self) -> u64 {
        match self {
            PakPointerView::Typed(p) => p.size,
            PakPointerView::Untyped(p) => p.size,
        }
    }

    /// A pointer is compatible with a type tag when it is untyped or carries that tag.
    pub open spec fn matches(self, tag: Seq<char>) -> bool {
        match self {
            PakPointerView::Typed(p) => p.type_tag == tag,
            PakPointerView::Untyped(_) => true,
        }
    }

    /// The same byte range as a typed pointer: a typed pointer keeps its
    /// tag, an untyped one takes `tag`.
    pub open spec fn typed(self, tag: Seq<char>) -> PointerView {
        match self {
            PakPointerView::Typed(p) => p,
            PakPointerView::Untyped(p) => PointerView {
                offset: p.offset,
                size: p.size,
                type_tag: tag,
            },
        }
    }
}

impl PakUntypedPointer {
    /// The pointer to `size` bytes at `offset`.
    pub fn new(offset: u64, size: u64) -> (r: Self)
        ensures
            r == (PakUntypedPointer { offset, size }),
    {
        PakUntypedPointer { offset, size }
    }

    /// The same byte range as a pointer.
    pub fn as_pointer(&self) -> (r: PakPointer)
        ensures
            r == PakPointer::Untyped(*self),
    {
        PakPointer::Untyped(*self)
    }
}

impl Default for PakUntypedPointer {
    fn default() -> (r: Self)
        ensures
            r == (PakUntypedPointer { offset: 0, size: 0 }),
    {
        PakUntypedPointer { offset: 0, size: 0 }
    }
}

impl PakTypedPointer {
    /// The pointer to `size` bytes at `offset` that hold an item of the tagged type.
    pub fn new(offset: u64, size: u64, type_tag: &str) -> (r: Self)
        ensures
            r@ == (PointerView { offset, size, type_tag: type_tag@ }),
    {
        PakTypedPointer { offset, size, type_tag: type_tag.to_owned() }
    }

    /// The same pointer as a pointer that may or may not be typed.
    pub fn into_pointer(self) -> (r: PakPointer)
        ensures
            r == PakPointer::Typed(self),
    {
        PakPointer::Typed(self)
    }
}

impl Default for PakTypedPointer {
    fn default() -> (r: Self)
        ensures
            r@ == (PointerView { offset: 0, size: 0, type_tag: Seq::empty() }),
    {
        PakTypedPointer { offset: 0, size: 0, type_tag: String::new() }
    }
}

impl Clone for PakTypedPointer {
    fn clone(&self) -> (r: Self)
        ensures
            r@ == self@,
    {
        PakTypedPointer { offset: self.offset, size: self.size, type_tag: self.type_tag.clone() }
    }
}

impl PartialEqSpecImpl for PakTypedPointer {
    open spec fn obeys_eq_spec() -> bool {
        true
    }

    open spec fn eq_spec(&self, other: &PakTypedPointer) -> bool {
        self@ == other@
    }
}

impl PartialEq for PakTypedPointer {
    fn eq(&self, other: &PakTypedPointer) -> (r: bool)
    {
        self.offset == other.offset && self.size == other.size && same_text(
            self.type_tag.as_str(),
            other.type_tag.as_str(),
        )
    }
}

impl Eq for PakTypedPointer {}

impl Clone for PakPointer {
    fn clone(&self) -> (r: Self)
        ensures
            r@ == self@,
    {
        match self {
            PakPointer::Typed(p) => PakPointer::Typed(p.clone()),
            PakPointer::Untyped(p) => PakPointer::Untyped(*p),
        }
    }
}

impl PartialEqSpecImpl for PakPointer {
    open spec fn obeys_eq_spec() -> bool {
        true
    }

    open spec fn eq_spec(&self, other: &PakPointer) -> bool {
        self@ == other@
    }
}

impl PartialEq for PakPointer {
    fn eq(&self, other: &PakPointer) -> (r: bool)
    {
        match (self, other) {
            (PakPointer::Typed(a), PakPointer::Typed(b)) => a == b,
            (PakPointer::Untyped(a), PakPointer::Untyped(b)) => a.offset == b.offset && a.size
                == b.size,
            _ => false,
        }
    }
}

impl Eq for PakPointer {}

/// A pair of numbers, for trying things out.
#[derive(Debug)]
pub struct Test {
    pub a: u32,
    pub b: u32,
}

impl Test {
    /// The pair of `a` and `b`.
    pub fn new(a: u32, b: u32) -> (r: Self)
        ensures
            r.a == a,
            r.b == b,
    {
        Test { a, b }
    }

    /// The first number.
    pub fn get_a(&self) -> (r: u32)
        ensures
            r == self.a,
    {
        self.a
    }

    /// The second number.
    pub fn get_b(&self) -> (r: u32)
        ensures
            r == self.b,
    {
        self.b
    }
}

impl PakPointer {
    /// A pointer tagged with the type `T`.
    pub fn new_typed<T: PakItemTyped>(offset: u64, size: u64) -> (r: Self)
        ensures
            exists|tag: String| #[trigger]
                call_ensures(T::type_tag, (), tag) && r@ == PakPointerView::Typed(
                    PointerView { offset, size, type_tag: tag@ },
                ),
    {
        let tag = T::type_tag();
        PakPointer::Typed(PakTypedPointer::new(offset, size, tag.as_str()))
    }

    /// A pointer without a tag.
    pub fn new_untyped(offset: u64, size: u64) -> (r: Self)
        ensures
            r == PakPointer::Untyped(PakUntypedPointer { offset, size }),
    {
        PakPointer::Untyped(PakUntypedPointer::new(offset, size))
    }

    /// Where the named bytes start.
    pub fn offset(&self) -> (r: u64)
        ensures
            r == self@.offset(),
    {
        match self {
            PakPointer::Typed(ptr) => ptr.offset,
            PakPointer::Untyped(ptr) => ptr.offset,
        }
    }

    /// How many bytes are named.
    pub fn size(&self) -> (r: u64)
        ensures
            r == self@.size(),
    {
        match self {
            PakPointer::Typed(ptr) => ptr.size,
            PakPointer::Untyped(ptr) => ptr.size,
        }
    }

    /// The tag of a typed pointer; the word `Untyped` for an untyped one.
    pub fn type_tag(&self) -> (r: &str)
        ensures
            match self@ {
                PakPointerView::Typed(p) => r@ == p.type_tag,
                PakPointerView::Untyped(_) => r@ == "Untyped"@,
            },
    {
        match self {
            PakPointer::Typed(ptr) => ptr.type_tag.as_str(),
            PakPointer::Untyped(_) => "Untyped",
        }
    }

    /// The same byte range without its tag.
    pub fn as_untyped(&self) -> (r: PakUntypedPointer)
        ensures
            r == (PakUntypedPointer { offset: self@.offset(), size: self@.size() }),
    {
        match self {
            PakPointer::Typed(ptr) => PakUntypedPointer::new(ptr.offset, ptr.size),
            PakPointer::Untyped(ptr) => *ptr,
        }
    }

    /// The same byte range with the given tag, unless it already carries one.
    pub fn with_type(self, type_tag: &str) -> (r: PakTypedPointer)
        ensures
            r@ == self@.typed(type_tag@),
    {
        match self {
            PakPointer::Typed(ptr) => ptr,
            PakPointer::Untyped(ptr) => PakTypedPointer::new(ptr.offset, ptr.size, type_tag),
        }
    }

    /// A typed pointer as it is; an untyped one tagged with the type `T`.
    pub fn into_typed<T: PakItemTyped>(self) -> (r: PakTypedPointer)
        ensures
            exists|tag: String| #[trigger]
                call_ensures(T::type_tag, (), tag) && r@ == self@.typed(tag@),
    {
        let tag = T::type_tag();
        self.with_type(tag.as_str())
    }

    /// Whether the pointer is untyped or carries exactly this tag.
    pub fn matches(&self, type_tag: &str) -> (r: bool)
        ensures
            r == self@.matches(type_tag@),
    {
        match self {
            PakPointer::Typed(ptr) => same_text(ptr.type_tag.as_str(), type_tag),
            PakPointer::Untyped(_) => true,
        }
    }

    /// Whether the pointer may be read as a `T`: it is untyped or carries the tag of `T`.
    pub fn type_is_match<T: PakItemTyped>(&self) -> (r: bool)
        ensures
            exists|tag: String| #[trigger]
                call_ensures(T::type_tag, (), tag) && r == self@.matches(tag@),
    {
        let tag = T::type_tag();
        self.matches(tag.as_str())
    }
}

} // verus!
