//! Sizes, alignments and strides of component types in guest memory.

use vstd::prelude::*;
use crate::layout::{
    align_to, align_up, is_aligned, is_power_of_two, lemma_align_up, lemma_power_of_two_positive,
    lemma_small_powers_of_two,
};
use crate::value::{Value, ValueType};

verus! {

/// A component type representation in guest memory.
pub trait ComponentType {
    /// The representation has a layout that this crate knows, and computing
    /// it does not overflow.
    spec fn has_layout(&self) -> bool;

    /// The size in bytes of the representation.
    spec fn layout_size(&self) -> nat;

    /// The alignment in bytes of the representation.
    spec fn layout_align(&self) -> nat;

    /// Returns the size of the type.
    fn size(&self) -> (r: usize)
        requires
            self.has_layout(),
        ensures
            r == self.layout_size(),
    ;

    /// Returns the alignment of the type.
    fn align(&self) -> (r: usize)
        requires
            self.has_layout(),
        ensures
            r == self.layout_align(),
            is_power_of_two(r as int),
    ;

    /// Returns the stride of the type: its size rounded up to its alignment.
    fn stride(&self) -> (r: usize)
        requires
            self.has_layout(),
            self.layout_size() + self.layout_align() - 1 <= usize::MAX,
        ensures
            r == align_up(self.layout_size() as int, self.layout_align() as int),
    {
        let size = self.size();
        let align = self.align();
        align_to(size, align)
    }
}

impl ComponentType for i32 {
    open spec fn has_layout(&self) -> bool {
        true
    }

    open spec fn layout_size(&self) -> nat {
        4
    }

    open spec fn layout_align(&self) -> nat {
        4
    }

    fn size(&self) -> (r: usize) {
        4
    }

    fn align(&self) -> (r: usize) {
        proof { lemma_small_powers_of_two(); }
        4
    }
}

/// A string is held in guest memory as a pointer and a length.
impl ComponentType for String {
    open spec fn has_layout(&self) -> bool {
        true
    }

    open spec fn layout_size(&self) -> nat {
        8
    }

    open spec fn layout_align(&self) -> nat {
        4
    }

    fn size(&self) -> (r: usize) {
        8
    }

    fn align(&self) -> (r: usize) {
        proof { lemma_small_powers_of_two(); }
        4
    }
}

/// The layout of a pair: the first member, padding up to the first member's
/// alignment, then the second member, padding up to the second member's
/// alignment.
pub open spec fn pair_size(size_a: nat, align_a: nat, size_b: nat, align_b: nat) -> int {
    align_up(align_up(size_a as int, align_a as int) + size_b, align_b as int)
}

/// The second member of a pair starts at a multiple of the first member's
/// alignment, after the whole first member; the pair ends at a multiple of
/// the second member's alignment, after the whole second member, and takes
/// less than both sizes plus both alignments.
pub proof fn law_pair_layout(size_a: nat, align_a: nat, size_b: nat, align_b: nat)
    requires
        align_a > 0,
        align_b > 0,
    ensures
        is_aligned(align_up(size_a as int, align_a as int), align_a as int),
        size_a <= align_up(size_a as int, align_a as int),
        align_up(size_a as int, align_a as int) + size_b <= pair_size(size_a, align_a, size_b, align_b),
        is_aligned(pair_size(size_a, align_a, size_b, align_b), align_b as int),
        pair_size(size_a, align_a, size_b, align_b) < size_a + align_a + size_b + align_b,
{
    lemma_align_up(size_a as int, align_a as int);
    lemma_align_up(align_up(size_a as int, align_a as int) + size_b, align_b as int);
}

/// A pair is aligned as strictly as the stricter of its members: its
/// alignment is at least each member's alignment and is one of them, so it
/// is their maximum.
pub proof fn law_pair_align<A: ComponentType, B: ComponentType>(pair: &(A, B))
    ensures
        pair.layout_align() >= pair.0.layout_align(),
        pair.layout_align() >= pair.1.layout_align(),
        pair.layout_align() == pair.0.layout_align() || pair.layout_align() == pair.1.layout_align(),
{
}

/// A pair lays out its first member at offset 0 and its second member at
/// the least multiple of the first member's alignment not below the first
/// member's size; the pair's size is the least multiple of the second
/// member's alignment that covers the second member.
pub proof fn law_pair_size<A: ComponentType, B: ComponentType>(pair: &(A, B))
    requires
        pair.0.layout_align() > 0,
        pair.1.layout_align() > 0,
    ensures
        ({
            let offset = align_up(pair.0.layout_size() as int, pair.0.layout_align() as int);
            &&& is_aligned(offset, pair.0.layout_align() as int)
            &&& pair.0.layout_size() <= offset < pair.0.layout_size() + pair.0.layout_align()
            &&& is_aligned(pair.layout_size() as int, pair.1.layout_align() as int)
            &&& offset + pair.1.layout_size() <= pair.layout_size()
            &&& pair.layout_size() < offset + pair.1.layout_size() + pair.1.layout_align()
        }),
{
    let offset = align_up(pair.0.layout_size() as int, pair.0.layout_align() as int);
    lemma_align_up(pair.0.layout_size() as int, pair.0.layout_align() as int);
    lemma_align_up(offset + pair.1.layout_size(), pair.1.layout_align() as int);
}

impl<A: ComponentType, B: ComponentType> ComponentType for (A, B) {
    open spec fn has_layout(&self) -> bool {
        &&& self.0.has_layout()
        &&& self.1.has_layout()
        &&& self.0.layout_size() + self.0.layout_align() - 1 <= usize::MAX
        &&& align_up(self.0.layout_size() as int, self.0.layout_align() as int) + self.1.layout_size()
            + self.1.layout_align() - 1 <= usize::MAX
    }

    open spec fn layout_size(&self) -> nat {
        pair_size(
            self.0.layout_size(),
            self.0.layout_align(),
            self.1.layout_size(),
            self.1.layout_align(),
        ) as nat
    }

    open spec fn layout_align(&self) -> nat {
        if self.0.layout_align() >= self.1.layout_align() {
            self.0.layout_align()
        } else {
            self.1.layout_align()
        }
    }

    fn size(&self) -> (r: usize) {
        let mut s: usize = 0;
        s = align_to(s + self.0.size(), self.0.align());
        let size_b = self.1.size();
        let align_b = self.1.align();
        proof { lemma_power_of_two_positive(align_b as int); }
        s = align_to(s + size_b, align_b);
        s
    }

    fn align(&self) -> (r: usize) {
        let a = self.0.align();
        let b = self.1.align();
        if a >= b { a } else { b }
    }
}

impl ComponentType for Value {
    open spec fn has_layout(&self) -> bool {
        self is S32
    }

    open spec fn layout_size(&self) -> nat {
        match self {
            Value::S32(v) => v.layout_size(),
            _ => 0,
        }
    }

    open spec fn layout_align(&self) -> nat {
        match self {
            Value::S32(v) => v.layout_align(),
            _ => 0,
        }
    }

    fn size(&self) -> (r: usize) {
        match self {
            Value::S32(v) => v.size(),
            _ => 0,
        }
    }

    fn align(&self) -> (r: usize) {
        match self {
            Value::S32(v) => v.align(),
            _ => 0,
        }
    }
}

/// The canonical size of values of type `ty`, where the crate knows it.
pub open spec fn value_type_size(ty: ValueType) -> nat {
    match ty {
        ValueType::Bool | ValueType::S8 | ValueType::U8 => 1,
        ValueType::S16 | ValueType::U16 => 2,
        ValueType::S32 | ValueType::U32 | ValueType::F32 | ValueType::Char => 4,
        ValueType::S64 | ValueType::U64 | ValueType::F64 => 8,
        ValueType::String | ValueType::List(_) => 8,
        _ => 0,
    }
}

/// The canonical alignment of values of type `ty`, where the crate knows it.
pub open spec fn value_type_align(ty: ValueType) -> nat {
    match ty {
        ValueType::Bool | ValueType::S8 | ValueType::U8 => 1,
        ValueType::S16 | ValueType::U16 => 2,
        ValueType::S32 | ValueType::U32 | ValueType::F32 | ValueType::Char => 4,
        ValueType::S64 | ValueType::U64 | ValueType::F64 => 8,
        ValueType::String | ValueType::List(_) => 4,
        _ => 0,
    }
}

impl ValueType {
    /// Whether this crate knows the layout of values of this type.
    pub fn has_known_layout(&self) -> (r: bool)
        ensures
            r == self.has_layout(),
    {
        match self {
            ValueType::Bool | ValueType::S8 | ValueType::U8 | ValueType::S16 | ValueType::U16
            | ValueType::S32 | ValueType::U32 | ValueType::F32 | ValueType::Char | ValueType::S64
            | ValueType::U64 | ValueType::F64 | ValueType::String | ValueType::List(_) => true,
            _ => false,
        }
    }
}

/// The layout of a value type: scalars, strings and lists have one; other
/// composite types are not laid out by this crate.
impl ComponentType for ValueType {
    open spec fn has_layout(&self) -> bool {
        value_type_size(*self) > 0
    }

    open spec fn layout_size(&self) -> nat {
        value_type_size(*self)
    }

    open spec fn layout_align(&self) -> nat {
        value_type_align(*self)
    }

    fn size(&self) -> (r: usize) {
        match self {
            ValueType::Bool | ValueType::S8 | ValueType::U8 => 1,
            ValueType::S16 | ValueType::U16 => 2,
            ValueType::S32 | ValueType::U32 | ValueType::F32 | ValueType::Char => 4,
            ValueType::S64 | ValueType::U64 | ValueType::F64 => 8,
            ValueType::String | ValueType::List(_) => 8,
            _ => 0,
        }
    }

    fn align(&self) -> (r: usize) {
        proof { lemma_small_powers_of_two(); }
        match self {
            ValueType::Bool | ValueType::S8 | ValueType::U8 => 1,
            ValueType::S16 | ValueType::U16 => 2,
            ValueType::S32 | ValueType::U32 | ValueType::F32 | ValueType::Char => 4,
            ValueType::S64 | ValueType::U64 | ValueType::F64 => 8,
            ValueType::String | ValueType::List(_) => 4,
            _ => 4,
        }
    }
}

} // verus!
