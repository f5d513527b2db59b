//! Laws on the allocations that lowering asks the guest for: a string asks
//! for exactly its UTF-8 bytes, a list for exactly its element block.

use vstd::prelude::*;
use vstd::utf8::encode_utf8;
use crate::component_type::{value_type_align, value_type_size, ComponentType};
use crate::flat::FlatValue;
use crate::lower::{alloc_step, AllocView, Lower, LowerError, LowerView};
use crate::value::{Value, ValueType, ValueView};

verus! {

/// Lowering a string asks the guest allocator for a block of exactly the
/// string's UTF-8 byte length, aligned to 1: whenever lowering it, into
/// memory or flat, stops for want of an allocation, the request has that
/// size and alignment; and where the allocator has no answer left, that is
/// what lowering answers, for any string whose bytes fit a guest size.
pub proof fn law_string_asks_for_its_utf8_bytes(
    s: Seq<char>,
    a: AllocView,
    mem: Seq<u8>,
    ptr: int,
    cx: LowerView,
    out: Seq<FlatValue>,
)
    ensures
        <String as Lower>::lowered(s, Some(a), mem, ptr) matches Err(LowerError::NeedsAllocation { size, align })
            ==> size == encode_utf8(s).len() && align == 1,
        <String as Lower>::lowered_flat(s, cx, out) matches Err(LowerError::NeedsAllocation { size, align })
            ==> size == encode_utf8(s).len() && align == 1,
        encode_utf8(s).len() <= i32::MAX && a.used >= a.answers.len() ==> {
            &&& <String as Lower>::lowered(s, Some(a), mem, ptr) == Err::<
                (Option<AllocView>, Seq<u8>, int),
                LowerError,
            >(LowerError::NeedsAllocation { size: encode_utf8(s).len() as i32, align: 1 })
            &&& <Value as Lower>::lowered(ValueView::String(s), Some(a), mem, ptr) == Err::<
                (Option<AllocView>, Seq<u8>, int),
                LowerError,
            >(LowerError::NeedsAllocation { size: encode_utf8(s).len() as i32, align: 1 })
        },
        encode_utf8(s).len() <= i32::MAX && cx.memory is Some && cx.realloc == Some(a) && a.used
            >= a.answers.len() ==> {
            &&& <String as Lower>::lowered_flat(s, cx, out) == Err::<(LowerView, Seq<FlatValue>), LowerError>(
                LowerError::NeedsAllocation { size: encode_utf8(s).len() as i32, align: 1 },
            )
            &&& <Value as Lower>::lowered_flat(ValueView::String(s), cx, out) == Err::<
                (LowerView, Seq<FlatValue>),
                LowerError,
            >(LowerError::NeedsAllocation { size: encode_utf8(s).len() as i32, align: 1 })
        },
{
}

/// Lowering a list whose element type has a layout asks the guest allocator
/// for one block of exactly the element size times the number of elements,
/// aligned to the element alignment, for every list whose block fits a guest
/// size: where the allocator has no answer left, that request is what
/// lowering answers, into memory or flat. Only a block past `i32::MAX` is
/// refused as too large.
pub proof fn law_list_asks_for_its_element_block(
    ty: usize,
    element: ValueType,
    values: Seq<ValueView>,
    a: AllocView,
    mem: Seq<u8>,
    ptr: int,
    cx: LowerView,
    out: Seq<FlatValue>,
)
    requires
        element.has_layout(),
        a.used >= a.answers.len(),
    ensures
        value_type_size(element) * values.len() <= i32::MAX ==> {
            &&& <Value as Lower>::lowered(
                ValueView::List { ty, element, values },
                Some(a),
                mem,
                ptr,
            ) == Err::<(Option<AllocView>, Seq<u8>, int), LowerError>(
                LowerError::NeedsAllocation {
                    size: (value_type_size(element) * values.len()) as i32,
                    align: value_type_align(element) as i32,
                },
            )
            &&& (cx.memory is Some && cx.realloc == Some(a)) ==> <Value as Lower>::lowered_flat(
                ValueView::List { ty, element, values },
                cx,
                out,
            ) == Err::<(LowerView, Seq<FlatValue>), LowerError>(
                LowerError::NeedsAllocation {
                    size: (value_type_size(element) * values.len()) as i32,
                    align: value_type_align(element) as i32,
                },
            )
        },
        value_type_size(element) * values.len() > i32::MAX ==> {
            &&& <Value as Lower>::lowered(
                ValueView::List { ty, element, values },
                Some(a),
                mem,
                ptr,
            ) == Err::<(Option<AllocView>, Seq<u8>, int), LowerError>(LowerError::SizeOverflow)
            &&& <Value as Lower>::lowered_flat(ValueView::List { ty, element, values }, cx, out) == Err::<
                (LowerView, Seq<FlatValue>),
                LowerError,
            >(LowerError::SizeOverflow)
        },
{
}

} // verus!
