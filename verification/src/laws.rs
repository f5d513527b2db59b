//! Laws that relate lowering and lifting: what a load gives back of a store.

use vstd::prelude::*;
use vstd::utf8::{encode_utf8, encode_utf8_decode_utf8, encode_utf8_valid_utf8};
use crate::lift::{
    flat_i32, flat_pair, lift_elements, lift_flat_type, lift_list, lift_type, read_i32_at, read_pair_at, read_string, table_entry, Lift, LiftContext,
    LiftError,
};
use crate::lower::{
    models, StoreStep,
    alloc_step, i32_step, list_bytes, lowered_seq, memory_view, s32_items, stored_elements,
    stored_elements_flat, write_i32_at, AllocView, Lower, LowerView,
};
use crate::flat::FlatValue;
use crate::value::{Value, ValueType, ValueView};
use crate::wit::TypeDefKind;
use crate::memory::{address, i32_le_bytes, in_bounds, lemma_i32_le_roundtrip, splice};
use crate::wit::WitType;
use crate::component_type::{pair_size, value_type_align, ComponentType};
use crate::layout::align_up;

verus! {

/// Splicing leaves the length alone, puts `data` where it was written, and
/// keeps every byte outside the written range.
pub proof fn lemma_splice(s: Seq<u8>, at: int, data: Seq<u8>)
    requires
        in_bounds(s.len(), at, data.len() as int),
    ensures
        splice(s, at, data).len() == s.len(),
        splice(s, at, data).subrange(at, at + data.len()) == data,
        forall|i: int|
            0 <= i < s.len() && !(at <= i < at + data.len()) ==> #[trigger] splice(s, at, data)[i] == s[i],
{
    assert(splice(s, at, data).subrange(at, at + data.len()) =~= data);
}

/// Two stretches of memory that agree byte for byte read alike.
proof fn lemma_same_bytes_same_subrange(m1: Seq<u8>, m2: Seq<u8>, at: int, len: int)
    requires
        0 <= at,
        0 <= len,
        at + len <= m1.len(),
        at + len <= m2.len(),
        forall|i: int| at <= i < at + len ==> m1[i] == m2[i],
    ensures
        m1.subrange(at, at + len) == m2.subrange(at, at + len),
{
    assert(m1.subrange(at, at + len) =~= m2.subrange(at, at + len));
}

/// Storing an `i32` and loading it from the same place gives it back, and
/// both end at the same pointer; the allocator is not touched.
pub proof fn law_i32_store_then_load(
    cx: &LiftContext,
    v: i32,
    a: Option<AllocView>,
    mem: Seq<u8>,
    ptr: int,
    tys: Seq<WitType>,
)
    requires
        <i32 as Lower>::lowered(v, a, mem, ptr) is Ok,
    ensures
        <i32 as Lower>::lowered(v, a, mem, ptr) matches Ok((a2, m2, p)) && a2 == a && m2.len() == mem.len()
            && <i32 as Lift>::lifted(cx, m2, tys, ptr) == Ok::<(i32, int, nat), crate::lift::LiftError>(
            (v, p, 0),
        ),
{
    lemma_i32_le_roundtrip(v);
    lemma_splice(mem, ptr, i32_le_bytes(v));
}


/// Reading four bytes that a later write did not touch gives what was there.
pub proof fn lemma_read_i32_untouched(m1: Seq<u8>, at: int, data: Seq<u8>, r: int)
    requires
        in_bounds(m1.len(), at, data.len() as int),
        in_bounds(m1.len(), r, 4),
        r + 4 <= at || at + data.len() <= r,
    ensures
        read_i32_at(splice(m1, at, data), r) == read_i32_at(m1, r),
{
    lemma_splice(m1, at, data);
    lemma_same_bytes_same_subrange(splice(m1, at, data), m1, r, 4);
}

/// Storing a pair of `i32`s and loading a pair from the same place gives it
/// back; the pair takes eight bytes.
pub proof fn law_pair_store_then_load(
    cx: &LiftContext,
    v: (i32, i32),
    a: Option<AllocView>,
    mem: Seq<u8>,
    ptr: int,
    tys: Seq<WitType>,
)
    requires
        <(i32, i32) as Lower>::lowered(v, a, mem, ptr) is Ok,
    ensures
        <(i32, i32) as Lower>::lowered(v, a, mem, ptr) matches Ok((a2, m2, p)) && a2 == a && m2.len()
            == mem.len() && p == ptr + 8 && <(i32, i32) as Lift>::lifted(cx, m2, tys, ptr) == Ok::<
            ((i32, i32), int, nat),
            crate::lift::LiftError,
        >((v, p, 0)),
{
    let m1 = splice(mem, ptr, i32_le_bytes(v.0));
    law_i32_store_then_load(cx, v.0, a, mem, ptr, tys);
    law_i32_store_then_load(cx, v.1, a, m1, ptr + 4, tys.skip(0));
    lemma_i32_le_roundtrip(v.1);
    lemma_read_i32_untouched(m1, ptr + 4, i32_le_bytes(v.1), ptr);
    assert(tys.skip(0) =~= tys);
}

/// Storing a string and loading a string from the same place gives it back,
/// provided the allocator's answer leaves the eight-byte header at `ptr`
/// clear of the string's bytes.
pub proof fn law_string_store_then_load(
    cx: &LiftContext,
    s: Seq<char>,
    a: Option<AllocView>,
    mem: Seq<u8>,
    ptr: int,
    tys: Seq<WitType>,
)
    requires
        <String as Lower>::lowered(s, a, mem, ptr) is Ok,
        alloc_step(a, encode_utf8(s).len() as i32, 1) matches Ok((addr, _)) ==> disjoint(
            address(addr),
            address(addr) + encode_utf8(s).len(),
            ptr,
            ptr + 8,
        ),
    ensures
        <String as Lower>::lowered(s, a, mem, ptr) matches Ok((a2, m2, p)) && p == ptr + 8 && m2.len()
            == mem.len() && <String as Lift>::lifted(cx, m2, tys, ptr) == Ok::<
            (Seq<char>, int, nat),
            crate::lift::LiftError,
        >((s, p, 0)),
{
    let bytes = encode_utf8(s);
    let n = bytes.len();
    let (addr, a2) = alloc_step(a, n as i32, 1).unwrap();
    let m1 = splice(mem, address(addr), bytes);
    lemma_splice(mem, address(addr), bytes);
    law_pair_store_then_load(cx, (addr, n as i32), a2, m1, ptr, tys);
    let m2 = <(i32, i32) as Lower>::lowered((addr, n as i32), a2, m1, ptr).unwrap().1;
    // the header write leaves the string's bytes alone
    let m1b = splice(m1, ptr, i32_le_bytes(addr));
    lemma_i32_le_roundtrip(addr);
    lemma_i32_le_roundtrip(n as i32);
    lemma_splice(m1, ptr, i32_le_bytes(addr));
    lemma_splice(m1b, ptr + 4, i32_le_bytes(n as i32));
    assert(m2 == splice(m1b, ptr + 4, i32_le_bytes(n as i32)));
    lemma_same_bytes_same_subrange(m2, m1, address(addr), n as int);
    assert(read_pair_at(m2, ptr) == Ok::<(i32, i32), crate::lift::LiftError>((addr, n as i32)));
    encode_utf8_valid_utf8(s);
    encode_utf8_decode_utf8(s);
    assert(read_string(m2, addr, n as i32) == Ok::<Seq<char>, crate::lift::LiftError>(s));
}


/// Storing `k` `i32`s one after the other from `start`: the allocator is
/// untouched, the pointer advances by four bytes each, each stored `i32`
/// reads back, and every byte outside the stored range keeps its value.
pub proof fn lemma_i32_seq_store(xs: Seq<i32>, k: nat, a: Option<AllocView>, mem: Seq<u8>, start: int)
    requires
        k <= xs.len(),
        lowered_seq(i32_step(), xs, k, a, mem, start) is Ok,
    ensures
        lowered_seq(i32_step(), xs, k, a, mem, start) matches Ok((a2, m2, p)) && {
            &&& a2 == a
            &&& p == start + 4 * k
            &&& m2.len() == mem.len()
            &&& k > 0 ==> in_bounds(mem.len(), start, (4 * k) as int)
            &&& forall|j: int| 0 <= j < k ==> #[trigger] read_i32_at(m2, start + 4 * j) == Ok::<i32, LiftError>(xs[j])
            &&& forall|i: int| 0 <= i < mem.len() && !(start <= i < start + 4 * k) ==> #[trigger] m2[i] == mem[i]
        },
    decreases k,
{
    if k > 0 {
        let k1 = (k - 1) as nat;
        lemma_i32_seq_store(xs, k1, a, mem, start);
        let (a1, m1, p1) = lowered_seq(i32_step(), xs, k1, a, mem, start).unwrap();
        let v = xs[k1 as int];
        assert(lowered_seq(i32_step(), xs, k, a, mem, start) == (i32_step())(v, a1, m1, p1));
        assert((i32_step())(v, a1, m1, p1) == <i32 as Lower>::lowered(v, a1, m1, p1));
        assert(write_i32_at(m1, p1, v) is Ok);
        lemma_i32_le_roundtrip(v);
        lemma_splice(m1, p1, i32_le_bytes(v));
        let m2 = splice(m1, p1, i32_le_bytes(v));
        assert forall|j: int| 0 <= j < k implies #[trigger] read_i32_at(m2, start + 4 * j) == Ok::<i32, LiftError>(xs[j]) by {
            if j < k1 {
                lemma_read_i32_untouched(m1, p1, i32_le_bytes(v), start + 4 * j);
            }
        }
    }
}

/// Loading `k` `s32` values from memory that holds them gives them back.
pub proof fn lemma_s32_elements_load(
    cx: &LiftContext,
    mem: Seq<u8>,
    xs: Seq<i32>,
    k: nat,
    start: int,
    bound: nat,
)
    requires
        k <= xs.len(),
        bound > 0,
        forall|j: int| 0 <= j < k ==> #[trigger] read_i32_at(mem, start + 4 * j) == Ok::<i32, LiftError>(xs[j]),
    ensures
        lift_elements(cx, mem, WitType::S32, k, start, bound) == Ok::<(Seq<ValueView>, int), LiftError>(
            (Seq::new(k, |j: int| ValueView::S32(xs[j])), start + 4 * k),
        ),
    decreases k,
{
    if k == 0 {
        assert(Seq::new(k, |j: int| ValueView::S32(xs[j])) =~= Seq::<ValueView>::empty());
    } else {
        let k1 = (k - 1) as nat;
        lemma_s32_elements_load(cx, mem, xs, k1, start, bound);
        assert(read_i32_at(mem, start + 4 * k1) == Ok::<i32, LiftError>(xs[k1 as int]));
        assert(lift_type(cx, mem, WitType::S32, start + 4 * k1) == Ok::<(ValueView, int), LiftError>(
            (ValueView::S32(xs[k1 as int]), start + 4 * k),
        ));
        assert(Seq::new(k1, |j: int| ValueView::S32(xs[j])).push(ValueView::S32(xs[k1 as int]))
            =~= Seq::new(k, |j: int| ValueView::S32(xs[j])));
    }
}

/// The list case of [`law_value_store_then_load`].
proof fn lemma_list_store_then_load(
    cx: &LiftContext,
    l: usize,
    values: Seq<ValueView>,
    i: usize,
    a: Option<AllocView>,
    mem: Seq<u8>,
    ptr: int,
)
    requires
        i < cx.resolve.types@.len(),
        cx.resolve.types@[i as int] == TypeDefKind::List(WitType::S32),
        table_entry(cx, i) == Some(ValueType::List(l)),
        allocation_clear(ValueView::List { ty: l, element: ValueType::S32, values }, a, ptr),
        <Value as Lower>::lowered(ValueView::List { ty: l, element: ValueType::S32, values }, a, mem, ptr) is Ok,
    ensures
        <Value as Lower>::lowered(ValueView::List { ty: l, element: ValueType::S32, values }, a, mem, ptr)
            matches Ok((a2, m2, p)) && lift_type(cx, m2, WitType::Id(i), ptr) == Ok::<(ValueView, int), LiftError>(
            (ValueView::List { ty: l, element: ValueType::S32, values }, p),
        ),
{
    let v = ValueView::List { ty: l, element: ValueType::S32, values };
    let n = values.len();
    let xs = s32_items(values).unwrap();
    let size = list_bytes(ValueType::S32, n).unwrap();
    let (addr, a2) = alloc_step(a, size, 4).unwrap();
    let start = address(addr);
    assert(stored_elements(ValueType::S32, values, a2, mem, start) == lowered_seq(i32_step(), xs, xs.len(), a2, mem, start));
    lemma_i32_seq_store(xs, xs.len(), a2, mem, start);
    let (a3, m3, p3) = lowered_seq(i32_step(), xs, xs.len(), a2, mem, start).unwrap();
    assert(<Value as Lower>::lowered(v, a, mem, ptr) == <(i32, i32) as Lower>::lowered((addr, n as i32), a3, m3, ptr));
    law_pair_store_then_load(cx, (addr, n as i32), a3, m3, ptr, seq![]);
    let m1b = splice(m3, ptr, i32_le_bytes(addr));
    let m4 = splice(m1b, ptr + 4, i32_le_bytes(n as i32));
    assert(<(i32, i32) as Lower>::lowered((addr, n as i32), a3, m3, ptr) == Ok::<(Option<AllocView>, Seq<u8>, int), crate::lower::LowerError>((a3, m4, ptr + 8)));
    lemma_i32_le_roundtrip(addr);
    lemma_i32_le_roundtrip(n as i32);
    lemma_splice(m3, ptr, i32_le_bytes(addr));
    lemma_splice(m1b, ptr + 4, i32_le_bytes(n as i32));
    assert(read_pair_at(m4, ptr) == Ok::<(i32, i32), LiftError>((addr, n as i32)));
    assert forall|j: int| 0 <= j < n implies #[trigger] read_i32_at(m4, start + 4 * j) == Ok::<i32, LiftError>(xs[j]) by {
        assert(read_i32_at(m3, start + 4 * j) == Ok::<i32, LiftError>(xs[j]));
        lemma_read_i32_untouched(m3, ptr, i32_le_bytes(addr), start + 4 * j);
        lemma_read_i32_untouched(m1b, ptr + 4, i32_le_bytes(n as i32), start + 4 * j);
    }
    lemma_s32_elements_load(cx, m4, xs, n, start, i as nat + 1);
    assert(Seq::new(n, |j: int| ValueView::S32(xs[j])) =~= values);
    assert(lift_list(cx, m4, WitType::S32, addr, n as i32, i as nat + 1) == Ok::<Seq<ValueView>, LiftError>(values));
}

/// The WIT type `ty` reads back a value of the shape of `v` as this crate
/// lowers it: an `s32`, a string, or a list of `s32` whose definition the
/// context holds.
pub open spec fn stored_as(cx: &LiftContext, ty: WitType, v: ValueView) -> bool {
    match v {
        ValueView::S32(_) => ty == WitType::S32,
        ValueView::String(_) => ty == WitType::String,
        ValueView::List { ty: l, element, values } => {
            &&& ty matches WitType::Id(i)
            &&& i < cx.resolve.types@.len()
            &&& cx.resolve.types@[i as int] == TypeDefKind::List(WitType::S32)
            &&& table_entry(cx, i) == Some(ValueType::List(l))
            &&& element == ValueType::S32
        },
        _ => false,
    }
}

/// `[a0, a1)` and `[b0, b1)` share no address.
pub open spec fn disjoint(a0: int, a1: int, b0: int, b1: int) -> bool {
    a1 <= a0 || b1 <= b0 || a1 <= b0 || b1 <= a0
}

/// The bytes that lowering `v` at `ptr` allocates, if it allocates, lie
/// clear of the eight bytes at `ptr`.
pub open spec fn allocation_clear(v: ValueView, a: Option<AllocView>, ptr: int) -> bool {
    match v {
        ValueView::String(s) => alloc_step(a, encode_utf8(s).len() as i32, 1) matches Ok((addr, _))
            ==> disjoint(address(addr), address(addr) + encode_utf8(s).len(), ptr, ptr + 8),
        ValueView::List { values, .. } => alloc_step(a, (4 * values.len()) as i32, 4) matches Ok((addr, _))
            ==> disjoint(address(addr), address(addr) + 4 * values.len(), ptr, ptr + 8),
        _ => true,
    }
}

/// Storing a value and loading a value of its type from the same place
/// gives it back, with the same end pointer: for `s32` values, strings, and
/// lists of `s32`, wherever the allocation leaves the header clear.
pub proof fn law_value_store_then_load(
    cx: &LiftContext,
    v: ValueView,
    a: Option<AllocView>,
    mem: Seq<u8>,
    ptr: int,
    tys: Seq<WitType>,
)
    requires
        tys.len() > 0,
        stored_as(cx, tys[0], v),
        allocation_clear(v, a, ptr),
        <Value as Lower>::lowered(v, a, mem, ptr) is Ok,
    ensures
        <Value as Lower>::lowered(v, a, mem, ptr) matches Ok((a2, m2, p))
            && <Value as Lift>::lifted(cx, m2, tys, ptr) == Ok::<(ValueView, int, nat), LiftError>((v, p, 1)),
{
    match v {
        ValueView::S32(x) => {
            law_i32_store_then_load(cx, x, a, mem, ptr, tys);
        },
        ValueView::String(s) => {
            law_string_store_then_load(cx, s, a, mem, ptr, tys);
        },
        ValueView::List { ty: l, element, values } => {
            lemma_list_store_then_load(cx, l, values, tys[0]->Id_0, a, mem, ptr);
        },
        _ => {},
    }
}


/// The list case of [`law_value_store_flat_then_load_flat`].
proof fn lemma_list_store_flat_then_load_flat(
    lcx: &LiftContext,
    l: usize,
    values: Seq<ValueView>,
    i: usize,
    cx: LowerView,
    out: Seq<FlatValue>,
)
    requires
        i < lcx.resolve.types@.len(),
        lcx.resolve.types@[i as int] == TypeDefKind::List(WitType::S32),
        table_entry(lcx, i) == Some(ValueType::List(l)),
        <Value as Lower>::lowered_flat(ValueView::List { ty: l, element: ValueType::S32, values }, cx, out)
            matches Ok((cx2, _)) && memory_view(lcx.memory) == cx2.memory,
    ensures
        <Value as Lower>::lowered_flat(ValueView::List { ty: l, element: ValueType::S32, values }, cx, out)
            matches Ok((cx2, out2)) && out2.len() == out.len() + 2 && out2.subrange(0, out.len() as int) == out
            && lift_flat_type(lcx, WitType::Id(i), out2.skip(out.len() as int)) == Ok::<(ValueView, nat), LiftError>(
            (ValueView::List { ty: l, element: ValueType::S32, values }, 2),
        ),
{
    let n = values.len();
    let xs = s32_items(values).unwrap();
    let size = list_bytes(ValueType::S32, n).unwrap();
    let mem = cx.memory.unwrap();
    let (addr, a2) = alloc_step(cx.realloc, size, 4).unwrap();
    let start = address(addr);
    assert(stored_elements_flat(ValueType::S32, values, a2, mem, start) == lowered_seq(i32_step(), xs, xs.len(), a2, mem, start));
    lemma_i32_seq_store(xs, xs.len(), a2, mem, start);
    let (a3, m3, p3) = lowered_seq(i32_step(), xs, xs.len(), a2, mem, start).unwrap();
    let out2 = out.push(FlatValue::I32(addr)).push(FlatValue::I32(n as i32));
    assert(out2.skip(out.len() as int) =~= seq![FlatValue::I32(addr), FlatValue::I32(n as i32)]);
    assert(out2.subrange(0, out.len() as int) =~= out);
    assert(flat_pair(out2.skip(out.len() as int)) == Ok::<(i32, i32), LiftError>((addr, n as i32)));
    lemma_s32_elements_load(lcx, m3, xs, n, start, i as nat + 1);
    assert(Seq::new(n, |j: int| ValueView::S32(xs[j])) =~= values);
    assert(lift_list(lcx, m3, WitType::S32, addr, n as i32, i as nat + 1) == Ok::<Seq<ValueView>, LiftError>(values));
}

/// Lowering a value into flat values and lifting a value of its type from
/// those flat values gives it back, where the lifting context sees the memory
/// that lowering left: for `s32` values, strings, and lists of `s32`.
pub proof fn law_value_store_flat_then_load_flat(
    lcx: &LiftContext,
    v: ValueView,
    cx: LowerView,
    out: Seq<FlatValue>,
    tys: Seq<WitType>,
)
    requires
        tys.len() > 0,
        stored_as(lcx, tys[0], v),
        <Value as Lower>::lowered_flat(v, cx, out) matches Ok((cx2, _)) && memory_view(lcx.memory) == cx2.memory,
    ensures
        <Value as Lower>::lowered_flat(v, cx, out) matches Ok((cx2, out2)) && out2.len() >= out.len()
            && out2.subrange(0, out.len() as int) == out && <Value as Lift>::lifted_flat(
            lcx,
            tys,
            out2.skip(out.len() as int),
        ) == Ok::<(ValueView, nat, nat), LiftError>((v, 1, (out2.len() - out.len()) as nat)),
{
    match v {
        ValueView::S32(x) => {
            let out2 = out.push(FlatValue::I32(x));
            assert(out2.skip(out.len() as int) =~= seq![FlatValue::I32(x)]);
            assert(out2.subrange(0, out.len() as int) =~= out);
        },
        ValueView::String(s) => {
            let bytes = encode_utf8(s);
            let n = bytes.len();
            let mem = cx.memory.unwrap();
            let (addr, a2) = alloc_step(cx.realloc, n as i32, 1).unwrap();
            lemma_splice(mem, address(addr), bytes);
            let m2 = splice(mem, address(addr), bytes);
            let out2 = out.push(FlatValue::I32(addr)).push(FlatValue::I32(n as i32));
            assert(out2.skip(out.len() as int) =~= seq![FlatValue::I32(addr), FlatValue::I32(n as i32)]);
            assert(out2.subrange(0, out.len() as int) =~= out);
            encode_utf8_valid_utf8(s);
            encode_utf8_decode_utf8(s);
            assert(read_string(m2, addr, n as i32) == Ok::<Seq<char>, LiftError>(s));
        },
        ValueView::List { ty: l, element, values } => {
            lemma_list_store_flat_then_load_flat(lcx, l, values, tys[0]->Id_0, cx, out);
            let out2 = <Value as Lower>::lowered_flat(v, cx, out).unwrap().1;
            assert(out2.subrange(0, out.len() as int) =~= out);
        },
        _ => {},
    }
}


/// Storing a value whose layout is known ends exactly its size past where it
/// began: for an `i32`, a pair of `i32`s, and an `s32` value.
pub proof fn law_store_advances_by_size(
    x: i32,
    pair: (i32, i32),
    a: Option<AllocView>,
    mem: Seq<u8>,
    ptr: int,
)
    ensures
        <i32 as Lower>::lowered(x, a, mem, ptr) matches Ok((_, _, p)) ==> p == ptr + x.layout_size(),
        <(i32, i32) as Lower>::lowered(pair, a, mem, ptr) matches Ok((_, _, p)) ==> p == ptr
            + pair.layout_size(),
        <Value as Lower>::lowered(ValueView::S32(x), a, mem, ptr) matches Ok((_, _, p)) ==> p == ptr
            + Value::S32(x).layout_size(),
{
    assert(4int % 4 == 0);
    assert(8int % 4 == 0);
    assert(align_up(4, 4) == 4);
    assert(align_up(8, 4) == 8);
    assert(pair_size(4, 4, 4, 4) == 8);
}

/// The allocator state `a2` comes from `a` by using up answers in order: the
/// answers stay the same and none is given back.
pub open spec fn consumes_in_order(a: Option<AllocView>, a2: Option<AllocView>) -> bool {
    match (a, a2) {
        (None, None) => true,
        (Some(x), Some(y)) => y.answers == x.answers && x.used <= y.used,
        _ => false,
    }
}

/// Lowering a value into memory only uses up allocator answers, in order.
pub proof fn law_store_consumes_answers_in_order(v: ValueView, a: Option<AllocView>, mem: Seq<u8>, ptr: int)
    ensures
        <Value as Lower>::lowered(v, a, mem, ptr) matches Ok((a2, _, _)) ==> consumes_in_order(a, a2),
{
    match v {
        ValueView::List { element, values, .. } => {
            if <Value as Lower>::lowered(v, a, mem, ptr) is Ok {
                let xs = s32_items(values).unwrap();
                let size = list_bytes(element, values.len()).unwrap();
                let (addr, a2) = alloc_step(a, size, value_type_align(element) as i32).unwrap();
                lemma_i32_seq_store(xs, xs.len(), a2, mem, address(addr));
            }
        },
        _ => {},
    }
}


proof fn lemma_lowered_seq_concat_prefix<V>(
    step: StoreStep<V>,
    a: Seq<V>,
    b: Seq<V>,
    k: nat,
    st: Option<AllocView>,
    mem: Seq<u8>,
    p: int,
)
    requires
        k <= b.len(),
    ensures
        lowered_seq(step, a + b, a.len() + k, st, mem, p) == match lowered_seq(step, a, a.len(), st, mem, p) {
            Ok((st2, m2, q)) => lowered_seq(step, b, k, st2, m2, q),
            Err(e) => Err(e),
        },
    decreases k,
{
    if k == 0 {
        lemma_lowered_seq_prefix(step, a, b, a.len(), st, mem, p);
    } else {
        lemma_lowered_seq_concat_prefix(step, a, b, (k - 1) as nat, st, mem, p);
        assert((a + b)[a.len() + k - 1] == b[k - 1]);
    }
}

proof fn lemma_lowered_seq_prefix<V>(
    step: StoreStep<V>,
    a: Seq<V>,
    b: Seq<V>,
    k: nat,
    st: Option<AllocView>,
    mem: Seq<u8>,
    p: int,
)
    requires
        k <= a.len(),
    ensures
        lowered_seq(step, a + b, k, st, mem, p) == lowered_seq(step, a, k, st, mem, p),
    decreases k,
{
    if k > 0 {
        lemma_lowered_seq_prefix(step, a, b, (k - 1) as nat, st, mem, p);
        assert((a + b)[k - 1] == a[k - 1]);
    }
}

/// Storing `a` followed by `b` as one list is storing `a`, then storing `b`
/// from where `a` ended, with the allocator and memory that `a` left; and
/// the models of the joined items are the joined models.
pub proof fn law_store_list_concat<T: View>(
    step: StoreStep<T::V>,
    a: Seq<T>,
    b: Seq<T>,
    st: Option<AllocView>,
    mem: Seq<u8>,
    p: int,
)
    ensures
        models(a + b) == models(a) + models(b),
        lowered_seq(step, models(a + b), (a + b).len(), st, mem, p) == match lowered_seq(
            step,
            models(a),
            a.len(),
            st,
            mem,
            p,
        ) {
            Ok((st2, m2, q)) => lowered_seq(step, models(b), b.len(), st2, m2, q),
            Err(e) => Err(e),
        },
{
    assert(models(a + b) =~= models(a) + models(b));
    lemma_lowered_seq_concat_prefix(step, models(a), models(b), b.len(), st, mem, p);
}

/// A pair round-trips when its members do: if loading the first member from
/// any memory that keeps the bytes `fa` gives it back (taking `na` types),
/// storing the second member leaves those bytes alone, and the second member
/// loads back from the final memory (taking `nb` types), then the pair stored
/// at `p` loads back from `p` with the same end pointer.
pub proof fn law_members_store_then_load_as_pair<A: Lift + Lower, B: Lift + Lower>(
    cx: &LiftContext,
    va: A::V,
    vb: B::V,
    fa: Set<int>,
    na: nat,
    nb: nat,
    st: Option<AllocView>,
    mem: Seq<u8>,
    p: int,
    tys: Seq<WitType>,
)
    requires
        na <= tys.len(),
        A::lowered(va, st, mem, p) matches Ok((st1, m1, q)) && {
            &&& forall|mm: Seq<u8>|
                mm.len() == m1.len() && (forall|i: int| fa.contains(i) ==> mm[i] == m1[i])
                    ==> #[trigger] A::lifted(cx, mm, tys, p) == Ok::<(A::V, int, nat), LiftError>((va, q, na))
            &&& B::lowered(vb, st1, m1, q) matches Ok((st2, m2, r)) && {
                &&& m2.len() == m1.len()
                &&& forall|i: int| fa.contains(i) ==> m2[i] == m1[i]
                &&& B::lifted(cx, m2, tys.skip(na as int), q) == Ok::<(B::V, int, nat), LiftError>((vb, r, nb))
            }
        },
    ensures
        <(A, B) as Lower>::lowered((va, vb), st, mem, p) matches Ok((_, m2, r)) && <(A, B) as Lift>::lifted(
            cx,
            m2,
            tys,
            p,
        ) == Ok::<((A::V, B::V), int, nat), LiftError>(((va, vb), r, na + nb)),
{
    let (st1, m1, q) = A::lowered(va, st, mem, p).unwrap();
    let (st2, m2, r) = B::lowered(vb, st1, m1, q).unwrap();
    assert(A::lifted(cx, m2, tys, p) == Ok::<(A::V, int, nat), LiftError>((va, q, na)));
}

} // verus!
