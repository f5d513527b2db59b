//! The round-trip law for lists whose elements are lowered one by one as
//! values: lists of strings and lists of lists of `s32`.

use vstd::prelude::*;
use vstd::utf8::{encode_utf8, encode_utf8_decode_utf8, encode_utf8_valid_utf8};
use crate::laws::{
    allocation_clear, disjoint, lemma_i32_seq_store, lemma_read_i32_untouched, lemma_s32_elements_load, lemma_splice,
    stored_as,
};
use crate::lift::{
    element_type, flat_pair, lift_elements, lift_flat_type, lift_list, lift_type, Lift, read_i32_at, read_pair_at, read_string, table_entry, LiftContext, LiftError,
};
use crate::lower::{
    alloc_step, has_specialized_list, i32_step, list_bytes, lowered_seq, memory_view, s32_items,
    stored_elements, stored_elements_flat, value_step, write_i32_at, AllocView, Lower, LowerView,
};
use crate::component_type::value_type_align;
use crate::memory::{address, i32_le_bytes, in_bounds, lemma_i32_le_roundtrip, splice};
use crate::value::{Value, ValueType, ValueView};
use crate::flat::FlatValue;
use crate::wit::{kind_refers_below, rank, TypeDefKind, WitType};

verus! {

/// `m1` and `m2` hold the same bytes at every address of `[lo, hi)`.
pub open spec fn agrees_on(m1: Seq<u8>, m2: Seq<u8>, lo: int, hi: int) -> bool {
    forall|i: int| lo <= i < hi ==> #[trigger] m1[i] == m2[i]
}

/// The bytes that lowering `v` allocates when the allocator answers `addr`.
pub open spec fn element_region(v: ValueView, addr: i32) -> (int, int) {
    match v {
        ValueView::String(s) => (address(addr), address(addr) + encode_utf8(s).len()),
        ValueView::List { values, .. } => (address(addr), address(addr) + 4 * values.len()),
        _ => (0, 0),
    }
}

/// The next allocator answer that `a` hands out.
pub open spec fn answer_for(a: Option<AllocView>) -> i32 {
    match a {
        Some(x) => x.answers[x.used as int],
        None => 0,
    }
}

proof fn lemma_agrees_subrange(m1: Seq<u8>, m2: Seq<u8>, lo: int, hi: int)
    requires
        0 <= lo <= hi,
        hi <= m1.len(),
        hi <= m2.len(),
        agrees_on(m1, m2, lo, hi),
    ensures
        m1.subrange(lo, hi) == m2.subrange(lo, hi),
{
    assert(m1.subrange(lo, hi) =~= m2.subrange(lo, hi));
}


/// The allocator after one answer is taken.
pub open spec fn advance(a: Option<AllocView>) -> Option<AllocView> {
    match a {
        Some(x) => Some(AllocView { answers: x.answers, used: x.used + 1 }),
        None => None,
    }
}

/// The bytes a value takes at its own place: four for an `s32`, eight for
/// the pointer and length of a string or a list.
pub open spec fn width(v: ValueView) -> int {
    if v is S32 {
        4
    } else {
        8
    }
}

/// The bytes that lowering `v` with allocator `a` allocates; empty for `s32`.
pub open spec fn region_of(v: ValueView, a: Option<AllocView>) -> (int, int) {
    if v is S32 {
        (0, 0)
    } else {
        element_region(v, answer_for(a))
    }
}

/// What lowering `v` at `p` does locally: where it ends, which bytes it may
/// change, and that loading from any memory that holds the same bytes in
/// those places gives `v` back.
pub open spec fn stores_locally(
    cx: &LiftContext,
    ty: WitType,
    v: ValueView,
    a: Option<AllocView>,
    m: Seq<u8>,
    p: int,
    a2: Option<AllocView>,
    m2: Seq<u8>,
    q: int,
) -> bool {
    let r = region_of(v, a);
    &&& q == p + width(v)
    &&& 0 <= p
    &&& q <= m.len()
    &&& m2.len() == m.len()
    &&& (r.0 < r.1 ==> 0 <= r.0 && r.1 <= m.len())
    &&& disjoint(p, q, r.0, r.1)
    &&& forall|i: int| 0 <= i < m.len() && !(p <= i < q) && !(r.0 <= i < r.1) ==> #[trigger] m2[i] == m[i]
    &&& forall|m3: Seq<u8>|
        m3.len() == m2.len() && agrees_on(m3, m2, p, q) && agrees_on(m3, m2, r.0, r.1)
            ==> #[trigger] lift_type(cx, m3, ty, p) == Ok::<(ValueView, int), LiftError>((v, q))
    &&& a2 == (if v is S32 { a } else { advance(a) })
}

proof fn lemma_s32_store_local(cx: &LiftContext, x: i32, a: Option<AllocView>, m: Seq<u8>, p: int)
    requires
        <Value as Lower>::lowered(ValueView::S32(x), a, m, p) is Ok,
    ensures
        <Value as Lower>::lowered(ValueView::S32(x), a, m, p) matches Ok((a2, m2, q)) && stores_locally(
            cx,
            WitType::S32,
            ValueView::S32(x),
            a,
            m,
            p,
            a2,
            m2,
            q,
        ),
{
    let m2 = splice(m, p, i32_le_bytes(x));
    lemma_i32_le_roundtrip(x);
    lemma_splice(m, p, i32_le_bytes(x));
    assert forall|m3: Seq<u8>|
        m3.len() == m2.len() && agrees_on(m3, m2, p, p + 4) && agrees_on(m3, m2, 0, 0)
        implies #[trigger] lift_type(cx, m3, WitType::S32, p) == Ok::<(ValueView, int), LiftError>(
        (ValueView::S32(x), p + 4),
    ) by {
        lemma_agrees_subrange(m3, m2, p, p + 4);
    }
}

proof fn lemma_string_store_local(cx: &LiftContext, s: Seq<char>, a: Option<AllocView>, m: Seq<u8>, p: int)
    requires
        allocation_clear(ValueView::String(s), a, p),
        <Value as Lower>::lowered(ValueView::String(s), a, m, p) is Ok,
    ensures
        <Value as Lower>::lowered(ValueView::String(s), a, m, p) matches Ok((a2, m2, q)) && stores_locally(
            cx,
            WitType::String,
            ValueView::String(s),
            a,
            m,
            p,
            a2,
            m2,
            q,
        ),
{
    let v = ValueView::String(s);
    let bytes = encode_utf8(s);
    let n = bytes.len();
    let (addr, a1) = alloc_step(a, n as i32, 1).unwrap();
    let start = address(addr);
    let m1 = splice(m, start, bytes);
    lemma_splice(m, start, bytes);
    let m1b = splice(m1, p, i32_le_bytes(addr));
    let m2 = splice(m1b, p + 4, i32_le_bytes(n as i32));
    lemma_i32_le_roundtrip(addr);
    lemma_i32_le_roundtrip(n as i32);
    lemma_splice(m1, p, i32_le_bytes(addr));
    lemma_splice(m1b, p + 4, i32_le_bytes(n as i32));
    assert(<Value as Lower>::lowered(v, a, m, p) == Ok::<(Option<AllocView>, Seq<u8>, int), crate::lower::LowerError>(
        (a1, m2, p + 8),
    ));
    assert(region_of(v, a) == (start, start + n));
    encode_utf8_valid_utf8(s);
    encode_utf8_decode_utf8(s);
    assert forall|m3: Seq<u8>|
        m3.len() == m2.len() && agrees_on(m3, m2, p, p + 8) && agrees_on(m3, m2, start, start + n)
        implies #[trigger] lift_type(cx, m3, WitType::String, p) == Ok::<(ValueView, int), LiftError>((v, p + 8)) by {
        lemma_agrees_subrange(m3, m2, p, p + 4);
        lemma_agrees_subrange(m3, m2, p + 4, p + 8);
        lemma_agrees_subrange(m3, m2, start, start + n);
        assert(m2.subrange(start, start + n) =~= bytes);
        assert(read_pair_at(m3, p) == Ok::<(i32, i32), LiftError>((addr, n as i32)));
        assert(read_string(m3, addr, n as i32) == Ok::<Seq<char>, LiftError>(s));
    }
}


proof fn lemma_s32_list_store_local(
    cx: &LiftContext,
    l: usize,
    values: Seq<ValueView>,
    i: usize,
    a: Option<AllocView>,
    m: Seq<u8>,
    p: int,
)
    requires
        i < cx.resolve.types@.len(),
        cx.resolve.types@[i as int] == TypeDefKind::List(WitType::S32),
        table_entry(cx, i) == Some(ValueType::List(l)),
        allocation_clear(ValueView::List { ty: l, element: ValueType::S32, values }, a, p),
        <Value as Lower>::lowered(ValueView::List { ty: l, element: ValueType::S32, values }, a, m, p) is Ok,
    ensures
        <Value as Lower>::lowered(ValueView::List { ty: l, element: ValueType::S32, values }, a, m, p)
            matches Ok((a2, m2, q)) && stores_locally(
            cx,
            WitType::Id(i),
            ValueView::List { ty: l, element: ValueType::S32, values },
            a,
            m,
            p,
            a2,
            m2,
            q,
        ),
{
    let v = ValueView::List { ty: l, element: ValueType::S32, values };
    let n = values.len();
    let xs = s32_items(values).unwrap();
    let size = list_bytes(ValueType::S32, n).unwrap();
    let (addr, a1) = alloc_step(a, size, 4).unwrap();
    let start = address(addr);
    assert(stored_elements(ValueType::S32, values, a1, m, start) == lowered_seq(i32_step(), xs, xs.len(), a1, m, start));
    lemma_i32_seq_store(xs, xs.len(), a1, m, start);
    let (a3, m3, p3) = lowered_seq(i32_step(), xs, xs.len(), a1, m, start).unwrap();
    let m1b = splice(m3, p, i32_le_bytes(addr));
    let m4 = splice(m1b, p + 4, i32_le_bytes(n as i32));
    lemma_i32_le_roundtrip(addr);
    lemma_i32_le_roundtrip(n as i32);
    lemma_splice(m3, p, i32_le_bytes(addr));
    lemma_splice(m1b, p + 4, i32_le_bytes(n as i32));
    assert(<Value as Lower>::lowered(v, a, m, p) == Ok::<(Option<AllocView>, Seq<u8>, int), crate::lower::LowerError>(
        (a1, m4, p + 8),
    ));
    assert(region_of(v, a) == (start, start + 4 * n));
    assert forall|j: int| 0 <= j < n implies #[trigger] read_i32_at(m4, start + 4 * j) == Ok::<i32, LiftError>(xs[j]) by {
        assert(read_i32_at(m3, start + 4 * j) == Ok::<i32, LiftError>(xs[j]));
        lemma_read_i32_untouched(m3, p, i32_le_bytes(addr), start + 4 * j);
        lemma_read_i32_untouched(m1b, p + 4, i32_le_bytes(n as i32), start + 4 * j);
    }
    assert(Seq::new(n, |j: int| ValueView::S32(xs[j])) =~= values);
    assert forall|mm: Seq<u8>|
        mm.len() == m4.len() && agrees_on(mm, m4, p, p + 8) && agrees_on(mm, m4, start, start + 4 * n)
        implies #[trigger] lift_type(cx, mm, WitType::Id(i), p) == Ok::<(ValueView, int), LiftError>((v, p + 8)) by {
        lemma_agrees_subrange(mm, m4, p, p + 4);
        lemma_agrees_subrange(mm, m4, p + 4, p + 8);
        assert(read_pair_at(mm, p) == Ok::<(i32, i32), LiftError>((addr, n as i32)));
        assert forall|j: int| 0 <= j < n implies #[trigger] read_i32_at(mm, start + 4 * j) == Ok::<i32, LiftError>(xs[j]) by {
            assert(read_i32_at(m4, start + 4 * j) == Ok::<i32, LiftError>(xs[j]));
            lemma_agrees_subrange(mm, m4, start + 4 * j, start + 4 * j + 4);
        }
        lemma_s32_elements_load(cx, mm, xs, n, start, i as nat + 1);
        assert(crate::lift::lift_list(cx, mm, WitType::S32, addr, n as i32, i as nat + 1) == Ok::<Seq<ValueView>, LiftError>(values));
    }
}

/// Lowering a value that [`stored_as`] admits only writes its own place and
/// the bytes it allocates, and it loads back from any memory that keeps
/// those bytes.
pub proof fn lemma_value_store_local(
    cx: &LiftContext,
    ty: WitType,
    v: ValueView,
    a: Option<AllocView>,
    m: Seq<u8>,
    p: int,
)
    requires
        stored_as(cx, ty, v),
        allocation_clear(v, a, p),
        <Value as Lower>::lowered(v, a, m, p) is Ok,
    ensures
        <Value as Lower>::lowered(v, a, m, p) matches Ok((a2, m2, q)) && stores_locally(cx, ty, v, a, m, p, a2, m2, q),
{
    match v {
        ValueView::S32(x) => lemma_s32_store_local(cx, x, a, m, p),
        ValueView::String(s) => lemma_string_store_local(cx, s, a, m, p),
        ValueView::List { ty: l, values, .. } => lemma_s32_list_store_local(cx, l, values, ty->Id_0, a, m, p),
        _ => {},
    }
}


/// The place of element `j` of a list whose elements take eight bytes each.
pub open spec fn slot(start: int, j: int) -> int {
    start + 8 * j
}

/// The bytes that element `j` of `values` allocates, where the allocator
/// answers from position `first` on.
pub open spec fn element_bytes(values: Seq<ValueView>, answers: Seq<i32>, first: nat, j: int) -> (int, int) {
    element_region(values[j], answers[first + j])
}

/// Loading `v` with type `ty` at `p` gives it back from any memory that
/// agrees with `m` on `[p, p + 8)` and on `r`.
pub open spec fn loads_back(cx: &LiftContext, ty: WitType, v: ValueView, m: Seq<u8>, p: int, r: (int, int)) -> bool {
    forall|mm: Seq<u8>|
        mm.len() == m.len() && agrees_on(mm, m, p, p + 8) && agrees_on(mm, m, r.0, r.1)
            ==> #[trigger] lift_type(cx, mm, ty, p) == Ok::<(ValueView, int), LiftError>((v, p + 8))
}

/// The allocations of the elements lie clear of the elements' places and of
/// each other.
pub open spec fn elements_clear(values: Seq<ValueView>, answers: Seq<i32>, first: nat, start: int) -> bool {
    &&& first + values.len() <= answers.len()
    &&& forall|j: int|
        0 <= j < values.len() ==> {
            let r = #[trigger] element_bytes(values, answers, first, j);
            disjoint(start, start + 8 * values.len(), r.0, r.1)
        }
    &&& forall|j: int, k: int|
        0 <= j < values.len() && 0 <= k < values.len() && j != k ==> {
            let rj = #[trigger] element_bytes(values, answers, first, j);
            let rk = #[trigger] element_bytes(values, answers, first, k);
            disjoint(rj.0, rj.1, rk.0, rk.1)
        }
}

/// Address `i` lies outside the allocations of the first `k` elements.
pub open spec fn outside_elements(values: Seq<ValueView>, answers: Seq<i32>, first: nat, k: nat, i: int) -> bool {
    forall|j: int|
        0 <= j < k ==> !(#[trigger] element_bytes(values, answers, first, j).0 <= i < element_bytes(
            values,
            answers,
            first,
            j,
        ).1)
}

/// Storing the first `k` elements one after the other: each loads back from
/// the memory afterwards, and nothing outside their places and allocations
/// changes.
proof fn lemma_values_store_seq(
    cx: &LiftContext,
    ety: WitType,
    values: Seq<ValueView>,
    k: nat,
    answers: Seq<i32>,
    first: nat,
    m: Seq<u8>,
    start: int,
)
    requires
        k <= values.len(),
        forall|j: int| 0 <= j < values.len() ==> stored_as(cx, ety, #[trigger] values[j]) && !(values[j] is S32),
        elements_clear(values, answers, first, start),
        lowered_seq(value_step(), values, k, Some(AllocView { answers, used: first }), m, start) is Ok,
    ensures
        lowered_seq(value_step(), values, k, Some(AllocView { answers, used: first }), m, start)
            matches Ok((a2, m2, q)) && {
            &&& q == slot(start, k as int)
            &&& a2 == Some(AllocView { answers, used: first + k })
            &&& m2.len() == m.len()
            &&& k > 0 ==> 0 <= start && slot(start, k as int) <= m.len()
            &&& forall|j: int|
                0 <= j < k ==> {
                    let r = #[trigger] element_bytes(values, answers, first, j);
                    r.0 < r.1 ==> 0 <= r.0 && r.1 <= m.len()
                }
            &&& forall|i: int|
                0 <= i < m.len() && !(start <= i < slot(start, k as int)) && outside_elements(
                    values,
                    answers,
                    first,
                    k,
                    i,
                ) ==> #[trigger] m2[i] == m[i]
            &&& forall|j: int|
                0 <= j < k ==> #[trigger] loads_back(
                    cx,
                    ety,
                    values[j],
                    m2,
                    slot(start, j),
                    element_bytes(values, answers, first, j),
                )
        },
    decreases k,
{
    if k > 0 {
        let k1 = (k - 1) as nat;
        lemma_values_store_seq(cx, ety, values, k1, answers, first, m, start);
        let (a1, m1, q1) = lowered_seq(value_step(), values, k1, Some(AllocView { answers, used: first }), m, start).unwrap();
        let v = values[k1 as int];
        let rk = element_bytes(values, answers, first, k1 as int);
        assert(stored_as(cx, ety, v));
        assert(region_of(v, a1) == rk);
        assert(disjoint(start, start + 8 * values.len(), rk.0, rk.1));
        assert(allocation_clear(v, a1, q1)) by {
            let n = values.len();
            assert(slot(start, k1 as int) + 8 <= start + 8 * n);
            assert(answer_for(a1) == answers[(first + k1) as int]);
        }
        assert(lowered_seq(value_step(), values, k, Some(AllocView { answers, used: first }), m, start)
            == <Value as Lower>::lowered(v, a1, m1, q1));
        lemma_value_store_local(cx, ety, v, a1, m1, q1);
        let (a2, m2, q2) = <Value as Lower>::lowered(v, a1, m1, q1).unwrap();
        assert forall|j: int| 0 <= j < k implies #[trigger] loads_back(
            cx,
            ety,
            values[j],
            m2,
            slot(start, j),
            element_bytes(values, answers, first, j),
        ) by {
            let rj = element_bytes(values, answers, first, j);
            if j < k1 {
                assert(loads_back(cx, ety, values[j], m1, slot(start, j), rj));
                assert(disjoint(rj.0, rj.1, rk.0, rk.1));
                assert(disjoint(start, start + 8 * values.len(), rj.0, rj.1));
                assert(agrees_on(m2, m1, slot(start, j), slot(start, j) + 8));
                assert(agrees_on(m2, m1, rj.0, rj.1));
                assert forall|mm: Seq<u8>|
                    mm.len() == m2.len() && agrees_on(mm, m2, slot(start, j), slot(start, j) + 8) && agrees_on(
                        mm,
                        m2,
                        rj.0,
                        rj.1,
                    ) implies #[trigger] lift_type(cx, mm, ety, slot(start, j)) == Ok::<(ValueView, int), LiftError>(
                    (values[j], slot(start, j) + 8),
                ) by {
                    assert(agrees_on(mm, m1, slot(start, j), slot(start, j) + 8));
                    assert(agrees_on(mm, m1, rj.0, rj.1));
                }
            }
        }
    }
}


/// Loading `k` elements that each load back from `m` gives them.
proof fn lemma_values_load(
    cx: &LiftContext,
    ety: WitType,
    values: Seq<ValueView>,
    k: nat,
    answers: Seq<i32>,
    first: nat,
    m: Seq<u8>,
    start: int,
    bound: nat,
)
    requires
        k <= values.len(),
        rank(ety) < bound,
        forall|j: int|
            0 <= j < k ==> #[trigger] loads_back(
                cx,
                ety,
                values[j],
                m,
                slot(start, j),
                element_bytes(values, answers, first, j),
            ),
    ensures
        lift_elements(cx, m, ety, k, start, bound) == Ok::<(Seq<ValueView>, int), LiftError>(
            (values.take(k as int), slot(start, k as int)),
        ),
    decreases k,
{
    if k == 0 {
        assert(values.take(0) =~= Seq::<ValueView>::empty());
    } else {
        let k1 = (k - 1) as nat;
        lemma_values_load(cx, ety, values, k1, answers, first, m, start, bound);
        assert(loads_back(cx, ety, values[k1 as int], m, slot(start, k1 as int), element_bytes(values, answers, first, k1 as int)));
        assert(lift_type(cx, m, ety, slot(start, k1 as int)) == Ok::<(ValueView, int), LiftError>(
            (values[k1 as int], slot(start, k1 as int) + 8),
        ));
        assert(values.take(k1 as int).push(values[k1 as int]) =~= values.take(k as int));
    }
}

/// Lowering a list whose elements are lowered one by one as values (strings,
/// or lists of `s32`) into flat values, and lifting a list of its type from
/// those flat values, gives it back, where the lifting context sees the
/// memory that lowering left and the elements' allocations lie clear of the
/// list's places and of each other.
pub proof fn law_list_of_values_store_flat_then_load_flat(
    lcx: &LiftContext,
    l: usize,
    ety: WitType,
    et: ValueType,
    values: Seq<ValueView>,
    i: usize,
    cx: LowerView,
    out: Seq<FlatValue>,
)
    requires
        lcx.wf(),
        i < lcx.resolve.types@.len(),
        lcx.resolve.types@[i as int] == TypeDefKind::List(ety),
        table_entry(lcx, i) == Some(ValueType::List(l)),
        element_type(lcx, ety) == Some(et),
        !has_specialized_list(et),
        forall|j: int| 0 <= j < values.len() ==> stored_as(lcx, ety, #[trigger] values[j]),
        cx.realloc matches Some(x) && x.used < x.answers.len() && elements_clear(
            values,
            x.answers,
            x.used + 1,
            address(x.answers[x.used as int]),
        ),
        <Value as Lower>::lowered_flat(ValueView::List { ty: l, element: et, values }, cx, out) matches Ok(
            (cx2, _),
        ) && memory_view(lcx.memory) == cx2.memory,
    ensures
        <Value as Lower>::lowered_flat(ValueView::List { ty: l, element: et, values }, cx, out) matches Ok(
            (cx2, out2),
        ) && out2.len() == out.len() + 2 && out2.subrange(0, out.len() as int) == out
            && <Value as Lift>::lifted_flat(lcx, seq![WitType::Id(i)], out2.skip(out.len() as int)) == Ok::<
            (ValueView, nat, nat),
            LiftError,
        >((ValueView::List { ty: l, element: et, values }, 1, 2)),
{
    let v = ValueView::List { ty: l, element: et, values };
    let n = values.len();
    let x = cx.realloc.unwrap();
    let mem = cx.memory.unwrap();
    let size = list_bytes(et, n).unwrap();
    let (addr, a2) = alloc_step(cx.realloc, size, value_type_align(et) as i32).unwrap();
    let start = address(addr);
    let first = x.used + 1;
    assert(a2 == Some(AllocView { answers: x.answers, used: first }));
    assert(et != ValueType::S32);
    assert forall|j: int| 0 <= j < n implies stored_as(lcx, ety, #[trigger] values[j]) && !(values[j] is S32) by {
        assert(stored_as(lcx, ety, values[j]));
        if values[j] is S32 {
            assert(ety == WitType::S32);
        }
    }
    assert(stored_elements_flat(et, values, a2, mem, start) == lowered_seq(value_step(), values, n, a2, mem, start));
    lemma_values_store_seq(lcx, ety, values, n, x.answers, first, mem, start);
    let (a3, m3, q3) = lowered_seq(value_step(), values, n, a2, mem, start).unwrap();
    let out2 = out.push(FlatValue::I32(addr)).push(FlatValue::I32(n as i32));
    assert(out2.skip(out.len() as int) =~= seq![FlatValue::I32(addr), FlatValue::I32(n as i32)]);
    assert(out2.subrange(0, out.len() as int) =~= out);
    assert(flat_pair(out2.skip(out.len() as int)) == Ok::<(i32, i32), LiftError>((addr, n as i32)));
    assert(kind_refers_below(lcx.resolve.types@[i as int], i as nat));
    assert(rank(ety) < i as nat + 1);
    lemma_values_load(lcx, ety, values, n, x.answers, first, m3, start, i as nat + 1);
    assert(values.take(n as int) =~= values);
    assert(lift_list(lcx, m3, ety, addr, n as i32, i as nat + 1) == Ok::<Seq<ValueView>, LiftError>(values));
    assert(lift_flat_type(lcx, WitType::Id(i), out2.skip(out.len() as int)) == Ok::<(ValueView, nat), LiftError>(
        (v, 2),
    ));
}

} // verus!
