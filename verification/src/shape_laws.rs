//! Laws on the shape of lifted composite values: each member is lifted by
//! its own type, in declaration order, from where the previous one ended.

use vstd::prelude::*;
use crate::lift::{
    lift_elements, lift_fields, lift_list, lift_flat_fields, lift_flat_members, lift_flat_type, lift_members,
    lift_type, read_pair_at, flat_pair, LiftContext, LiftError,
};
use crate::memory::address;
use crate::flat::FlatValue;
use crate::value::ValueView;
use crate::wit::{kind_refers_below, rank, Field, TypeDefKind, WitType};
use crate::value::ValueType;

verus! {

/// `fs` are the fields `fields` read one after the other from memory: field
/// `j` carries field `j`'s name and is what lifting field `j`'s own type at
/// `ps[j]` gives, ending at `ps[j + 1]`.
pub open spec fn fields_read_in_order(
    cx: &LiftContext,
    mem: Seq<u8>,
    fields: Seq<Field>,
    fs: Seq<(Seq<char>, ValueView)>,
    ps: Seq<int>,
) -> bool {
    &&& fs.len() == fields.len()
    &&& ps.len() == fields.len() + 1
    &&& forall|j: int|
        0 <= j < fields.len() ==> fs[j].0 == fields[j].name@ && #[trigger] lift_type(cx, mem, fields[j].ty, ps[j])
            == Ok::<(ValueView, int), LiftError>((fs[j].1, ps[j + 1]))
}

/// `vs` are values of the types `types` read one after the other from
/// memory: value `j` is what lifting `types[j]` at `ps[j]` gives, ending at
/// `ps[j + 1]`.
pub open spec fn values_read_in_order(
    cx: &LiftContext,
    mem: Seq<u8>,
    types: Seq<WitType>,
    vs: Seq<ValueView>,
    ps: Seq<int>,
) -> bool {
    &&& vs.len() == types.len()
    &&& ps.len() == types.len() + 1
    &&& forall|j: int|
        0 <= j < types.len() ==> #[trigger] lift_type(cx, mem, types[j], ps[j]) == Ok::<(ValueView, int), LiftError>(
            (vs[j], ps[j + 1]),
        )
}

/// `fs` are the fields `fields` lifted one after the other from the flat
/// arguments `args`: field `j` is what lifting its own type from the
/// arguments after the first `ms[j]` gives, taking `ms[j + 1] - ms[j]`.
pub open spec fn fields_taken_in_order(
    cx: &LiftContext,
    fields: Seq<Field>,
    args: Seq<FlatValue>,
    fs: Seq<(Seq<char>, ValueView)>,
    ms: Seq<nat>,
) -> bool {
    &&& fs.len() == fields.len()
    &&& ms.len() == fields.len() + 1
    &&& forall|j: int|
        0 <= j < fields.len() ==> fs[j].0 == fields[j].name@ && ms[j] <= ms[j + 1] && #[trigger] lift_flat_type(
            cx,
            fields[j].ty,
            args.skip(ms[j] as int),
        ) == Ok::<(ValueView, nat), LiftError>((fs[j].1, (ms[j + 1] - ms[j]) as nat))
}

/// `vs` are values of the types `types` lifted one after the other from the
/// flat arguments `args`.
pub open spec fn values_taken_in_order(
    cx: &LiftContext,
    types: Seq<WitType>,
    args: Seq<FlatValue>,
    vs: Seq<ValueView>,
    ms: Seq<nat>,
) -> bool {
    &&& vs.len() == types.len()
    &&& ms.len() == types.len() + 1
    &&& forall|j: int|
        0 <= j < types.len() ==> ms[j] <= ms[j + 1] && #[trigger] lift_flat_type(cx, types[j], args.skip(ms[j] as int))
            == Ok::<(ValueView, nat), LiftError>((vs[j], (ms[j + 1] - ms[j]) as nat))
}

/// `count` copies of the type `elem`.
pub open spec fn repeat_type(elem: WitType, count: nat) -> Seq<WitType> {
    Seq::new(count, |j: int| elem)
}

proof fn lemma_fields_in_order(
    cx: &LiftContext,
    mem: Seq<u8>,
    fields: Seq<Field>,
    k: nat,
    ptr: int,
    bound: nat,
)
    requires
        k <= fields.len(),
        lift_fields(cx, mem, fields, k, ptr, bound) is Ok,
    ensures
        lift_fields(cx, mem, fields, k, ptr, bound) matches Ok((fs, q)) && exists|ps: Seq<int>|
            #[trigger] fields_read_in_order(cx, mem, fields.take(k as int), fs, ps) && ps[0] == ptr && ps[k as int]
                == q,
    decreases k,
{
    let (fs, q) = lift_fields(cx, mem, fields, k, ptr, bound).unwrap();
    if k == 0 {
        let ps = seq![ptr];
        assert(fields_read_in_order(cx, mem, fields.take(0), fs, ps));
    } else {
        let k1 = (k - 1) as nat;
        lemma_fields_in_order(cx, mem, fields, k1, ptr, bound);
        let (fs1, q1) = lift_fields(cx, mem, fields, k1, ptr, bound).unwrap();
        let ps1 = choose|ps: Seq<int>|
            #[trigger] fields_read_in_order(cx, mem, fields.take(k1 as int), fs1, ps) && ps[0] == ptr && ps[k1 as int]
                == q1;
        let ps = ps1.push(q);
        let f = fields[k1 as int];
        assert(lift_type(cx, mem, f.ty, q1) == Ok::<(ValueView, int), LiftError>((fs[k1 as int].1, q)));
        assert forall|j: int| 0 <= j < k implies fs[j].0 == fields.take(k as int)[j].name@ && #[trigger] lift_type(
            cx,
            mem,
            fields.take(k as int)[j].ty,
            ps[j],
        ) == Ok::<(ValueView, int), LiftError>((fs[j].1, ps[j + 1])) by {
            if j < k1 {
                assert(fields.take(k1 as int)[j] == fields.take(k as int)[j]);
                assert(lift_type(cx, mem, fields.take(k1 as int)[j].ty, ps1[j]) == Ok::<(ValueView, int), LiftError>(
                    (fs1[j].1, ps1[j + 1]),
                ));
            }
        }
        assert(fields_read_in_order(cx, mem, fields.take(k as int), fs, ps));
    }
}

proof fn lemma_members_in_order(
    cx: &LiftContext,
    mem: Seq<u8>,
    types: Seq<WitType>,
    k: nat,
    ptr: int,
    bound: nat,
)
    requires
        k <= types.len(),
        lift_members(cx, mem, types, k, ptr, bound) is Ok,
    ensures
        lift_members(cx, mem, types, k, ptr, bound) matches Ok((vs, q)) && exists|ps: Seq<int>|
            #[trigger] values_read_in_order(cx, mem, types.take(k as int), vs, ps) && ps[0] == ptr && ps[k as int]
                == q,
    decreases k,
{
    let (vs, q) = lift_members(cx, mem, types, k, ptr, bound).unwrap();
    if k == 0 {
        let ps = seq![ptr];
        assert(values_read_in_order(cx, mem, types.take(0), vs, ps));
    } else {
        let k1 = (k - 1) as nat;
        lemma_members_in_order(cx, mem, types, k1, ptr, bound);
        let (vs1, q1) = lift_members(cx, mem, types, k1, ptr, bound).unwrap();
        let ps1 = choose|ps: Seq<int>|
            #[trigger] values_read_in_order(cx, mem, types.take(k1 as int), vs1, ps) && ps[0] == ptr && ps[k1 as int]
                == q1;
        let ps = ps1.push(q);
        assert(lift_type(cx, mem, types[k1 as int], q1) == Ok::<(ValueView, int), LiftError>((vs[k1 as int], q)));
        assert forall|j: int| 0 <= j < k implies #[trigger] lift_type(cx, mem, types.take(k as int)[j], ps[j]) == Ok::<
            (ValueView, int),
            LiftError,
        >((vs[j], ps[j + 1])) by {
            if j < k1 {
                assert(types.take(k1 as int)[j] == types.take(k as int)[j]);
                assert(lift_type(cx, mem, types.take(k1 as int)[j], ps1[j]) == Ok::<(ValueView, int), LiftError>(
                    (vs1[j], ps1[j + 1]),
                ));
            }
        }
        assert(values_read_in_order(cx, mem, types.take(k as int), vs, ps));
    }
}

proof fn lemma_elements_in_order(
    cx: &LiftContext,
    mem: Seq<u8>,
    elem: WitType,
    k: nat,
    ptr: int,
    bound: nat,
)
    requires
        lift_elements(cx, mem, elem, k, ptr, bound) is Ok,
    ensures
        lift_elements(cx, mem, elem, k, ptr, bound) matches Ok((vs, q)) && exists|ps: Seq<int>|
            #[trigger] values_read_in_order(cx, mem, repeat_type(elem, k), vs, ps) && ps[0] == ptr
                && ps[k as int] == q,
    decreases k,
{
    let (vs, q) = lift_elements(cx, mem, elem, k, ptr, bound).unwrap();
    if k == 0 {
        let ps = seq![ptr];
        assert(values_read_in_order(cx, mem, repeat_type(elem, 0), vs, ps));
    } else {
        let k1 = (k - 1) as nat;
        lemma_elements_in_order(cx, mem, elem, k1, ptr, bound);
        let (vs1, q1) = lift_elements(cx, mem, elem, k1, ptr, bound).unwrap();
        let ps1 = choose|ps: Seq<int>|
            #[trigger] values_read_in_order(cx, mem, repeat_type(elem, k1), vs1, ps) && ps[0] == ptr
                && ps[k1 as int] == q1;
        let ps = ps1.push(q);
        assert(lift_type(cx, mem, elem, q1) == Ok::<(ValueView, int), LiftError>((vs[k1 as int], q)));
        assert forall|j: int| 0 <= j < k implies #[trigger] lift_type(cx, mem, repeat_type(elem, k)[j], ps[j])
            == Ok::<(ValueView, int), LiftError>((vs[j], ps[j + 1])) by {
            if j < k1 {
                assert(repeat_type(elem, k1)[j] == elem);
                assert(lift_type(cx, mem, repeat_type(elem, k1)[j], ps1[j]) == Ok::<(ValueView, int), LiftError>(
                    (vs1[j], ps1[j + 1]),
                ));
            }
        }
        assert(values_read_in_order(cx, mem, repeat_type(elem, k), vs, ps));
    }
}

proof fn lemma_flat_fields_in_order(cx: &LiftContext, fields: Seq<Field>, k: nat, args: Seq<FlatValue>, bound: nat)
    requires
        k <= fields.len(),
        lift_flat_fields(cx, fields, k, args, bound) is Ok,
    ensures
        lift_flat_fields(cx, fields, k, args, bound) matches Ok((fs, m)) && exists|ms: Seq<nat>|
            #[trigger] fields_taken_in_order(cx, fields.take(k as int), args, fs, ms) && ms[0] == 0 && ms[k as int]
                == m,
    decreases k,
{
    let (fs, m) = lift_flat_fields(cx, fields, k, args, bound).unwrap();
    if k == 0 {
        let ms = seq![0nat];
        assert(fields_taken_in_order(cx, fields.take(0), args, fs, ms));
    } else {
        let k1 = (k - 1) as nat;
        lemma_flat_fields_in_order(cx, fields, k1, args, bound);
        let (fs1, m1) = lift_flat_fields(cx, fields, k1, args, bound).unwrap();
        let ms1 = choose|ms: Seq<nat>|
            #[trigger] fields_taken_in_order(cx, fields.take(k1 as int), args, fs1, ms) && ms[0] == 0
                && ms[k1 as int] == m1;
        let ms = ms1.push(m);
        let f = fields[k1 as int];
        assert(lift_flat_type(cx, f.ty, args.skip(m1 as int)) == Ok::<(ValueView, nat), LiftError>(
            (fs[k1 as int].1, (m - m1) as nat),
        ));
        assert forall|j: int| 0 <= j < k implies fs[j].0 == fields.take(k as int)[j].name@ && ms[j] <= ms[j + 1]
            && #[trigger] lift_flat_type(cx, fields.take(k as int)[j].ty, args.skip(ms[j] as int)) == Ok::<
            (ValueView, nat),
            LiftError,
        >((fs[j].1, (ms[j + 1] - ms[j]) as nat)) by {
            if j < k1 {
                assert(fields.take(k1 as int)[j] == fields.take(k as int)[j]);
                assert(lift_flat_type(cx, fields.take(k1 as int)[j].ty, args.skip(ms1[j] as int)) == Ok::<
                    (ValueView, nat),
                    LiftError,
                >((fs1[j].1, (ms1[j + 1] - ms1[j]) as nat)));
            }
        }
        assert(fields_taken_in_order(cx, fields.take(k as int), args, fs, ms));
    }
}

proof fn lemma_flat_members_in_order(cx: &LiftContext, types: Seq<WitType>, k: nat, args: Seq<FlatValue>, bound: nat)
    requires
        k <= types.len(),
        lift_flat_members(cx, types, k, args, bound) is Ok,
    ensures
        lift_flat_members(cx, types, k, args, bound) matches Ok((vs, m)) && exists|ms: Seq<nat>|
            #[trigger] values_taken_in_order(cx, types.take(k as int), args, vs, ms) && ms[0] == 0 && ms[k as int]
                == m,
    decreases k,
{
    let (vs, m) = lift_flat_members(cx, types, k, args, bound).unwrap();
    if k == 0 {
        let ms = seq![0nat];
        assert(values_taken_in_order(cx, types.take(0), args, vs, ms));
    } else {
        let k1 = (k - 1) as nat;
        lemma_flat_members_in_order(cx, types, k1, args, bound);
        let (vs1, m1) = lift_flat_members(cx, types, k1, args, bound).unwrap();
        let ms1 = choose|ms: Seq<nat>|
            #[trigger] values_taken_in_order(cx, types.take(k1 as int), args, vs1, ms) && ms[0] == 0
                && ms[k1 as int] == m1;
        let ms = ms1.push(m);
        assert(lift_flat_type(cx, types[k1 as int], args.skip(m1 as int)) == Ok::<(ValueView, nat), LiftError>(
            (vs[k1 as int], (m - m1) as nat),
        ));
        assert forall|j: int| 0 <= j < k implies ms[j] <= ms[j + 1] && #[trigger] lift_flat_type(
            cx,
            types.take(k as int)[j],
            args.skip(ms[j] as int),
        ) == Ok::<(ValueView, nat), LiftError>((vs[j], (ms[j + 1] - ms[j]) as nat)) by {
            if j < k1 {
                assert(types.take(k1 as int)[j] == types.take(k as int)[j]);
                assert(lift_flat_type(cx, types.take(k1 as int)[j], args.skip(ms1[j] as int)) == Ok::<
                    (ValueView, nat),
                    LiftError,
                >((vs1[j], (ms1[j + 1] - ms1[j]) as nat)));
            }
        }
        assert(values_taken_in_order(cx, types.take(k as int), args, vs, ms));
    }
}

/// Loading a record from memory loads its fields in declaration order, each
/// by its own type: field `j` of the result carries field `j`'s name and is
/// what loading field `j`'s type gives at the address where field `j - 1`
/// ended; the first field starts at the record's address and the record ends
/// where the last field ended.
pub proof fn law_record_fields_lifted_in_order(
    cx: &LiftContext,
    mem: Seq<u8>,
    i: usize,
    fields: Seq<Field>,
    ptr: int,
)
    requires
        i < cx.resolve.types@.len(),
        cx.resolve.types@[i as int] is Record,
        cx.resolve.types@[i as int]->Record_0@ == fields,
        lift_type(cx, mem, WitType::Id(i), ptr) is Ok,
    ensures
        lift_type(cx, mem, WitType::Id(i), ptr) matches Ok((v, q)) && v is Record && exists|ps: Seq<int>|
            #[trigger] fields_read_in_order(cx, mem, fields, v->Record_fields, ps) && ps[0] == ptr
                && ps[fields.len() as int] == q,
{
    let bound = rank(WitType::Id(i));
    assert(lift_fields(cx, mem, fields, fields.len(), ptr, bound) is Ok);
    lemma_fields_in_order(cx, mem, fields, fields.len(), ptr, bound);
    let (fs, q) = lift_fields(cx, mem, fields, fields.len(), ptr, bound).unwrap();
    let ps = choose|ps: Seq<int>|
        #[trigger] fields_read_in_order(cx, mem, fields.take(fields.len() as int), fs, ps) && ps[0] == ptr
            && ps[fields.len() as int] == q;
    assert(fields.take(fields.len() as int) =~= fields);
    assert(fields_read_in_order(cx, mem, fields, fs, ps));
    let (v, q2) = lift_type(cx, mem, WitType::Id(i), ptr).unwrap();
    assert(v is Record);
    assert(v->Record_fields == fs);
    assert(q2 == q);
}

/// Loading a tuple from memory loads its members in declaration order:
/// member `j` of the result is what loading the `j`-th member type gives at
/// the address where member `j - 1` ended; the first member starts at the
/// tuple's address and the tuple ends where the last member ended.
pub proof fn law_tuple_members_lifted_in_order(
    cx: &LiftContext,
    mem: Seq<u8>,
    i: usize,
    types: Seq<WitType>,
    ptr: int,
)
    requires
        i < cx.resolve.types@.len(),
        cx.resolve.types@[i as int] is Tuple,
        cx.resolve.types@[i as int]->Tuple_0@ == types,
        lift_type(cx, mem, WitType::Id(i), ptr) is Ok,
    ensures
        lift_type(cx, mem, WitType::Id(i), ptr) matches Ok((v, q)) && v is Tuple && exists|ps: Seq<int>|
            #[trigger] values_read_in_order(cx, mem, types, v->Tuple_values, ps) && ps[0] == ptr
                && ps[types.len() as int] == q,
{
    let bound = rank(WitType::Id(i));
    assert(lift_members(cx, mem, types, types.len(), ptr, bound) is Ok);
    lemma_members_in_order(cx, mem, types, types.len(), ptr, bound);
    let (vs, q) = lift_members(cx, mem, types, types.len(), ptr, bound).unwrap();
    let ps = choose|ps: Seq<int>|
        #[trigger] values_read_in_order(cx, mem, types.take(types.len() as int), vs, ps) && ps[0] == ptr
            && ps[types.len() as int] == q;
    assert(types.take(types.len() as int) =~= types);
    assert(values_read_in_order(cx, mem, types, vs, ps));
    let (v, q2) = lift_type(cx, mem, WitType::Id(i), ptr).unwrap();
    assert(v is Tuple);
    assert(v->Tuple_values == vs);
    assert(q2 == q);
}

/// Loading a list from memory reads its header (element address, length)
/// and then loads that many elements of the element type one after the
/// other from the element address, in order.
pub proof fn law_list_elements_lifted_in_order(
    cx: &LiftContext,
    mem: Seq<u8>,
    i: usize,
    elem: WitType,
    ptr: int,
)
    requires
        i < cx.resolve.types@.len(),
        cx.resolve.types@[i as int] == TypeDefKind::List(elem),
        lift_type(cx, mem, WitType::Id(i), ptr) is Ok,
    ensures
        lift_type(cx, mem, WitType::Id(i), ptr) matches Ok((v, q)) && v is List && q == ptr + 8 && (
        read_pair_at(mem, ptr) matches Ok((base, len)) && (if len <= 0 {
            v->List_values.len() == 0
        } else {
            exists|ps: Seq<int>|
                #[trigger] values_read_in_order(cx, mem, repeat_type(elem, len as nat), v->List_values, ps)
                    && ps[0] == address(base)
        })),
{
    let bound = rank(WitType::Id(i));
    let (base, len) = read_pair_at(mem, ptr).unwrap();
    assert(lift_list(cx, mem, elem, base, len, bound) is Ok);
    let vs = lift_list(cx, mem, elem, base, len, bound).unwrap();
    let (v, q) = lift_type(cx, mem, WitType::Id(i), ptr).unwrap();
    assert(v is List);
    assert(v->List_values == vs);
    assert(q == ptr + 8);
    if len > 0 {
        lemma_elements_in_order(cx, mem, elem, len as nat, address(base), bound);
        let (vs2, _) = lift_elements(cx, mem, elem, len as nat, address(base), bound).unwrap();
        assert(vs2 == vs);
    }
}

/// Loading a record from flat arguments loads its fields in declaration
/// order, each by its own type: field `j` of the result carries field `j`'s
/// name and is what loading field `j`'s type gives from the arguments left
/// after fields `0..j`; the record takes as many arguments as its fields
/// together.
pub proof fn law_record_fields_lifted_flat_in_order(
    cx: &LiftContext,
    i: usize,
    fields: Seq<Field>,
    args: Seq<FlatValue>,
)
    requires
        i < cx.resolve.types@.len(),
        cx.resolve.types@[i as int] is Record,
        cx.resolve.types@[i as int]->Record_0@ == fields,
        lift_flat_type(cx, WitType::Id(i), args) is Ok,
    ensures
        lift_flat_type(cx, WitType::Id(i), args) matches Ok((v, m)) && v is Record && exists|ms: Seq<nat>|
            #[trigger] fields_taken_in_order(cx, fields, args, v->Record_fields, ms) && ms[0] == 0
                && ms[fields.len() as int] == m,
{
    let bound = rank(WitType::Id(i));
    assert(lift_flat_fields(cx, fields, fields.len(), args, bound) is Ok);
    lemma_flat_fields_in_order(cx, fields, fields.len(), args, bound);
    let (fs, m) = lift_flat_fields(cx, fields, fields.len(), args, bound).unwrap();
    let ms = choose|ms: Seq<nat>|
        #[trigger] fields_taken_in_order(cx, fields.take(fields.len() as int), args, fs, ms) && ms[0] == 0
            && ms[fields.len() as int] == m;
    assert(fields.take(fields.len() as int) =~= fields);
    assert(fields_taken_in_order(cx, fields, args, fs, ms));
    let (v, m2) = lift_flat_type(cx, WitType::Id(i), args).unwrap();
    assert(v is Record);
    assert(v->Record_fields == fs);
    assert(m2 == m);
}

/// Loading a tuple from flat arguments loads its members in declaration
/// order: member `j` of the result, at index `j`, is what loading the `j`-th
/// member type gives from the arguments left after members `0..j`; the
/// tuple takes as many arguments as its members together.
pub proof fn law_tuple_members_lifted_flat_in_order(
    cx: &LiftContext,
    i: usize,
    types: Seq<WitType>,
    args: Seq<FlatValue>,
)
    requires
        i < cx.resolve.types@.len(),
        cx.resolve.types@[i as int] is Tuple,
        cx.resolve.types@[i as int]->Tuple_0@ == types,
        lift_flat_type(cx, WitType::Id(i), args) is Ok,
    ensures
        lift_flat_type(cx, WitType::Id(i), args) matches Ok((v, m)) && v is Tuple && exists|ms: Seq<nat>|
            #[trigger] values_taken_in_order(cx, types, args, v->Tuple_values, ms) && ms[0] == 0
                && ms[types.len() as int] == m,
{
    let bound = rank(WitType::Id(i));
    assert(lift_flat_members(cx, types, types.len(), args, bound) is Ok);
    lemma_flat_members_in_order(cx, types, types.len(), args, bound);
    let (vs, m) = lift_flat_members(cx, types, types.len(), args, bound).unwrap();
    let ms = choose|ms: Seq<nat>|
        #[trigger] values_taken_in_order(cx, types.take(types.len() as int), args, vs, ms) && ms[0] == 0
            && ms[types.len() as int] == m;
    assert(types.take(types.len() as int) =~= types);
    assert(values_taken_in_order(cx, types, args, vs, ms));
    let (v, m2) = lift_flat_type(cx, WitType::Id(i), args).unwrap();
    assert(v is Tuple);
    assert(v->Tuple_values == vs);
    assert(m2 == m);
}

proof fn lemma_fields_from_order(
    cx: &LiftContext,
    mem: Seq<u8>,
    fields: Seq<Field>,
    k: nat,
    fs: Seq<(Seq<char>, ValueView)>,
    ps: Seq<int>,
    bound: nat,
)
    requires
        k <= fields.len(),
        fields_read_in_order(cx, mem, fields, fs, ps),
        forall|j: int| 0 <= j < fields.len() ==> rank(#[trigger] fields[j].ty) < bound,
    ensures
        lift_fields(cx, mem, fields, k, ps[0], bound) == Ok::<(Seq<(Seq<char>, ValueView)>, int), LiftError>(
            (fs.take(k as int), ps[k as int]),
        ),
    decreases k,
{
    if k == 0 {
        assert(fs.take(0) =~= Seq::<(Seq<char>, ValueView)>::empty());
    } else {
        let k1 = (k - 1) as nat;
        lemma_fields_from_order(cx, mem, fields, k1, fs, ps, bound);
        assert(rank(fields[k1 as int].ty) < bound);
        assert(lift_type(cx, mem, fields[k1 as int].ty, ps[k1 as int]) == Ok::<(ValueView, int), LiftError>(
            (fs[k1 as int].1, ps[k as int]),
        ));
        assert(fs.take(k1 as int).push((fields[k1 as int].name@, fs[k1 as int].1)) =~= fs.take(k as int));
    }
}

proof fn lemma_members_from_order(
    cx: &LiftContext,
    mem: Seq<u8>,
    types: Seq<WitType>,
    k: nat,
    vs: Seq<ValueView>,
    ps: Seq<int>,
    bound: nat,
)
    requires
        k <= types.len(),
        values_read_in_order(cx, mem, types, vs, ps),
        forall|j: int| 0 <= j < types.len() ==> rank(#[trigger] types[j]) < bound,
    ensures
        lift_members(cx, mem, types, k, ps[0], bound) == Ok::<(Seq<ValueView>, int), LiftError>(
            (vs.take(k as int), ps[k as int]),
        ),
    decreases k,
{
    if k == 0 {
        assert(vs.take(0) =~= Seq::<ValueView>::empty());
    } else {
        let k1 = (k - 1) as nat;
        lemma_members_from_order(cx, mem, types, k1, vs, ps, bound);
        assert(rank(types[k1 as int]) < bound);
        assert(lift_type(cx, mem, types[k1 as int], ps[k1 as int]) == Ok::<(ValueView, int), LiftError>(
            (vs[k1 as int], ps[k as int]),
        ));
        assert(vs.take(k1 as int).push(vs[k1 as int]) =~= vs.take(k as int));
    }
}

proof fn lemma_flat_fields_from_order(
    cx: &LiftContext,
    fields: Seq<Field>,
    k: nat,
    args: Seq<FlatValue>,
    fs: Seq<(Seq<char>, ValueView)>,
    ms: Seq<nat>,
    bound: nat,
)
    requires
        k <= fields.len(),
        fields_taken_in_order(cx, fields, args, fs, ms),
        ms[0] == 0,
        forall|j: int| 0 <= j < fields.len() ==> rank(#[trigger] fields[j].ty) < bound,
    ensures
        lift_flat_fields(cx, fields, k, args, bound) == Ok::<(Seq<(Seq<char>, ValueView)>, nat), LiftError>(
            (fs.take(k as int), ms[k as int]),
        ),
    decreases k,
{
    if k == 0 {
        assert(fs.take(0) =~= Seq::<(Seq<char>, ValueView)>::empty());
    } else {
        let k1 = (k - 1) as nat;
        lemma_flat_fields_from_order(cx, fields, k1, args, fs, ms, bound);
        assert(rank(fields[k1 as int].ty) < bound);
        assert(lift_flat_type(cx, fields[k1 as int].ty, args.skip(ms[k1 as int] as int)) == Ok::<
            (ValueView, nat),
            LiftError,
        >((fs[k1 as int].1, (ms[k as int] - ms[k1 as int]) as nat)));
        assert(fs.take(k1 as int).push((fields[k1 as int].name@, fs[k1 as int].1)) =~= fs.take(k as int));
    }
}

proof fn lemma_flat_members_from_order(
    cx: &LiftContext,
    types: Seq<WitType>,
    k: nat,
    args: Seq<FlatValue>,
    vs: Seq<ValueView>,
    ms: Seq<nat>,
    bound: nat,
)
    requires
        k <= types.len(),
        values_taken_in_order(cx, types, args, vs, ms),
        ms[0] == 0,
        forall|j: int| 0 <= j < types.len() ==> rank(#[trigger] types[j]) < bound,
    ensures
        lift_flat_members(cx, types, k, args, bound) == Ok::<(Seq<ValueView>, nat), LiftError>(
            (vs.take(k as int), ms[k as int]),
        ),
    decreases k,
{
    if k == 0 {
        assert(vs.take(0) =~= Seq::<ValueView>::empty());
    } else {
        let k1 = (k - 1) as nat;
        lemma_flat_members_from_order(cx, types, k1, args, vs, ms, bound);
        assert(rank(types[k1 as int]) < bound);
        assert(lift_flat_type(cx, types[k1 as int], args.skip(ms[k1 as int] as int)) == Ok::<
            (ValueView, nat),
            LiftError,
        >((vs[k1 as int], (ms[k as int] - ms[k1 as int]) as nat)));
        assert(vs.take(k1 as int).push(vs[k1 as int]) =~= vs.take(k as int));
    }
}

/// Where every field of a record, in declaration order and each by its own
/// type, loads from memory one after the other from `ps[0]`, and the host
/// table holds a record for the definition, loading the record succeeds: it
/// gives exactly those fields and ends where the last field ended.
pub proof fn law_record_lifted_from_fields(
    cx: &LiftContext,
    mem: Seq<u8>,
    i: usize,
    r: usize,
    fields: Seq<Field>,
    fs: Seq<(Seq<char>, ValueView)>,
    ps: Seq<int>,
)
    requires
        cx.wf(),
        i < cx.resolve.types@.len(),
        cx.resolve.types@[i as int] is Record,
        cx.resolve.types@[i as int]->Record_0@ == fields,
        cx.types@[i as int] == ValueType::Record(r),
        fields_read_in_order(cx, mem, fields, fs, ps),
    ensures
        lift_type(cx, mem, WitType::Id(i), ps[0]) == Ok::<(ValueView, int), LiftError>(
            (ValueView::Record { ty: r, fields: fs }, ps[fields.len() as int]),
        ),
{
    let bound = rank(WitType::Id(i));
    assert(kind_refers_below(cx.resolve.types@[i as int], i as nat));
    assert forall|j: int| 0 <= j < fields.len() implies rank(#[trigger] fields[j].ty) < bound by {}
    lemma_fields_from_order(cx, mem, fields, fields.len(), fs, ps, bound);
    assert(fs.take(fields.len() as int) =~= fs);
}

/// Where every member of a tuple, in declaration order, loads from memory
/// one after the other from `ps[0]`, and the host table holds a tuple for the
/// definition, loading the tuple succeeds: it gives exactly those members,
/// in that order, and ends where the last member ended.
pub proof fn law_tuple_lifted_from_members(
    cx: &LiftContext,
    mem: Seq<u8>,
    i: usize,
    t: usize,
    types: Seq<WitType>,
    vs: Seq<ValueView>,
    ps: Seq<int>,
)
    requires
        cx.wf(),
        i < cx.resolve.types@.len(),
        cx.resolve.types@[i as int] is Tuple,
        cx.resolve.types@[i as int]->Tuple_0@ == types,
        cx.types@[i as int] == ValueType::Tuple(t),
        values_read_in_order(cx, mem, types, vs, ps),
    ensures
        lift_type(cx, mem, WitType::Id(i), ps[0]) == Ok::<(ValueView, int), LiftError>(
            (ValueView::Tuple { ty: t, values: vs }, ps[types.len() as int]),
        ),
{
    let bound = rank(WitType::Id(i));
    assert(kind_refers_below(cx.resolve.types@[i as int], i as nat));
    assert forall|j: int| 0 <= j < types.len() implies rank(#[trigger] types[j]) < bound by {}
    lemma_members_from_order(cx, mem, types, types.len(), vs, ps, bound);
    assert(vs.take(types.len() as int) =~= vs);
}

/// Where every field of a record, in declaration order and each by its own
/// type, loads from the flat arguments one after the other, and the host
/// table holds a record for the definition, loading the record from the
/// flat arguments succeeds with exactly those fields and takes the
/// arguments that they took together.
pub proof fn law_record_lifted_flat_from_fields(
    cx: &LiftContext,
    i: usize,
    r: usize,
    fields: Seq<Field>,
    args: Seq<FlatValue>,
    fs: Seq<(Seq<char>, ValueView)>,
    ms: Seq<nat>,
)
    requires
        cx.wf(),
        i < cx.resolve.types@.len(),
        cx.resolve.types@[i as int] is Record,
        cx.resolve.types@[i as int]->Record_0@ == fields,
        cx.types@[i as int] == ValueType::Record(r),
        fields_taken_in_order(cx, fields, args, fs, ms),
        ms[0] == 0,
    ensures
        lift_flat_type(cx, WitType::Id(i), args) == Ok::<(ValueView, nat), LiftError>(
            (ValueView::Record { ty: r, fields: fs }, ms[fields.len() as int]),
        ),
{
    let bound = rank(WitType::Id(i));
    assert(kind_refers_below(cx.resolve.types@[i as int], i as nat));
    assert forall|j: int| 0 <= j < fields.len() implies rank(#[trigger] fields[j].ty) < bound by {}
    lemma_flat_fields_from_order(cx, fields, fields.len(), args, fs, ms, bound);
    assert(fs.take(fields.len() as int) =~= fs);
}

/// Where every member of a tuple, in declaration order, loads from the flat
/// arguments one after the other, and the host table holds a tuple for the
/// definition, loading the tuple from the flat arguments succeeds with
/// exactly those members, in that order, and takes the arguments that they
/// took together.
pub proof fn law_tuple_lifted_flat_from_members(
    cx: &LiftContext,
    i: usize,
    t: usize,
    types: Seq<WitType>,
    args: Seq<FlatValue>,
    vs: Seq<ValueView>,
    ms: Seq<nat>,
)
    requires
        cx.wf(),
        i < cx.resolve.types@.len(),
        cx.resolve.types@[i as int] is Tuple,
        cx.resolve.types@[i as int]->Tuple_0@ == types,
        cx.types@[i as int] == ValueType::Tuple(t),
        values_taken_in_order(cx, types, args, vs, ms),
        ms[0] == 0,
    ensures
        lift_flat_type(cx, WitType::Id(i), args) == Ok::<(ValueView, nat), LiftError>(
            (ValueView::Tuple { ty: t, values: vs }, ms[types.len() as int]),
        ),
{
    let bound = rank(WitType::Id(i));
    assert(kind_refers_below(cx.resolve.types@[i as int], i as nat));
    assert forall|j: int| 0 <= j < types.len() implies rank(#[trigger] types[j]) < bound by {}
    lemma_flat_members_from_order(cx, types, types.len(), args, vs, ms, bound);
    assert(vs.take(types.len() as int) =~= vs);
}

/// Loading a list from flat arguments takes two of them, the element
/// address and the length, and then loads that many elements of the element
/// type one after the other from the element address in guest memory, in
/// order.
pub proof fn law_list_elements_lifted_flat_in_order(cx: &LiftContext, i: usize, elem: WitType, args: Seq<FlatValue>)
    requires
        i < cx.resolve.types@.len(),
        cx.resolve.types@[i as int] == TypeDefKind::List(elem),
        lift_flat_type(cx, WitType::Id(i), args) is Ok,
    ensures
        lift_flat_type(cx, WitType::Id(i), args) matches Ok((v, m)) && v is List && m == 2 && cx.memory is Some
            && (flat_pair(args) matches Ok((base, len)) && (if len <= 0 {
            v->List_values.len() == 0
        } else {
            exists|ps: Seq<int>|
                #[trigger] values_read_in_order(
                    cx,
                    cx.memory->0@,
                    repeat_type(elem, len as nat),
                    v->List_values,
                    ps,
                ) && ps[0] == address(base)
        })),
{
    let bound = rank(WitType::Id(i));
    let mem = cx.memory->0@;
    let (base, len) = flat_pair(args).unwrap();
    assert(lift_list(cx, mem, elem, base, len, bound) is Ok);
    let vs = lift_list(cx, mem, elem, base, len, bound).unwrap();
    let (v, m) = lift_flat_type(cx, WitType::Id(i), args).unwrap();
    assert(v is List);
    assert(v->List_values == vs);
    if len > 0 {
        lemma_elements_in_order(cx, mem, elem, len as nat, address(base), bound);
        let (vs2, _) = lift_elements(cx, mem, elem, len as nat, address(base), bound).unwrap();
        assert(vs2 == vs);
    }
}

} // verus!
