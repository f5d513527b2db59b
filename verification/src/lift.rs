//! Lifting: reading component values out of guest memory and out of flat
//! argument lists.

use vstd::prelude::*;
use vstd::utf8::{valid_utf8, decode_utf8};
use crate::component_type::ComponentType;
use crate::flat::{FlatArgs, FlatValue};
use crate::memory::{address, i32_from_le, in_bounds, GuestMemory, MemoryError};
use crate::value::{
    field_views_of, lemma_field_views_of_push, lemma_views_of_push, views_of, List, Record, Tuple, Value,
    ValueType, ValueView,
};
use crate::wit::{kind_refers_below, rank, Field, PeekableIter, Resolve, TypeCursor, TypeDefKind, WitType};

verus! {

/// Why a value could not be lifted.
#[derive(Clone, Copy, Debug, PartialEq, Eq)]
pub enum LiftError {
    /// The type stream ended before a value's type.
    MissingType,
    /// A type refers to a definition that the context does not hold.
    UnknownType,
    /// The host type table holds a different kind of type for a definition.
    InvalidType,
    /// The type is not one that lifting handles.
    Unsupported,
    /// A read reaches outside guest memory.
    OutOfBounds,
    /// String bytes are not UTF-8.
    InvalidUtf8,
    /// The flat arguments ended before a value.
    MissingArgument,
    /// A flat argument has the wrong core type.
    UnexpectedArgument,
    /// Guest memory is needed but not available.
    MissingMemory,
}

/// Used when lifting from guest memory.
pub struct LiftContext {
    /// WIT resolve context
    pub resolve: Resolve,
    /// Wit types have been converted to crate types for convenience
    pub types: Vec<ValueType>,
    /// The guest memory
    ///
    /// It is not always available, such as during init
    pub memory: Option<GuestMemory>,
}

impl LiftContext {
    /// The definitions are ordered and the host type table covers them.
    pub open spec fn wf(&self) -> bool {
        &&& self.resolve.wf()
        &&& self.types@.len() == self.resolve.types@.len()
    }

    /// Whether the context is one that lifting accepts.
    pub fn is_valid(&self) -> (r: bool)
        ensures
            r == self.wf(),
    {
        self.types.len() == self.resolve.types.len() && self.resolve.is_ordered()
    }
}

/// The `i32` stored at address `at`.
pub open spec fn read_i32_at(mem: Seq<u8>, at: int) -> Result<i32, LiftError> {
    if in_bounds(mem.len(), at, 4) {
        Ok(i32_from_le(mem.subrange(at, at + 4)))
    } else {
        Err(LiftError::OutOfBounds)
    }
}

/// The pair of `i32`s stored at address `at`.
pub open spec fn read_pair_at(mem: Seq<u8>, at: int) -> Result<(i32, i32), LiftError> {
    match read_i32_at(mem, at) {
        Ok(a) => match read_i32_at(mem, at + 4) {
            Ok(b) => Ok((a, b)),
            Err(e) => Err(e),
        },
        Err(e) => Err(e),
    }
}

/// The string whose UTF-8 bytes lie at the address of `ptr`, `len` bytes long.
pub open spec fn read_string(mem: Seq<u8>, ptr: i32, len: i32) -> Result<Seq<char>, LiftError> {
    if len < 0 || !in_bounds(mem.len(), address(ptr), len as int) {
        Err(LiftError::OutOfBounds)
    } else if valid_utf8(mem.subrange(address(ptr), address(ptr) + len)) {
        Ok(decode_utf8(mem.subrange(address(ptr), address(ptr) + len)))
    } else {
        Err(LiftError::InvalidUtf8)
    }
}

/// The next flat argument, which must be an `i32`.
pub open spec fn flat_i32(args: Seq<FlatValue>) -> Result<i32, LiftError> {
    if args.len() == 0 {
        Err(LiftError::MissingArgument)
    } else {
        match args[0] {
            FlatValue::I32(v) => Ok(v),
            _ => Err(LiftError::UnexpectedArgument),
        }
    }
}

/// The next two flat arguments, which must both be `i32`s.
pub open spec fn flat_pair(args: Seq<FlatValue>) -> Result<(i32, i32), LiftError> {
    match flat_i32(args) {
        Ok(a) => match flat_i32(args.drop_first()) {
            Ok(b) => Ok((a, b)),
            Err(e) => Err(e),
        },
        Err(e) => Err(e),
    }
}

/// An exec lift result agrees with its specification: on success the value,
/// the end pointer and the types consumed; on failure the same error.
pub open spec fn lift_agrees<T: View>(
    r: Result<(T, usize), LiftError>,
    s: Result<(T::V, int, nat), LiftError>,
    before: Seq<WitType>,
    after: Seq<WitType>,
) -> bool {
    match s {
        Ok((v, p, n)) => {
            &&& r matches Ok((x, q))
            &&& x@ == v
            &&& q == p
            &&& n <= before.len()
            &&& after == before.skip(n as int)
        },
        Err(e) => r == Err::<(T, usize), LiftError>(e),
    }
}

/// An exec flat lift result agrees with its specification: on success the
/// value, the types consumed and the arguments consumed; on failure the same
/// error.
pub open spec fn lift_flat_agrees<T: View>(
    r: Result<T, LiftError>,
    s: Result<(T::V, nat, nat), LiftError>,
    types_before: Seq<WitType>,
    types_after: Seq<WitType>,
    args_before: Seq<FlatValue>,
    args_after: Seq<FlatValue>,
) -> bool {
    match s {
        Ok((v, n, m)) => {
            &&& r matches Ok(x)
            &&& x@ == v
            &&& n <= types_before.len()
            &&& types_after == types_before.skip(n as int)
            &&& m <= args_before.len()
            &&& args_after == args_before.skip(m as int)
        },
        Err(e) => r == Err::<T, LiftError>(e),
    }
}

/// Converts a value from the guest to the host.
pub trait Lift: ComponentType + View + Sized {
    /// What loading from `mem` at `ptr` gives, with the remaining types
    /// `tys`: the value, the pointer past it, and how many types it took.
    spec fn lifted(cx: &LiftContext, mem: Seq<u8>, tys: Seq<WitType>, ptr: int) -> Result<
        (Self::V, int, nat),
        LiftError,
    >;

    /// What loading from the flat arguments `args` gives, with the remaining
    /// types `tys`: the value, how many types and how many arguments it took.
    spec fn lifted_flat(cx: &LiftContext, tys: Seq<WitType>, args: Seq<FlatValue>) -> Result<
        (Self::V, nat, nat),
        LiftError,
    >;

    /// Reads the value from guest memory
    ///
    /// `ty` is used to infer the type to load for dynamically typed destination types, such as
    /// [`Value`].
    fn load(cx: &LiftContext, memory: &GuestMemory, ty: &mut TypeCursor, ptr: usize) -> (r: Result<
        (Self, usize),
        LiftError,
    >)
        requires
            cx.wf(),
        ensures
            lift_agrees(
                r,
                Self::lifted(cx, memory@, old(ty).remaining(), ptr as int),
                old(ty).remaining(),
                final(ty).remaining(),
            ),
    ;

    /// Reads the value from flat arguments
    ///
    /// `ty` is used to infer the type to load for dynamically typed destination types, such as
    /// [`Value`].
    fn load_flat(cx: &LiftContext, ty: &mut TypeCursor, args: &mut FlatArgs) -> (r: Result<
        Self,
        LiftError,
    >)
        requires
            cx.wf(),
        ensures
            lift_flat_agrees(
                r,
                Self::lifted_flat(cx, old(ty).remaining(), old(args).remaining()),
                old(ty).remaining(),
                final(ty).remaining(),
                old(args).remaining(),
                final(args).remaining(),
            ),
    ;
}

fn memory_error(e: MemoryError) -> (r: LiftError)
    ensures
        r == LiftError::OutOfBounds,
{
    match e {
        MemoryError::OutOfBounds => LiftError::OutOfBounds,
    }
}

/// Takes the next flat argument as an `i32`.
fn next_i32(args: &mut FlatArgs) -> (r: Result<i32, LiftError>)
    ensures
        r == flat_i32(old(args).remaining()),
        r is Ok ==> final(args).remaining() == old(args).remaining().drop_first(),
{
    match args.next() {
        Some(FlatValue::I32(v)) => Ok(v),
        Some(_) => Err(LiftError::UnexpectedArgument),
        None => Err(LiftError::MissingArgument),
    }
}

impl Lift for i32 {
    open spec fn lifted(cx: &LiftContext, mem: Seq<u8>, tys: Seq<WitType>, ptr: int) -> Result<
        (i32, int, nat),
        LiftError,
    > {
        match read_i32_at(mem, ptr) {
            Ok(v) => Ok((v, ptr + 4, 0)),
            Err(e) => Err(e),
        }
    }

    open spec fn lifted_flat(cx: &LiftContext, tys: Seq<WitType>, args: Seq<FlatValue>) -> Result<
        (i32, nat, nat),
        LiftError,
    > {
        match flat_i32(args) {
            Ok(v) => Ok((v, 0, 1)),
            Err(e) => Err(e),
        }
    }

    fn load(cx: &LiftContext, memory: &GuestMemory, ty: &mut TypeCursor, ptr: usize) -> (r: Result<
        (i32, usize),
        LiftError,
    >) {
        assert(old(ty).remaining().skip(0) =~= old(ty).remaining());
        proof { memory.lemma_size_fits(); }
        match memory.read_i32(ptr) {
            Ok(v) => Ok((v, ptr + 4)),
            Err(e) => Err(memory_error(e)),
        }
    }

    fn load_flat(cx: &LiftContext, ty: &mut TypeCursor, args: &mut FlatArgs) -> (r: Result<
        i32,
        LiftError,
    >) {
        assert(old(ty).remaining().skip(0) =~= old(ty).remaining());
        assert(old(args).remaining().skip(1) =~= old(args).remaining().drop_first());
        next_i32(args)
    }
}


/// Decodes UTF-8 bytes into a string, or gives `None` where they are not
/// UTF-8.
///
/// Calls `String::from_utf8` from std, which by its documentation succeeds
/// exactly on valid UTF-8 and then holds the characters those bytes encode;
/// the contract states that over vstd's model of UTF-8.
#[verifier::external_body]
fn string_from_utf8(bytes: Vec<u8>) -> (r: Option<String>)
    ensures
        r is Some <==> valid_utf8(bytes@),
        r matches Some(s) ==> s@ == decode_utf8(bytes@),
{
    match String::from_utf8(bytes) {
        Ok(s) => Some(s),
        Err(_) => None,
    }
}

/// Reads the string of `len` bytes at guest address `ptr`.
fn load_string_bytes(memory: &GuestMemory, ptr: i32, len: i32) -> (r: Result<String, LiftError>)
    ensures
        match read_string(memory@, ptr, len) {
            Ok(s) => r matches Ok(x) && x@ == s,
            Err(e) => r == Err::<String, LiftError>(e),
        },
{
    if len < 0 {
        return Err(LiftError::OutOfBounds);
    }
    let bytes = match memory.read(ptr as usize, len as usize) {
        Ok(b) => b,
        Err(e) => return Err(memory_error(e)),
    };
    match string_from_utf8(bytes) {
        Some(s) => Ok(s),
        None => Err(LiftError::InvalidUtf8),
    }
}

impl Lift for String {
    open spec fn lifted(cx: &LiftContext, mem: Seq<u8>, tys: Seq<WitType>, ptr: int) -> Result<
        (Seq<char>, int, nat),
        LiftError,
    > {
        match read_pair_at(mem, ptr) {
            Ok((p, l)) => match read_string(mem, p, l) {
                Ok(s) => Ok((s, ptr + 8, 0)),
                Err(e) => Err(e),
            },
            Err(e) => Err(e),
        }
    }

    open spec fn lifted_flat(cx: &LiftContext, tys: Seq<WitType>, args: Seq<FlatValue>) -> Result<
        (Seq<char>, nat, nat),
        LiftError,
    > {
        match flat_pair(args) {
            Ok((p, l)) => match cx.memory {
                Some(m) => match read_string(m@, p, l) {
                    Ok(s) => Ok((s, 0, 2)),
                    Err(e) => Err(e),
                },
                None => Err(LiftError::MissingMemory),
            },
            Err(e) => Err(e),
        }
    }

    fn load(cx: &LiftContext, memory: &GuestMemory, ty: &mut TypeCursor, ptr: usize) -> (r: Result<
        (String, usize),
        LiftError,
    >) {
        let ((p, l), next) = match <(i32, i32)>::load(cx, memory, ty, ptr) {
            Ok(x) => x,
            Err(e) => return Err(e),
        };
        match load_string_bytes(memory, p, l) {
            Ok(s) => Ok((s, next)),
            Err(e) => Err(e),
        }
    }

    fn load_flat(cx: &LiftContext, ty: &mut TypeCursor, args: &mut FlatArgs) -> (r: Result<
        String,
        LiftError,
    >) {
        let (p, l) = match <(i32, i32)>::load_flat(cx, ty, args) {
            Ok(x) => x,
            Err(e) => return Err(e),
        };
        match &cx.memory {
            Some(memory) => load_string_bytes(memory, p, l),
            None => Err(LiftError::MissingMemory),
        }
    }
}

impl<A: Lift, B: Lift> Lift for (A, B) {
    open spec fn lifted(cx: &LiftContext, mem: Seq<u8>, tys: Seq<WitType>, ptr: int) -> Result<
        ((A::V, B::V), int, nat),
        LiftError,
    > {
        match A::lifted(cx, mem, tys, ptr) {
            Ok((a, p, n)) => match B::lifted(cx, mem, tys.skip(n as int), p) {
                Ok((b, q, m)) => Ok(((a, b), q, n + m)),
                Err(e) => Err(e),
            },
            Err(e) => Err(e),
        }
    }

    open spec fn lifted_flat(cx: &LiftContext, tys: Seq<WitType>, args: Seq<FlatValue>) -> Result<
        ((A::V, B::V), nat, nat),
        LiftError,
    > {
        match A::lifted_flat(cx, tys, args) {
            Ok((a, n, m)) => match B::lifted_flat(cx, tys.skip(n as int), args.skip(m as int)) {
                Ok((b, n2, m2)) => Ok(((a, b), n + n2, m + m2)),
                Err(e) => Err(e),
            },
            Err(e) => Err(e),
        }
    }

    fn load(cx: &LiftContext, memory: &GuestMemory, ty: &mut TypeCursor, ptr: usize) -> (r: Result<
        ((A, B), usize),
        LiftError,
    >) {
        let ghost tys = ty.remaining();
        let (a, ptr) = match A::load(cx, memory, ty, ptr) {
            Ok(x) => x,
            Err(e) => return Err(e),
        };
        let (b, ptr) = match B::load(cx, memory, ty, ptr) {
            Ok(x) => x,
            Err(e) => return Err(e),
        };
        proof { lemma_skip_skip_all(tys); }
        Ok(((a, b), ptr))
    }

    fn load_flat(cx: &LiftContext, ty: &mut TypeCursor, args: &mut FlatArgs) -> (r: Result<
        (A, B),
        LiftError,
    >) {
        let ghost tys = ty.remaining();
        let ghost vals = args.remaining();
        let a = match A::load_flat(cx, ty, args) {
            Ok(x) => x,
            Err(e) => return Err(e),
        };
        let b = match B::load_flat(cx, ty, args) {
            Ok(x) => x,
            Err(e) => return Err(e),
        };
        proof { lemma_skip_skip_all(tys); }
        proof { lemma_skip_skip_all(vals); }
        Ok((a, b))
    }
}


/// The host type that the table entry `i` gives, if the table covers `i`.
pub open spec fn table_entry(cx: &LiftContext, i: usize) -> Option<ValueType> {
    if i < cx.types@.len() {
        Some(cx.types@[i as int])
    } else {
        None
    }
}

/// The host type of list elements of WIT type `ty`, where there is one.
pub open spec fn element_type(cx: &LiftContext, ty: WitType) -> Option<ValueType> {
    match ty {
        WitType::Bool => Some(ValueType::Bool),
        WitType::U8 => Some(ValueType::U8),
        WitType::U16 => Some(ValueType::U16),
        WitType::U32 => Some(ValueType::U32),
        WitType::U64 => Some(ValueType::U64),
        WitType::S8 => Some(ValueType::S8),
        WitType::S16 => Some(ValueType::S16),
        WitType::S32 => Some(ValueType::S32),
        WitType::S64 => Some(ValueType::S64),
        WitType::F32 => Some(ValueType::F32),
        WitType::F64 => Some(ValueType::F64),
        WitType::Char => Some(ValueType::Char),
        WitType::String => Some(ValueType::String),
        WitType::ErrorContext => None,
        WitType::Id(j) => table_entry(cx, j),
    }
}

/// Loading one value of type `ty` from `mem` at `ptr`: the value and the
/// pointer past what was read.
pub open spec fn lift_type(cx: &LiftContext, mem: Seq<u8>, ty: WitType, ptr: int) -> Result<
    (ValueView, int),
    LiftError,
>
    decreases rank(ty), 2nat, 0nat,
{
    match ty {
        WitType::S32 => match read_i32_at(mem, ptr) {
            Ok(v) => Ok((ValueView::S32(v), ptr + 4)),
            Err(e) => Err(e),
        },
        WitType::String => match read_pair_at(mem, ptr) {
            Ok((p, l)) => match read_string(mem, p, l) {
                Ok(s) => Ok((ValueView::String(s), ptr + 8)),
                Err(e) => Err(e),
            },
            Err(e) => Err(e),
        },
        WitType::Id(i) => {
            if i >= cx.resolve.types@.len() {
                Err(LiftError::UnknownType)
            } else {
                match cx.resolve.types@[i as int] {
                    TypeDefKind::Record(fields) => match lift_fields(
                        cx,
                        mem,
                        fields@,
                        fields@.len(),
                        ptr,
                        rank(ty),
                    ) {
                        Ok((fs, p)) => match table_entry(cx, i) {
                            Some(ValueType::Record(r)) => Ok((ValueView::Record { ty: r, fields: fs }, p)),
                            Some(_) => Err(LiftError::InvalidType),
                            None => Err(LiftError::UnknownType),
                        },
                        Err(e) => Err(e),
                    },
                    TypeDefKind::Tuple(types) => match lift_members(
                        cx,
                        mem,
                        types@,
                        types@.len(),
                        ptr,
                        rank(ty),
                    ) {
                        Ok((vs, p)) => match table_entry(cx, i) {
                            Some(ValueType::Tuple(t)) => Ok((ValueView::Tuple { ty: t, values: vs }, p)),
                            Some(_) => Err(LiftError::InvalidType),
                            None => Err(LiftError::UnknownType),
                        },
                        Err(e) => Err(e),
                    },
                    TypeDefKind::List(elem) => match read_pair_at(mem, ptr) {
                        Ok((base, len)) => match lift_list(cx, mem, elem, base, len, rank(ty)) {
                            Ok(vs) => list_result(cx, i, elem, vs, ptr + 8),
                            Err(e) => Err(e),
                        },
                        Err(e) => Err(e),
                    },
                    _ => Err(LiftError::Unsupported),
                }
            }
        },
        _ => Err(LiftError::Unsupported),
    }
}

/// The list value of definition `i` with element type `elem` and elements
/// `vs`, once the host table confirms that `i` is a list.
pub open spec fn list_result(cx: &LiftContext, i: usize, elem: WitType, vs: Seq<ValueView>, next: int) -> Result<
    (ValueView, int),
    LiftError,
> {
    match table_entry(cx, i) {
        Some(ValueType::List(l)) => match element_type(cx, elem) {
            Some(et) => Ok((ValueView::List { ty: l, element: et, values: vs }, next)),
            None => Err(LiftError::Unsupported),
        },
        Some(_) => Err(LiftError::InvalidType),
        None => Err(LiftError::UnknownType),
    }
}

/// Loading the first `k` fields of a record one after the other from `ptr`.
pub open spec fn lift_fields(
    cx: &LiftContext,
    mem: Seq<u8>,
    fields: Seq<Field>,
    k: nat,
    ptr: int,
    bound: nat,
) -> Result<(Seq<(Seq<char>, ValueView)>, int), LiftError>
    decreases bound, 1nat, k,
{
    if k == 0 {
        Ok((Seq::empty(), ptr))
    } else {
        match lift_fields(cx, mem, fields, (k - 1) as nat, ptr, bound) {
            Ok((fs, p)) => {
                let f = fields[k - 1];
                if rank(f.ty) < bound {
                    match lift_type(cx, mem, f.ty, p) {
                        Ok((v, q)) => Ok((fs.push((f.name@, v)), q)),
                        Err(e) => Err(e),
                    }
                } else {
                    Err(LiftError::UnknownType)
                }
            },
            Err(e) => Err(e),
        }
    }
}

/// Loading the first `k` members of a tuple one after the other from `ptr`.
pub open spec fn lift_members(
    cx: &LiftContext,
    mem: Seq<u8>,
    types: Seq<WitType>,
    k: nat,
    ptr: int,
    bound: nat,
) -> Result<(Seq<ValueView>, int), LiftError>
    decreases bound, 1nat, k,
{
    if k == 0 {
        Ok((Seq::empty(), ptr))
    } else {
        match lift_members(cx, mem, types, (k - 1) as nat, ptr, bound) {
            Ok((vs, p)) => {
                if rank(types[k - 1]) < bound {
                    match lift_type(cx, mem, types[k - 1], p) {
                        Ok((v, q)) => Ok((vs.push(v), q)),
                        Err(e) => Err(e),
                    }
                } else {
                    Err(LiftError::UnknownType)
                }
            },
            Err(e) => Err(e),
        }
    }
}

/// Loading `count` elements of type `elem` one after the other from `ptr`.
pub open spec fn lift_elements(
    cx: &LiftContext,
    mem: Seq<u8>,
    elem: WitType,
    count: nat,
    ptr: int,
    bound: nat,
) -> Result<(Seq<ValueView>, int), LiftError>
    decreases bound, 1nat, count,
{
    if count == 0 {
        Ok((Seq::empty(), ptr))
    } else {
        match lift_elements(cx, mem, elem, (count - 1) as nat, ptr, bound) {
            Ok((vs, p)) => {
                if rank(elem) < bound {
                    match lift_type(cx, mem, elem, p) {
                        Ok((v, q)) => Ok((vs.push(v), q)),
                        Err(e) => Err(e),
                    }
                } else {
                    Err(LiftError::UnknownType)
                }
            },
            Err(e) => Err(e),
        }
    }
}

/// Loading the elements of a list whose header holds `base` and `len`: no
/// elements for a length that is not positive, else `len` elements from the
/// address of `base`.
pub open spec fn lift_list(
    cx: &LiftContext,
    mem: Seq<u8>,
    elem: WitType,
    base: i32,
    len: i32,
    bound: nat,
) -> Result<Seq<ValueView>, LiftError>
    decreases bound, 1nat, if len > 0 { len as nat + 1 } else { 0nat },
{
    if len <= 0 {
        Ok(Seq::empty())
    } else {
        match lift_elements(cx, mem, elem, len as nat, address(base), bound) {
            Ok((vs, _)) => Ok(vs),
            Err(e) => Err(e),
        }
    }
}


proof fn lemma_fields_error_persists(
    cx: &LiftContext,
    mem: Seq<u8>,
    fields: Seq<Field>,
    k: nat,
    k2: nat,
    ptr: int,
    bound: nat,
)
    requires
        k <= k2,
        lift_fields(cx, mem, fields, k, ptr, bound) is Err,
    ensures
        lift_fields(cx, mem, fields, k2, ptr, bound) == lift_fields(cx, mem, fields, k, ptr, bound),
    decreases k2,
{
    if k2 > k {
        lemma_fields_error_persists(cx, mem, fields, k, (k2 - 1) as nat, ptr, bound);
    }
}

proof fn lemma_members_error_persists(
    cx: &LiftContext,
    mem: Seq<u8>,
    types: Seq<WitType>,
    k: nat,
    k2: nat,
    ptr: int,
    bound: nat,
)
    requires
        k <= k2,
        lift_members(cx, mem, types, k, ptr, bound) is Err,
    ensures
        lift_members(cx, mem, types, k2, ptr, bound) == lift_members(cx, mem, types, k, ptr, bound),
    decreases k2,
{
    if k2 > k {
        lemma_members_error_persists(cx, mem, types, k, (k2 - 1) as nat, ptr, bound);
    }
}

proof fn lemma_elements_error_persists(
    cx: &LiftContext,
    mem: Seq<u8>,
    elem: WitType,
    k: nat,
    k2: nat,
    ptr: int,
    bound: nat,
)
    requires
        k <= k2,
        lift_elements(cx, mem, elem, k, ptr, bound) is Err,
    ensures
        lift_elements(cx, mem, elem, k2, ptr, bound) == lift_elements(cx, mem, elem, k, ptr, bound),
    decreases k2,
{
    if k2 > k {
        lemma_elements_error_persists(cx, mem, elem, k, (k2 - 1) as nat, ptr, bound);
    }
}

/// The host type of list elements of WIT type `ty`.
fn element_type_of(cx: &LiftContext, ty: WitType) -> (r: Option<ValueType>)
    ensures
        r == element_type(cx, ty),
{
    match ty {
        WitType::Bool => Some(ValueType::Bool),
        WitType::U8 => Some(ValueType::U8),
        WitType::U16 => Some(ValueType::U16),
        WitType::U32 => Some(ValueType::U32),
        WitType::U64 => Some(ValueType::U64),
        WitType::S8 => Some(ValueType::S8),
        WitType::S16 => Some(ValueType::S16),
        WitType::S32 => Some(ValueType::S32),
        WitType::S64 => Some(ValueType::S64),
        WitType::F32 => Some(ValueType::F32),
        WitType::F64 => Some(ValueType::F64),
        WitType::Char => Some(ValueType::Char),
        WitType::String => Some(ValueType::String),
        WitType::ErrorContext => None,
        WitType::Id(j) => {
            if j < cx.types.len() {
                Some(cx.types[j])
            } else {
                None
            }
        },
    }
}

/// Reads the pair of `i32`s at `ptr`.
fn load_pair(cx: &LiftContext, memory: &GuestMemory, ptr: usize) -> (r: Result<((i32, i32), usize), LiftError>)
    requires
        cx.wf(),
    ensures
        match read_pair_at(memory@, ptr as int) {
            Ok(v) => r matches Ok((x, q)) && x == v && q == ptr + 8,
            Err(e) => r == Err::<((i32, i32), usize), LiftError>(e),
        },
{
    let mut none = TypeCursor::new(Vec::new());
    <(i32, i32)>::load(cx, memory, &mut none, ptr)
}

/// Loads the elements of a list whose header holds `base` and `len`.
fn load_elements(
    cx: &LiftContext,
    memory: &GuestMemory,
    elem: WitType,
    base: i32,
    len: i32,
    Ghost(bound): Ghost<nat>,
) -> (r: Result<Vec<Value>, LiftError>)
    requires
        cx.wf(),
        rank(elem) < bound,
    ensures
        match lift_list(cx, memory@, elem, base, len, bound) {
            Ok(vs) => r matches Ok(x) && views_of(x@) == vs,
            Err(e) => r == Err::<Vec<Value>, LiftError>(e),
        },
    decreases bound, 0nat,
{
    let mut values: Vec<Value> = Vec::new();
    if len <= 0 {
        return Ok(values);
    }
    let count = len as usize;
    let mut p = base as usize;
    let mut k: usize = 0;
    while k < count
        invariant
            cx.wf(),
            k <= count,
            count == len,
            len > 0,
            rank(elem) < bound,
            lift_elements(cx, memory@, elem, k as nat, address(base), bound) == Ok::<
                (Seq<ValueView>, int),
                LiftError,
            >((views_of(values@), p as int)),
        decreases count - k,
    {
        let (v, q) = match load_type(cx, memory, elem, p) {
            Ok(x) => x,
            Err(e) => {
                proof {
                    assert(lift_elements(cx, memory@, elem, (k + 1) as nat, address(base), bound)
                        == Err::<(Seq<ValueView>, int), LiftError>(e));
                    lemma_elements_error_persists(cx, memory@, elem, (k + 1) as nat, count as nat, address(base), bound);
                }
                return Err(e);
            },
        };
        proof { lemma_views_of_push(values@, v); }
        values.push(v);
        p = q;
        k = k + 1;
    }
    Ok(values)
}

/// Loads one value of WIT type `ty` from `memory` at `ptr`.
fn load_type(cx: &LiftContext, memory: &GuestMemory, ty: WitType, ptr: usize) -> (r: Result<
    (Value, usize),
    LiftError,
>)
    requires
        cx.wf(),
    ensures
        match lift_type(cx, memory@, ty, ptr as int) {
            Ok((v, p)) => r matches Ok((x, q)) && x@ == v && q == p,
            Err(e) => r == Err::<(Value, usize), LiftError>(e),
        },
    decreases rank(ty), 1nat,
{
    match ty {
        WitType::S32 => {
            proof { memory.lemma_size_fits(); }
            match memory.read_i32(ptr) {
                Ok(v) => Ok((Value::S32(v), ptr + 4)),
                Err(e) => Err(memory_error(e)),
            }
        },
        WitType::String => {
            let mut none = TypeCursor::new(Vec::new());
            match String::load(cx, memory, &mut none, ptr) {
                Ok((s, p)) => Ok((Value::String(s), p)),
                Err(e) => Err(e),
            }
        },
        WitType::Id(i) => {
            if i >= cx.resolve.types.len() {
                return Err(LiftError::UnknownType);
            }
            proof {
                assert(kind_refers_below(cx.resolve.types@[i as int], i as nat));
            }
            match &cx.resolve.types[i] {
                TypeDefKind::Record(fields) => {
                    let mut args: Vec<(String, Value)> = Vec::new();
                    let mut p = ptr;
                    let mut k: usize = 0;
                    while k < fields.len()
                        invariant
                            cx.wf(),
                            k <= fields@.len(),
                            forall|j: int| 0 <= j < fields@.len() ==> rank(#[trigger] fields@[j].ty) <= i,
                            ty == WitType::Id(i),
                            i < cx.resolve.types@.len(),
                            cx.resolve.types@[i as int] == TypeDefKind::Record(*fields),
                            rank(ty) == i + 1,
                            lift_fields(cx, memory@, fields@, k as nat, ptr as int, rank(ty)) == Ok::<
                                (Seq<(Seq<char>, ValueView)>, int),
                                LiftError,
                            >((field_views_of(args@), p as int)),
                        decreases fields.len() - k,
                    {
                        let field = &fields[k];
                        assert(rank(fields@[k as int].ty) <= i);
                        let (v, q) = match load_type(cx, memory, field.ty, p) {
                            Ok(x) => x,
                            Err(e) => {
                                proof {
                                    assert(lift_fields(cx, memory@, fields@, (k + 1) as nat, ptr as int, rank(ty))
                                        == Err::<(Seq<(Seq<char>, ValueView)>, int), LiftError>(e));
                                    lemma_fields_error_persists(
                                        cx, memory@, fields@, (k + 1) as nat, fields@.len(), ptr as int, rank(ty),
                                    );
                                }
                                return Err(e);
                            },
                        };
                        let entry = (field.name.clone(), v);
                        proof { lemma_field_views_of_push(args@, entry); }
                        args.push(entry);
                        p = q;
                        k = k + 1;
                    }
                    match cx.types[i] {
                        ValueType::Record(r) => Ok((Value::Record(Record { ty: r, fields: args }), p)),
                        _ => Err(LiftError::InvalidType),
                    }
                },
                TypeDefKind::Tuple(types) => {
                    let mut values: Vec<Value> = Vec::new();
                    let mut p = ptr;
                    let mut k: usize = 0;
                    while k < types.len()
                        invariant
                            cx.wf(),
                            k <= types@.len(),
                            forall|j: int| 0 <= j < types@.len() ==> rank(#[trigger] types@[j]) <= i,
                            ty == WitType::Id(i),
                            i < cx.resolve.types@.len(),
                            cx.resolve.types@[i as int] == TypeDefKind::Tuple(*types),
                            rank(ty) == i + 1,
                            lift_members(cx, memory@, types@, k as nat, ptr as int, rank(ty)) == Ok::<
                                (Seq<ValueView>, int),
                                LiftError,
                            >((views_of(values@), p as int)),
                        decreases types.len() - k,
                    {
                        assert(rank(types@[k as int]) <= i);
                        let (v, q) = match load_type(cx, memory, types[k], p) {
                            Ok(x) => x,
                            Err(e) => {
                                proof {
                                    assert(lift_members(cx, memory@, types@, (k + 1) as nat, ptr as int, rank(ty))
                                        == Err::<(Seq<ValueView>, int), LiftError>(e));
                                    lemma_members_error_persists(
                                        cx, memory@, types@, (k + 1) as nat, types@.len(), ptr as int, rank(ty),
                                    );
                                }
                                return Err(e);
                            },
                        };
                        proof { lemma_views_of_push(values@, v); }
                        values.push(v);
                        p = q;
                        k = k + 1;
                    }
                    match cx.types[i] {
                        ValueType::Tuple(t) => Ok((Value::Tuple(Tuple { ty: t, values }), p)),
                        _ => Err(LiftError::InvalidType),
                    }
                },
                TypeDefKind::List(elem) => {
                    let elem = *elem;
                    let ((base, len), next) = match load_pair(cx, memory, ptr) {
                        Ok(x) => x,
                        Err(e) => return Err(e),
                    };
                    let values = match load_elements(cx, memory, elem, base, len, Ghost(rank(ty))) {
                        Ok(vs) => vs,
                        Err(e) => return Err(e),
                    };
                    match cx.types[i] {
                        ValueType::List(l) => match element_type_of(cx, elem) {
                            Some(et) => Ok((Value::List(List { ty: l, element: et, values }), next)),
                            None => Err(LiftError::Unsupported),
                        },
                        _ => Err(LiftError::InvalidType),
                    }
                },
                _ => Err(LiftError::Unsupported),
            }
        },
        _ => Err(LiftError::Unsupported),
    }
}


/// Loading one value of type `ty` from the flat arguments `args`: the value
/// and how many arguments it took.
pub open spec fn lift_flat_type(cx: &LiftContext, ty: WitType, args: Seq<FlatValue>) -> Result<
    (ValueView, nat),
    LiftError,
>
    decreases rank(ty), 2nat, 0nat,
{
    match ty {
        WitType::S32 => match flat_i32(args) {
            Ok(v) => Ok((ValueView::S32(v), 1)),
            Err(e) => Err(e),
        },
        WitType::String => match flat_pair(args) {
            Ok((p, l)) => match cx.memory {
                Some(m) => match read_string(m@, p, l) {
                    Ok(s) => Ok((ValueView::String(s), 2)),
                    Err(e) => Err(e),
                },
                None => Err(LiftError::MissingMemory),
            },
            Err(e) => Err(e),
        },
        WitType::Id(i) => {
            if i >= cx.resolve.types@.len() {
                Err(LiftError::UnknownType)
            } else {
                match cx.resolve.types@[i as int] {
                    TypeDefKind::Record(fields) => match lift_flat_fields(
                        cx,
                        fields@,
                        fields@.len(),
                        args,
                        rank(ty),
                    ) {
                        Ok((fs, m)) => match table_entry(cx, i) {
                            Some(ValueType::Record(r)) => Ok((ValueView::Record { ty: r, fields: fs }, m)),
                            Some(_) => Err(LiftError::InvalidType),
                            None => Err(LiftError::UnknownType),
                        },
                        Err(e) => Err(e),
                    },
                    TypeDefKind::Tuple(types) => match lift_flat_members(
                        cx,
                        types@,
                        types@.len(),
                        args,
                        rank(ty),
                    ) {
                        Ok((vs, m)) => match table_entry(cx, i) {
                            Some(ValueType::Tuple(t)) => Ok((ValueView::Tuple { ty: t, values: vs }, m)),
                            Some(_) => Err(LiftError::InvalidType),
                            None => Err(LiftError::UnknownType),
                        },
                        Err(e) => Err(e),
                    },
                    TypeDefKind::List(elem) => match cx.memory {
                        Some(mem) => match flat_pair(args) {
                            Ok((base, len)) => match lift_list(cx, mem@, elem, base, len, rank(ty)) {
                                Ok(vs) => match list_result(cx, i, elem, vs, 0) {
                                    Ok((v, _)) => Ok((v, 2)),
                                    Err(e) => Err(e),
                                },
                                Err(e) => Err(e),
                            },
                            Err(e) => Err(e),
                        },
                        None => Err(LiftError::MissingMemory),
                    },
                    _ => Err(LiftError::Unsupported),
                }
            }
        },
        _ => Err(LiftError::Unsupported),
    }
}

/// Loading the first `k` fields of a record from the flat arguments.
pub open spec fn lift_flat_fields(
    cx: &LiftContext,
    fields: Seq<Field>,
    k: nat,
    args: Seq<FlatValue>,
    bound: nat,
) -> Result<(Seq<(Seq<char>, ValueView)>, nat), LiftError>
    decreases bound, 1nat, k,
{
    if k == 0 {
        Ok((Seq::empty(), 0))
    } else {
        match lift_flat_fields(cx, fields, (k - 1) as nat, args, bound) {
            Ok((fs, m)) => {
                let f = fields[k - 1];
                if rank(f.ty) < bound {
                    match lift_flat_type(cx, f.ty, args.skip(m as int)) {
                        Ok((v, m2)) => Ok((fs.push((f.name@, v)), m + m2)),
                        Err(e) => Err(e),
                    }
                } else {
                    Err(LiftError::UnknownType)
                }
            },
            Err(e) => Err(e),
        }
    }
}

/// Loading the first `k` members of a tuple from the flat arguments.
pub open spec fn lift_flat_members(
    cx: &LiftContext,
    types: Seq<WitType>,
    k: nat,
    args: Seq<FlatValue>,
    bound: nat,
) -> Result<(Seq<ValueView>, nat), LiftError>
    decreases bound, 1nat, k,
{
    if k == 0 {
        Ok((Seq::empty(), 0))
    } else {
        match lift_flat_members(cx, types, (k - 1) as nat, args, bound) {
            Ok((vs, m)) => {
                if rank(types[k - 1]) < bound {
                    match lift_flat_type(cx, types[k - 1], args.skip(m as int)) {
                        Ok((v, m2)) => Ok((vs.push(v), m + m2)),
                        Err(e) => Err(e),
                    }
                } else {
                    Err(LiftError::UnknownType)
                }
            },
            Err(e) => Err(e),
        }
    }
}

proof fn lemma_flat_fields_error_persists(
    cx: &LiftContext,
    fields: Seq<Field>,
    k: nat,
    k2: nat,
    args: Seq<FlatValue>,
    bound: nat,
)
    requires
        k <= k2,
        lift_flat_fields(cx, fields, k, args, bound) is Err,
    ensures
        lift_flat_fields(cx, fields, k2, args, bound) == lift_flat_fields(cx, fields, k, args, bound),
    decreases k2,
{
    if k2 > k {
        lemma_flat_fields_error_persists(cx, fields, k, (k2 - 1) as nat, args, bound);
    }
}

proof fn lemma_flat_members_error_persists(
    cx: &LiftContext,
    types: Seq<WitType>,
    k: nat,
    k2: nat,
    args: Seq<FlatValue>,
    bound: nat,
)
    requires
        k <= k2,
        lift_flat_members(cx, types, k, args, bound) is Err,
    ensures
        lift_flat_members(cx, types, k2, args, bound) == lift_flat_members(cx, types, k, args, bound),
    decreases k2,
{
    if k2 > k {
        lemma_flat_members_error_persists(cx, types, k, (k2 - 1) as nat, args, bound);
    }
}

/// Skipping `n` and then `m` items is skipping `n + m`, for all `n` and `m`.
proof fn lemma_skip_skip_all<T>(s: Seq<T>)
    ensures
        forall|n: int, m: int|
            0 <= n && 0 <= m && n + m <= s.len() ==> #[trigger] s.skip(n).skip(m) == s.skip(n + m),
{
    assert forall|n: int, m: int| 0 <= n && 0 <= m && n + m <= s.len() implies #[trigger] s.skip(n).skip(m)
        == s.skip(n + m) by {
        lemma_skip_skip(s, n, m);
    }
}

proof fn lemma_skip_skip<T>(s: Seq<T>, n: int, m: int)
    requires
        0 <= n,
        0 <= m,
        n + m <= s.len(),
    ensures
        s.skip(n).skip(m) == s.skip(n + m),
{
    assert(s.skip(n).skip(m) =~= s.skip(n + m));
}

/// Loads one value of WIT type `ty` from the flat arguments.
fn load_flat_type(cx: &LiftContext, ty: WitType, args: &mut FlatArgs) -> (r: Result<Value, LiftError>)
    requires
        cx.wf(),
    ensures
        match lift_flat_type(cx, ty, old(args).remaining()) {
            Ok((v, m)) => {
                &&& r matches Ok(x)
                &&& x@ == v
                &&& m <= old(args).remaining().len()
                &&& final(args).remaining() == old(args).remaining().skip(m as int)
            },
            Err(e) => r == Err::<Value, LiftError>(e),
        },
    decreases rank(ty),
{
    let ghost start = args.remaining();
    match ty {
        WitType::S32 => {
            let mut none = TypeCursor::new(Vec::new());
            match i32::load_flat(cx, &mut none, args) {
                Ok(v) => Ok(Value::S32(v)),
                Err(e) => Err(e),
            }
        },
        WitType::String => {
            let mut none = TypeCursor::new(Vec::new());
            match String::load_flat(cx, &mut none, args) {
                Ok(s) => Ok(Value::String(s)),
                Err(e) => Err(e),
            }
        },
        WitType::Id(i) => {
            if i >= cx.resolve.types.len() {
                return Err(LiftError::UnknownType);
            }
            proof {
                assert(kind_refers_below(cx.resolve.types@[i as int], i as nat));
            }
            match &cx.resolve.types[i] {
                TypeDefKind::Record(fields) => {
                    let mut res: Vec<(String, Value)> = Vec::new();
                    let mut k: usize = 0;
                    let ghost mut m: nat = 0;
                    assert(start.skip(0) =~= start);
                    while k < fields.len()
                        invariant
                            cx.wf(),
                            k <= fields@.len(),
                            forall|j: int| 0 <= j < fields@.len() ==> rank(#[trigger] fields@[j].ty) <= i,
                            ty == WitType::Id(i),
                            i < cx.resolve.types@.len(),
                            cx.resolve.types@[i as int] == TypeDefKind::Record(*fields),
                            rank(ty) == i + 1,
                            start == old(args).remaining(),
                            m <= start.len(),
                            args.remaining() == start.skip(m as int),
                            lift_flat_fields(cx, fields@, k as nat, start, rank(ty)) == Ok::<
                                (Seq<(Seq<char>, ValueView)>, nat),
                                LiftError,
                            >((field_views_of(res@), m)),
                        decreases fields.len() - k,
                    {
                        let field = &fields[k];
                        assert(rank(fields@[k as int].ty) <= i);
                        let ghost before = args.remaining();
                        let v = match load_flat_type(cx, field.ty, args) {
                            Ok(x) => x,
                            Err(e) => {
                                proof {
                                    assert(lift_flat_fields(cx, fields@, (k + 1) as nat, start, rank(ty))
                                        == Err::<(Seq<(Seq<char>, ValueView)>, nat), LiftError>(e));
                                    lemma_flat_fields_error_persists(
                                        cx, fields@, (k + 1) as nat, fields@.len(), start, rank(ty),
                                    );
                                }
                                return Err(e);
                            },
                        };
                        proof {
                            if let Ok((_, mm)) = lift_flat_type(cx, fields@[k as int].ty, before) {
                                lemma_skip_skip(start, m as int, mm as int);
                                m = m + mm;
                            }
                        }
                        let entry = (field.name.clone(), v);
                        proof { lemma_field_views_of_push(res@, entry); }
                        res.push(entry);
                        k = k + 1;
                    }
                    match cx.types[i] {
                        ValueType::Record(r) => Ok(Value::Record(Record { ty: r, fields: res })),
                        _ => Err(LiftError::InvalidType),
                    }
                },
                TypeDefKind::Tuple(types) => {
                    let mut res: Vec<Value> = Vec::new();
                    let mut k: usize = 0;
                    let ghost mut m: nat = 0;
                    assert(start.skip(0) =~= start);
                    while k < types.len()
                        invariant
                            cx.wf(),
                            k <= types@.len(),
                            forall|j: int| 0 <= j < types@.len() ==> rank(#[trigger] types@[j]) <= i,
                            ty == WitType::Id(i),
                            i < cx.resolve.types@.len(),
                            cx.resolve.types@[i as int] == TypeDefKind::Tuple(*types),
                            rank(ty) == i + 1,
                            start == old(args).remaining(),
                            m <= start.len(),
                            args.remaining() == start.skip(m as int),
                            lift_flat_members(cx, types@, k as nat, start, rank(ty)) == Ok::<
                                (Seq<ValueView>, nat),
                                LiftError,
                            >((views_of(res@), m)),
                        decreases types.len() - k,
                    {
                        assert(rank(types@[k as int]) <= i);
                        let ghost before = args.remaining();
                        let v = match load_flat_type(cx, types[k], args) {
                            Ok(x) => x,
                            Err(e) => {
                                proof {
                                    assert(lift_flat_members(cx, types@, (k + 1) as nat, start, rank(ty))
                                        == Err::<(Seq<ValueView>, nat), LiftError>(e));
                                    lemma_flat_members_error_persists(
                                        cx, types@, (k + 1) as nat, types@.len(), start, rank(ty),
                                    );
                                }
                                return Err(e);
                            },
                        };
                        proof {
                            if let Ok((_, mm)) = lift_flat_type(cx, types@[k as int], before) {
                                lemma_skip_skip(start, m as int, mm as int);
                                m = m + mm;
                            }
                        }
                        proof { lemma_views_of_push(res@, v); }
                        res.push(v);
                        k = k + 1;
                    }
                    match cx.types[i] {
                        ValueType::Tuple(t) => Ok(Value::Tuple(Tuple { ty: t, values: res })),
                        _ => Err(LiftError::InvalidType),
                    }
                },
                TypeDefKind::List(elem) => {
                    let elem = *elem;
                    let memory = match &cx.memory {
                        Some(m) => m,
                        None => return Err(LiftError::MissingMemory),
                    };
                    let mut none = TypeCursor::new(Vec::new());
                    let (base, len) = match <(i32, i32)>::load_flat(cx, &mut none, args) {
                        Ok(x) => x,
                        Err(e) => return Err(e),
                    };
                    let values = match load_elements(cx, memory, elem, base, len, Ghost(rank(ty))) {
                        Ok(vs) => vs,
                        Err(e) => return Err(e),
                    };
                    match cx.types[i] {
                        ValueType::List(l) => match element_type_of(cx, elem) {
                            Some(et) => Ok(Value::List(List { ty: l, element: et, values })),
                            None => Err(LiftError::Unsupported),
                        },
                        _ => Err(LiftError::InvalidType),
                    }
                },
                _ => Err(LiftError::Unsupported),
            }
        },
        _ => Err(LiftError::Unsupported),
    }
}

/// Values are lifted by their WIT type, which `load` and `load_flat` take
/// from the type cursor: `s32`, strings, and records, tuples and lists of
/// those. Inputs that cannot be lifted are answered with an error, never a
/// panic: no type left (`MissingType`), a type this crate does not lift
/// (`Unsupported`), a definition or table entry that is missing
/// (`UnknownType`) or of another kind (`InvalidType`), a list with no guest
/// memory to read its elements from (`MissingMemory`), and the memory and
/// argument errors of the members.
impl Lift for Value {
    open spec fn lifted(cx: &LiftContext, mem: Seq<u8>, tys: Seq<WitType>, ptr: int) -> Result<
        (ValueView, int, nat),
        LiftError,
    > {
        if tys.len() == 0 {
            Err(LiftError::MissingType)
        } else {
            match lift_type(cx, mem, tys[0], ptr) {
                Ok((v, p)) => Ok((v, p, 1)),
                Err(e) => Err(e),
            }
        }
    }

    open spec fn lifted_flat(cx: &LiftContext, tys: Seq<WitType>, args: Seq<FlatValue>) -> Result<
        (ValueView, nat, nat),
        LiftError,
    > {
        if tys.len() == 0 {
            Err(LiftError::MissingType)
        } else {
            match lift_flat_type(cx, tys[0], args) {
                Ok((v, m)) => Ok((v, 1, m)),
                Err(e) => Err(e),
            }
        }
    }

    fn load(cx: &LiftContext, memory: &GuestMemory, ty: &mut TypeCursor, ptr: usize) -> (r: Result<
        (Value, usize),
        LiftError,
    >) {
        match ty.next() {
            Some(t) => load_type(cx, memory, t, ptr),
            None => Err(LiftError::MissingType),
        }
    }

    fn load_flat(cx: &LiftContext, ty: &mut TypeCursor, args: &mut FlatArgs) -> (r: Result<
        Value,
        LiftError,
    >) {
        match ty.next() {
            Some(t) => load_flat_type(cx, t, args),
            None => Err(LiftError::MissingType),
        }
    }
}

} // verus!
