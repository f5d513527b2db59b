//! Lowering: writing component values into guest memory and into flat
//! argument lists.

use vstd::prelude::*;
use vstd::utf8::encode_utf8;
use vstd::string::StringSliceAdditionalSpecFns;
use crate::component_type::{value_type_align, value_type_size, ComponentType};
use crate::flat::FlatValue;
use crate::memory::{address, i32_le_bytes, in_bounds, splice, GuestMemory, MemoryError};
use crate::value::{lemma_views_of, view_of, views_of, Value, ValueType, ValueView};

verus! {

/// Why a value could not be lowered.
#[derive(Clone, Copy, Debug, PartialEq, Eq)]
pub enum LowerError {
    /// The value or its element type is not one that lowering handles.
    Unsupported,
    /// A write reaches outside guest memory.
    OutOfBounds,
    /// Guest memory is needed but not available.
    MissingMemory,
    /// The guest exports no allocation function.
    MissingRealloc,
    /// The guest has not yet answered this allocation request: ask its
    /// allocator for `size` bytes aligned to `align` and lower again with the
    /// answer added.
    NeedsAllocation { size: i32, align: i32 },
    /// A byte size does not fit in a guest `i32`.
    SizeOverflow,
}

/// The model of the guest allocator's answers: the pointers it returned, in
/// request order, and how many of them lowering has used.
pub struct AllocView {
    pub answers: Seq<i32>,
    pub used: nat,
}

/// The pointers that the guest's allocation function returned, in the order
/// in which lowering asked for them.
pub struct Realloc {
    answers: Vec<i32>,
    used: usize,
}

impl View for Realloc {
    type V = AllocView;

    closed spec fn view(&self) -> AllocView {
        AllocView { answers: self.answers@, used: self.used as nat }
    }
}

/// Taking the next allocator answer for a request of `size` bytes aligned to
/// `align`.
pub open spec fn alloc_step(a: Option<AllocView>, size: i32, align: i32) -> Result<
    (i32, Option<AllocView>),
    LowerError,
> {
    match a {
        None => Err(LowerError::MissingRealloc),
        Some(v) => if v.used < v.answers.len() {
            Ok((v.answers[v.used as int], Some(AllocView { answers: v.answers, used: v.used + 1 })))
        } else {
            Err(LowerError::NeedsAllocation { size, align })
        },
    }
}

impl Realloc {
    #[verifier::type_invariant]
    spec fn inv(self) -> bool {
        self.used <= self.answers@.len()
    }

    /// No answer used yet.
    pub fn new(answers: Vec<i32>) -> (r: Self)
        ensures
            r@.answers == answers@,
            r@.used == 0,
    {
        Realloc { answers, used: 0 }
    }

    /// How many answers lowering has used.
    pub fn used(&self) -> (r: usize)
        ensures
            r == self@.used,
    {
        self.used
    }

    /// All answers, used or not.
    pub fn into_answers(self) -> (r: Vec<i32>)
        ensures
            r@ == self@.answers,
    {
        self.answers
    }

    fn take_answer(&mut self, size: i32, align: i32) -> (r: Result<i32, LowerError>)
        ensures
            match alloc_step(Some(old(self)@), size, align) {
                Ok((p, a)) => r == Ok::<i32, LowerError>(p) && a == Some(final(self)@),
                Err(e) => r == Err::<i32, LowerError>(e) && final(self)@ == old(self)@,
            },
    {
        proof { use_type_invariant(&*self); }
        if self.used < self.answers.len() {
            let p = self.answers[self.used];
            self.used = self.used + 1;
            Ok(p)
        } else {
            Err(LowerError::NeedsAllocation { size, align })
        }
    }
}

/// The model of a lowering context.
pub struct LowerView {
    pub realloc: Option<AllocView>,
    pub memory: Option<Seq<u8>>,
}

/// Used when lowering into guest memory
pub struct LowerContext {
    /// The answers of the guest's allocation function, if it exports one.
    pub realloc: Option<Realloc>,
    /// The guest memory
    pub memory: Option<GuestMemory>,
}

/// The model of an optional allocator.
pub open spec fn alloc_view(r: Option<Realloc>) -> Option<AllocView> {
    match r {
        Some(x) => Some(x@),
        None => None,
    }
}

/// The model of an optional memory.
pub open spec fn memory_view(m: Option<GuestMemory>) -> Option<Seq<u8>> {
    match m {
        Some(x) => Some(x@),
        None => None,
    }
}

impl View for LowerContext {
    type V = LowerView;

    open spec fn view(&self) -> LowerView {
        LowerView { realloc: alloc_view(self.realloc), memory: memory_view(self.memory) }
    }
}

/// Asks the guest allocator for `size` bytes aligned to `align`.
pub fn alloc_list(cx: &mut LowerContext, size: i32, align: i32) -> (r: Result<i32, LowerError>)
    ensures
        match alloc_step(old(cx)@.realloc, size, align) {
            Ok((p, a)) => r == Ok::<i32, LowerError>(p) && final(cx)@.realloc == a,
            Err(e) => r == Err::<i32, LowerError>(e) && final(cx)@.realloc == old(cx)@.realloc,
        },
        final(cx).memory == old(cx).memory,
{
    match cx.realloc.take() {
        None => Err(LowerError::MissingRealloc),
        Some(mut r) => {
            let res = r.take_answer(size, align);
            cx.realloc = Some(r);
            res
        },
    }
}

/// Writing `v` at address `at`.
pub open spec fn write_i32_at(mem: Seq<u8>, at: int, v: i32) -> Result<Seq<u8>, LowerError> {
    if in_bounds(mem.len(), at, 4) {
        Ok(splice(mem, at, i32_le_bytes(v)))
    } else {
        Err(LowerError::OutOfBounds)
    }
}

/// Writing `bytes` at address `at`.
pub open spec fn write_bytes_at(mem: Seq<u8>, at: int, bytes: Seq<u8>) -> Result<Seq<u8>, LowerError> {
    if in_bounds(mem.len(), at, bytes.len() as int) {
        Ok(splice(mem, at, bytes))
    } else {
        Err(LowerError::OutOfBounds)
    }
}

/// An exec store result agrees with its specification.
pub open spec fn store_agrees(
    r: Result<usize, LowerError>,
    s: Result<(Option<AllocView>, Seq<u8>, int), LowerError>,
    cx_after: LowerView,
    cx_before: LowerView,
    mem_after: Seq<u8>,
) -> bool {
    match s {
        Ok((a, m, p)) => {
            &&& r matches Ok(q)
            &&& q == p
            &&& cx_after.realloc == a
            &&& mem_after == m
        },
        Err(e) => r == Err::<usize, LowerError>(e),
    }
}

/// An exec flat store result agrees with its specification.
pub open spec fn store_flat_agrees(
    r: Result<(), LowerError>,
    s: Result<(LowerView, Seq<FlatValue>), LowerError>,
    cx_after: LowerView,
    out_after: Seq<FlatValue>,
) -> bool {
    match s {
        Ok((c, out)) => {
            &&& r is Ok
            &&& cx_after == c
            &&& out_after == out
        },
        Err(e) => r == Err::<(), LowerError>(e),
    }
}

/// What storing one item does, as a function of its model, the allocator
/// state, the memory and the pointer.
pub type StoreStep<V> = spec_fn(V, Option<AllocView>, Seq<u8>, int) -> Result<
    (Option<AllocView>, Seq<u8>, int),
    LowerError,
>;

/// Storing the first `k` of `items` one after the other from `ptr`, each by
/// `step`.
pub open spec fn lowered_seq<V>(
    step: StoreStep<V>,
    items: Seq<V>,
    k: nat,
    a: Option<AllocView>,
    mem: Seq<u8>,
    ptr: int,
) -> Result<(Option<AllocView>, Seq<u8>, int), LowerError>
    decreases k,
{
    if k == 0 {
        Ok((a, mem, ptr))
    } else {
        match lowered_seq(step, items, (k - 1) as nat, a, mem, ptr) {
            Ok((a2, m2, p2)) => step(items[k - 1], a2, m2, p2),
            Err(e) => Err(e),
        }
    }
}

/// The models of a sequence of host values.
pub open spec fn models<T: View>(items: Seq<T>) -> Seq<T::V> {
    items.map_values(|x: T| x@)
}

/// Converts a value from the host to the guest
pub trait Lower: ComponentType + View + Sized {
    /// What storing the value with model `v` at `ptr` does: the allocator
    /// state and memory afterwards, and the pointer past what was written.
    spec fn lowered(v: Self::V, a: Option<AllocView>, mem: Seq<u8>, ptr: int) -> Result<
        (Option<AllocView>, Seq<u8>, int),
        LowerError,
    >;

    /// What lowering the value with model `v` into flat values does: the
    /// context afterwards and the flat values after those in `out`.
    spec fn lowered_flat(v: Self::V, cx: LowerView, out: Seq<FlatValue>) -> Result<
        (LowerView, Seq<FlatValue>),
        LowerError,
    >;

    /// Lower the value to guest memory
    ///
    /// Returns a new pointer to the end of the written bytes.
    fn store(&self, cx: &mut LowerContext, memory: &mut GuestMemory, dst_ptr: usize) -> (r: Result<
        usize,
        LowerError,
    >)
        ensures
            store_agrees(
                r,
                Self::lowered(self@, old(cx)@.realloc, old(memory)@, dst_ptr as int),
                final(cx)@,
                old(cx)@,
                final(memory)@,
            ),
            final(cx).memory == old(cx).memory,
    ;

    /// Lower into guest function arguments
    fn store_flat(&self, cx: &mut LowerContext, dst: &mut Vec<FlatValue>) -> (r: Result<
        (),
        LowerError,
    >)
        ensures
            store_flat_agrees(
                r,
                Self::lowered_flat(self@, old(cx)@, old(dst)@),
                final(cx)@,
                final(dst)@,
            ),
    ;

    /// Stores a list of values.
    ///
    /// Has a default implementation but allows for specialization.
    fn store_list(items: &[Self], cx: &mut LowerContext, memory: &mut GuestMemory, dst_ptr: usize) -> (r: Result<
        usize,
        LowerError,
    >)
        ensures
            store_agrees(
                r,
                lowered_seq(
                    |item: Self::V, alloc: Option<AllocView>, bytes: Seq<u8>, at: int|
                        Self::lowered(item, alloc, bytes, at),
                    models(items@),
                    items@.len(),
                    old(cx)@.realloc,
                    old(memory)@,
                    dst_ptr as int,
                ),
                final(cx)@,
                old(cx)@,
                final(memory)@,
            ),
            final(cx).memory == old(cx).memory,
    {
        let ghost start = dst_ptr as int;
        let ghost step = |item: Self::V, alloc: Option<AllocView>, bytes: Seq<u8>, at: int| Self::lowered(item, alloc, bytes, at);
        let ghost views = models(items@);
        let mut ptr = dst_ptr;
        let mut k: usize = 0;
        while k < items.len()
            invariant
                k <= items@.len(),
                views == models(items@),
                start == dst_ptr as int,
                cx.memory == old(cx).memory,
                step == (|item: Self::V, alloc: Option<AllocView>, bytes: Seq<u8>, at: int| Self::lowered(item, alloc, bytes, at)),
                lowered_seq(step, views, k as nat, old(cx)@.realloc, old(memory)@, start) == Ok::<
                    (Option<AllocView>, Seq<u8>, int),
                    LowerError,
                >((cx@.realloc, memory@, ptr as int)),
            decreases items@.len() - k,
        {
            assert(views[k as int] == items@[k as int]@);
            let ghost a0 = cx@.realloc;
            let ghost m0 = memory@;
            let ghost p0 = ptr as int;
            ptr = match items[k].store(cx, memory, ptr) {
                Ok(p) => p,
                Err(e) => {
                    proof {
                        assert(Self::lowered(views[k as int], a0, m0, p0) == Err::<(Option<AllocView>, Seq<u8>, int), LowerError>(e));
                        assert(lowered_seq(step, views, (k + 1) as nat, old(cx)@.realloc, old(memory)@, start)
                            == Err::<(Option<AllocView>, Seq<u8>, int), LowerError>(e));
                        lemma_lowered_seq_error_persists(
                            step,
                            views,
                            (k + 1) as nat,
                            items@.len(),
                            old(cx)@.realloc,
                            old(memory)@,
                            start,
                        );
                    }
                    return Err(e);
                },
            };
            k = k + 1;
        }
        Ok(ptr)
    }
}

/// Once storing a prefix fails, storing any longer prefix fails the same way.
proof fn lemma_lowered_seq_error_persists<V>(
    step: StoreStep<V>,
    items: Seq<V>,
    k: nat,
    k2: nat,
    a: Option<AllocView>,
    mem: Seq<u8>,
    ptr: int,
)
    requires
        k <= k2,
        lowered_seq(step, items, k, a, mem, ptr) is Err,
    ensures
        lowered_seq(step, items, k2, a, mem, ptr) == lowered_seq(step, items, k, a, mem, ptr),
    decreases k2,
{
    if k2 > k {
        lemma_lowered_seq_error_persists(step, items, k, (k2 - 1) as nat, a, mem, ptr);
    }
}


fn memory_error(e: MemoryError) -> (r: LowerError)
    ensures
        r == LowerError::OutOfBounds,
{
    match e {
        MemoryError::OutOfBounds => LowerError::OutOfBounds,
    }
}

impl Lower for i32 {
    open spec fn lowered(v: i32, a: Option<AllocView>, mem: Seq<u8>, ptr: int) -> Result<
        (Option<AllocView>, Seq<u8>, int),
        LowerError,
    > {
        match write_i32_at(mem, ptr, v) {
            Ok(m) => Ok((a, m, ptr + 4)),
            Err(e) => Err(e),
        }
    }

    open spec fn lowered_flat(v: i32, cx: LowerView, out: Seq<FlatValue>) -> Result<
        (LowerView, Seq<FlatValue>),
        LowerError,
    > {
        Ok((cx, out.push(FlatValue::I32(v))))
    }

    fn store(&self, cx: &mut LowerContext, memory: &mut GuestMemory, dst_ptr: usize) -> (r: Result<
        usize,
        LowerError,
    >) {
        proof { memory.lemma_size_fits(); }
        match memory.write_i32(dst_ptr, *self) {
            Ok(()) => Ok(dst_ptr + 4),
            Err(e) => Err(memory_error(e)),
        }
    }

    fn store_flat(&self, cx: &mut LowerContext, dst: &mut Vec<FlatValue>) -> (r: Result<
        (),
        LowerError,
    >) {
        dst.push(FlatValue::I32(*self));
        Ok(())
    }
}

impl<A: Lower, B: Lower> Lower for (A, B) {
    open spec fn lowered(v: (A::V, B::V), a: Option<AllocView>, mem: Seq<u8>, ptr: int) -> Result<
        (Option<AllocView>, Seq<u8>, int),
        LowerError,
    > {
        match A::lowered(v.0, a, mem, ptr) {
            Ok((a2, m2, p)) => B::lowered(v.1, a2, m2, p),
            Err(e) => Err(e),
        }
    }

    open spec fn lowered_flat(v: (A::V, B::V), cx: LowerView, out: Seq<FlatValue>) -> Result<
        (LowerView, Seq<FlatValue>),
        LowerError,
    > {
        match A::lowered_flat(v.0, cx, out) {
            Ok((c2, o2)) => B::lowered_flat(v.1, c2, o2),
            Err(e) => Err(e),
        }
    }

    fn store(&self, cx: &mut LowerContext, memory: &mut GuestMemory, dst_ptr: usize) -> (r: Result<
        usize,
        LowerError,
    >) {
        let ptr = match self.0.store(cx, memory, dst_ptr) {
            Ok(p) => p,
            Err(e) => return Err(e),
        };
        self.1.store(cx, memory, ptr)
    }

    fn store_flat(&self, cx: &mut LowerContext, dst: &mut Vec<FlatValue>) -> (r: Result<
        (),
        LowerError,
    >) {
        match self.0.store_flat(cx, dst) {
            Ok(()) => {},
            Err(e) => return Err(e),
        }
        self.1.store_flat(cx, dst)
    }
}


/// Writes `bytes` at guest address `addr`.
fn write_guest_bytes(memory: &mut GuestMemory, addr: i32, bytes: &[u8]) -> (r: Result<(), LowerError>)
    ensures
        match write_bytes_at(old(memory)@, address(addr), bytes@) {
            Ok(m) => r is Ok && final(memory)@ == m,
            Err(e) => r == Err::<(), LowerError>(e),
        },
{
    match memory.write(addr as usize, bytes) {
        Ok(()) => Ok(()),
        Err(e) => Err(memory_error(e)),
    }
}

impl Lower for String {
    open spec fn lowered(v: Seq<char>, a: Option<AllocView>, mem: Seq<u8>, ptr: int) -> Result<
        (Option<AllocView>, Seq<u8>, int),
        LowerError,
    > {
        let bytes = encode_utf8(v);
        if bytes.len() > i32::MAX {
            Err(LowerError::SizeOverflow)
        } else {
            match alloc_step(a, bytes.len() as i32, 1) {
                Ok((addr, a2)) => match write_bytes_at(mem, address(addr), bytes) {
                    Ok(m2) => <(i32, i32)>::lowered((addr, bytes.len() as i32), a2, m2, ptr),
                    Err(e) => Err(e),
                },
                Err(e) => Err(e),
            }
        }
    }

    open spec fn lowered_flat(v: Seq<char>, cx: LowerView, out: Seq<FlatValue>) -> Result<
        (LowerView, Seq<FlatValue>),
        LowerError,
    > {
        let bytes = encode_utf8(v);
        if bytes.len() > i32::MAX {
            Err(LowerError::SizeOverflow)
        } else {
            match cx.memory {
                None => Err(LowerError::MissingMemory),
                Some(mem) => match alloc_step(cx.realloc, bytes.len() as i32, 1) {
                    Ok((addr, a2)) => match write_bytes_at(mem, address(addr), bytes) {
                        Ok(m2) => Ok(
                            (
                                LowerView { realloc: a2, memory: Some(m2) },
                                out.push(FlatValue::I32(addr)).push(FlatValue::I32(bytes.len() as i32)),
                            ),
                        ),
                        Err(e) => Err(e),
                    },
                    Err(e) => Err(e),
                },
            }
        }
    }

    fn store(&self, cx: &mut LowerContext, memory: &mut GuestMemory, dst_ptr: usize) -> (r: Result<
        usize,
        LowerError,
    >) {
        let bytes: &[u8] = self.as_str().as_bytes();
        let len = bytes.len();
        if len > 0x7fff_ffffusize {
            return Err(LowerError::SizeOverflow);
        }
        let addr = match alloc_list(cx, len as i32, 1) {
            Ok(p) => p,
            Err(e) => return Err(e),
        };
        match write_guest_bytes(memory, addr, bytes) {
            Ok(()) => {},
            Err(e) => return Err(e),
        }
        (addr, len as i32).store(cx, memory, dst_ptr)
    }

    fn store_flat(&self, cx: &mut LowerContext, dst: &mut Vec<FlatValue>) -> (r: Result<
        (),
        LowerError,
    >) {
        let bytes: &[u8] = self.as_str().as_bytes();
        let len = bytes.len();
        if len > 0x7fff_ffffusize {
            return Err(LowerError::SizeOverflow);
        }
        let mut memory = match cx.memory.take() {
            Some(m) => m,
            None => return Err(LowerError::MissingMemory),
        };
        let addr = match alloc_list(cx, len as i32, 1) {
            Ok(p) => p,
            Err(e) => {
                cx.memory = Some(memory);
                return Err(e);
            },
        };
        match write_guest_bytes(&mut memory, addr, bytes) {
            Ok(()) => {},
            Err(e) => {
                cx.memory = Some(memory);
                return Err(e);
            },
        }
        cx.memory = Some(memory);
        dst.push(FlatValue::I32(addr));
        dst.push(FlatValue::I32(len as i32));
        Ok(())
    }
}


/// Storing by two step functions that agree everywhere gives the same result.
proof fn lemma_lowered_seq_same_step<V>(
    f: StoreStep<V>,
    g: StoreStep<V>,
    items: Seq<V>,
    k: nat,
    a: Option<AllocView>,
    mem: Seq<u8>,
    ptr: int,
)
    requires
        forall|v: V, a1: Option<AllocView>, m1: Seq<u8>, p1: int| #[trigger] f(v, a1, m1, p1) == g(v, a1, m1, p1),
    ensures
        lowered_seq(f, items, k, a, mem, ptr) == lowered_seq(g, items, k, a, mem, ptr),
    decreases k,
{
    if k > 0 {
        lemma_lowered_seq_same_step(f, g, items, (k - 1) as nat, a, mem, ptr);
    }
}

/// Storing an `i32` as a step function.
pub open spec fn i32_step() -> StoreStep<i32> {
    |item: i32, alloc: Option<AllocView>, bytes: Seq<u8>, at: int| <i32 as Lower>::lowered(item, alloc, bytes, at)
}

/// Storing a value as a step function.
pub open spec fn value_step() -> StoreStep<ValueView> {
    |item: ValueView, alloc: Option<AllocView>, bytes: Seq<u8>, at: int| <Value as Lower>::lowered(item, alloc, bytes, at)
}

/// The `i32`s of a list whose elements are all `s32` values.
pub open spec fn s32_items(values: Seq<ValueView>) -> Option<Seq<i32>> {
    if forall|i: int| 0 <= i < values.len() ==> #[trigger] values[i] is S32 {
        Some(Seq::new(values.len(), |i: int| values[i]->S32_0))
    } else {
        None
    }
}

/// The element types whose lists the host holds in a representation of their
/// own.
pub open spec fn has_specialized_list(ty: ValueType) -> bool {
    match ty {
        ValueType::Bool | ValueType::S8 | ValueType::U8 | ValueType::S16 | ValueType::U16
        | ValueType::S32 | ValueType::U32 | ValueType::S64 | ValueType::U64 | ValueType::F32
        | ValueType::F64 | ValueType::Char => true,
        _ => false,
    }
}

/// The byte size of `len` elements of type `element`, as a guest size.
pub open spec fn list_bytes(element: ValueType, len: nat) -> Result<i32, LowerError> {
    if !element.has_layout() {
        Err(LowerError::Unsupported)
    } else if value_type_size(element) * len > i32::MAX {
        Err(LowerError::SizeOverflow)
    } else {
        Ok((value_type_size(element) * len) as i32)
    }
}

/// Storing the elements of a list into memory, for [`Value::store`]: only
/// lists of `s32` are handled.
pub open spec fn stored_elements(
    element: ValueType,
    values: Seq<ValueView>,
    a: Option<AllocView>,
    mem: Seq<u8>,
    at: int,
) -> Result<(Option<AllocView>, Seq<u8>, int), LowerError> {
    if element == ValueType::S32 {
        match s32_items(values) {
            Some(xs) => lowered_seq(i32_step(), xs, xs.len(), a, mem, at),
            None => Err(LowerError::Unsupported),
        }
    } else {
        Err(LowerError::Unsupported)
    }
}

/// Storing the elements of a list into memory, for [`Value::store_flat`]:
/// lists of `s32`, and lists whose elements the host holds as values.
pub open spec fn stored_elements_flat(
    element: ValueType,
    values: Seq<ValueView>,
    a: Option<AllocView>,
    mem: Seq<u8>,
    at: int,
) -> Result<(Option<AllocView>, Seq<u8>, int), LowerError> {
    if element == ValueType::S32 {
        match s32_items(values) {
            Some(xs) => lowered_seq(i32_step(), xs, xs.len(), a, mem, at),
            None => Err(LowerError::Unsupported),
        }
    } else if has_specialized_list(element) {
        Err(LowerError::Unsupported)
    } else {
        lowered_seq(value_step(), values, values.len(), a, mem, at)
    }
}

/// The byte size of a list of `len` elements of type `element`.
fn list_byte_size(element: ValueType, len: usize) -> (r: Result<i32, LowerError>)
    ensures
        r == list_bytes(element, len as nat),
{
    if !element.has_known_layout() {
        return Err(LowerError::Unsupported);
    }
    match element.size().checked_mul(len) {
        Some(n) => if n > 0x7fff_ffffusize {
            Err(LowerError::SizeOverflow)
        } else {
            Ok(n as i32)
        },
        None => Err(LowerError::SizeOverflow),
    }
}

/// The `i32`s of `values`, if all of them are `s32` values.
fn typed_i32(values: &Vec<Value>) -> (r: Option<Vec<i32>>)
    ensures
        match s32_items(views_of(values@)) {
            Some(xs) => r matches Some(v) && v@ == xs,
            None => r is None,
        },
{
    proof { lemma_views_of(values@); }
    let ghost views = views_of(values@);
    let mut out: Vec<i32> = Vec::new();
    let mut k: usize = 0;
    while k < values.len()
        invariant
            k <= values@.len(),
            views == views_of(values@),
            views.len() == values@.len(),
            forall|i: int| 0 <= i < values@.len() ==> #[trigger] views[i] == view_of(values@[i]),
            forall|i: int| 0 <= i < k ==> #[trigger] views[i] is S32,
            out@ == Seq::new(k as nat, |i: int| views[i]->S32_0),
        decreases values@.len() - k,
    {
        match &values[k] {
            Value::S32(x) => {
                out.push(*x);
                k = k + 1;
                assert(out@ =~= Seq::new(k as nat, |i: int| views[i]->S32_0));
            },
            _ => {
                assert(!(views[k as int] is S32));
                return None;
            },
        }
    }
    assert(out@ =~= Seq::new(views.len(), |i: int| views[i]->S32_0));
    Some(out)
}


/// Values are lowered into memory when they are `s32`, strings or lists of
/// `s32`; into flat values also when they are lists whose elements are
/// lowered one by one as values (strings, lists). A list's element block is
/// requested from the guest's allocator with the element type's size times
/// the length and the element type's alignment. Inputs that cannot be
/// lowered are answered with an error, never a panic: a value or element
/// type this crate does not lower (`Unsupported`; for a list whose element
/// type has a layout, after its block was allocated, as the allocation
/// comes first), no guest memory for a list's elements (`MissingMemory`), a
/// block size past `i32::MAX` (`SizeOverflow`), and the allocator and memory
/// errors of the members.
impl Lower for Value {
    open spec fn lowered(v: ValueView, a: Option<AllocView>, mem: Seq<u8>, ptr: int) -> Result<
        (Option<AllocView>, Seq<u8>, int),
        LowerError,
    > {
        match v {
            ValueView::S32(x) => <i32 as Lower>::lowered(x, a, mem, ptr),
            ValueView::String(s) => <String as Lower>::lowered(s, a, mem, ptr),
            ValueView::List { element, values, .. } => match list_bytes(element, values.len()) {
                Ok(size) => match alloc_step(a, size, value_type_align(element) as i32) {
                    Ok((addr, a2)) => match stored_elements(element, values, a2, mem, address(addr)) {
                        Ok((a3, m3, _)) => <(i32, i32)>::lowered((addr, values.len() as i32), a3, m3, ptr),
                        Err(e) => Err(e),
                    },
                    Err(e) => Err(e),
                },
                Err(e) => Err(e),
            },
            _ => Err(LowerError::Unsupported),
        }
    }

    open spec fn lowered_flat(v: ValueView, cx: LowerView, out: Seq<FlatValue>) -> Result<
        (LowerView, Seq<FlatValue>),
        LowerError,
    > {
        match v {
            ValueView::S32(x) => <i32 as Lower>::lowered_flat(x, cx, out),
            ValueView::String(s) => <String as Lower>::lowered_flat(s, cx, out),
            ValueView::List { element, values, .. } => match list_bytes(element, values.len()) {
                Ok(size) => match cx.memory {
                    Some(mem) => match alloc_step(cx.realloc, size, value_type_align(element) as i32) {
                        Ok((addr, a2)) => match stored_elements_flat(element, values, a2, mem, address(addr)) {
                            Ok((a3, m3, _)) => Ok(
                                (
                                    LowerView { realloc: a3, memory: Some(m3) },
                                    out.push(FlatValue::I32(addr)).push(FlatValue::I32(values.len() as i32)),
                                ),
                            ),
                            Err(e) => Err(e),
                        },
                        Err(e) => Err(e),
                    },
                    None => Err(LowerError::MissingMemory),
                },
                Err(e) => Err(e),
            },
            _ => Err(LowerError::Unsupported),
        }
    }

    fn store(&self, cx: &mut LowerContext, memory: &mut GuestMemory, ptr: usize) -> (r: Result<
        usize,
        LowerError,
    >) {
        match self {
            Value::S32(v) => v.store(cx, memory, ptr),
            Value::String(v) => v.store(cx, memory, ptr),
            Value::List(v) => {
                proof { lemma_views_of(v.values@); }
                let element_ty = v.element;
                let len = v.values.len();
                let size = match list_byte_size(element_ty, len) {
                    Ok(n) => n,
                    Err(e) => return Err(e),
                };
                assert(len <= size) by (nonlinear_arith)
                    requires
                        size == value_type_size(element_ty) * len,
                        value_type_size(element_ty) >= 1,
                ;
                let elem_align = element_ty.align();
                let dst_ptr = match alloc_list(cx, size, elem_align as i32) {
                    Ok(p) => p,
                    Err(e) => return Err(e),
                };
                match element_ty {
                    ValueType::S32 => {
                        let xs = match typed_i32(&v.values) {
                            Some(xs) => xs,
                            None => return Err(LowerError::Unsupported),
                        };
                        let ghost a2 = cx@.realloc;
                        let ghost m2 = memory@;
                        let stored = i32::store_list(xs.as_slice(), cx, memory, dst_ptr as usize);
                        proof {
                            assert(models(xs@) =~= xs@);
                            lemma_lowered_seq_same_step(
                                |item: i32, alloc: Option<AllocView>, bytes: Seq<u8>, at: int| <i32 as Lower>::lowered(item, alloc, bytes, at),
                                i32_step(),
                                xs@,
                                xs@.len(),
                                a2,
                                m2,
                                address(dst_ptr),
                            );
                        }
                        match stored {
                            Ok(_) => {},
                            Err(e) => return Err(e),
                        }
                    },
                    _ => return Err(LowerError::Unsupported),
                }
                (dst_ptr, len as i32).store(cx, memory, ptr)
            },
            _ => Err(LowerError::Unsupported),
        }
    }

    fn store_flat(&self, cx: &mut LowerContext, dst: &mut Vec<FlatValue>) -> (r: Result<
        (),
        LowerError,
    >) {
        match self {
            Value::S32(v) => v.store_flat(cx, dst),
            Value::String(v) => v.store_flat(cx, dst),
            Value::List(v) => {
                proof { lemma_views_of(v.values@); }
                let element_ty = v.element;
                let len = v.values.len();
                let size = match list_byte_size(element_ty, len) {
                    Ok(n) => n,
                    Err(e) => return Err(e),
                };
                assert(len <= size) by (nonlinear_arith)
                    requires
                        size == value_type_size(element_ty) * len,
                        value_type_size(element_ty) >= 1,
                ;
                let mut memory = match cx.memory.take() {
                    Some(m) => m,
                    None => return Err(LowerError::MissingMemory),
                };
                let elem_align = element_ty.align();
                let dst_ptr = match alloc_list(cx, size, elem_align as i32) {
                    Ok(p) => p,
                    Err(e) => {
                        cx.memory = Some(memory);
                        return Err(e);
                    },
                };
                let ghost a2 = cx@.realloc;
                let ghost m2 = memory@;
                let stored = match element_ty {
                    ValueType::S32 => match typed_i32(&v.values) {
                        Some(xs) => {
                            let res = i32::store_list(xs.as_slice(), cx, &mut memory, dst_ptr as usize);
                            proof {
                                assert(models(xs@) =~= xs@);
                                lemma_lowered_seq_same_step(
                                    |item: i32, alloc: Option<AllocView>, bytes: Seq<u8>, at: int| <i32 as Lower>::lowered(item, alloc, bytes, at),
                                    i32_step(),
                                    xs@,
                                    xs@.len(),
                                    a2,
                                    m2,
                                    address(dst_ptr),
                                );
                            }
                            res
                        },
                        None => Err(LowerError::Unsupported),
                    },
                    ValueType::Bool | ValueType::S8 | ValueType::U8 | ValueType::S16 | ValueType::U16
                    | ValueType::U32 | ValueType::S64 | ValueType::U64 | ValueType::F32 | ValueType::F64
                    | ValueType::Char => Err(LowerError::Unsupported),
                    _ => {
                        let res = Value::store_list(v.values.as_slice(), cx, &mut memory, dst_ptr as usize);
                        proof {
                            assert(models(v.values@) =~= views_of(v.values@));
                            lemma_lowered_seq_same_step(
                                |item: ValueView, alloc: Option<AllocView>, bytes: Seq<u8>, at: int| <Value as Lower>::lowered(item, alloc, bytes, at),
                                value_step(),
                                views_of(v.values@),
                                v.values@.len(),
                                a2,
                                m2,
                                address(dst_ptr),
                            );
                        }
                        res
                    },
                };
                cx.memory = Some(memory);
                match stored {
                    Ok(_) => {},
                    Err(e) => return Err(e),
                }
                dst.push(FlatValue::I32(dst_ptr));
                dst.push(FlatValue::I32(len as i32));
                Ok(())
            },
            _ => Err(LowerError::Unsupported),
        }
    }
}

} // verus!
