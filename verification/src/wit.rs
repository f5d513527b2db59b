//! The part of a WIT type resolution that lifting reads: value types and the
//! table of type definitions they refer to.

use vstd::prelude::*;

verus! {

/// A WIT type as it appears in a signature, a field or an element position.
/// `Id` names an entry of the definition table by its index.
#[derive(Clone, Copy, Debug, PartialEq, Eq)]
pub enum WitType {
    Bool,
    U8,
    U16,
    U32,
    U64,
    S8,
    S16,
    S32,
    S64,
    F32,
    F64,
    Char,
    String,
    ErrorContext,
    Id(usize),
}

/// A named field of a record definition.
#[derive(Debug)]
pub struct Field {
    pub name: String,
    pub ty: WitType,
}

/// The kind of a WIT type definition.
#[derive(Debug)]
pub enum TypeDefKind {
    Record(Vec<Field>),
    Resource,
    Handle,
    Flags,
    Tuple(Vec<WitType>),
    Variant,
    Enum,
    Option(WitType),
    Result,
    List(WitType),
    Future,
    Stream,
    Type(WitType),
    Unknown,
    /// A definition kind that this crate does not know.
    Other,
}

/// The rank of a type: 0 for a primitive, `i + 1` for a reference to
/// definition `i`. Definitions only refer to lower ranks.
pub open spec fn rank(ty: WitType) -> nat {
    match ty {
        WitType::Id(i) => i as nat + 1,
        _ => 0,
    }
}

/// Every type that definition `kind` mentions has rank at most `bound`.
pub open spec fn kind_refers_below(kind: TypeDefKind, bound: nat) -> bool {
    match kind {
        TypeDefKind::Record(fields) => forall|k: int|
            0 <= k < fields@.len() ==> rank(#[trigger] fields@[k].ty) <= bound,
        TypeDefKind::Tuple(types) => forall|k: int|
            0 <= k < types@.len() ==> rank(#[trigger] types@[k]) <= bound,
        TypeDefKind::Option(t) => rank(t) <= bound,
        TypeDefKind::List(t) => rank(t) <= bound,
        TypeDefKind::Type(t) => rank(t) <= bound,
        _ => true,
    }
}

/// The table of type definitions of a resolved WIT world.
#[derive(Debug)]
pub struct Resolve {
    pub types: Vec<TypeDefKind>,
}

impl Resolve {
    /// Definitions only refer to definitions that come before them.
    pub open spec fn wf(&self) -> bool {
        forall|i: int| 0 <= i < self.types@.len() ==> kind_refers_below(#[trigger] self.types@[i], i as nat)
    }
}

/// `rank(ty) <= bound`, computed.
fn rank_at_most(ty: WitType, bound: usize) -> (r: bool)
    ensures
        r == (rank(ty) <= bound),
{
    match ty {
        WitType::Id(i) => i < bound,
        _ => true,
    }
}

/// Whether every type that `kind` mentions has rank at most `bound`.
fn refers_below(kind: &TypeDefKind, bound: usize) -> (r: bool)
    ensures
        r == kind_refers_below(*kind, bound as nat),
{
    match kind {
        TypeDefKind::Record(fields) => {
            let mut k: usize = 0;
            while k < fields.len()
                invariant
                    *kind == TypeDefKind::Record(*fields),
                    k <= fields@.len(),
                    forall|j: int| 0 <= j < k ==> rank(#[trigger] fields@[j].ty) <= bound,
                decreases fields@.len() - k,
            {
                if !rank_at_most(fields[k].ty, bound) {
                    assert(!(rank(fields@[k as int].ty) <= bound));
                    return false;
                }
                k = k + 1;
            }
            true
        },
        TypeDefKind::Tuple(types) => {
            let mut k: usize = 0;
            while k < types.len()
                invariant
                    *kind == TypeDefKind::Tuple(*types),
                    k <= types@.len(),
                    forall|j: int| 0 <= j < k ==> rank(#[trigger] types@[j]) <= bound,
                decreases types@.len() - k,
            {
                let t = types[k];
                if !rank_at_most(t, bound) {
                    assert(t == types@[k as int]);
                    assert(!(rank(types@[k as int]) <= bound as nat));
                    assert(*kind is Tuple);
                    assert(kind->Tuple_0 == *types);
                    assert(!kind_refers_below(*kind, bound as nat));
                    return false;
                }
                k = k + 1;
            }
            true
        },
        TypeDefKind::Option(t) => rank_at_most(*t, bound),
        TypeDefKind::List(t) => rank_at_most(*t, bound),
        TypeDefKind::Type(t) => rank_at_most(*t, bound),
        _ => true,
    }
}

impl Resolve {
    /// Whether definitions only refer to definitions that come before them.
    pub fn is_ordered(&self) -> (r: bool)
        ensures
            r == self.wf(),
    {
        let mut i: usize = 0;
        while i < self.types.len()
            invariant
                i <= self.types@.len(),
                forall|j: int| 0 <= j < i ==> kind_refers_below(#[trigger] self.types@[j], j as nat),
            decreases self.types@.len() - i,
        {
            if !refers_below(&self.types[i], i) {
                return false;
            }
            i = i + 1;
        }
        true
    }
}

/// An iterator over types that can look at the next item without taking it.
pub trait PeekableIter {
    type Item;

    /// The items that are still to come, in order.
    spec fn remaining(&self) -> Seq<Self::Item>;

    /// Takes the next item.
    fn next(&mut self) -> (r: Option<Self::Item>)
        ensures
            old(self).remaining().len() == 0 ==> r is None && final(self).remaining() == old(self).remaining(),
            old(self).remaining().len() > 0 ==> r == Some(old(self).remaining()[0])
                && final(self).remaining() == old(self).remaining().drop_first(),
    ;

    /// Peeks the next item of the iterator.
    fn peek(&mut self) -> (r: Option<&Self::Item>)
        ensures
            final(self).remaining() == old(self).remaining(),
            old(self).remaining().len() == 0 ==> r is None,
            old(self).remaining().len() > 0 ==> r == Some(&old(self).remaining()[0]),
    ;
}

/// A cursor over a sequence of WIT types.
pub struct TypeCursor {
    types: Vec<WitType>,
    pos: usize,
}

impl TypeCursor {
    #[verifier::type_invariant]
    spec fn inv(self) -> bool {
        self.pos <= self.types@.len()
    }

    /// A cursor at the start of `types`.
    pub fn new(types: Vec<WitType>) -> (r: Self)
        ensures
            r.remaining() == types@,
    {
        let r = TypeCursor { types, pos: 0 };
        assert(r.types@.skip(0) =~= r.types@);
        r
    }

    /// A cursor over the single type `ty`.
    pub fn single(ty: WitType) -> (r: Self)
        ensures
            r.remaining() == seq![ty],
    {
        let mut types = Vec::new();
        types.push(ty);
        Self::new(types)
    }
}

impl PeekableIter for TypeCursor {
    type Item = WitType;

    closed spec fn remaining(&self) -> Seq<WitType> {
        self.types@.skip(self.pos as int)
    }

    fn next(&mut self) -> (r: Option<WitType>) {
        proof { use_type_invariant(&*self); }
        if self.pos < self.types.len() {
            let t = self.types[self.pos];
            self.pos = self.pos + 1;
            assert(self.types@.skip(self.pos as int) =~= old(self).remaining().drop_first());
            Some(t)
        } else {
            None
        }
    }

    fn peek(&mut self) -> (r: Option<&WitType>) {
        proof { use_type_invariant(&*self); }
        if self.pos < self.types.len() {
            Some(&self.types[self.pos])
        } else {
            None
        }
    }
}

} // verus!
