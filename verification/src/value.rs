//! Host-side component values, their types, and their mathematical model.

use vstd::prelude::*;

verus! {

/// The type of a component value. Composite types name the WIT definition
/// they come from by its index in the definition table.
#[derive(Clone, Copy, Debug, PartialEq, Eq)]
pub enum ValueType {
    Bool,
    S8,
    U8,
    S16,
    U16,
    S32,
    U32,
    S64,
    U64,
    F32,
    F64,
    Char,
    String,
    List(usize),
    Record(usize),
    Tuple(usize),
    Variant(usize),
    Enum(usize),
    Option(usize),
    Result(usize),
    Flags(usize),
    Own(usize),
    Borrow(usize),
}

/// A component value held by the host.
#[derive(Debug, PartialEq)]
pub enum Value {
    Bool(bool),
    S8(i8),
    U8(u8),
    S16(i16),
    U16(u16),
    S32(i32),
    U32(u32),
    S64(i64),
    U64(u64),
    Char(char),
    String(String),
    List(List),
    Record(Record),
    Tuple(Tuple),
}

/// A list value: the list type, the type of its elements, and the elements.
#[derive(Debug, PartialEq)]
pub struct List {
    pub ty: usize,
    pub element: ValueType,
    pub values: Vec<Value>,
}

/// A record value: the record type and its named fields in order.
#[derive(Debug, PartialEq)]
pub struct Record {
    pub ty: usize,
    pub fields: Vec<(String, Value)>,
}

/// A tuple value: the tuple type and its members in order.
#[derive(Debug, PartialEq)]
pub struct Tuple {
    pub ty: usize,
    pub values: Vec<Value>,
}

/// The mathematical model of a [`Value`].
pub enum ValueView {
    Bool(bool),
    S8(i8),
    U8(u8),
    S16(i16),
    U16(u16),
    S32(i32),
    U32(u32),
    S64(i64),
    U64(u64),
    Char(char),
    String(Seq<char>),
    List { ty: usize, element: ValueType, values: Seq<ValueView> },
    Record { ty: usize, fields: Seq<(Seq<char>, ValueView)> },
    Tuple { ty: usize, values: Seq<ValueView> },
}

/// The models of a sequence of values.
pub open spec fn views_of(s: Seq<Value>) -> Seq<ValueView>
    decreases s,
{
    if s.len() == 0 {
        Seq::empty()
    } else {
        views_of(s.drop_last()).push(view_of(s.last()))
    }
}

/// The models of a sequence of named values.
pub open spec fn field_views_of(s: Seq<(String, Value)>) -> Seq<(Seq<char>, ValueView)>
    decreases s,
{
    if s.len() == 0 {
        Seq::empty()
    } else {
        field_views_of(s.drop_last()).push((s.last().0@, view_of(s.last().1)))
    }
}

/// The model of a value.
pub open spec fn view_of(v: Value) -> ValueView
    decreases v,
{
    match v {
        Value::Bool(b) => ValueView::Bool(b),
        Value::S8(x) => ValueView::S8(x),
        Value::U8(x) => ValueView::U8(x),
        Value::S16(x) => ValueView::S16(x),
        Value::U16(x) => ValueView::U16(x),
        Value::S32(x) => ValueView::S32(x),
        Value::U32(x) => ValueView::U32(x),
        Value::S64(x) => ValueView::S64(x),
        Value::U64(x) => ValueView::U64(x),
        Value::Char(c) => ValueView::Char(c),
        Value::String(s) => ValueView::String(s@),
        Value::List(l) => ValueView::List { ty: l.ty, element: l.element, values: views_of(l.values@) },
        Value::Record(r) => ValueView::Record { ty: r.ty, fields: field_views_of(r.fields@) },
        Value::Tuple(t) => ValueView::Tuple { ty: t.ty, values: views_of(t.values@) },
    }
}

impl View for Value {
    type V = ValueView;

    open spec fn view(&self) -> ValueView {
        view_of(*self)
    }
}

/// Appending a value appends its model.
pub proof fn lemma_views_of_push(s: Seq<Value>, v: Value)
    ensures
        views_of(s.push(v)) == views_of(s).push(view_of(v)),
{
    assert(s.push(v).drop_last() =~= s);
}

/// Appending a named value appends its model.
pub proof fn lemma_field_views_of_push(s: Seq<(String, Value)>, f: (String, Value))
    ensures
        field_views_of(s.push(f)) == field_views_of(s).push((f.0@, view_of(f.1))),
{
    assert(s.push(f).drop_last() =~= s);
}

/// The models of a sequence of values, element by element.
pub proof fn lemma_views_of(s: Seq<Value>)
    ensures
        views_of(s).len() == s.len(),
        forall|i: int| 0 <= i < s.len() ==> #[trigger] views_of(s)[i] == view_of(s[i]),
    decreases s.len(),
{
    if s.len() > 0 {
        lemma_views_of(s.drop_last());
        assert forall|i: int| 0 <= i < s.len() implies #[trigger] views_of(s)[i] == view_of(s[i]) by {
            if i < s.len() - 1 {
                assert(s.drop_last()[i] == s[i]);
            }
        }
    }
}

} // verus!
