use wasm_component_layer::{
    Field, FlatArgs, FlatValue, GuestMemory, Lift, LiftContext, LiftError, List, PeekableIter, Record,
    Resolve, Tuple, TypeCursor, TypeDefKind, Value, ValueType, WitType,
};

fn memory_with(writes: &[(usize, &[u8])], size: usize) -> GuestMemory {
    let mut bytes = vec![0u8; size];
    for (at, data) in writes {
        bytes[*at..*at + data.len()].copy_from_slice(data);
    }
    GuestMemory::new(bytes)
}

fn context(types: Vec<TypeDefKind>, table: Vec<ValueType>, memory: Option<GuestMemory>) -> LiftContext {
    LiftContext { resolve: Resolve { types }, types: table, memory }
}

fn le(v: i32) -> [u8; 4] {
    v.to_le_bytes()
}

#[test]
fn i32_load_reads_little_endian() {
    let cx = context(vec![], vec![], None);
    let mem = memory_with(&[(4, &[0x04, 0x03, 0x02, 0x01])], 16);
    let mut ty = TypeCursor::new(vec![]);
    assert_eq!(i32::load(&cx, &mem, &mut ty, 4), Ok((0x01020304, 8)));
}

#[test]
fn i32_load_out_of_bounds() {
    let cx = context(vec![], vec![], None);
    let mem = memory_with(&[], 8);
    let mut ty = TypeCursor::new(vec![]);
    assert_eq!(i32::load(&cx, &mem, &mut ty, 5), Err(LiftError::OutOfBounds));
    assert_eq!(i32::load(&cx, &mem, &mut ty, 4), Ok((0, 8)));
}

#[test]
fn pair_load_reads_two_i32s() {
    let cx = context(vec![], vec![], None);
    let mem = memory_with(&[(0, &le(-1)), (4, &le(9))], 8);
    let mut ty = TypeCursor::new(vec![]);
    assert_eq!(<(i32, i32)>::load(&cx, &mem, &mut ty, 0), Ok(((-1, 9), 8)));
}

#[test]
fn string_load_decodes_utf8() {
    let cx = context(vec![], vec![], None);
    let text = "héllo".as_bytes();
    let mem = memory_with(&[(0, &le(16)), (4, &le(text.len() as i32)), (16, text)], 32);
    let mut ty = TypeCursor::new(vec![]);
    assert_eq!(String::load(&cx, &mem, &mut ty, 0), Ok((String::from("héllo"), 8)));
}

#[test]
fn string_load_rejects_invalid_utf8() {
    let cx = context(vec![], vec![], None);
    let mem = memory_with(&[(0, &le(16)), (4, &le(2)), (16, &[0xff, 0xfe])], 32);
    let mut ty = TypeCursor::new(vec![]);
    assert_eq!(String::load(&cx, &mem, &mut ty, 0), Err(LiftError::InvalidUtf8));
}

#[test]
fn string_load_rejects_bytes_past_the_end() {
    let cx = context(vec![], vec![], None);
    let mem = memory_with(&[(0, &le(30)), (4, &le(4))], 32);
    let mut ty = TypeCursor::new(vec![]);
    assert_eq!(String::load(&cx, &mem, &mut ty, 0), Err(LiftError::OutOfBounds));
    let mem = memory_with(&[(0, &le(0)), (4, &le(-1))], 32);
    assert_eq!(String::load(&cx, &mem, &mut ty, 0), Err(LiftError::OutOfBounds));
}

#[test]
fn value_load_takes_one_type() {
    let cx = context(vec![], vec![], None);
    let mem = memory_with(&[(0, &le(42))], 8);
    let mut ty = TypeCursor::new(vec![WitType::S32, WitType::String]);
    assert_eq!(Value::load(&cx, &mem, &mut ty, 0), Ok((Value::S32(42), 4)));
    assert_eq!(ty.peek(), Some(&WitType::String));
    assert_eq!(ty.next(), Some(WitType::String));
    assert_eq!(ty.next(), None);
}

#[test]
fn value_load_without_a_type() {
    let cx = context(vec![], vec![], None);
    let mem = memory_with(&[], 8);
    let mut ty = TypeCursor::new(vec![]);
    assert_eq!(Value::load(&cx, &mem, &mut ty, 0), Err(LiftError::MissingType));
}

#[test]
fn value_load_unsupported_primitive() {
    let cx = context(vec![], vec![], None);
    let mem = memory_with(&[], 8);
    let mut ty = TypeCursor::single(WitType::Bool);
    assert_eq!(Value::load(&cx, &mem, &mut ty, 0), Err(LiftError::Unsupported));
}

#[test]
fn value_load_record_fields_in_order() {
    let point = TypeDefKind::Record(vec![
        Field { name: String::from("x"), ty: WitType::S32 },
        Field { name: String::from("y"), ty: WitType::S32 },
    ]);
    let cx = context(vec![point], vec![ValueType::Record(0)], None);
    let mem = memory_with(&[(8, &le(3)), (12, &le(-4))], 16);
    let mut ty = TypeCursor::single(WitType::Id(0));
    let expected = Value::Record(Record {
        ty: 0,
        fields: vec![(String::from("x"), Value::S32(3)), (String::from("y"), Value::S32(-4))],
    });
    assert_eq!(Value::load(&cx, &mem, &mut ty, 8), Ok((expected, 16)));
}

#[test]
fn value_load_record_with_wrong_table_entry() {
    let point = TypeDefKind::Record(vec![Field { name: String::from("x"), ty: WitType::S32 }]);
    let cx = context(vec![point], vec![ValueType::Tuple(0)], None);
    let mem = memory_with(&[], 16);
    let mut ty = TypeCursor::single(WitType::Id(0));
    assert_eq!(Value::load(&cx, &mem, &mut ty, 0), Err(LiftError::InvalidType));
}

#[test]
fn value_load_unknown_definition() {
    let cx = context(vec![], vec![], None);
    let mem = memory_with(&[], 16);
    let mut ty = TypeCursor::single(WitType::Id(3));
    assert_eq!(Value::load(&cx, &mem, &mut ty, 0), Err(LiftError::UnknownType));
}

#[test]
fn value_load_unsupported_definition() {
    let cx = context(vec![TypeDefKind::Enum], vec![ValueType::Enum(0)], None);
    let mem = memory_with(&[], 16);
    let mut ty = TypeCursor::single(WitType::Id(0));
    assert_eq!(Value::load(&cx, &mem, &mut ty, 0), Err(LiftError::Unsupported));
}

#[test]
fn value_load_tuple() {
    let cx = context(
        vec![TypeDefKind::Tuple(vec![WitType::S32, WitType::String])],
        vec![ValueType::Tuple(0)],
        None,
    );
    let mem = memory_with(&[(0, &le(7)), (4, &le(20)), (8, &le(2)), (20, b"ok")], 24);
    let mut ty = TypeCursor::single(WitType::Id(0));
    let expected = Value::Tuple(Tuple { ty: 0, values: vec![Value::S32(7), Value::String(String::from("ok"))] });
    assert_eq!(Value::load(&cx, &mem, &mut ty, 0), Ok((expected, 12)));
}

#[test]
fn value_load_list_of_s32() {
    let cx = context(vec![TypeDefKind::List(WitType::S32)], vec![ValueType::List(0)], None);
    let mem = memory_with(&[(0, &le(16)), (4, &le(3)), (16, &le(1)), (20, &le(2)), (24, &le(3))], 32);
    let mut ty = TypeCursor::single(WitType::Id(0));
    let expected = Value::List(List {
        ty: 0,
        element: ValueType::S32,
        values: vec![Value::S32(1), Value::S32(2), Value::S32(3)],
    });
    assert_eq!(Value::load(&cx, &mem, &mut ty, 0), Ok((expected, 8)));
}

#[test]
fn value_load_list_with_negative_length_is_empty() {
    let cx = context(vec![TypeDefKind::List(WitType::S32)], vec![ValueType::List(0)], None);
    let mem = memory_with(&[(0, &le(-8)), (4, &le(-1))], 8);
    let mut ty = TypeCursor::single(WitType::Id(0));
    let expected = Value::List(List { ty: 0, element: ValueType::S32, values: vec![] });
    assert_eq!(Value::load(&cx, &mem, &mut ty, 0), Ok((expected, 8)));
}

#[test]
fn value_load_list_of_records() {
    let cx = context(
        vec![
            TypeDefKind::Record(vec![Field { name: String::from("n"), ty: WitType::S32 }]),
            TypeDefKind::List(WitType::Id(0)),
        ],
        vec![ValueType::Record(0), ValueType::List(1)],
        None,
    );
    let mem = memory_with(&[(0, &le(8)), (4, &le(2)), (8, &le(10)), (12, &le(11))], 16);
    let mut ty = TypeCursor::single(WitType::Id(1));
    let rec = |n: i32| Value::Record(Record { ty: 0, fields: vec![(String::from("n"), Value::S32(n))] });
    let expected = Value::List(List { ty: 1, element: ValueType::Record(0), values: vec![rec(10), rec(11)] });
    assert_eq!(Value::load(&cx, &mem, &mut ty, 0), Ok((expected, 8)));
}

#[test]
fn value_load_list_element_out_of_bounds() {
    let cx = context(vec![TypeDefKind::List(WitType::S32)], vec![ValueType::List(0)], None);
    let mem = memory_with(&[(0, &le(12)), (4, &le(2))], 16);
    let mut ty = TypeCursor::single(WitType::Id(0));
    assert_eq!(Value::load(&cx, &mem, &mut ty, 0), Err(LiftError::OutOfBounds));
}

#[test]
fn flat_load_of_i32() {
    let cx = context(vec![], vec![], None);
    let mut ty = TypeCursor::new(vec![]);
    let mut args = FlatArgs::new(vec![FlatValue::I32(5), FlatValue::I64(1)]);
    assert_eq!(i32::load_flat(&cx, &mut ty, &mut args), Ok(5));
    assert_eq!(i32::load_flat(&cx, &mut ty, &mut args), Err(LiftError::UnexpectedArgument));
    assert_eq!(i32::load_flat(&cx, &mut ty, &mut args), Err(LiftError::MissingArgument));
}

#[test]
fn flat_load_of_record() {
    let cx = context(
        vec![TypeDefKind::Record(vec![
            Field { name: String::from("a"), ty: WitType::S32 },
            Field { name: String::from("b"), ty: WitType::S32 },
        ])],
        vec![ValueType::Record(0)],
        None,
    );
    let mut ty = TypeCursor::single(WitType::Id(0));
    let mut args = FlatArgs::new(vec![FlatValue::I32(1), FlatValue::I32(2), FlatValue::I32(3)]);
    let expected = Value::Record(Record {
        ty: 0,
        fields: vec![(String::from("a"), Value::S32(1)), (String::from("b"), Value::S32(2))],
    });
    assert_eq!(Value::load_flat(&cx, &mut ty, &mut args), Ok(expected));
    assert_eq!(args.next(), Some(FlatValue::I32(3)));
}

#[test]
fn flat_load_of_string_needs_memory() {
    let cx = context(vec![], vec![], None);
    let mut ty = TypeCursor::single(WitType::String);
    let mut args = FlatArgs::new(vec![FlatValue::I32(0), FlatValue::I32(2)]);
    assert_eq!(Value::load_flat(&cx, &mut ty, &mut args), Err(LiftError::MissingMemory));

    let cx = context(vec![], vec![], Some(memory_with(&[(4, b"hi")], 8)));
    let mut ty = TypeCursor::single(WitType::String);
    let mut args = FlatArgs::new(vec![FlatValue::I32(4), FlatValue::I32(2)]);
    assert_eq!(Value::load_flat(&cx, &mut ty, &mut args), Ok(Value::String(String::from("hi"))));
}

#[test]
fn flat_load_of_list_reads_memory() {
    let mem = memory_with(&[(8, &le(5)), (12, &le(6))], 16);
    let cx = context(vec![TypeDefKind::List(WitType::S32)], vec![ValueType::List(0)], Some(mem));
    let mut ty = TypeCursor::single(WitType::Id(0));
    let mut args = FlatArgs::new(vec![FlatValue::I32(8), FlatValue::I32(2)]);
    let expected = Value::List(List { ty: 0, element: ValueType::S32, values: vec![Value::S32(5), Value::S32(6)] });
    assert_eq!(Value::load_flat(&cx, &mut ty, &mut args), Ok(expected));
}

#[test]
fn flat_load_of_list_without_memory() {
    let cx = context(vec![TypeDefKind::List(WitType::S32)], vec![ValueType::List(0)], None);
    let mut ty = TypeCursor::single(WitType::Id(0));
    let mut args = FlatArgs::new(vec![FlatValue::I32(8), FlatValue::I32(2)]);
    assert_eq!(Value::load_flat(&cx, &mut ty, &mut args), Err(LiftError::MissingMemory));
}

#[test]
fn context_validity() {
    let ok = context(
        vec![TypeDefKind::Record(vec![Field { name: String::from("n"), ty: WitType::S32 }]), TypeDefKind::List(WitType::Id(0))],
        vec![ValueType::Record(0), ValueType::List(1)],
        None,
    );
    assert!(ok.is_valid());
    let cyclic = context(vec![TypeDefKind::List(WitType::Id(0))], vec![ValueType::List(0)], None);
    assert!(!cyclic.is_valid());
    let short_table = context(vec![TypeDefKind::List(WitType::S32)], vec![], None);
    assert!(!short_table.is_valid());
}
