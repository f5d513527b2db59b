use wasm_component_layer::{
    FlatValue, GuestMemory, List, Lower, LowerContext, LowerError, Realloc, Value, ValueType,
};

fn lower_context(answers: Option<Vec<i32>>, memory: Option<GuestMemory>) -> LowerContext {
    LowerContext { realloc: answers.map(Realloc::new), memory }
}

fn bytes(m: &GuestMemory, at: usize, len: usize) -> Vec<u8> {
    m.as_slice()[at..at + len].to_vec()
}

#[test]
fn i32_store_writes_little_endian() {
    let mut cx = lower_context(None, None);
    let mut mem = GuestMemory::new(vec![0; 8]);
    assert_eq!(0x01020304i32.store(&mut cx, &mut mem, 2), Ok(6));
    assert_eq!(bytes(&mem, 0, 8), vec![0, 0, 4, 3, 2, 1, 0, 0]);
    assert_eq!((-1i32).store(&mut cx, &mut mem, 4), Ok(8));
    assert_eq!(bytes(&mem, 4, 4), vec![255, 255, 255, 255]);
}

#[test]
fn i32_store_out_of_bounds_leaves_memory() {
    let mut cx = lower_context(None, None);
    let mut mem = GuestMemory::new(vec![7; 6]);
    assert_eq!(5i32.store(&mut cx, &mut mem, 3), Err(LowerError::OutOfBounds));
    assert_eq!(bytes(&mem, 0, 6), vec![7; 6]);
}

#[test]
fn pair_store_advances_by_eight() {
    let mut cx = lower_context(None, None);
    let mut mem = GuestMemory::new(vec![0; 16]);
    assert_eq!((1i32, 2i32).store(&mut cx, &mut mem, 4), Ok(12));
    assert_eq!(bytes(&mem, 4, 8), vec![1, 0, 0, 0, 2, 0, 0, 0]);
}

#[test]
fn store_flat_of_i32_and_pair() {
    let mut cx = lower_context(None, None);
    let mut out = Vec::new();
    assert_eq!(3i32.store_flat(&mut cx, &mut out), Ok(()));
    assert_eq!((4i32, 5i32).store_flat(&mut cx, &mut out), Ok(()));
    assert_eq!(out, vec![FlatValue::I32(3), FlatValue::I32(4), FlatValue::I32(5)]);
}

#[test]
fn string_store_asks_for_an_allocation() {
    let mut cx = lower_context(Some(vec![]), None);
    let mut mem = GuestMemory::new(vec![0; 32]);
    let s = String::from("héllo");
    assert_eq!(
        s.store(&mut cx, &mut mem, 0),
        Err(LowerError::NeedsAllocation { size: 6, align: 1 })
    );
}

#[test]
fn string_store_without_realloc() {
    let mut cx = lower_context(None, None);
    let mut mem = GuestMemory::new(vec![0; 32]);
    assert_eq!(String::from("x").store(&mut cx, &mut mem, 0), Err(LowerError::MissingRealloc));
}

#[test]
fn string_store_writes_bytes_and_header() {
    let mut cx = lower_context(Some(vec![16]), None);
    let mut mem = GuestMemory::new(vec![0; 32]);
    assert_eq!(String::from("héllo").store(&mut cx, &mut mem, 0), Ok(8));
    assert_eq!(bytes(&mem, 0, 8), vec![16, 0, 0, 0, 6, 0, 0, 0]);
    assert_eq!(bytes(&mem, 16, 6), "héllo".as_bytes().to_vec());
    assert_eq!(cx.realloc.as_ref().map(|r| r.used()), Some(1));
}

#[test]
fn string_store_flat_needs_memory() {
    let mut cx = lower_context(Some(vec![0]), None);
    let mut out = Vec::new();
    assert_eq!(String::from("a").store_flat(&mut cx, &mut out), Err(LowerError::MissingMemory));
}

#[test]
fn value_store_list_of_s32() {
    let mut cx = lower_context(Some(vec![16]), None);
    let mut mem = GuestMemory::new(vec![0; 32]);
    let list = Value::List(List { ty: 0, element: ValueType::S32, values: vec![Value::S32(1), Value::S32(-2)] });
    assert_eq!(list.store(&mut cx, &mut mem, 0), Ok(8));
    assert_eq!(bytes(&mem, 0, 8), vec![16, 0, 0, 0, 2, 0, 0, 0]);
    assert_eq!(bytes(&mem, 16, 8), vec![1, 0, 0, 0, 254, 255, 255, 255]);
}

#[test]
fn value_store_list_asks_for_element_aligned_bytes() {
    let mut cx = lower_context(Some(vec![]), None);
    let mut mem = GuestMemory::new(vec![0; 32]);
    let list = Value::List(List { ty: 0, element: ValueType::S32, values: vec![Value::S32(1), Value::S32(2), Value::S32(3)] });
    assert_eq!(list.store(&mut cx, &mut mem, 0), Err(LowerError::NeedsAllocation { size: 12, align: 4 }));
}

#[test]
fn value_store_unsupported() {
    let mut cx = lower_context(Some(vec![0]), None);
    let mut mem = GuestMemory::new(vec![0; 32]);
    assert_eq!(Value::Bool(true).store(&mut cx, &mut mem, 0), Err(LowerError::Unsupported));
    let bools = Value::List(List { ty: 0, element: ValueType::Bool, values: vec![Value::Bool(true)] });
    assert_eq!(bools.store(&mut cx, &mut mem, 0), Err(LowerError::Unsupported));
    let records = Value::List(List { ty: 0, element: ValueType::Record(1), values: vec![] });
    assert_eq!(records.store(&mut cx, &mut mem, 0), Err(LowerError::Unsupported));
}

#[test]
fn value_store_flat_of_s32_list() {
    let mut cx = lower_context(Some(vec![8]), Some(GuestMemory::new(vec![0; 16])));
    let list = Value::List(List { ty: 0, element: ValueType::S32, values: vec![Value::S32(7), Value::S32(8)] });
    let mut out = Vec::new();
    assert_eq!(list.store_flat(&mut cx, &mut out), Ok(()));
    assert_eq!(out, vec![FlatValue::I32(8), FlatValue::I32(2)]);
    let mem = cx.memory.as_ref().unwrap();
    assert_eq!(bytes(mem, 8, 8), vec![7, 0, 0, 0, 8, 0, 0, 0]);
}

#[test]
fn value_store_flat_of_string_list() {
    let mut cx = lower_context(Some(vec![8, 32, 40]), Some(GuestMemory::new(vec![0; 48])));
    let list = Value::List(List {
        ty: 0,
        element: ValueType::String,
        values: vec![Value::String(String::from("ab")), Value::String(String::from("cde"))],
    });
    let mut out = Vec::new();
    assert_eq!(list.store_flat(&mut cx, &mut out), Ok(()));
    assert_eq!(out, vec![FlatValue::I32(8), FlatValue::I32(2)]);
    let mem = cx.memory.as_ref().unwrap();
    assert_eq!(bytes(mem, 8, 16), vec![32, 0, 0, 0, 2, 0, 0, 0, 40, 0, 0, 0, 3, 0, 0, 0]);
    assert_eq!(bytes(mem, 32, 2), b"ab".to_vec());
    assert_eq!(bytes(mem, 40, 3), b"cde".to_vec());
}

#[test]
fn value_store_flat_of_list_without_memory() {
    let mut cx = lower_context(Some(vec![8]), None);
    let list = Value::List(List { ty: 0, element: ValueType::S32, values: vec![] });
    let mut out = Vec::new();
    assert_eq!(list.store_flat(&mut cx, &mut out), Err(LowerError::MissingMemory));
}

#[test]
fn value_store_flat_of_unsigned_list_is_unsupported() {
    let mut cx = lower_context(Some(vec![8]), Some(GuestMemory::new(vec![0; 16])));
    let list = Value::List(List { ty: 0, element: ValueType::U32, values: vec![Value::U32(1)] });
    let mut out = Vec::new();
    assert_eq!(list.store_flat(&mut cx, &mut out), Err(LowerError::Unsupported));
}

#[test]
fn store_list_of_i32s() {
    let mut cx = lower_context(None, None);
    let mut mem = GuestMemory::new(vec![0; 12]);
    assert_eq!(i32::store_list(&[1, 2, 3], &mut cx, &mut mem, 0), Ok(12));
    assert_eq!(bytes(&mem, 0, 12), vec![1, 0, 0, 0, 2, 0, 0, 0, 3, 0, 0, 0]);
    assert_eq!(i32::store_list(&[1, 2, 3], &mut cx, &mut mem, 4), Err(LowerError::OutOfBounds));
}

#[test]
fn value_store_flat_string_list_asks_for_four_aligned_bytes() {
    let mut cx = lower_context(Some(vec![]), Some(GuestMemory::new(vec![0; 16])));
    let list = Value::List(List { ty: 0, element: ValueType::String, values: vec![Value::String(String::from("a"))] });
    let mut out = Vec::new();
    assert_eq!(list.store_flat(&mut cx, &mut out), Err(LowerError::NeedsAllocation { size: 8, align: 4 }));
}

#[test]
fn value_store_one_s32_asks_for_four_bytes_aligned_to_four() {
    let mut cx = lower_context(Some(vec![]), None);
    let mut mem = GuestMemory::new(vec![0; 16]);
    let list = Value::List(List { ty: 0, element: ValueType::S32, values: vec![Value::S32(1)] });
    assert_eq!(list.store(&mut cx, &mut mem, 0), Err(LowerError::NeedsAllocation { size: 4, align: 4 }));
}
