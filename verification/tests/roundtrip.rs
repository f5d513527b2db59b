use wasm_component_layer::{
    FlatArgs, GuestMemory, Lift, LiftContext, List, Lower, LowerContext, Realloc, Resolve, TypeCursor,
    TypeDefKind, Value, ValueType, WitType,
};

fn lift_context(memory: Option<GuestMemory>) -> LiftContext {
    LiftContext {
        resolve: Resolve { types: vec![TypeDefKind::List(WitType::S32)] },
        types: vec![ValueType::List(0)],
        memory,
    }
}

fn store_then_load(v: Value, ty: WitType, answers: Vec<i32>) {
    let mut cx = LowerContext { realloc: Some(Realloc::new(answers)), memory: None };
    let mut mem = GuestMemory::new(vec![0; 64]);
    let end = v.store(&mut cx, &mut mem, 4).unwrap();
    let lcx = lift_context(None);
    let mut cursor = TypeCursor::single(ty);
    assert_eq!(Value::load(&lcx, &mem, &mut cursor, 4), Ok((v, end)));
}

#[test]
fn s32_store_then_load() {
    store_then_load(Value::S32(-123456), WitType::S32, vec![]);
}

#[test]
fn string_store_then_load() {
    store_then_load(Value::String(String::from("grüße")), WitType::String, vec![32]);
}

#[test]
fn list_store_then_load() {
    let list = Value::List(List { ty: 0, element: ValueType::S32, values: vec![Value::S32(1), Value::S32(2), Value::S32(3)] });
    store_then_load(list, WitType::Id(0), vec![24]);
}

#[test]
fn empty_list_store_then_load() {
    let list = Value::List(List { ty: 0, element: ValueType::S32, values: vec![] });
    store_then_load(list, WitType::Id(0), vec![40]);
}

fn flat_store_then_load(v: Value, ty: WitType, answers: Vec<i32>) {
    let mut cx = LowerContext { realloc: Some(Realloc::new(answers)), memory: Some(GuestMemory::new(vec![0; 64])) };
    let mut out = Vec::new();
    v.store_flat(&mut cx, &mut out).unwrap();
    let lcx = lift_context(cx.memory.take());
    let mut cursor = TypeCursor::single(ty);
    let mut args = FlatArgs::new(out);
    assert_eq!(Value::load_flat(&lcx, &mut cursor, &mut args), Ok(v));
}

#[test]
fn s32_flat_store_then_load() {
    flat_store_then_load(Value::S32(77), WitType::S32, vec![]);
}

#[test]
fn string_flat_store_then_load() {
    flat_store_then_load(Value::String(String::from("component")), WitType::String, vec![16]);
}

#[test]
fn list_flat_store_then_load() {
    let list = Value::List(List { ty: 0, element: ValueType::S32, values: vec![Value::S32(9), Value::S32(8)] });
    flat_store_then_load(list, WitType::Id(0), vec![0]);
}

#[test]
fn string_list_flat_store_then_load() {
    let lcx_types = vec![TypeDefKind::List(WitType::String)];
    let list = Value::List(List {
        ty: 0,
        element: ValueType::String,
        values: vec![Value::String(String::from("one")), Value::String(String::from("two"))],
    });
    let mut cx = LowerContext { realloc: Some(Realloc::new(vec![0, 32, 48])), memory: Some(GuestMemory::new(vec![0; 64])) };
    let mut out = Vec::new();
    list.store_flat(&mut cx, &mut out).unwrap();
    let lcx = LiftContext { resolve: Resolve { types: lcx_types }, types: vec![ValueType::List(0)], memory: cx.memory.take() };
    assert!(lcx.is_valid());
    let mut cursor = TypeCursor::single(WitType::Id(0));
    let mut args = FlatArgs::new(out);
    assert_eq!(Value::load_flat(&lcx, &mut cursor, &mut args), Ok(list));
}

#[test]
fn nested_list_flat_store_then_load() {
    let types = vec![TypeDefKind::List(WitType::S32), TypeDefKind::List(WitType::Id(0))];
    let inner = |xs: &[i32]| {
        Value::List(List { ty: 0, element: ValueType::S32, values: xs.iter().map(|x| Value::S32(*x)).collect() })
    };
    let list = Value::List(List { ty: 1, element: ValueType::List(0), values: vec![inner(&[1, 2]), inner(&[3])] });
    let mut cx = LowerContext { realloc: Some(Realloc::new(vec![0, 16, 32])), memory: Some(GuestMemory::new(vec![0; 48])) };
    let mut out = Vec::new();
    list.store_flat(&mut cx, &mut out).unwrap();
    let lcx = LiftContext {
        resolve: Resolve { types },
        types: vec![ValueType::List(0), ValueType::List(1)],
        memory: cx.memory.take(),
    };
    let mut cursor = TypeCursor::single(WitType::Id(1));
    let mut args = FlatArgs::new(out);
    assert_eq!(Value::load_flat(&lcx, &mut cursor, &mut args), Ok(list));
}

#[test]
fn store_list_of_joined_items_is_storing_each_part() {
    let mut cx1 = LowerContext { realloc: None, memory: None };
    let mut m1 = GuestMemory::new(vec![0; 20]);
    let end1 = i32::store_list(&[1, 2, 3], &mut cx1, &mut m1, 4).unwrap();
    let mut cx2 = LowerContext { realloc: None, memory: None };
    let mut m2 = GuestMemory::new(vec![0; 20]);
    let mid = i32::store_list(&[1], &mut cx2, &mut m2, 4).unwrap();
    let end2 = i32::store_list(&[2, 3], &mut cx2, &mut m2, mid).unwrap();
    assert_eq!(end1, end2);
    assert_eq!(m1.as_slice(), m2.as_slice());
}

#[test]
fn pair_of_string_and_i32_store_then_load() {
    let mut cx = LowerContext { realloc: Some(Realloc::new(vec![40])), memory: None };
    let mut mem = GuestMemory::new(vec![0; 64]);
    let pair = (String::from("pair"), -9i32);
    let end = pair.store(&mut cx, &mut mem, 0).unwrap();
    assert_eq!(end, 12);
    let lcx = lift_context(None);
    let mut cursor = TypeCursor::new(vec![]);
    assert_eq!(<(String, i32)>::load(&lcx, &mem, &mut cursor, 0), Ok((pair, end)));
}
