use wasm_component_layer::{align_to, ComponentType, Value, ValueType};

#[test]
fn align_to_rounds_up_to_the_alignment() {
    assert_eq!(align_to(0, 4), 0);
    assert_eq!(align_to(1, 4), 4);
    assert_eq!(align_to(3, 4), 4);
    assert_eq!(align_to(4, 4), 4);
    assert_eq!(align_to(5, 8), 8);
    assert_eq!(align_to(13, 1), 13);
    assert_eq!(align_to(17, 16), 32);
}

#[test]
fn align_to_is_idempotent() {
    for ptr in 0..100usize {
        for align in [1usize, 2, 4, 8, 16] {
            let once = align_to(ptr, align);
            assert_eq!(align_to(once, align), once);
            assert_eq!(once % align, 0);
            assert!(once >= ptr && once < ptr + align);
        }
    }
}

#[test]
fn i32_layout() {
    let v: i32 = 7;
    assert_eq!(v.size(), 4);
    assert_eq!(v.align(), 4);
    assert_eq!(v.stride(), 4);
}

#[test]
fn string_layout() {
    let s = String::from("abc");
    assert_eq!(s.size(), 8);
    assert_eq!(s.align(), 4);
    assert_eq!(s.stride(), 8);
}

#[test]
fn pair_layout() {
    let p: (i32, i32) = (1, 2);
    assert_eq!(p.size(), 8);
    assert_eq!(p.align(), 4);
    assert_eq!(p.stride(), 8);
    let nested: ((i32, i32), i32) = ((1, 2), 3);
    assert_eq!(nested.size(), 12);
    assert_eq!(nested.align(), 4);
    let mixed: (String, i32) = (String::new(), 3);
    assert_eq!(mixed.size(), 12);
}

#[test]
fn value_layout() {
    let v = Value::S32(5);
    assert_eq!(v.size(), 4);
    assert_eq!(v.align(), 4);
    assert_eq!(v.stride(), 4);
}

#[test]
fn value_type_layouts() {
    assert_eq!(ValueType::Bool.size(), 1);
    assert_eq!(ValueType::U16.size(), 2);
    assert_eq!(ValueType::S32.size(), 4);
    assert_eq!(ValueType::F64.size(), 8);
    assert_eq!(ValueType::F64.align(), 8);
    assert_eq!(ValueType::String.size(), 8);
    assert_eq!(ValueType::String.align(), 4);
    assert_eq!(ValueType::List(3).size(), 8);
    assert!(ValueType::S32.has_known_layout());
    assert!(!ValueType::Record(0).has_known_layout());
}
