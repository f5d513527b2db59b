use wasm_component_layer::memory::MemoryError;
use wasm_component_layer::{FlatArgs, FlatValue, GuestMemory, PeekableIter, TypeCursor, WitType};

#[test]
fn read_and_write_bytes() {
    let mut m = GuestMemory::new(vec![0; 8]);
    assert_eq!(m.len(), 8);
    assert_eq!(m.write(2, &[1, 2, 3]), Ok(()));
    assert_eq!(m.read(1, 4), Ok(vec![0, 1, 2, 3]));
    assert_eq!(m.read(6, 3), Err(MemoryError::OutOfBounds));
    assert_eq!(m.write(7, &[1, 2]), Err(MemoryError::OutOfBounds));
    assert_eq!(m.read(8, 0), Ok(vec![]));
    assert_eq!(m.into_bytes(), vec![0, 0, 1, 2, 3, 0, 0, 0]);
}

#[test]
fn i32_write_then_read() {
    let mut m = GuestMemory::new(vec![0; 12]);
    for (at, v) in [(0usize, 0i32), (4, i32::MIN), (8, i32::MAX)] {
        assert_eq!(m.write_i32(at, v), Ok(()));
        assert_eq!(m.read_i32(at), Ok(v));
    }
    assert_eq!(m.write_i32(9, 1), Err(MemoryError::OutOfBounds));
    assert_eq!(m.read_i32(9), Err(MemoryError::OutOfBounds));
    assert_eq!(m.as_slice()[4..8].to_vec(), vec![0, 0, 0, 0x80]);
}

#[test]
fn type_cursor_peeks_without_taking() {
    let mut c = TypeCursor::new(vec![WitType::S32, WitType::U8]);
    assert_eq!(c.peek(), Some(&WitType::S32));
    assert_eq!(c.peek(), Some(&WitType::S32));
    assert_eq!(c.next(), Some(WitType::S32));
    assert_eq!(c.next(), Some(WitType::U8));
    assert_eq!(c.peek(), None);
    assert_eq!(c.next(), None);
}

#[test]
fn flat_args_in_order() {
    let mut a = FlatArgs::new(vec![FlatValue::I64(-3), FlatValue::F32(1)]);
    assert_eq!(a.peek(), Some(&FlatValue::I64(-3)));
    assert_eq!(a.next(), Some(FlatValue::I64(-3)));
    assert_eq!(a.next(), Some(FlatValue::F32(1)));
    assert_eq!(a.next(), None);
}
