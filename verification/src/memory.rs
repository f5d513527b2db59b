//! A guest linear memory image and the little-endian encoding of the
//! primitives stored in it.

use vstd::prelude::*;

verus! {

/// The bytes of `s` with `data` written over them starting at `at`.
pub open spec fn splice(s: Seq<u8>, at: int, data: Seq<u8>) -> Seq<u8> {
    s.subrange(0, at) + data + s.subrange(at + data.len(), s.len() as int)
}

/// The four little-endian bytes of `v`.
pub open spec fn i32_le_bytes(v: i32) -> Seq<u8> {
    let x = v as u32;
    seq![
        (x & 0xff) as u8,
        ((x >> 8u32) & 0xff) as u8,
        ((x >> 16u32) & 0xff) as u8,
        ((x >> 24u32) & 0xff) as u8,
    ]
}

/// The `i32` whose little-endian bytes are `b[0..4]`.
pub open spec fn i32_from_le(b: Seq<u8>) -> i32
    recommends
        b.len() == 4,
{
    ((b[0] as u32) | ((b[1] as u32) << 8u32) | ((b[2] as u32) << 16u32) | ((b[3] as u32) << 24u32)) as i32
}

/// Decoding the encoding of an `i32` gives it back.
pub proof fn lemma_i32_le_roundtrip(v: i32)
    ensures
        i32_le_bytes(v).len() == 4,
        i32_from_le(i32_le_bytes(v)) == v,
{
    let x = v as u32;
    let b0 = (x & 0xff) as u8;
    let b1 = ((x >> 8u32) & 0xff) as u8;
    let b2 = ((x >> 16u32) & 0xff) as u8;
    let b3 = ((x >> 24u32) & 0xff) as u8;
    assert(((b0 as u32) | ((b1 as u32) << 8u32) | ((b2 as u32) << 16u32) | ((b3 as u32) << 24u32)) == x)
        by (bit_vector)
        requires
            b0 == (x & 0xff) as u8,
            b1 == ((x >> 8u32) & 0xff) as u8,
            b2 == ((x >> 16u32) & 0xff) as u8,
            b3 == ((x >> 24u32) & 0xff) as u8,
    ;
    assert((x as i32) == v) by (bit_vector)
        requires
            x == v as u32,
    ;
}

/// Failure of a guest memory access.
#[derive(Clone, Copy, Debug, PartialEq, Eq)]
pub enum MemoryError {
    /// The access reaches past the end of the memory.
    OutOfBounds,
}

/// An image of a guest's linear memory.
pub struct GuestMemory {
    bytes: Vec<u8>,
}

impl View for GuestMemory {
    type V = Seq<u8>;

    closed spec fn view(&self) -> Seq<u8> {
        self.bytes@
    }
}

/// The host address that a guest pointer, passed as an `i32`, is converted
/// to: its value when it is not negative.
pub open spec fn address(p: i32) -> int {
    (p as usize) as int
}

/// `[offset, offset + len)` lies inside a memory of `size` bytes.
pub open spec fn in_bounds(size: nat, offset: int, len: int) -> bool {
    0 <= offset && 0 <= len && offset + len <= size
}

impl GuestMemory {
    /// The size of a memory fits in an address.
    pub proof fn lemma_size_fits(&self)
        ensures
            self@.len() <= usize::MAX,
    {
        assert(self.bytes.len() == self.bytes@.len());
    }

    /// A memory holding `bytes`.
    pub fn new(bytes: Vec<u8>) -> (r: Self)
        ensures
            r@ == bytes@,
    {
        GuestMemory { bytes }
    }

    /// The memory's bytes.
    pub fn into_bytes(self) -> (r: Vec<u8>)
        ensures
            r@ == self@,
    {
        self.bytes
    }

    /// The memory's bytes, borrowed.
    pub fn as_slice(&self) -> (r: &[u8])
        ensures
            r@ == self@,
    {
        self.bytes.as_slice()
    }

    /// The size of the memory in bytes.
    pub fn len(&self) -> (r: usize)
        ensures
            r == self@.len(),
    {
        self.bytes.len()
    }

    /// Reads `len` bytes at `offset`.
    pub fn read(&self, offset: usize, len: usize) -> (r: Result<Vec<u8>, MemoryError>)
        ensures
            in_bounds(self@.len(), offset as int, len as int) ==> (r matches Ok(b) && b@
                == self@.subrange(offset as int, offset + len)),
            !in_bounds(self@.len(), offset as int, len as int) ==> r == Err::<Vec<u8>, MemoryError>(
                MemoryError::OutOfBounds,
            ),
    {
        if offset > self.bytes.len() || len > self.bytes.len() - offset {
            return Err(MemoryError::OutOfBounds);
        }
        let mut out: Vec<u8> = Vec::new();
        let mut i: usize = 0;
        while i < len
            invariant
                offset + len <= self.bytes.len(),
                i <= len,
                out@ == self@.subrange(offset as int, offset + i),
            decreases len - i,
        {
            out.push(self.bytes[offset + i]);
            i = i + 1;
            assert(out@ =~= self@.subrange(offset as int, offset + i));
        }
        Ok(out)
    }

    /// Writes `data` at `offset`.
    pub fn write(&mut self, offset: usize, data: &[u8]) -> (r: Result<(), MemoryError>)
        ensures
            in_bounds(old(self)@.len(), offset as int, data@.len() as int) ==> r is Ok && final(self)@
                == splice(old(self)@, offset as int, data@),
            !in_bounds(old(self)@.len(), offset as int, data@.len() as int) ==> r == Err::<
                (),
                MemoryError,
            >(MemoryError::OutOfBounds) && final(self)@ == old(self)@,
    {
        if offset > self.bytes.len() || data.len() > self.bytes.len() - offset {
            return Err(MemoryError::OutOfBounds);
        }
        let mut i: usize = 0;
        while i < data.len()
            invariant
                offset + data@.len() <= old(self)@.len(),
                self.bytes.len() == old(self)@.len(),
                i <= data@.len(),
                self@ == splice(old(self)@, offset as int, data@.take(i as int)),
            decreases data@.len() - i,
        {
            self.bytes.set(offset + i, data[i]);
            i = i + 1;
            assert(self@ =~= splice(old(self)@, offset as int, data@.take(i as int)));
        }
        assert(data@.take(data@.len() as int) =~= data@);
        Ok(())
    }

    /// Reads the little-endian `i32` at `offset`.
    pub fn read_i32(&self, offset: usize) -> (r: Result<i32, MemoryError>)
        ensures
            in_bounds(self@.len(), offset as int, 4) ==> r == Ok::<i32, MemoryError>(
                i32_from_le(self@.subrange(offset as int, offset + 4)),
            ),
            !in_bounds(self@.len(), offset as int, 4) ==> r == Err::<i32, MemoryError>(
                MemoryError::OutOfBounds,
            ),
    {
        if offset > self.bytes.len() || 4 > self.bytes.len() - offset {
            return Err(MemoryError::OutOfBounds);
        }
        let b0 = self.bytes[offset] as u32;
        let b1 = self.bytes[offset + 1] as u32;
        let b2 = self.bytes[offset + 2] as u32;
        let b3 = self.bytes[offset + 3] as u32;
        Ok((b0 | (b1 << 8u32) | (b2 << 16u32) | (b3 << 24u32)) as i32)
    }

    /// Writes `v` as four little-endian bytes at `offset`.
    pub fn write_i32(&mut self, offset: usize, v: i32) -> (r: Result<(), MemoryError>)
        ensures
            in_bounds(old(self)@.len(), offset as int, 4) ==> r is Ok && final(self)@ == splice(
                old(self)@,
                offset as int,
                i32_le_bytes(v),
            ),
            !in_bounds(old(self)@.len(), offset as int, 4) ==> r == Err::<(), MemoryError>(
                MemoryError::OutOfBounds,
            ) && final(self)@ == old(self)@,
    {
        let x = v as u32;
        let bytes: [u8; 4] = [
            (x & 0xff) as u8,
            ((x >> 8u32) & 0xff) as u8,
            ((x >> 16u32) & 0xff) as u8,
            ((x >> 24u32) & 0xff) as u8,
        ];
        assert(bytes@ =~= i32_le_bytes(v));
        self.write(offset, &bytes)
    }
}

} // verus!
