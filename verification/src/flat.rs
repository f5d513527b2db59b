//! Flat core-wasm values: the arguments and results of a guest function.

use vstd::prelude::*;
use crate::wit::PeekableIter;

verus! {

/// A core-wasm value as passed to or returned from a guest function.
/// Floats are carried by their bit patterns; references are opaque.
#[derive(Clone, Copy, Debug, PartialEq, Eq)]
pub enum FlatValue {
    I32(i32),
    I64(i64),
    F32(u32),
    F64(u64),
    V128(u128),
    Reference,
}

/// A cursor over a list of flat values.
pub struct FlatArgs {
    values: Vec<FlatValue>,
    pos: usize,
}

impl FlatArgs {
    #[verifier::type_invariant]
    spec fn inv(self) -> bool {
        self.pos <= self.values@.len()
    }

    /// A cursor at the start of `values`.
    pub fn new(values: Vec<FlatValue>) -> (r: Self)
        ensures
            r.remaining() == values@,
    {
        let r = FlatArgs { values, pos: 0 };
        assert(r.values@.skip(0) =~= r.values@);
        r
    }
}

impl PeekableIter for FlatArgs {
    type Item = FlatValue;

    closed spec fn remaining(&self) -> Seq<FlatValue> {
        self.values@.skip(self.pos as int)
    }

    fn next(&mut self) -> (r: Option<FlatValue>) {
        proof { use_type_invariant(&*self); }
        if self.pos < self.values.len() {
            let v = self.values[self.pos];
            self.pos = self.pos + 1;
            assert(self.values@.skip(self.pos as int) =~= old(self).remaining().drop_first());
            Some(v)
        } else {
            None
        }
    }

    fn peek(&mut self) -> (r: Option<&FlatValue>) {
        proof { use_type_invariant(&*self); }
        if self.pos < self.values.len() {
            Some(&self.values[self.pos])
        } else {
            None
        }
    }
}

} // verus!
