//! Conversion between host values and their component-model representation in
//! guest memory and in flat argument lists.
//!
//! The crate computes canonical layouts (size, alignment, stride), reads
//! values out of a guest memory image (lifting) and writes them back into one
//! (lowering). Every operation is specified over a mathematical model of the
//! memory and of the values involved.
#![allow(unused_imports)]

pub mod layout;
pub mod wit;
pub mod memory;
pub mod value;
pub mod component_type;
pub mod flat;
pub mod lift;
pub mod lower;
pub mod laws;
pub mod list_laws;
pub mod shape_laws;
pub mod alloc_laws;

pub use component_type::ComponentType;
pub use flat::{FlatArgs, FlatValue};
pub use layout::align_to;
pub use lift::{Lift, LiftContext, LiftError};
pub use lower::{Lower, LowerContext, LowerError, Realloc};
pub use memory::GuestMemory;
pub use value::{List, Record, Tuple, Value, ValueType};
pub use wit::{Field, PeekableIter, Resolve, TypeCursor, TypeDefKind, WitType};
