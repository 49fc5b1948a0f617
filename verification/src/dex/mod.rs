//! DEX structures.

pub mod annotations;
pub mod builder;
pub mod class_data;
pub mod code_item;
pub mod debug_info;
pub mod encoded_value;
pub mod fastref;
pub mod file;
pub mod header;
pub mod literal;
pub mod value_format;
pub mod value_literal;
pub mod ordering;
pub mod pools;
pub mod helper;
pub mod items;
pub mod raw;
pub mod slice;
pub mod strings;
pub mod write;

pub use class_data::{ClassData, EncodedField, EncodedMethod};
pub use code_item::{CodeItem, TryItem};
pub use file::DexFile;
pub use header::{is_dex, ClassDef, DexHeader};

use vstd::prelude::*;

verus! {

/// `NO_INDEX` marker for absent indices (superclass, source file).
pub const NO_INDEX: u32 = 0xffff_ffff;

} // verus!
