//! DEX (Dalvik Executable) parsing: LEB128, MUTF-8 strings, code items,
//! debug info, encoded values, annotations, raw table views, in-place
//! rewriting of instruction arrays, and the fast reference finder.

pub mod apk;
pub mod dex;
pub mod error;
pub mod leb128;
pub mod multidex;
pub mod text;

pub use error::DexError;
