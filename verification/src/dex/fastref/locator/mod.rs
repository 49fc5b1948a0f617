//! Constant-pool locators.

pub mod insn;
pub mod method;
pub mod string;
pub mod string_layout;
pub mod type_;

pub use insn::Owner;
pub use method::{FieldLocator, MemberQuery, MethodLocator};
pub use string::StringLocator;
pub use type_::TypeLocator;
