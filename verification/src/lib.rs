//! Reading of Wayland protocol descriptions and generation of Rust
//! bindings from them.
pub mod text;
pub mod format;
pub mod wl_types;
pub mod convert;
pub mod xml;
pub mod scanner;
pub mod codegen;
