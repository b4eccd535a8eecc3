//! A WebAssembly binary parser: LEB128 immediates, section framing, and the
//! type, import, function, export and start sections, tied together into a
//! checked `Module`.
pub mod leb;
pub mod sections;
pub mod types;
pub mod imports;
pub mod functions;
pub mod start;
pub mod exports;
pub mod module;
