//! A bit-level encoder for scripting-program modules.
//!
//! A module (an ordered list of handlers, each holding typed operations with
//! typed argument values) is walked depth-first and packed into a contiguous
//! bit sequence with sub-byte field widths.  Strings are not written inline:
//! every occurrence is recorded during the walk and a final pass prepends a
//! sorted, deduplicated string table, replacing each occurrence with a
//! minimal-width index into that table.

pub mod assets;
pub mod bits;
pub mod bytecode;
pub mod hint;
pub mod laws;
pub mod layout;
pub mod module;
pub mod strtab;
