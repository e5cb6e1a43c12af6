//! Vault access layer: enumeration, ordering and full-text search over a
//! directory tree of plain-text and markdown notes.
//!
//! The verified core works on plain values: directory entries already listed
//! by the caller, file names, relative paths and file contents. The caller
//! performs the traversal and the file reads and hands the results in; every
//! decision (which entries are note files, in what order they are reported,
//! which contents match a query) is made and proved here.

use vstd::prelude::*;

pub mod order;
pub mod text;
pub mod vault;

verus! {

/// Fixed diagnostic string confirming the layer is reachable.
pub fn greet() -> (r: String)
    ensures
        r@ == "Hello from Rust! Acropad Native Layer is active."@,
{
    String::from_str("Hello from Rust! Acropad Native Layer is active.")
}

} // verus!
