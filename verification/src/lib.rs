//! Extracts type-size records from a Rust build's diagnostic output.
//!
//! A build run with the type-size diagnostic flag prints one summary
//! line per type. This library parses those lines into `(name, size)`
//! records, orders them by size descending and name ascending, collapses
//! exact duplicates, and either renders the records as a tab-separated
//! listing or checks them against a maximum size, failing on the first
//! record that reaches it. Reading the build's output and printing are
//! left to the surrounding program; everything here works on plain
//! bytes and strings and is verified.

pub mod digits;
pub mod order;
pub mod parser;
pub mod record;
pub mod report;

use vstd::prelude::*;

verus! {

/// The compiler flag that asks for one diagnostic line per type,
/// reporting its memory layout size.
pub open spec fn size_flag() -> Seq<char> {
    " -Z print-type-sizes"@
}

/// Appends the type-size diagnostic flag to an existing flags string,
/// preserving whatever was already present.
pub fn appended_flags(flags: &str) -> (r: String)
    ensures
        r@ == flags@ + size_flag(),
{
    let mut s = String::from_str(flags);
    s.append(" -Z print-type-sizes");
    s
}

} // verus!
