//! Helpers for names.

use crate::strings::{lowercased, to_lowercase, trim, trimmed};
use vstd::prelude::*;

verus! {

/// The normal form of a name: white space removed at both ends, then every
/// character in lower case.
pub fn format_name(name: &str) -> (formatted: String)
    ensures
        formatted@ == lowercased(trimmed(name@)),
{
    to_lowercase(trim(name))
}

} // verus!
