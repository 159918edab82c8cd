//! Registries of compiler feature gates and builtin attributes.
//!
//! The crate extracts typed records from upstream declaration text, merges
//! them against a previously persisted snapshot while preserving curated
//! fields, and serializes the result as canonical, byte-stable JSON.

use vstd::prelude::*;

pub mod attribute;
pub mod attribute_json;
pub mod extract;
pub mod feature;
pub mod merge_attribute;
pub mod merge_feature;
pub mod feature_json;
pub mod order;
pub mod pipeline;
pub mod text;

verus! {

/// Returns the elements unchanged, in their original order.
pub fn foo<T>(xs: Vec<T>) -> (r: Vec<T>)
    ensures
        r@ == xs@,
{
    xs
}

/// Returns zero.
pub fn bar() -> (r: i32)
    ensures
        r == 0,
{
    0
}

} // verus!
