//! Unsafety propagation graph: classifies how functions touch structured data
//! types, aggregates that into per-type access profiles, ranks how privileged
//! each function's relationship to a type is, and assigns every item a stable
//! identity in a navigation tree.
pub mod maps;
pub mod ty;
pub mod info_adt;
pub mod info_fn;
pub mod info_mod;
pub mod output;
pub mod upg;
pub mod unit;
