//! An in-memory columnar single-table store with typed columns, an
//! incremental trigram index over text columns and a cached filtered,
//! sorted view of the live rows.
use vstd::prelude::*;

pub mod column;
pub mod idmap;
pub mod number;
pub mod store;
pub mod text;
pub mod trigram;

pub use column::Value;
pub use store::{ColumnDef, GridStore, SortDir, StoreError};

verus! {

} // verus!
