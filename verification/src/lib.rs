//! Data management library: typed fields with missing values, index-based and iterator access,
//! sort orders, and sort-merge joins over field keys.

pub mod access;
pub mod error;
pub mod field;
pub mod fieldmap;
pub mod join;
pub mod parse;
pub mod order;
pub mod sort;
pub mod store;
pub mod value;
pub mod view;
