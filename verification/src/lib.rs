//! A catalog record service core: exact-precision prices, the catalog
//! entity types, an ordered in-memory record store with filtered and
//! paginated listing, and the five catalog operations built on them.

pub mod catalog;
pub mod digits;
pub mod laws;
pub mod models;
pub mod nearest;
pub mod price;
pub mod store;
