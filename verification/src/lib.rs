//! Label-filtered nearest-neighbor search with an adaptive search list.
//!
//! A filter says of each vector whether a query may return it. A search goes through the whole
//! graph, matching or not, and samples how many of the neighbors on its way match. The fewer do,
//! the longer the search list is made, so that enough matching candidates are left at the end.

pub mod adaptive;
pub mod benchmark;
pub mod bitmap;
pub mod decimal;
pub mod disk_index;
pub mod filters;
pub mod greedy;
pub mod greedy_laws;
pub mod labels;
pub mod log_accuracy;
pub mod log_bounds;
pub mod log_order;
pub mod log_scale;
pub mod powers;
pub mod predicates;
pub mod search;
