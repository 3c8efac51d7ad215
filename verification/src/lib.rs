//! A small nearest-neighbour index over vectors of one dimension.
//!
//! A store keeps every vector in two views, the full vector and a reduced
//! one, answers "which stored vector is nearest to this one" by an exhaustive
//! scan or by a scan of one k-means cluster, and lays its full vectors out in
//! bytes.
//!
//! Coordinates and distances are carried as words: the 32 bits of an IEEE 754
//! binary32 value. The library orders words, lays them out, clusters and
//! searches. The arithmetic that gives a distance or an average is the
//! caller's, handed in as a function on words.
//!
//! - [`vector`]: the two kinds of vector.
//! - [`metric`]: what a contract means by a distance and by an average.
//! - [`order`]: the order of words, and the scans for the least.
//! - [`math`]: distance tables, means and k-means.
//! - [`store`]: the store, its index and the two search strategies.
//! - [`persist`]: the byte image of a store.

pub mod math;
pub mod metric;
pub mod order;
pub mod persist;
pub mod store;
pub mod vector;
