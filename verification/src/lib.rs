//! Routing over a network of waterways.
//!
//! The library holds the parts of the router that are pure computation:
//!
//! - [`quadkey`]: the hierarchical tile keys that bucket points by locality;
//! - [`db`]: the graph store of nodes and links, the nodes of a tile, the
//!   choice of the measured node nearest to a point, and the nodes one link
//!   away from a node;
//! - [`reach`]: the part of the network that a search from a node can touch;
//! - [`filter`]: which records of the source data make up the network;
//! - [`search`]: the shortest-path search over a measured network;
//! - [`web`]: the shape of the replies handed to a client;
//! - [`laws`] and [`index`]: what is proved of the store beyond the contracts
//!   of its functions.
//!
//! Positions are whole numbers of 1e-7 degrees and distances are whole metres.
//! Everything that needs trigonometry (projecting a point onto the tile grid,
//! measuring a great-circle distance) is done by the caller, who hands the
//! resulting integers in.

pub mod db;
pub mod filter;
pub mod index;
pub mod laws;
pub mod node;
pub mod quadkey;
pub mod reach;
pub mod search;
pub mod web;
