//! An in-memory, directed, labeled multigraph.
//!
//! A `Graph` owns its nodes in an append-only arena and hands out plain
//! handles; each labeled edge is recorded twice, once on each endpoint, as
//! an outgoing and an incoming `Relation`. Adjacency lists refer to peers
//! by handle only, so neighbors reference each other without a reference
//! cycle, and — since nothing is ever removed — a handle recorded by a
//! well-formed store always resolves.
//!
//! Every operation carries a contract over the store's mathematical model
//! (a sequence of `NodeModel`s), and the laws the library promises — what a
//! new edge makes visible at both ends, what each query filter keeps, and
//! that long traversals never dangle — are stated and proved alongside the
//! code.

pub mod graph;
pub mod node;
