//! Network motif counting: the connected induced subgraphs of `k` nodes of a
//! directed network with typed edges are enumerated, each is brought to a
//! canonical form and given an integer identity, and the identities are
//! tallied. The tallies of a network and of an ensemble of networks are set
//! beside each other in a report.
//!
//! - `network`: the network model, a graph of `petgraph`, and induced
//!   subnetworks.
//! - `canon`: the canonical labelling and the canonical form.
//! - `identity`: the identity of a motif as a number, and back.
//! - `motifs`: the two searches for the connected sets and their tallies;
//!   `census` counts without anything to prove beforehand.
//! - `ensemble`: the report on a network and an ensemble.
//! - `loader`, `render`: networks from matrix text, and what a drawing needs.
//! - `subgraphs`, `subsets`, `extension`, `seeded`: what the searches are to
//!   find, and why they find it.
//! - `digits`, `invariance`, `laws`: what holds of identities, of canonical
//!   forms and of tallies.
//! - `ledger`, `sets`, `tables`, `lex`: sets of sets, sets of nodes, tables
//!   in order, and the order of sequences.

pub mod canon;
pub mod census;
pub mod digits;
pub mod ensemble;
pub mod extension;
pub mod identity;
pub mod invariance;
pub mod laws;
pub mod ledger;
pub mod lex;
pub mod loader;
pub mod motifs;
pub mod network;
pub mod render;
pub mod seeded;
pub mod sets;
pub mod subgraphs;
pub mod subsets;
pub mod tables;
