//! Concord: the control plane of a private task estate.  This crate holds the
//! estate's rules and algorithms as verified functions: the dependency graph,
//! change-sets and Phases, briefs, audits, resource status and the census of
//! a legacy Space.
use vstd::prelude::*;

pub mod error;
pub mod text;
pub mod state;
pub mod graph;
pub mod keys;
pub mod forge;
pub mod change;
pub mod prepare;
pub mod phase;
pub mod world;
pub mod brief;
pub mod resource;
pub mod import;
pub mod audit;
pub mod member;
pub mod preflight;
pub mod agreement;
pub mod mutate;
pub mod coordinate;
pub mod seat;
pub mod journal;
pub mod memory;
pub mod census;
pub mod load;
pub mod layout;
pub mod territory;
pub mod tally;
pub mod activate;
pub mod additions;
pub mod migrated;
pub mod hygiene;
pub mod laws;

verus! {

} // verus!
