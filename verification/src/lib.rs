#![verifier::loop_isolation(false)]

//! Executable finite-state checks for temporal, refinement and open-system
//! semantics, together with finite Boolean verification conditions and the
//! evidence they produce.

pub mod text;
pub mod smap;
pub mod graph;
pub mod observation;
pub mod sha256;
pub mod refinement;
pub mod certificate;
pub mod open_contract;
pub mod temporal;
pub mod fair_cycle;
pub mod open;
pub mod compose;
pub mod open_encoding;
pub mod congruence;
pub mod open_refinement;
pub mod runtime;
pub mod vc;
pub mod workflow;
pub mod dispatch;
