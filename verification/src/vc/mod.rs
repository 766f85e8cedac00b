//! Finite Boolean verification conditions, the engines that decide them,
//! checked certificates, and fail-closed composition of their evidence.

pub mod identity;
pub mod ir;
pub mod certificate;
pub mod evidence;
pub mod inductive;
pub mod reachability;
pub mod test_hook;
pub mod smt;
pub mod lean;
