//! Greedy, dependency-aware selection of weighted transactions for a
//! capacity-bounded batch.
//!
//! Candidates carry a fee (ranking score), a weight (resource cost) and a
//! list of parent ids. The selector ranks candidates by strictly descending
//! fee (stable: equal fees keep their input order), then makes a single
//! forward pass admitting each candidate whose id is not yet chosen and
//! whose parents have all been chosen already; the pass stops right after
//! the admission that pushes the running weight past the capacity.

pub mod model;
pub mod selection;
