//! Time-travel dependency downgrading: given a resolved dependency graph
//! and a cutoff instant, decide which packages to downgrade and which
//! previously published version each one should be pinned to.
//!
//! The two algorithms that do the real work live here, fully verified:
//! a leveled breadth-first selector over the dependency graph
//! ([`graph::get_dependencies`]) and a version picker that chooses the
//! newest unyanked version published strictly before the cutoff
//! ([`pick::find_appropriate_version`]). Everything around them —
//! lockfile parsing, registry access, clock and process handling — stays
//! outside and hands these functions plain values.

pub mod graph;
pub mod pick;
