//! Coordinate-indexed search engine for the 3x3x3 cube: raw cube states and turn
//! effects, integer coordinates of sub-states, move tables, pruning tables and an
//! optimal solver that descends the pruning table.
use vstd::prelude::*;

pub mod mathutils;
pub mod rawcube;
pub mod coordutils;
pub mod layered;
pub mod coordinate;
pub mod orientation;
pub mod corner_perm;
pub mod edge_perm;
pub mod movetables;
pub mod pruningtables;
pub mod outer_tables;
pub mod sep_tables;
pub mod cp_tables;
pub mod solver;
pub mod turndef;
pub mod turnlaws;
pub mod turnnames;

verus! {

} // verus!
