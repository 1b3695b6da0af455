//! A crossword board constructor: given a grid of open and blocked cells and
//! a dictionary, it searches for a high-scoring set of mutually compatible
//! word placements. The engine enumerates every candidate placement, draws
//! moves by weight from a selection tree, tracks which candidates stay
//! admissible cell by cell, records commitments on a fixed grid, and repairs
//! leftover adjacency conflicts; a nested rollout search drives it through a
//! per-placement policy.

pub mod common;
pub mod placement;
pub mod weighted_selection_tree;
pub mod sliced_arena;
pub mod shrink_vec;
pub mod variant_grid;
pub mod rng;
pub mod fixed_grid;
pub mod board;
pub mod constructor;
pub mod compat_map;
