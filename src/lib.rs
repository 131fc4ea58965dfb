//! A sparse Game of Life engine on a bounded grid: only cells that are alive or
//! next to a change are evaluated in each generation.
pub mod cell;
pub mod cell_set;
pub mod generation;
pub mod rules;
pub mod engine;
pub mod workers;
pub mod life_engine;
pub mod embedding;
pub mod initial_cells;
