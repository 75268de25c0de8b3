//! Step-driven path finding on a rectangular grid of tiles.
//!
//! A [`Pathfinder`](pathfinder::Pathfinder) explores a [`Grid`](grid::Grid) one
//! tile per call of `step`, taking the next tile from a frontier whose order
//! is set by the chosen [`AlgorithmOption`](algorithm::AlgorithmOption).
//!
//! What a step does is said once, as a function on the views of the search
//! and the grid, in [`search`]; the executable code in [`pathfinder`] is
//! proved to do that. The modules [`preserved`], [`laws`], [`trail`],
//! [`breadth`], [`homing`] and [`informed`] hold what is proved of that
//! function over whole runs.

pub mod position;
pub mod tile_set;
pub mod distance;
pub mod tile;
pub mod grid;
pub mod chance;
pub mod algorithm;
pub mod bookkeeping;
pub mod search;
pub mod preserved;
pub mod pathfinder;
pub mod laws;
pub mod trail;
pub mod controls;
pub mod carving;
pub mod generate;
pub mod breadth;
pub mod homing;
pub mod informed;
