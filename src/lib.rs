//! Random connected clusters of cells on a hexagonal grid.
//!
//! A cluster grows from the origin by a breadth-first expansion in which each
//! newly reached cell other than the origin joins with a fixed probability.


pub mod cluster;
pub mod hex;
