//! A Barnes-Hut quadtree for approximate two-dimensional gravitation.
//!
//! Coordinates are fixed-point integers in hundredths of a world unit, and
//! masses are integers in whatever unit the caller picks. The index aggregates
//! exact mass moments per region, so its aggregates never depend on the order
//! in which bodies were inserted.
pub mod region;
pub mod quadtree;
pub mod aggregate;
pub mod force;
pub mod step;
