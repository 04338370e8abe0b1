//! The verified core of a 2D acoustic wave sandbox: grid indexing, the
//! material-property and material-map readers (CSV and plain PPM masks),
//! the material-id metadata stored beside wavefields, the named visual
//! scenarios with their material layouts, and the output decisions of the
//! solver (which files to write, and when).

pub mod grid;
pub mod text;
pub mod csv;
pub mod materials;
pub mod ppm;
pub mod metadata;
pub mod scenarios;
pub mod solver;
