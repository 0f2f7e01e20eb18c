//! The integer and structural core of a CAD kernel: the index behind the
//! pairwise intersection tester, grid and face triangulation, trimming,
//! shape sorting, NURBS bookkeeping and pattern layout.

pub mod hit;
pub mod texture;
pub mod mesh;
pub mod boundary;
pub mod trim;
pub mod shape;
pub mod nurbs;
pub mod grid_pattern;
pub mod digest;
