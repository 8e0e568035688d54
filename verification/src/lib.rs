//! Connected-component labelling of two-dimensional pixel grids.
//!
//! `regionlabelling::connected_components` takes a `grid::Grid` of pixels, a
//! background value and the kind of neighbourhood, and returns a grid of the
//! same size in which every background pixel holds 0 and every foreground
//! pixel holds the number of its connected component. What a component is,
//! and how the components are numbered, is defined in `components`; the
//! function's contract states that it returns exactly that numbering.
//!
//! The labelling runs in two passes over the grid. The first, in `scan`,
//! hands out provisional labels and records in a `unionfind::DisjointSetForest`
//! which of them belong together; the second, in `compact`, replaces them by
//! the final numbers.

mod compact;
pub mod components;
pub mod grid;
pub mod regionlabelling;
mod scan;
pub mod unionfind;
