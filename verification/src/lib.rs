//! Two-dimensional bin packing with conflicts: items are placed into
//! rectangular bins by bottom-left placement over a set of empty maximal
//! spaces, and items that conflict with each other never share a bin.
pub mod ems;
pub mod item;
pub mod sorting;
pub mod conflict_graph;
pub mod container;
pub mod instance;
pub mod decoder;
pub mod greedy;
pub mod coloring;
pub mod serializer;
