//! Semantic diffing of KiCAD projects between two revisions.

pub mod ids;
pub mod kicad;
pub mod netlist;
pub mod order;
pub mod pages;
pub mod semantic;
pub mod sidebar;
pub mod svg;
pub mod template;
pub mod text;
pub mod tree;
