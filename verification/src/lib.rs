//! Renders a directory hierarchy as an indented tree of text lines.
//!
//! The library holds the rules of the rendering: which entries are shown, in
//! which order, with which connector and indentation, and how deep the walk
//! goes. Reading directories and writing lines is left to the caller, who
//! drives a [`walker::Walker`] with the listings it asks for.

pub mod arrange;
pub mod entry;
pub mod model;
pub mod order;
pub mod refinement;
pub mod text;
pub mod walker;
