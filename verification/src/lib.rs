//! Generates a LaTeX report skeleton from a directory tree of images.
//!
//! A filesystem hierarchy is modelled as a [`tree::Tree`]: one node per
//! directory, holding the extension-stripped paths of the raster images
//! (`jpg` / `png`) found directly inside it, plus one child node per
//! subdirectory.  Rendering a tree yields, for every directory below the
//! root, the content of a `section.tex` file (a section heading, inclusion
//! directives for nested sections, and a figure block per image) together
//! with the inclusion directives the caller assembles into the top-level
//! document.  The library is pure: directory listings come in as plain
//! values and file contents go out as plain values, so every decision it
//! makes is verified.

pub mod laws;
pub mod markup;
pub mod paths;
pub mod render;
pub mod tree;
pub mod views;
